//! Extraction of per-champion balance statistics from wiki table markup.

pub mod damage;
pub mod markup;
pub mod models;
pub mod page;
pub mod pipeline;
pub mod resolve;
pub mod text;
