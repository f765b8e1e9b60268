//! Table rows and the records mapped from them.

use vstd::prelude::*;
use crate::damage::{is_damage_of, parse_damage_stat, DamageStat};
use crate::text::{inner_html, inner_of};

verus! {

/// One cell of a table row, as plain values: the attributes of the cell when it is an
/// element (`None` for text or comment content), and the cell serialized to markup.
#[derive(Debug)]
pub struct Cell {
    pub attrs: Option<Vec<(String, String)>>,
    pub markup: String,
}

/// Why a row does not follow the page's column layout.
#[derive(Debug, PartialEq, Eq, Structural)]
pub enum RowError {
    /// The row has fewer cells than the layout needs.
    TooFewCells,
    /// The first cell is not an element carrying a `data-sort-value` attribute.
    MissingSortValue,
}

/// The number of cells a row of either page must have.
pub const ROW_CELLS: usize = 4;

/// The attribute of the first cell that holds the champion's name.
pub open spec fn sort_key() -> Seq<char> {
    seq!['d', 'a', 't', 'a', '-', 's', 'o', 'r', 't', '-', 'v', 'a', 'l', 'u', 'e']
}

/// The value of the first attribute named `sort_key()` among `attrs`.
pub open spec fn sort_value_in(attrs: Seq<(String, String)>) -> Option<Seq<char>>
    decreases attrs.len(),
{
    if attrs.len() == 0 {
        None
    } else if attrs[0].0@ == sort_key() {
        Some(attrs[0].1@)
    } else {
        sort_value_in(attrs.drop_first())
    }
}

/// The sort value of a cell, when it is an element that has one.
pub open spec fn sort_value_of(c: Cell) -> Option<Seq<char>> {
    match c.attrs {
        Some(a) => sort_value_in(a@),
        None => None,
    }
}

/// Whether a row does not follow the layout, and why.
pub open spec fn row_error(cells: Seq<Cell>) -> Option<RowError> {
    if cells.len() < ROW_CELLS {
        Some(RowError::TooFewCells)
    } else if sort_value_of(cells[0]) is None {
        Some(RowError::MissingSortValue)
    } else {
        None
    }
}

/// What `html_escape::decode_html_entities` makes of a text.
pub uninterp spec fn decoded(s: Seq<char>) -> Seq<char>;

/// Relies on `html_escape::decode_html_entities`: HTML character references are
/// replaced by the characters they stand for.
#[verifier::external_body]
fn decode_entities(s: &str) -> (r: String)
    ensures
        r@ == decoded(s@),
{
    html_escape::decode_html_entities(s).to_string()
}

/// The value of the first attribute of `attrs` named `data-sort-value`.
fn find_sort_value(attrs: &Vec<(String, String)>) -> (r: Option<String>)
    ensures
        match r {
            Some(v) => sort_value_in(attrs@) == Some(v@),
            None => sort_value_in(attrs@) is None,
        },
{
    let key = String::from_str("data-sort-value");
    proof {
        reveal_strlit("data-sort-value");
        assert(key@ =~= sort_key());
    }
    let n = attrs.len();
    let mut i: usize = 0;
    proof {
        assert(attrs@.subrange(0, n as int) =~= attrs@);
    }
    while i < n
        invariant
            i <= n == attrs@.len(),
            key@ == sort_key(),
            sort_value_in(attrs@) == sort_value_in(attrs@.subrange(i as int, n as int)),
        decreases n - i,
    {
        proof {
            let tail = attrs@.subrange(i as int, n as int);
            assert(tail.drop_first() =~= attrs@.subrange(i + 1, n as int));
            assert(tail[0] == attrs@[i as int]);
        }
        if attrs[i].0 == key {
            return Some(attrs[i].1.clone());
        }
        i = i + 1;
    }
    proof {
        assert(attrs@.subrange(n as int, n as int) =~= Seq::<(String, String)>::empty());
    }
    None
}

/// Checks a row against the layout and returns the first cell's sort value.
fn checked_sort_value(cells: &Vec<Cell>) -> (r: Result<String, RowError>)
    ensures
        match r {
            Ok(v) => row_error(cells@) is None && sort_value_of(cells@[0]) == Some(v@),
            Err(e) => row_error(cells@) == Some(e),
        },
{
    if cells.len() < ROW_CELLS {
        return Err(RowError::TooFewCells);
    }
    match &cells[0].attrs {
        Some(a) => match find_sort_value(a) {
            Some(v) => Ok(v),
            None => Err(RowError::MissingSortValue),
        },
        None => Err(RowError::MissingSortValue),
    }
}

/// A champion's row of the ARAM page.
#[derive(Debug)]
pub struct AramChampionStats {
    pub name: String,
    pub id: i32,
    pub damage_dealt: DamageStat,
    pub damage_received: DamageStat,
    pub other: String,
}

/// Whether `s` holds what a well-formed ARAM row `cells` gives, under the name `name`.
pub open spec fn is_aram_of(s: AramChampionStats, name: Seq<char>, cells: Seq<Cell>) -> bool {
    &&& s.name@ == name
    &&& is_damage_of(s.damage_dealt, cells[1].markup@)
    &&& is_damage_of(s.damage_received, cells[2].markup@)
    &&& s.other@ == inner_of(cells[3].markup@)
}

impl AramChampionStats {
    /// Maps an ARAM row: the name is the decoded sort value of the first cell, the two
    /// damage figures come from the second and third cells, and the inner markup of
    /// the fourth is kept. The id stays 0 until it is resolved.
    pub fn new(value: &Vec<Cell>) -> (r: Result<Self, RowError>)
        ensures
            match r {
                Ok(s) => row_error(value@) is None && s.id == 0
                    && is_aram_of(s, decoded(sort_value_of(value@[0])->0), value@),
                Err(e) => row_error(value@) == Some(e),
            },
    {
        let raw = checked_sort_value(value)?;
        let name = decode_entities(raw.as_str());
        Ok(Self::with_name(name, value))
    }

    /// Maps an ARAM row whose name has already been read.
    pub fn with_name(name: String, value: &Vec<Cell>) -> (r: Self)
        requires
            value@.len() >= ROW_CELLS,
        ensures
            is_aram_of(r, name@, value@),
            r.id == 0,
    {
        AramChampionStats {
            name,
            id: 0,
            damage_dealt: parse_damage_stat(value[1].markup.clone()),
            damage_received: parse_damage_stat(value[2].markup.clone()),
            other: inner_html(value[3].markup.as_str()),
        }
    }
}

/// A champion's row of the Arena page.
#[derive(Debug)]
pub struct ArenaChampionStats {
    pub name: String,
    pub id: i32,
    pub other: String,
}

/// Whether `s` holds what a well-formed Arena row `cells` gives, under the name `name`.
pub open spec fn is_arena_of(s: ArenaChampionStats, name: Seq<char>, cells: Seq<Cell>) -> bool {
    &&& s.name@ == name
    &&& s.other@ == inner_of(cells[3].markup@)
}

impl ArenaChampionStats {
    /// Maps an Arena row: the name is the decoded sort value of the first cell and
    /// the inner markup of the fourth is kept. The id stays 0 until it is resolved.
    pub fn new(value: &Vec<Cell>) -> (r: Result<Self, RowError>)
        ensures
            match r {
                Ok(s) => row_error(value@) is None && s.id == 0
                    && is_arena_of(s, decoded(sort_value_of(value@[0])->0), value@),
                Err(e) => row_error(value@) == Some(e),
            },
    {
        let raw = checked_sort_value(value)?;
        let name = decode_entities(raw.as_str());
        Ok(Self::with_name(name, value))
    }

    /// Maps an Arena row whose name has already been read.
    pub fn with_name(name: String, value: &Vec<Cell>) -> (r: Self)
        requires
            value@.len() >= ROW_CELLS,
        ensures
            is_arena_of(r, name@, value@),
            r.id == 0,
    {
        ArenaChampionStats { name, id: 0, other: inner_html(value[3].markup.as_str()) }
    }
}

/// An entry of the champion summary feed: the canonical identity of a champion.
#[derive(Debug)]
pub struct ChampionSummary {
    pub name: String,
    pub id: i32,
    pub alias: String,
}

/// The dataset: each page's records keyed by the alias they were resolved to, in
/// increasing alias order, each alias once.
#[derive(Debug)]
pub struct Stats {
    pub aram: Vec<(String, AramChampionStats)>,
    pub arena: Vec<(String, ArenaChampionStats)>,
}

} // verus!
