//! Locating the statistics tables in the two wiki pages and reading their rows.

use vstd::prelude::*;
use crate::markup::{
    all_in, all_in_from, all_in_list, all_in_node, all_in_refs, derefs, first_in, first_in_from,
    first_in_list, first_in_node, first_in_refs, Markup, Selector,
};
use crate::models::Cell;

verus! {

/// A region of a page that a table is looked up through.
#[derive(Debug, PartialEq, Eq, Structural)]
pub enum Region {
    /// The tabbed-content container.
    Tabber,
    /// The table inside it.
    Table,
    /// The table's body.
    Body,
}

/// `div.tabber`: a tabbed-content container.
pub open spec fn tabber_sel() -> (Seq<char>, Seq<Seq<char>>) {
    (seq!['d', 'i', 'v'], seq![seq!['t', 'a', 'b', 'b', 'e', 'r']])
}

/// `table`: any table.
pub open spec fn table_sel() -> (Seq<char>, Seq<Seq<char>>) {
    (seq!['t', 'a', 'b', 'l', 'e'], Seq::empty())
}

/// `table.article-table.sortable`: a sortable article table.
pub open spec fn sortable_sel() -> (Seq<char>, Seq<Seq<char>>) {
    (
        seq!['t', 'a', 'b', 'l', 'e'],
        seq![
            seq!['a', 'r', 't', 'i', 'c', 'l', 'e', '-', 't', 'a', 'b', 'l', 'e'],
            seq!['s', 'o', 'r', 't', 'a', 'b', 'l', 'e'],
        ],
    )
}

/// `tbody`: a table body.
pub open spec fn body_sel() -> (Seq<char>, Seq<Seq<char>>) {
    (seq!['t', 'b', 'o', 'd', 'y'], Seq::empty())
}

/// `tr`: a table row.
pub open spec fn row_sel() -> (Seq<char>, Seq<Seq<char>>) {
    (seq!['t', 'r'], Seq::empty())
}

/// The child nodes of `m`; none unless it is an element.
pub open spec fn children_of(m: Markup) -> Seq<Markup> {
    match m {
        Markup::Element { children, .. } => children@,
        Markup::Other(_) => Seq::empty(),
    }
}

/// Whether `c` holds what node `m` offers a row mapper: its attributes when it is an
/// element, and its markup.
pub open spec fn is_cell_of(c: Cell, m: Markup) -> bool {
    match m {
        Markup::Element { attrs, html, .. } => c.attrs matches Some(a) && a@ == attrs@
            && c.markup@ == html@,
        Markup::Other(h) => c.attrs is None && c.markup@ == h@,
    }
}

/// Whether `cells` are the cells of row `row`, one per child node.
pub open spec fn is_row_of(cells: Seq<Cell>, row: Markup) -> bool {
    &&& cells.len() == children_of(row).len()
    &&& forall|i: int| 0 <= i < cells.len() ==> is_cell_of(#[trigger] cells[i], children_of(row)[i])
}

/// Whether `rows` are the cells of the rows `trs`, in order.
pub open spec fn are_rows_of(rows: Seq<Vec<Cell>>, trs: Seq<Markup>) -> bool {
    &&& rows.len() == trs.len()
    &&& forall|i: int| 0 <= i < rows.len() ==> is_row_of((#[trigger] rows[i])@, trs[i])
}

/// The ARAM page's table body: the first `tbody` of the first `table` of the first
/// tabbed container, or the first region that is absent.
pub open spec fn aram_body(doc: Seq<Markup>) -> Result<Markup, Region> {
    match first_in_from(doc, tabber_sel(), 0) {
        None => Err(Region::Tabber),
        Some(tabber) => match first_in_node(tabber, table_sel()) {
            None => Err(Region::Table),
            Some(table) => match first_in_node(table, body_sel()) {
                None => Err(Region::Body),
                Some(body) => Ok(body),
            },
        },
    }
}

/// The Arena page's table body: the first `tbody` among every sortable article table
/// inside every tabbed container.
pub open spec fn arena_body(doc: Seq<Markup>) -> Option<Markup> {
    first_in_from(
        all_in_from(all_in_from(doc, tabber_sel(), 0), sortable_sel(), 0),
        body_sel(),
        0,
    )
}

/// A selector of one tag and no classes.
fn tag_selector(tag: &str) -> (s: Selector)
    ensures
        s@.0 == tag@,
        s@.1 == Seq::<Seq<char>>::empty(),
{
    let s = Selector { tag: String::from_str(tag), classes: Vec::new() };
    proof {
        assert(s@.1 =~= Seq::<Seq<char>>::empty());
    }
    s
}

/// `div.tabber`.
fn tabber_selector() -> (s: Selector)
    ensures
        s@ == tabber_sel(),
{
    let s = Selector {
        tag: String::from_str("div"),
        classes: vec![String::from_str("tabber")],
    };
    proof {
        reveal_strlit("div");
        reveal_strlit("tabber");
        assert(s@.0 =~= tabber_sel().0);
        assert(s@.1[0] =~= tabber_sel().1[0]);
        assert(s@.1 =~= tabber_sel().1);
    }
    s
}

/// `table.article-table.sortable`.
fn sortable_selector() -> (s: Selector)
    ensures
        s@ == sortable_sel(),
{
    let s = Selector {
        tag: String::from_str("table"),
        classes: vec![String::from_str("article-table"), String::from_str("sortable")],
    };
    proof {
        reveal_strlit("table");
        reveal_strlit("article-table");
        reveal_strlit("sortable");
        assert(s@.0 =~= sortable_sel().0);
        assert(s@.1[0] =~= sortable_sel().1[0]);
        assert(s@.1[1] =~= sortable_sel().1[1]);
        assert(s@.1 =~= sortable_sel().1);
    }
    s
}

/// `table`.
fn table_selector() -> (s: Selector)
    ensures
        s@ == table_sel(),
{
    let s = tag_selector("table");
    proof {
        reveal_strlit("table");
        assert(s@.0 =~= table_sel().0);
    }
    s
}

/// `tbody`.
fn body_selector() -> (s: Selector)
    ensures
        s@ == body_sel(),
{
    let s = tag_selector("tbody");
    proof {
        reveal_strlit("tbody");
        assert(s@.0 =~= body_sel().0);
    }
    s
}

/// `tr`.
fn row_selector() -> (s: Selector)
    ensures
        s@ == row_sel(),
{
    let s = tag_selector("tr");
    proof {
        reveal_strlit("tr");
        assert(s@.0 =~= row_sel().0);
    }
    s
}

/// A copy of a list of attributes.
fn copy_attrs(attrs: &Vec<(String, String)>) -> (r: Vec<(String, String)>)
    ensures
        r@ == attrs@,
{
    let mut out: Vec<(String, String)> = Vec::new();
    let mut i: usize = 0;
    while i < attrs.len()
        invariant
            i <= attrs@.len(),
            out@ == attrs@.subrange(0, i as int),
        decreases attrs@.len() - i,
    {
        let k = attrs[i].0.clone();
        let v = attrs[i].1.clone();
        out.push((k, v));
        proof {
            assert(out@ =~= attrs@.subrange(0, i + 1));
        }
        i = i + 1;
    }
    proof {
        assert(attrs@.subrange(0, attrs@.len() as int) =~= attrs@);
    }
    out
}

/// The cell that node `m` makes.
fn cell_of(m: &Markup) -> (c: Cell)
    ensures
        is_cell_of(c, *m),
{
    match m {
        Markup::Element { attrs, html, .. } => Cell { attrs: Some(copy_attrs(attrs)), markup: html.clone() },
        Markup::Other(h) => Cell { attrs: None, markup: h.clone() },
    }
}

/// The cells of every row in `trs`, in order.
fn rows_of(trs: &Vec<&Markup>) -> (r: Vec<Vec<Cell>>)
    ensures
        are_rows_of(r@, derefs(trs@)),
{
    let mut out: Vec<Vec<Cell>> = Vec::new();
    let mut i: usize = 0;
    while i < trs.len()
        invariant
            i <= trs@.len(),
            out@.len() == i,
            forall|k: int| 0 <= k < i ==> is_row_of((#[trigger] out@[k])@, derefs(trs@)[k]),
        decreases trs@.len() - i,
    {
        let row: &Markup = trs[i];
        let mut cells: Vec<Cell> = Vec::new();
        match row {
            Markup::Element { children, .. } => {
                let mut j: usize = 0;
                while j < children.len()
                    invariant
                        j <= children@.len(),
                        cells@.len() == j,
                        forall|q: int| 0 <= q < j ==> is_cell_of(#[trigger] cells@[q], children@[q]),
                    decreases children@.len() - j,
                {
                    cells.push(cell_of(&children[j]));
                    j = j + 1;
                }
            },
            Markup::Other(_) => {},
        }
        proof {
            assert(derefs(trs@)[i as int] == *trs@[i as int]);
        }
        out.push(cells);
        proof {
            assert(out@[i as int]@ == cells@);
        }
        i = i + 1;
    }
    out
}

/// The rows of the ARAM page's table, header row first: the table of the first
/// tabbed container, and the rows of its body. Fails with the first region that is
/// absent.
pub fn aram_rows(doc: &Vec<Markup>) -> (r: Result<Vec<Vec<Cell>>, Region>)
    ensures
        match r {
            Ok(rows) => aram_body(doc@) matches Ok(body) && are_rows_of(
                rows@,
                all_in_node(body, row_sel()),
            ),
            Err(w) => aram_body(doc@) == Err::<Markup, Region>(w),
        },
{
    let tabber = match first_in_list(doc, &tabber_selector()) {
        Some(t) => t,
        None => return Err(Region::Tabber),
    };
    let table = match first_in(tabber, &table_selector()) {
        Some(t) => t,
        None => return Err(Region::Table),
    };
    let body = match first_in(table, &body_selector()) {
        Some(b) => b,
        None => return Err(Region::Body),
    };
    Ok(rows_of(&all_in(body, &row_selector())))
}

/// The rows of the Arena page's tables, first row first: every sortable article table
/// inside every tabbed container is gathered, and the rows of the first body among
/// them are read. Fails when there is no such body.
pub fn arena_rows(doc: &Vec<Markup>) -> (r: Result<Vec<Vec<Cell>>, Region>)
    ensures
        match r {
            Ok(rows) => arena_body(doc@) matches Some(body) && are_rows_of(
                rows@,
                all_in_node(body, row_sel()),
            ),
            Err(w) => arena_body(doc@) is None && w == Region::Body,
        },
{
    let tabbers = all_in_list(doc, &tabber_selector());
    let tables = all_in_refs(&tabbers, &sortable_selector());
    let body = match first_in_refs(&tables, &body_selector()) {
        Some(b) => b,
        None => return Err(Region::Body),
    };
    Ok(rows_of(&all_in(body, &row_selector())))
}

} // verus!
