//! Turning a page's table rows into resolved records, and assembling the dataset.

use vstd::prelude::*;
use crate::models::{
    decoded, is_aram_of, is_arena_of, row_error, sort_value_of, AramChampionStats,
    ArenaChampionStats, Cell, ChampionSummary, RowError, Stats,
};
use crate::resolve::{first_match, resolve};
use crate::text::chars_of;

verus! {

/// What went wrong with a row.
#[derive(Debug, PartialEq, Eq, Structural)]
pub enum ScrapeErrorKind {
    /// The row does not follow the page's layout.
    Layout(RowError),
    /// No summary entry may resolve the row's name.
    Unresolved,
}

/// The first row of a table that could not be turned into a record.
#[derive(Debug, PartialEq, Eq, Structural)]
pub struct ScrapeError {
    /// The row's position in the table, the header row being 0.
    pub row: usize,
    pub kind: ScrapeErrorKind,
}

/// The name read from a well-formed row.
pub open spec fn row_name(cells: Seq<Cell>) -> Seq<char> {
    decoded(sort_value_of(cells[0])->0)
}

/// Why a data row cannot be turned into a resolved record, if it cannot.
pub open spec fn row_failure(sums: Seq<ChampionSummary>, cells: Seq<Cell>) -> Option<ScrapeErrorKind> {
    match row_error(cells) {
        Some(e) => Some(ScrapeErrorKind::Layout(e)),
        None => if first_match(sums, row_name(cells)) is None {
            Some(ScrapeErrorKind::Unresolved)
        } else {
            None
        },
    }
}

/// The summary entry that a resolvable row resolves to.
pub open spec fn row_entry(sums: Seq<ChampionSummary>, cells: Seq<Cell>) -> ChampionSummary {
    sums[first_match(sums, row_name(cells))->0]
}

/// Whether `e` is the keyed record that the resolvable ARAM row `cells` yields.
pub open spec fn is_aram_entry(
    e: (String, AramChampionStats),
    sums: Seq<ChampionSummary>,
    cells: Seq<Cell>,
) -> bool {
    &&& e.0@ == row_entry(sums, cells).alias@
    &&& e.1.id == row_entry(sums, cells).id
    &&& is_aram_of(e.1, row_name(cells), cells)
}

/// Whether `e` is the keyed record that the resolvable Arena row `cells` yields.
pub open spec fn is_arena_entry(
    e: (String, ArenaChampionStats),
    sums: Seq<ChampionSummary>,
    cells: Seq<Cell>,
) -> bool {
    &&& e.0@ == row_entry(sums, cells).alias@
    &&& e.1.id == row_entry(sums, cells).id
    &&& is_arena_of(e.1, row_name(cells), cells)
}

/// Whether every data row (all rows but the first) of `rows` before `end` is resolvable.
pub open spec fn rows_ok(sums: Seq<ChampionSummary>, rows: Seq<Vec<Cell>>, end: int) -> bool {
    forall|i: int| 1 <= i < end ==> row_failure(sums, #[trigger] rows[i]@) is None
}

/// Whether `e` reports the first data row of `rows` that is not resolvable.
pub open spec fn is_first_failure(e: ScrapeError, sums: Seq<ChampionSummary>, rows: Seq<Vec<Cell>>) -> bool {
    &&& 1 <= e.row < rows.len()
    &&& rows_ok(sums, rows, e.row as int)
    &&& row_failure(sums, rows[e.row as int]@) == Some(e.kind)
}

/// Whether some entry of `s` has the key `a`.
pub open spec fn has_key<R>(s: Seq<(String, R)>, a: Seq<char>) -> bool {
    exists|k: int| 0 <= k < s.len() && (#[trigger] s[k]).0@ == a
}

/// Lexicographic order of keys by code point, the order of `String`'s `Ord`.
pub open spec fn key_lt(a: Seq<char>, b: Seq<char>) -> bool
    decreases a.len(),
{
    if a.len() == 0 {
        b.len() > 0
    } else if b.len() == 0 {
        false
    } else if a[0] != b[0] {
        a[0] < b[0]
    } else {
        key_lt(a.drop_first(), b.drop_first())
    }
}

/// Whether the keys of `s` strictly increase, so that each key occurs once.
pub open spec fn keys_sorted<R>(s: Seq<(String, R)>) -> bool {
    forall|k: int, l: int| 0 <= k < l < s.len() ==> key_lt((#[trigger] s[k]).0@, (#[trigger] s[l]).0@)
}

/// No key precedes itself.
pub proof fn lemma_key_lt_irreflexive(a: Seq<char>)
    ensures
        !key_lt(a, a),
    decreases a.len(),
{
    if a.len() > 0 {
        lemma_key_lt_irreflexive(a.drop_first());
    }
}

/// The key order is transitive.
pub proof fn lemma_key_lt_transitive(a: Seq<char>, b: Seq<char>, c: Seq<char>)
    requires
        key_lt(a, b),
        key_lt(b, c),
    ensures
        key_lt(a, c),
    decreases a.len(),
{
    if a.len() > 0 && b.len() > 0 && c.len() > 0 && a[0] == b[0] && b[0] == c[0] {
        lemma_key_lt_transitive(a.drop_first(), b.drop_first(), c.drop_first());
    }
}

/// Of two different keys, one precedes the other.
pub proof fn lemma_key_lt_total(a: Seq<char>, b: Seq<char>)
    requires
        a != b,
    ensures
        key_lt(a, b) || key_lt(b, a),
    decreases a.len(),
{
    if a.len() > 0 && b.len() > 0 && a[0] == b[0] {
        if a.drop_first() == b.drop_first() {
            assert(a =~= seq![a[0]] + a.drop_first());
            assert(b =~= seq![b[0]] + b.drop_first());
        }
        lemma_key_lt_total(a.drop_first(), b.drop_first());
    } else if a.len() == 0 && b.len() == 0 {
        assert(a =~= b);
    }
}

/// Sorted keys are distinct.
pub proof fn lemma_sorted_keys_unique<R>(s: Seq<(String, R)>, k: int, l: int)
    requires
        keys_sorted(s),
        0 <= k < l < s.len(),
    ensures
        s[k].0@ != s[l].0@,
{
    lemma_key_lt_irreflexive(s[k].0@);
}

/// Whether `a` precedes `b` in key order.
fn key_less(a: &String, b: &String) -> (r: bool)
    ensures
        r == key_lt(a@, b@),
{
    let x = chars_of(a.as_str());
    let y = chars_of(b.as_str());
    let mut i: usize = 0;
    proof {
        assert(x@.subrange(0, x@.len() as int) =~= x@);
        assert(y@.subrange(0, y@.len() as int) =~= y@);
    }
    while i < x.len() && i < y.len() && x[i] == y[i]
        invariant
            i <= x@.len(),
            i <= y@.len(),
            key_lt(a@, b@) == key_lt(
                x@.subrange(i as int, x@.len() as int),
                y@.subrange(i as int, y@.len() as int),
            ),
            x@ == a@,
            y@ == b@,
        decreases x@.len() - i,
    {
        proof {
            let xs = x@.subrange(i as int, x@.len() as int);
            let ys = y@.subrange(i as int, y@.len() as int);
            assert(xs.drop_first() =~= x@.subrange(i + 1, x@.len() as int));
            assert(ys.drop_first() =~= y@.subrange(i + 1, y@.len() as int));
        }
        i = i + 1;
    }
    let ghost xs = x@.subrange(i as int, x@.len() as int);
    let ghost ys = y@.subrange(i as int, y@.len() as int);
    if i == x.len() {
        proof {
            assert(xs.len() == 0);
        }
        i < y.len()
    } else if i == y.len() {
        proof {
            assert(ys.len() == 0);
        }
        false
    } else {
        proof {
            assert(xs[0] == x@[i as int] && ys[0] == y@[i as int]);
        }
        x[i] < y[i]
    }
}

/// The alias that a resolvable row resolves to.
pub open spec fn row_alias(sums: Seq<ChampionSummary>, cells: Seq<Cell>) -> Seq<char> {
    row_entry(sums, cells).alias@
}

/// The last data row before `end` that resolves to `alias`.
pub open spec fn last_row_before(
    sums: Seq<ChampionSummary>,
    rows: Seq<Vec<Cell>>,
    alias: Seq<char>,
    end: int,
) -> Option<int>
    decreases end,
{
    if end <= 1 {
        None
    } else if row_alias(sums, rows[end - 1]@) == alias {
        Some(end - 1)
    } else {
        last_row_before(sums, rows, alias, end - 1)
    }
}

/// Whether `t` is the table that the Aram rows `rows` yield: every data row resolves,
/// the keys are the aliases the data rows resolve to, in increasing order, and each alias holds
/// the record of the last row that resolves to it.
pub open spec fn is_aram_table(
    t: Seq<(String, AramChampionStats)>,
    sums: Seq<ChampionSummary>,
    rows: Seq<Vec<Cell>>,
) -> bool {
    &&& rows_ok(sums, rows, rows.len() as int)
    &&& keys_sorted(t)
    &&& forall|r: int| 1 <= r < rows.len() ==> has_key(t, row_alias(sums, #[trigger] rows[r]@))
    &&& forall|k: int| 0 <= k < t.len()
        ==> (last_row_before(sums, rows, (#[trigger] t[k]).0@, rows.len() as int) matches Some(r)
        && is_aram_entry(t[k], sums, rows[r]@))
}

/// Whether `t` is the table that the Arena rows `rows` yield: every data row resolves,
/// the keys are the aliases the data rows resolve to, in increasing order, and each alias holds
/// the record of the last row that resolves to it.
pub open spec fn is_arena_table(
    t: Seq<(String, ArenaChampionStats)>,
    sums: Seq<ChampionSummary>,
    rows: Seq<Vec<Cell>>,
) -> bool {
    &&& rows_ok(sums, rows, rows.len() as int)
    &&& keys_sorted(t)
    &&& forall|r: int| 1 <= r < rows.len() ==> has_key(t, row_alias(sums, #[trigger] rows[r]@))
    &&& forall|k: int| 0 <= k < t.len()
        ==> (last_row_before(sums, rows, (#[trigger] t[k]).0@, rows.len() as int) matches Some(r)
        && is_arena_entry(t[k], sums, rows[r]@))
}

/// Where an entry of the old list stands after an upsert that put its key at `j`.
pub open spec fn moved_to(k: int, j: int, grew: bool) -> int {
    if grew && k >= j { k + 1 } else { k }
}

/// Where an entry of the new list stood before an upsert that put its key at `j`.
pub open spec fn moved_from(k: int, j: int, grew: bool) -> int {
    if grew && k > j { k - 1 } else { k }
}

/// Puts `(key, val)` into `m` at its place in key order, replacing the entry that has
/// the same key, if any. Returns the position of the entry.
fn upsert<R>(m: &mut Vec<(String, R)>, key: String, val: R) -> (j: usize)
    requires
        keys_sorted(old(m)@),
    ensures
        keys_sorted(final(m)@),
        j < final(m)@.len(),
        j <= old(m)@.len(),
        final(m)@[j as int].0@ == key@,
        final(m)@[j as int].1 == val,
        final(m)@.len() == old(m)@.len() || final(m)@.len() == old(m)@.len() + 1,
        forall|k: int| #![trigger final(m)@[k]] 0 <= k < final(m)@.len() && k != j
            ==> final(m)@[k].0@ != key@ && final(m)@[k] == old(m)@[moved_from(k, j as int, final(m)@.len() > old(m)@.len())],
        forall|k: int| #![trigger old(m)@[k]] 0 <= k < old(m)@.len() && old(m)@[k].0@ != key@
            ==> final(m)@[moved_to(k, j as int, final(m)@.len() > old(m)@.len())] == old(m)@[k],
{
    let n = m.len();
    let mut i: usize = 0;
    while i < n && key_less(&m[i].0, &key)
        invariant
            n == m@.len(),
            i <= n,
            m@ == old(m)@,
            keys_sorted(old(m)@),
            forall|k: int| 0 <= k < i ==> key_lt((#[trigger] m@[k]).0@, key@),
        decreases n - i,
    {
        i = i + 1;
    }
    let ghost o = m@;
    proof {
        // every entry from `i` on has a key that does not precede `key`
        assert forall|k: int| i <= k < n implies !key_lt((#[trigger] o[k]).0@, key@) by {
            if k > i {
                if key_lt(o[k].0@, key@) {
                    lemma_key_lt_transitive(o[i as int].0@, o[k].0@, key@);
                }
            }
        }
    }
    if i < n && m[i].0 == key {
        m.set(i, (key, val));
        proof {
            assert forall|k: int, l: int| 0 <= k < l < m@.len() implies key_lt(
                (#[trigger] m@[k]).0@,
                (#[trigger] m@[l]).0@,
            ) by {
                assert(m@[k].0@ == o[k].0@);
                assert(m@[l].0@ == o[l].0@);
            }
            assert forall|k: int| #![trigger m@[k]] 0 <= k < m@.len() && k != i implies m@[k].0@
                != key@ by {
                if k < i {
                    lemma_key_lt_irreflexive(key@);
                } else {
                    lemma_sorted_keys_unique(o, i as int, k);
                }
            }
        }
        return i;
    }
    m.insert(i, (key, val));
    proof {
        assert forall|k: int| i < k <= n implies key_lt(key@, (#[trigger] m@[k]).0@) by {
            assert(m@[k] == o[k - 1]);
            lemma_key_lt_total(key@, o[k - 1].0@);
        }
        assert forall|k: int, l: int| 0 <= k < l < m@.len() implies key_lt(
            (#[trigger] m@[k]).0@,
            (#[trigger] m@[l]).0@,
        ) by {
            if l < i {
                assert(m@[k] == o[k] && m@[l] == o[l]);
            } else if l == i {
                assert(m@[k] == o[k]);
            } else if k < i {
                assert(m@[k] == o[k]);
                assert(key_lt(key@, m@[l].0@));
                lemma_key_lt_transitive(m@[k].0@, key@, m@[l].0@);
            } else if k == i {
            } else {
                assert(m@[k] == o[k - 1] && m@[l] == o[l - 1]);
            }
        }
        assert forall|k: int| #![trigger m@[k]] 0 <= k < m@.len() && k != i implies m@[k].0@
            != key@ by {
            if k < i {
                lemma_key_lt_irreflexive(key@);
            } else {
                lemma_key_lt_irreflexive(key@);
            }
        }
    }
    i
}

/// One step of building a table: after the record of data row `i`, keyed by `a`, is
/// put into `prev` at `j` (giving `out`), what held of `prev` for the rows before `i`
/// holds of `out` for the rows up to `i`.
proof fn lemma_table_step<R>(
    prev: Seq<(String, R)>,
    out: Seq<(String, R)>,
    j: int,
    sums: Seq<ChampionSummary>,
    rows: Seq<Vec<Cell>>,
    i: int,
    entry: spec_fn((String, R), Seq<Cell>) -> bool,
)
    requires
        1 <= i < rows.len(),
        0 <= j < out.len(),
        j <= prev.len(),
        out[j].0@ == row_alias(sums, rows[i]@),
        entry(out[j], rows[i]@),
        out.len() == prev.len() || out.len() == prev.len() + 1,
        forall|k: int| #![trigger out[k]] 0 <= k < out.len() && k != j
            ==> out[k].0@ != out[j].0@ && out[k] == prev[moved_from(k, j, out.len() > prev.len())],
        forall|k: int| #![trigger prev[k]] 0 <= k < prev.len() && prev[k].0@ != out[j].0@
            ==> out[moved_to(k, j, out.len() > prev.len())] == prev[k],
        forall|r: int| 1 <= r < i ==> has_key(prev, row_alias(sums, #[trigger] rows[r]@)),
        forall|k: int| 0 <= k < prev.len()
            ==> (last_row_before(sums, rows, (#[trigger] prev[k]).0@, i) matches Some(r)
            && entry(prev[k], rows[r]@)),
    ensures
        forall|r: int| 1 <= r < i + 1 ==> has_key(out, row_alias(sums, #[trigger] rows[r]@)),
        forall|k: int| 0 <= k < out.len()
            ==> (last_row_before(sums, rows, (#[trigger] out[k]).0@, i + 1) matches Some(r)
            && entry(out[k], rows[r]@)),
{
    let a = out[j].0@;
    let grew = out.len() > prev.len();
    assert forall|r: int| 1 <= r < i + 1 implies has_key(out, row_alias(sums, #[trigger] rows[r]@)) by {
        let b = row_alias(sums, rows[r]@);
        if b == a {
            assert(out[j].0@ == b);
        } else {
            let k = choose|k: int| 0 <= k < prev.len() && (#[trigger] prev[k]).0@ == b;
            let d = moved_to(k, j, grew);
            assert(out[d] == prev[k]);
        }
    }
    assert forall|k: int| 0 <= k < out.len() implies (last_row_before(
        sums,
        rows,
        (#[trigger] out[k]).0@,
        i + 1,
    ) matches Some(r) && entry(out[k], rows[r]@)) by {
        if k != j {
            let s = moved_from(k, j, grew);
            assert(out[k] == prev[s]);
        }
    }
}

/// Maps, resolves and keys every row of the ARAM page's table but the header row.
/// Fails on the first row that does not follow the layout or cannot be resolved.
pub fn aram_table(summaries: &Vec<ChampionSummary>, rows: &Vec<Vec<Cell>>) -> (r: Result<
    Vec<(String, AramChampionStats)>,
    ScrapeError,
>)
    ensures
        match r {
            Ok(t) => is_aram_table(t@, summaries@, rows@),
            Err(e) => is_first_failure(e, summaries@, rows@),
        },
{
    let mut out: Vec<(String, AramChampionStats)> = Vec::new();
    let n = rows.len();
    let mut i: usize = 1;
    while i < n
        invariant
            n == rows@.len(),
            1 <= i,
            i <= n || (n == 0 && i == 1),
            rows_ok(summaries@, rows@, i as int),
            keys_sorted(out@),
            forall|r: int| 1 <= r < i ==> has_key(out@, row_alias(summaries@, #[trigger] rows@[r]@)),
            forall|k: int| 0 <= k < out@.len()
                ==> (last_row_before(summaries@, rows@, (#[trigger] out@[k]).0@, i as int)
                    matches Some(r) && is_aram_entry(out@[k], summaries@, rows@[r]@)),
        decreases n - i,
    {
        let mut s = match AramChampionStats::new(&rows[i]) {
            Ok(s) => s,
            Err(e) => {
                return Err(ScrapeError { row: i, kind: ScrapeErrorKind::Layout(e) });
            },
        };
        match resolve(&s.name, summaries) {
            Ok((id, alias)) => {
                s.id = id;
                let ghost prev = out@;
                let j = upsert(&mut out, alias, s);
                proof {
                    lemma_table_step(
                        prev,
                        out@,
                        j as int,
                        summaries@,
                        rows@,
                        i as int,
                        |e: (String, AramChampionStats), c: Seq<Cell>| is_aram_entry(e, summaries@, c),
                    );
                }
            },
            Err(_) => {
                return Err(ScrapeError { row: i, kind: ScrapeErrorKind::Unresolved });
            },
        }
        i = i + 1;
    }
    Ok(out)
}

/// Maps, resolves and keys every row of the Arena page's tables but the first row.
/// Fails on the first row that does not follow the layout or cannot be resolved.
pub fn arena_table(summaries: &Vec<ChampionSummary>, rows: &Vec<Vec<Cell>>) -> (r: Result<
    Vec<(String, ArenaChampionStats)>,
    ScrapeError,
>)
    ensures
        match r {
            Ok(t) => is_arena_table(t@, summaries@, rows@),
            Err(e) => is_first_failure(e, summaries@, rows@),
        },
{
    let mut out: Vec<(String, ArenaChampionStats)> = Vec::new();
    let n = rows.len();
    let mut i: usize = 1;
    while i < n
        invariant
            n == rows@.len(),
            1 <= i,
            i <= n || (n == 0 && i == 1),
            rows_ok(summaries@, rows@, i as int),
            keys_sorted(out@),
            forall|r: int| 1 <= r < i ==> has_key(out@, row_alias(summaries@, #[trigger] rows@[r]@)),
            forall|k: int| 0 <= k < out@.len()
                ==> (last_row_before(summaries@, rows@, (#[trigger] out@[k]).0@, i as int)
                    matches Some(r) && is_arena_entry(out@[k], summaries@, rows@[r]@)),
        decreases n - i,
    {
        let mut s = match ArenaChampionStats::new(&rows[i]) {
            Ok(s) => s,
            Err(e) => {
                return Err(ScrapeError { row: i, kind: ScrapeErrorKind::Layout(e) });
            },
        };
        match resolve(&s.name, summaries) {
            Ok((id, alias)) => {
                s.id = id;
                let ghost prev = out@;
                let j = upsert(&mut out, alias, s);
                proof {
                    lemma_table_step(
                        prev,
                        out@,
                        j as int,
                        summaries@,
                        rows@,
                        i as int,
                        |e: (String, ArenaChampionStats), c: Seq<Cell>| is_arena_entry(e, summaries@, c),
                    );
                }
            },
            Err(_) => {
                return Err(ScrapeError { row: i, kind: ScrapeErrorKind::Unresolved });
            },
        }
        i = i + 1;
    }
    Ok(out)
}

/// A table with a data row that does not follow the layout (for instance a first cell
/// without a sort value) is never accepted: every data row must be resolvable for a
/// table to be built, so such a row makes the whole table fail.
pub proof fn lemma_malformed_row_rejects(
    summaries: Seq<ChampionSummary>,
    rows: Seq<Vec<Cell>>,
    i: int,
)
    requires
        1 <= i < rows.len(),
        row_error(rows[i]@) is Some,
    ensures
        !rows_ok(summaries, rows, rows.len() as int),
        forall|t: Seq<(String, AramChampionStats)>| !is_aram_table(t, summaries, rows),
        forall|t: Seq<(String, ArenaChampionStats)>| !is_arena_table(t, summaries, rows),
        row_failure(summaries, rows[i]@) == Some(ScrapeErrorKind::Layout(row_error(rows[i]@)->0)),
{
    assert(row_failure(summaries, rows[i]@) is Some);
}

/// Builds the dataset from the summary feed and the rows of both pages' tables.
pub fn collect_stats(
    summaries: &Vec<ChampionSummary>,
    aram_rows: &Vec<Vec<Cell>>,
    arena_rows: &Vec<Vec<Cell>>,
) -> (r: Result<Stats, ScrapeError>)
    ensures
        match r {
            Ok(s) => is_aram_table(s.aram@, summaries@, aram_rows@)
                && is_arena_table(s.arena@, summaries@, arena_rows@),
            Err(e) => is_first_failure(e, summaries@, aram_rows@)
                || (rows_ok(summaries@, aram_rows@, aram_rows@.len() as int)
                    && is_first_failure(e, summaries@, arena_rows@)),
        },
{
    let aram = aram_table(summaries, aram_rows)?;
    let arena = arena_table(summaries, arena_rows)?;
    Ok(Stats { aram, arena })
}

/// The row that `last_row_before` picks is a data row before `end` that resolves to
/// `alias`.
pub proof fn lemma_last_row_before(
    sums: Seq<ChampionSummary>,
    rows: Seq<Vec<Cell>>,
    alias: Seq<char>,
    end: int,
)
    ensures
        last_row_before(sums, rows, alias, end) matches Some(r) ==> 1 <= r < end && row_alias(
            sums,
            rows[r]@,
        ) == alias,
    decreases end,
{
    if end > 1 {
        lemma_last_row_before(sums, rows, alias, end - 1);
    }
}

/// A header row and two data rows that resolve to different aliases give a table of
/// exactly two entries, one for each alias, each from its own row.
pub proof fn lemma_two_rows_two_entries(
    t: Seq<(String, AramChampionStats)>,
    sums: Seq<ChampionSummary>,
    rows: Seq<Vec<Cell>>,
)
    requires
        is_aram_table(t, sums, rows),
        rows.len() == 3,
        row_alias(sums, rows[1]@) != row_alias(sums, rows[2]@),
    ensures
        t.len() == 2,
        has_key(t, row_alias(sums, rows[1]@)),
        has_key(t, row_alias(sums, rows[2]@)),
        forall|k: int| 0 <= k < t.len() && (#[trigger] t[k]).0@ == row_alias(sums, rows[1]@)
            ==> is_aram_entry(t[k], sums, rows[1]@),
        forall|k: int| 0 <= k < t.len() && (#[trigger] t[k]).0@ == row_alias(sums, rows[2]@)
            ==> is_aram_entry(t[k], sums, rows[2]@),
{
    let a1 = row_alias(sums, rows[1]@);
    let a2 = row_alias(sums, rows[2]@);
    assert(has_key(t, a1));
    assert(has_key(t, a2));
    assert forall|k: int| 0 <= k < t.len() implies (#[trigger] t[k]).0@ == a1 || t[k].0@ == a2 by {
        lemma_last_row_before(sums, rows, t[k].0@, 3);
    }
    let k1 = choose|k: int| 0 <= k < t.len() && (#[trigger] t[k]).0@ == a1;
    let k2 = choose|k: int| 0 <= k < t.len() && (#[trigger] t[k]).0@ == a2;
    assert(k1 != k2);
    if t.len() > 2 {
        assert(t[0].0@ == a1 || t[0].0@ == a2);
        assert(t[1].0@ == a1 || t[1].0@ == a2);
        assert(t[2].0@ == a1 || t[2].0@ == a2);
        lemma_sorted_keys_unique(t, 0, 1);
        lemma_sorted_keys_unique(t, 0, 2);
        lemma_sorted_keys_unique(t, 1, 2);
    }
    assert forall|k: int| 0 <= k < t.len() && (#[trigger] t[k]).0@ == a1 implies is_aram_entry(
        t[k],
        sums,
        rows[1]@,
    ) by {
        lemma_last_row_before(sums, rows, a1, 3);
    }
    assert forall|k: int| 0 <= k < t.len() && (#[trigger] t[k]).0@ == a2 implies is_aram_entry(
        t[k],
        sums,
        rows[2]@,
    ) by {
        lemma_last_row_before(sums, rows, a2, 3);
    }
}

} // verus!
