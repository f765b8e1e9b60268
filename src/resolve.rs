//! Matching scraped names to the summary feed, and building each page's table.

use vstd::prelude::*;
use crate::models::{ChampionSummary};
use crate::text::chars_of;

verus! {

/// Whether `p` occurs in `s` as a contiguous run.
pub open spec fn contains(s: Seq<char>, p: Seq<char>) -> bool {
    exists|i: int| 0 <= i <= s.len() - p.len() && #[trigger] s.subrange(i, i + p.len()) == p
}

/// The alias marker of the feed's placeholder duplicates, which are never selected.
pub open spec fn duplicate_marker() -> Seq<char> {
    seq!['S', 't', 'r', 'a', 'w', 'b', 'e', 'r', 'r', 'y']
}

/// Whether summary entry `e` may resolve `name`.
pub open spec fn eligible(e: ChampionSummary, name: Seq<char>) -> bool {
    e.name@ == name && !contains(e.alias@, duplicate_marker())
}

/// The position of the first entry from `i` on that may resolve `name`.
pub open spec fn first_match_from(s: Seq<ChampionSummary>, name: Seq<char>, i: int) -> Option<int>
    decreases s.len() - i,
{
    if i < 0 || i >= s.len() {
        None
    } else if eligible(s[i], name) {
        Some(i)
    } else {
        first_match_from(s, name, i + 1)
    }
}

/// The position of the first entry of `s` that may resolve `name`.
pub open spec fn first_match(s: Seq<ChampionSummary>, name: Seq<char>) -> Option<int> {
    first_match_from(s, name, 0)
}

/// The entry that resolution picks, if any, carries the name and no duplicate marker
/// in its alias, and every entry before it is ineligible.
pub proof fn lemma_first_match_from(s: Seq<ChampionSummary>, name: Seq<char>, i: int)
    requires
        0 <= i <= s.len(),
    ensures
        match first_match_from(s, name, i) {
            Some(k) => i <= k < s.len() && eligible(s[k], name)
                && forall|j: int| i <= j < k ==> !eligible(#[trigger] s[j], name),
            None => forall|j: int| i <= j < s.len() ==> !eligible(#[trigger] s[j], name),
        },
    decreases s.len() - i,
{
    if i < s.len() {
        lemma_first_match_from(s, name, i + 1);
    }
}

/// Whether `p` occurs in `s`.
fn contains_chars(s: &Vec<char>, p: &Vec<char>) -> (r: bool)
    ensures
        r == contains(s@, p@),
{
    let n = s.len();
    let m = p.len();
    if m > n {
        return false;
    }
    let mut i: usize = 0;
    while i <= n - m
        invariant
            m <= n == s@.len(),
            m == p@.len(),
            forall|k: int| 0 <= k < i ==> #[trigger] s@.subrange(k, k + m) != p@,
        decreases n - m + 1 - i,
    {
        let mut j: usize = 0;
        while j < m && s[i + j] == p[j]
            invariant
                i <= n - m,
                j <= m,
                m <= n == s@.len(),
                m == p@.len(),
                forall|q: int| 0 <= q < j ==> s@[i + q] == p@[q],
            decreases m - j,
        {
            j = j + 1;
        }
        if j == m {
            proof {
                assert(s@.subrange(i as int, i + m) =~= p@);
            }
            return true;
        }
        proof {
            assert(s@.subrange(i as int, i + m)[j as int] == s@[i + j]);
        }
        i = i + 1;
    }
    proof {
        assert forall|k: int| 0 <= k <= n - m implies #[trigger] s@.subrange(k, k + m) != p@ by {
            assert(k < i);
        }
    }
    false
}

/// Why a page's rows could not be turned into a table.
#[derive(Debug, PartialEq, Eq, Structural)]
pub enum ResolveError {
    /// No summary entry may resolve the name.
    Unresolved,
}

/// Finds the summary entry for `name`: the first one in feed order whose name is
/// `name` and whose alias does not contain `Strawberry`. Returns its id and alias.
pub fn resolve(name: &String, summaries: &Vec<ChampionSummary>) -> (r: Result<(i32, String), ResolveError>)
    ensures
        match r {
            Ok((id, alias)) => first_match(summaries@, name@) is Some
                && id == summaries@[first_match(summaries@, name@)->0].id
                && alias@ == summaries@[first_match(summaries@, name@)->0].alias@,
            Err(e) => first_match(summaries@, name@) is None && e == ResolveError::Unresolved,
        },
{
    let marker = chars_of("Strawberry");
    proof {
        reveal_strlit("Strawberry");
        assert(marker@ =~= duplicate_marker());
    }
    let n = summaries.len();
    let mut i: usize = 0;
    while i < n
        invariant
            i <= n == summaries@.len(),
            marker@ == duplicate_marker(),
            first_match(summaries@, name@) == first_match_from(summaries@, name@, i as int),
        decreases n - i,
    {
        let e = &summaries[i];
        if e.name == *name && !contains_chars(&chars_of(e.alias.as_str()), &marker) {
            return Ok((e.id, e.alias.clone()));
        }
        i = i + 1;
    }
    Err(ResolveError::Unresolved)
}

/// A name is resolved to an entry whose alias never contains the duplicate marker,
/// and to the first entry in feed order that has the name without that marker.
pub proof fn lemma_duplicate_never_selected(summaries: Seq<ChampionSummary>, name: Seq<char>)
    ensures
        first_match(summaries, name) matches Some(k) ==> {
            &&& 0 <= k < summaries.len()
            &&& summaries[k].name@ == name
            &&& !contains(summaries[k].alias@, duplicate_marker())
            &&& forall|j: int| 0 <= j < k ==> !eligible(#[trigger] summaries[j], name)
        },
{
    lemma_first_match_from(summaries, name, 0);
}

/// Resolution fails exactly when no entry has the name without the duplicate marker
/// in its alias; it never falls back to a default entry.
pub proof fn lemma_unresolved_iff_no_candidate(summaries: Seq<ChampionSummary>, name: Seq<char>)
    ensures
        first_match(summaries, name) is None <==> forall|j: int|
            0 <= j < summaries.len() ==> !eligible(#[trigger] summaries[j], name),
{
    lemma_first_match_from(summaries, name, 0);
}

} // verus!
