//! Damage cells: a percentage delta from a baseline of one hundred.

use vstd::prelude::*;
use crate::text::{chars_of, string_of, strip_html, stripped, trim_end, trim_start, trim_text, trimmed};

verus! {

/// The value a damage cell stands for.
#[derive(Debug)]
pub enum DamageStat {
    /// The cell shows no text: the neutral baseline of 100 percent.
    Baseline,
    /// The cell shows a delta from the baseline; this is its numeric text, `%` removed.
    /// The value is 100 plus that number.
    Offset(String),
}

/// `s` with every `c` removed.
pub open spec fn without(s: Seq<char>, c: char) -> Seq<char>
    decreases s.len(),
{
    if s.len() == 0 {
        Seq::empty()
    } else if s[0] == c {
        without(s.drop_first(), c)
    } else {
        seq![s[0]] + without(s.drop_first(), c)
    }
}

/// The visible, trimmed text of a damage cell's markup.
pub open spec fn damage_text(markup: Seq<char>) -> Seq<char> {
    trimmed(stripped(markup))
}

/// Whether `d` is what a cell with markup `markup` stands for.
pub open spec fn is_damage_of(d: DamageStat, markup: Seq<char>) -> bool {
    match d {
        DamageStat::Baseline => damage_text(markup).len() == 0,
        DamageStat::Offset(t) => damage_text(markup).len() > 0
            && t@ == without(damage_text(markup), '%'),
    }
}

/// `s` with every `%` removed.
fn remove_percent(s: &str) -> (r: String)
    ensures
        r@ == without(s@, '%'),
{
    let v = chars_of(s);
    let n = v.len();
    let mut out: Vec<char> = Vec::new();
    let mut i: usize = 0;
    proof {
        assert(v@.subrange(0, n as int) =~= v@);
        assert(out@ + without(v@, '%') =~= without(v@, '%'));
    }
    while i < n
        invariant
            i <= n == v@.len(),
            v@ == s@,
            out@ + without(v@.subrange(i as int, n as int), '%') == without(s@, '%'),
        decreases n - i,
    {
        let c = v[i];
        let ghost before = out@;
        proof {
            let tail = v@.subrange(i as int, n as int);
            assert(tail.drop_first() =~= v@.subrange(i + 1, n as int));
            assert(tail[0] == c);
        }
        if c != '%' {
            out.push(c);
            proof {
                let rest = without(v@.subrange(i + 1, n as int), '%');
                assert(before + (seq![c] + rest) =~= out@ + rest);
            }
        }
        i = i + 1;
    }
    proof {
        assert(v@.subrange(n as int, n as int) =~= Seq::<char>::empty());
        assert(out@ + Seq::<char>::empty() =~= out@);
    }
    string_of(&out)
}

/// Reads a damage cell from its serialized markup: no visible text is the baseline,
/// otherwise the visible text without `%` is the delta.
pub fn parse_damage_stat(html: String) -> (r: DamageStat)
    ensures
        is_damage_of(r, html@),
{
    let text = strip_html(html);
    let t = trim_text(text.as_str());
    if t.as_str().unicode_len() == 0 {
        DamageStat::Baseline
    } else {
        DamageStat::Offset(remove_percent(t.as_str()))
    }
}

/// A cell whose markup has no visible text reads as the baseline, whatever its tags.
pub proof fn lemma_empty_cell_is_baseline(d: DamageStat, markup: Seq<char>)
    requires
        is_damage_of(d, markup),
        stripped(markup).len() == 0,
    ensures
        d is Baseline,
{
    let s = stripped(markup);
    assert(trim_start(s) == s);
    assert(trim_end(s) == s);
}

/// A cell whose visible text is `-12%` reads as a delta of `-12` (88 percent), and
/// one whose visible text is `5%` as a delta of `5` (105 percent), whatever their tags.
pub proof fn lemma_signed_percent_cells(d: DamageStat, markup: Seq<char>)
    requires
        is_damage_of(d, markup),
        stripped(markup) == seq!['-', '1', '2', '%'] || stripped(markup) == seq!['5', '%'],
    ensures
        stripped(markup) == seq!['-', '1', '2', '%'] ==> (d matches DamageStat::Offset(t) && t@
            == seq!['-', '1', '2']),
        stripped(markup) == seq!['5', '%'] ==> (d matches DamageStat::Offset(t) && t@ == seq!['5']),
{
    let s = stripped(markup);
    assert(trim_start(s) == s);
    assert(trim_end(s) == s);
    if s == seq!['-', '1', '2', '%'] {
        let s1 = s.drop_first();
        let s2 = s1.drop_first();
        let s3 = s2.drop_first();
        let s4 = s3.drop_first();
        assert(s4 =~= Seq::<char>::empty());
        assert(s3[0] == '%' && s2[0] == '2' && s1[0] == '1' && s[0] == '-');
        assert(without(s4, '%') =~= Seq::<char>::empty());
        assert(without(s3, '%') =~= Seq::<char>::empty());
        assert(without(s2, '%') =~= seq!['2']);
        assert(without(s1, '%') =~= seq!['1', '2']);
        assert(without(s, '%') =~= seq!['-', '1', '2']);
    } else {
        let s1 = s.drop_first();
        let s2 = s1.drop_first();
        assert(s2 =~= Seq::<char>::empty());
        assert(s1[0] == '%' && s[0] == '5');
        assert(without(s2, '%') =~= Seq::<char>::empty());
        assert(without(s1, '%') =~= Seq::<char>::empty());
        assert(without(s, '%') =~= seq!['5']);
    }
}

} // verus!
