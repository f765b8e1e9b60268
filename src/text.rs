//! Plain-text helpers over markup fragments: tag stripping, inner markup and trimming.

use vstd::prelude::*;

verus! {

/// The visible text of `s`, where `inside` tells whether the scan starts inside a tag.
/// Every `<` opens a tag and every `>` closes one; nesting is not tracked.
pub open spec fn strip_from(s: Seq<char>, inside: bool) -> Seq<char>
    decreases s.len(),
{
    if s.len() == 0 {
        Seq::empty()
    } else {
        let c = s[0];
        let rest = s.drop_first();
        if c == '<' {
            strip_from(rest, true)
        } else if c == '>' {
            strip_from(rest, false)
        } else if inside {
            strip_from(rest, true)
        } else {
            seq![c] + strip_from(rest, false)
        }
    }
}

/// The visible text of a markup fragment.
pub open spec fn stripped(s: Seq<char>) -> Seq<char> {
    strip_from(s, false)
}

/// Unicode `White_Space` characters.
pub open spec fn is_white(c: char) -> bool {
    ('\u{9}' <= c && c <= '\u{d}') || c == ' ' || c == '\u{85}' || c == '\u{a0}'
        || c == '\u{1680}' || ('\u{2000}' <= c && c <= '\u{200a}') || c == '\u{2028}'
        || c == '\u{2029}' || c == '\u{202f}' || c == '\u{205f}' || c == '\u{3000}'
}

/// `s` without its leading whitespace.
pub open spec fn trim_start(s: Seq<char>) -> Seq<char>
    decreases s.len(),
{
    if s.len() > 0 && is_white(s[0]) {
        trim_start(s.drop_first())
    } else {
        s
    }
}

/// `s` without its trailing whitespace.
pub open spec fn trim_end(s: Seq<char>) -> Seq<char>
    decreases s.len(),
{
    if s.len() > 0 && is_white(s.last()) {
        trim_end(s.drop_last())
    } else {
        s
    }
}

/// `s` without leading and trailing whitespace.
pub open spec fn trimmed(s: Seq<char>) -> Seq<char> {
    trim_end(trim_start(s))
}

/// What follows the first `c` in `s`; empty when `s` holds no `c`.
pub open spec fn after_first(s: Seq<char>, c: char) -> Seq<char>
    decreases s.len(),
{
    if s.len() == 0 {
        Seq::empty()
    } else if s[0] == c {
        s.drop_first()
    } else {
        after_first(s.drop_first(), c)
    }
}

/// What precedes the last `c` in `s`; empty when `s` holds no `c`.
pub open spec fn before_last(s: Seq<char>, c: char) -> Seq<char>
    decreases s.len(),
{
    if s.len() == 0 {
        Seq::empty()
    } else if s.last() == c {
        s.drop_last()
    } else {
        before_last(s.drop_last(), c)
    }
}

/// The content of a serialized element: the opening tag (through the first `>`) and
/// the closing tag (from the last `<`) removed, surrounding whitespace trimmed.
pub open spec fn inner_of(s: Seq<char>) -> Seq<char> {
    trimmed(before_last(after_first(s, '>'), '<'))
}

/// Relies on `str::chars` collected into a `Vec`: the characters of `s` in order.
#[verifier::external_body]
pub(crate) fn chars_of(s: &str) -> (r: Vec<char>)
    ensures
        r@ == s@,
{
    s.chars().collect()
}

/// Relies on collecting `char`s into a `String`: the characters of `v` in order.
#[verifier::external_body]
pub(crate) fn string_of(v: &Vec<char>) -> (r: String)
    ensures
        r@ == v@,
{
    v.iter().collect()
}

/// Whether `c` is a Unicode `White_Space` character.
fn white(c: char) -> (r: bool)
    ensures
        r == is_white(c),
{
    ('\u{9}' <= c && c <= '\u{d}') || c == ' ' || c == '\u{85}' || c == '\u{a0}'
        || c == '\u{1680}' || ('\u{2000}' <= c && c <= '\u{200a}') || c == '\u{2028}'
        || c == '\u{2029}' || c == '\u{202f}' || c == '\u{205f}' || c == '\u{3000}'
}

/// Removes every `<`-to-`>` span of `html` and keeps the remaining characters in order.
pub fn strip_html(html: String) -> (r: String)
    ensures
        r@ == stripped(html@),
{
    let s = chars_of(html.as_str());
    let mut out: Vec<char> = Vec::new();
    let mut inside = false;
    let mut i: usize = 0;
    proof {
        assert(s@.subrange(0, s@.len() as int) =~= s@);
        assert(out@ + stripped(html@) =~= stripped(html@));
    }
    while i < s.len()
        invariant
            i <= s@.len(),
            s@ == html@,
            out@ + strip_from(s@.subrange(i as int, s@.len() as int), inside) == stripped(html@),
        decreases s@.len() - i,
    {
        let c = s[i];
        let ghost before = out@;
        proof {
            let tail = s@.subrange(i as int, s@.len() as int);
            assert(tail.drop_first() =~= s@.subrange(i + 1, s@.len() as int));
            assert(tail[0] == c);
        }
        if c == '<' {
            inside = true;
        } else if c == '>' {
            inside = false;
        } else if !inside {
            out.push(c);
            proof {
                let rest = strip_from(s@.subrange(i + 1, s@.len() as int), false);
                assert(before + (seq![c] + rest) =~= out@ + rest);
            }
        }
        i = i + 1;
    }
    proof {
        assert(s@.subrange(i as int, s@.len() as int) =~= Seq::<char>::empty());
        assert(out@ + Seq::<char>::empty() =~= out@);
    }
    string_of(&out)
}

/// The characters of `s` from `lo` up to `hi`.
pub(crate) fn copy_range(s: &Vec<char>, lo: usize, hi: usize) -> (r: Vec<char>)
    requires
        lo <= hi <= s@.len(),
    ensures
        r@ == s@.subrange(lo as int, hi as int),
{
    let mut out: Vec<char> = Vec::new();
    let mut i: usize = lo;
    while i < hi
        invariant
            lo <= i <= hi <= s@.len(),
            out@ == s@.subrange(lo as int, i as int),
        decreases hi - i,
    {
        out.push(s[i]);
        i = i + 1;
        proof {
            assert(out@ =~= s@.subrange(lo as int, i as int));
        }
    }
    out
}

/// The bounds of `trimmed(s.subrange(lo, hi))` within `s`.
fn trim_bounds(s: &Vec<char>, lo: usize, hi: usize) -> (r: (usize, usize))
    requires
        lo <= hi <= s@.len(),
    ensures
        lo <= r.0 <= r.1 <= hi,
        s@.subrange(r.0 as int, r.1 as int) == trimmed(s@.subrange(lo as int, hi as int)),
{
    let mut a: usize = lo;
    while a < hi && white(s[a])
        invariant
            lo <= a <= hi <= s@.len(),
            trim_start(s@.subrange(lo as int, hi as int)) == trim_start(s@.subrange(a as int, hi as int)),
        decreases hi - a,
    {
        proof {
            assert(s@.subrange(a as int, hi as int).drop_first() =~= s@.subrange(a + 1, hi as int));
        }
        a = a + 1;
    }
    proof {
        if a < hi {
            assert(s@.subrange(a as int, hi as int)[0] == s@[a as int]);
        }
    }
    let mut b: usize = hi;
    while b > a && white(s[b - 1])
        invariant
            lo <= a <= b <= hi <= s@.len(),
            trim_end(s@.subrange(a as int, hi as int)) == trim_end(s@.subrange(a as int, b as int)),
        decreases b - a,
    {
        proof {
            assert(s@.subrange(a as int, b as int).drop_last() =~= s@.subrange(a as int, b - 1));
        }
        b = b - 1;
    }
    proof {
        if b > a {
            assert(s@.subrange(a as int, b as int).last() == s@[b - 1]);
        }
    }
    (a, b)
}

/// `s` without leading and trailing whitespace.
pub fn trim_text(s: &str) -> (r: String)
    ensures
        r@ == trimmed(s@),
{
    let v = chars_of(s);
    proof {
        assert(v@.subrange(0, v@.len() as int) =~= v@);
    }
    let (a, b) = trim_bounds(&v, 0, v.len());
    string_of(&copy_range(&v, a, b))
}

/// The content of a serialized element, with nested markup kept as it is:
/// everything through the first `>` and from the last `<` on is removed, and
/// surrounding whitespace is trimmed.
pub fn inner_html(markup: &str) -> (r: String)
    ensures
        r@ == inner_of(markup@),
{
    let s = chars_of(markup);
    let n = s.len();
    let mut i: usize = 0;
    proof {
        assert(s@.subrange(0, n as int) =~= s@);
    }
    while i < n && s[i] != '>'
        invariant
            i <= n == s@.len(),
            after_first(s@, '>') == after_first(s@.subrange(i as int, n as int), '>'),
        decreases n - i,
    {
        proof {
            assert(s@.subrange(i as int, n as int).drop_first() =~= s@.subrange(i + 1, n as int));
        }
        i = i + 1;
    }
    if i == n {
        proof {
            assert(s@.subrange(i as int, n as int) =~= Seq::<char>::empty());
            assert(before_last(Seq::<char>::empty(), '<') =~= Seq::<char>::empty());
            assert(trim_start(Seq::<char>::empty()) =~= Seq::<char>::empty());
            assert(trim_end(Seq::<char>::empty()) =~= Seq::<char>::empty());
        }
        return String::new();
    }
    let start = i + 1;
    proof {
        assert(s@.subrange(i as int, n as int).drop_first() =~= s@.subrange(start as int, n as int));
    }
    let mut j: usize = n;
    while j > start && s[j - 1] != '<'
        invariant
            start <= j <= n == s@.len(),
            after_first(s@, '>') == s@.subrange(start as int, n as int),
            before_last(after_first(s@, '>'), '<') == before_last(s@.subrange(start as int, j as int), '<'),
        decreases j - start,
    {
        proof {
            assert(s@.subrange(start as int, j as int).drop_last() =~= s@.subrange(start as int, j - 1));
        }
        j = j - 1;
    }
    if j == start {
        proof {
            assert(s@.subrange(start as int, j as int) =~= Seq::<char>::empty());
            assert(trim_start(Seq::<char>::empty()) =~= Seq::<char>::empty());
            assert(trim_end(Seq::<char>::empty()) =~= Seq::<char>::empty());
        }
        return String::new();
    }
    proof {
        assert(s@.subrange(start as int, j as int).drop_last() =~= s@.subrange(start as int, j - 1));
    }
    let (a, b) = trim_bounds(&s, start, j - 1);
    string_of(&copy_range(&s, a, b))
}

/// A prefix without `c` does not change what follows the first `c`.
pub proof fn lemma_after_first_skip(p: Seq<char>, s: Seq<char>, c: char)
    requires
        !p.contains(c),
    ensures
        after_first(p + s, c) == after_first(s, c),
    decreases p.len(),
{
    if p.len() > 0 {
        assert(p[0] != c);
        assert((p + s)[0] == p[0]);
        assert((p + s).drop_first() =~= p.drop_first() + s);
        assert(!p.drop_first().contains(c)) by {
            if p.drop_first().contains(c) {
                let k = choose|k: int| 0 <= k < p.drop_first().len() && p.drop_first()[k] == c;
                assert(p[k + 1] == c);
            }
        }
        lemma_after_first_skip(p.drop_first(), s, c);
    } else {
        assert(p + s =~= s);
    }
}

/// A suffix without `c` does not change what precedes the last `c`.
pub proof fn lemma_before_last_skip(s: Seq<char>, q: Seq<char>, c: char)
    requires
        !q.contains(c),
    ensures
        before_last(s + q, c) == before_last(s, c),
    decreases q.len(),
{
    if q.len() > 0 {
        assert(q.last() != c);
        assert((s + q).last() == q.last());
        assert((s + q).drop_last() =~= s + q.drop_last());
        assert(!q.drop_last().contains(c)) by {
            if q.drop_last().contains(c) {
                let k = choose|k: int| 0 <= k < q.drop_last().len() && q.drop_last()[k] == c;
                assert(q[k] == c);
            }
        }
        lemma_before_last_skip(s, q.drop_last(), c);
    } else {
        assert(s + q =~= s);
    }
}

/// The inner markup of an element `<tag attrs>inner</tag>` is `inner` trimmed, nested
/// markup included, when neither the tag nor its attributes hold a `>` and the tag
/// holds no `<`.
pub proof fn lemma_inner_of_element(tag: Seq<char>, attrs: Seq<char>, inner: Seq<char>)
    requires
        !tag.contains('>'),
        !tag.contains('<'),
        !attrs.contains('>'),
    ensures
        inner_of(seq!['<'] + tag + attrs + seq!['>'] + inner + seq!['<', '/'] + tag + seq!['>'])
            == trimmed(inner),
{
    let close_rest = seq!['/'] + tag + seq!['>'];
    let x = inner + seq!['<'] + close_rest;
    let html = seq!['<'] + tag + attrs + seq!['>'] + inner + seq!['<', '/'] + tag + seq!['>'];
    let head = seq!['<'] + tag + attrs;
    assert(!head.contains('>')) by {
        if head.contains('>') {
            let k = choose|k: int| 0 <= k < head.len() && head[k] == '>';
            if k == 0 {
            } else if k < 1 + tag.len() {
                assert(tag[k - 1] == '>');
            } else {
                assert(attrs[k - 1 - tag.len()] == '>');
            }
        }
    }
    assert(html =~= head + (seq!['>'] + x));
    lemma_after_first_skip(head, seq!['>'] + x, '>');
    assert((seq!['>'] + x).drop_first() =~= x);
    assert(after_first(html, '>') == x);
    assert(!close_rest.contains('<')) by {
        if close_rest.contains('<') {
            let k = choose|k: int| 0 <= k < close_rest.len() && close_rest[k] == '<';
            if k >= 1 && k < 1 + tag.len() {
                assert(tag[k - 1] == '<');
            }
        }
    }
    lemma_before_last_skip(inner + seq!['<'], close_rest, '<');
    assert((inner + seq!['<']).drop_last() =~= inner);
}

} // verus!
