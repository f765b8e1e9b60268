//! A parsed page as a tree of plain values, and structural queries over it.

use vstd::prelude::*;
use crate::text::chars_of;

verus! {

/// A node of a parsed page.
pub enum Markup {
    /// An element: tag name, attributes in order, child nodes, and the element
    /// serialized back to markup.
    Element { name: String, attrs: Vec<(String, String)>, children: Vec<Markup>, html: String },
    /// Text, a comment or a doctype, serialized to markup.
    Other(String),
}

/// A simple selector: a tag name and the classes an element must carry.
pub struct Selector {
    pub tag: String,
    pub classes: Vec<String>,
}

impl View for Selector {
    type V = (Seq<char>, Seq<Seq<char>>);

    open spec fn view(&self) -> (Seq<char>, Seq<Seq<char>>) {
        (self.tag@, self.classes@.map_values(|c: String| c@))
    }
}

/// The value of the first attribute of `attrs` named `key`.
pub open spec fn attr_in(attrs: Seq<(String, String)>, key: Seq<char>) -> Option<Seq<char>>
    decreases attrs.len(),
{
    if attrs.len() == 0 {
        None
    } else if attrs[0].0@ == key {
        Some(attrs[0].1@)
    } else {
        attr_in(attrs.drop_first(), key)
    }
}

/// The name of the class attribute.
pub open spec fn class_key() -> Seq<char> {
    seq!['c', 'l', 'a', 's', 's']
}

/// Whether `c` is one of the space-separated tokens of `v`.
pub open spec fn has_token(v: Seq<char>, c: Seq<char>) -> bool {
    exists|i: int|
        0 <= i <= v.len() - c.len() && #[trigger] v.subrange(i, i + c.len()) == c && (i == 0
            || v[i - 1] == ' ') && (i + c.len() == v.len() || v[i + c.len()] == ' ')
}

/// Whether `m` is an element with the selector's tag whose class attribute holds every
/// class of the selector.
pub open spec fn sel_matches(m: Markup, s: (Seq<char>, Seq<Seq<char>>)) -> bool {
    match m {
        Markup::Element { name, attrs, .. } => name@ == s.0 && forall|k: int|
            0 <= k < s.1.len() ==> (attr_in(attrs@, class_key()) matches Some(v)
                && has_token(v, #[trigger] s.1[k])),
        Markup::Other(_) => false,
    }
}

/// The first element, depth first and in document order, that matches `s`, in `m`.
pub open spec fn first_in_node(m: Markup, s: (Seq<char>, Seq<Seq<char>>)) -> Option<Markup>
    decreases m,
{
    match m {
        Markup::Element { children, .. } => if sel_matches(m, s) {
            Some(m)
        } else {
            first_in_from(children@, s, 0)
        },
        Markup::Other(_) => None,
    }
}

/// The first element matching `s` in `nodes` from position `i` on.
pub open spec fn first_in_from(nodes: Seq<Markup>, s: (Seq<char>, Seq<Seq<char>>), i: int) -> Option<Markup>
    decreases nodes, nodes.len() - i,
{
    if i < 0 || i >= nodes.len() {
        None
    } else {
        match first_in_node(nodes[i], s) {
            Some(e) => Some(e),
            None => first_in_from(nodes, s, i + 1),
        }
    }
}

/// Every element matching `s` in `m`: the matches inside each child in order, then
/// `m` itself if it matches.
pub open spec fn all_in_node(m: Markup, s: (Seq<char>, Seq<Seq<char>>)) -> Seq<Markup>
    decreases m,
{
    match m {
        Markup::Element { children, .. } => all_in_from(children@, s, 0) + if sel_matches(m, s) {
            seq![m]
        } else {
            Seq::empty()
        },
        Markup::Other(_) => Seq::empty(),
    }
}

/// Every element matching `s` in `nodes` from position `i` on, node by node.
pub open spec fn all_in_from(nodes: Seq<Markup>, s: (Seq<char>, Seq<Seq<char>>), i: int) -> Seq<Markup>
    decreases nodes, nodes.len() - i,
{
    if i < 0 || i >= nodes.len() {
        Seq::empty()
    } else {
        all_in_node(nodes[i], s) + all_in_from(nodes, s, i + 1)
    }
}

/// The nodes that a list of references points at.
pub open spec fn derefs(v: Seq<&Markup>) -> Seq<Markup> {
    v.map_values(|x: &Markup| *x)
}

/// The value of the first attribute of `attrs` named `key`.
pub fn find_attr<'a>(attrs: &'a Vec<(String, String)>, key: &String) -> (r: Option<&'a String>)
    ensures
        match r {
            Some(v) => attr_in(attrs@, key@) == Some(v@),
            None => attr_in(attrs@, key@) is None,
        },
{
    let n = attrs.len();
    let mut i: usize = 0;
    proof {
        assert(attrs@.subrange(0, n as int) =~= attrs@);
    }
    while i < n
        invariant
            i <= n == attrs@.len(),
            attr_in(attrs@, key@) == attr_in(attrs@.subrange(i as int, n as int), key@),
        decreases n - i,
    {
        proof {
            let tail = attrs@.subrange(i as int, n as int);
            assert(tail.drop_first() =~= attrs@.subrange(i + 1, n as int));
            assert(tail[0] == attrs@[i as int]);
        }
        if attrs[i].0 == *key {
            return Some(&attrs[i].1);
        }
        i = i + 1;
    }
    proof {
        assert(attrs@.subrange(n as int, n as int) =~= Seq::<(String, String)>::empty());
    }
    None
}

/// Whether `c` is one of the space-separated tokens of `v`.
fn token_in(v: &Vec<char>, c: &Vec<char>) -> (r: bool)
    ensures
        r == has_token(v@, c@),
{
    let n = v.len();
    let m = c.len();
    if m > n {
        return false;
    }
    let mut i: usize = 0;
    while i <= n - m
        invariant
            m <= n == v@.len(),
            m == c@.len(),
            forall|k: int|
                0 <= k < i ==> !(#[trigger] v@.subrange(k, k + m) == c@ && (k == 0 || v@[k - 1]
                    == ' ') && (k + m == n || v@[k + m] == ' ')),
        decreases n - m + 1 - i,
    {
        let mut j: usize = 0;
        while j < m && v[i + j] == c[j]
            invariant
                i <= n - m,
                j <= m,
                m <= n == v@.len(),
                m == c@.len(),
                forall|q: int| 0 <= q < j ==> v@[i + q] == c@[q],
            decreases m - j,
        {
            j = j + 1;
        }
        if j == m && (i == 0 || v[i - 1] == ' ') && (i + m == n || v[i + m] == ' ') {
            proof {
                assert(v@.subrange(i as int, i + m) =~= c@);
            }
            return true;
        }
        proof {
            if j < m {
                assert(v@.subrange(i as int, i + m)[j as int] == v@[i + j]);
            }
        }
        if i == n - m {
            proof {
                assert forall|k: int|
                    0 <= k <= n - m implies !(#[trigger] v@.subrange(k, k + m) == c@ && (k == 0
                        || v@[k - 1] == ' ') && (k + m == n || v@[k + m] == ' ')) by {
                    if k < i {
                    }
                }
            }
            return false;
        }
        i = i + 1;
    }
    proof {
        assert forall|k: int|
            0 <= k <= n - m implies !(#[trigger] v@.subrange(k, k + m) == c@ && (k == 0 || v@[k
                - 1] == ' ') && (k + m == n || v@[k + m] == ' ')) by {
            assert(k < i);
        }
    }
    false
}

/// Whether `m` matches `s`.
pub fn matches_selector(m: &Markup, s: &Selector) -> (r: bool)
    ensures
        r == sel_matches(*m, s@),
{
    match m {
        Markup::Element { name, attrs, .. } => {
            if !(*name == s.tag) {
                return false;
            }
            let key = String::from_str("class");
            proof {
                reveal_strlit("class");
                assert(key@ =~= class_key());
            }
            let value = find_attr(attrs, &key);
            let n = s.classes.len();
            if n == 0 {
                return true;
            }
            let v = match value {
                Some(v) => chars_of(v.as_str()),
                None => {
                    proof {
                        let c0 = s@.1[0];
                        assert(!(attr_in(attrs@, class_key()) matches Some(v) && has_token(v, c0)));
                        assert(!sel_matches(*m, s@));
                    }
                    return false;
                },
            };
            let mut k: usize = 0;
            while k < n
                invariant
                    n == s.classes@.len(),
                    k <= n,
                    attr_in(attrs@, class_key()) == Some(v@),
                    forall|q: int| 0 <= q < k ==> has_token(v@, #[trigger] s@.1[q]),
                    sel_matches(*m, s@) <==> forall|q: int| 0 <= q < n ==> (attr_in(attrs@, class_key()) matches Some(w)
                        && has_token(w, #[trigger] s@.1[q])),
                decreases n - k,
            {
                let c = chars_of(s.classes[k].as_str());
                if !token_in(&v, &c) {
                    proof {
                        let ck = s@.1[k as int];
                        assert(ck == s.classes@[k as int]@);
                        assert(!has_token(v@, ck));
                        assert(!(attr_in(attrs@, class_key()) matches Some(w) && has_token(w, ck)));
                        assert(!sel_matches(*m, s@));
                    }
                    return false;
                }
                proof {
                    assert(s@.1[k as int] == s.classes@[k as int]@);
                }
                k = k + 1;
            }
            true
        },
        Markup::Other(_) => false,
    }
}

/// The first element, depth first and in document order, that matches `s`, in `m`.
pub fn first_in<'a>(m: &'a Markup, s: &Selector) -> (r: Option<&'a Markup>)
    ensures
        match r {
            Some(e) => first_in_node(*m, s@) == Some(*e),
            None => first_in_node(*m, s@) is None,
        },
    decreases *m,
{
    if matches_selector(m, s) {
        return Some(m);
    }
    match m {
        Markup::Element { children, .. } => first_in_list(children, s),
        Markup::Other(_) => None,
    }
}

/// The first element matching `s` among `nodes`, in order.
pub fn first_in_list<'a>(nodes: &'a Vec<Markup>, s: &Selector) -> (r: Option<&'a Markup>)
    ensures
        match r {
            Some(e) => first_in_from(nodes@, s@, 0) == Some(*e),
            None => first_in_from(nodes@, s@, 0) is None,
        },
    decreases nodes@,
{
    let n = nodes.len();
    let mut i: usize = 0;
    while i < n
        invariant
            n == nodes@.len(),
            i <= n,
            first_in_from(nodes@, s@, 0) == first_in_from(nodes@, s@, i as int),
        decreases n - i,
    {
        match first_in(&nodes[i], s) {
            Some(e) => return Some(e),
            None => {},
        }
        i = i + 1;
    }
    None
}

/// Every element matching `s` in `m`: the matches inside each child in order, then
/// `m` itself if it matches.
pub fn all_in<'a>(m: &'a Markup, s: &Selector) -> (r: Vec<&'a Markup>)
    ensures
        derefs(r@) == all_in_node(*m, s@),
    decreases *m,
{
    match m {
        Markup::Element { children, .. } => {
            let mut out = all_in_list(children, s);
            if matches_selector(m, s) {
                let ghost before = out@;
                out.push(m);
                proof {
                    assert(derefs(out@) =~= derefs(before) + seq![*m]);
                }
            } else {
                proof {
                    assert(derefs(out@) =~= derefs(out@) + Seq::<Markup>::empty());
                }
            }
            out
        },
        Markup::Other(_) => {
            let out: Vec<&Markup> = Vec::new();
            proof {
                assert(derefs(out@) =~= Seq::<Markup>::empty());
            }
            out
        },
    }
}

/// Every element matching `s` among `nodes`, node by node.
pub fn all_in_list<'a>(nodes: &'a Vec<Markup>, s: &Selector) -> (r: Vec<&'a Markup>)
    ensures
        derefs(r@) == all_in_from(nodes@, s@, 0),
    decreases nodes@,
{
    let n = nodes.len();
    let mut out: Vec<&Markup> = Vec::new();
    let mut i: usize = 0;
    proof {
        assert(derefs(out@) + all_in_from(nodes@, s@, 0) =~= all_in_from(nodes@, s@, 0));
    }
    while i < n
        invariant
            n == nodes@.len(),
            i <= n,
            derefs(out@) + all_in_from(nodes@, s@, i as int) == all_in_from(nodes@, s@, 0),
        decreases n - i,
    {
        let ghost before = out@;
        let mut sub = all_in(&nodes[i], s);
        let ghost added = sub@;
        out.append(&mut sub);
        proof {
            assert(derefs(out@) =~= derefs(before) + derefs(added));
            assert(derefs(before) + (derefs(added) + all_in_from(nodes@, s@, i + 1)) =~= derefs(
                out@,
            ) + all_in_from(nodes@, s@, i + 1));
        }
        i = i + 1;
    }
    proof {
        assert(derefs(out@) + Seq::<Markup>::empty() =~= derefs(out@));
    }
    out
}

/// Every element matching `s` among the nodes that `nodes` points at, node by node.
pub fn all_in_refs<'a>(nodes: &Vec<&'a Markup>, s: &Selector) -> (r: Vec<&'a Markup>)
    ensures
        derefs(r@) == all_in_from(derefs(nodes@), s@, 0),
{
    let n = nodes.len();
    let ghost d = derefs(nodes@);
    let mut out: Vec<&Markup> = Vec::new();
    let mut i: usize = 0;
    proof {
        assert(derefs(out@) + all_in_from(d, s@, 0) =~= all_in_from(d, s@, 0));
    }
    while i < n
        invariant
            n == nodes@.len(),
            d == derefs(nodes@),
            i <= n,
            derefs(out@) + all_in_from(d, s@, i as int) == all_in_from(d, s@, 0),
        decreases n - i,
    {
        let ghost before = out@;
        let mut sub = all_in(nodes[i], s);
        let ghost added = sub@;
        out.append(&mut sub);
        proof {
            assert(d[i as int] == *nodes@[i as int]);
            assert(derefs(out@) =~= derefs(before) + derefs(added));
            assert(derefs(before) + (derefs(added) + all_in_from(d, s@, i + 1)) =~= derefs(out@)
                + all_in_from(d, s@, i + 1));
        }
        i = i + 1;
    }
    proof {
        assert(derefs(out@) + Seq::<Markup>::empty() =~= derefs(out@));
    }
    out
}

/// The first element matching `s` among the nodes that `nodes` points at, in order.
pub fn first_in_refs<'a>(nodes: &Vec<&'a Markup>, s: &Selector) -> (r: Option<&'a Markup>)
    ensures
        match r {
            Some(e) => first_in_from(derefs(nodes@), s@, 0) == Some(*e),
            None => first_in_from(derefs(nodes@), s@, 0) is None,
        },
{
    let n = nodes.len();
    let ghost d = derefs(nodes@);
    let mut i: usize = 0;
    while i < n
        invariant
            n == nodes@.len(),
            d == derefs(nodes@),
            i <= n,
            first_in_from(d, s@, 0) == first_in_from(d, s@, i as int),
        decreases n - i,
    {
        proof {
            assert(d[i as int] == *nodes@[i as int]);
        }
        match first_in(nodes[i], s) {
            Some(e) => return Some(e),
            None => {},
        }
        i = i + 1;
    }
    None
}

} // verus!
