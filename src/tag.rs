//! Head tags and the total order under which they are kept.

use std::cmp::Ordering;

use vstd::prelude::*;

use crate::order::{lemma_lex_skip, lemma_lex_strict_total, lex_lt, strict_total};

verus! {

/// The kind of a head-level entry.
#[derive(Clone, Copy, Debug, PartialEq, Eq, Structural)]
pub enum TagKind {
    Title,
    Script,
    Style,
    Base,
    Link,
    Meta,
    Html,
    Body,
}

impl TagKind {
    /// Position of the kind in the tag order: kinds are ordered as declared.
    pub open spec fn rank(self) -> nat {
        match self {
            TagKind::Title => 0,
            TagKind::Script => 1,
            TagKind::Style => 2,
            TagKind::Base => 3,
            TagKind::Link => 4,
            TagKind::Meta => 5,
            TagKind::Html => 6,
            TagKind::Body => 7,
        }
    }

    pub fn rank_of(&self) -> (r: u8)
        ensures
            r as nat == self.rank(),
    {
        match self {
            TagKind::Title => 0,
            TagKind::Script => 1,
            TagKind::Style => 2,
            TagKind::Base => 3,
            TagKind::Link => 4,
            TagKind::Meta => 5,
            TagKind::Html => 6,
            TagKind::Body => 7,
        }
    }
}

/// An immutable descriptor of one head-level entry: its kind, its text content
/// and its attributes as (name, value) pairs, in the order given.
///
/// Everything a tag holds takes part in its identity: two tags with equal
/// fields are the same tag.
#[derive(Debug)]
pub struct Tag {
    pub kind: TagKind,
    pub content: String,
    pub attrs: Vec<(String, String)>,
}

/// What a tag is, as a value.
pub ghost struct TagView {
    pub kind: TagKind,
    pub content: Seq<char>,
    pub attrs: Seq<(Seq<char>, Seq<char>)>,
}

pub open spec fn attr_view(p: (String, String)) -> (Seq<char>, Seq<char>) {
    (p.0@, p.1@)
}

impl View for Tag {
    type V = TagView;

    open spec fn view(&self) -> TagView {
        TagView {
            kind: self.kind,
            content: self.content@,
            attrs: self.attrs@.map_values(|p: (String, String)| attr_view(p)),
        }
    }
}

/// Characters are ordered by their scalar value.
pub open spec fn char_order() -> spec_fn(char, char) -> bool {
    |a: char, b: char| (a as int) < (b as int)
}

/// Text is ordered lexicographically by characters.
pub open spec fn text_lt(a: Seq<char>, b: Seq<char>) -> bool {
    lex_lt(a, b, char_order())
}

pub open spec fn text_order() -> spec_fn(Seq<char>, Seq<char>) -> bool {
    |a: Seq<char>, b: Seq<char>| text_lt(a, b)
}

/// Attributes are ordered by name, then by value.
pub open spec fn attr_lt(a: (Seq<char>, Seq<char>), b: (Seq<char>, Seq<char>)) -> bool {
    text_lt(a.0, b.0) || (a.0 == b.0 && text_lt(a.1, b.1))
}

pub open spec fn attr_order() -> spec_fn((Seq<char>, Seq<char>), (Seq<char>, Seq<char>)) -> bool {
    |a: (Seq<char>, Seq<char>), b: (Seq<char>, Seq<char>)| attr_lt(a, b)
}

/// Attribute lists are ordered lexicographically by attribute.
pub open spec fn attrs_lt(a: Seq<(Seq<char>, Seq<char>)>, b: Seq<(Seq<char>, Seq<char>)>) -> bool {
    lex_lt(a, b, attr_order())
}

/// The tag order: by kind, then by content, then by attributes.
pub open spec fn tag_lt(a: TagView, b: TagView) -> bool {
    ||| a.kind.rank() < b.kind.rank()
    ||| a.kind == b.kind && text_lt(a.content, b.content)
    ||| a.kind == b.kind && a.content == b.content && attrs_lt(a.attrs, b.attrs)
}

pub open spec fn tag_order() -> spec_fn(TagView, TagView) -> bool {
    |a: TagView, b: TagView| tag_lt(a, b)
}

/// The result of a three-way comparison under `lt`.
pub open spec fn compared<T>(r: Ordering, a: T, b: T, lt: spec_fn(T, T) -> bool) -> bool {
    &&& (r == Ordering::Less) == lt(a, b)
    &&& (r == Ordering::Equal) == (a == b)
    &&& (r == Ordering::Greater) == lt(b, a)
}

pub proof fn lemma_char_order()
    ensures
        strict_total(char_order()),
{
    let o = char_order();
    assert forall|a: char| !#[trigger] o(a, a) by {}
    assert forall|a: char, b: char, c: char| #![trigger o(a, b), o(b, c)]
        o(a, b) && o(b, c) implies o(a, c) by {}
    assert forall|a: char, b: char| #![trigger o(a, b)] #![trigger o(b, a)]
        a != b implies o(a, b) || o(b, a) by {
        assert(a as int != b as int);
    }
}

pub proof fn lemma_text_order()
    ensures
        strict_total(text_order()),
{
    lemma_char_order();
    lemma_lex_strict_total(char_order());
    let l = |a: Seq<char>, b: Seq<char>| lex_lt(a, b, char_order());
    let t = text_order();
    assert forall|a: Seq<char>, b: Seq<char>| #[trigger] t(a, b) == l(a, b) by {}
    assert forall|a: Seq<char>| !#[trigger] t(a, a) by {
        assert(!l(a, a));
    }
    assert forall|a: Seq<char>, b: Seq<char>, c: Seq<char>| #![trigger t(a, b), t(b, c)]
        t(a, b) && t(b, c) implies t(a, c) by {
        assert(l(a, b) && l(b, c));
    }
    assert forall|a: Seq<char>, b: Seq<char>| #![trigger t(a, b)] #![trigger t(b, a)]
        a != b implies t(a, b) || t(b, a) by {
        assert(l(a, b) || l(b, a));
    }
}

pub proof fn lemma_attr_order()
    ensures
        strict_total(attr_order()),
{
    lemma_text_order();
    let t = text_order();
    let o = attr_order();
    assert forall|a: (Seq<char>, Seq<char>)| !#[trigger] o(a, a) by {
        assert(!t(a.0, a.0));
        assert(!t(a.1, a.1));
    }
    assert forall|a: (Seq<char>, Seq<char>), b: (Seq<char>, Seq<char>), c: (Seq<char>, Seq<char>)|
        #![trigger o(a, b), o(b, c)] o(a, b) && o(b, c) implies o(a, c) by {
        if t(a.0, b.0) && t(b.0, c.0) {
        } else if t(a.0, b.0) {
        } else if t(b.0, c.0) {
        } else {
            assert(t(a.1, b.1) && t(b.1, c.1));
        }
    }
    assert forall|a: (Seq<char>, Seq<char>), b: (Seq<char>, Seq<char>)|
        #![trigger o(a, b)] #![trigger o(b, a)] a != b implies o(a, b) || o(b, a) by {
        if a.0 == b.0 {
            assert(a.1 != b.1);
            assert(t(a.1, b.1) || t(b.1, a.1));
        } else {
            assert(t(a.0, b.0) || t(b.0, a.0));
        }
    }
}

pub open spec fn attrs_order() -> spec_fn(Seq<(Seq<char>, Seq<char>)>, Seq<(Seq<char>, Seq<char>)>) -> bool {
    |a: Seq<(Seq<char>, Seq<char>)>, b: Seq<(Seq<char>, Seq<char>)>| attrs_lt(a, b)
}

pub proof fn lemma_attrs_order()
    ensures
        strict_total(attrs_order()),
{
    lemma_attr_order();
    lemma_lex_strict_total(attr_order());
    let l = |a: Seq<(Seq<char>, Seq<char>)>, b: Seq<(Seq<char>, Seq<char>)>| lex_lt(a, b, attr_order());
    let t = attrs_order();
    assert forall|a: Seq<(Seq<char>, Seq<char>)>| !#[trigger] t(a, a) by {
        assert(!l(a, a));
    }
    assert forall|a: Seq<(Seq<char>, Seq<char>)>, b: Seq<(Seq<char>, Seq<char>)>, c: Seq<(Seq<char>, Seq<char>)>|
        #![trigger t(a, b), t(b, c)] t(a, b) && t(b, c) implies t(a, c) by {
        assert(l(a, b) && l(b, c));
    }
    assert forall|a: Seq<(Seq<char>, Seq<char>)>, b: Seq<(Seq<char>, Seq<char>)>|
        #![trigger t(a, b)] #![trigger t(b, a)] a != b implies t(a, b) || t(b, a) by {
        assert(l(a, b) || l(b, a));
    }
}

/// The tag order is a strict total order: two tags compare equal exactly when
/// they are the same value.
pub proof fn lemma_tag_order()
    ensures
        strict_total(tag_order()),
{
    lemma_text_order();
    lemma_attrs_order();
    let x = text_order();
    let y = attrs_order();
    let t = tag_order();
    assert forall|a: TagView| !#[trigger] t(a, a) by {
        assert(!x(a.content, a.content));
        assert(!y(a.attrs, a.attrs));
    }
    assert forall|a: TagView, b: TagView, c: TagView| #![trigger t(a, b), t(b, c)]
        t(a, b) && t(b, c) implies t(a, c) by {
        if a.kind == b.kind && b.kind == c.kind {
            if x(a.content, b.content) && x(b.content, c.content) {
            } else if x(a.content, b.content) || x(b.content, c.content) {
            } else {
                assert(y(a.attrs, b.attrs) && y(b.attrs, c.attrs));
            }
        }
    }
    assert forall|a: TagView, b: TagView| #![trigger t(a, b)] #![trigger t(b, a)]
        a != b implies t(a, b) || t(b, a) by {
        if a.kind == b.kind {
            if a.content == b.content {
                if a.attrs == b.attrs {
                    assert(a == b);
                }
                assert(y(a.attrs, b.attrs) || y(b.attrs, a.attrs));
            } else {
                assert(x(a.content, b.content) || x(b.content, a.content));
            }
        } else {
            assert(a.kind.rank() != b.kind.rank());
        }
    }
}

/// The facts of `lemma_tag_order`, stated on `tag_lt` itself.
pub proof fn lemma_tag_lt()
    ensures
        forall|a: TagView| !#[trigger] tag_lt(a, a),
        forall|a: TagView, b: TagView, c: TagView| #![trigger tag_lt(a, b), tag_lt(b, c)]
            tag_lt(a, b) && tag_lt(b, c) ==> tag_lt(a, c),
        forall|a: TagView, b: TagView| #![trigger tag_lt(a, b)] #![trigger tag_lt(b, a)]
            a != b ==> tag_lt(a, b) || tag_lt(b, a),
{
    lemma_tag_order();
    let t = tag_order();
    assert forall|a: TagView, b: TagView| #[trigger] tag_lt(a, b) == t(a, b) by {}
}

fn compare_chars(a: &str, b: &str) -> (r: Ordering)
    ensures
        compared(r, a@, b@, text_order()),
{
    proof {
        lemma_text_order();
    }
    let n = a.unicode_len();
    let m = b.unicode_len();
    let mut i: usize = 0;
    while i < n && i < m
        invariant
            n == a@.len(),
            m == b@.len(),
            i <= n,
            i <= m,
            a@.take(i as int) == b@.take(i as int),
        decreases n - i,
    {
        let x = a.get_char(i);
        let y = b.get_char(i);
        if x != y {
            proof {
                lemma_lex_skip(a@, b@, i as int, char_order());
                lemma_lex_skip(b@, a@, i as int, char_order());
                assert(a@.skip(i as int)[0] == x);
                assert(b@.skip(i as int)[0] == y);
                assert(a@ != b@);
            }
            if (x as u32) < (y as u32) {
                return Ordering::Less;
            } else {
                return Ordering::Greater;
            }
        }
        proof {
            assert(a@.take(i + 1) =~= a@.take(i as int).push(x));
            assert(b@.take(i + 1) =~= b@.take(i as int).push(y));
        }
        i = i + 1;
    }
    proof {
        lemma_lex_skip(a@, b@, i as int, char_order());
        lemma_lex_skip(b@, a@, i as int, char_order());
        if n == m {
            assert(a@ =~= a@.take(i as int));
            assert(b@ =~= b@.take(i as int));
        } else if n < m {
            assert(a@.len() != b@.len());
        } else {
            assert(a@.len() != b@.len());
        }
    }
    if n < m {
        Ordering::Less
    } else if n == m {
        Ordering::Equal
    } else {
        Ordering::Greater
    }
}

/// Compares two texts under the text order.
pub fn compare_text(a: &String, b: &String) -> (r: Ordering)
    ensures
        compared(r, a@, b@, text_order()),
{
    compare_chars(a.as_str(), b.as_str())
}

fn compare_attr(a: &(String, String), b: &(String, String)) -> (r: Ordering)
    ensures
        compared(r, attr_view(*a), attr_view(*b), attr_order()),
{
    proof {
        lemma_text_order();
    }
    match compare_text(&a.0, &b.0) {
        Ordering::Equal => compare_text(&a.1, &b.1),
        other => other,
    }
}

fn compare_attrs(a: &Vec<(String, String)>, b: &Vec<(String, String)>) -> (r: Ordering)
    ensures
        compared(
            r,
            a@.map_values(|p: (String, String)| attr_view(p)),
            b@.map_values(|p: (String, String)| attr_view(p)),
            attrs_order(),
        ),
{
    proof {
        lemma_attr_order();
        lemma_attrs_order();
    }
    let ghost av = a@.map_values(|p: (String, String)| attr_view(p));
    let ghost bv = b@.map_values(|p: (String, String)| attr_view(p));
    let n = a.len();
    let m = b.len();
    let mut i: usize = 0;
    while i < n && i < m
        invariant
            n == a@.len(),
            m == b@.len(),
            av == a@.map_values(|p: (String, String)| attr_view(p)),
            bv == b@.map_values(|p: (String, String)| attr_view(p)),
            i <= n,
            i <= m,
            av.take(i as int) == bv.take(i as int),
            strict_total(attr_order()),
        decreases n - i,
    {
        let c = compare_attr(&a[i], &b[i]);
        match c {
            Ordering::Equal => {},
            _ => {
                proof {
                    lemma_lex_skip(av, bv, i as int, attr_order());
                    lemma_lex_skip(bv, av, i as int, attr_order());
                    assert(av.skip(i as int)[0] == av[i as int]);
                    assert(bv.skip(i as int)[0] == bv[i as int]);
                    assert(av != bv);
                }
                return c;
            },
        }
        proof {
            assert(av.take(i + 1) =~= av.take(i as int).push(av[i as int]));
            assert(bv.take(i + 1) =~= bv.take(i as int).push(bv[i as int]));
        }
        i = i + 1;
    }
    proof {
        lemma_lex_skip(av, bv, i as int, attr_order());
        lemma_lex_skip(bv, av, i as int, attr_order());
        if n == m {
            assert(av =~= av.take(i as int));
            assert(bv =~= bv.take(i as int));
        } else {
            assert(av.len() != bv.len());
        }
    }
    if n < m {
        Ordering::Less
    } else if n == m {
        Ordering::Equal
    } else {
        Ordering::Greater
    }
}

impl Tag {
    pub fn new(kind: TagKind, content: String, attrs: Vec<(String, String)>) -> (t: Tag)
        ensures
            t.kind == kind,
            t.content == content,
            t.attrs == attrs,
    {
        Tag { kind, content, attrs }
    }

    /// Three-way comparison under the tag order.
    pub fn compare(&self, other: &Tag) -> (r: Ordering)
        ensures
            compared(r, self@, other@, tag_order()),
    {
        proof {
            lemma_tag_order();
        }
        let x = self.kind.rank_of();
        let y = other.kind.rank_of();
        if x < y {
            return Ordering::Less;
        }
        if x > y {
            return Ordering::Greater;
        }
        match compare_text(&self.content, &other.content) {
            Ordering::Equal => {},
            c => {
                return c;
            },
        }
        let r = compare_attrs(&self.attrs, &other.attrs);
        proof {
            assert(self.kind == other.kind);
            if r == Ordering::Equal {
                assert(self@ == other@);
            }
        }
        r
    }
}

} // verus!
