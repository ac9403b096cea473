//! Tags: what tells apart the decompositions recorded for one character.

use vstd::prelude::*;
use vstd::std_specs::cmp::PartialEqSpecImpl;
use vstd::std_specs::convert::FromSpecImpl;
use super::text::{text_less, text_lt};
use super::tree::IDS;

verus! {

/// A tag as a mathematical value.
pub enum TagView {
    /// A tag that carries a source label; the label may be empty.
    Named(Seq<char>),
    /// A tag made for an entry whose own tag was already taken: the number
    /// of entries that its character had before it.
    Anon(nat),
}

impl TagView {
    /// The label shown for the tag: its own for a named tag, none for an
    /// anonymous one.
    pub open spec fn label(self) -> Seq<char> {
        match self {
            TagView::Named(label) => label,
            TagView::Anon(_) => Seq::empty(),
        }
    }
}

/// The order of tags: named tags by their labels, then anonymous tags by
/// their numbers.
pub open spec fn tag_lt(a: TagView, b: TagView) -> bool {
    match (a, b) {
        (TagView::Named(x), TagView::Named(y)) => text_lt(x, y),
        (TagView::Named(_), TagView::Anon(_)) => true,
        (TagView::Anon(_), TagView::Named(_)) => false,
        (TagView::Anon(i), TagView::Anon(j)) => i < j,
    }
}

/// Distinguishes the decompositions recorded for one character.
#[derive(Debug, Hash, PartialOrd, Ord)]
pub enum Tag {
    /// A tag that carries a source label; the label may be empty.
    Variant(String),
    /// A tag made for an entry whose own tag was already taken, numbered by
    /// how many entries its character had before it.
    Anon(usize),
}

impl View for Tag {
    type V = TagView;

    open spec fn view(&self) -> TagView {
        match self {
            Tag::Variant(label) => TagView::Named(label@),
            Tag::Anon(n) => TagView::Anon(*n as nat),
        }
    }
}

impl Tag {
    /// Whether `self` comes before `other`.
    pub fn less_than(&self, other: &Tag) -> (r: bool)
        ensures
            r == tag_lt(self@, other@),
    {
        match (self, other) {
            (Tag::Variant(x), Tag::Variant(y)) => text_less(x.as_str(), y.as_str()),
            (Tag::Variant(_), Tag::Anon(_)) => true,
            (Tag::Anon(_), Tag::Variant(_)) => false,
            (Tag::Anon(i), Tag::Anon(j)) => *i < *j,
        }
    }

    /// The label shown for the tag.
    pub fn to_string(&self) -> (s: String)
        ensures
            s@ == self@.label(),
    {
        match self {
            Tag::Variant(label) => label.clone(),
            Tag::Anon(_) => String::new(),
        }
    }
}

impl Clone for Tag {
    fn clone(&self) -> (r: Tag)
        ensures
            r@ == self@,
    {
        match self {
            Tag::Variant(label) => Tag::Variant(label.clone()),
            Tag::Anon(n) => Tag::Anon(*n),
        }
    }
}

impl PartialEq for Tag {
    fn eq(&self, other: &Tag) -> (r: bool) {
        match (self, other) {
            (Tag::Variant(x), Tag::Variant(y)) => *x == *y,
            (Tag::Anon(i), Tag::Anon(j)) => *i == *j,
            _ => false,
        }
    }
}

impl PartialEqSpecImpl for Tag {
    open spec fn obeys_eq_spec() -> bool {
        true
    }

    open spec fn eq_spec(&self, other: &Tag) -> bool {
        self@ == other@
    }
}

impl Eq for Tag {

}

impl From<String> for Tag {
    fn from(val: String) -> (r: Tag) {
        Tag::Variant(val)
    }
}

impl FromSpecImpl<String> for Tag {
    open spec fn obeys_from_spec() -> bool {
        true
    }

    open spec fn from_spec(val: String) -> Tag {
        Tag::Variant(val)
    }
}

/// A decomposition tree together with its tag.
#[derive(Debug)]
pub struct TaggedIDS {
    pub ids: IDS,
    pub tag: Tag,
}

impl Clone for TaggedIDS {
    fn clone(&self) -> (r: TaggedIDS)
        ensures
            r.ids@ == self.ids@,
            r.tag@ == self.tag@,
    {
        TaggedIDS { ids: self.ids.clone(), tag: self.tag.clone() }
    }
}

impl PartialEq for TaggedIDS {
    fn eq(&self, other: &TaggedIDS) -> (r: bool) {
        self.ids == other.ids && self.tag == other.tag
    }
}

impl PartialEqSpecImpl for TaggedIDS {
    open spec fn obeys_eq_spec() -> bool {
        true
    }

    open spec fn eq_spec(&self, other: &TaggedIDS) -> bool {
        self.ids@ == other.ids@ && self.tag@ == other.tag@
    }
}

impl Eq for TaggedIDS {

}

} // verus!
