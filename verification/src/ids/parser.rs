//! The parser for the text grammar of decomposition trees.

use vstd::prelude::*;
use vstd::string::StrSliceExecFns;
use super::grammar::{
    has_tree_prefix, lemma_grammatical_wf, lemma_parse_render, lemma_read_delimited_complete,
    lemma_read_delimited_sound, lemma_read_tree_complete, lemma_read_tree_decides,
    lemma_read_tree_sound, lemma_rendering_unique, parses_as, read_delimited, read_forest,
    read_tree, tree_of_text,
};
use super::operator::{idc_arity, is_idc, is_operator, IDC};
use super::tag::{Tag, TagView, TaggedIDS};
use super::text::{char_at, chars_of, find_first, string_between};
use super::tree::{lemma_composition_view, lemma_trees_of, trees_of, Tree, IDS};

verus! {

/// Why a text is not a decomposition tree.
#[derive(Debug, Clone, Copy, PartialEq, Eq, Structural)]
pub enum ParseError {
    /// No tree starts the text: the text ends before a tree is complete, an
    /// opaque block is empty or not closed, or a character stands where it
    /// cannot start a tree.
    Malformed,
    /// A tree starts the text, but what follows it is not allowed there.
    Trailing,
}

/// The text that a tag label adds behind a tree: nothing for the empty
/// label, the label in square brackets for any other.
pub open spec fn tag_suffix(label: Seq<char>) -> Seq<char> {
    if label.len() == 0 {
        Seq::empty()
    } else {
        seq!['['] + label + seq![']']
    }
}

/// `text` is the rendering of the grammatical tree `t` followed by the tag
/// `label`, which holds no closing bracket.
pub open spec fn tagged_parses_as(text: Seq<char>, t: Tree, label: Seq<char>) -> bool {
    &&& t.grammatical()
    &&& forall|i: int| 0 <= i < label.len() ==> label[i] != ']'
    &&& text == t.render() + tag_suffix(label)
}

/// The error that a text without a parse is rejected with.
pub open spec fn parse_error_of(text: Seq<char>) -> ParseError {
    if has_tree_prefix(text) {
        ParseError::Trailing
    } else {
        ParseError::Malformed
    }
}

impl ParseError {
    /// A sentence that describes the error.
    pub fn to_string(&self) -> (s: String)
        ensures
            s@ == match *self {
                ParseError::Malformed => "Input is not a decomposition"@,
                ParseError::Trailing => "Input is not parsed completely"@,
            },
    {
        match self {
            ParseError::Malformed => "Input is not a decomposition".to_owned(),
            ParseError::Trailing => "Input is not parsed completely".to_owned(),
        }
    }
}

/// Reads a non-empty label between `open` and `close`.
fn parser_delimited(chars: &Vec<char>, pos: usize, open: char, close: char) -> (r: Option<
    (String, usize),
>)
    requires
        pos <= chars.len(),
    ensures
        match read_delimited(chars@.skip(pos as int), open, close) {
            Some((label, n)) => r matches Some((text, end)) && text@ == label && end == pos + n,
            None => r is None,
        },
{
    let ghost s = chars@.skip(pos as int);
    if pos >= chars.len() || chars[pos] != open {
        return None;
    }
    assert(s[0] == open);
    assert(s.skip(1) =~= chars@.skip(pos + 1));
    let end = find_first(chars, pos + 1, close);
    if end >= chars.len() || end == pos + 1 {
        None
    } else {
        let label = string_between(chars, pos + 1, end);
        assert(label@ =~= s.subrange(1, end - pos));
        Some((label, end + 1))
    }
}

/// Reads an opaque component: a non-empty label in braces.
fn parser_special(chars: &Vec<char>, pos: usize) -> (r: Option<(IDS, usize)>)
    requires
        pos < chars.len(),
        chars[pos as int] == '{',
    ensures
        match read_tree(chars@.skip(pos as int)) {
            Some((t, n)) => r matches Some((ids, end)) && ids@ == t && end == pos + n,
            None => r is None,
        },
{
    assert(chars@.skip(pos as int)[0] == '{');
    match parser_delimited(chars, pos, '{', '}') {
        Some((label, end)) => Some((IDS::Special(label), end)),
        None => None,
    }
}

/// Reads a tag: a non-empty label in square brackets.
fn parser_tag(chars: &Vec<char>, pos: usize) -> (r: Option<(String, usize)>)
    requires
        pos <= chars.len(),
    ensures
        match read_delimited(chars@.skip(pos as int), '[', ']') {
            Some((label, n)) => r matches Some((text, end)) && text@ == label && end == pos + n,
            None => r is None,
        },
{
    parser_delimited(chars, pos, '[', ']')
}

/// Reads an atom: one character that stands for itself.
fn parser_char(chars: &Vec<char>, pos: usize) -> (r: Option<(IDS, usize)>)
    requires
        pos < chars.len(),
        !is_operator(chars[pos as int]),
        chars[pos as int] != '{',
    ensures
        match read_tree(chars@.skip(pos as int)) {
            Some((t, n)) => r matches Some((ids, end)) && ids@ == t && end == pos + n,
            None => r is None,
        },
{
    let c = char_at(chars, pos);
    let ghost s = chars@.skip(pos as int);
    assert(s.len() > 0 && s[0] == c);
    if c == '[' {
        None
    } else {
        Some((IDS::Char(c), pos + 1))
    }
}

/// Reads a composition: an operator and as many trees as its arity.
fn parser_composition(chars: &Vec<char>, pos: usize) -> (r: Option<(IDS, usize)>)
    requires
        pos < chars.len(),
        is_operator(chars[pos as int]),
    ensures
        match read_tree(chars@.skip(pos as int)) {
            Some((t, n)) => r matches Some((ids, end)) && ids@ == t && end == pos + n,
            None => r is None,
        },
    decreases chars.len() - pos, 0nat,
{
    let c = char_at(chars, pos);
    let ghost s = chars@.skip(pos as int);
    assert(s[0] == c);
    assert(s.skip(1) =~= chars@.skip(pos + 1));
    match parser_children(chars, pos + 1, idc_arity(c)) {
        Some((children, end)) => {
            let idc = IDC::new(c).unwrap();
            proof {
                lemma_composition_view(idc, children);
            }
            Some((IDS::Composition { idc, children }, end))
        },
        None => None,
    }
}

/// Reads `count` trees, one after the other.
fn parser_children(chars: &Vec<char>, pos: usize, count: usize) -> (r: Option<(Vec<IDS>, usize)>)
    requires
        pos <= chars.len(),
    ensures
        match read_forest(chars@.skip(pos as int), count as nat) {
            Some((trees, n)) => r matches Some((items, end)) && trees_of(items@) == trees && end
                == pos + n,
            None => r is None,
        },
    decreases chars.len() - pos, count + 1,
{
    let ghost s = chars@.skip(pos as int);
    if count == 0 {
        let items: Vec<IDS> = Vec::new();
        proof {
            lemma_trees_of(items@);
            assert(trees_of(items@) =~= Seq::<Tree>::empty());
        }
        return Some((items, pos));
    }
    proof {
        lemma_read_tree_sound(s);
    }
    match parser_ids_at(chars, pos) {
        None => None,
        Some((first, mid)) => {
            assert(s.skip(mid - pos) =~= chars@.skip(mid as int));
            match parser_children(chars, mid, count - 1) {
                None => None,
                Some((mut items, end)) => {
                    let ghost others = items@;
                    let ghost first_tree = first@;
                    items.insert(0, first);
                    proof {
                        lemma_trees_of(others);
                        lemma_trees_of(items@);
                        assert(trees_of(items@) =~= seq![first_tree] + trees_of(others));
                    }
                    Some((items, end))
                },
            }
        },
    }
}

/// Reads one tree that starts at `pos`.
fn parser_ids_at(chars: &Vec<char>, pos: usize) -> (r: Option<(IDS, usize)>)
    requires
        pos <= chars.len(),
    ensures
        match read_tree(chars@.skip(pos as int)) {
            Some((t, n)) => r matches Some((ids, end)) && ids@ == t && end == pos + n,
            None => r is None,
        },
    decreases chars.len() - pos, 1nat,
{
    if pos >= chars.len() {
        return None;
    }
    let c = char_at(chars, pos);
    if is_idc(c) {
        parser_composition(chars, pos)
    } else if c == '{' {
        parser_special(chars, pos)
    } else {
        parser_char(chars, pos)
    }
}

/// A text is a tagged tree in at most one way.
pub proof fn lemma_tagged_unique(
    text: Seq<char>,
    t1: Tree,
    label1: Seq<char>,
    t2: Tree,
    label2: Seq<char>,
)
    requires
        tagged_parses_as(text, t1, label1),
        tagged_parses_as(text, t2, label2),
    ensures
        t1 == t2,
        label1 == label2,
{
    lemma_rendering_unique(t1, tag_suffix(label1), t2, tag_suffix(label2));
    let a = tag_suffix(label1);
    let b = tag_suffix(label2);
    if label1.len() > 0 && label2.len() > 0 {
        assert(label1 =~= a.subrange(1, a.len() - 1));
        assert(label2 =~= b.subrange(1, b.len() - 1));
    } else {
        assert(a.len() == b.len());
        assert(label1 =~= label2);
    }
}

/// Reads one tree from the front of `input` and returns it with the text
/// that follows it.
///
/// Succeeds exactly when some prefix of `input` is the rendering of a
/// grammatical tree; that prefix and tree are then unique.
pub fn parser_ids<'a>(input: &'a str) -> (r: Result<(&'a str, IDS), ParseError>)
    ensures
        match r {
            Ok((rest, ids)) => {
                &&& ids@.grammatical()
                &&& ids@.wf()
                &&& input@ == ids@.render() + rest@
            },
            Err(e) => e == ParseError::Malformed && !has_tree_prefix(input@),
        },
{
    let chars = chars_of(input);
    proof {
        assert(chars@.skip(0) =~= input@);
        lemma_read_tree_sound(input@);
        lemma_read_tree_decides(input@);
    }
    match parser_ids_at(&chars, 0) {
        None => Err(ParseError::Malformed),
        Some((ids, end)) => {
            let rest = input.substring_char(end, chars.len());
            proof {
                assert(input@ =~= input@.take(end as int) + rest@);
                lemma_grammatical_wf(ids@);
            }
            Ok((rest, ids))
        },
    }
}

/// Reads a tree and, behind it, an optional tag in square brackets, which
/// together must make up all of `input`. Where no tag is written the tag is
/// the empty label. The text returned is what is left of the input: nothing.
pub fn parser_tagged_ids<'a>(input: &'a str) -> (r: Result<(&'a str, TaggedIDS), ParseError>)
    ensures
        match r {
            Ok((rest, tagged)) => {
                &&& rest@.len() == 0
                &&& tagged.ids@.wf()
                &&& tagged.tag@ matches TagView::Named(label)
                &&& tagged_parses_as(input@, tagged.ids@, label)
            },
            Err(e) => {
                &&& e == parse_error_of(input@)
                &&& forall|t: Tree, label: Seq<char>| !tagged_parses_as(input@, t, label)
            },
        },
{
    let chars = chars_of(input);
    let ghost text = input@;
    proof {
        assert(chars@.skip(0) =~= text);
        lemma_read_tree_sound(text);
        lemma_read_tree_decides(text);
    }
    match parser_ids_at(&chars, 0) {
        None => {
            assert forall|t: Tree, label: Seq<char>| !tagged_parses_as(text, t, label) by {
                if tagged_parses_as(text, t, label) {
                    lemma_read_tree_complete(t, tag_suffix(label));
                }
            }
            Err(ParseError::Malformed)
        },
        Some((ids, mid)) => {
            let ghost after = text.skip(mid as int);
            proof {
                lemma_read_delimited_sound(after, '[', ']');
            }
            let (label, end) = match parser_tag(&chars, mid) {
                Some((label, end)) => (label, end),
                None => (String::new(), mid),
            };
            if end == chars.len() {
                let rest = input.substring_char(end, end);
                proof {
                    if label@.len() > 0 {
                        assert(after.take(end - mid) =~= after);
                    }
                    assert(text =~= text.take(mid as int) + after);
                    lemma_grammatical_wf(ids@);
                }
                Ok((rest, TaggedIDS { ids, tag: Tag::Variant(label) }))
            } else {
                assert forall|t: Tree, other: Seq<char>| !tagged_parses_as(text, t, other) by {
                    if tagged_parses_as(text, t, other) {
                        lemma_read_tree_complete(t, tag_suffix(other));
                        assert(after =~= tag_suffix(other));
                        if other.len() > 0 {
                            lemma_read_delimited_complete(other, '[', ']', Seq::empty());
                            assert(seq!['['] + other + seq![']'] + Seq::<char>::empty() =~= after);
                        }
                    }
                }
                Err(ParseError::Trailing)
            }
        },
    }
}

/// Parses `input` as one decomposition tree.
///
/// Succeeds exactly when `input` is the rendering of a grammatical tree,
/// and then returns that tree. Otherwise the error says whether a tree
/// starts the input at all.
pub fn parse(input: &str) -> (r: Result<IDS, ParseError>)
    ensures
        match r {
            Ok(ids) => {
                &&& parses_as(input@, ids@)
                &&& ids@.wf()
                &&& tree_of_text(input@) == Some(ids@)
            },
            Err(e) => tree_of_text(input@) is None && e == parse_error_of(input@),
        },
{
    match parser_ids(input) {
        Ok((rest, ids)) => {
            if rest.is_empty() {
                proof {
                    assert(input@ =~= ids@.render());
                    lemma_parse_render(ids@);
                }
                Ok(ids)
            } else {
                proof {
                    let n = ids@.render().len() as int;
                    assert(input@.take(n) =~= ids@.render());
                    assert(parses_as(input@.take(n), ids@));
                    assert forall|t: Tree| !parses_as(input@, t) by {
                        if parses_as(input@, t) {
                            lemma_rendering_unique(t, Seq::empty(), ids@, rest@);
                        }
                    }
                }
                Err(ParseError::Trailing)
            }
        },
        Err(e) => {
            proof {
                assert forall|t: Tree| !parses_as(input@, t) by {
                    if parses_as(input@, t) {
                        assert(input@.take(input@.len() as int) =~= input@);
                    }
                }
            }
            Err(e)
        },
    }
}

/// Parses `input` as a decomposition tree with an optional tag behind it.
///
/// Succeeds exactly when `input` is the rendering of a grammatical tree
/// followed by nothing, or by a non-empty label without a closing bracket
/// in square brackets. The tag is always a named one: the label, or the
/// empty label where none is written.
pub fn parse_tagged(input: &str) -> (r: Result<TaggedIDS, ParseError>)
    ensures
        match r {
            Ok(tagged) => {
                &&& tagged.ids@.wf()
                &&& tagged.tag@ matches TagView::Named(label)
                &&& tagged_parses_as(input@, tagged.ids@, label)
            },
            Err(e) => {
                &&& e == parse_error_of(input@)
                &&& forall|t: Tree, label: Seq<char>| !tagged_parses_as(input@, t, label)
            },
        },
{
    match parser_tagged_ids(input) {
        Ok((_, tagged)) => Ok(tagged),
        Err(e) => Err(e),
    }
}

} // verus!
