//! The text grammar of decomposition trees.
//!
//! A tree is written as its rendering: an atom as itself, an opaque
//! component as its label in braces, a composition as its operator followed
//! by its children. Parsing is the inverse of rendering on the trees that
//! the grammar can express.

use vstd::prelude::*;
use super::operator::{is_operator, operator_arity};
use super::text::{first_index, lemma_first_index, lemma_first_index_is};
use super::tree::{render_all, Tree};

verus! {

/// Characters that stand for themselves as an atom: anything but an
/// operator, an opening brace or an opening bracket.
pub open spec fn is_atom_char(c: char) -> bool {
    !is_operator(c) && c != '{' && c != '['
}

/// A label that can stand between an opening delimiter and `close`: it is
/// not empty and does not contain `close`.
pub open spec fn is_label(label: Seq<char>, close: char) -> bool {
    label.len() > 0 && forall|i: int| 0 <= i < label.len() ==> label[i] != close
}

impl Tree {
    /// The trees that the grammar can express: atoms are atom characters,
    /// opaque labels are non-empty and free of closing braces, and every
    /// composition has exactly as many children as its operator's arity.
    pub open spec fn grammatical(self) -> bool
        decreases self,
    {
        match self {
            Tree::Atom(c) => is_atom_char(c),
            Tree::Opaque(label) => is_label(label, '}'),
            Tree::Composition(op, children) => {
                &&& is_operator(op)
                &&& children.len() == operator_arity(op)
                &&& forall|i: int|
                    0 <= i < children.len() ==> (#[trigger] children[i]).grammatical()
            },
        }
    }
}

/// Every tree in `trees` is grammatical.
pub open spec fn all_grammatical(trees: Seq<Tree>) -> bool {
    forall|i: int| 0 <= i < trees.len() ==> (#[trigger] trees[i]).grammatical()
}

/// `text` is exactly the rendering of the grammatical tree `t`.
pub open spec fn parses_as(text: Seq<char>, t: Tree) -> bool {
    t.grammatical() && t.render() == text
}

/// Some prefix of `text` is the rendering of a grammatical tree.
pub open spec fn has_tree_prefix(text: Seq<char>) -> bool {
    exists|n: int, t: Tree| 0 <= n <= text.len() && #[trigger] parses_as(text.take(n), t)
}

/// The tree that `text` is the rendering of, if there is one.
pub open spec fn tree_of_text(text: Seq<char>) -> Option<Tree> {
    if exists|t: Tree| parses_as(text, t) {
        Some(choose|t: Tree| parses_as(text, t))
    } else {
        None
    }
}

/// Reads a label between `open` and `close` from the front of `s`: the
/// label and the number of characters read, delimiters included.
pub open spec fn read_delimited(s: Seq<char>, open: char, close: char) -> Option<(Seq<char>, int)> {
    if s.len() > 0 && s[0] == open {
        match first_index(s.skip(1), close) {
            Some(n) => if n > 0 {
                Some((s.subrange(1, n + 1), n + 2))
            } else {
                None
            },
            None => None,
        }
    } else {
        None
    }
}

/// Reads one tree from the front of `s`: the tree and the number of
/// characters it takes.
pub open spec fn read_tree(s: Seq<char>) -> Option<(Tree, int)>
    decreases s.len(), 0nat,
{
    if s.len() == 0 {
        None
    } else if is_operator(s[0]) {
        match read_forest(s.skip(1), operator_arity(s[0])) {
            Some((children, n)) => Some((Tree::Composition(s[0], children), n + 1)),
            None => None,
        }
    } else if s[0] == '{' {
        match read_delimited(s, '{', '}') {
            Some((label, n)) => Some((Tree::Opaque(label), n)),
            None => None,
        }
    } else if s[0] == '[' {
        None
    } else {
        Some((Tree::Atom(s[0]), 1))
    }
}

/// Reads `count` trees, one after the other, from the front of `s`.
pub open spec fn read_forest(s: Seq<char>, count: nat) -> Option<(Seq<Tree>, int)>
    decreases s.len(), count + 1,
{
    if count == 0 {
        Some((Seq::empty(), 0))
    } else {
        match read_tree(s) {
            Some((first, n)) => if 0 < n <= s.len() {
                match read_forest(s.skip(n), (count - 1) as nat) {
                    Some((others, m)) => Some((seq![first] + others, n + m)),
                    None => None,
                }
            } else {
                None
            },
            None => None,
        }
    }
}

/// Whatever `read_delimited` returns is a label, and the characters read
/// are the label between its delimiters.
pub proof fn lemma_read_delimited_sound(s: Seq<char>, open: char, close: char)
    ensures
        read_delimited(s, open, close) matches Some((label, n)) ==> {
            &&& 0 < n <= s.len()
            &&& is_label(label, close)
            &&& seq![open] + label + seq![close] == s.take(n)
        },
{
    if s.len() > 0 && s[0] == open {
        let inner = s.skip(1);
        lemma_first_index(inner, close);
        if let Some(n) = first_index(inner, close) {
            if n > 0 {
                let label = s.subrange(1, n + 1);
                assert forall|i: int| 0 <= i < label.len() implies label[i] != close by {
                    assert(label[i] == inner[i]);
                }
                assert(s[n + 1] == inner[n]);
                assert(seq![open] + label + seq![close] =~= s.take(n + 2));
            }
        }
    }
}

/// Reading a label between its delimiters gives the label back, whatever
/// follows the closing delimiter.
pub proof fn lemma_read_delimited_complete(
    label: Seq<char>,
    open: char,
    close: char,
    rest: Seq<char>,
)
    requires
        is_label(label, close),
    ensures
        read_delimited(seq![open] + label + seq![close] + rest, open, close) == Some(
            (label, label.len() as int + 2),
        ),
{
    let s = seq![open] + label + seq![close] + rest;
    assert(s[0] == open);
    let inner = s.skip(1);
    assert(inner =~= label + seq![close] + rest);
    lemma_first_index_is(inner, close, label.len() as int);
    assert(s.subrange(1, label.len() as int + 1) =~= label);
}

/// A rendering is never empty.
pub proof fn lemma_render_nonempty(t: Tree)
    ensures
        t.render().len() >= 1,
{
}

/// Whatever `read_tree` and `read_forest` return is grammatical and renders
/// as the characters that were read.
pub proof fn lemma_read_tree_sound(s: Seq<char>)
    ensures
        read_tree(s) matches Some((t, n)) ==> {
            &&& 0 < n <= s.len()
            &&& t.grammatical()
            &&& t.render() == s.take(n)
        },
    decreases s.len(), 0nat,
{
    if s.len() == 0 {
    } else if is_operator(s[0]) {
        lemma_read_forest_sound(s.skip(1), operator_arity(s[0]));
        if let Some((children, n)) = read_forest(s.skip(1), operator_arity(s[0])) {
            let t = Tree::Composition(s[0], children);
            assert(t.render() =~= s.take(n + 1));
        }
    } else if s[0] == '{' {
        lemma_read_delimited_sound(s, '{', '}');
    } else if s[0] == '[' {
    } else {
        assert(Tree::Atom(s[0]).render() =~= s.take(1));
    }
}

/// Whatever `read_forest` returns is as many grammatical trees as were
/// asked for, and they render as the characters that were read.
pub proof fn lemma_read_forest_sound(s: Seq<char>, count: nat)
    ensures
        read_forest(s, count) matches Some((trees, n)) ==> {
            &&& 0 <= n <= s.len()
            &&& trees.len() == count
            &&& all_grammatical(trees)
            &&& render_all(trees) == s.take(n)
        },
    decreases s.len(), count + 1,
{
    if count == 0 {
        assert(render_all(Seq::<Tree>::empty()) =~= s.take(0));
    } else {
        lemma_read_tree_sound(s);
        if let Some((first, n)) = read_tree(s) {
            lemma_read_forest_sound(s.skip(n), (count - 1) as nat);
            if let Some((others, m)) = read_forest(s.skip(n), (count - 1) as nat) {
                let trees = seq![first] + others;
                assert(trees.drop_first() =~= others);
                assert(trees[0] == first);
                assert(render_all(trees) =~= s.take(n + m));
                assert forall|i: int| 0 <= i < trees.len() implies (
                #[trigger] trees[i]).grammatical() by {
                    if i > 0 {
                        assert(trees[i] == others[i - 1]);
                    }
                }
            }
        }
    }
}

/// Reading the rendering of a grammatical tree gives that tree back, and
/// stops where the rendering ends, whatever follows it.
pub proof fn lemma_read_tree_complete(t: Tree, rest: Seq<char>)
    requires
        t.grammatical(),
    ensures
        read_tree(t.render() + rest) == Some((t, t.render().len() as int)),
    decreases t,
{
    let s = t.render() + rest;
    match t {
        Tree::Atom(c) => {
            assert(s[0] == c);
        },
        Tree::Opaque(label) => {
            assert(s[0] == '{');
            lemma_read_delimited_complete(label, '{', '}', rest);
        },
        Tree::Composition(op, children) => {
            assert(s[0] == op);
            assert(s.skip(1) =~= render_all(children) + rest);
            lemma_read_forest_complete(children, rest);
        },
    }
}

/// Reading the renderings of grammatical trees, one after the other,
/// gives those trees back, whatever follows them.
pub proof fn lemma_read_forest_complete(trees: Seq<Tree>, rest: Seq<char>)
    requires
        all_grammatical(trees),
    ensures
        read_forest(render_all(trees) + rest, trees.len()) == Some(
            (trees, render_all(trees).len() as int),
        ),
    decreases trees,
{
    let s = render_all(trees) + rest;
    if trees.len() == 0 {
        assert(trees =~= Seq::<Tree>::empty());
    } else {
        let first = trees[0];
        let others = trees.drop_first();
        let tail = render_all(others) + rest;
        assert(s =~= first.render() + tail);
        lemma_read_tree_complete(first, tail);
        lemma_render_nonempty(first);
        let n = first.render().len() as int;
        assert(s.skip(n) =~= tail);
        assert(all_grammatical(others)) by {
            assert forall|i: int| 0 <= i < others.len() implies (
            #[trigger] others[i]).grammatical() by {
                assert(others[i] == trees[i + 1]);
            }
        }
        lemma_read_forest_complete(others, rest);
        assert(seq![first] + others =~= trees);
    }
}

/// Every grammatical tree is well formed.
pub proof fn lemma_grammatical_wf(t: Tree)
    requires
        t.grammatical(),
    ensures
        t.wf(),
    decreases t,
{
    match t {
        Tree::Composition(op, children) => {
            assert forall|i: int| 0 <= i < children.len() implies (#[trigger] children[i]).wf() by {
                lemma_grammatical_wf(children[i]);
            }
        },
        _ => {},
    }
}

/// A text is the rendering of at most one grammatical tree, even when more
/// text follows: renderings are prefix-free.
pub proof fn lemma_rendering_unique(a: Tree, rest_a: Seq<char>, b: Tree, rest_b: Seq<char>)
    requires
        a.grammatical(),
        b.grammatical(),
        a.render() + rest_a == b.render() + rest_b,
    ensures
        a == b,
        rest_a == rest_b,
{
    lemma_read_tree_complete(a, rest_a);
    lemma_read_tree_complete(b, rest_b);
    let n = a.render().len() as int;
    assert(rest_a =~= (a.render() + rest_a).skip(n));
    assert(rest_b =~= (b.render() + rest_b).skip(n));
}

/// Parsing undoes rendering: the tree that the rendering of a grammatical
/// tree parses to is that tree.
pub proof fn lemma_parse_render(t: Tree)
    requires
        t.grammatical(),
    ensures
        tree_of_text(t.render()) == Some(t),
{
    assert(parses_as(t.render(), t));
    let u = choose|u: Tree| parses_as(t.render(), u);
    lemma_rendering_unique(t, Seq::empty(), u, Seq::empty());
}

/// Rendering undoes parsing: a text that parses renders back to itself, and
/// parsing that rendering again gives the same tree.
pub proof fn lemma_render_parse(text: Seq<char>)
    requires
        tree_of_text(text) is Some,
    ensures
        tree_of_text(text)->0.grammatical(),
        tree_of_text(text)->0.wf(),
        tree_of_text(text)->0.render() == text,
        tree_of_text(tree_of_text(text)->0.render()) == tree_of_text(text),
{
    lemma_grammatical_wf(tree_of_text(text)->0);
}

/// How `read_tree` decides the declarative notions: a text parses as `t`
/// exactly when `read_tree` reads `t` from all of it, and a text has a tree
/// prefix exactly when `read_tree` reads anything.
pub proof fn lemma_read_tree_decides(text: Seq<char>)
    ensures
        forall|t: Tree| #[trigger]
            parses_as(text, t) <==> read_tree(text) == Some((t, text.len() as int)),
        has_tree_prefix(text) <==> read_tree(text) is Some,
{
    lemma_read_tree_sound(text);
    assert forall|t: Tree| #[trigger]
        parses_as(text, t) <==> read_tree(text) == Some((t, text.len() as int)) by {
        if parses_as(text, t) {
            lemma_read_tree_complete(t, Seq::empty());
            assert(t.render() + Seq::<char>::empty() =~= text);
        }
        if read_tree(text) == Some((t, text.len() as int)) {
            assert(text.take(text.len() as int) =~= text);
        }
    }
    if has_tree_prefix(text) {
        let (n, t) = choose|n: int, t: Tree|
            0 <= n <= text.len() && #[trigger] parses_as(text.take(n), t);
        lemma_read_tree_complete(t, text.skip(n));
        assert(t.render() + text.skip(n) =~= text);
    }
    if let Some((t, n)) = read_tree(text) {
        assert(parses_as(text.take(n), t));
    }
}

} // verus!
