//! Decomposition trees: the mathematical model, the executable type, and
//! the text that a tree is written as.

use vstd::prelude::*;
use vstd::std_specs::cmp::PartialEqSpecImpl;
use super::operator::{is_idc, is_operator, operator_arity, IDC};

verus! {

broadcast use vstd::std_specs::vec::axiom_vec_index_decreases;

/// A decomposition tree as a mathematical value.
pub enum Tree {
    /// An irreducible glyph.
    Atom(char),
    /// A component that is named rather than decomposed.
    Opaque(Seq<char>),
    /// An operator code point and the components it combines, in order.
    Composition(char, Seq<Tree>),
}

impl Tree {
    /// Every composition in the tree is headed by an operator and has as
    /// many children as that operator's arity.
    pub open spec fn wf(self) -> bool
        decreases self,
    {
        match self {
            Tree::Composition(op, children) => {
                &&& is_operator(op)
                &&& children.len() == operator_arity(op)
                &&& forall|i: int| 0 <= i < children.len() ==> (#[trigger] children[i]).wf()
            },
            _ => true,
        }
    }

    /// The text of the tree: an atom is its character, an opaque component
    /// is its label in braces, a composition is its operator followed by
    /// the texts of its children.
    pub open spec fn render(self) -> Seq<char>
        decreases self,
    {
        match self {
            Tree::Atom(c) => seq![c],
            Tree::Opaque(label) => seq!['{'] + label + seq!['}'],
            Tree::Composition(op, children) => seq![op] + render_all(children),
        }
    }
}

/// The texts of `trees`, one after the other.
pub open spec fn render_all(trees: Seq<Tree>) -> Seq<char>
    decreases trees,
{
    if trees.len() == 0 {
        Seq::empty()
    } else {
        trees[0].render() + render_all(trees.drop_first())
    }
}

/// A decomposition tree.
#[derive(Debug, Hash)]
pub enum IDS {
    /// An irreducible glyph.
    Char(char),
    /// A component that is named rather than decomposed.
    Special(String),
    /// An operator and the components it combines.
    Composition { idc: IDC, children: Vec<IDS> },
}

impl View for IDS {
    type V = Tree;

    open spec fn view(&self) -> Tree {
        tree_of(*self)
    }
}

/// The mathematical tree that `ids` stands for.
pub open spec fn tree_of(ids: IDS) -> Tree
    decreases ids,
{
    match ids {
        IDS::Char(c) => Tree::Atom(c),
        IDS::Special(label) => Tree::Opaque(label@),
        IDS::Composition { idc, children } => Tree::Composition(idc@, trees_of(children@)),
    }
}

/// The trees that the elements of `items` stand for, in order.
pub open spec fn trees_of(items: Seq<IDS>) -> Seq<Tree>
    decreases items,
{
    if items.len() == 0 {
        Seq::empty()
    } else {
        trees_of(items.drop_last()).push(tree_of(items.last()))
    }
}

/// `trees_of` maps element by element.
pub proof fn lemma_trees_of(items: Seq<IDS>)
    ensures
        trees_of(items) == Seq::new(items.len(), |i: int| items[i]@),
    decreases items.len(),
{
    if items.len() > 0 {
        lemma_trees_of(items.drop_last());
    }
    assert(trees_of(items) =~= Seq::new(items.len(), |i: int| items[i]@));
}

/// The view of a composition: its operator's code point and the views of
/// its children, one for one.
pub proof fn lemma_composition_view(idc: IDC, children: Vec<IDS>)
    ensures
        (IDS::Composition { idc, children })@ == Tree::Composition(idc@, trees_of(children@)),
        trees_of(children@).len() == children.len(),
        forall|i: int| 0 <= i < children.len() ==> trees_of(children@)[i] == children[i]@,
{
    lemma_trees_of(children@);
}

/// A composition is well formed exactly when its operator is one, it has
/// as many children as the operator's arity, and they are well formed.
pub proof fn lemma_composition_wf(idc: IDC, children: Vec<IDS>)
    ensures
        (IDS::Composition { idc, children })@.wf() <==> {
            &&& is_operator(idc@)
            &&& children.len() == operator_arity(idc@)
            &&& forall|i: int| 0 <= i < children.len() ==> (#[trigger] children[i])@.wf()
        },
{
    lemma_composition_view(idc, children);
    let views = trees_of(children@);
    if (IDS::Composition { idc, children })@.wf() {
        assert forall|i: int| 0 <= i < children.len() implies (#[trigger] children[i])@.wf() by {
            assert(views[i].wf());
        }
    }
    if forall|i: int| 0 <= i < children.len() ==> (#[trigger] children[i])@.wf() {
        assert forall|i: int| 0 <= i < views.len() implies (#[trigger] views[i]).wf() by {
            assert(children[i]@.wf());
        }
    }
}

/// A single tree renders alone as it does in a sequence.
pub proof fn lemma_render_all_single(t: Tree)
    ensures
        render_all(seq![t]) == t.render(),
{
    assert(seq![t].drop_first() =~= Seq::<Tree>::empty());
    assert(render_all(seq![t].drop_first()) =~= Seq::<char>::empty());
    assert(render_all(seq![t]) =~= t.render());
}

/// Rendering a sequence of trees distributes over concatenation.
pub proof fn lemma_render_all_concat(a: Seq<Tree>, b: Seq<Tree>)
    ensures
        render_all(a + b) == render_all(a) + render_all(b),
    decreases a.len(),
{
    if a.len() == 0 {
        assert(a + b =~= b);
        assert(render_all(a) + render_all(b) =~= render_all(b));
    } else {
        assert((a + b).drop_first() =~= a.drop_first() + b);
        assert((a + b)[0] == a[0]);
        lemma_render_all_concat(a.drop_first(), b);
        assert(render_all(a + b) =~= render_all(a) + render_all(b));
    }
}

impl IDS {
    /// Whether the two trees are the same value.
    fn same_tree(&self, other: &IDS) -> (r: bool)
        ensures
            r == (self@ == other@),
        decreases self,
    {
        match (self, other) {
            (IDS::Char(a), IDS::Char(b)) => *a == *b,
            (IDS::Special(a), IDS::Special(b)) => *a == *b,
            (
                IDS::Composition { idc: xc, children: xs },
                IDS::Composition { idc: yc, children: ys },
            ) => {
                proof {
                    lemma_composition_view(*xc, *xs);
                    lemma_composition_view(*yc, *ys);
                }
                if xc.code() != yc.code() || xs.len() != ys.len() {
                    return false;
                }
                let mut i: usize = 0;
                while i < xs.len()
                    invariant
                        i <= xs.len(),
                        xs.len() == ys.len(),
                        forall|j: int| 0 <= j < i ==> xs[j]@ == ys[j]@,
                        forall|j: int| 0 <= j < xs.len() ==> decreases_to!(self => xs[j]),
                        self@ == Tree::Composition(xc@, trees_of(xs@)),
                        other@ == Tree::Composition(yc@, trees_of(ys@)),
                        trees_of(xs@).len() == xs.len(),
                        trees_of(ys@).len() == ys.len(),
                        forall|j: int| 0 <= j < xs.len() ==> trees_of(xs@)[j] == xs[j]@,
                        forall|j: int| 0 <= j < ys.len() ==> trees_of(ys@)[j] == ys[j]@,
                    decreases xs.len() - i,
                {
                    if !xs[i].same_tree(&ys[i]) {
                        assert(trees_of(xs@)[i as int] != trees_of(ys@)[i as int]);
                        return false;
                    }
                    i += 1;
                }
                assert(trees_of(xs@) =~= trees_of(ys@));
                true
            },
            _ => false,
        }
    }

    /// Appends the text of the tree to `out`.
    fn render_into(&self, out: &mut String)
        ensures
            final(out)@ == old(out)@ + self@.render(),
        decreases self,
    {
        match self {
            IDS::Char(c) => {
                out.push(*c);
                assert(out@ =~= old(out)@ + self@.render());
            },
            IDS::Special(label) => {
                out.push('{');
                out.append(label.as_str());
                out.push('}');
                assert(out@ =~= old(out)@ + self@.render());
            },
            IDS::Composition { idc, children } => {
                out.push(idc.code());
                let ghost views = trees_of(children@);
                proof {
                    lemma_composition_view(*idc, *children);
                }
                let mut i: usize = 0;
                while i < children.len()
                    invariant
                        i <= children.len(),
                        views.len() == children.len(),
                        forall|j: int| 0 <= j < children.len() ==> views[j] == children[j]@,
                        forall|j: int|
                            0 <= j < children.len() ==> decreases_to!(self => children[j]),
                        out@ == old(out)@ + seq![idc@] + render_all(views.take(i as int)),
                    decreases children.len() - i,
                {
                    children[i].render_into(out);
                    proof {
                        lemma_render_all_concat(views.take(i as int), seq![views[i as int]]);
                        assert(views.take(i as int) + seq![views[i as int]] =~= views.take(
                            i as int + 1,
                        ));
                        lemma_render_all_single(views[i as int]);
                        assert(out@ =~= old(out)@ + seq![idc@] + render_all(
                            views.take(i as int + 1),
                        ));
                    }
                    i += 1;
                }
                assert(views.take(children.len() as int) =~= views);
                assert(out@ =~= old(out)@ + self@.render());
            },
        }
    }

    /// Whether the tree is well formed: every composition in it has as many
    /// children as its operator's arity.
    pub fn is_well_formed(&self) -> (r: bool)
        ensures
            r == self@.wf(),
        decreases self,
    {
        match self {
            IDS::Composition { idc, children } => {
                proof {
                    lemma_composition_wf(*idc, *children);
                    lemma_composition_view(*idc, *children);
                }
                if !is_idc(idc.code()) || children.len() != idc.arity() {
                    return false;
                }
                let mut i: usize = 0;
                while i < children.len()
                    invariant
                        i <= children.len(),
                        self@.wf() <==> forall|j: int|
                            0 <= j < children.len() ==> (#[trigger] children[j])@.wf(),
                        forall|j: int| 0 <= j < i ==> (#[trigger] children[j])@.wf(),
                        forall|j: int|
                            0 <= j < children.len() ==> decreases_to!(self => children[j]),
                    decreases children.len() - i,
                {
                    if !children[i].is_well_formed() {
                        return false;
                    }
                    i += 1;
                }
                true
            },
            _ => true,
        }
    }

    /// The text of the tree.
    pub fn to_string(&self) -> (s: String)
        ensures
            s@ == self@.render(),
    {
        let mut s = String::new();
        self.render_into(&mut s);
        assert(s@ =~= self@.render());
        s
    }
}

impl Clone for IDS {
    fn clone(&self) -> (r: IDS)
        ensures
            r@ == self@,
        decreases self,
    {
        match self {
            IDS::Char(c) => IDS::Char(*c),
            IDS::Special(label) => IDS::Special(label.clone()),
            IDS::Composition { idc, children } => {
                let mut copies: Vec<IDS> = Vec::new();
                let mut i: usize = 0;
                while i < children.len()
                    invariant
                        i <= children.len(),
                        copies.len() == i,
                        forall|j: int| 0 <= j < i ==> copies[j]@ == children[j]@,
                        forall|j: int|
                            0 <= j < children.len() ==> decreases_to!(self => children[j]),
                    decreases children.len() - i,
                {
                    copies.push(children[i].clone());
                    i += 1;
                }
                proof {
                    lemma_composition_view(*idc, *children);
                    lemma_composition_view(*idc, copies);
                    assert(trees_of(copies@) =~= trees_of(children@));
                }
                IDS::Composition { idc: *idc, children: copies }
            },
        }
    }
}

impl PartialEq for IDS {
    fn eq(&self, other: &IDS) -> (r: bool) {
        self.same_tree(other)
    }
}

impl PartialEqSpecImpl for IDS {
    open spec fn obeys_eq_spec() -> bool {
        true
    }

    open spec fn eq_spec(&self, other: &IDS) -> bool {
        self@ == other@
    }
}

impl Eq for IDS {

}

} // verus!
