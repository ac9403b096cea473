//! Tables on which every evaluation ends.
//!
//! The predicates follow the expansions of atoms through the table. They
//! are decided for all trees as soon as the table is well founded: its
//! characters can be weighted so that a character weighs at least as much
//! as its expansion, atoms counted with one more than their character.

use vstd::prelude::*;
use super::laws::{lemma_regroup_back, lemma_regroup_front};
use super::matching::{
    any_contains_from, any_descendant_from, children_match_from, contains_result,
    contains_within, descendant_result, descendant_within, group, lemma_contains_result,
    lemma_descendant_result, lemma_match_result, match_result, matches_within, regroup_within,
    regroups,
};
use super::operator::{is_operator, operator_arity, operator_reduction};
use super::table::{expansion, first_expansion, records, records_wf, table_wf, Record, TableView};
use super::tree::Tree;

verus! {

/// A weight for every character.
pub type Weighting = spec_fn(char) -> nat;

/// The weight of a tree: one for the tree itself, the weight of its
/// character for an atom, and the weights of its children for a
/// composition.
pub open spec fn tree_weight(w: Weighting, t: Tree) -> nat
    decreases t,
{
    match t {
        Tree::Atom(c) => 1 + w(c),
        Tree::Opaque(_) => 1,
        Tree::Composition(_, children) => 1 + forest_weight(w, children),
    }
}

/// The weights of `trees`, added up.
pub open spec fn forest_weight(w: Weighting, trees: Seq<Tree>) -> nat
    decreases trees,
{
    if trees.len() == 0 {
        0
    } else {
        forest_weight(w, trees.drop_last()) + tree_weight(w, trees.last())
    }
}

/// Under `w` every character weighs at least as much as its expansion.
pub open spec fn is_weighting(m: TableView, w: Weighting) -> bool {
    forall|k: char| expansion(m, k) matches Some(d) ==> tree_weight(w, d) <= #[trigger] w(k)
}

/// The table is well founded: no character's expansion leads back to the
/// character.
pub open spec fn well_founded(m: TableView) -> bool {
    exists|w: Weighting| is_weighting(m, w)
}

/// Whether the character `c` occurs as an atom in `t`.
pub open spec fn occurs(c: char, t: Tree) -> bool
    decreases t,
{
    match t {
        Tree::Atom(x) => x == c,
        Tree::Opaque(_) => false,
        Tree::Composition(_, children) => exists|i: int|
            0 <= i < children.len() && occurs(c, #[trigger] children[i]),
    }
}

/// Every tree weighs at least one.
pub proof fn lemma_weight_positive(w: Weighting, t: Tree)
    ensures
        tree_weight(w, t) >= 1,
{
}

/// A forest weighs at least as much as each of its trees.
pub proof fn lemma_forest_weight_bound(w: Weighting, trees: Seq<Tree>, i: int)
    requires
        0 <= i < trees.len(),
    ensures
        tree_weight(w, trees[i]) <= forest_weight(w, trees),
    decreases trees.len(),
{
    if i < trees.len() - 1 {
        lemma_forest_weight_bound(w, trees.drop_last(), i);
    }
}

/// The weight of two trees and of three.
pub proof fn lemma_forest_weight_small(w: Weighting, trees: Seq<Tree>)
    ensures
        trees.len() == 2 ==> forest_weight(w, trees) == tree_weight(w, trees[0]) + tree_weight(
            w,
            trees[1],
        ),
        trees.len() == 3 ==> forest_weight(w, trees) == tree_weight(w, trees[0]) + tree_weight(
            w,
            trees[1],
        ) + tree_weight(w, trees[2]),
    decreases trees.len(),
{
    if trees.len() == 2 {
        let one = trees.drop_last();
        assert(one.drop_last().len() == 0);
        assert(forest_weight(w, one.drop_last()) == 0);
        assert(one.last() == trees[0]);
        assert(forest_weight(w, one) == forest_weight(w, one.drop_last()) + tree_weight(
            w,
            one.last(),
        ));
    }
    if trees.len() == 3 {
        let two = trees.drop_last();
        lemma_forest_weight_small(w, two);
        assert(two[0] == trees[0]);
        assert(two[1] == trees[1]);
    }
}

/// An expansion is one of the character's recorded trees.
pub proof fn lemma_first_expansion(rs: Seq<Record>, k: char)
    ensures
        first_expansion(rs, k) matches Some(d) ==> d != Tree::Atom(k) && exists|i: int|
            0 <= i < rs.len() && (#[trigger] rs[i]).tree == d,
    decreases rs.len(),
{
    if rs.len() > 0 && rs[0].tree == Tree::Atom(k) {
        let rest = rs.skip(1);
        lemma_first_expansion(rest, k);
        if let Some(d) = first_expansion(rest, k) {
            let i = choose|i: int| 0 <= i < rest.len() && (#[trigger] rest[i]).tree == d;
            assert(rs[i + 1].tree == d);
        }
    }
}

/// In a table in order every expansion is well formed.
pub proof fn lemma_expansion_wf(m: TableView, k: char)
    requires
        table_wf(m),
    ensures
        expansion(m, k) matches Some(d) ==> d.wf(),
{
    lemma_first_expansion(records(m, k), k);
    if expansion(m, k) is Some {
        assert(m.dom().contains(k));
        assert(records_wf(m[k]));
    }
}

/// On a weighted table, matching is decided within the weight of the two
/// trees.
pub proof fn lemma_weight_decides_match(
    m: TableView,
    w: Weighting,
    a: Tree,
    b: Tree,
    wildcard: char,
    depth: nat,
)
    requires
        table_wf(m),
        is_weighting(m, w),
        a.wf(),
        b.wf(),
        depth >= tree_weight(w, a) + tree_weight(w, b),
    ensures
        matches_within(m, a, b, wildcard, depth) is Some,
    decreases depth, 0nat,
{
    lemma_weight_positive(w, a);
    lemma_weight_positive(w, b);
    let inner = (depth - 1) as nat;
    if a == Tree::Atom(wildcard) || b == Tree::Atom(wildcard) {
    } else {
        match (a, b) {
            (Tree::Atom(k), Tree::Composition(_, _)) => {
                if let Some(d) = expansion(m, k) {
                    lemma_expansion_wf(m, k);
                    assert(tree_weight(w, d) <= w(k));
                    lemma_weight_decides_match(m, w, d, b, wildcard, inner);
                }
            },
            (Tree::Composition(_, _), Tree::Atom(k)) => {
                if let Some(d) = expansion(m, k) {
                    lemma_expansion_wf(m, k);
                    assert(tree_weight(w, d) <= w(k));
                    lemma_weight_decides_match(m, w, d, a, wildcard, inner);
                }
            },
            (Tree::Composition(xo, xs), Tree::Composition(yo, ys)) => {
                if xo == yo {
                    lemma_weight_decides_children(m, w, xs, ys, wildcard, inner, 0);
                } else if regroups(xo, yo) {
                    lemma_weight_decides_regroup(m, w, xo, xs, ys, wildcard, inner);
                } else if regroups(yo, xo) {
                    lemma_weight_decides_regroup(m, w, yo, ys, xs, wildcard, inner);
                }
            },
            _ => {},
        }
    }
}

/// On a weighted table, matching child by child is decided within the
/// weight of the two lists.
pub proof fn lemma_weight_decides_children(
    m: TableView,
    w: Weighting,
    xs: Seq<Tree>,
    ys: Seq<Tree>,
    wildcard: char,
    depth: nat,
    from: nat,
)
    requires
        table_wf(m),
        is_weighting(m, w),
        forall|i: int| 0 <= i < xs.len() ==> (#[trigger] xs[i]).wf(),
        forall|i: int| 0 <= i < ys.len() ==> (#[trigger] ys[i]).wf(),
        depth >= forest_weight(w, xs) + forest_weight(w, ys),
    ensures
        children_match_from(m, xs, ys, wildcard, depth, from) is Some,
    decreases depth, 1 + xs.len() - from,
{
    if from < xs.len() && from < ys.len() {
        lemma_forest_weight_bound(w, xs, from as int);
        lemma_forest_weight_bound(w, ys, from as int);
        lemma_weight_decides_match(m, w, xs[from as int], ys[from as int], wildcard, depth);
        lemma_weight_decides_children(m, w, xs, ys, wildcard, depth, from + 1);
    }
}

/// On a weighted table, matching after regrouping is decided within the
/// weight of the two lists of children.
pub proof fn lemma_weight_decides_regroup(
    m: TableView,
    w: Weighting,
    ternary: char,
    xs: Seq<Tree>,
    ys: Seq<Tree>,
    wildcard: char,
    depth: nat,
)
    requires
        table_wf(m),
        is_weighting(m, w),
        is_operator(ternary),
        operator_arity(ternary) == 3,
        xs.len() == 3,
        ys.len() == 2,
        forall|i: int| 0 <= i < xs.len() ==> (#[trigger] xs[i]).wf(),
        forall|i: int| 0 <= i < ys.len() ==> (#[trigger] ys[i]).wf(),
        depth >= forest_weight(w, xs) + forest_weight(w, ys),
    ensures
        regroup_within(m, ternary, xs, ys, wildcard, depth) is Some,
    decreases depth, 1nat,
{
    let reduced = operator_reduction(ternary).unwrap();
    let front = group(reduced, xs[0], xs[1]);
    let back = group(reduced, xs[1], xs[2]);
    lemma_forest_weight_small(w, xs);
    lemma_forest_weight_small(w, ys);
    lemma_forest_weight_small(w, seq![xs[0], xs[1]]);
    lemma_forest_weight_small(w, seq![xs[1], xs[2]]);
    lemma_weight_positive(w, xs[0]);
    lemma_weight_positive(w, xs[2]);
    lemma_weight_positive(w, ys[0]);
    lemma_weight_positive(w, ys[1]);
    assert(front.wf());
    assert(back.wf());
    lemma_weight_decides_match(m, w, front, ys[0], wildcard, depth);
    lemma_weight_decides_match(m, w, xs[2], ys[1], wildcard, depth);
    lemma_weight_decides_match(m, w, xs[0], ys[0], wildcard, depth);
    lemma_weight_decides_match(m, w, back, ys[1], wildcard, depth);
}

/// On a weighted table, containment is decided within the weight of the
/// haystack.
pub proof fn lemma_weight_decides_contains(
    m: TableView,
    w: Weighting,
    haystack: Tree,
    needle: Tree,
    depth: nat,
)
    requires
        is_weighting(m, w),
        depth >= tree_weight(w, haystack),
    ensures
        contains_within(m, haystack, needle, depth) is Some,
    decreases depth, 0nat,
{
    lemma_weight_positive(w, haystack);
    let inner = (depth - 1) as nat;
    if haystack != needle {
        match haystack {
            Tree::Opaque(_) => {},
            Tree::Atom(k) => {
                if let Some(d) = expansion(m, k) {
                    assert(tree_weight(w, d) <= w(k));
                    lemma_weight_decides_contains(m, w, d, needle, inner);
                }
            },
            Tree::Composition(_, children) => {
                lemma_weight_decides_any_contains(m, w, children, needle, inner, 0);
            },
        }
    }
}

/// On a weighted table, whether one of some children contains a needle is
/// decided within the weight of the children.
pub proof fn lemma_weight_decides_any_contains(
    m: TableView,
    w: Weighting,
    children: Seq<Tree>,
    needle: Tree,
    depth: nat,
    from: nat,
)
    requires
        is_weighting(m, w),
        depth >= forest_weight(w, children),
    ensures
        any_contains_from(m, children, needle, depth, from) is Some,
    decreases depth, 1 + children.len() - from,
{
    if from < children.len() {
        lemma_forest_weight_bound(w, children, from as int);
        lemma_weight_decides_contains(m, w, children[from as int], needle, depth);
        lemma_weight_decides_any_contains(m, w, children, needle, depth, from + 1);
    }
}

/// On a weighted table, the search for a matching descendant is decided
/// within the weight of the tree that is searched.
pub proof fn lemma_weight_decides_descendant(
    m: TableView,
    w: Weighting,
    a: Tree,
    b: Tree,
    wildcard: char,
    depth: nat,
)
    requires
        table_wf(m),
        is_weighting(m, w),
        a.wf(),
        b.wf(),
        depth >= tree_weight(w, a),
    ensures
        descendant_within(m, a, b, wildcard, depth) is Some,
    decreases depth, 0nat,
{
    lemma_weight_positive(w, a);
    let inner = (depth - 1) as nat;
    let enough = tree_weight(w, a) + tree_weight(w, b);
    lemma_weight_decides_match(m, w, a, b, wildcard, enough);
    lemma_match_result(m, a, b, wildcard, enough);
    if match_result(m, a, b, wildcard) == Some(false) {
        match a {
            Tree::Opaque(_) => {},
            Tree::Atom(k) => {
                if let Some(d) = expansion(m, k) {
                    lemma_expansion_wf(m, k);
                    assert(tree_weight(w, d) <= w(k));
                    lemma_weight_decides_descendant(m, w, d, b, wildcard, inner);
                }
            },
            Tree::Composition(_, children) => {
                lemma_weight_decides_any_descendant(m, w, children, b, wildcard, inner, 0);
            },
        }
    }
}

/// On a weighted table, the search for a matching descendant among some
/// children is decided within the weight of the children.
pub proof fn lemma_weight_decides_any_descendant(
    m: TableView,
    w: Weighting,
    children: Seq<Tree>,
    b: Tree,
    wildcard: char,
    depth: nat,
    from: nat,
)
    requires
        table_wf(m),
        is_weighting(m, w),
        forall|i: int| 0 <= i < children.len() ==> (#[trigger] children[i]).wf(),
        b.wf(),
        depth >= forest_weight(w, children),
    ensures
        any_descendant_from(m, children, b, wildcard, depth, from) is Some,
    decreases depth, 1 + children.len() - from,
{
    if from < children.len() {
        lemma_forest_weight_bound(w, children, from as int);
        lemma_weight_decides_descendant(m, w, children[from as int], b, wildcard, depth);
        lemma_weight_decides_any_descendant(m, w, children, b, wildcard, depth, from + 1);
    }
}

/// On a well-founded table in order, each of the three predicates is
/// decided for all well-formed trees.
pub proof fn lemma_well_founded_decides(m: TableView, a: Tree, b: Tree, wildcard: char)
    requires
        table_wf(m),
        well_founded(m),
        a.wf(),
        b.wf(),
    ensures
        match_result(m, a, b, wildcard) is Some,
        contains_result(m, a, b) is Some,
        descendant_result(m, a, b, wildcard) is Some,
{
    let w = choose|w: Weighting| is_weighting(m, w);
    let enough = tree_weight(w, a) + tree_weight(w, b);
    lemma_weight_decides_match(m, w, a, b, wildcard, enough);
    lemma_match_result(m, a, b, wildcard, enough);
    lemma_weight_decides_contains(m, w, a, b, enough);
    lemma_contains_result(m, a, b, enough);
    lemma_weight_decides_descendant(m, w, a, b, wildcard, enough);
    lemma_descendant_result(m, a, b, wildcard, enough);
}

/// On a well-founded table in order, a ternary composition of well-formed
/// trees matches both of its regroupings under the reduced operator.
pub proof fn lemma_well_founded_regroups(
    m: TableView,
    ternary: char,
    a: Tree,
    b: Tree,
    c: Tree,
    wildcard: char,
)
    requires
        table_wf(m),
        well_founded(m),
        operator_reduction(ternary) is Some,
        a.wf(),
        b.wf(),
        c.wf(),
    ensures
        ({
            let reduced = operator_reduction(ternary).unwrap();
            let whole = Tree::Composition(ternary, seq![a, b, c]);
            &&& match_result(
                m,
                whole,
                Tree::Composition(reduced, seq![group(reduced, a, b), c]),
                wildcard,
            ) == Some(true)
            &&& match_result(
                m,
                whole,
                Tree::Composition(reduced, seq![a, group(reduced, b, c)]),
                wildcard,
            ) == Some(true)
        }),
{
    let reduced = operator_reduction(ternary).unwrap();
    assert(group(reduced, a, b).wf());
    assert(group(reduced, b, c).wf());
    lemma_well_founded_decides(m, group(reduced, a, b), a, wildcard);
    lemma_well_founded_decides(m, c, group(reduced, b, c), wildcard);
    lemma_regroup_front(m, ternary, a, b, c, wildcard);
    lemma_regroup_back(m, ternary, a, b, c, wildcard);
}

} // verus!
