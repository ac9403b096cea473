//! What holds of the three predicates whatever the table and the trees.

use vstd::prelude::*;
use super::matching::{
    both, children_match_from, contains_result, group, lemma_children_monotonic,
    lemma_contains_result, lemma_match_result, lemma_matches_monotonic, match_result,
    matches_within, regroup_within, regroups,
};
use super::operator::operator_reduction;
use super::table::TableView;
use super::tree::Tree;

verus! {

/// The wildcard atom matches every tree, on either side.
pub proof fn lemma_wildcard_matches_all(m: TableView, x: Tree, wildcard: char)
    ensures
        match_result(m, x, Tree::Atom(wildcard), wildcard) == Some(true),
        match_result(m, Tree::Atom(wildcard), x, wildcard) == Some(true),
{
    lemma_match_result(m, x, Tree::Atom(wildcard), wildcard, 1);
    lemma_match_result(m, Tree::Atom(wildcard), x, wildcard, 1);
}

/// Within any depth, matching does not depend on the order of its two
/// trees.
pub proof fn lemma_matches_symmetric_within(
    m: TableView,
    a: Tree,
    b: Tree,
    wildcard: char,
    depth: nat,
)
    ensures
        matches_within(m, a, b, wildcard, depth) == matches_within(m, b, a, wildcard, depth),
    decreases depth, 0nat,
{
    if depth > 0 && a != Tree::Atom(wildcard) && b != Tree::Atom(wildcard) {
        match (a, b) {
            (Tree::Composition(xo, xs), Tree::Composition(yo, ys)) => {
                if xo == yo {
                    lemma_children_symmetric(m, xs, ys, wildcard, (depth - 1) as nat, 0);
                }
            },
            _ => {},
        }
    }
}

/// Within any depth, matching child by child does not depend on the order
/// of the two lists.
pub proof fn lemma_children_symmetric(
    m: TableView,
    xs: Seq<Tree>,
    ys: Seq<Tree>,
    wildcard: char,
    depth: nat,
    from: nat,
)
    ensures
        children_match_from(m, xs, ys, wildcard, depth, from) == children_match_from(
            m,
            ys,
            xs,
            wildcard,
            depth,
            from,
        ),
    decreases depth, 1 + xs.len() - from,
{
    if from < xs.len() && from < ys.len() {
        lemma_matches_symmetric_within(m, xs[from as int], ys[from as int], wildcard, depth);
        lemma_children_symmetric(m, xs, ys, wildcard, depth, from + 1);
    }
}

/// Structural matching is symmetric: whether `a` matches `b` is whether
/// `b` matches `a`, and the one is decided exactly when the other is.
pub proof fn lemma_match_symmetric(m: TableView, a: Tree, b: Tree, wildcard: char)
    ensures
        match_result(m, a, b, wildcard) == match_result(m, b, a, wildcard),
{
    if exists|depth: nat| matches_within(m, a, b, wildcard, depth) is Some {
        let depth = choose|depth: nat| matches_within(m, a, b, wildcard, depth) is Some;
        lemma_matches_symmetric_within(m, a, b, wildcard, depth);
        lemma_match_result(m, b, a, wildcard, depth);
    } else if exists|depth: nat| matches_within(m, b, a, wildcard, depth) is Some {
        let depth = choose|depth: nat| matches_within(m, b, a, wildcard, depth) is Some;
        lemma_matches_symmetric_within(m, a, b, wildcard, depth);
    }
}

/// Every tree matches itself; the depth returned is one within which it
/// does.
pub proof fn lemma_match_reflexive(m: TableView, t: Tree, wildcard: char) -> (depth: nat)
    ensures
        matches_within(m, t, t, wildcard, depth) == Some(true),
        match_result(m, t, t, wildcard) == Some(true),
    decreases t,
{
    let depth = match t {
        Tree::Composition(_, children) => {
            let below = lemma_children_reflexive(m, children, wildcard, 0);
            below + 1
        },
        _ => 1,
    };
    lemma_match_result(m, t, t, wildcard, depth);
    depth
}

/// Every list of trees matches itself child by child.
pub proof fn lemma_children_reflexive(
    m: TableView,
    children: Seq<Tree>,
    wildcard: char,
    from: nat,
) -> (depth: nat)
    ensures
        children_match_from(m, children, children, wildcard, depth, from) == Some(true),
    decreases children, children.len() - from,
{
    if from >= children.len() {
        0
    } else {
        let first = lemma_match_reflexive(m, children[from as int], wildcard);
        let others = lemma_children_reflexive(m, children, wildcard, from + 1);
        let depth = if first <= others {
            others
        } else {
            first
        };
        lemma_matches_monotonic(
            m,
            children[from as int],
            children[from as int],
            wildcard,
            first,
            depth,
        );
        lemma_children_monotonic(
            m,
            children,
            children,
            wildcard,
            others,
            depth,
            from + 1,
        );
        depth
    }
}

/// A ternary composition matches the binary composition, under the reduced
/// operator, of its first two children grouped and its third.
pub proof fn lemma_regroup_front(
    m: TableView,
    ternary: char,
    a: Tree,
    b: Tree,
    c: Tree,
    wildcard: char,
)
    requires
        operator_reduction(ternary) is Some,
    ensures
        ({
            let reduced = operator_reduction(ternary).unwrap();
            match_result(
                m,
                Tree::Composition(ternary, seq![a, b, c]),
                Tree::Composition(reduced, seq![group(reduced, a, b), c]),
                wildcard,
            ) == Some(true)
        }),
{
    let reduced = operator_reduction(ternary).unwrap();
    let x = Tree::Composition(ternary, seq![a, b, c]);
    let y = Tree::Composition(reduced, seq![group(reduced, a, b), c]);
    let front = lemma_match_reflexive(m, group(reduced, a, b), wildcard);
    let last = lemma_match_reflexive(m, c, wildcard);
    let depth = if front <= last {
        last
    } else {
        front
    };
    lemma_matches_monotonic(m, group(reduced, a, b), group(reduced, a, b), wildcard, front, depth);
    lemma_matches_monotonic(m, c, c, wildcard, last, depth);
    assert(regroups(ternary, reduced));
    assert(regroup_within(m, ternary, seq![a, b, c], seq![group(reduced, a, b), c], wildcard, depth)
        == Some(true));
    assert(matches_within(m, x, y, wildcard, depth + 1) == Some(true));
    lemma_match_result(m, x, y, wildcard, depth + 1);
}

/// A ternary composition matches the binary composition, under the reduced
/// operator, of its first child and its last two grouped, provided that
/// the attempt with the first two grouped, which is made first, is decided.
pub proof fn lemma_regroup_back(
    m: TableView,
    ternary: char,
    a: Tree,
    b: Tree,
    c: Tree,
    wildcard: char,
)
    requires
        operator_reduction(ternary) is Some,
        ({
            let reduced = operator_reduction(ternary).unwrap();
            both(
                match_result(m, group(reduced, a, b), a, wildcard),
                match_result(m, c, group(reduced, b, c), wildcard),
            ) is Some
        }),
    ensures
        ({
            let reduced = operator_reduction(ternary).unwrap();
            match_result(
                m,
                Tree::Composition(ternary, seq![a, b, c]),
                Tree::Composition(reduced, seq![a, group(reduced, b, c)]),
                wildcard,
            ) == Some(true)
        }),
{
    let reduced = operator_reduction(ternary).unwrap();
    let x = Tree::Composition(ternary, seq![a, b, c]);
    let y = Tree::Composition(reduced, seq![a, group(reduced, b, c)]);
    let front = group(reduced, a, b);
    let back = group(reduced, b, c);
    let d1 = choose|d: nat| matches_within(m, front, a, wildcard, d) is Some;
    lemma_match_result(m, front, a, wildcard, d1);
    let d2 = if match_result(m, front, a, wildcard) == Some(true) {
        let d = choose|d: nat| matches_within(m, c, back, wildcard, d) is Some;
        lemma_match_result(m, c, back, wildcard, d);
        d
    } else {
        0
    };
    let d3 = lemma_match_reflexive(m, a, wildcard);
    let d4 = lemma_match_reflexive(m, back, wildcard);
    let depth = d1 + d2 + d3 + d4;
    lemma_matches_monotonic(m, front, a, wildcard, d1, depth);
    if match_result(m, front, a, wildcard) == Some(true) {
        lemma_matches_monotonic(m, c, back, wildcard, d2, depth);
    }
    lemma_matches_monotonic(m, a, a, wildcard, d3, depth);
    lemma_matches_monotonic(m, back, back, wildcard, d4, depth);
    assert(regroups(ternary, reduced));
    assert(regroup_within(m, ternary, seq![a, b, c], seq![a, back], wildcard, depth) == Some(
        true,
    ));
    assert(matches_within(m, x, y, wildcard, depth + 1) == Some(true));
    lemma_match_result(m, x, y, wildcard, depth + 1);
}

/// Every tree strictly contains itself.
pub proof fn lemma_contains_reflexive(m: TableView, t: Tree)
    ensures
        contains_result(m, t, t) == Some(true),
{
    lemma_contains_result(m, t, t, 1);
}

} // verus!
