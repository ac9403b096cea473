//! What the three predicates on decomposition trees mean.
//!
//! Each predicate expands atoms through the table, so the table's contents
//! decide whether its evaluation ends. The definitions therefore count the
//! depth of the evaluation: `..._within` gives the answer that is reached
//! within a given depth, and `..._result` the answer that is reached at
//! all, if any.

use vstd::prelude::*;
use super::operator::{operator_arity, operator_direction, operator_reduction};
use super::table::{expansion, TableView};
use super::tree::Tree;

verus! {

/// `x` and then `y`: `y` is looked at only where `x` holds.
pub open spec fn both(x: Option<bool>, y: Option<bool>) -> Option<bool> {
    match x {
        Some(true) => y,
        _ => x,
    }
}

/// `x` or else `y`: `y` is looked at only where `x` fails.
pub open spec fn either(x: Option<bool>, y: Option<bool>) -> Option<bool> {
    match x {
        Some(false) => y,
        _ => x,
    }
}

/// The composition that groups `x` and `y` under the operator `op`.
pub open spec fn group(op: char, x: Tree, y: Tree) -> Tree {
    Tree::Composition(op, seq![x, y])
}

/// Whether `a` and `b` match structurally, as far as an evaluation of the
/// given depth can tell; `None` where it cannot.
///
/// The atom `wildcard` matches anything. Opaque components match by label
/// and atoms by character. An atom matches a composition where its
/// expansion does. Compositions under one operator match child by child;
/// a ternary and a binary composition of one direction match where the
/// ternary one, with its first two or its last two children grouped under
/// the reduced operator, matches child by child.
pub open spec fn matches_within(
    m: TableView,
    a: Tree,
    b: Tree,
    wildcard: char,
    depth: nat,
) -> Option<bool>
    decreases depth, 0nat,
{
    if depth == 0 {
        None
    } else if a == Tree::Atom(wildcard) || b == Tree::Atom(wildcard) {
        Some(true)
    } else {
        match (a, b) {
            (Tree::Opaque(x), Tree::Opaque(y)) => Some(x == y),
            (Tree::Atom(x), Tree::Atom(y)) => Some(x == y),
            (Tree::Atom(k), Tree::Composition(_, _)) => match expansion(m, k) {
                Some(definition) => matches_within(
                    m,
                    definition,
                    b,
                    wildcard,
                    (depth - 1) as nat,
                ),
                None => Some(false),
            },
            (Tree::Composition(_, _), Tree::Atom(k)) => match expansion(m, k) {
                Some(definition) => matches_within(
                    m,
                    definition,
                    a,
                    wildcard,
                    (depth - 1) as nat,
                ),
                None => Some(false),
            },
            (Tree::Composition(xo, xs), Tree::Composition(yo, ys)) => {
                if xo == yo {
                    children_match_from(m, xs, ys, wildcard, (depth - 1) as nat, 0)
                } else if regroups(xo, yo) {
                    regroup_within(m, xo, xs, ys, wildcard, (depth - 1) as nat)
                } else if regroups(yo, xo) {
                    regroup_within(m, yo, ys, xs, wildcard, (depth - 1) as nat)
                } else {
                    Some(false)
                }
            },
            _ => Some(false),
        }
    }
}

/// Whether a composition under `ternary` can be regrouped to match one
/// under `binary`: the one has three children, the other two, and both lay
/// them out in the same direction.
pub open spec fn regroups(ternary: char, binary: char) -> bool {
    &&& operator_arity(ternary) == 3
    &&& operator_arity(binary) == 2
    &&& operator_direction(ternary) == operator_direction(binary)
}

/// Whether the children `xs` and `ys` match pairwise from position `from`
/// on, as far as both reach.
pub open spec fn children_match_from(
    m: TableView,
    xs: Seq<Tree>,
    ys: Seq<Tree>,
    wildcard: char,
    depth: nat,
    from: nat,
) -> Option<bool>
    decreases depth, 1 + xs.len() - from,
{
    if from >= xs.len() || from >= ys.len() {
        Some(true)
    } else {
        both(
            matches_within(m, xs[from as int], ys[from as int], wildcard, depth),
            children_match_from(m, xs, ys, wildcard, depth, from + 1),
        )
    }
}

/// Whether the three children `xs` of a composition under `ternary` match
/// the two children `ys` once the first two or the last two of `xs` are
/// grouped under the reduced operator.
pub open spec fn regroup_within(
    m: TableView,
    ternary: char,
    xs: Seq<Tree>,
    ys: Seq<Tree>,
    wildcard: char,
    depth: nat,
) -> Option<bool>
    decreases depth, 1nat,
{
    let reduced = operator_reduction(ternary).unwrap();
    either(
        both(
            matches_within(m, group(reduced, xs[0], xs[1]), ys[0], wildcard, depth),
            matches_within(m, xs[2], ys[1], wildcard, depth),
        ),
        both(
            matches_within(m, xs[0], ys[0], wildcard, depth),
            matches_within(m, group(reduced, xs[1], xs[2]), ys[1], wildcard, depth),
        ),
    )
}

/// Whether `a` and `b` match structurally; `None` where the evaluation
/// never ends.
pub open spec fn match_result(m: TableView, a: Tree, b: Tree, wildcard: char) -> Option<bool> {
    if exists|depth: nat| matches_within(m, a, b, wildcard, depth) is Some {
        matches_within(
            m,
            a,
            b,
            wildcard,
            choose|depth: nat| matches_within(m, a, b, wildcard, depth) is Some,
        )
    } else {
        None
    }
}

/// Whether `haystack` strictly contains `needle`, as far as an evaluation
/// of the given depth can tell.
///
/// A tree contains itself. Beyond that an atom contains what its expansion
/// contains, and a composition what one of its children contains.
pub open spec fn contains_within(
    m: TableView,
    haystack: Tree,
    needle: Tree,
    depth: nat,
) -> Option<bool>
    decreases depth, 0nat,
{
    if depth == 0 {
        None
    } else if haystack == needle {
        Some(true)
    } else {
        match haystack {
            Tree::Opaque(_) => Some(false),
            Tree::Atom(k) => match expansion(m, k) {
                Some(definition) => contains_within(m, definition, needle, (depth - 1) as nat),
                None => Some(false),
            },
            Tree::Composition(_, children) => any_contains_from(
                m,
                children,
                needle,
                (depth - 1) as nat,
                0,
            ),
        }
    }
}

/// Whether one of `children`, from position `from` on, strictly contains
/// `needle`.
pub open spec fn any_contains_from(
    m: TableView,
    children: Seq<Tree>,
    needle: Tree,
    depth: nat,
    from: nat,
) -> Option<bool>
    decreases depth, 1 + children.len() - from,
{
    if from >= children.len() {
        Some(false)
    } else {
        either(
            contains_within(m, children[from as int], needle, depth),
            any_contains_from(m, children, needle, depth, from + 1),
        )
    }
}

/// Whether `haystack` strictly contains `needle`; `None` where the
/// evaluation never ends.
pub open spec fn contains_result(m: TableView, haystack: Tree, needle: Tree) -> Option<bool> {
    if exists|depth: nat| contains_within(m, haystack, needle, depth) is Some {
        contains_within(
            m,
            haystack,
            needle,
            choose|depth: nat| contains_within(m, haystack, needle, depth) is Some,
        )
    } else {
        None
    }
}

/// Whether `a` or something below it matches `b`, as far as an evaluation
/// of the given depth can tell.
///
/// `a` qualifies where it matches `b` itself. Beyond that an atom qualifies
/// where its expansion does, and a composition where one of its children
/// does.
pub open spec fn descendant_within(
    m: TableView,
    a: Tree,
    b: Tree,
    wildcard: char,
    depth: nat,
) -> Option<bool>
    decreases depth, 0nat,
{
    if depth == 0 {
        None
    } else {
        match match_result(m, a, b, wildcard) {
            None => None,
            Some(true) => Some(true),
            Some(false) => match a {
                Tree::Opaque(_) => Some(false),
                Tree::Atom(k) => match expansion(m, k) {
                    Some(definition) => descendant_within(
                        m,
                        definition,
                        b,
                        wildcard,
                        (depth - 1) as nat,
                    ),
                    None => Some(false),
                },
                Tree::Composition(_, children) => any_descendant_from(
                    m,
                    children,
                    b,
                    wildcard,
                    (depth - 1) as nat,
                    0,
                ),
            },
        }
    }
}

/// Whether one of `children`, from position `from` on, or something below
/// it matches `b`.
pub open spec fn any_descendant_from(
    m: TableView,
    children: Seq<Tree>,
    b: Tree,
    wildcard: char,
    depth: nat,
    from: nat,
) -> Option<bool>
    decreases depth, 1 + children.len() - from,
{
    if from >= children.len() {
        Some(false)
    } else {
        either(
            descendant_within(m, children[from as int], b, wildcard, depth),
            any_descendant_from(m, children, b, wildcard, depth, from + 1),
        )
    }
}

/// Whether `a` or something below it matches `b`; `None` where the
/// evaluation never ends.
pub open spec fn descendant_result(m: TableView, a: Tree, b: Tree, wildcard: char) -> Option<
    bool,
> {
    if exists|depth: nat| descendant_within(m, a, b, wildcard, depth) is Some {
        descendant_within(
            m,
            a,
            b,
            wildcard,
            choose|depth: nat| descendant_within(m, a, b, wildcard, depth) is Some,
        )
    } else {
        None
    }
}

/// An answer reached within some depth is reached within any greater one.
pub proof fn lemma_matches_monotonic(
    m: TableView,
    a: Tree,
    b: Tree,
    wildcard: char,
    depth: nat,
    more: nat,
)
    requires
        depth <= more,
        matches_within(m, a, b, wildcard, depth) is Some,
    ensures
        matches_within(m, a, b, wildcard, more) == matches_within(m, a, b, wildcard, depth),
    decreases depth, 0nat,
{
    let d = (depth - 1) as nat;
    let e = (more - 1) as nat;
    if a == Tree::Atom(wildcard) || b == Tree::Atom(wildcard) {
    } else {
        match (a, b) {
            (Tree::Atom(k), Tree::Composition(_, _)) => {
                if let Some(definition) = expansion(m, k) {
                    lemma_matches_monotonic(m, definition, b, wildcard, d, e);
                }
            },
            (Tree::Composition(_, _), Tree::Atom(k)) => {
                if let Some(definition) = expansion(m, k) {
                    lemma_matches_monotonic(m, definition, a, wildcard, d, e);
                }
            },
            (Tree::Composition(xo, xs), Tree::Composition(yo, ys)) => {
                if xo == yo {
                    lemma_children_monotonic(m, xs, ys, wildcard, d, e, 0);
                } else if regroups(xo, yo) {
                    lemma_regroup_monotonic(m, xo, xs, ys, wildcard, d, e);
                } else if regroups(yo, xo) {
                    lemma_regroup_monotonic(m, yo, ys, xs, wildcard, d, e);
                }
            },
            _ => {},
        }
    }
}

/// An answer on children that is reached within some depth is reached
/// within any greater one.
pub proof fn lemma_children_monotonic(
    m: TableView,
    xs: Seq<Tree>,
    ys: Seq<Tree>,
    wildcard: char,
    depth: nat,
    more: nat,
    from: nat,
)
    requires
        depth <= more,
        children_match_from(m, xs, ys, wildcard, depth, from) is Some,
    ensures
        children_match_from(m, xs, ys, wildcard, more, from) == children_match_from(
            m,
            xs,
            ys,
            wildcard,
            depth,
            from,
        ),
    decreases depth, 1 + xs.len() - from,
{
    if from < xs.len() && from < ys.len() {
        lemma_matches_monotonic(m, xs[from as int], ys[from as int], wildcard, depth, more);
        if matches_within(m, xs[from as int], ys[from as int], wildcard, depth) == Some(true) {
            lemma_children_monotonic(m, xs, ys, wildcard, depth, more, from + 1);
        }
    }
}

/// An answer on a regrouping that is reached within some depth is reached
/// within any greater one.
pub proof fn lemma_regroup_monotonic(
    m: TableView,
    ternary: char,
    xs: Seq<Tree>,
    ys: Seq<Tree>,
    wildcard: char,
    depth: nat,
    more: nat,
)
    requires
        depth <= more,
        regroup_within(m, ternary, xs, ys, wildcard, depth) is Some,
    ensures
        regroup_within(m, ternary, xs, ys, wildcard, more) == regroup_within(
            m,
            ternary,
            xs,
            ys,
            wildcard,
            depth,
        ),
    decreases depth, 1nat,
{
    let reduced = operator_reduction(ternary).unwrap();
    let front = group(reduced, xs[0], xs[1]);
    let back = group(reduced, xs[1], xs[2]);
    if matches_within(m, front, ys[0], wildcard, depth) is Some {
        lemma_matches_monotonic(m, front, ys[0], wildcard, depth, more);
    }
    if matches_within(m, xs[2], ys[1], wildcard, depth) is Some {
        lemma_matches_monotonic(m, xs[2], ys[1], wildcard, depth, more);
    }
    if matches_within(m, xs[0], ys[0], wildcard, depth) is Some {
        lemma_matches_monotonic(m, xs[0], ys[0], wildcard, depth, more);
    }
    if matches_within(m, back, ys[1], wildcard, depth) is Some {
        lemma_matches_monotonic(m, back, ys[1], wildcard, depth, more);
    }
}

/// An answer reached within some depth is the answer.
pub proof fn lemma_match_result(m: TableView, a: Tree, b: Tree, wildcard: char, depth: nat)
    requires
        matches_within(m, a, b, wildcard, depth) is Some,
    ensures
        match_result(m, a, b, wildcard) == matches_within(m, a, b, wildcard, depth),
{
    let chosen = choose|d: nat| matches_within(m, a, b, wildcard, d) is Some;
    if chosen <= depth {
        lemma_matches_monotonic(m, a, b, wildcard, chosen, depth);
    } else {
        lemma_matches_monotonic(m, a, b, wildcard, depth, chosen);
    }
}

/// An answer reached within some depth is reached within any greater one.
pub proof fn lemma_contains_monotonic(
    m: TableView,
    haystack: Tree,
    needle: Tree,
    depth: nat,
    more: nat,
)
    requires
        depth <= more,
        contains_within(m, haystack, needle, depth) is Some,
    ensures
        contains_within(m, haystack, needle, more) == contains_within(m, haystack, needle, depth),
    decreases depth, 0nat,
{
    let d = (depth - 1) as nat;
    let e = (more - 1) as nat;
    if haystack != needle {
        match haystack {
            Tree::Opaque(_) => {},
            Tree::Atom(k) => {
                if let Some(definition) = expansion(m, k) {
                    lemma_contains_monotonic(m, definition, needle, d, e);
                }
            },
            Tree::Composition(_, children) => {
                lemma_any_contains_monotonic(m, children, needle, d, e, 0);
            },
        }
    }
}

/// An answer on children that is reached within some depth is reached
/// within any greater one.
pub proof fn lemma_any_contains_monotonic(
    m: TableView,
    children: Seq<Tree>,
    needle: Tree,
    depth: nat,
    more: nat,
    from: nat,
)
    requires
        depth <= more,
        any_contains_from(m, children, needle, depth, from) is Some,
    ensures
        any_contains_from(m, children, needle, more, from) == any_contains_from(
            m,
            children,
            needle,
            depth,
            from,
        ),
    decreases depth, 1 + children.len() - from,
{
    if from < children.len() {
        lemma_contains_monotonic(m, children[from as int], needle, depth, more);
        if contains_within(m, children[from as int], needle, depth) == Some(false) {
            lemma_any_contains_monotonic(m, children, needle, depth, more, from + 1);
        }
    }
}

/// An answer reached within some depth is the answer.
pub proof fn lemma_contains_result(m: TableView, haystack: Tree, needle: Tree, depth: nat)
    requires
        contains_within(m, haystack, needle, depth) is Some,
    ensures
        contains_result(m, haystack, needle) == contains_within(m, haystack, needle, depth),
{
    let chosen = choose|d: nat| contains_within(m, haystack, needle, d) is Some;
    if chosen <= depth {
        lemma_contains_monotonic(m, haystack, needle, chosen, depth);
    } else {
        lemma_contains_monotonic(m, haystack, needle, depth, chosen);
    }
}

/// An answer reached within some depth is reached within any greater one.
pub proof fn lemma_descendant_monotonic(
    m: TableView,
    a: Tree,
    b: Tree,
    wildcard: char,
    depth: nat,
    more: nat,
)
    requires
        depth <= more,
        descendant_within(m, a, b, wildcard, depth) is Some,
    ensures
        descendant_within(m, a, b, wildcard, more) == descendant_within(m, a, b, wildcard, depth),
    decreases depth, 0nat,
{
    let d = (depth - 1) as nat;
    let e = (more - 1) as nat;
    if match_result(m, a, b, wildcard) == Some(false) {
        match a {
            Tree::Opaque(_) => {},
            Tree::Atom(k) => {
                if let Some(definition) = expansion(m, k) {
                    lemma_descendant_monotonic(m, definition, b, wildcard, d, e);
                }
            },
            Tree::Composition(_, children) => {
                lemma_any_descendant_monotonic(m, children, b, wildcard, d, e, 0);
            },
        }
    }
}

/// An answer on children that is reached within some depth is reached
/// within any greater one.
pub proof fn lemma_any_descendant_monotonic(
    m: TableView,
    children: Seq<Tree>,
    b: Tree,
    wildcard: char,
    depth: nat,
    more: nat,
    from: nat,
)
    requires
        depth <= more,
        any_descendant_from(m, children, b, wildcard, depth, from) is Some,
    ensures
        any_descendant_from(m, children, b, wildcard, more, from) == any_descendant_from(
            m,
            children,
            b,
            wildcard,
            depth,
            from,
        ),
    decreases depth, 1 + children.len() - from,
{
    if from < children.len() {
        lemma_descendant_monotonic(m, children[from as int], b, wildcard, depth, more);
        if descendant_within(m, children[from as int], b, wildcard, depth) == Some(false) {
            lemma_any_descendant_monotonic(m, children, b, wildcard, depth, more, from + 1);
        }
    }
}

/// An answer reached within some depth is the answer.
pub proof fn lemma_descendant_result(m: TableView, a: Tree, b: Tree, wildcard: char, depth: nat)
    requires
        descendant_within(m, a, b, wildcard, depth) is Some,
    ensures
        descendant_result(m, a, b, wildcard) == descendant_within(m, a, b, wildcard, depth),
{
    let chosen = choose|d: nat| descendant_within(m, a, b, wildcard, d) is Some;
    if chosen <= depth {
        lemma_descendant_monotonic(m, a, b, wildcard, chosen, depth);
    } else {
        lemma_descendant_monotonic(m, a, b, wildcard, depth, chosen);
    }
}

} // verus!
