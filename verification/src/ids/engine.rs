//! The three predicates on decomposition trees, evaluated against a table.

use vstd::prelude::*;
use super::matching::{
    any_contains_from, any_descendant_from, children_match_from, contains_result,
    contains_within, descendant_result, descendant_within, group, lemma_contains_result,
    lemma_descendant_result, lemma_match_result, match_result, matches_within, regroup_within,
};
use super::operator::{operator_arity, IDC};
use super::table::{expansion, IDSTable};
use super::tree::{
    lemma_composition_view, lemma_composition_wf, lemma_trees_of, trees_of, Tree, IDS,
};

verus! {

/// Whether `ids` is the atom `c`.
fn is_atom(ids: &IDS, c: char) -> (r: bool)
    ensures
        r == (ids@ == Tree::Atom(c)),
{
    match ids {
        IDS::Char(k) => *k == c,
        _ => false,
    }
}

/// The composition of `x` and `y` under `op`.
fn grouped(op: IDC, x: &IDS, y: &IDS) -> (r: IDS)
    requires
        op.wf(),
    ensures
        r@ == group(op@, x@, y@),
{
    let children = vec![x.clone(), y.clone()];
    proof {
        lemma_composition_view(op, children);
        assert(trees_of(children@) =~= seq![x@, y@]);
    }
    IDS::Composition { idc: op, children }
}

impl IDSTable {
    /// Whether `a` and `b` match structurally.
    ///
    /// The atom `wildcard_k` matches anything; an atom matches a
    /// composition where its expansion in the table does; a ternary
    /// composition matches a binary one of the same direction where one of
    /// its two regroupings does. The evaluation follows expansions through
    /// the table, so it has to be one that ends, as it does on every table
    /// that is well founded.
    pub fn ids_match(&self, a: &IDS, b: &IDS, wildcard_k: char) -> (r: bool)
        requires
            self.wf(),
            a@.wf(),
            b@.wf(),
            match_result(self@, a@, b@, wildcard_k) is Some,
        ensures
            match_result(self@, a@, b@, wildcard_k) == Some(r),
    {
        let ghost depth = choose|d: nat| matches_within(self@, a@, b@, wildcard_k, d) is Some;
        proof {
            lemma_match_result(self@, a@, b@, wildcard_k, depth);
        }
        self.match_bounded(a, b, wildcard_k, Ghost(depth))
    }

    /// Whether `a` and `b` match, for an evaluation that ends within `depth`.
    fn match_bounded(&self, a: &IDS, b: &IDS, wildcard: char, Ghost(depth): Ghost<nat>) -> (r:
        bool)
        requires
            self.wf(),
            a@.wf(),
            b@.wf(),
            matches_within(self@, a@, b@, wildcard, depth) is Some,
        ensures
            matches_within(self@, a@, b@, wildcard, depth) == Some(r),
        decreases depth, 1nat,
    {
        if is_atom(a, wildcard) || is_atom(b, wildcard) {
            return true;
        }
        let ghost inner = (depth - 1) as nat;
        match (a, b) {
            (IDS::Special(x), IDS::Special(y)) => *x == *y,
            (IDS::Char(x), IDS::Char(y)) => *x == *y,
            (IDS::Char(k), IDS::Composition { idc, children }) => {
                proof {
                    lemma_composition_view(*idc, *children);
                }
                self.match_expanded(*k, b, wildcard, Ghost(inner))
            },
            (IDS::Composition { idc, children }, IDS::Char(k)) => {
                proof {
                    lemma_composition_view(*idc, *children);
                }
                self.match_expanded(*k, a, wildcard, Ghost(inner))
            },
            (
                IDS::Composition { idc: xc, children: xs },
                IDS::Composition { idc: yc, children: ys },
            ) => {
                proof {
                    lemma_composition_view(*xc, *xs);
                    lemma_composition_view(*yc, *ys);
                    lemma_composition_wf(*xc, *xs);
                    lemma_composition_wf(*yc, *ys);
                }
                if xc.code() == yc.code() {
                    self.match_children(xs, ys, wildcard, Ghost(inner))
                } else if xc.arity() == 3 && yc.arity() == 2 && xc.is_same_direction(*yc) {
                    self.match_regrouped(*xc, xs, ys, wildcard, Ghost(inner))
                } else if yc.arity() == 3 && xc.arity() == 2 && yc.is_same_direction(*xc) {
                    self.match_regrouped(*yc, ys, xs, wildcard, Ghost(inner))
                } else {
                    false
                }
            },
            _ => false,
        }
    }

    /// Whether the expansion of the atom `k` matches `other`.
    fn match_expanded(&self, k: char, other: &IDS, wildcard: char, Ghost(depth): Ghost<nat>) -> (r:
        bool)
        requires
            self.wf(),
            other@.wf(),
            match expansion(self@, k) {
                Some(definition) => matches_within(self@, definition, other@, wildcard, depth)
                    is Some,
                None => true,
            },
        ensures
            match expansion(self@, k) {
                Some(definition) => matches_within(self@, definition, other@, wildcard, depth)
                    == Some(r),
                None => !r,
            },
        decreases depth, 2nat,
    {
        match self.expand(k) {
            Some(definition) => self.match_bounded(definition, other, wildcard, Ghost(depth)),
            None => false,
        }
    }

    /// Whether `xs` and `ys` match child by child.
    fn match_children(
        &self,
        xs: &Vec<IDS>,
        ys: &Vec<IDS>,
        wildcard: char,
        Ghost(depth): Ghost<nat>,
    ) -> (r: bool)
        requires
            self.wf(),
            forall|i: int| 0 <= i < xs.len() ==> (#[trigger] xs[i])@.wf(),
            forall|i: int| 0 <= i < ys.len() ==> (#[trigger] ys[i])@.wf(),
            children_match_from(self@, trees_of(xs@), trees_of(ys@), wildcard, depth, 0) is Some,
        ensures
            children_match_from(self@, trees_of(xs@), trees_of(ys@), wildcard, depth, 0) == Some(
                r,
            ),
        decreases depth, 2nat,
    {
        let ghost xv = trees_of(xs@);
        let ghost yv = trees_of(ys@);
        proof {
            lemma_trees_of(xs@);
            lemma_trees_of(ys@);
        }
        let mut i: usize = 0;
        while i < xs.len() && i < ys.len()
            invariant
                i <= xs.len(),
                self.wf(),
                xv == trees_of(xs@),
                yv == trees_of(ys@),
                xv.len() == xs.len(),
                yv.len() == ys.len(),
                forall|j: int| 0 <= j < xs.len() ==> xv[j] == (#[trigger] xs[j])@ && xv[j].wf(),
                forall|j: int| 0 <= j < ys.len() ==> yv[j] == (#[trigger] ys[j])@ && yv[j].wf(),
                children_match_from(self@, xv, yv, wildcard, depth, i as nat) is Some,
                children_match_from(self@, xv, yv, wildcard, depth, 0) == children_match_from(
                    self@,
                    xv,
                    yv,
                    wildcard,
                    depth,
                    i as nat,
                ),
            decreases xs.len() - i,
        {
            if !self.match_bounded(&xs[i], &ys[i], wildcard, Ghost(depth)) {
                return false;
            }
            i += 1;
        }
        true
    }

    /// Whether the three children `xs` of a composition under `ternary`
    /// match the two children `ys` after regrouping.
    fn match_regrouped(
        &self,
        ternary: IDC,
        xs: &Vec<IDS>,
        ys: &Vec<IDS>,
        wildcard: char,
        Ghost(depth): Ghost<nat>,
    ) -> (r: bool)
        requires
            self.wf(),
            ternary.wf(),
            xs.len() == 3,
            ys.len() == 2,
            operator_arity(ternary@) == 3,
            forall|i: int| 0 <= i < xs.len() ==> (#[trigger] xs[i])@.wf(),
            forall|i: int| 0 <= i < ys.len() ==> (#[trigger] ys[i])@.wf(),
            regroup_within(self@, ternary@, trees_of(xs@), trees_of(ys@), wildcard, depth)
                is Some,
        ensures
            regroup_within(self@, ternary@, trees_of(xs@), trees_of(ys@), wildcard, depth)
                == Some(r),
        decreases depth, 2nat,
    {
        proof {
            lemma_trees_of(xs@);
            lemma_trees_of(ys@);
        }
        let reduced = ternary.reduce().unwrap();
        let front = grouped(reduced, &xs[0], &xs[1]);
        if self.match_bounded(&front, &ys[0], wildcard, Ghost(depth)) && self.match_bounded(
            &xs[2],
            &ys[1],
            wildcard,
            Ghost(depth),
        ) {
            return true;
        }
        let back = grouped(reduced, &xs[1], &xs[2]);
        self.match_bounded(&xs[0], &ys[0], wildcard, Ghost(depth)) && self.match_bounded(
            &back,
            &ys[1],
            wildcard,
            Ghost(depth),
        )
    }

    /// Whether `a`, or something below it, matches `b` structurally.
    ///
    /// `a` qualifies where it matches `b` itself; an atom also where its
    /// expansion in the table qualifies, and a composition where one of
    /// its children does. The evaluation follows expansions through the
    /// table, so it has to be one that ends, as it does on every table that
    /// is well founded.
    pub fn ids_has_matching_subcomponent(&self, a: &IDS, b: &IDS, wildcard_k: char) -> (r: bool)
        requires
            self.wf(),
            a@.wf(),
            b@.wf(),
            descendant_result(self@, a@, b@, wildcard_k) is Some,
        ensures
            descendant_result(self@, a@, b@, wildcard_k) == Some(r),
    {
        let ghost depth = choose|d: nat|
            descendant_within(self@, a@, b@, wildcard_k, d) is Some;
        proof {
            lemma_descendant_result(self@, a@, b@, wildcard_k, depth);
        }
        self.descendant_bounded(a, b, wildcard_k, Ghost(depth))
    }

    /// Whether `a` or something below it matches `b`, for an evaluation that
    /// ends within `depth`.
    fn descendant_bounded(
        &self,
        a: &IDS,
        b: &IDS,
        wildcard: char,
        Ghost(depth): Ghost<nat>,
    ) -> (r: bool)
        requires
            self.wf(),
            a@.wf(),
            b@.wf(),
            descendant_within(self@, a@, b@, wildcard, depth) is Some,
        ensures
            descendant_within(self@, a@, b@, wildcard, depth) == Some(r),
        decreases depth,
    {
        if self.ids_match(a, b, wildcard) {
            return true;
        }
        let ghost inner = (depth - 1) as nat;
        match a {
            IDS::Special(_) => false,
            IDS::Char(k) => match self.expand(*k) {
                Some(definition) => self.descendant_bounded(
                    definition,
                    b,
                    wildcard,
                    Ghost(inner),
                ),
                None => false,
            },
            IDS::Composition { idc, children } => {
                let ghost views = trees_of(children@);
                proof {
                    lemma_composition_view(*idc, *children);
                    lemma_composition_wf(*idc, *children);
                }
                let mut i: usize = 0;
                while i < children.len()
                    invariant
                        i <= children.len(),
                        self.wf(),
                        b@.wf(),
                        views == trees_of(children@),
                        views.len() == children.len(),
                        forall|j: int|
                            0 <= j < children.len() ==> views[j] == (#[trigger] children[j])@
                                && views[j].wf(),
                        inner < depth,
                        descendant_within(self@, a@, b@, wildcard, depth) == any_descendant_from(
                            self@,
                            views,
                            b@,
                            wildcard,
                            inner,
                            0,
                        ),
                        any_descendant_from(self@, views, b@, wildcard, inner, i as nat) is Some,
                        any_descendant_from(self@, views, b@, wildcard, inner, 0)
                            == any_descendant_from(self@, views, b@, wildcard, inner, i as nat),
                    decreases children.len() - i,
                {
                    if self.descendant_bounded(&children[i], b, wildcard, Ghost(inner)) {
                        return true;
                    }
                    i += 1;
                }
                false
            },
        }
    }

    /// Whether `haystack` strictly contains `needle`.
    ///
    /// A tree contains itself; an atom also what its expansion in the
    /// table contains, and a composition what one of its children
    /// contains. The evaluation follows expansions through the table, so it
    /// has to be one that ends, as it does on every table that is well
    /// founded.
    pub fn ids_has_subcomponent(&self, haystack: &IDS, needle: &IDS) -> (r: bool)
        requires
            self.wf(),
            contains_result(self@, haystack@, needle@) is Some,
        ensures
            contains_result(self@, haystack@, needle@) == Some(r),
    {
        let ghost depth = choose|d: nat| contains_within(self@, haystack@, needle@, d) is Some;
        proof {
            lemma_contains_result(self@, haystack@, needle@, depth);
        }
        self.contains_bounded(haystack, needle, Ghost(depth))
    }

    /// Whether `haystack` strictly contains `needle`, for an evaluation that
    /// ends within `depth`.
    fn contains_bounded(&self, haystack: &IDS, needle: &IDS, Ghost(depth): Ghost<nat>) -> (r:
        bool)
        requires
            self.wf(),
            contains_within(self@, haystack@, needle@, depth) is Some,
        ensures
            contains_within(self@, haystack@, needle@, depth) == Some(r),
        decreases depth,
    {
        if *haystack == *needle {
            return true;
        }
        let ghost inner = (depth - 1) as nat;
        match haystack {
            IDS::Special(_) => false,
            IDS::Char(k) => match self.expand(*k) {
                Some(definition) => self.contains_bounded(definition, needle, Ghost(inner)),
                None => false,
            },
            IDS::Composition { idc, children } => {
                let ghost views = trees_of(children@);
                proof {
                    lemma_composition_view(*idc, *children);
                }
                let mut i: usize = 0;
                while i < children.len()
                    invariant
                        i <= children.len(),
                        self.wf(),
                        views == trees_of(children@),
                        views.len() == children.len(),
                        forall|j: int|
                            0 <= j < children.len() ==> views[j] == (#[trigger] children[j])@,
                        inner < depth,
                        contains_within(self@, haystack@, needle@, depth) == any_contains_from(
                            self@,
                            views,
                            needle@,
                            inner,
                            0,
                        ),
                        any_contains_from(self@, views, needle@, inner, i as nat) is Some,
                        any_contains_from(self@, views, needle@, inner, 0) == any_contains_from(
                            self@,
                            views,
                            needle@,
                            inner,
                            i as nat,
                        ),
                    decreases children.len() - i,
                {
                    if self.contains_bounded(&children[i], needle, Ghost(inner)) {
                        return true;
                    }
                    i += 1;
                }
                false
            },
        }
    }

    /// Whether the character `k` strictly contains `needle`.
    pub fn char_has_subcomponent(&self, k: char, needle: &IDS) -> (r: bool)
        requires
            self.wf(),
            contains_result(self@, Tree::Atom(k), needle@) is Some,
        ensures
            contains_result(self@, Tree::Atom(k), needle@) == Some(r),
    {
        let ids = IDS::Char(k);
        self.ids_has_subcomponent(&ids, needle)
    }
}

} // verus!
