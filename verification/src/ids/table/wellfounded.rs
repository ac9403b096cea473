//! Deciding whether a table is well founded.

use vstd::prelude::*;
use super::{expansion, lemma_code_injective, records, IDSTable};
use crate::ids::foundation::{
    forest_weight, is_weighting, lemma_forest_weight_bound, occurs, tree_weight, well_founded,
    Weighting,
};
use crate::ids::tree::{lemma_composition_view, trees_of, Tree, IDS};

verus! {

/// How many of `flags` are not set.
pub open spec fn count_open(flags: Seq<bool>) -> nat
    decreases flags.len(),
{
    if flags.len() == 0 {
        0
    } else {
        count_open(flags.drop_last()) + if flags.last() {
            0nat
        } else {
            1nat
        }
    }
}

/// Where flags are open, one can be named; where none is, all are set.
pub proof fn lemma_count_open(flags: Seq<bool>)
    ensures
        count_open(flags) <= flags.len(),
        count_open(flags) > 0 ==> exists|i: int| 0 <= i < flags.len() && !flags[i],
        count_open(flags) == 0 ==> forall|i: int| 0 <= i < flags.len() ==> flags[i],
    decreases flags.len(),
{
    if flags.len() > 0 {
        let front = flags.drop_last();
        lemma_count_open(front);
        if count_open(front) > 0 {
            let i = choose|i: int| 0 <= i < front.len() && !front[i];
            assert(!flags[i]);
        }
        if count_open(flags) == 0 {
            assert forall|i: int| 0 <= i < flags.len() implies flags[i] by {
                if i < front.len() {
                    assert(front[i]);
                }
            }
        }
    }
}

/// Setting an open flag leaves one fewer open.
pub proof fn lemma_count_open_set(flags: Seq<bool>, at: int)
    requires
        0 <= at < flags.len(),
        !flags[at],
    ensures
        count_open(flags.update(at, true)) + 1 == count_open(flags),
    decreases flags.len(),
{
    let after = flags.update(at, true);
    if at == flags.len() - 1 {
        assert(after.drop_last() =~= flags.drop_last());
    } else {
        assert(after.drop_last() =~= flags.drop_last().update(at, true));
        lemma_count_open_set(flags.drop_last(), at);
    }
}

/// Two weightings that agree on the atoms of a tree give it one weight.
pub proof fn lemma_weight_agrees(w1: Weighting, w2: Weighting, t: Tree)
    requires
        forall|c: char| #[trigger] occurs(c, t) ==> w1(c) == w2(c),
    ensures
        tree_weight(w1, t) == tree_weight(w2, t),
    decreases t,
{
    match t {
        Tree::Atom(x) => {
            assert(occurs(x, t));
        },
        Tree::Opaque(_) => {},
        Tree::Composition(_, children) => {
            assert forall|c: char, i: int|
                0 <= i < children.len() && #[trigger] occurs(c, children[i]) implies w1(c) == w2(
                c,
            ) by {
                assert(occurs(c, t));
            }
            lemma_forest_weight_agrees(w1, w2, children, children.len() as int);
            assert(children.take(children.len() as int) =~= children);
        },
    }
}

/// Two weightings that agree on the atoms of some trees give the first `n`
/// of them one weight.
pub proof fn lemma_forest_weight_agrees(w1: Weighting, w2: Weighting, trees: Seq<Tree>, n: int)
    requires
        0 <= n <= trees.len(),
        forall|c: char, i: int|
            0 <= i < trees.len() && #[trigger] occurs(c, trees[i]) ==> w1(c) == w2(c),
    ensures
        forest_weight(w1, trees.take(n)) == forest_weight(w2, trees.take(n)),
    decreases trees, n,
{
    if n > 0 {
        let front = trees.take(n);
        assert(front.drop_last() =~= trees.take(n - 1));
        assert(front.last() == trees[n - 1]);
        lemma_forest_weight_agrees(w1, w2, trees, n - 1);
        let last = trees[n - 1];
        assert forall|c: char| #[trigger] occurs(c, last) implies w1(c) == w2(c) by {}
        lemma_weight_agrees(w1, w2, last);
    }
}

/// What occurs in a child occurs in the composition.
pub proof fn lemma_occurs_child(c: char, t: Tree, i: int)
    requires
        t is Composition,
        0 <= i < t->Composition_1.len(),
        occurs(c, t->Composition_1[i]),
    ensures
        occurs(c, t),
{
}

/// A tree outweighs each character that occurs in it.
pub proof fn lemma_occurs_weight(w: Weighting, c: char, t: Tree)
    requires
        occurs(c, t),
    ensures
        tree_weight(w, t) >= 1 + w(c),
    decreases t,
{
    match t {
        Tree::Composition(_, children) => {
            let i = choose|i: int| 0 <= i < children.len() && occurs(c, #[trigger] children[i]);
            lemma_occurs_weight(w, c, children[i]);
            lemma_forest_weight_bound(w, children, i);
        },
        _ => {},
    }
}

/// No weight can fall for ever: characters of which each has a lighter one
/// among them do not exist.
pub proof fn lemma_no_descent(among: spec_fn(char) -> bool, w: Weighting, bound: nat)
    requires
        forall|u: char| #[trigger] among(u) ==> exists|v: char| #[trigger] among(v) && w(v) < w(u),
    ensures
        forall|u: char| #[trigger] among(u) ==> w(u) >= bound,
    decreases bound,
{
    if bound > 0 {
        lemma_no_descent(among, w, (bound - 1) as nat);
        assert forall|u: char| #[trigger] among(u) implies w(u) >= bound by {
            let v = choose|v: char| #[trigger] among(v) && w(v) < w(u);
            assert(w(v) >= bound - 1);
        }
    }
}

impl IDSTable {
    /// Where the entry of `c` stands, if `c` has one.
    closed spec fn seat(&self, c: char) -> Option<int> {
        if self.index@.contains_key(c as u32) {
            Some(self.index@[c as u32] as int)
        } else {
            None
        }
    }

    /// `c` has no entry, or one that is settled.
    closed spec fn grounded(&self, settled: Seq<bool>, c: char) -> bool {
        match self.seat(c) {
            Some(q) => settled[q],
            None => true,
        }
    }

    /// Every character that occurs in `t` is grounded.
    closed spec fn tree_grounded(&self, settled: Seq<bool>, t: Tree) -> bool {
        forall|c: char| #[trigger] occurs(c, t) ==> self.grounded(settled, c)
    }

    /// The entry at `p` can be settled: its character has no expansion, or
    /// one in which every character is grounded.
    closed spec fn ready(&self, settled: Seq<bool>, p: int) -> bool {
        match expansion(self@, self.entries[p].ch) {
            Some(d) => self.tree_grounded(settled, d),
            None => true,
        }
    }

    /// The weighting that gives each settled character its weight and every
    /// other character none.
    closed spec fn weights_as(&self, settled: Seq<bool>, weights: Seq<nat>) -> Weighting {
        |c: char|
            match self.seat(c) {
                Some(q) => if settled[q] {
                    weights[q]
                } else {
                    0nat
                },
                None => 0nat,
            }
    }

    /// Every settled character weighs at least as much as its expansion,
    /// in which every character is grounded.
    closed spec fn weighed(&self, settled: Seq<bool>, weights: Seq<nat>) -> bool {
        &&& settled.len() == self.entries.len()
        &&& weights.len() == self.entries.len()
        &&& forall|p: int|
            0 <= p < settled.len() && #[trigger] settled[p] ==> match expansion(
                self@,
                self.entries[p].ch,
            ) {
                Some(d) => self.tree_grounded(settled, d) && tree_weight(
                    self.weights_as(settled, weights),
                    d,
                ) <= weights[p],
                None => true,
            }
    }

    /// A character has an expansion only where it has an entry.
    proof fn lemma_seat(&self, c: char)
        requires
            self.inv(),
        ensures
            match self.seat(c) {
                Some(q) => 0 <= q < self.entries.len() && self.entries[q].ch == c,
                None => expansion(self@, c) is None,
            },
            forall|p: int|
                0 <= p < self.entries.len() && (#[trigger] self.entries[p]).ch == c ==> self.seat(
                    c,
                ) == Some(p),
    {
        if self.index@.contains_key(c as u32) {
            let q = self.index@[c as u32] as int;
            lemma_code_injective(self.entries[q].ch, c);
        } else {
            assert(!self@.dom().contains(c));
            assert(records(self@, c).len() == 0);
        }
    }

    /// Settling an entry that is ready keeps the weights in order.
    proof fn lemma_settle(&self, settled: Seq<bool>, weights: Seq<nat>, p: int) -> (weight: nat)
        requires
            self.inv(),
            self.weighed(settled, weights),
            0 <= p < settled.len(),
            !settled[p],
            self.ready(settled, p),
        ensures
            self.weighed(settled.update(p, true), weights.update(p, weight)),
    {
        let w = self.weights_as(settled, weights);
        let weight = match expansion(self@, self.entries[p].ch) {
            Some(d) => tree_weight(w, d),
            None => 0,
        };
        let settled2 = settled.update(p, true);
        let weights2 = weights.update(p, weight);
        let w2 = self.weights_as(settled2, weights2);
        assert forall|q: int|
            0 <= q < settled2.len() && #[trigger] settled2[q] implies match expansion(
            self@,
            self.entries[q].ch,
        ) {
            Some(d) => self.tree_grounded(settled2, d) && tree_weight(w2, d) <= weights2[q],
            None => true,
        } by {
            if let Some(d) = expansion(self@, self.entries[q].ch) {
                assert(self.tree_grounded(settled, d)) by {
                    if q != p {
                        assert(settled[q]);
                    }
                }
                assert forall|c: char| #[trigger] occurs(c, d) implies self.grounded(settled2, c)
                    && w(c) == w2(c) by {
                    assert(self.grounded(settled, c));
                    self.lemma_seat(c);
                }
                lemma_weight_agrees(w, w2, d);
                if q != p {
                    assert(settled[q]);
                }
            }
        }
        weight
    }

    /// Where every entry is settled, the weights are a weighting.
    proof fn lemma_all_settled(&self, settled: Seq<bool>, weights: Seq<nat>)
        requires
            self.inv(),
            self.weighed(settled, weights),
            forall|p: int| 0 <= p < settled.len() ==> settled[p],
        ensures
            well_founded(self@),
    {
        let w = self.weights_as(settled, weights);
        assert forall|k: char| expansion(self@, k) is Some implies tree_weight(
            w,
            expansion(self@, k).unwrap(),
        ) <= #[trigger] w(k) by {
            self.lemma_seat(k);
            let q = self.seat(k).unwrap();
            assert(settled[q]);
        }
        assert(is_weighting(self@, w));
    }

    /// Where entries are left of which none is ready, no weighting exists.
    proof fn lemma_stalled(&self, settled: Seq<bool>)
        requires
            self.inv(),
            settled.len() == self.entries.len(),
            exists|p: int| 0 <= p < settled.len() && !settled[p],
            forall|p: int|
                0 <= p < settled.len() && !(#[trigger] settled[p]) ==> !self.ready(settled, p),
        ensures
            !well_founded(self@),
    {
        if well_founded(self@) {
            let w = choose|w: Weighting| is_weighting(self@, w);
            let among = |c: char| !self.grounded(settled, c);
            assert forall|u: char| #[trigger] among(u) implies exists|v: char| #[trigger]
                among(v) && w(v) < w(u) by {
                self.lemma_seat(u);
                let p = self.seat(u).unwrap();
                assert(!settled[p]);
                assert(!self.ready(settled, p));
                let d = expansion(self@, u).unwrap();
                let v = choose|v: char| #[trigger] occurs(v, d) && !self.grounded(settled, v);
                lemma_occurs_weight(w, v, d);
                assert(tree_weight(w, d) <= w(u));
                assert(among(v));
            }
            let p = choose|p: int| 0 <= p < settled.len() && !settled[p];
            let u = self.entries[p].ch;
            self.lemma_seat(u);
            assert(among(u));
            lemma_no_descent(among, w, w(u) + 1);
        }
    }

    /// Whether every character that occurs in `t` is grounded.
    fn atoms_grounded(&self, t: &IDS, settled: &Vec<bool>) -> (r: bool)
        requires
            self.inv(),
            settled.len() == self.entries.len(),
        ensures
            r == self.tree_grounded(settled@, t@),
        decreases t,
    {
        match t {
            IDS::Char(c) => {
                let r = match self.position(*c) {
                    Some(q) => settled[q],
                    None => true,
                };
                proof {
                    assert(occurs(*c, t@));
                    assert(r == self.grounded(settled@, *c));
                    assert forall|x: char| #[trigger] occurs(x, t@) implies x == *c by {}
                }
                r
            },
            IDS::Special(_) => true,
            IDS::Composition { idc, children } => {
                let ghost views = trees_of(children@);
                proof {
                    lemma_composition_view(*idc, *children);
                }
                let mut i: usize = 0;
                while i < children.len()
                    invariant
                        i <= children.len(),
                        self.inv(),
                        settled.len() == self.entries.len(),
                        t@ == Tree::Composition(idc@, views),
                        views.len() == children.len(),
                        forall|j: int|
                            0 <= j < children.len() ==> views[j] == (#[trigger] children[j])@,
                        forall|j: int|
                            0 <= j < children.len() ==> decreases_to!(t => children[j]),
                        forall|j: int| 0 <= j < i ==> self.tree_grounded(settled@, views[j]),
                    decreases children.len() - i,
                {
                    if !self.atoms_grounded(&children[i], settled) {
                        proof {
                            let child = views[i as int];
                            let c = choose|c: char| #[trigger]
                                occurs(c, child) && !self.grounded(settled@, c);
                            lemma_occurs_child(c, t@, i as int);
                        }
                        return false;
                    }
                    i += 1;
                }
                proof {
                    assert forall|c: char| #[trigger] occurs(c, t@) implies self.grounded(
                        settled@,
                        c,
                    ) by {
                        let j = choose|j: int|
                            0 <= j < views.len() && occurs(c, #[trigger] views[j]);
                        assert(self.tree_grounded(settled@, views[j]));
                    }
                }
                true
            },
        }
    }

    /// Whether the table is well founded, so that every evaluation of the
    /// three predicates on it ends.
    pub fn is_well_founded(&self) -> (r: bool)
        requires
            self.wf(),
        ensures
            r == well_founded(self@),
    {
        let n = self.entries.len();
        let mut settled: Vec<bool> = Vec::new();
        while settled.len() < n
            invariant
                settled.len() <= n,
                n == self.entries.len(),
                forall|i: int| 0 <= i < settled.len() ==> !settled[i],
                count_open(settled@) == settled.len(),
            decreases n - settled.len(),
        {
            let ghost before = settled@;
            settled.push(false);
            assert(settled@.drop_last() =~= before);
        }
        let ghost mut weights: Seq<nat> = Seq::new(n as nat, |i: int| 0nat);
        let mut open: usize = n;
        loop
            invariant
                self.wf(),
                n == self.entries.len(),
                settled.len() == n,
                self.weighed(settled@, weights),
                open == count_open(settled@),
            decreases open,
        {
            let before = open;
            let mut p: usize = 0;
            while p < n
                invariant
                    p <= n,
                    self.wf(),
                    n == self.entries.len(),
                    settled.len() == n,
                    self.weighed(settled@, weights),
                    open == count_open(settled@),
                    open <= before,
                    open == before ==> forall|q: int|
                        0 <= q < p && !(#[trigger] settled[q]) ==> !self.ready(settled@, q),
                decreases n - p,
            {
                if !settled[p] {
                    let ready = match self.expand(self.entries[p].ch) {
                        Some(definition) => self.atoms_grounded(definition, &settled),
                        None => true,
                    };
                    if ready {
                        proof {
                            let weight = self.lemma_settle(settled@, weights, p as int);
                            weights = weights.update(p as int, weight);
                            lemma_count_open_set(settled@, p as int);
                        }
                        settled.set(p, true);
                        open -= 1;
                    }
                }
                p += 1;
            }
            proof {
                lemma_count_open(settled@);
            }
            if open == 0 {
                proof {
                    self.lemma_all_settled(settled@, weights);
                }
                return true;
            }
            if open == before {
                proof {
                    self.lemma_stalled(settled@);
                }
                return false;
            }
        }
    }
}

} // verus!
