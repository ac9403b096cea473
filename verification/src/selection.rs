//! Selecting records of a table by a criterion, and listing the selection
//! in order.

use vstd::prelude::*;
use crate::ids::foundation::{lemma_well_founded_decides, well_founded};
use crate::ids::matching::{both, contains_result, descendant_result, match_result};
use crate::ids::order::{ascending, insert_ascending, keys_of, lemma_ascending_unique, Key};
use crate::ids::table::{holds, records, records_wf, table_wf, IDSTable, Record, TableView};
use crate::ids::tag::{Tag, TagView};
use crate::ids::tree::{lemma_trees_of, trees_of, Tree, IDS};

verus! {

/// What a search asks of a tree, as a mathematical value.
pub enum Criterion {
    /// The tree strictly contains every one of these trees.
    ContainsAll(Seq<Tree>),
    /// The tree matches this pattern structurally, under this wildcard.
    Matches(Tree, char),
    /// The tree, or something below it, matches this pattern structurally,
    /// under this wildcard.
    HasMatch(Tree, char),
}

/// Whether `tree` strictly contains every one of `needles` from position
/// `from` on; the needles are tried in order, up to the first that is not
/// contained. `None` where an evaluation on the way never ends.
pub open spec fn contains_all(m: TableView, tree: Tree, needles: Seq<Tree>, from: nat) -> Option<
    bool,
>
    decreases needles.len() - from,
{
    if from >= needles.len() {
        Some(true)
    } else {
        both(
            contains_result(m, tree, needles[from as int]),
            contains_all(m, tree, needles, from + 1),
        )
    }
}

impl Criterion {
    /// Every tree that the criterion names is well formed.
    pub open spec fn wf(self) -> bool {
        match self {
            Criterion::ContainsAll(needles) => forall|i: int|
                0 <= i < needles.len() ==> (#[trigger] needles[i]).wf(),
            Criterion::Matches(pattern, _) => pattern.wf(),
            Criterion::HasMatch(pattern, _) => pattern.wf(),
        }
    }

    /// Whether `tree` meets the criterion; `None` where the evaluation
    /// never ends.
    pub open spec fn verdict(self, m: TableView, tree: Tree) -> Option<bool> {
        match self {
            Criterion::ContainsAll(needles) => contains_all(m, tree, needles, 0),
            Criterion::Matches(pattern, wildcard) => match_result(m, tree, pattern, wildcard),
            Criterion::HasMatch(pattern, wildcard) => descendant_result(
                m,
                tree,
                pattern,
                wildcard,
            ),
        }
    }

    /// The criterion is decided for every tree of the table.
    pub open spec fn decided(self, m: TableView) -> bool {
        forall|c: char, tag: TagView, tree: Tree| #[trigger]
            holds(m, c, tag, tree) ==> self.verdict(m, tree) is Some
    }

    /// The table holds a tree under `key` that meets the criterion.
    pub open spec fn selects(self, m: TableView, key: Key) -> bool {
        exists|tree: Tree| #[trigger]
            holds(m, key.0, key.1, tree) && self.verdict(m, tree) == Some(true)
    }
}

/// On a well-founded table in order, every criterion whose trees are well
/// formed is decided.
pub proof fn lemma_well_founded_decided(m: TableView, criterion: Criterion)
    requires
        table_wf(m),
        well_founded(m),
        criterion.wf(),
    ensures
        criterion.decided(m),
{
    assert forall|c: char, tag: TagView, tree: Tree| #[trigger]
        holds(m, c, tag, tree) implies criterion.verdict(m, tree) is Some by {
        assert(m.dom().contains(c));
        assert(records_wf(m[c]));
        assert(tree.wf());
        match criterion {
            Criterion::ContainsAll(needles) => {
                lemma_contains_all_decided(m, tree, needles, 0);
            },
            Criterion::Matches(pattern, wildcard) => {
                lemma_well_founded_decides(m, tree, pattern, wildcard);
            },
            Criterion::HasMatch(pattern, wildcard) => {
                lemma_well_founded_decides(m, tree, pattern, wildcard);
            },
        }
    }
}

/// On a well-founded table in order, whether a tree contains all of some
/// well-formed needles is decided.
pub proof fn lemma_contains_all_decided(m: TableView, tree: Tree, needles: Seq<Tree>, from: nat)
    requires
        table_wf(m),
        well_founded(m),
        tree.wf(),
        forall|i: int| 0 <= i < needles.len() ==> (#[trigger] needles[i]).wf(),
    ensures
        contains_all(m, tree, needles, from) is Some,
    decreases needles.len() - from,
{
    if from < needles.len() {
        lemma_well_founded_decides(m, tree, needles[from as int], 'x');
        lemma_contains_all_decided(m, tree, needles, from + 1);
    }
}

/// `list` is the selection that the criterion makes from the table: the
/// keys of the records whose trees meet it, each once, in ascending order.
pub open spec fn is_selection(list: Seq<Key>, m: TableView, criterion: Criterion) -> bool {
    &&& ascending(list)
    &&& forall|key: Key| list.contains(key) <==> criterion.selects(m, key)
}

/// A criterion makes one selection from a table: two lists that are both
/// its selection are the same list.
pub proof fn lemma_selection_unique(
    first: Seq<Key>,
    second: Seq<Key>,
    m: TableView,
    criterion: Criterion,
)
    requires
        is_selection(first, m, criterion),
        is_selection(second, m, criterion),
    ensures
        first == second,
{
    lemma_ascending_unique(first, second);
}

/// What a search asks of a tree.
pub enum Query<'a> {
    /// The tree strictly contains every one of these trees.
    ContainsAll(&'a Vec<IDS>),
    /// The tree matches this pattern structurally, under this wildcard.
    Matches(&'a IDS, char),
    /// The tree, or something below it, matches this pattern structurally,
    /// under this wildcard.
    HasMatch(&'a IDS, char),
}

impl<'a> View for Query<'a> {
    type V = Criterion;

    open spec fn view(&self) -> Criterion {
        match self {
            Query::ContainsAll(needles) => Criterion::ContainsAll(trees_of(needles@)),
            Query::Matches(pattern, wildcard) => Criterion::Matches(pattern@, *wildcard),
            Query::HasMatch(pattern, wildcard) => Criterion::HasMatch(pattern@, *wildcard),
        }
    }
}

impl<'a> Query<'a> {
    /// Whether `tree` meets the criterion.
    pub fn accepts(&self, table: &IDSTable, tree: &IDS) -> (r: bool)
        requires
            table.wf(),
            tree@.wf(),
            self@.wf(),
            self@.verdict(table@, tree@) is Some,
        ensures
            self@.verdict(table@, tree@) == Some(r),
    {
        match self {
            Query::ContainsAll(needles) => {
                let ghost views = trees_of(needles@);
                proof {
                    lemma_trees_of(needles@);
                }
                let mut i: usize = 0;
                while i < needles.len()
                    invariant
                        i <= needles.len(),
                        table.wf(),
                        views == trees_of(needles@),
                        views.len() == needles.len(),
                        forall|j: int|
                            0 <= j < needles.len() ==> views[j] == (#[trigger] needles[j])@,
                        self@.verdict(table@, tree@) == contains_all(table@, tree@, views, 0),
                        contains_all(table@, tree@, views, i as nat) is Some,
                        contains_all(table@, tree@, views, 0) == contains_all(
                            table@,
                            tree@,
                            views,
                            i as nat,
                        ),
                    decreases needles.len() - i,
                {
                    if !table.ids_has_subcomponent(tree, &needles[i]) {
                        return false;
                    }
                    i += 1;
                }
                true
            },
            Query::Matches(pattern, wildcard) => table.ids_match(tree, pattern, *wildcard),
            Query::HasMatch(pattern, wildcard) => table.ids_has_matching_subcomponent(
                tree,
                pattern,
                *wildcard,
            ),
        }
    }

    /// The selection that the criterion makes from `table`.
    pub fn select(&self, table: &IDSTable) -> (list: Vec<(char, Tag)>)
        requires
            table.wf(),
            self@.wf(),
            self@.decided(table@),
        ensures
            is_selection(keys_of(list@), table@, self@),
    {
        let items = table.iter();
        let ghost m = table@;
        let ghost criterion = self@;
        let mut list: Vec<(char, Tag)> = Vec::new();
        let mut j: usize = 0;
        while j < items.len()
            invariant
                j <= items.len(),
                table.wf(),
                m == table@,
                criterion == self@,
                criterion.wf(),
                criterion.decided(m),
                forall|i: int|
                    0 <= i < items.len() ==> holds(
                        m,
                        (#[trigger] items[i]).0,
                        items[i].1@,
                        items[i].2@,
                    ),
                ascending(keys_of(list@)),
                forall|key: Key|
                    keys_of(list@).contains(key) <==> exists|i: int|
                        0 <= i < j && (#[trigger] items[i]).0 == key.0 && items[i].1@ == key.1
                            && criterion.verdict(m, items[i].2@) == Some(true),
            decreases items.len() - j,
        {
            let (c, tag, tree) = items[j];
            let ghost before = keys_of(list@);
            proof {
                assert(holds(m, items[j as int].0, items[j as int].1@, items[j as int].2@));
                assert(table_wf(m));
                let i = choose|i: int|
                    0 <= i < records(m, c).len()
                        && #[trigger] records(m, c)[i]
                        == (Record { tag: tag@, tree: tree@ });
                assert(m.dom().contains(c));
                assert(records_wf(m[c]));
                assert(m[c][i].tree.wf());
            }
            let accepted = self.accepts(table, tree);
            if accepted {
                insert_ascending(&mut list, (c, tag.clone()));
            }
            proof {
                let after = keys_of(list@);
                assert forall|key: Key| after.contains(key) <==> exists|i: int|
                    0 <= i < j + 1 && (#[trigger] items[i]).0 == key.0 && items[i].1@ == key.1
                        && criterion.verdict(m, items[i].2@) == Some(true) by {
                    if after.contains(key) {
                        if before.contains(key) {
                            let i = choose|i: int|
                                0 <= i < j && (#[trigger] items[i]).0 == key.0 && items[i].1@
                                    == key.1 && criterion.verdict(m, items[i].2@) == Some(true);
                            assert(0 <= i < j + 1);
                        } else {
                            assert(key == (c, tag@));
                            assert(items[j as int].0 == key.0);
                        }
                    }
                    if exists|i: int|
                        0 <= i < j + 1 && (#[trigger] items[i]).0 == key.0 && items[i].1@ == key.1
                            && criterion.verdict(m, items[i].2@) == Some(true) {
                        let i = choose|i: int|
                            0 <= i < j + 1 && (#[trigger] items[i]).0 == key.0 && items[i].1@
                                == key.1 && criterion.verdict(m, items[i].2@) == Some(true);
                        if i < j {
                            assert(before.contains(key));
                        } else {
                            assert(key == (c, tag@));
                        }
                    }
                }
            }
            j += 1;
        }
        proof {
            assert forall|key: Key| keys_of(list@).contains(key) <==> criterion.selects(
                m,
                key,
            ) by {
                if keys_of(list@).contains(key) {
                    let i = choose|i: int|
                        0 <= i < j && (#[trigger] items[i]).0 == key.0 && items[i].1@ == key.1
                            && criterion.verdict(m, items[i].2@) == Some(true);
                    assert(holds(m, key.0, key.1, items[i].2@));
                }
                if criterion.selects(m, key) {
                    let tree = choose|tree: Tree| #[trigger]
                        holds(m, key.0, key.1, tree) && criterion.verdict(m, tree) == Some(true);
                    let i = choose|i: int|
                        0 <= i < items.len() && (#[trigger] items[i]).0 == key.0 && items[i].1@
                            == key.1 && items[i].2@ == tree;
                    assert(0 <= i < j);
                }
            }
        }
        list
    }
}

} // verus!
