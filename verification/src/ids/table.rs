//! The decomposition table: for each character, the decompositions
//! recorded for it, in the order in which they arrived.

pub mod wellfounded;

use std::collections::HashMap;
use vstd::prelude::*;
use super::tag::{Tag, TagView, TaggedIDS};
use super::tree::{Tree, IDS};

verus! {

/// One recorded decomposition: its tag and its tree.
pub struct Record {
    pub tag: TagView,
    pub tree: Tree,
}

/// A decomposition table as a mathematical value: the characters that have
/// decompositions, each with its records in order of arrival.
pub type TableView = Map<char, Seq<Record>>;

/// The records of `c`, none where the table does not hold `c`.
pub open spec fn records(m: TableView, c: char) -> Seq<Record> {
    if m.dom().contains(c) {
        m[c]
    } else {
        Seq::empty()
    }
}

/// Whether one of `rs` carries `tag`.
pub open spec fn has_tag(rs: Seq<Record>, tag: TagView) -> bool {
    exists|i: int| 0 <= i < rs.len() && (#[trigger] rs[i]).tag == tag
}

/// The tree recorded for `c` under `tag`.
pub open spec fn lookup(m: TableView, c: char, tag: TagView) -> Option<Tree> {
    let rs = records(m, c);
    if has_tag(rs, tag) {
        Some(rs[choose|i: int| 0 <= i < rs.len() && (#[trigger] rs[i]).tag == tag].tree)
    } else {
        None
    }
}

/// Whether the table records `tree` for `c` under `tag`.
pub open spec fn holds(m: TableView, c: char, tag: TagView, tree: Tree) -> bool {
    exists|i: int|
        0 <= i < records(m, c).len() && #[trigger] records(m, c)[i] == (Record { tag, tree })
}

/// The tag under which a tree that arrives for a character with records
/// `rs` is stored: its own, unless that is taken; then an anonymous tag
/// numbered by how many records the character has so far.
pub open spec fn stored_tag(rs: Seq<Record>, tag: TagView) -> TagView {
    if has_tag(rs, tag) {
        TagView::Anon(rs.len())
    } else {
        tag
    }
}

/// The table after `tree` has arrived for `c` with `tag`.
pub open spec fn table_insert(m: TableView, c: char, tag: TagView, tree: Tree) -> TableView {
    let rs = records(m, c);
    m.insert(c, rs.push(Record { tag: stored_tag(rs, tag), tree }))
}

/// The first tree among `rs` that is not the bare atom `k`.
pub open spec fn first_expansion(rs: Seq<Record>, k: char) -> Option<Tree>
    decreases rs.len(),
{
    if rs.len() == 0 {
        None
    } else if rs[0].tree != Tree::Atom(k) {
        Some(rs[0].tree)
    } else {
        first_expansion(rs.skip(1), k)
    }
}

/// What the atom `k` expands to: the first tree recorded for `k`, in order
/// of arrival, that is not `k` itself.
pub open spec fn expansion(m: TableView, k: char) -> Option<Tree> {
    first_expansion(records(m, k), k)
}

/// The tags of one character's records are in order: an anonymous tag is
/// numbered by its position, and no two records carry the same tag.
pub open spec fn tags_in_order(rs: Seq<Record>) -> bool {
    &&& forall|i: int|
        0 <= i < rs.len() ==> ((#[trigger] rs[i]).tag matches TagView::Anon(n) ==> n == i)
    &&& forall|i: int, j: int|
        0 <= i < j < rs.len() ==> (#[trigger] rs[i]).tag != (#[trigger] rs[j]).tag
}

/// The records of one character are in order: so are their tags, and every
/// tree is well formed.
pub open spec fn records_wf(rs: Seq<Record>) -> bool {
    &&& tags_in_order(rs)
    &&& forall|i: int| 0 <= i < rs.len() ==> (#[trigger] rs[i]).tree.wf()
}

/// Every character of the table has at least one record, and its records
/// are in order.
pub open spec fn table_wf(m: TableView) -> bool {
    forall|c: char| #[trigger]
        m.dom().contains(c) ==> m[c].len() > 0 && records_wf(m[c])
}

/// A record that arrives under a named tag keeps the tags in order.
pub proof fn lemma_push_tags_in_order(rs: Seq<Record>, tag: TagView, tree: Tree)
    requires
        tags_in_order(rs),
        tag is Named,
    ensures
        tags_in_order(rs.push(Record { tag: stored_tag(rs, tag), tree })),
{
    let added = rs.push(Record { tag: stored_tag(rs, tag), tree });
    assert forall|i: int, j: int| 0 <= i < j < added.len() implies (#[trigger] added[i]).tag
        != (#[trigger] added[j]).tag by {
        if j == rs.len() {
            assert(added[i] == rs[i]);
        } else {
            assert(added[i] == rs[i]);
            assert(added[j] == rs[j]);
        }
    }
    assert forall|i: int| 0 <= i < added.len() implies ((
    #[trigger] added[i]).tag matches TagView::Anon(n) ==> n == i) by {
        if i < rs.len() {
            assert(added[i] == rs[i]);
        }
    }
}

/// Inserting a well-formed tree under a named tag keeps a table in order.
pub proof fn lemma_insert_wf(m: TableView, c: char, tag: TagView, tree: Tree)
    requires
        table_wf(m),
        tag is Named,
        tree.wf(),
    ensures
        table_wf(table_insert(m, c, tag, tree)),
{
    let rs = records(m, c);
    let added = rs.push(Record { tag: stored_tag(rs, tag), tree });
    let after = table_insert(m, c, tag, tree);
    assert(records_wf(rs));
    lemma_push_tags_in_order(rs, tag, tree);
    assert(records_wf(added)) by {
        assert forall|i: int| 0 <= i < added.len() implies (#[trigger] added[i]).tree.wf() by {
            if i < rs.len() {
                assert(added[i] == rs[i]);
            }
        }
    }
    assert forall|d: char| #[trigger] after.dom().contains(d) implies after[d].len() > 0
        && records_wf(after[d]) by {
        if d != c {
            assert(m.dom().contains(d));
        }
    }
}

/// A tree that arrives under a tag that its character already has is
/// stored under a fresh anonymous tag, and what the character had before
/// stays as it was and can still be looked up.
pub proof fn lemma_insert_collision(m: TableView, c: char, tag: TagView, tree: Tree)
    requires
        table_wf(m),
        tag is Named,
        has_tag(records(m, c), tag),
    ensures
        ({
            let after = table_insert(m, c, tag, tree);
            let fresh = TagView::Anon(records(m, c).len());
            &&& fresh != tag
            &&& !has_tag(records(m, c), fresh)
            &&& records(after, c) == records(m, c).push(Record { tag: fresh, tree })
            &&& lookup(after, c, fresh) == Some(tree)
            &&& forall|other: TagView|
                has_tag(records(m, c), other) ==> lookup(after, c, other) == lookup(m, c, other)
            &&& forall|d: char| d != c ==> records(after, d) == records(m, d)
        }),
{
    let rs = records(m, c);
    let after = table_insert(m, c, tag, tree);
    let fresh = TagView::Anon(rs.len());
    let added = rs.push(Record { tag: fresh, tree });
    assert(m.dom().contains(c));
    assert(records_wf(rs));
    lemma_push_tags_in_order(rs, tag, tree);
    assert(records(after, c) == added);
    assert(added[rs.len() as int].tag == fresh);
    assert(has_tag(added, fresh));
    lemma_lookup_at(after, c, rs.len() as int);
    assert forall|other: TagView| has_tag(rs, other) implies lookup(after, c, other) == lookup(
        m,
        c,
        other,
    ) by {
        let i = choose|i: int| 0 <= i < rs.len() && (#[trigger] rs[i]).tag == other;
        assert(added[i] == rs[i]);
        lemma_lookup_at(m, c, i);
        lemma_lookup_at(after, c, i);
    }
}

/// In a table in order, looking up the tag of a record finds that record.
pub proof fn lemma_lookup_at(m: TableView, c: char, i: int)
    requires
        tags_in_order(records(m, c)),
        0 <= i < records(m, c).len(),
    ensures
        lookup(m, c, records(m, c)[i].tag) == Some(records(m, c)[i].tree),
{
    let rs = records(m, c);
    let tag = rs[i].tag;
    assert(has_tag(rs, tag));
    let j = choose|j: int| 0 <= j < rs.len() && (#[trigger] rs[j]).tag == tag;
    if j < i {
        assert(rs[j].tag != rs[i].tag);
    } else if i < j {
        assert(rs[i].tag != rs[j].tag);
    }
}

/// Two characters with the same code point are the same character.
pub proof fn lemma_code_injective(c: char, d: char)
    requires
        c as u32 == d as u32,
    ensures
        c == d,
{
}

/// The records that `items` stand for, in order.
pub open spec fn records_of(items: Seq<TaggedIDS>) -> Seq<Record> {
    Seq::new(items.len(), |i: int| Record { tag: items[i].tag@, tree: items[i].ids@ })
}

/// The decompositions of one character, in the order in which they arrived.
#[derive(Debug)]
struct CharEntry {
    ch: char,
    variants: Vec<TaggedIDS>,
}

/// The decomposition table.
#[derive(Debug)]
pub struct IDSTable {
    /// One entry for each character, in order of first arrival.
    entries: Vec<CharEntry>,
    /// Where in `entries` each character stands, by its code point.
    index: HashMap<u32, usize>,
}

impl View for IDSTable {
    type V = TableView;

    closed spec fn view(&self) -> TableView {
        Map::new(
            |c: char| self.index@.contains_key(c as u32),
            |c: char| records_of(self.entries[self.index@[c as u32] as int].variants@),
        )
    }
}

impl CharEntry {
    /// A copy of the entry.
    fn copy(&self) -> (r: CharEntry)
        ensures
            r.ch == self.ch,
            records_of(r.variants@) == records_of(self.variants@),
    {
        let mut variants: Vec<TaggedIDS> = Vec::new();
        let mut i: usize = 0;
        while i < self.variants.len()
            invariant
                i <= self.variants.len(),
                variants.len() == i,
                forall|j: int|
                    0 <= j < i ==> (#[trigger] variants[j]).tag@ == self.variants[j].tag@
                        && variants[j].ids@ == self.variants[j].ids@,
            decreases self.variants.len() - i,
        {
            variants.push(self.variants[i].clone());
            i += 1;
        }
        assert(records_of(variants@) =~= records_of(self.variants@));
        CharEntry { ch: self.ch, variants }
    }
}

impl Clone for IDSTable {
    fn clone(&self) -> (r: IDSTable)
        ensures
            self.wf() ==> r.wf() && r@ == self@,
    {
        let mut entries: Vec<CharEntry> = Vec::new();
        let mut i: usize = 0;
        while i < self.entries.len()
            invariant
                i <= self.entries.len(),
                entries.len() == i,
                forall|j: int|
                    0 <= j < i ==> (#[trigger] entries[j]).ch == self.entries[j].ch && records_of(
                        entries[j].variants@,
                    ) == records_of(self.entries[j].variants@),
            decreases self.entries.len() - i,
        {
            entries.push(self.entries[i].copy());
            i += 1;
        }
        let r = IDSTable { entries, index: self.index.clone() };
        proof {
            if self.inv() {
                assert forall|c: char| #[trigger] self@.dom().contains(c) implies r@[c]
                    == self@[c] by {
                    let at = self.index@[c as u32] as int;
                    assert(r.entries[at].ch == self.entries[at].ch);
                }
                assert(r@ =~= self@);
            }
        }
        r
    }
}

impl Default for IDSTable {
    fn default() -> (table: IDSTable)
        ensures
            table.wf(),
            table@ == Map::<char, Seq<Record>>::empty(),
    {
        IDSTable::new()
    }
}

impl IDSTable {
    /// The index and the entries agree: each character has one entry, and
    /// the index leads to it.
    pub closed spec fn inv(&self) -> bool {
        &&& forall|k: u32| #[trigger]
            self.index@.contains_key(k) ==> self.index@[k] < self.entries.len()
                && self.entries[self.index@[k] as int].ch as u32 == k
        &&& forall|i: int|
            0 <= i < self.entries.len() ==> self.index@.contains_key(
                (#[trigger] self.entries[i]).ch as u32,
            ) && self.index@[self.entries[i].ch as u32] == i
    }

    /// The table is in order: its representation is consistent and its
    /// contents satisfy [`table_wf`].
    pub open spec fn wf(&self) -> bool {
        self.inv() && table_wf(self@)
    }

    /// A table without entries.
    pub fn new() -> (table: IDSTable)
        ensures
            table.wf(),
            table@ == Map::<char, Seq<Record>>::empty(),
    {
        let table = IDSTable { entries: Vec::new(), index: HashMap::new() };
        assert(table@ =~= Map::<char, Seq<Record>>::empty());
        table
    }

    /// Where the entry of `c` stands, if `c` has one.
    fn position(&self, c: char) -> (r: Option<usize>)
        requires
            self.inv(),
        ensures
            match r {
                Some(i) => i < self.entries.len() && self.entries[i as int].ch == c
                    && self.index@.contains_key(c as u32) && self.index@[c as u32] == i
                    && self@.dom().contains(c) && self@[c] == records_of(
                    self.entries[i as int].variants@,
                ),
                None => !self@.dom().contains(c) && !self.index@.contains_key(c as u32),
            },
    {
        let key = c as u32;
        match self.index.get(&key) {
            Some(i) => Some(*i),
            None => None,
        }
    }

    /// Whether one of `variants` carries `tag`.
    fn carries(variants: &Vec<TaggedIDS>, tag: &Tag) -> (r: bool)
        ensures
            r == has_tag(records_of(variants@), tag@),
    {
        let ghost rs = records_of(variants@);
        let mut i: usize = 0;
        while i < variants.len()
            invariant
                i <= variants.len(),
                rs == records_of(variants@),
                forall|j: int| 0 <= j < i ==> (#[trigger] rs[j]).tag != tag@,
            decreases variants.len() - i,
        {
            if variants[i].tag == *tag {
                assert(rs[i as int].tag == tag@);
                return true;
            }
            i += 1;
        }
        false
    }

    /// Records `tagged` for `c`. Where `c` already has a record under the
    /// same tag, the new one is stored under an anonymous tag numbered by
    /// how many records `c` has so far, and the earlier record stays.
    pub fn insert(&mut self, c: char, tagged: TaggedIDS)
        requires
            old(self).wf(),
            tagged.tag@ is Named,
            tagged.ids@.wf(),
        ensures
            final(self).wf(),
            final(self)@ == table_insert(old(self)@, c, tagged.tag@, tagged.ids@),
    {
        let ghost before = self@;
        let ghost tag_view = tagged.tag@;
        let ghost tree = tagged.ids@;
        let ghost rs = records(before, c);
        let TaggedIDS { ids, tag } = tagged;
        match self.position(c) {
            Some(at) => {
                let taken = Self::carries(&self.entries[at].variants, &tag);
                let stored = if taken {
                    Tag::Anon(self.entries[at].variants.len())
                } else {
                    tag
                };
                assert(stored@ == stored_tag(rs, tag_view));
                let ghost old_entries = self.entries@;
                self.entries[at].variants.push(TaggedIDS { ids, tag: stored });
                proof {
                    assert(self.entries@.len() == old_entries.len());
                    assert(forall|i: int|
                        0 <= i < old_entries.len() && i != at ==> self.entries@[i]
                            == old_entries[i]);
                    assert(self.entries@[at as int].ch == c);
                    assert(records_of(self.entries@[at as int].variants@) =~= rs.push(
                        Record { tag: stored_tag(rs, tag_view), tree },
                    ));
                    let after = table_insert(before, c, tag_view, tree);
                    assert forall|d: char| #[trigger] self@.dom().contains(d) implies self@[d]
                        == after[d] by {
                        let at_d = self.index@[d as u32];
                        if d != c {
                            if d as u32 == c as u32 {
                                lemma_code_injective(c, d);
                            }
                            assert(at_d != at);
                            assert(before.dom().contains(d));
                        }
                    }
                    assert(self@ =~= after);
                }
            },
            None => {
                let at = self.entries.len();
                let mut variants: Vec<TaggedIDS> = Vec::new();
                variants.push(TaggedIDS { ids, tag });
                self.entries.push(CharEntry { ch: c, variants });
                self.index.insert(c as u32, at);
                proof {
                    assert(!has_tag(rs, tag_view));
                    assert(records_of(self.entries@[at as int].variants@) =~= rs.push(
                        Record { tag: stored_tag(rs, tag_view), tree },
                    ));
                    let after = table_insert(before, c, tag_view, tree);
                    assert forall|d: char| #[trigger] self@.dom().contains(d) implies self@[d]
                        == after[d] by {
                        let at_d = self.index@[d as u32];
                        if d != c {
                            if d as u32 == c as u32 {
                                lemma_code_injective(c, d);
                            }
                            assert(at_d < at);
                            assert(before.dom().contains(d));
                        }
                    }
                    assert forall|d: char| self@.dom().contains(d) == after.dom().contains(
                        d,
                    ) by {
                        if d != c && d as u32 == c as u32 {
                            lemma_code_injective(c, d);
                        }
                    }
                    assert(self@ =~= after);
                }
            },
        }
        proof {
            lemma_insert_wf(before, c, tag_view, tree);
        }
    }

    /// What the atom `k` expands to: the first tree recorded for `k` that
    /// is not `k` itself.
    pub fn expand(&self, k: char) -> (r: Option<&IDS>)
        requires
            self.wf(),
        ensures
            match expansion(self@, k) {
                Some(tree) => r matches Some(ids) && ids@ == tree && tree.wf(),
                None => r is None,
            },
    {
        match self.position(k) {
            None => None,
            Some(at) => {
                let variants = &self.entries[at].variants;
                let ghost rs = records(self@, k);
                assert(records_wf(rs));
                assert(rs.skip(0) =~= rs);
                let mut i: usize = 0;
                while i < variants.len()
                    invariant
                        i <= variants.len(),
                        rs == records_of(variants@),
                        rs == records(self@, k),
                        records_wf(rs),
                        first_expansion(rs, k) == first_expansion(rs.skip(i as int), k),
                    decreases variants.len() - i,
                {
                    let ids = &variants[i].ids;
                    let ghost rest = rs.skip(i as int);
                    assert(rest[0] == rs[i as int]);
                    assert(rest.skip(1) =~= rs.skip(i + 1));
                    match ids {
                        IDS::Char(c) if *c == k => {},
                        _ => {
                            assert(ids@ != Tree::Atom(k));
                            assert(rs[i as int].tree == ids@);
                            return Some(ids);
                        },
                    }
                    assert(ids@ == Tree::Atom(k));
                    i += 1;
                }
                assert(rs.skip(i as int).len() == 0);
                None
            },
        }
    }

    /// Every record of the table, each once: its character, its tag and
    /// its tree. No two of them have the same character and tag.
    pub fn iter(&self) -> (items: Vec<(char, &Tag, &IDS)>)
        requires
            self.wf(),
        ensures
            forall|j: int|
                0 <= j < items.len() ==> holds(
                    self@,
                    (#[trigger] items[j]).0,
                    items[j].1@,
                    items[j].2@,
                ),
            forall|c: char, tag: TagView, tree: Tree|
                holds(self@, c, tag, tree) ==> exists|j: int|
                    0 <= j < items.len() && (#[trigger] items[j]).0 == c && items[j].1@ == tag
                        && items[j].2@ == tree,
            forall|j: int, k: int|
                0 <= j < k < items.len() ==> !((#[trigger] items[j]).0 == (#[trigger] items[k]).0
                    && items[j].1@ == items[k].1@),
    {
        let mut items: Vec<(char, &Tag, &IDS)> = Vec::new();
        let ghost mut origin: Seq<(int, int)> = Seq::empty();
        let mut p: usize = 0;
        while p < self.entries.len()
            invariant
                p <= self.entries.len(),
                self.wf(),
                origin.len() == items.len(),
                forall|j: int|
                    0 <= j < items.len() ==> {
                        let (q, i) = #[trigger] origin[j];
                        &&& 0 <= q < p
                        &&& 0 <= i < self.entries[q].variants.len()
                        &&& items[j].0 == self.entries[q].ch
                        &&& items[j].1@ == self.entries[q].variants[i].tag@
                        &&& items[j].2@ == self.entries[q].variants[i].ids@
                    },
                forall|q: int, i: int|
                    0 <= q < p && 0 <= i < self.entries[q].variants.len()
                        ==> #[trigger] origin.contains((q, i)),
                forall|j: int, k: int|
                    0 <= j < k < items.len() ==> #[trigger] origin[j] != #[trigger] origin[k],
            decreases self.entries.len() - p,
        {
            let entry = &self.entries[p];
            let mut v: usize = 0;
            while v < entry.variants.len()
                invariant
                    p < self.entries.len(),
                    v <= entry.variants.len(),
                    *entry == self.entries[p as int],
                    origin.len() == items.len(),
                    forall|j: int|
                        0 <= j < items.len() ==> {
                            let (q, i) = #[trigger] origin[j];
                            &&& 0 <= q <= p
                            &&& 0 <= i < self.entries[q].variants.len()
                            &&& q == p ==> i < v
                            &&& items[j].0 == self.entries[q].ch
                            &&& items[j].1@ == self.entries[q].variants[i].tag@
                            &&& items[j].2@ == self.entries[q].variants[i].ids@
                        },
                    forall|q: int, i: int|
                        0 <= q <= p && 0 <= i < self.entries[q].variants.len() && (q == p ==> i
                            < v) ==> #[trigger] origin.contains((q, i)),
                    forall|j: int, k: int|
                        0 <= j < k < items.len() ==> #[trigger] origin[j] != #[trigger] origin[k],
                decreases entry.variants.len() - v,
            {
                let ghost old_origin = origin;
                items.push((entry.ch, &entry.variants[v].tag, &entry.variants[v].ids));
                proof {
                    origin = origin.push((p as int, v as int));
                    assert forall|q: int, i: int|
                        0 <= q <= p && 0 <= i < self.entries[q].variants.len() && (q == p ==> i
                            < v + 1) implies #[trigger] origin.contains((q, i)) by {
                        if q == p && i == v {
                            assert(origin[items.len() - 1] == (q, i));
                        } else {
                            assert(old_origin.contains((q, i)));
                            let j = choose|j: int|
                                0 <= j < old_origin.len() && old_origin[j] == (q, i);
                            assert(origin[j] == (q, i));
                        }
                    }
                }
                v += 1;
            }
            p += 1;
        }
        proof {
            let m = self@;
            assert forall|j: int| 0 <= j < items.len() implies holds(
                m,
                (#[trigger] items[j]).0,
                items[j].1@,
                items[j].2@,
            ) by {
                let (q, i) = origin[j];
                let c = self.entries[q].ch;
                assert(m.dom().contains(c));
                assert(records(m, c) == records_of(self.entries[q].variants@));
                assert(records(m, c)[i] == (Record { tag: items[j].1@, tree: items[j].2@ }));
            }
            assert forall|c: char, tag: TagView, tree: Tree| holds(m, c, tag, tree) implies exists|
                j: int,
            |
                0 <= j < items.len() && (#[trigger] items[j]).0 == c && items[j].1@ == tag
                    && items[j].2@ == tree by {
                let i = choose|i: int|
                    0 <= i < records(m, c).len() && #[trigger] records(m, c)[i] == (Record {
                        tag,
                        tree,
                    });
                assert(m.dom().contains(c));
                let q = self.index@[c as u32] as int;
                assert(self.entries[q].ch as u32 == c as u32);
                lemma_code_injective(self.entries[q].ch, c);
                assert(origin.contains((q, i)));
                let j = choose|j: int| 0 <= j < origin.len() && origin[j] == (q, i);
                assert(items[j].0 == c);
            }
            assert forall|j: int, k: int| 0 <= j < k < items.len() implies !((
            #[trigger] items[j]).0 == (#[trigger] items[k]).0 && items[j].1@ == items[k].1@) by {
                let (q1, i1) = origin[j];
                let (q2, i2) = origin[k];
                assert(origin[j] != origin[k]);
                if items[j].0 == items[k].0 && items[j].1@ == items[k].1@ {
                    let c = items[j].0;
                    assert(q1 == q2);
                    assert(m.dom().contains(c));
                    let rs = records(m, c);
                    assert(rs == records_of(self.entries[q1].variants@));
                    assert(tags_in_order(rs));
                    assert(rs[i1].tag == rs[i2].tag);
                    assert(false);
                }
            }
        }
        items
    }

    /// The tree recorded for `c` under `tag`.
    pub fn get(&self, c: char, tag: &Tag) -> (r: Option<&IDS>)
        requires
            self.wf(),
        ensures
            match lookup(self@, c, tag@) {
                Some(tree) => r matches Some(ids) && ids@ == tree,
                None => r is None,
            },
    {
        match self.position(c) {
            None => None,
            Some(at) => {
                let variants = &self.entries[at].variants;
                let ghost rs = records(self@, c);
                assert(records_wf(rs));
                let mut i: usize = 0;
                while i < variants.len()
                    invariant
                        i <= variants.len(),
                        rs == records(self@, c),
                        rs == records_of(variants@),
                        tags_in_order(rs),
                        forall|j: int| 0 <= j < i ==> (#[trigger] rs[j]).tag != tag@,
                    decreases variants.len() - i,
                {
                    if variants[i].tag == *tag {
                        proof {
                            assert(rs[i as int].tag == tag@);
                            lemma_lookup_at(self@, c, i as int);
                        }
                        return Some(&variants[i].ids);
                    }
                    i += 1;
                }
                None
            },
        }
    }
}

} // verus!
