//! The order in which search results are listed: by character, then by
//! tag.

use vstd::prelude::*;
use super::tag::{tag_lt, Tag, TagView};
use super::text::text_lt;

verus! {

/// What identifies one record of the table: its character and its tag.
pub type Key = (char, TagView);

/// The order of keys: by character, then by tag.
pub open spec fn key_lt(a: Key, b: Key) -> bool {
    a.0 < b.0 || (a.0 == b.0 && tag_lt(a.1, b.1))
}

/// The keys that `items` stand for, in order.
pub open spec fn keys_of(items: Seq<(char, Tag)>) -> Seq<Key> {
    Seq::new(items.len(), |i: int| (items[i].0, items[i].1@))
}

/// `keys` ascend strictly: each comes before all that follow it, so none
/// occurs twice.
pub open spec fn ascending(keys: Seq<Key>) -> bool {
    forall|i: int, j: int| 0 <= i < j < keys.len() ==> key_lt(keys[i], keys[j])
}

/// No text comes before itself.
pub proof fn lemma_text_lt_irreflexive(a: Seq<char>)
    ensures
        !text_lt(a, a),
    decreases a.len(),
{
    if a.len() > 0 {
        lemma_text_lt_irreflexive(a.drop_first());
    }
}

/// The order of texts is transitive.
pub proof fn lemma_text_lt_transitive(a: Seq<char>, b: Seq<char>, c: Seq<char>)
    requires
        text_lt(a, b),
        text_lt(b, c),
    ensures
        text_lt(a, c),
    decreases a.len(),
{
    if a.len() > 0 && a[0] == b[0] && b[0] == c[0] {
        lemma_text_lt_transitive(a.drop_first(), b.drop_first(), c.drop_first());
    }
}

/// Of two different texts one comes before the other.
pub proof fn lemma_text_lt_connected(a: Seq<char>, b: Seq<char>)
    requires
        !text_lt(a, b),
        !text_lt(b, a),
    ensures
        a == b,
    decreases a.len(),
{
    if a.len() > 0 && b.len() > 0 {
        lemma_text_lt_connected(a.drop_first(), b.drop_first());
        assert(a =~= seq![a[0]] + a.drop_first());
        assert(b =~= seq![b[0]] + b.drop_first());
    } else {
        assert(a =~= b);
    }
}

/// No key comes before itself.
pub proof fn lemma_key_lt_irreflexive(a: Key)
    ensures
        !key_lt(a, a),
{
    if let TagView::Named(label) = a.1 {
        lemma_text_lt_irreflexive(label);
    }
}

/// The order of keys is transitive.
pub proof fn lemma_key_lt_transitive(a: Key, b: Key, c: Key)
    requires
        key_lt(a, b),
        key_lt(b, c),
    ensures
        key_lt(a, c),
{
    if a.0 == b.0 && b.0 == c.0 {
        match (a.1, b.1, c.1) {
            (TagView::Named(x), TagView::Named(y), TagView::Named(z)) => {
                lemma_text_lt_transitive(x, y, z);
            },
            _ => {},
        }
    }
}

/// Of two different keys one comes before the other.
pub proof fn lemma_key_lt_connected(a: Key, b: Key)
    requires
        !key_lt(a, b),
        !key_lt(b, a),
    ensures
        a == b,
{
    match (a.1, b.1) {
        (TagView::Named(x), TagView::Named(y)) => {
            lemma_text_lt_connected(x, y);
        },
        _ => {},
    }
}

/// Ascending keys are all different.
pub proof fn lemma_ascending_distinct(keys: Seq<Key>)
    requires
        ascending(keys),
    ensures
        forall|i: int, j: int| 0 <= i < j < keys.len() ==> keys[i] != keys[j],
{
    assert forall|i: int, j: int| 0 <= i < j < keys.len() implies keys[i] != keys[j] by {
        lemma_key_lt_irreflexive(keys[i]);
    }
}

/// Two ascending lists that hold the same keys are the same list.
pub proof fn lemma_ascending_unique(a: Seq<Key>, b: Seq<Key>)
    requires
        ascending(a),
        ascending(b),
        forall|k: Key| a.contains(k) <==> b.contains(k),
    ensures
        a == b,
    decreases a.len(),
{
    if a.len() == 0 {
        if b.len() > 0 {
            assert(b.contains(b[0]));
        }
        assert(a =~= b);
    } else {
        assert(a.contains(a[0]));
        let j = choose|j: int| 0 <= j < b.len() && b[j] == a[0];
        assert(b.contains(b[0]));
        let i = choose|i: int| 0 <= i < a.len() && a[i] == b[0];
        lemma_key_lt_irreflexive(a[0]);
        if j > 0 && i > 0 {
            lemma_key_lt_transitive(a[0], b[0], a[0]);
        }
        assert(a[0] == b[0]);
        let x = a.drop_first();
        let y = b.drop_first();
        assert forall|k: Key| x.contains(k) <==> y.contains(k) by {
            lemma_key_lt_irreflexive(k);
            if x.contains(k) {
                let p = choose|p: int| 0 <= p < x.len() && x[p] == k;
                assert(a[p + 1] == k);
                assert(a.contains(k));
                let q = choose|q: int| 0 <= q < b.len() && b[q] == k;
                assert(q > 0) by {
                    if q == 0 {
                        assert(key_lt(a[0], a[p + 1]));
                    }
                }
                assert(y[q - 1] == k);
            }
            if y.contains(k) {
                let q = choose|q: int| 0 <= q < y.len() && y[q] == k;
                assert(b[q + 1] == k);
                assert(b.contains(k));
                let p = choose|p: int| 0 <= p < a.len() && a[p] == k;
                assert(p > 0) by {
                    if p == 0 {
                        assert(key_lt(b[0], b[q + 1]));
                    }
                }
                assert(x[p - 1] == k);
            }
        }
        assert(ascending(x)) by {
            assert forall|p: int, q: int| 0 <= p < q < x.len() implies key_lt(x[p], x[q]) by {
                assert(key_lt(a[p + 1], a[q + 1]));
            }
        }
        assert(ascending(y)) by {
            assert forall|p: int, q: int| 0 <= p < q < y.len() implies key_lt(y[p], y[q]) by {
                assert(key_lt(b[p + 1], b[q + 1]));
            }
        }
        lemma_ascending_unique(x, y);
        assert(a =~= seq![a[0]] + x);
        assert(b =~= seq![b[0]] + y);
    }
}

/// Whether the key `a` comes before the key `b`.
pub fn key_less(a: &(char, Tag), b: &(char, Tag)) -> (r: bool)
    ensures
        r == key_lt((a.0, a.1@), (b.0, b.1@)),
{
    a.0 < b.0 || (a.0 == b.0 && a.1.less_than(&b.1))
}

/// Puts `key` in its place among the ascending `items`, unless it is there
/// already.
pub fn insert_ascending(items: &mut Vec<(char, Tag)>, key: (char, Tag))
    requires
        ascending(keys_of(old(items)@)),
    ensures
        ascending(keys_of(final(items)@)),
        forall|k: Key|
            keys_of(final(items)@).contains(k) <==> (keys_of(old(items)@).contains(k) || k == (
                key.0,
                key.1@,
            )),
{
    let ghost before = keys_of(items@);
    let ghost new_key: Key = (key.0, key.1@);
    let mut at: usize = items.len();
    while at > 0 && key_less(&key, &items[at - 1])
        invariant
            at <= items.len(),
            before == keys_of(items@),
            new_key == (key.0, key.1@),
            forall|j: int| at <= j < items.len() ==> key_lt(new_key, before[j]),
        decreases at,
    {
        at -= 1;
    }
    if at > 0 && !key_less(&items[at - 1], &key) {
        proof {
            lemma_key_lt_connected(before[at - 1], new_key);
            assert(before.contains(new_key));
        }
        return ;
    }
    items.insert(at, key);
    proof {
        let after = keys_of(items@);
        assert(after =~= before.insert(at as int, new_key));
        assert forall|i: int, j: int| 0 <= i < j < after.len() implies key_lt(
            after[i],
            after[j],
        ) by {
            if j == at {
                if i < at - 1 {
                    lemma_key_lt_transitive(before[i], before[at - 1], new_key);
                }
            } else if i == at {
            } else if i < at && j > at {
                assert(key_lt(before[i], before[j - 1]));
            } else {
            }
        }
        assert forall|k: Key| after.contains(k) <==> (before.contains(k) || k == new_key) by {
            if after.contains(k) {
                let i = choose|i: int| 0 <= i < after.len() && after[i] == k;
                if i < at {
                    assert(before[i] == k);
                } else if i > at {
                    assert(before[i - 1] == k);
                }
            }
            if before.contains(k) {
                let i = choose|i: int| 0 <= i < before.len() && before[i] == k;
                if i < at {
                    assert(after[i] == k);
                } else {
                    assert(after[i + 1] == k);
                }
            }
            if k == new_key {
                assert(after[at as int] == k);
            }
        }
    }
}

} // verus!
