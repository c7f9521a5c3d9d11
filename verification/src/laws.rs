//! What holds of every tree that insertions build.

use crate::order::{less, strict_order};
use crate::rebalance::{double_red, grown, lemma_inserted};
use crate::tree::Tree;
use std::rc::Rc;
use vstd::prelude::*;

verus! {

/// No two of the entries have the same key.
pub open spec fn distinct_keys<K, V>(entries: Seq<(K, V)>) -> bool {
    forall|i: int, j: int| 0 <= i < j < entries.len() ==> entries[i].0 != entries[j].0
}

/// The tree that inserting `entries`, one after the other, into the empty tree
/// gives.
pub open spec fn built<K: Ord + Copy, V: Copy>(entries: Seq<(K, V)>) -> Tree<K, V>
    decreases entries.len(),
{
    if entries.len() == 0 {
        Tree { root: Rc::new(None) }
    } else {
        built(entries.drop_last()).inserting(entries.last().0, entries.last().1)
    }
}

/// Entries with distinct keys, inserted in any order, build a red-black tree
/// that holds exactly these entries: a lookup finds the value that was
/// inserted with a key, and finds nothing for a key that was never inserted.
/// On the way, every insertion meets a tree that does not hold its key yet.
pub proof fn lemma_built_holds_its_entries<K: Ord + Copy, V: Copy>(entries: Seq<(K, V)>)
    requires
        strict_order::<K>(),
        distinct_keys(entries),
    ensures
        built(entries).wf(),
        forall|k: K, v: V| built(entries)@.contains_pair(k, v) <==> entries.contains((k, v)),
        forall|k: K|
            built(entries)@.contains_key(k) <==> exists|i: int|
                0 <= i < entries.len() && (#[trigger] entries[i]).0 == k,
        forall|i: int|
            0 <= i < entries.len() ==> !(#[trigger] built(entries.take(i)))@.contains_key(
                entries[i].0,
            ),
    decreases entries.len(),
{
    if entries.len() == 0 {
    } else {
        let before = entries.drop_last();
        let (key, val) = entries.last();
        lemma_built_holds_its_entries(before);
        let t = built(before);
        assert(!t@.contains_key(key)) by {
            if t@.contains_key(key) {
                let i = choose|i: int| 0 <= i < before.len() && (#[trigger] before[i]).0 == key;
                assert(entries[i].0 == entries[entries.len() - 1].0);
            }
        }
        lemma_inserted(&t.root, key, val);
        let now = built(entries);
        assert(now@ == t@.insert(key, val));
        assert forall|k: K, v: V| now@.contains_pair(k, v) <==> entries.contains((k, v)) by {
            if now@.contains_pair(k, v) {
                if k == key {
                    assert(entries[entries.len() - 1] == (k, v));
                } else {
                    assert(t@.contains_pair(k, v));
                    let i = choose|i: int| 0 <= i < before.len() && before[i] == (k, v);
                    assert(entries[i] == (k, v));
                }
            }
            if entries.contains((k, v)) {
                let i = choose|i: int| 0 <= i < entries.len() && entries[i] == (k, v);
                if i < entries.len() - 1 {
                    assert(before[i] == (k, v));
                    assert(before.contains((k, v)));
                    assert(t@.contains_pair(k, v));
                    assert(k != key);
                }
            }
        }
        assert forall|k: K|
            now@.contains_key(k) <==> exists|i: int|
                0 <= i < entries.len() && (#[trigger] entries[i]).0 == k by {
            if now@.contains_key(k) {
                if k == key {
                    assert(entries[entries.len() - 1].0 == k);
                } else {
                    assert(t@.contains_key(k));
                    let i = choose|i: int| 0 <= i < before.len() && (#[trigger] before[i]).0 == k;
                    assert(entries[i].0 == k);
                }
            }
            if exists|i: int| 0 <= i < entries.len() && (#[trigger] entries[i]).0 == k {
                let i = choose|i: int| 0 <= i < entries.len() && (#[trigger] entries[i]).0 == k;
                if i < entries.len() - 1 {
                    assert(before[i].0 == k);
                }
            }
        }
        assert forall|i: int| 0 <= i < entries.len() implies !(#[trigger] built(
            entries.take(i),
        ))@.contains_key(entries[i].0) by {
            if i < entries.len() - 1 {
                assert(entries.take(i) == before.take(i));
                assert(before[i] == entries[i]);
            } else {
                assert(entries.take(i) == before);
            }
        }
    }
}

/// Once a key has been inserted, the tree holds it with the value given, and
/// every further insertion of that key is refused.
pub proof fn lemma_inserted_key_is_held<K: Ord + Copy, V: Copy>(t: &Tree<K, V>, key: K, val: V)
    requires
        strict_order::<K>(),
        t.wf(),
        !t@.contains_key(key),
    ensures
        t.inserting(key, val).wf(),
        t.inserting(key, val)@ == t@.insert(key, val),
        t.inserting(key, val)@.contains_pair(key, val),
{
    lemma_inserted(&t.root, key, val);
}

/// Sharing on the left: where the key sorts before the root's key and the
/// insertion leaves the root no double red to resolve, the new root has the
/// old root's entry and the old root's right subtree, and only its left
/// subtree is new. (Where the root does resolve a double red, it recolours or
/// rotates, and its right subtree changes too.)
///
/// In a contract a handle stands for the subtree behind it, so this speaks of
/// equal subtrees. That `insert` hands on the old handle itself, and copies no
/// node, is seen in its body: it clones handles only.
pub proof fn lemma_insertion_on_the_left_keeps_the_right<K: Ord + Copy, V: Copy>(
    t: &Tree<K, V>,
    key: K,
    val: V,
)
    requires
        strict_order::<K>(),
        t.wf(),
        t.root.is_some(),
        less(key, t.root.unwrap().key),
        !t@.contains_key(key),
        !double_red(&grown(&t.root.unwrap().left, key, val)),
    ensures
        t.inserting(key, val).root.is_some(),
        t.inserting(key, val).root.unwrap().right == t.root.unwrap().right,
        t.inserting(key, val).root.unwrap().key == t.root.unwrap().key,
        t.inserting(key, val).root.unwrap().val == t.root.unwrap().val,
        *t.inserting(key, val).root.unwrap().left == grown(&t.root.unwrap().left, key, val),
{
}

/// Sharing on the right: the mirror image of
/// [`lemma_insertion_on_the_left_keeps_the_right`].
pub proof fn lemma_insertion_on_the_right_keeps_the_left<K: Ord + Copy, V: Copy>(
    t: &Tree<K, V>,
    key: K,
    val: V,
)
    requires
        strict_order::<K>(),
        t.wf(),
        t.root.is_some(),
        less(t.root.unwrap().key, key),
        !t@.contains_key(key),
        !double_red(&grown(&t.root.unwrap().right, key, val)),
    ensures
        t.inserting(key, val).root.is_some(),
        t.inserting(key, val).root.unwrap().left == t.root.unwrap().left,
        t.inserting(key, val).root.unwrap().key == t.root.unwrap().key,
        t.inserting(key, val).root.unwrap().val == t.root.unwrap().val,
        *t.inserting(key, val).root.unwrap().right == grown(&t.root.unwrap().right, key, val),
{
}

} // verus!
