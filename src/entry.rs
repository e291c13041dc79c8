//! The entry protocol: one lookup that either finds a key or marks where it
//! would go, after which the caller reads, changes, removes or inserts.
use vstd::prelude::*;

use crate::model::{
    lemma_insert_sorted, lemma_insert_twice, seq_get, seq_insert, seq_remove, sorted,
};
use crate::tree::{RBTree, RBTreeNode, RBTreeNodeReservation};

verus! {

/// The result of looking a key up for the entry protocol.
pub enum Entry<'a, V> {
    /// The key is absent.
    Vacant(VacantEntry<'a, V>),
    /// The key is present.
    Occupied(OccupiedEntry<'a, V>),
}

/// A key that the tree does not hold, with the tree held for its insertion.
/// Inserting walks down from the root again to link the new node in.
pub struct VacantEntry<'a, V> {
    rbtree: &'a mut RBTree<V>,
    key: u64,
}

/// A key that the tree holds, with the tree held for access to its entry.
pub struct OccupiedEntry<'a, V> {
    rbtree: &'a mut RBTree<V>,
    key: u64,
}

impl<'a, V> VacantEntry<'a, V> {
    /// The tree the entry holds.
    pub closed spec fn tree(self) -> &'a mut RBTree<V> {
        self.rbtree
    }

    /// The key looked up.
    pub closed spec fn key(self) -> u64 {
        self.key
    }

    /// The tree's entries, in ascending key order.
    pub open spec fn entries(self) -> Seq<(u64, V)> {
        (*self.tree())@
    }

    /// The tree is well formed and does not hold the key.
    pub open spec fn wf(self) -> bool {
        (*self.tree()).wf() && seq_get(self.entries(), self.key()) is None
    }

    /// An entry dropped unused leaves its tree as it was, and so well formed.
    pub proof fn lemma_release(self)
        requires
            self.wf(),
            has_resolved(self),
        ensures
            *final(self.tree()) == *self.tree(),
            (*final(self.tree())).wf(),
    {
    }

    /// Fills `reservation` with the entry's key and `value` and links it in,
    /// giving access to the value where it now stands.
    pub fn insert(self, value: V, reservation: RBTreeNodeReservation<V>) -> (r: &'a mut V)
        requires
            self.wf(),
        ensures
            *r == value,
            (*final(self.tree()))@ == seq_insert(self.entries(), self.key(), *final(r)),
            (*final(self.tree())).wf(),
    {
        let ghost s = self.entries();
        let key = self.key;
        let tree = self.rbtree;
        tree.insert(reservation.into_node(key, value));
        proof {
            let t = seq_insert(s, key, value);
            lemma_insert_get(s, key, value);
            assert forall|v: V| #[trigger]
                seq_insert(t, key, v) == seq_insert(s, key, v) by {
                lemma_insert_twice(s, key, value, v);
            }
        }
        tree.get_mut(key).unwrap()
    }
}

impl<'a, V> OccupiedEntry<'a, V> {
    /// The tree the entry holds.
    pub closed spec fn tree(self) -> &'a mut RBTree<V> {
        self.rbtree
    }

    /// The key looked up.
    pub closed spec fn key(self) -> u64 {
        self.key
    }

    /// The tree's entries, in ascending key order.
    pub open spec fn entries(self) -> Seq<(u64, V)> {
        (*self.tree())@
    }

    /// The tree is well formed and holds the key.
    pub open spec fn wf(self) -> bool {
        (*self.tree()).wf() && seq_get(self.entries(), self.key()) is Some
    }

    /// Once the entry is no longer used, its tree is left as the entry last
    /// saw it, and so well formed.
    pub proof fn lemma_release(self)
        requires
            self.wf(),
            has_resolved(self),
        ensures
            *final(self.tree()) == *self.tree(),
            (*final(self.tree())).wf(),
    {
    }

    /// The value stored under the entry's key.
    pub open spec fn value(self) -> V {
        seq_get(self.entries(), self.key())->0
    }

    /// The value stored under the entry's key.
    pub fn get(&self) -> (r: &V)
        requires
            self.wf(),
        ensures
            *r == self.value(),
    {
        self.rbtree.get(self.key).unwrap()
    }

    /// The value stored under the entry's key, open to change.
    pub fn get_mut(&mut self) -> (r: &mut V)
        requires
            old(self).wf(),
        ensures
            *r == old(self).value(),
            final(self).key() == old(self).key(),
            final(self).entries() == seq_insert(old(self).entries(), old(self).key(), *final(r)),
            final(self).wf(),
            *final(final(self).tree()) == *final(old(self).tree()),
    {
        proof {
            lemma_replace_all(self.entries(), self.key());
        }
        self.rbtree.get_mut(self.key).unwrap()
    }

    /// Access to the value that outlives the entry.
    pub fn into_mut(self) -> (r: &'a mut V)
        requires
            self.wf(),
        ensures
            *r == self.value(),
            (*final(self.tree()))@ == seq_insert(self.entries(), self.key(), *final(r)),
            (*final(self.tree())).wf(),
    {
        self.rbtree.get_mut(self.key).unwrap()
    }

    /// Detaches the entry's node and hands it back.
    pub fn remove_node(self) -> (r: RBTreeNode<V>)
        requires
            self.wf(),
        ensures
            r@ == (self.key(), self.value()),
            (*final(self.tree()))@ == seq_remove(self.entries(), self.key()),
            (*final(self.tree())).wf(),
    {
        self.rbtree.remove_node(self.key).unwrap()
    }

    /// Removes the entry and gives back its value.
    pub fn remove(self) -> (r: V)
        requires
            self.wf(),
        ensures
            r == self.value(),
            (*final(self.tree()))@ == seq_remove(self.entries(), self.key()),
            (*final(self.tree())).wf(),
    {
        self.remove_node().to_key_value().1
    }
}

impl<V> RBTree<V> {
    /// Looks `key` up once, for the entry protocol.
    pub fn entry(&mut self, key: u64) -> (r: Entry<'_, V>)
        requires
            old(self).wf(),
        ensures
            match r {
                Entry::Occupied(o) => {
                    &&& o.wf()
                    &&& o.key() == key
                    &&& o.entries() == old(self)@
                    &&& *final(self) == *final(o.tree())
                },
                Entry::Vacant(v) => {
                    &&& v.wf()
                    &&& v.key() == key
                    &&& v.entries() == old(self)@
                    &&& *final(self) == *final(v.tree())
                },
            },
    {
        if self.get(key).is_some() {
            Entry::Occupied(OccupiedEntry { rbtree: self, key })
        } else {
            Entry::Vacant(VacantEntry { rbtree: self, key })
        }
    }

    /// The occupied entry for `key`, if the tree holds it.
    pub fn find_mut(&mut self, key: u64) -> (r: Option<OccupiedEntry<'_, V>>)
        requires
            old(self).wf(),
        ensures
            match r {
                Some(o) => {
                    &&& o.wf()
                    &&& o.key() == key
                    &&& o.entries() == old(self)@
                    &&& *final(self) == *final(o.tree())
                },
                None => seq_get(old(self)@, key) is None && *final(self) == *old(self),
            },
    {
        if self.get(key).is_some() {
            Some(OccupiedEntry { rbtree: self, key })
        } else {
            None
        }
    }
}

/// Looking a key up right after inserting it finds the inserted value.
proof fn lemma_insert_get<V>(s: Seq<(u64, V)>, k: u64, v: V)
    requires
        sorted(s),
    ensures
        seq_get(seq_insert(s, k, v), k) == Some(v),
{
    crate::laws::lemma_get_after_insert(s, k, v, k);
}

/// For every new value, insertion under a present key keeps the sequence
/// sorted with the key still present.
proof fn lemma_replace_all<V>(s: Seq<(u64, V)>, k: u64)
    requires
        sorted(s),
        seq_get(s, k) is Some,
    ensures
        forall|v: V|
            #![trigger seq_insert(s, k, v)]
            sorted(seq_insert(s, k, v)) && seq_get(seq_insert(s, k, v), k) is Some,
{
    assert forall|v: V| #![trigger seq_insert(s, k, v)]
        sorted(seq_insert(s, k, v)) && seq_get(seq_insert(s, k, v), k) is Some by {
        lemma_insert_sorted(s, k, v, -1);
        lemma_insert_get(s, k, v);
    }
}

} // verus!
