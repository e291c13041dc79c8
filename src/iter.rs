//! Forward iteration over a tree's entries in ascending key order, each step
//! finding the next key from the last one.
use vstd::prelude::*;

use crate::model::{has_key, lemma_get_at, lemma_lower_at, lower_index};
use crate::tree::RBTree;

verus! {

/// Walks the entries of a tree in ascending key order. Each iterator is used
/// up once; a fresh one from `RBTree::iter` starts again at the front.
pub struct Iter<'a, V> {
    tree: &'a RBTree<V>,
    next: Option<u64>,
}

impl<'a, V> Iter<'a, V> {
    /// The entries being walked.
    pub closed spec fn entries(self) -> Seq<(u64, V)> {
        self.tree@
    }

    /// How many entries have been handed out.
    pub closed spec fn pos(self) -> int {
        match self.next {
            Some(k) => lower_index(self.tree@, k as int),
            None => self.tree@.len() as int,
        }
    }

    /// The tree is well formed and holds the next key to hand out.
    pub closed spec fn wf(self) -> bool {
        &&& self.tree.wf()
        &&& self.next matches Some(k) ==> has_key(self.tree@, k)
    }

    /// A well-formed iterator has handed out between none and all entries.
    pub proof fn lemma_pos(self)
        requires
            self.wf(),
        ensures
            0 <= self.pos() <= self.entries().len(),
    {
        if let Some(k) = self.next {
            let s = self.tree@;
            let i = choose|i: int| 0 <= i < s.len() && #[trigger] s[i].0 == k;
            lemma_lower_at(s, i);
        }
    }

    /// The next entry, if any are left.
    pub fn next(&mut self) -> (r: Option<(&'a u64, &'a V)>)
        requires
            old(self).wf(),
        ensures
            final(self).wf(),
            final(self).entries() == old(self).entries(),
            match r {
                Some((k, v)) => {
                    &&& old(self).pos() < old(self).entries().len()
                    &&& (*k, *v) == old(self).entries()[old(self).pos()]
                    &&& final(self).pos() == old(self).pos() + 1
                },
                None => {
                    &&& old(self).pos() == old(self).entries().len()
                    &&& final(self).pos() == old(self).pos()
                },
            },
    {
        match self.next {
            None => None,
            Some(k) => {
                let ghost s = self.tree@;
                let ghost i = choose|i: int| 0 <= i < s.len() && #[trigger] s[i].0 == k;
                proof {
                    lemma_lower_at(s, i);
                    lemma_get_at(s, i);
                }
                let tree: &'a RBTree<V> = self.tree;
                let entry = tree.get_entry(k);
                self.next = tree.key_above(k, false);
                proof {
                    if i + 1 < s.len() {
                        lemma_lower_at(s, i + 1);
                    }
                }
                entry
            },
        }
    }
}

/// Walks the entries of a tree in ascending key order, giving mutable access
/// to each value. The references are taken from the tree when the walk
/// starts and handed out one at a time.
pub struct IterMut<'a, V> {
    rest: Vec<(&'a u64, &'a mut V)>,
    all: Ghost<Seq<(&'a u64, &'a mut V)>>,
}

impl<'a, V> IterMut<'a, V> {
    /// Every entry of the walk, handed out or still to come, in order.
    pub closed spec fn items(self) -> Seq<(&'a u64, &'a mut V)> {
        self.all@
    }

    /// How many entries have been handed out.
    pub closed spec fn pos(self) -> int {
        self.all@.len() - self.rest@.len()
    }

    /// The entries still to come are the last ones of `items()`.
    pub closed spec fn wf(self) -> bool {
        &&& self.rest@.len() <= self.all@.len()
        &&& forall|j: int|
            0 <= j < self.rest@.len() ==> #[trigger] self.rest@[j] == self.all@[self.all@.len()
                - 1 - j]
    }

    /// The next entry, if any are left.
    pub fn next(&mut self) -> (r: Option<(&'a u64, &'a mut V)>)
        requires
            old(self).wf(),
        ensures
            final(self).wf(),
            final(self).items() == old(self).items(),
            match r {
                Some(e) => {
                    &&& 0 <= old(self).pos() < old(self).items().len()
                    &&& e == old(self).items()[old(self).pos()]
                    &&& final(self).pos() == old(self).pos() + 1
                },
                None => {
                    &&& old(self).pos() == old(self).items().len()
                    &&& final(self).pos() == old(self).pos()
                },
            },
    {
        let r = self.rest.pop();
        proof {
            if r is Some {
                assert(old(self).rest@[old(self).rest@.len() - 1] == r->0);
            }
        }
        r
    }
}

impl<V> RBTree<V> {
    /// An iterator over all entries, from the smallest key up.
    pub fn iter(&self) -> (r: Iter<'_, V>)
        requires
            self.wf(),
        ensures
            r.wf(),
            r.entries() == self@,
            r.pos() == 0,
    {
        let first = self.key_above(0, true);
        proof {
            if self@.len() > 0 {
                lemma_lower_at(self@, 0);
            }
        }
        Iter { tree: self, next: first }
    }

    /// An iterator over all entries, from the smallest key up, with mutable
    /// access to each value. Whatever is written through the references it
    /// hands out becomes the tree's values; keys, order and length stay.
    pub fn iter_mut(&mut self) -> (r: IterMut<'_, V>)
        requires
            old(self).wf(),
        ensures
            r.wf(),
            r.pos() == 0,
            r.items().len() == old(self)@.len(),
            forall|i: int|
                0 <= i < old(self)@.len() ==> (*(#[trigger] r.items()[i]).0, *r.items()[i].1)
                    == old(self)@[i],
            final(self).wf(),
            final(self)@.len() == old(self)@.len(),
            forall|i: int|
                0 <= i < old(self)@.len() ==> #[trigger] final(self)@[i] == (
                    old(self)@[i].0,
                    *final(r.items()[i].1),
                ),
    {
        let mut entries = self.entries_mut();
        let ghost all = entries@;
        let mut rest: Vec<(&u64, &mut V)> = Vec::new();
        #[verifier::loop_isolation(false)]
        loop
            invariant
                all.len() == old(self)@.len(),
                forall|i: int|
                    0 <= i < all.len() ==> (*(#[trigger] all[i]).0, *all[i].1) == old(self)@[i],
                entries@.len() + rest@.len() == all.len(),
                forall|j: int| 0 <= j < entries@.len() ==> #[trigger] entries@[j] == all[j],
                forall|j: int|
                    0 <= j < rest@.len() ==> #[trigger] rest@[j] == all[all.len() - 1 - j],
            decreases entries@.len(),
        {
            match entries.pop() {
                Some(e) => {
                    proof {
                        assert(e == all[all.len() - 1 - rest@.len()]);
                    }
                    rest.push(e);
                },
                None => {
                    let it = IterMut { rest, all: Ghost(all) };
                    return it;
                },
            }
        }
    }

    /// Mutable access to every value, in ascending order of their keys.
    /// Whatever is written through them becomes the tree's values; keys,
    /// order and length stay.
    pub fn values_mut(&mut self) -> (r: Vec<&mut V>)
        requires
            old(self).wf(),
        ensures
            r@.len() == old(self)@.len(),
            forall|i: int| 0 <= i < old(self)@.len() ==> *#[trigger] r@[i] == old(self)@[i].1,
            final(self).wf(),
            final(self)@.len() == old(self)@.len(),
            forall|i: int|
                0 <= i < old(self)@.len() ==> #[trigger] final(self)@[i] == (
                    old(self)@[i].0,
                    *final(r@[i]),
                ),
    {
        let mut it = self.iter_mut();
        let ghost items = it.items();
        let mut out: Vec<&mut V> = Vec::new();
        #[verifier::loop_isolation(false)]
        loop
            invariant
                it.wf(),
                it.items() == items,
                items.len() == old(self)@.len(),
                forall|i: int|
                    0 <= i < items.len() ==> (*(#[trigger] items[i]).0, *items[i].1)
                        == old(self)@[i],
                0 <= it.pos() <= items.len(),
                out@.len() == it.pos(),
                forall|j: int|
                    0 <= j < out@.len() ==> *#[trigger] out@[j] == *items[j].1 && *final(out@[j])
                        == *final(items[j].1),
            decreases items.len() - it.pos(),
        {
            match it.next() {
                Some(e) => {
                    let (_, v) = e;
                    let ghost before = out@;
                    proof {
                        assert(v == items[out@.len() as int].1);
                    }
                    out.push(v);

                    proof {
                        assert(out@.len() == before.len() + 1);
                        assert forall|j: int| 0 <= j < out@.len() implies *#[trigger] out@[j]
                            == *items[j].1 && *final(out@[j]) == *final(items[j].1) by {
                            if j < before.len() {
                                assert(out@[j] == before[j]);
                            }
                        }
                    }
                },
                None => {
                    return out;
                },
            }
        }
    }

    /// The keys, in ascending order.
    pub fn keys(&self) -> (r: Vec<u64>)
        requires
            self.wf(),
        ensures
            r@ == crate::model::keys_of(self@),
    {
        let mut it = self.iter();
        let mut out: Vec<u64> = Vec::new();
        loop
            invariant
                it.wf(),
                it.entries() == self@,
                0 <= it.pos() <= self@.len(),
                out@ == crate::model::keys_of(self@).take(it.pos()),
            decreases self@.len() - it.pos(),
        {
            match it.next() {
                Some((k, _)) => {
                    out.push(*k);
                    proof {
                        assert(out@ =~= crate::model::keys_of(self@).take(it.pos()));
                    }
                },
                None => {
                    proof {
                        assert(out@ =~= crate::model::keys_of(self@));
                    }
                    return out;
                },
            }
        }
    }

    /// The values, in ascending order of their keys.
    pub fn values(&self) -> (r: Vec<&V>)
        requires
            self.wf(),
        ensures
            r@.len() == self@.len(),
            forall|i: int| 0 <= i < self@.len() ==> *#[trigger] r@[i] == self@[i].1,
    {
        let mut it = self.iter();
        let mut out: Vec<&V> = Vec::new();
        loop
            invariant
                it.wf(),
                it.entries() == self@,
                0 <= it.pos() <= self@.len(),
                out@.len() == it.pos(),
                forall|i: int| 0 <= i < it.pos() ==> *#[trigger] out@[i] == self@[i].1,
            decreases self@.len() - it.pos(),
        {
            match it.next() {
                Some((_, v)) => {
                    out.push(v);
                },
                None => {
                    return out;
                },
            }
        }
    }
}

} // verus!
