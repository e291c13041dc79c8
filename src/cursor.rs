//! Cursors: a position in a tree that can move both ways, read and change
//! the entries around it, and remove them.
use vstd::prelude::*;

use crate::model::{
    has_key, lemma_get_at, lemma_insert_existing, lemma_lower_at, lemma_lower_bounds, lemma_lower_unique,
    lemma_remove_existing, lemma_sorted_edit, lower_index, seq_insert, sorted,
};
use crate::tree::{RBTree, RBTreeNode};

verus! {

/// A position at one entry of a tree, holding the tree exclusively while it
/// lives. Moving past either end gives the cursor up.
pub struct Cursor<'a, V> {
    tree: &'a mut RBTree<V>,
    current: u64,
}

impl<'a, V> Cursor<'a, V> {
    /// The tree the cursor holds.
    pub closed spec fn tree(self) -> &'a mut RBTree<V> {
        self.tree
    }

    /// The key of the entry the cursor is at.
    pub closed spec fn key(self) -> u64 {
        self.current
    }

    /// The tree's entries, in ascending key order.
    pub open spec fn entries(self) -> Seq<(u64, V)> {
        (*self.tree())@
    }

    /// The position of the cursor's entry in `entries()`.
    pub open spec fn index(self) -> int {
        lower_index(self.entries(), self.key() as int)
    }

    /// The tree is well formed and holds the cursor's key.
    pub open spec fn wf(self) -> bool {
        (*self.tree()).wf() && has_key(self.entries(), self.key())
    }

    /// Once a cursor is no longer used, the tree it held is left as the
    /// cursor last saw it, and so well formed.
    pub proof fn lemma_release(self)
        requires
            self.wf(),
            has_resolved(self),
        ensures
            *final(self.tree()) == *self.tree(),
            (*final(self.tree())).wf(),
    {
    }

    /// A well-formed cursor stands at an entry that holds its key.
    pub proof fn lemma_index(self)
        requires
            self.wf(),
        ensures
            0 <= self.index() < self.entries().len(),
            self.entries()[self.index()].0 == self.key(),
    {
        let s = self.entries();
        let i = choose|i: int| 0 <= i < s.len() && #[trigger] s[i].0 == self.key();
        lemma_lower_at(s, i);
    }

    /// The entry the cursor is at.
    pub fn current(&self) -> (r: (&u64, &V))
        requires
            self.wf(),
        ensures
            (*r.0, *r.1) == self.entries()[self.index()],
    {
        proof {
            self.lemma_index();
            lemma_get_at(self.entries(), self.index());
        }
        self.tree.get_entry(self.current).unwrap()
    }

    /// The entry the cursor is at, with its value open to change.
    pub fn current_mut(&mut self) -> (r: (&u64, &mut V))
        requires
            old(self).wf(),
        ensures
            (*r.0, *r.1) == old(self).entries()[old(self).index()],
            final(self).key() == old(self).key(),
            final(self).entries() == old(self).entries().update(
                old(self).index(),
                (old(self).key(), *final(r.1)),
            ),
            final(self).wf(),
            final(self).index() == old(self).index(),
            *final(final(self).tree()) == *final(old(self).tree()),
    {
        let ghost s = self.entries();
        let ghost i = self.index();
        proof {
            self.lemma_index();
            lemma_get_at(s, i);
            lemma_edit_all(s, i);
        }
        self.tree.get_entry_mut(self.current).unwrap()
    }

    /// Moves to the next entry up; the cursor is given up past the last.
    pub fn move_next(self) -> (r: Option<Self>)
        requires
            self.wf(),
        ensures
            match r {
                Some(c) => {
                    &&& c.wf()
                    &&& c.entries() == self.entries()
                    &&& c.index() == self.index() + 1
                    &&& *final(c.tree()) == *final(self.tree())
                },
                None => self.index() == self.entries().len() - 1 && *final(self.tree()) == *self.tree(),
            },
    {
        proof {
            self.lemma_index();
            lemma_lower_at(self.entries(), self.index());
        }
        match self.tree.key_above(self.current, false) {
            Some(k) => {
                proof {
                    lemma_lower_at(self.entries(), self.index() + 1);
                }
                Some(Cursor { tree: self.tree, current: k })
            },
            None => None,
        }
    }

    /// Moves to the next entry down; the cursor is given up past the first.
    pub fn move_prev(self) -> (r: Option<Self>)
        requires
            self.wf(),
        ensures
            match r {
                Some(c) => {
                    &&& c.wf()
                    &&& c.entries() == self.entries()
                    &&& c.index() == self.index() - 1
                    &&& *final(c.tree()) == *final(self.tree())
                },
                None => self.index() == 0 && *final(self.tree()) == *self.tree(),
            },
    {
        proof {
            self.lemma_index();
        }
        match self.tree.key_below(self.current, false) {
            Some(k) => {
                proof {
                    lemma_lower_at(self.entries(), self.index() - 1);
                }
                Some(Cursor { tree: self.tree, current: k })
            },
            None => None,
        }
    }

    /// The entry after the cursor's, if there is one.
    pub fn peek_next(&self) -> (r: Option<(&u64, &V)>)
        requires
            self.wf(),
        ensures
            match r {
                Some((k, v)) => self.index() + 1 < self.entries().len() && (*k, *v)
                    == self.entries()[self.index() + 1],
                None => self.index() + 1 == self.entries().len(),
            },
    {
        proof {
            self.lemma_index();
            lemma_lower_at(self.entries(), self.index());
        }
        match self.tree.key_above(self.current, false) {
            Some(k) => {
                proof {
                    lemma_get_at(self.entries(), self.index() + 1);
                }
                self.tree.get_entry(k)
            },
            None => None,
        }
    }

    /// The entry before the cursor's, if there is one.
    pub fn peek_prev(&self) -> (r: Option<(&u64, &V)>)
        requires
            self.wf(),
        ensures
            match r {
                Some((k, v)) => self.index() > 0 && (*k, *v) == self.entries()[self.index() - 1],
                None => self.index() == 0,
            },
    {
        proof {
            self.lemma_index();
        }
        match self.tree.key_below(self.current, false) {
            Some(k) => {
                proof {
                    lemma_get_at(self.entries(), self.index() - 1);
                }
                self.tree.get_entry(k)
            },
            None => None,
        }
    }

    /// The entry after the cursor's, with its value open to change.
    pub fn peek_next_mut(&mut self) -> (r: Option<(&u64, &mut V)>)
        requires
            old(self).wf(),
        ensures
            final(self).key() == old(self).key(),
            final(self).wf(),
            final(self).index() == old(self).index(),
            *final(final(self).tree()) == *final(old(self).tree()),
            match r {
                Some((k, v)) => {
                    let i = old(self).index() + 1;
                    &&& i < old(self).entries().len()
                    &&& (*k, *v) == old(self).entries()[i]
                    &&& final(self).entries() == old(self).entries().update(i, (*k, *final(v)))
                },
                None => {
                    &&& old(self).index() + 1 == old(self).entries().len()
                    &&& final(self).entries() == old(self).entries()
                },
            },
    {
        let ghost s = self.entries();
        let ghost i = self.index();
        proof {
            self.lemma_index();
            lemma_lower_at(s, i);
        }
        match self.tree.key_above(self.current, false) {
            Some(k) => {
                proof {
                    lemma_get_at(s, i + 1);
                    lemma_edit_all(s, i + 1);
                    assert forall|v: V|
                        #![trigger s.update(i + 1, (s[i + 1].0, v))]
                        #![trigger seq_insert(s, s[i + 1].0, v)]
                        has_key(s.update(i + 1, (s[i + 1].0, v)), s[i].0) && lower_index(
                            s.update(i + 1, (s[i + 1].0, v)),
                            s[i].0 as int,
                        ) == i by {
                        assert(s.update(i + 1, (s[i + 1].0, v))[i] == s[i]);
                        lemma_sorted_edit(s, i + 1, v);
                        lemma_lower_at(s.update(i + 1, (s[i + 1].0, v)), i);
                    }
                }
                self.tree.get_entry_mut(k)
            },
            None => None,
        }
    }

    /// The entry before the cursor's, with its value open to change.
    pub fn peek_prev_mut(&mut self) -> (r: Option<(&u64, &mut V)>)
        requires
            old(self).wf(),
        ensures
            final(self).key() == old(self).key(),
            final(self).wf(),
            final(self).index() == old(self).index(),
            *final(final(self).tree()) == *final(old(self).tree()),
            match r {
                Some((k, v)) => {
                    let i = old(self).index() - 1;
                    &&& i >= 0
                    &&& (*k, *v) == old(self).entries()[i]
                    &&& final(self).entries() == old(self).entries().update(i, (*k, *final(v)))
                },
                None => {
                    &&& old(self).index() == 0
                    &&& final(self).entries() == old(self).entries()
                },
            },
    {
        let ghost s = self.entries();
        let ghost i = self.index();
        proof {
            self.lemma_index();
            lemma_lower_at(s, i);
        }
        match self.tree.key_below(self.current, false) {
            Some(k) => {
                proof {
                    lemma_get_at(s, i - 1);
                    lemma_edit_all(s, i - 1);
                    assert forall|v: V|
                        #![trigger s.update(i - 1, (s[i - 1].0, v))]
                        #![trigger seq_insert(s, s[i - 1].0, v)]
                        has_key(s.update(i - 1, (s[i - 1].0, v)), s[i].0) && lower_index(
                            s.update(i - 1, (s[i - 1].0, v)),
                            s[i].0 as int,
                        ) == i by {
                        assert(s.update(i - 1, (s[i - 1].0, v))[i] == s[i]);
                        lemma_sorted_edit(s, i - 1, v);
                        lemma_lower_at(s.update(i - 1, (s[i - 1].0, v)), i);
                    }
                }
                self.tree.get_entry_mut(k)
            },
            None => None,
        }
    }
}

impl<'a, V> Cursor<'a, V> {
    /// Detaches the cursor's entry and hands its node back, with a cursor at
    /// the entry that followed it, or else the one that preceded it; none if
    /// the tree is now empty.
    pub fn remove_current(self) -> (r: (Option<Self>, RBTreeNode<V>))
        requires
            self.wf(),
        ensures
            r.1@ == self.entries()[self.index()],
            match r.0 {
                Some(c) => {
                    &&& c.wf()
                    &&& c.entries() == self.entries().remove(self.index())
                    &&& c.index() == if self.index() + 1 < self.entries().len() {
                        self.index()
                    } else {
                        self.index() - 1
                    }
                    &&& *final(c.tree()) == *final(self.tree())
                },
                None => {
                    &&& self.entries().len() == 1
                    &&& (*final(self.tree()))@.len() == 0
                    &&& (*final(self.tree())).wf()
                },
            },
    {
        let ghost s = self.entries();
        let ghost i = self.index();
        proof {
            self.lemma_index();
            lemma_lower_at(s, i);
            lemma_get_at(s, i);
            lemma_remove_existing(s, i);
            lemma_sorted_edit(s, i, s[i].1);
        }
        let next = self.tree.key_above(self.current, false);
        let prev = self.tree.key_below(self.current, false);
        let node = self.tree.remove_node(self.current).unwrap();
        let target = match next {
            Some(k) => Some(k),
            None => prev,
        };
        match target {
            Some(k) => {
                proof {
                    let t = s.remove(i);
                    if i + 1 < s.len() {
                        assert(t[i] == s[i + 1]);
                        lemma_lower_at(t, i);
                    } else {
                        assert(t[i - 1] == s[i - 1]);
                        lemma_lower_at(t, i - 1);
                    }
                }
                (Some(Cursor { tree: self.tree, current: k }), node)
            },
            None => (None, node),
        }
    }

    /// Detaches the entry after the cursor's and hands its node back.
    pub fn remove_next(&mut self) -> (r: Option<RBTreeNode<V>>)
        requires
            old(self).wf(),
        ensures
            final(self).key() == old(self).key(),
            final(self).wf(),
            final(self).index() == old(self).index(),
            *final(final(self).tree()) == *final(old(self).tree()),
            match r {
                Some(n) => {
                    let i = old(self).index() + 1;
                    &&& i < old(self).entries().len()
                    &&& n@ == old(self).entries()[i]
                    &&& final(self).entries() == old(self).entries().remove(i)
                },
                None => {
                    &&& old(self).index() + 1 == old(self).entries().len()
                    &&& final(self).entries() == old(self).entries()
                },
            },
    {
        let ghost s = self.entries();
        let ghost i = self.index();
        proof {
            self.lemma_index();
            lemma_lower_at(s, i);
        }
        match self.tree.key_above(self.current, false) {
            Some(k) => {
                proof {
                    lemma_get_at(s, i + 1);
                    lemma_remove_existing(s, i + 1);
                    lemma_sorted_edit(s, i + 1, s[i].1);
                    assert(s.remove(i + 1)[i] == s[i]);
                    lemma_lower_at(s.remove(i + 1), i);
                }
                self.tree.remove_node(k)
            },
            None => None,
        }
    }

    /// Detaches the entry before the cursor's and hands its node back.
    pub fn remove_prev(&mut self) -> (r: Option<RBTreeNode<V>>)
        requires
            old(self).wf(),
        ensures
            final(self).key() == old(self).key(),
            final(self).wf(),
            *final(final(self).tree()) == *final(old(self).tree()),
            match r {
                Some(n) => {
                    let i = old(self).index() - 1;
                    &&& i >= 0
                    &&& n@ == old(self).entries()[i]
                    &&& final(self).entries() == old(self).entries().remove(i)
                    &&& final(self).index() == i
                },
                None => {
                    &&& old(self).index() == 0
                    &&& final(self).entries() == old(self).entries()
                    &&& final(self).index() == 0
                },
            },
    {
        let ghost s = self.entries();
        let ghost i = self.index();
        proof {
            self.lemma_index();
            lemma_lower_at(s, i);
        }
        match self.tree.key_below(self.current, false) {
            Some(k) => {
                proof {
                    lemma_get_at(s, i - 1);
                    lemma_remove_existing(s, i - 1);
                    lemma_sorted_edit(s, i - 1, s[i].1);
                    assert(s.remove(i - 1)[i - 1] == s[i]);
                    lemma_lower_at(s.remove(i - 1), i - 1);
                }
                self.tree.remove_node(k)
            },
            None => None,
        }
    }
}

impl<V> RBTree<V> {
    /// A cursor at the entry with the smallest key; none if the tree is
    /// empty.
    pub fn cursor_front(&mut self) -> (r: Option<Cursor<'_, V>>)
        requires
            old(self).wf(),
        ensures
            match r {
                Some(c) => {
                    &&& c.wf()
                    &&& c.entries() == old(self)@
                    &&& c.index() == 0
                    &&& *final(self) == *final(c.tree())
                },
                None => old(self)@.len() == 0 && *final(self) == *old(self),
            },
    {
        match self.key_above(0, true) {
            Some(k) => {
                proof {
                    lemma_lower_at(self@, 0);
                }
                Some(Cursor { tree: self, current: k })
            },
            None => None,
        }
    }

    /// A cursor at the entry with the largest key; none if the tree is
    /// empty.
    pub fn cursor_back(&mut self) -> (r: Option<Cursor<'_, V>>)
        requires
            old(self).wf(),
        ensures
            match r {
                Some(c) => {
                    &&& c.wf()
                    &&& c.entries() == old(self)@
                    &&& c.index() == old(self)@.len() - 1
                    &&& *final(self) == *final(c.tree())
                },
                None => old(self)@.len() == 0 && *final(self) == *old(self),
            },
    {
        proof {
            lemma_lower_unique(self@, u64::MAX + 1, self@.len() as int);
        }
        match self.key_below(u64::MAX, true) {
            Some(k) => {
                proof {
                    lemma_lower_at(self@, self@.len() - 1);
                }
                Some(Cursor { tree: self, current: k })
            },
            None => None,
        }
    }

    /// A cursor at the entry with the smallest key at or above `key`; none
    /// if every key is below it.
    pub fn cursor_lower_bound(&mut self, key: u64) -> (r: Option<Cursor<'_, V>>)
        requires
            old(self).wf(),
        ensures
            match r {
                Some(c) => {
                    &&& c.wf()
                    &&& c.entries() == old(self)@
                    &&& c.index() == lower_index(old(self)@, key as int)
                    &&& *final(self) == *final(c.tree())
                },
                None => lower_index(old(self)@, key as int) == old(self)@.len() && *final(self)
                    == *old(self),
            },
    {
        match self.key_above(key, true) {
            Some(k) => {
                proof {
                    lemma_lower_bounds(self@, key as int);
                    lemma_lower_at(self@, lower_index(self@, key as int));
                }
                Some(Cursor { tree: self, current: k })
            },
            None => None,
        }
    }
}

/// `seq_insert` under the key at index `i` replaces the entry there.
spec fn insert_replaces<V>(s: Seq<(u64, V)>, i: int, v: V) -> bool {
    seq_insert(s, s[i].0, v) == s.update(i, (s[i].0, v))
}

/// For every new value at index `i`: insertion there is a replacement, the
/// result stays sorted, and the key keeps its position.
proof fn lemma_edit_all<V>(s: Seq<(u64, V)>, i: int)
    requires
        sorted(s),
        0 <= i < s.len(),
    ensures
        forall|v: V|
            #![trigger s.update(i, (s[i].0, v))]
            #![trigger seq_insert(s, s[i].0, v)]
            insert_replaces(s, i, v) && sorted(s.update(i, (s[i].0, v))) && has_key(
                s.update(i, (s[i].0, v)),
                s[i].0,
            ) && lower_index(s.update(i, (s[i].0, v)), s[i].0 as int) == i,
{
    assert forall|v: V|
        #![trigger s.update(i, (s[i].0, v))]
        #![trigger seq_insert(s, s[i].0, v)]
        insert_replaces(s, i, v) && sorted(s.update(i, (s[i].0, v))) && has_key(
            s.update(i, (s[i].0, v)),
            s[i].0,
        ) && lower_index(s.update(i, (s[i].0, v)), s[i].0 as int) == i by {
        lemma_insert_existing(s, i, v);
        lemma_sorted_edit(s, i, v);
        assert(s.update(i, (s[i].0, v))[i].0 == s[i].0);
        lemma_lower_at(s.update(i, (s[i].0, v)), i);
    }
}

} // verus!
