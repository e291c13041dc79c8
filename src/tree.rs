//! The tree itself, and the detached nodes and reservations that move in and
//! out of it.
use vstd::prelude::*;

use crate::model::{lower_index, seq_get, seq_insert, seq_remove, sorted};
use crate::node::{
    collect_mut, filled, lemma_unwrap_get, lemma_unwrap_insert, lemma_unwrap_keys,
    lemma_unwrap_remove, unwrap_all,
    above_in, below_in, get_in, get_mut_in, insert_in, is_red, lemma_seq_len, paint, red_black,
    nearly_red_black, remove_in, seq_of, Link, Node,
};

verus! {

/// Allocation of node storage failed.
#[derive(Debug, PartialEq, Eq, Structural)]
pub enum AllocError {
    OutOfMemory,
}

/// An ordered map from `u64` keys to values of type `V`, kept as a
/// red-black tree that owns every node in it.
///
/// The tree does no locking of its own: `&mut self` methods need exclusive
/// access, which the borrow rules give.
pub struct RBTree<V> {
    root: Link<V>,
}

impl<V> View for RBTree<V> {
    type V = Seq<(u64, V)>;

    /// The entries in ascending key order.
    closed spec fn view(&self) -> Seq<(u64, V)> {
        unwrap_all(seq_of(self.root))
    }
}

impl<V> RBTree<V> {
    /// Keys strictly increase along the in-order sequence, and the nodes
    /// obey the red-black rules.
    pub open spec fn wf(&self) -> bool {
        sorted(self@) && self.is_red_black() && self.holds_values()
    }

    /// Every node in the tree holds a value.
    pub closed spec fn holds_values(&self) -> bool {
        filled(seq_of(self.root))
    }

    /// What the sequence facts of the tree's view say of its nodes.
    proof fn lemma_view(&self)
        requires
            self.wf(),
        ensures
            sorted(seq_of(self.root)),
            seq_of(self.root).len() == self@.len(),
            forall|i: int| 0 <= i < self@.len() ==> (#[trigger] self@[i]).0 == seq_of(self.root)[i].0,
            forall|k: int| lower_index(self@, k) == #[trigger] lower_index(seq_of(self.root), k),
    {
        lemma_unwrap_keys(seq_of(self.root));
    }

    /// The red-black rules hold: no red node has a red child, every path
    /// from a node down to an empty link meets the same number of black
    /// nodes, and the root is black.
    pub closed spec fn is_red_black(&self) -> bool {
        red_black(self.root) && !is_red(self.root)
    }

    /// An empty tree; nothing is allocated.
    pub fn new() -> (r: Self)
        ensures
            r@ == Seq::<(u64, V)>::empty(),
            r.wf(),
    {
        RBTree { root: None }
    }

    /// Whether the tree holds no entry.
    pub fn is_empty(&self) -> (r: bool)
        ensures
            r == (self@.len() == 0),
    {
        proof {
            lemma_seq_len(self.root);
            lemma_unwrap_keys(seq_of(self.root));
        }
        self.root.is_none()
    }

    /// The value stored under `key`.
    pub fn get(&self, key: u64) -> (r: Option<&V>)
        requires
            self.wf(),
        ensures
            match r {
                Some(v) => seq_get(self@, key) == Some(*v),
                None => seq_get(self@, key) is None,
            },
    {
        match self.get_entry(key) {
            Some((_, v)) => Some(v),
            None => None,
        }
    }

    /// The key and value stored under `key`, borrowed from the tree.
    pub(crate) fn get_entry(&self, key: u64) -> (r: Option<(&u64, &V)>)
        requires
            self.wf(),
        ensures
            match r {
                Some((k, v)) => *k == key && seq_get(self@, key) == Some(*v),
                None => seq_get(self@, key) is None,
            },
    {
        proof {
            self.lemma_view();
            lemma_unwrap_get(seq_of(self.root), key);
        }
        match get_in(&self.root, key) {
            Some((k, slot)) => match slot.as_ref() {
                Some(v) => Some((k, v)),
                None => None,
            },
            None => None,
        }
    }

    /// Mutable access to the value stored under `key`; whatever is written
    /// through it replaces that value, and nothing else changes.
    pub fn get_mut(&mut self, key: u64) -> (r: Option<&mut V>)
        requires
            old(self).wf(),
        ensures
            match r {
                Some(v) => {
                    &&& seq_get(old(self)@, key) == Some(*v)
                    &&& final(self)@ == seq_insert(old(self)@, key, *final(v))
                },
                None => seq_get(old(self)@, key) is None && *final(self) == *old(self),
            },
            final(self).wf(),
    {
        match self.get_entry_mut(key) {
            Some((_, v)) => Some(v),
            None => None,
        }
    }

    /// The stored key and mutable access to the value stored under `key`.
    pub(crate) fn get_entry_mut(&mut self, key: u64) -> (r: Option<(&u64, &mut V)>)
        requires
            old(self).wf(),
        ensures
            match r {
                Some((k, v)) => {
                    &&& *k == key
                    &&& seq_get(old(self)@, key) == Some(*v)
                    &&& final(self)@ == seq_insert(old(self)@, key, *final(v))
                },
                None => seq_get(old(self)@, key) is None && *final(self) == *old(self),
            },
            final(self).wf(),
    {
        let ghost s = seq_of(self.root);
        proof {
            self.lemma_view();
            lemma_unwrap_get(s, key);
            assert forall|v: V| #[trigger] seq_insert(s, key, Some(v)) == seq_insert(s, key, Some(v))
                && unwrap_all(seq_insert(s, key, Some(v))) == seq_insert(unwrap_all(s), key, v)
                && filled(seq_insert(s, key, Some(v))) && sorted(seq_insert(unwrap_all(s), key, v))
                && sorted(seq_insert(s, key, Some(v))) by {
                lemma_unwrap_insert(s, key, v);
                crate::model::lemma_insert_sorted(unwrap_all(s), key, v, -1);
                lemma_unwrap_keys(seq_insert(s, key, Some(v)));
            }
        }
        match get_mut_in(&mut self.root, key) {
            Some((k, slot)) => match slot.as_mut() {
                Some(v) => Some((k, v)),
                None => None,
            },
            None => None,
        }
    }

    /// The key and mutable access to the value of every entry, in key order.
    /// Whatever is written through the references becomes the tree's values;
    /// keys, order and shape stay.
    pub(crate) fn entries_mut(&mut self) -> (r: Vec<(&u64, &mut V)>)
        requires
            old(self).wf(),
        ensures
            r@.len() == old(self)@.len(),
            forall|i: int|
                0 <= i < r@.len() ==> (*(#[trigger] r@[i]).0, *r@[i].1) == old(self)@[i],
            final(self)@.len() == old(self)@.len(),
            forall|i: int|
                0 <= i < r@.len() ==> #[trigger] final(self)@[i] == (
                    old(self)@[i].0,
                    *final(r@[i].1),
                ),
            final(self).wf(),
    {
        let ghost s = seq_of(self.root);
        proof {
            self.lemma_view();
        }
        let mut out: Vec<(&u64, &mut V)> = Vec::new();
        let ghost o0: int = out@.len() as int;
        collect_mut(&mut self.root, &mut out);
        proof {
            assert forall|i: int| 0 <= i < out@.len() implies (*(#[trigger] out@[i]).0, *out@[i].1)
                == old(self)@[i] by {
                assert(o0 + i == i);
                assert(*out@[o0 + i].0 == s[i].0 && *out@[o0 + i].1 == s[i].1->0);
                assert(old(self)@[i] == (s[i].0, s[i].1->0));
            }
        }
        out
    }

    /// The smallest key at or above `key` (strictly above unless
    /// `inclusive`).
    pub(crate) fn key_above(&self, key: u64, inclusive: bool) -> (r: Option<u64>)
        requires
            self.wf(),
        ensures
            ({
                let i = lower_index(self@, if inclusive { key as int } else { key + 1 });
                match r {
                    Some(x) => i < self@.len() && x == self@[i].0,
                    None => i == self@.len(),
                }
            }),
    {
        proof {
            self.lemma_view();
        }
        let r = above_in(&self.root, key, inclusive);
        proof {
            let b = if inclusive { key as int } else { key + 1 };
            let i = lower_index(seq_of(self.root), b);
            crate::model::lemma_lower_bounds(seq_of(self.root), b);
            assert(lower_index(self@, b) == i);
            if i < self@.len() {
                assert(self@[i].0 == seq_of(self.root)[i].0);
            }
        }
        r
    }

    /// The largest key below `key` (at or below it when `inclusive`).
    pub(crate) fn key_below(&self, key: u64, inclusive: bool) -> (r: Option<u64>)
        requires
            self.wf(),
        ensures
            ({
                let i = lower_index(self@, if inclusive { key + 1 } else { key as int });
                match r {
                    Some(x) => i > 0 && x == self@[i - 1].0,
                    None => i == 0,
                }
            }),
    {
        proof {
            self.lemma_view();
        }
        let r = below_in(&self.root, key, inclusive);
        proof {
            let b = if inclusive { key + 1 } else { key as int };
            let i = lower_index(seq_of(self.root), b);
            crate::model::lemma_lower_bounds(seq_of(self.root), b);
            assert(lower_index(self@, b) == i);
            if i > 0 {
                assert(self@[i - 1].0 == seq_of(self.root)[i - 1].0);
            }
        }
        r
    }

    /// Links `node` into the tree. A node already holding its key is
    /// replaced, taking no part in the tree any more, and handed back.
    pub fn insert(&mut self, node: RBTreeNode<V>) -> (r: Option<RBTreeNode<V>>)
        requires
            old(self).wf(),
        ensures
            final(self)@ == seq_insert(old(self)@, node@.0, node@.1),
            final(self).wf(),
            match r {
                Some(o) => o@.0 == node@.0 && seq_get(old(self)@, node@.0) == Some(o@.1),
                None => seq_get(old(self)@, node@.0) is None,
            },
    {
        proof {
            use_type_invariant(&node);
            self.lemma_view();
        }
        let ghost k = node@.0;
        let ghost v = node@.1;
        let root = self.root.take();
        proof {
            lemma_unwrap_insert(seq_of(root), k, v);
            lemma_unwrap_get(seq_of(root), k);
            crate::model::lemma_insert_sorted(unwrap_all(seq_of(root)), k, v, -1);
            lemma_unwrap_keys(seq_insert(seq_of(root), k, Some(v)));
        }
        let (t, displaced) = insert_in(root, node.node);
        let t = paint(t, false);
        self.root = Some(t);
        match displaced {
            Some(o) => Some(RBTreeNode { node: o }),
            None => None,
        }
    }

    /// Allocates a node for `key` and `value` and inserts it; on failure the
    /// tree is left as it was.
    pub fn try_create_and_insert(&mut self, key: u64, value: V) -> (r: Result<
        Option<RBTreeNode<V>>,
        AllocError,
    >)
        requires
            old(self).wf(),
        ensures
            match r {
                Ok(d) => {
                    &&& final(self)@ == seq_insert(old(self)@, key, value)
                    &&& match d {
                        Some(o) => o@.0 == key && seq_get(old(self)@, key) == Some(o@.1),
                        None => seq_get(old(self)@, key) is None,
                    }
                },
                Err(_) => *final(self) == *old(self),
            },
            r is Ok,
            final(self).wf(),
    {
        match RBTreeNode::new(key, value) {
            Ok(node) => Ok(self.insert(node)),
            Err(e) => Err(e),
        }
    }

    /// Detaches the node holding `key` and hands it back.
    pub fn remove_node(&mut self, key: u64) -> (r: Option<RBTreeNode<V>>)
        requires
            old(self).wf(),
        ensures
            final(self)@ == seq_remove(old(self)@, key),
            final(self).wf(),
            match r {
                Some(o) => o@.0 == key && seq_get(old(self)@, key) == Some(o@.1),
                None => seq_get(old(self)@, key) is None,
            },
    {
        proof {
            self.lemma_view();
        }
        let root = self.root.take();
        let (t, removed) = remove_in(root, key);
        self.root = match t {
            Some(b) => Some(paint(b, false)),
            None => None,
        };
        proof {
            lemma_unwrap_remove(seq_of(root), key);
            lemma_unwrap_get(seq_of(root), key);
            crate::model::lemma_remove_sorted(unwrap_all(seq_of(root)), key, -1);
            lemma_unwrap_keys(seq_remove(seq_of(root), key));
            if t is Some {
                assert(nearly_red_black(t));
            }
        }
        match removed {
            Some(o) => Some(RBTreeNode { node: o }),
            None => None,
        }
    }

    /// Removes the entry with `key` and gives back its value.
    pub fn remove(&mut self, key: u64) -> (r: Option<V>)
        requires
            old(self).wf(),
        ensures
            final(self)@ == seq_remove(old(self)@, key),
            final(self).wf(),
            r == seq_get(old(self)@, key),
    {
        match self.remove_node(key) {
            Some(n) => Some(n.to_key_value().1),
            None => None,
        }
    }
}

impl<V> Default for RBTree<V> {
    fn default() -> (r: Self)
        ensures
            r@ == Seq::<(u64, V)>::empty(),
            r.wf(),
    {
        RBTree::new()
    }
}

/// Storage for one node, allocated ahead of the insertion that will use it
/// so that the insertion itself allocates nothing and cannot fail.
pub struct RBTreeNodeReservation<V> {
    node: Box<Node<V>>,
}

impl<V> RBTreeNodeReservation<V> {
    /// Allocates storage for one node. The global allocator aborts rather
    /// than report failure, so this always succeeds.
    pub fn new() -> (r: Result<RBTreeNodeReservation<V>, AllocError>)
        ensures
            r is Ok,
    {
        Ok(RBTreeNodeReservation {
            node: Box::new(Node { key: 0, value: None, red: true, left: None, right: None }),
        })
    }

    /// Writes `key` and `value` into the reserved storage, making a node;
    /// this allocates nothing and cannot fail.
    pub fn into_node(self, key: u64, value: V) -> (r: RBTreeNode<V>)
        ensures
            r@ == (key, value),
    {
        let mut node = self.node;
        node.key = key;
        node.value = Some(value);
        node.red = true;
        node.left = None;
        node.right = None;
        RBTreeNode { node }
    }
}

/// A node that belongs to no tree, holding one key and its value.
pub struct RBTreeNode<V> {
    node: Box<Node<V>>,
}

impl<V> View for RBTreeNode<V> {
    type V = (u64, V);

    closed spec fn view(&self) -> (u64, V) {
        (self.node.key, self.node.value->0)
    }
}

impl<V> RBTreeNode<V> {
    /// A detached node always holds a value.
    #[verifier::type_invariant]
    spec fn holds_value(self) -> bool {
        self.node.value is Some
    }

    /// A node for `key` and `value`, from a fresh reservation.
    pub fn new(key: u64, value: V) -> (r: Result<RBTreeNode<V>, AllocError>)
        ensures
            r matches Ok(n) ==> n@ == (key, value),
            r is Ok,
    {
        match RBTreeNodeReservation::new() {
            Ok(res) => Ok(res.into_node(key, value)),
            Err(e) => Err(e),
        }
    }

    /// The key and value, taken out of the node.
    pub fn to_key_value(self) -> (r: (u64, V))
        ensures
            r == self@,
    {
        proof {
            use_type_invariant(&self);
        }
        let n = *self.node;
        (n.key, n.value.unwrap())
    }

    /// Drops the key and value and keeps the node's storage for another
    /// entry.
    pub fn into_reservation(self) -> (r: RBTreeNodeReservation<V>) {
        let mut node = self.node;
        node.value = None;
        node.left = None;
        node.right = None;
        RBTreeNodeReservation { node }
    }
}

} // verus!
