//! An ordered map from `u64` keys to values, kept as a red-black tree.
//!
//! Nodes move between the tree and its caller by value: removal hands a node
//! back, and a node can be emptied into a reservation and refilled. Cursors
//! move both ways over the entries and remove them; the entry protocol looks
//! a key up once and then reads, changes, removes or inserts.
//!
//! Every operation is specified over the tree's view, the sequence of its
//! entries in ascending key order (see `model`).
pub mod cursor;
pub mod entry;
pub mod iter;
pub mod laws;
pub mod model;
mod node;
pub mod tree;

pub use cursor::Cursor;
pub use entry::{Entry, OccupiedEntry, VacantEntry};
pub use iter::{Iter, IterMut};
pub use tree::{AllocError, RBTree, RBTreeNode, RBTreeNodeReservation};
