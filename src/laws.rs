//! Laws that relate the map operations to one another, stated over the
//! entry sequence that every operation's contract speaks of.
use vstd::prelude::*;

use crate::cursor::Cursor;
use crate::iter::Iter;
use crate::model::{
    lemma_get_none, lemma_insert_sorted, lemma_remove_absent, lemma_remove_sorted, seq_get,
    seq_insert, seq_remove, sorted,
};

verus! {

/// After inserting `(k, v)`, looking up `k` gives `v`, and every other key
/// looks up as before.
pub proof fn lemma_get_after_insert<V>(s: Seq<(u64, V)>, k: u64, v: V, k2: u64)
    ensures
        seq_get(seq_insert(s, k, v), k2) == if k2 == k {
            Some(v)
        } else {
            seq_get(s, k2)
        },
    decreases s.len(),
{
    let t = seq_insert(s, k, v);
    if s.len() == 0 {
        assert(t[0] == (k, v));
        assert(t.drop_first() =~= Seq::<(u64, V)>::empty());
        assert(seq_get(t.drop_first(), k2) is None);
    } else if k < s[0].0 {
        assert(t[0] == (k, v));
        assert(t.drop_first() =~= s);
    } else if k == s[0].0 {
        assert(t[0] == (k, v));
        assert(t.drop_first() =~= s.drop_first());
    } else {
        assert(t[0] == s[0]);
        assert(t.drop_first() =~= seq_insert(s.drop_first(), k, v));
        lemma_get_after_insert(s.drop_first(), k, v, k2);
    }
}

/// Inserting `(k, v2)` over `(k, v1)` leaves `v2` under `k`, and the
/// insertion reports `v1` as displaced.
pub proof fn lemma_insert_overwrites<V>(s: Seq<(u64, V)>, k: u64, v1: V, v2: V)
    requires
        sorted(s),
    ensures
        seq_get(seq_insert(s, k, v1), k) == Some(v1),
        sorted(seq_insert(s, k, v1)),
        seq_get(seq_insert(seq_insert(s, k, v1), k, v2), k) == Some(v2),
{
    lemma_get_after_insert(s, k, v1, k);
    lemma_insert_sorted(s, k, v1, -1);
    lemma_get_after_insert(seq_insert(s, k, v1), k, v2, k);
}

/// After removing `k`, looking it up finds nothing, and every other key
/// looks up as before.
pub proof fn lemma_get_after_remove<V>(s: Seq<(u64, V)>, k: u64, k2: u64)
    ensures
        seq_get(seq_remove(s, k), k2) == if k2 == k {
            None
        } else {
            seq_get(s, k2)
        },
    decreases s.len(),
{
    if s.len() > 0 {
        lemma_get_after_remove(s.drop_first(), k, k2);
        if s[0].0 != k {
            let t = seq_remove(s, k);
            assert(t.drop_first() =~= seq_remove(s.drop_first(), k));
        }
    }
}

/// Removing a key the map does not hold changes nothing.
pub proof fn lemma_remove_absent_unchanged<V>(s: Seq<(u64, V)>, k: u64)
    requires
        seq_get(s, k) is None,
    ensures
        seq_remove(s, k) == s,
{
    lemma_get_none(s, k);
    lemma_remove_absent(s, k);
}

/// A node inserted, removed, refilled with another key and value and
/// inserted again: the second key then looks up to the second value, and
/// the tree stays sorted throughout.
pub proof fn lemma_reuse_round_trip<V>(s: Seq<(u64, V)>, k: u64, v: V, k2: u64, v2: V)
    requires
        sorted(s),
    ensures
        sorted(seq_insert(s, k, v)),
        seq_get(seq_insert(s, k, v), k) == Some(v),
        sorted(seq_remove(seq_insert(s, k, v), k)),
        sorted(seq_insert(seq_remove(seq_insert(s, k, v), k), k2, v2)),
        seq_get(seq_insert(seq_remove(seq_insert(s, k, v), k), k2, v2), k2) == Some(v2),
{
    let t = seq_insert(s, k, v);
    lemma_insert_sorted(s, k, v, -1);
    lemma_get_after_insert(s, k, v, k);
    lemma_remove_sorted(t, k, -1);
    lemma_insert_sorted(seq_remove(t, k), k2, v2, -1);
    lemma_get_after_insert(seq_remove(t, k), k2, v2, k2);
}

/// A cursor walked forward from the front visits the entries in the order
/// an iterator yields them. Both start at position 0 (`cursor_front`,
/// `RBTree::iter`) and step to the next position (`move_next`,
/// `Iter::next`); at a shared position the cursor's entry is the one the
/// iterator yields next, and the cursor's last step comes exactly where the
/// iterator has one entry left, so both end after the same count.
pub proof fn lemma_cursor_walk_matches_iter<V>(c: Cursor<'_, V>, it: Iter<'_, V>)
    requires
        c.wf(),
        it.wf(),
        c.entries() == it.entries(),
        c.index() == it.pos(),
    ensures
        it.pos() < it.entries().len(),
        c.entries()[c.index()] == it.entries()[it.pos()],
        (c.index() + 1 == c.entries().len()) <==> (it.pos() + 1 == it.entries().len()),
{
    c.lemma_index();
    it.lemma_pos();
}

/// A whole walk: a cursor taken at the front and moved on with `move_next`
/// until it is given up, beside an iterator from `RBTree::iter` advanced
/// with `Iter::next` until it yields nothing. Each hypothesis is what those
/// functions promise at one step; together they give that the cursor's
/// `i`-th position holds the `i`-th entry the iterator yields, and that both
/// walks end after as many steps as the tree has entries.
pub proof fn lemma_cursor_walk_is_iteration<V>(
    s: Seq<(u64, V)>,
    cs: Seq<Cursor<'_, V>>,
    its: Seq<Iter<'_, V>>,
)
    requires
        cs.len() > 0,
        forall|i: int| 0 <= i < cs.len() ==> (#[trigger] cs[i]).wf() && cs[i].entries() == s,
        cs[0].index() == 0,
        forall|i: int| 0 < i < cs.len() ==> (#[trigger] cs[i]).index() == cs[i - 1].index() + 1,
        cs[cs.len() - 1].index() == s.len() - 1,
        its.len() > 0,
        forall|i: int| 0 <= i < its.len() ==> (#[trigger] its[i]).wf() && its[i].entries() == s,
        its[0].pos() == 0,
        forall|i: int| 0 < i < its.len() ==> (#[trigger] its[i]).pos() == its[i - 1].pos() + 1,
        its[its.len() - 1].pos() == s.len(),
    ensures
        cs.len() == s.len(),
        its.len() == s.len() + 1,
        forall|i: int|
            0 <= i < cs.len() ==> (#[trigger] cs[i]).entries()[cs[i].index()] == s[i] && its[i].pos()
                == i && its[i].entries()[its[i].pos()] == s[i],
{
    lemma_cursor_steps(cs, cs.len() - 1);
    lemma_iter_steps(its, its.len() - 1);
    assert forall|i: int| 0 <= i < cs.len() implies (#[trigger] cs[i]).index() == i by {
        lemma_cursor_steps(cs, i);
    }
    assert forall|i: int| 0 <= i < its.len() implies (#[trigger] its[i]).pos() == i by {
        lemma_iter_steps(its, i);
    }
    assert(cs[cs.len() - 1].index() == cs.len() - 1);
    assert(its[its.len() - 1].pos() == its.len() - 1);
}

proof fn lemma_cursor_steps<V>(cs: Seq<Cursor<'_, V>>, k: int)
    requires
        0 <= k < cs.len(),
        cs[0].index() == 0,
        forall|i: int| 0 < i < cs.len() ==> (#[trigger] cs[i]).index() == cs[i - 1].index() + 1,
    ensures
        cs[k].index() == k,
    decreases k,
{
    if k > 0 {
        lemma_cursor_steps(cs, k - 1);
    }
}

proof fn lemma_iter_steps<V>(its: Seq<Iter<'_, V>>, k: int)
    requires
        0 <= k < its.len(),
        its[0].pos() == 0,
        forall|i: int| 0 < i < its.len() ==> (#[trigger] its[i]).pos() == its[i - 1].pos() + 1,
    ensures
        its[k].pos() == k,
    decreases k,
{
    if k > 0 {
        lemma_iter_steps(its, k - 1);
    }
}

} // verus!
