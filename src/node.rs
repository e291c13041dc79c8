//! Tree nodes and the recursive algorithms on links: lookup, insertion with
//! red-black rebalancing, and the neighbour searches that cursors use.
use vstd::prelude::*;

use crate::model::{
    all_above, all_below, lemma_get_split, lemma_insert_split, lemma_insert_split_all, lemma_remove_split, lemma_sorted_split,
    lemma_lower_bounds, lemma_lower_split, lemma_regroup, lower_index, seq_get, seq_remove,
    seq_insert, sorted,
};

verus! {

/// One entry of the tree, with its links and its colour. The value slot is
/// empty only while the node's storage waits in a reservation; every node in
/// a tree holds a value.
pub(crate) struct Node<V> {
    pub(crate) key: u64,
    pub(crate) value: Option<V>,
    pub(crate) red: bool,
    pub(crate) left: Link<V>,
    pub(crate) right: Link<V>,
}

/// An owning link to a subtree; `None` is an empty subtree.
pub(crate) type Link<V> = Option<Box<Node<V>>>;

/// The entries of a subtree in order: left subtree, the node, right subtree.
pub(crate) open spec fn seq_of<V>(l: Link<V>) -> Seq<(u64, Option<V>)>
    decreases l,
{
    match l {
        None => Seq::empty(),
        Some(n) => seq_of(n.left) + seq![(n.key, n.value)] + seq_of(n.right),
    }
}

pub(crate) open spec fn is_red<V>(l: Link<V>) -> bool {
    match l {
        None => false,
        Some(n) => n.red,
    }
}

/// Number of black nodes on the leftmost path down from `l`.
pub(crate) open spec fn black_height<V>(l: Link<V>) -> nat
    decreases l,
{
    match l {
        None => 0,
        Some(n) => black_height(n.left) + if n.red {
            0nat
        } else {
            1nat
        },
    }
}

/// No red node has a red child, and every path down to an empty link meets
/// the same number of black nodes.
pub(crate) open spec fn red_black<V>(l: Link<V>) -> bool
    decreases l,
{
    match l {
        None => true,
        Some(n) => red_black(n.left) && red_black(n.right) && black_height(n.left)
            == black_height(n.right) && (n.red ==> !is_red(n.left) && !is_red(n.right)),
    }
}

/// The red-black rules hold below the top node, which may be red with a red
/// child.
pub(crate) open spec fn nearly_red_black<V>(l: Link<V>) -> bool {
    match l {
        None => true,
        Some(n) => red_black(n.left) && red_black(n.right) && black_height(n.left)
            == black_height(n.right),
    }
}

/// The entries with their values taken out of the slots.
pub(crate) open spec fn unwrap_all<V>(s: Seq<(u64, Option<V>)>) -> Seq<(u64, V)> {
    s.map_values(|e: (u64, Option<V>)| (e.0, e.1->0))
}

/// Every slot holds a value.
pub(crate) open spec fn filled<V>(s: Seq<(u64, Option<V>)>) -> bool {
    forall|i: int| 0 <= i < s.len() ==> (#[trigger] s[i]).1 is Some
}

pub(crate) proof fn lemma_unwrap_first<V>(s: Seq<(u64, Option<V>)>)
    requires
        s.len() > 0,
    ensures
        unwrap_all(s).drop_first() == unwrap_all(s.drop_first()),
        unwrap_all(s)[0] == (s[0].0, s[0].1->0),
        filled(s) ==> filled(s.drop_first()),
{
    assert(unwrap_all(s).drop_first() =~= unwrap_all(s.drop_first()));
    if filled(s) {
        assert forall|i: int| 0 <= i < s.len() - 1 implies (#[trigger] s.drop_first()[i]).1 is Some by {
            assert(s.drop_first()[i] == s[i + 1]);
        }
    }
}

/// Taking the values out keeps the keys, so the order too.
pub(crate) proof fn lemma_unwrap_keys<V>(s: Seq<(u64, Option<V>)>)
    ensures
        unwrap_all(s).len() == s.len(),
        forall|i: int| 0 <= i < s.len() ==> (#[trigger] unwrap_all(s)[i]).0 == s[i].0,
        sorted(unwrap_all(s)) == sorted(s),
        forall|k: int| lower_index(unwrap_all(s), k) == #[trigger] lower_index(s, k),
{
    let u = unwrap_all(s);
    assert forall|i: int| 0 <= i < s.len() implies (#[trigger] u[i]).0 == s[i].0 by {}
    if sorted(s) {
        assert forall|i: int, j: int| 0 <= i < j < u.len() implies u[i].0 < u[j].0 by {
            assert(s[i].0 < s[j].0);
        }
    }
    if sorted(u) {
        assert forall|i: int, j: int| 0 <= i < j < s.len() implies s[i].0 < s[j].0 by {
            assert(u[i].0 < u[j].0);
        }
    }
    assert forall|k: int| lower_index(unwrap_all(s), k) == #[trigger] lower_index(s, k) by {
        lemma_unwrap_lower(s, k);
    }
}

proof fn lemma_unwrap_lower<V>(s: Seq<(u64, Option<V>)>, k: int)
    ensures
        lower_index(unwrap_all(s), k) == lower_index(s, k),
    decreases s.len(),
{
    if s.len() > 0 {
        lemma_unwrap_first(s);
        lemma_unwrap_lower(s.drop_first(), k);
    }
}

/// Lookup through the slots of a filled sequence.
pub(crate) proof fn lemma_unwrap_get<V>(s: Seq<(u64, Option<V>)>, k: u64)
    requires
        filled(s),
    ensures
        seq_get(unwrap_all(s), k) == match seq_get(s, k) {
            Some(o) => Some(o->0),
            None => None,
        },
        seq_get(s, k) matches Some(o) ==> o is Some,
    decreases s.len(),
{
    if s.len() > 0 {
        lemma_unwrap_first(s);
        assert(s[0].1 is Some);
        lemma_unwrap_get(s.drop_first(), k);
    }
}

/// Insertion of a filled slot commutes with taking the values out.
pub(crate) proof fn lemma_unwrap_insert<V>(s: Seq<(u64, Option<V>)>, k: u64, v: V)
    requires
        filled(s),
    ensures
        unwrap_all(seq_insert(s, k, Some(v))) == seq_insert(unwrap_all(s), k, v),
        filled(seq_insert(s, k, Some(v))),
    decreases s.len(),
{
    let t = seq_insert(s, k, Some(v));
    if s.len() == 0 {
        assert(unwrap_all(t) =~= seq![(k, v)]);
    } else {
        lemma_unwrap_first(s);
        let u = unwrap_all(s);
        assert(s[0].1 is Some);
        if k < s[0].0 {
            assert(unwrap_all(t) =~= seq![(k, v)] + u);
        } else if k == s[0].0 {
            assert(unwrap_all(t) =~= seq![(k, v)] + u.drop_first());
        } else {
            lemma_unwrap_insert(s.drop_first(), k, v);
            assert(unwrap_all(t) =~= seq![u[0]] + seq_insert(u.drop_first(), k, v));
        }
        assert forall|i: int| 0 <= i < t.len() implies (#[trigger] t[i]).1 is Some by {
            if k > s[0].0 && i > 0 {
                assert(t[i] == seq_insert(s.drop_first(), k, Some(v))[i - 1]);
            } else if k < s[0].0 && i > 0 {
                assert(t[i] == s[i - 1]);
            } else if k == s[0].0 && i > 0 {
                assert(t[i] == s[i]);
            }
        }
    }
}

/// Removal commutes with taking the values out.
pub(crate) proof fn lemma_unwrap_remove<V>(s: Seq<(u64, Option<V>)>, k: u64)
    requires
        filled(s),
    ensures
        unwrap_all(seq_remove(s, k)) == seq_remove(unwrap_all(s), k),
        filled(seq_remove(s, k)),
    decreases s.len(),
{
    let t = seq_remove(s, k);
    if s.len() == 0 {
        assert(unwrap_all(t) =~= unwrap_all(s));
    } else {
        lemma_unwrap_first(s);
        let u = unwrap_all(s);
        lemma_unwrap_remove(s.drop_first(), k);
        if s[0].0 != k {
            assert(unwrap_all(t) =~= seq![u[0]] + seq_remove(u.drop_first(), k));
            assert forall|i: int| 0 <= i < t.len() implies (#[trigger] t[i]).1 is Some by {
                if i > 0 {
                    assert(t[i] == seq_remove(s.drop_first(), k)[i - 1]);
                }
            }
        }
    }
}

pub(crate) proof fn lemma_seq_len<V>(l: Link<V>)
    ensures
        (seq_of(l).len() == 0) <==> l is None,
{
    if let Some(n) = l {
        assert(seq_of(l).len() == seq_of(n.left).len() + 1 + seq_of(n.right).len());
    }
}

/// A node's own entry, and the order facts that sortedness of its subtree
/// gives about its two children.
pub(crate) proof fn lemma_node_sorted<V>(n: Box<Node<V>>)
    requires
        sorted(seq_of(Some(n))),
    ensures
        sorted(seq_of(n.left)),
        sorted(seq_of(n.right)),
        all_below(seq_of(n.left), n.key),
        all_above(seq_of(n.right), n.key),
{
    lemma_sorted_split(seq_of(n.left), (n.key, n.value), seq_of(n.right));
}

/// Looks `k` up in a sorted subtree, giving the stored key and value.
pub(crate) fn get_in<'a, V>(l: &'a Link<V>, k: u64) -> (r: Option<(&'a u64, &'a Option<V>)>)
    requires
        sorted(seq_of(*l)),
    ensures
        match r {
            Some((kr, vr)) => *kr == k && seq_get(seq_of(*l), k) == Some(*vr),
            None => seq_get(seq_of(*l), k) is None,
        },
    decreases *l,
{
    match l {
        None => None,
        Some(n) => {
            proof {
                lemma_node_sorted(*n);
                lemma_get_split(seq_of(n.left), (n.key, n.value), seq_of(n.right), k);
            }
            if k < n.key {
                get_in(&n.left, k)
            } else if k > n.key {
                get_in(&n.right, k)
            } else {
                Some((&n.key, &n.value))
            }
        }
    }
}

/// Restores the red-black rules after the left child of a black node grew:
/// a red child with a red child of its own is rotated up and recoloured.
fn fix_left<V>(b: Box<Node<V>>) -> (r: Box<Node<V>>)
    ensures
        seq_of(Some(r)) == seq_of(Some(b)),
        nearly_red_black(b.left) && red_black(b.right) && black_height(b.left) == black_height(
            b.right,
        ) && (b.red ==> red_black(b.left)) ==> {
            &&& nearly_red_black(Some(r))
            &&& black_height(Some(r)) == black_height(Some(b))
            &&& !b.red ==> red_black(Some(r))
        },
{
    let mut b = b;
    if b.red {
        return b;
    }
    let ghost b0 = b;
    let ghost h = nearly_red_black(b.left) && red_black(b.right) && black_height(b.left)
        == black_height(b.right);
    let mut outer_left = false;
    let mut inner_left = false;
    if let Some(l) = &b.left {
        if l.red {
            outer_left = match &l.left {
                Some(ll) => ll.red,
                None => false,
            };
            inner_left = match &l.right {
                Some(lr) => lr.red,
                None => false,
            };
        }
    }
    if outer_left {
        let mut l = b.left.take().unwrap();
        let mut ll = l.left.take().unwrap();
        ll.red = false;
        b.left = l.right.take();
        b.red = false;
        l.left = Some(ll);
        l.right = Some(b);
        l.red = true;
        proof {
            let a = b0.left.unwrap();
            assert(seq_of(b0.left) == seq_of(a.left) + seq![(a.key, a.value)] + seq_of(a.right));
            assert(seq_of(Some(b)) == seq_of(a.right) + seq![(b0.key, b0.value)] + seq_of(
                b0.right,
            ));
            assert(seq_of(l.left) == seq_of(a.left));
            assert(seq_of(Some(b0)) =~= seq_of(a.left) + seq![(a.key, a.value)] + seq_of(a.right)
                + seq![(b0.key, b0.value)] + seq_of(b0.right));
            assert(seq_of(Some(l)) =~= seq_of(a.left) + seq![(a.key, a.value)] + seq_of(a.right)
                + seq![(b0.key, b0.value)] + seq_of(b0.right));
            assert(black_height(b0.left) == black_height(a.left));
            assert(black_height(l.left) == black_height(a.left) + 1);
            assert(black_height(l.right) == black_height(a.right) + 1);
            if h {
                assert(red_black(l.left));
                assert(red_black(l.right));
                assert(red_black(Some(l)));
            }
        }
        l
    } else if inner_left {
        let mut l = b.left.take().unwrap();
        let mut lr = l.right.take().unwrap();
        l.right = lr.left.take();
        l.red = false;
        b.left = lr.right.take();
        b.red = false;
        lr.left = Some(l);
        lr.right = Some(b);
        lr.red = true;
        proof {
            let a = b0.left.unwrap();
            let c = a.right.unwrap();
            assert(seq_of(a.right) == seq_of(c.left) + seq![(c.key, c.value)] + seq_of(c.right));
            assert(seq_of(b0.left) == seq_of(a.left) + seq![(a.key, a.value)] + seq_of(a.right));
            assert(seq_of(Some(b)) == seq_of(c.right) + seq![(b0.key, b0.value)] + seq_of(
                b0.right,
            ));
            assert(seq_of(Some(l)) == seq_of(a.left) + seq![(a.key, a.value)] + seq_of(c.left));
            assert(black_height(b0.left) == black_height(a.left));
            assert(black_height(a.right) == black_height(c.left));
            assert(black_height(Some(l)) == black_height(a.left) + 1);
            assert(black_height(Some(b)) == black_height(c.right) + 1);
            if h {
                assert(red_black(Some(l)));
                assert(red_black(Some(b)));
                assert(red_black(Some(lr)));
            }
            assert(seq_of(Some(b0)) =~= seq_of(a.left) + seq![(a.key, a.value)] + seq_of(c.left)
                + seq![(c.key, c.value)] + seq_of(c.right) + seq![(b0.key, b0.value)] + seq_of(
                b0.right,
            ));
            assert(seq_of(Some(lr)) =~= seq_of(a.left) + seq![(a.key, a.value)] + seq_of(c.left)
                + seq![(c.key, c.value)] + seq_of(c.right) + seq![(b0.key, b0.value)] + seq_of(
                b0.right,
            ));
        }
        lr
    } else {
        proof {
            if b.left is Some {
                let a = b.left.unwrap();
                if a.red {
                    assert(!is_red(a.left) && !is_red(a.right));
                }
                assert(nearly_red_black(b.left) ==> red_black(b.left));
            }
        }
        b
    }
}

/// Mirror image of `fix_left`, after the right child grew.
fn fix_right<V>(b: Box<Node<V>>) -> (r: Box<Node<V>>)
    ensures
        seq_of(Some(r)) == seq_of(Some(b)),
        nearly_red_black(b.right) && red_black(b.left) && black_height(b.left) == black_height(
            b.right,
        ) && (b.red ==> red_black(b.right)) ==> {
            &&& nearly_red_black(Some(r))
            &&& black_height(Some(r)) == black_height(Some(b))
            &&& !b.red ==> red_black(Some(r))
        },
{
    let mut b = b;
    if b.red {
        return b;
    }
    let ghost b0 = b;
    let ghost h = nearly_red_black(b.right) && red_black(b.left) && black_height(b.left)
        == black_height(b.right);
    let mut outer_right = false;
    let mut inner_right = false;
    if let Some(rt) = &b.right {
        if rt.red {
            outer_right = match &rt.right {
                Some(rr) => rr.red,
                None => false,
            };
            inner_right = match &rt.left {
                Some(rl) => rl.red,
                None => false,
            };
        }
    }
    if outer_right {
        let mut rt = b.right.take().unwrap();
        let mut rr = rt.right.take().unwrap();
        rr.red = false;
        b.right = rt.left.take();
        b.red = false;
        rt.right = Some(rr);
        rt.left = Some(b);
        rt.red = true;
        proof {
            let a = b0.right.unwrap();
            assert(seq_of(b0.right) == seq_of(a.left) + seq![(a.key, a.value)] + seq_of(a.right));
            assert(seq_of(Some(b)) == seq_of(b0.left) + seq![(b0.key, b0.value)] + seq_of(a.left));
            assert(seq_of(rt.right) == seq_of(a.right));
            assert(seq_of(Some(b0)) =~= seq_of(b0.left) + seq![(b0.key, b0.value)] + seq_of(a.left)
                + seq![(a.key, a.value)] + seq_of(a.right));
            assert(seq_of(Some(rt)) =~= seq_of(b0.left) + seq![(b0.key, b0.value)] + seq_of(a.left)
                + seq![(a.key, a.value)] + seq_of(a.right));
            assert(black_height(b0.right) == black_height(a.left));
            assert(black_height(rt.left) == black_height(b0.left) + 1);
            assert(black_height(rt.right) == black_height(a.right) + 1);
            if h {
                assert(red_black(rt.left));
                assert(red_black(rt.right));
                assert(red_black(Some(rt)));
            }
        }
        rt
    } else if inner_right {
        let mut rt = b.right.take().unwrap();
        let mut rl = rt.left.take().unwrap();
        rt.left = rl.right.take();
        rt.red = false;
        b.right = rl.left.take();
        b.red = false;
        rl.right = Some(rt);
        rl.left = Some(b);
        rl.red = true;
        proof {
            let a = b0.right.unwrap();
            let c = a.left.unwrap();
            assert(seq_of(a.left) == seq_of(c.left) + seq![(c.key, c.value)] + seq_of(c.right));
            assert(seq_of(b0.right) == seq_of(a.left) + seq![(a.key, a.value)] + seq_of(a.right));
            assert(seq_of(Some(b)) == seq_of(b0.left) + seq![(b0.key, b0.value)] + seq_of(c.left));
            assert(seq_of(Some(rt)) == seq_of(c.right) + seq![(a.key, a.value)] + seq_of(a.right));
            assert(black_height(b0.right) == black_height(a.left));
            assert(black_height(a.left) == black_height(c.left));
            assert(black_height(Some(rt)) == black_height(c.right) + 1);
            assert(black_height(Some(b)) == black_height(b0.left) + 1);
            if h {
                assert(red_black(Some(rt)));
                assert(red_black(Some(b)));
                assert(red_black(Some(rl)));
            }
            assert(seq_of(Some(b0)) =~= seq_of(b0.left) + seq![(b0.key, b0.value)] + seq_of(c.left)
                + seq![(c.key, c.value)] + seq_of(c.right) + seq![(a.key, a.value)] + seq_of(
                a.right,
            ));
            assert(seq_of(Some(rl)) =~= seq_of(b0.left) + seq![(b0.key, b0.value)] + seq_of(c.left)
                + seq![(c.key, c.value)] + seq_of(c.right) + seq![(a.key, a.value)] + seq_of(
                a.right,
            ));
        }
        rl
    } else {
        proof {
            if b.right is Some {
                let a = b.right.unwrap();
                if a.red {
                    assert(!is_red(a.left) && !is_red(a.right));
                }
                assert(nearly_red_black(b.right) ==> red_black(b.right));
            }
        }
        b
    }
}

/// Inserts the entry of `nb` into a sorted subtree, colouring a new node red
/// and rebalancing on the way back up. Where the key is already present,
/// `nb` takes the place, links and colour of the node that held it, and that
/// node is handed back.
pub(crate) fn insert_in<V>(l: Link<V>, nb: Box<Node<V>>) -> (r: (Box<Node<V>>, Link<V>))
    requires
        sorted(seq_of(l)),
    ensures
        seq_of(Some(r.0)) == seq_insert(seq_of(l), nb.key, nb.value),
        match r.1 {
            Some(o) => o.key == nb.key && seq_get(seq_of(l), nb.key) == Some(o.value),
            None => seq_get(seq_of(l), nb.key) is None,
        },
        red_black(l) ==> {
            &&& nearly_red_black(Some(r.0))
            &&& black_height(Some(r.0)) == black_height(l)
            &&& !is_red(l) ==> red_black(Some(r.0))
        },
    decreases l,
{
    let mut nb = nb;
    match l {
        None => {
            nb.red = true;
            nb.left = None;
            nb.right = None;
            proof {
                assert(seq_of(Some(nb)) =~= seq![(nb.key, nb.value)]);
            }
            (nb, None)
        },
        Some(b) => {
            let mut b = b;
            let ghost b0 = b;
            proof {
                lemma_node_sorted(b0);
                lemma_get_split(seq_of(b0.left), (b0.key, b0.value), seq_of(b0.right), nb.key);
                lemma_insert_split(
                    seq_of(b0.left),
                    (b0.key, b0.value),
                    seq_of(b0.right),
                    nb.key,
                    nb.value,
                );
            }
            if nb.key < b.key {
                let (c, old) = insert_in(b.left.take(), nb);
                b.left = Some(c);
                proof {
                    assert(seq_of(Some(b)) =~= seq_of(Some(c)) + seq![(b0.key, b0.value)] + seq_of(
                        b0.right,
                    ));
                }
                (fix_left(b), old)
            } else if nb.key > b.key {
                let (c, old) = insert_in(b.right.take(), nb);
                b.right = Some(c);
                proof {
                    assert(seq_of(Some(b)) =~= seq_of(b0.left) + seq![(b0.key, b0.value)] + seq_of(
                        Some(c),
                    ));
                    assert(seq_of(b0.left) + seq![(b0.key, b0.value)] + seq_of(Some(c))
                        =~= seq_of(b0.left) + seq![(b0.key, b0.value)] + seq_insert(
                        seq_of(b0.right),
                        nb.key,
                        nb.value,
                    ));
                }
                (fix_right(b), old)
            } else {
                nb.left = b.left.take();
                nb.right = b.right.take();
                nb.red = b.red;
                (nb, Some(b))
            }
        },
    }
}

/// Makes `x` the top of a subtree with the given children and colour.
fn join<V>(x: Box<Node<V>>, l: Link<V>, r: Link<V>, red: bool) -> (t: Box<Node<V>>)
    ensures
        seq_of(Some(t)) == seq_of(l) + seq![(x.key, x.value)] + seq_of(r),
        t.red == red,
        t.key == x.key,
        t.value == x.value,
        t.left == l,
        t.right == r,
{
    let mut x = x;
    x.left = l;
    x.right = r;
    x.red = red;
    x
}

/// Recolours the top of a non-empty subtree.
pub(crate) fn paint<V>(x: Box<Node<V>>, red: bool) -> (t: Box<Node<V>>)
    ensures
        seq_of(Some(t)) == seq_of(Some(x)),
        t.red == red,
        t.key == x.key,
        t.value == x.value,
        t.left == x.left,
        t.right == x.right,
{
    let mut x = x;
    x.red = red;
    x
}

fn red_at<V>(l: &Link<V>) -> (b: bool)
    ensures
        b == is_red(*l),
{
    match l {
        Some(n) => n.red,
        None => false,
    }
}

fn black_at<V>(l: &Link<V>) -> (b: bool)
    ensures
        b == (*l is Some && !is_red(*l)),
{
    match l {
        Some(n) => !n.red,
        None => false,
    }
}

/// Turns the top of a subtree red, as removal does to lower its black
/// height by one.
fn lighten<V>(l: Link<V>) -> (t: Link<V>)
    ensures
        seq_of(t) == seq_of(l),
        t is Some == l is Some,
        l is Some ==> {
            &&& t.unwrap().red
            &&& t.unwrap().left == l.unwrap().left
            &&& t.unwrap().right == l.unwrap().right
        },
{
    match l {
        Some(n) => Some(paint(n, true)),
        None => None,
    }
}

/// Builds `bl`, `x`, `r` where `bl` has just lost one black level.
fn balance_left<V>(bl: Link<V>, x: Box<Node<V>>, r: Link<V>) -> (t: Box<Node<V>>)
    ensures
        seq_of(Some(t)) == seq_of(bl) + seq![(x.key, x.value)] + seq_of(r),
        nearly_red_black(bl) && red_black(r) && black_height(bl) + 1 == black_height(r) ==> {
            &&& nearly_red_black(Some(t))
            &&& black_height(Some(t)) == black_height(r)
            &&& !is_red(r) ==> red_black(Some(t))
        },
{
    let ghost (sl, sx, sr) = (seq_of(bl), seq![(x.key, x.value)], seq_of(r));
    let ghost h = nearly_red_black(bl) && red_black(r) && black_height(bl) + 1 == black_height(r);
    let ghost r0 = r;
    if red_at(&bl) {
        let lb = paint(bl.unwrap(), false);
        let t = join(x, Some(lb), r, true);
        proof {
            if h {
                assert(red_black(Some(lb)));
                assert(black_height(Some(lb)) == black_height(bl) + 1);
            }
        }
        t
    } else if black_at(&r) {
        let rr = paint(r.unwrap(), true);
        proof {
            if h {
                assert(red_black(bl));
                assert(nearly_red_black(Some(rr)));
                assert(black_height(Some(rr)) + 1 == black_height(r));
            }
        }
        fix_right(join(x, bl, Some(rr), false))
    } else if red_at(&r) && black_at(&r.as_ref().unwrap().left) {
        let mut z = r.unwrap();
        let ghost z0 = z;
        let mut y = z.left.take().unwrap();
        let ghost y0 = y;
        let a = y.left.take();
        let b = y.right.take();
        let c = lighten(z.right.take());
        let ghost (sy, sz) = (seq![(y.key, y.value)], seq![(z.key, z.value)]);
        let xb = join(x, bl, a, false);
        let zj = join(z, b, c, false);
        proof {
            if h {
                assert(red_black(bl));
                assert(red_black(z0.left) && red_black(z0.right));
                assert(z0.left == Some(y0));
                assert(red_black(Some(y0)));
                assert(red_black(a) && red_black(b));
                let w = z0.right.unwrap();
                assert(z0.right == Some(w));
                assert(red_black(w.left) && red_black(w.right));
                assert(black_height(z0.left) == black_height(a) + 1);
                assert(black_height(z0.right) == black_height(z0.left));
                assert(z0.right is Some);
                assert(!is_red(z0.right));
                assert(black_height(c) + 1 == black_height(z0.right));
                assert(nearly_red_black(c));
                assert(red_black(b));
                assert(red_black(Some(xb)));
            }
        }
        let zb = fix_right(zj);
        let t = join(y, Some(xb), Some(zb), true);
        proof {
            if h {
                assert(red_black(Some(zb)));
                assert(black_height(Some(zb)) == black_height(b) + 1);
                assert(black_height(Some(xb)) == black_height(a) + 1);
                assert(black_height(a) == black_height(b));
                assert(nearly_red_black(Some(t)));
                assert(black_height(Some(t)) == black_height(r0));
            }
            assert(seq_of(z0.left) == seq_of(y0.left) + sy + seq_of(y0.right));
            assert(sr == seq_of(z0.left) + sz + seq_of(z0.right));
            assert(sr == (seq_of(a) + sy + seq_of(b)) + sz + seq_of(c));
            assert(seq_of(Some(t)) =~= sl + sx + sr);
        }
        t
    } else {
        proof {
            if h {
                assert(r is Some);
                assert(is_red(r));
                assert(black_height(r0.unwrap().left) == black_height(r));
                assert(false);
            }
        }
        join(x, bl, r, false)
    }
}

/// Builds `l`, `x`, `br` where `br` has just lost one black level.
fn balance_right<V>(l: Link<V>, x: Box<Node<V>>, br: Link<V>) -> (t: Box<Node<V>>)
    ensures
        seq_of(Some(t)) == seq_of(l) + seq![(x.key, x.value)] + seq_of(br),
        nearly_red_black(br) && red_black(l) && black_height(br) + 1 == black_height(l) ==> {
            &&& nearly_red_black(Some(t))
            &&& black_height(Some(t)) == black_height(l)
            &&& !is_red(l) ==> red_black(Some(t))
        },
{
    let ghost (sl, sx, sr) = (seq_of(l), seq![(x.key, x.value)], seq_of(br));
    let ghost h = nearly_red_black(br) && red_black(l) && black_height(br) + 1 == black_height(l);
    let ghost l0 = l;
    if red_at(&br) {
        let rb = paint(br.unwrap(), false);
        let t = join(x, l, Some(rb), true);
        proof {
            if h {
                assert(red_black(Some(rb)));
                assert(black_height(Some(rb)) == black_height(br) + 1);
            }
        }
        t
    } else if black_at(&l) {
        let ll = paint(l.unwrap(), true);
        proof {
            if h {
                assert(red_black(br));
                assert(nearly_red_black(Some(ll)));
                assert(black_height(Some(ll)) + 1 == black_height(l));
            }
        }
        fix_left(join(x, Some(ll), br, false))
    } else if red_at(&l) && black_at(&l.as_ref().unwrap().right) {
        let mut y = l.unwrap();
        let ghost y0 = y;
        let mut z = y.right.take().unwrap();
        let ghost z0 = z;
        let a = lighten(y.left.take());
        let b = z.left.take();
        let c = z.right.take();
        let ghost (sy, sz) = (seq![(y.key, y.value)], seq![(z.key, z.value)]);
        let yj = join(y, a, b, false);
        let xb = join(x, c, br, false);
        proof {
            if h {
                assert(red_black(br));
                assert(red_black(y0.left) && red_black(y0.right));
                assert(y0.right == Some(z0));
                assert(red_black(Some(z0)));
                assert(red_black(b) && red_black(c));
                let w = y0.left.unwrap();
                assert(y0.left == Some(w));
                assert(red_black(w.left) && red_black(w.right));
                assert(black_height(y0.right) == black_height(c) + 1);
                assert(black_height(y0.left) == black_height(y0.right));
                assert(y0.left is Some);
                assert(!is_red(y0.left));
                assert(black_height(a) + 1 == black_height(y0.left));
                assert(nearly_red_black(a));
                assert(red_black(b));
                assert(red_black(Some(xb)));
            }
        }
        let yb = fix_left(yj);
        let t = join(z, Some(yb), Some(xb), true);
        proof {
            assert(seq_of(y0.right) == seq_of(z0.left) + sz + seq_of(z0.right));
            assert(sl == seq_of(y0.left) + sy + seq_of(y0.right));
            assert(sl == seq_of(a) + sy + (seq_of(b) + sz + seq_of(c)));
            assert(seq_of(Some(t)) =~= sl + sx + sr);
        }
        t
    } else {
        proof {
            if h {
                assert(l is Some);
                assert(is_red(l));
                assert(black_height(l0.unwrap().right) == black_height(l));
                assert(false);
            }
        }
        join(x, l, br, false)
    }
}

/// Joins two subtrees, every key of `a` below every key of `b`, into one.
fn fuse<V>(a: Link<V>, b: Link<V>) -> (t: Link<V>)
    ensures
        seq_of(t) == seq_of(a) + seq_of(b),
        red_black(a) && red_black(b) && black_height(a) == black_height(b) ==> {
            &&& nearly_red_black(t)
            &&& black_height(t) == black_height(a)
            &&& !is_red(a) && !is_red(b) ==> red_black(t)
        },
    decreases a, b,
{
    let ghost h = red_black(a) && red_black(b) && black_height(a) == black_height(b);
    let ghost (sa, sb) = (seq_of(a), seq_of(b));
    if a.is_none() {
        proof {
            assert(sa + sb =~= sb);
        }
        return b;
    }
    if b.is_none() {
        proof {
            assert(sa + sb =~= sa);
        }
        return a;
    }
    let mut x = a.unwrap();
    let mut y = b.unwrap();
    let ghost (sx, sy) = (seq![(x.key, x.value)], seq![(y.key, y.value)]);
    let ghost (x0, y0) = (x, y);
    proof {
        if h {
            assert(red_black(x0.left) && red_black(x0.right));
            assert(black_height(x0.left) == black_height(x0.right));
            assert(red_black(y0.left) && red_black(y0.right));
            assert(black_height(y0.left) == black_height(y0.right));
            assert(a == Some(x0) && b == Some(y0));
            assert(x0.red ==> !is_red(x0.left) && !is_red(x0.right));
            assert(y0.red ==> !is_red(y0.left) && !is_red(y0.right));
            assert(black_height(a) == black_height(x0.left) + if x0.red {
                0nat
            } else {
                1nat
            });
            assert(black_height(b) == black_height(y0.left) + if y0.red {
                0nat
            } else {
                1nat
            });
        }
    }
    if x.red == y.red {
        let both_red = y.red;
        let m = fuse(x.right.take(), y.left.take());
        let xl = x.left.take();
        let yr = y.right.take();
        if red_at(&m) {
            let mut z = m.unwrap();
            let ghost z0 = z;
            let m1 = z.left.take();
            let m2 = z.right.take();
            let xb = join(x, xl, m1, both_red);
            let yb = join(y, m2, yr, both_red);
            let t = join(z, Some(xb), Some(yb), true);
            proof {
                if h {
                    assert(nearly_red_black(m));
                    assert(m == Some(z0));
                    assert(red_black(m1) && red_black(m2));
                    assert(black_height(m) == black_height(x0.right));
                    assert(black_height(m1) == black_height(m) && black_height(m2) == black_height(m));
                    if both_red {
                        assert(red_black(m));
                        assert(!is_red(m1) && !is_red(m2));
                    }
                    assert(red_black(Some(xb)));
                    assert(red_black(Some(yb)));
                    assert(black_height(Some(xb)) == black_height(a));
                }
                assert(seq_of(Some(z0)) == seq_of(m1) + seq![(z0.key, z0.value)] + seq_of(m2));
                assert(sa == seq_of(xl) + sx + seq_of(x0.right));
                assert(sb == seq_of(y0.left) + sy + seq_of(yr));
                assert(seq_of(m) == seq_of(x0.right) + seq_of(y0.left));
                assert(seq_of(Some(xb)) == seq_of(xl) + sx + seq_of(m1));
                assert(seq_of(Some(yb)) == seq_of(m2) + sy + seq_of(yr));
                assert(seq_of(Some(t)) == seq_of(Some(xb)) + seq![(z0.key, z0.value)] + seq_of(
                    Some(yb),
                ));
                lemma_regroup(
                    seq_of(xl),
                    sx,
                    seq_of(x0.right),
                    seq![(z0.key, z0.value)],
                    seq_of(y0.left),
                    sy,
                    seq_of(yr),
                );
                lemma_regroup(
                    seq_of(xl),
                    sx,
                    seq_of(m1),
                    seq![(z0.key, z0.value)],
                    seq_of(m2),
                    sy,
                    seq_of(yr),
                );
            }
            Some(t)
        } else if both_red {
            let yb = join(y, m, yr, true);
            let t = join(x, xl, Some(yb), true);
            proof {
                if h {
                    assert(red_black(m));
                    assert(red_black(Some(yb)));
                    assert(black_height(Some(yb)) == black_height(xl));
                }
                assert(seq_of(Some(t)) =~= sa + sb);
            }
            Some(t)
        } else {
            let yb = join(y, m, yr, false);
            proof {
                if h {
                    assert(red_black(m));
                    assert(red_black(Some(yb)));
                    assert(nearly_red_black(xl));
                    assert(black_height(xl) + 1 == black_height(Some(yb)));
                }
            }
            let t = balance_left(xl, x, Some(yb));
            proof {
                assert(seq_of(Some(t)) =~= sa + sb);
            }
            Some(t)
        }
    } else if y.red {
        let yl = y.left.take();
        let yr = y.right.take();
        let m = fuse(Some(x), yl);
        let t = join(y, m, yr, true);
        proof {
            if h {
                assert(red_black(m));
                assert(black_height(m) == black_height(yr));
            }
            assert(seq_of(Some(t)) =~= sa + sb);
        }
        Some(t)
    } else {
        let xl = x.left.take();
        let xr = x.right.take();
        let m = fuse(xr, Some(y));
        let t = join(x, xl, m, true);
        proof {
            if h {
                assert(red_black(m));
                assert(black_height(m) == black_height(xl));
            }
            assert(seq_of(Some(t)) =~= sa + sb);
        }
        Some(t)
    }
}

/// Removes the entry with key `k` from a sorted subtree, rebalancing on the
/// way back up, and hands back the detached node with its links cleared.
pub(crate) fn remove_in<V>(l: Link<V>, k: u64) -> (r: (Link<V>, Link<V>))
    requires
        sorted(seq_of(l)),
    ensures
        seq_of(r.0) == seq_remove(seq_of(l), k),
        match r.1 {
            Some(o) => o.key == k && seq_get(seq_of(l), k) == Some(o.value) && o.left is None
                && o.right is None,
            None => seq_get(seq_of(l), k) is None,
        },
        red_black(l) ==> {
            &&& nearly_red_black(r.0)
            &&& is_red(l) ==> red_black(r.0) && black_height(r.0) == black_height(l)
            &&& l is Some && !is_red(l) ==> black_height(r.0) + 1 == black_height(l)
        },
    decreases l,
{
    match l {
        None => (None, None),
        Some(n) => {
            let mut n = n;
            let ghost n0 = n;
            let ghost h = red_black(l);
            proof {
                if h {
                    assert(red_black(n0.left) && red_black(n0.right));
                    assert(black_height(n0.left) == black_height(n0.right));
                    assert(n0.red ==> !is_red(n0.left) && !is_red(n0.right));
                    assert(black_height(l) == black_height(n0.left) + if n0.red {
                        0nat
                    } else {
                        1nat
                    });
                }
            }
            proof {
                lemma_node_sorted(n0);
                lemma_get_split(seq_of(n0.left), (n0.key, n0.value), seq_of(n0.right), k);
                lemma_remove_split(seq_of(n0.left), (n0.key, n0.value), seq_of(n0.right), k);
            }
            if k < n.key {
                let left_black = black_at(&n.left);
                let (c, o) = remove_in(n.left.take(), k);
                let rt = n.right.take();
                if left_black {
                    (Some(balance_left(c, n, rt)), o)
                } else {
                    (Some(join(n, c, rt, true)), o)
                }
            } else if k > n.key {
                let right_black = black_at(&n.right);
                let (c, o) = remove_in(n.right.take(), k);
                let lt = n.left.take();
                if right_black {
                    (Some(balance_right(lt, n, c)), o)
                } else {
                    (Some(join(n, lt, c, true)), o)
                }
            } else {
                let a = n.left.take();
                let b = n.right.take();
                (fuse(a, b), Some(n))
            }
        },
    }
}

/// The smallest key of a sorted subtree at or above `k` (strictly above it
/// unless `inclusive`).
pub(crate) fn above_in<V>(l: &Link<V>, k: u64, inclusive: bool) -> (r: Option<u64>)
    requires
        sorted(seq_of(*l)),
    ensures
        ({
            let s = seq_of(*l);
            let i = lower_index(s, if inclusive { k as int } else { k + 1 });
            match r {
                Some(x) => i < s.len() && x == s[i].0,
                None => i == s.len(),
            }
        }),
    decreases *l,
{
    match l {
        None => None,
        Some(n) => {
            let ghost b = if inclusive { k as int } else { k + 1 };
            proof {
                lemma_node_sorted(*n);
                lemma_lower_split(seq_of(n.left), (n.key, n.value), seq_of(n.right), b);
                lemma_lower_bounds(seq_of(n.left), b);
                lemma_lower_bounds(seq_of(n.right), b);
            }
            if (inclusive && k <= n.key) || (!inclusive && k < n.key) {
                match above_in(&n.left, k, inclusive) {
                    Some(x) => Some(x),
                    None => Some(n.key),
                }
            } else {
                above_in(&n.right, k, inclusive)
            }
        },
    }
}

/// The largest key of a sorted subtree below `k` (at or below it when
/// `inclusive`).
pub(crate) fn below_in<V>(l: &Link<V>, k: u64, inclusive: bool) -> (r: Option<u64>)
    requires
        sorted(seq_of(*l)),
    ensures
        ({
            let s = seq_of(*l);
            let i = lower_index(s, if inclusive { k + 1 } else { k as int });
            match r {
                Some(x) => i > 0 && x == s[i - 1].0,
                None => i == 0,
            }
        }),
    decreases *l,
{
    match l {
        None => None,
        Some(n) => {
            let ghost b = if inclusive { k + 1 } else { k as int };
            proof {
                lemma_node_sorted(*n);
                lemma_lower_split(seq_of(n.left), (n.key, n.value), seq_of(n.right), b);
                lemma_lower_bounds(seq_of(n.left), b);
                lemma_lower_bounds(seq_of(n.right), b);
            }
            if (inclusive && n.key <= k) || (!inclusive && n.key < k) {
                match below_in(&n.right, k, inclusive) {
                    Some(x) => Some(x),
                    None => Some(n.key),
                }
            } else {
                below_in(&n.left, k, inclusive)
            }
        },
    }
}

/// Mutable access to the value stored under `k` in a sorted subtree; the
/// shape and colours of the subtree stay as they are.
pub(crate) fn get_mut_in<'a, V>(l: &'a mut Link<V>, k: u64) -> (r: Option<
    (&'a u64, &'a mut Option<V>),
>)
    requires
        sorted(seq_of(*old(l))),
    ensures
        match r {
            Some((kr, v)) => {
                &&& *kr == k
                &&& seq_get(seq_of(*old(l)), k) == Some(*v)
                &&& seq_of(*final(l)) == seq_insert(seq_of(*old(l)), k, *final(v))
                &&& red_black(*final(l)) == red_black(*old(l))
                &&& black_height(*final(l)) == black_height(*old(l))
                &&& is_red(*final(l)) == is_red(*old(l))
            },
            None => seq_get(seq_of(*old(l)), k) is None && *final(l) == *old(l),
        },
    decreases *old(l),
{
    match l {
        None => None,
        Some(n) => {
            proof {
                lemma_node_sorted(*n);
                lemma_get_split(seq_of(n.left), (n.key, n.value), seq_of(n.right), k);
                lemma_insert_split_all(seq_of(n.left), (n.key, n.value), seq_of(n.right), k);
            }
            if k < n.key {
                get_mut_in(&mut n.left, k)
            } else if k > n.key {
                get_mut_in(&mut n.right, k)
            } else {
                let n = &mut **n;
                Some((&n.key, &mut n.value))
            }
        },
    }
}

/// Pushes, in key order, the key and mutable access to the value of every
/// node of a filled subtree. Whatever is written through those references
/// ends up in the subtree, which keeps its keys, shape and colours.
pub(crate) fn collect_mut<'a, V>(l: &'a mut Link<V>, out: &mut Vec<(&'a u64, &'a mut V)>)
    requires
        filled(seq_of(*old(l))),
    ensures
        final(out)@.len() == old(out)@.len() + seq_of(*old(l)).len(),
        forall|j: int| 0 <= j < old(out)@.len() ==> #[trigger] final(out)@[j] == old(out)@[j],
        forall|i: int|
            0 <= i < seq_of(*old(l)).len() ==> *(#[trigger] final(out)@[old(out)@.len() + i]).0
                == seq_of(*old(l))[i].0 && *final(out)@[old(out)@.len() + i].1 == seq_of(
                *old(l),
            )[i].1->0,
        seq_of(*final(l)).len() == seq_of(*old(l)).len(),
        forall|i: int|
            0 <= i < seq_of(*old(l)).len() ==> #[trigger] seq_of(*final(l))[i] == (
                seq_of(*old(l))[i].0,
                Some(*final(final(out)@[old(out)@.len() + i].1)),
            ),
        red_black(*final(l)) == red_black(*old(l)),
        black_height(*final(l)) == black_height(*old(l)),
        is_red(*final(l)) == is_red(*old(l)),
    decreases *old(l),
{
    let ghost s = seq_of(*l);
    let ghost n0 = out@.len() as int;
    proof {
        if *l is Some {
            let b = (*l)->0;
            let (sl, sr) = (seq_of(b.left), seq_of(b.right));
            assert(s == sl + seq![(b.key, b.value)] + sr);
            assert forall|i: int| 0 <= i < sl.len() implies (#[trigger] sl[i]).1 is Some by {
                assert(s[i] == sl[i]);
            }
            assert forall|i: int| 0 <= i < sr.len() implies (#[trigger] sr[i]).1 is Some by {
                assert(s[sl.len() + 1 + i] == sr[i]);
            }
            assert(s[sl.len() as int] == (b.key, b.value));
        }
    }
    match l {
        None => {},
        Some(b) => {
            let ghost (sl, sr) = (seq_of(b.left), seq_of(b.right));
            let n: &'a mut Node<V> = &mut **b;
            let Node { key, value, left, right, .. } = n;
            collect_mut(left, out);
            let ghost n1 = out@.len() as int;
            let v = value.as_mut().unwrap();
            out.push((&*key, v));
            proof {
                assert(*out@[n1].0 == s[sl.len() as int].0);
                assert(*out@[n1].1 == s[sl.len() as int].1->0);
            }
            let ghost n2 = out@.len() as int;
            let ghost mid = out@;
            collect_mut(right, out);
            proof {
                assert(n1 == n0 + sl.len() && n2 == n1 + 1);
                assert(s == sl + seq![s[sl.len() as int]] + sr);
                assert forall|i: int| 0 <= i < s.len() implies *(#[trigger] out@[n0 + i]).0
                    == s[i].0 && *out@[n0 + i].1 == s[i].1->0 by {
                    if i < sl.len() {
                        assert(s[i] == sl[i]);
                        assert(out@[n0 + i] == mid[n0 + i]);
                    } else if i == sl.len() {
                        assert(out@[n0 + i] == mid[n1]);
                    } else {
                        assert(s[i] == sr[i - sl.len() - 1]);
                        assert(n0 + i == n2 + (i - sl.len() - 1));
                    }
                }
            }
        },
    }
}

} // verus!
