//! The mathematical model of an ordered map: the sequence of its entries
//! in ascending key order, together with the operations on it.
use vstd::prelude::*;

verus! {

/// The keys of `s` strictly increase from front to back.
pub open spec fn sorted<V>(s: Seq<(u64, V)>) -> bool {
    forall|i: int, j: int| 0 <= i < j < s.len() ==> #[trigger] s[i].0 < #[trigger] s[j].0
}

/// The value stored under `k`, taken from the first entry with that key.
pub open spec fn seq_get<V>(s: Seq<(u64, V)>, k: u64) -> Option<V>
    decreases s.len(),
{
    if s.len() == 0 {
        None
    } else if s[0].0 == k {
        Some(s[0].1)
    } else {
        seq_get(s.drop_first(), k)
    }
}

/// Ordered insertion: `(k, v)` goes before the first entry whose key is not
/// below `k`, replacing that entry when its key equals `k`.
pub open spec fn seq_insert<V>(s: Seq<(u64, V)>, k: u64, v: V) -> Seq<(u64, V)>
    decreases s.len(),
{
    if s.len() == 0 {
        seq![(k, v)]
    } else if k < s[0].0 {
        seq![(k, v)] + s
    } else if k == s[0].0 {
        seq![(k, v)] + s.drop_first()
    } else {
        seq![s[0]] + seq_insert(s.drop_first(), k, v)
    }
}

/// Every entry of `s` whose key is not `k`, in their order.
pub open spec fn seq_remove<V>(s: Seq<(u64, V)>, k: u64) -> Seq<(u64, V)>
    decreases s.len(),
{
    if s.len() == 0 {
        s
    } else if s[0].0 == k {
        seq_remove(s.drop_first(), k)
    } else {
        seq![s[0]] + seq_remove(s.drop_first(), k)
    }
}

/// Some entry of `s` has key `k`.
pub open spec fn has_key<V>(s: Seq<(u64, V)>, k: u64) -> bool {
    exists|i: int| 0 <= i < s.len() && #[trigger] s[i].0 == k
}

/// The keys of `s`, in order.
pub open spec fn keys_of<V>(s: Seq<(u64, V)>) -> Seq<u64> {
    s.map_values(|e: (u64, V)| e.0)
}

/// Every key of `s` lies strictly below `k`.
pub open spec fn all_below<V>(s: Seq<(u64, V)>, k: u64) -> bool {
    forall|i: int| 0 <= i < s.len() ==> #[trigger] s[i].0 < k
}

/// Every key of `s` lies strictly above `k`.
pub open spec fn all_above<V>(s: Seq<(u64, V)>, k: u64) -> bool {
    forall|i: int| 0 <= i < s.len() ==> #[trigger] s[i].0 > k
}

/// Index of the first entry whose key is at least `k` (`s.len()` if none).
pub open spec fn lower_index<V>(s: Seq<(u64, V)>, k: int) -> int
    decreases s.len(),
{
    if s.len() == 0 {
        0
    } else if s[0].0 >= k {
        0
    } else {
        1 + lower_index(s.drop_first(), k)
    }
}

/// Lookup in a concatenation tries the front part first.
pub proof fn lemma_get_concat<V>(a: Seq<(u64, V)>, b: Seq<(u64, V)>, k: u64)
    ensures
        seq_get(a + b, k) == (if seq_get(a, k) is Some {
            seq_get(a, k)
        } else {
            seq_get(b, k)
        }),
    decreases a.len(),
{
    if a.len() == 0 {
        assert(a + b =~= b);
    } else {
        assert((a + b).drop_first() =~= a.drop_first() + b);
        lemma_get_concat(a.drop_first(), b, k);
    }
}

/// Lookup finds nothing exactly when no entry has the key.
pub proof fn lemma_get_none<V>(s: Seq<(u64, V)>, k: u64)
    ensures
        (seq_get(s, k) is None) <==> !has_key(s, k),
    decreases s.len(),
{
    if s.len() > 0 {
        lemma_get_none(s.drop_first(), k);
        if has_key(s, k) && s[0].0 != k {
            let i = choose|i: int| 0 <= i < s.len() && #[trigger] s[i].0 == k;
            assert(s.drop_first()[i - 1].0 == k);
        }
        if has_key(s.drop_first(), k) {
            let i = choose|i: int| 0 <= i < s.len() - 1 && #[trigger] s.drop_first()[i].0 == k;
            assert(s[i + 1].0 == k);
        }
    }
}

/// In a sorted sequence, `seq_get` yields the value at any index holding `k`.
pub proof fn lemma_get_at<V>(s: Seq<(u64, V)>, i: int)
    requires
        sorted(s),
        0 <= i < s.len(),
    ensures
        seq_get(s, s[i].0) == Some(s[i].1),
    decreases s.len(),
{
    if i > 0 {
        assert(s[0].0 < s[i].0);
        assert(s.drop_first()[i - 1] == s[i]);
        lemma_get_at(s.drop_first(), i - 1);
    }
}

/// Lookup of a key beyond every key of a sequence finds nothing.
pub proof fn lemma_get_below<V>(s: Seq<(u64, V)>, k: u64)
    requires
        all_below(s, k) || all_above(s, k),
    ensures
        seq_get(s, k) is None,
{
    lemma_get_none(s, k);
}

/// Lookup in a sorted sequence split around an entry `x`.
pub proof fn lemma_get_split<V>(l: Seq<(u64, V)>, x: (u64, V), r: Seq<(u64, V)>, k: u64)
    requires
        all_below(l, x.0),
        all_above(r, x.0),
    ensures
        seq_get(l + seq![x] + r, k) == (if k < x.0 {
            seq_get(l, k)
        } else if k == x.0 {
            Some(x.1)
        } else {
            seq_get(r, k)
        }),
{
    lemma_get_concat(l + seq![x], r, k);
    lemma_get_concat(l, seq![x], k);
    if k >= x.0 {
        lemma_get_below(l, k);
    }
    if k <= x.0 {
        if k < x.0 {
            lemma_get_below(r, k);
        }
    }
    assert(seq![x][0] == x);
    assert(seq![x].drop_first() =~= Seq::<(u64, V)>::empty());
    assert(seq_get(Seq::<(u64, V)>::empty(), k) is None);
}

/// Insertion of a key below the first key of `b` happens within `a`.
pub proof fn lemma_insert_before<V>(a: Seq<(u64, V)>, b: Seq<(u64, V)>, k: u64, v: V)
    requires
        b.len() > 0,
        k < b[0].0,
    ensures
        seq_insert(a + b, k, v) == seq_insert(a, k, v) + b,
    decreases a.len(),
{
    if a.len() == 0 {
        assert(a + b =~= b);
    } else {
        assert((a + b).drop_first() =~= a.drop_first() + b);
        assert((a + b)[0] == a[0]);
        if k < a[0].0 {
            assert(seq![(k, v)] + (a + b) =~= seq![(k, v)] + a + b);
        } else if k == a[0].0 {
            assert(seq![(k, v)] + (a + b).drop_first() =~= seq![(k, v)] + a.drop_first() + b);
        } else {
            lemma_insert_before(a.drop_first(), b, k, v);
            assert(seq![a[0]] + (seq_insert(a.drop_first(), k, v) + b) =~= seq![a[0]]
                + seq_insert(a.drop_first(), k, v) + b);
        }
    }
}

/// Insertion of a key above every key of `a` happens within `b`.
pub proof fn lemma_insert_after<V>(a: Seq<(u64, V)>, b: Seq<(u64, V)>, k: u64, v: V)
    requires
        all_below(a, k),
    ensures
        seq_insert(a + b, k, v) == a + seq_insert(b, k, v),
    decreases a.len(),
{
    if a.len() == 0 {
        assert(a + b =~= b);
        assert(a + seq_insert(b, k, v) =~= seq_insert(b, k, v));
    } else {
        assert((a + b).drop_first() =~= a.drop_first() + b);
        assert((a + b)[0] == a[0]);
        assert(a[0].0 < k);
        lemma_insert_after(a.drop_first(), b, k, v);
        assert(seq![a[0]] + (a.drop_first() + seq_insert(b, k, v)) =~= a + seq_insert(b, k, v));
    }
}

/// Insertion into a sorted sequence split around an entry `x`.
pub proof fn lemma_insert_split<V>(
    l: Seq<(u64, V)>,
    x: (u64, V),
    r: Seq<(u64, V)>,
    k: u64,
    v: V,
)
    requires
        all_below(l, x.0),
    ensures
        k < x.0 ==> seq_insert(l + seq![x] + r, k, v) == seq_insert(l, k, v) + seq![x] + r,
        k == x.0 ==> seq_insert(l + seq![x] + r, k, v) == l + seq![(k, v)] + r,
        k > x.0 ==> seq_insert(l + seq![x] + r, k, v) == l + seq![x] + seq_insert(r, k, v),
{
    let xs = seq![x];
    assert(l + xs + r =~= l + (xs + r));
    if k < x.0 {
        lemma_insert_before(l, xs + r, k, v);
        assert(seq_insert(l, k, v) + (xs + r) =~= seq_insert(l, k, v) + xs + r);
    } else {
        lemma_insert_after(l, xs + r, k, v);
        assert((xs + r)[0] == x);
        assert((xs + r).drop_first() =~= r);
        if k == x.0 {
            assert(l + (seq![(k, v)] + r) =~= l + seq![(k, v)] + r);
        } else {
            assert(l + (xs + seq_insert(r, k, v)) =~= l + xs + seq_insert(r, k, v));
        }
    }
}

/// `lemma_insert_split` for every value at once.
pub proof fn lemma_insert_split_all<V>(l: Seq<(u64, V)>, x: (u64, V), r: Seq<(u64, V)>, k: u64)
    requires
        all_below(l, x.0),
    ensures
        forall|v: V|
            #![trigger seq_insert(l + seq![x] + r, k, v)]
            {
                &&& k < x.0 ==> seq_insert(l + seq![x] + r, k, v) == seq_insert(l, k, v) + seq![x]
                    + r
                &&& k == x.0 ==> seq_insert(l + seq![x] + r, k, v) == l + seq![(k, v)] + r
                &&& k > x.0 ==> seq_insert(l + seq![x] + r, k, v) == l + seq![x] + seq_insert(
                    r,
                    k,
                    v,
                )
            },
{
    assert forall|v: V| #![trigger seq_insert(l + seq![x] + r, k, v)] k < x.0 ==> seq_insert(
        l + seq![x] + r,
        k,
        v,
    ) == seq_insert(l, k, v) + seq![x] + r by {
        lemma_insert_split(l, x, r, k, v);
    }
    assert forall|v: V| #![trigger seq_insert(l + seq![x] + r, k, v)] k == x.0 ==> seq_insert(
        l + seq![x] + r,
        k,
        v,
    ) == l + seq![(k, v)] + r by {
        lemma_insert_split(l, x, r, k, v);
    }
    assert forall|v: V| #![trigger seq_insert(l + seq![x] + r, k, v)] k > x.0 ==> seq_insert(
        l + seq![x] + r,
        k,
        v,
    ) == l + seq![x] + seq_insert(r, k, v) by {
        lemma_insert_split(l, x, r, k, v);
    }
}

/// Removal distributes over concatenation.
pub proof fn lemma_remove_concat<V>(a: Seq<(u64, V)>, b: Seq<(u64, V)>, k: u64)
    ensures
        seq_remove(a + b, k) == seq_remove(a, k) + seq_remove(b, k),
    decreases a.len(),
{
    if a.len() == 0 {
        assert(a + b =~= b);
        assert(seq_remove(a, k) + seq_remove(b, k) =~= seq_remove(b, k));
    } else {
        assert((a + b).drop_first() =~= a.drop_first() + b);
        assert((a + b)[0] == a[0]);
        lemma_remove_concat(a.drop_first(), b, k);
        if a[0].0 != k {
            assert(seq![a[0]] + (seq_remove(a.drop_first(), k) + seq_remove(b, k)) =~= seq![a[0]]
                + seq_remove(a.drop_first(), k) + seq_remove(b, k));
        }
    }
}

/// Removing a key that no entry has changes nothing.
pub proof fn lemma_remove_absent<V>(s: Seq<(u64, V)>, k: u64)
    requires
        !has_key(s, k),
    ensures
        seq_remove(s, k) == s,
    decreases s.len(),
{
    if s.len() > 0 {
        assert(s[0].0 != k);
        if has_key(s.drop_first(), k) {
            let i = choose|i: int| 0 <= i < s.len() - 1 && #[trigger] s.drop_first()[i].0 == k;
            assert(s[i + 1].0 == k);
        }
        lemma_remove_absent(s.drop_first(), k);
        assert(seq![s[0]] + s.drop_first() =~= s);
    }
}

/// Removal from a sorted sequence split around an entry `x`.
pub proof fn lemma_remove_split<V>(l: Seq<(u64, V)>, x: (u64, V), r: Seq<(u64, V)>, k: u64)
    requires
        all_below(l, x.0),
        all_above(r, x.0),
    ensures
        k < x.0 ==> seq_remove(l + seq![x] + r, k) == seq_remove(l, k) + seq![x] + r,
        k == x.0 ==> seq_remove(l + seq![x] + r, k) == l + r,
        k > x.0 ==> seq_remove(l + seq![x] + r, k) == l + seq![x] + seq_remove(r, k),
{
    let xs = seq![x];
    lemma_remove_concat(l + xs, r, k);
    lemma_remove_concat(l, xs, k);
    assert(xs[0] == x);
    assert(xs.drop_first() =~= Seq::<(u64, V)>::empty());
    assert(seq_remove(Seq::<(u64, V)>::empty(), k) =~= Seq::<(u64, V)>::empty());
    if k >= x.0 {
        assert(!has_key(l, k));
        lemma_remove_absent(l, k);
    }
    if k <= x.0 {
        assert(!has_key(r, k));
        lemma_remove_absent(r, k);
    }
    if k == x.0 {
        assert(seq_remove(xs, k) =~= Seq::<(u64, V)>::empty());
        assert(l + Seq::<(u64, V)>::empty() + r =~= l + r);
    } else {
        assert(seq_remove(xs, k) =~= xs);
    }
}

/// A sequence split around an entry `x` is sorted exactly when both parts
/// are, with the keys before `x` below it and those after above it.
pub proof fn lemma_sorted_split<V>(l: Seq<(u64, V)>, x: (u64, V), r: Seq<(u64, V)>)
    ensures
        sorted(l + seq![x] + r) <==> (sorted(l) && sorted(r) && all_below(l, x.0) && all_above(
            r,
            x.0,
        )),
{
    let s = l + seq![x] + r;
    if sorted(s) {
        assert forall|i: int, j: int| 0 <= i < j < l.len() implies l[i].0 < l[j].0 by {
            assert(s[i] == l[i] && s[j] == l[j]);
        }
        assert forall|i: int, j: int| 0 <= i < j < r.len() implies r[i].0 < r[j].0 by {
            assert(s[l.len() + 1 + i] == r[i] && s[l.len() + 1 + j] == r[j]);
        }
        assert forall|i: int| 0 <= i < l.len() implies l[i].0 < x.0 by {
            assert(s[i] == l[i] && s[l.len() as int] == x);
        }
        assert forall|i: int| 0 <= i < r.len() implies r[i].0 > x.0 by {
            assert(s[l.len() + 1 + i] == r[i] && s[l.len() as int] == x);
        }
    }
    if sorted(l) && sorted(r) && all_below(l, x.0) && all_above(r, x.0) {
        assert forall|i: int, j: int| 0 <= i < j < s.len() implies s[i].0 < s[j].0 by {
            let n = l.len() as int;
            if j < n {
                assert(s[i] == l[i] && s[j] == l[j]);
            } else if j == n {
                assert(s[i] == l[i]);
            } else if i < n {
                assert(s[i] == l[i] && s[j] == r[j - n - 1]);
                assert(l[i].0 < x.0 && r[j - n - 1].0 > x.0);
            } else if i == n {
                assert(s[j] == r[j - n - 1]);
            } else {
                assert(s[i] == r[i - n - 1] && s[j] == r[j - n - 1]);
            }
        }
    }
}

/// Ordered insertion keeps a sorted sequence sorted, and adds no key at or
/// below a bound that `k` exceeds.
pub proof fn lemma_insert_sorted<V>(s: Seq<(u64, V)>, k: u64, v: V, lo: int)
    requires
        sorted(s),
        lo < k,
        forall|i: int| 0 <= i < s.len() ==> lo < #[trigger] s[i].0,
    ensures
        sorted(seq_insert(s, k, v)),
        forall|i: int|
            0 <= i < seq_insert(s, k, v).len() ==> lo < #[trigger] seq_insert(s, k, v)[i].0,
    decreases s.len(),
{
    let t = seq_insert(s, k, v);
    if s.len() > 0 {
        if k > s[0].0 {
            let r = s.drop_first();
            assert forall|i: int, j: int| 0 <= i < j < r.len() implies r[i].0 < r[j].0 by {
                assert(s[i + 1].0 < s[j + 1].0);
            }
            assert forall|i: int| 0 <= i < r.len() implies s[0].0 < #[trigger] r[i].0 by {
                assert(s[0].0 < s[i + 1].0);
            }
            lemma_insert_sorted(r, k, v, s[0].0 as int);
            let u = seq_insert(r, k, v);
            assert(t == seq![s[0]] + u);
            assert forall|i: int| 0 <= i < t.len() implies lo < #[trigger] t[i].0 by {
                if i > 0 {
                    assert(t[i] == u[i - 1]);
                }
            }
            assert forall|i: int, j: int| 0 <= i < j < t.len() implies t[i].0 < t[j].0 by {
                assert(t[j] == u[j - 1]);
                if i > 0 {
                    assert(t[i] == u[i - 1]);
                }
            }
        } else {
            assert forall|i: int| 0 <= i < t.len() implies lo < #[trigger] t[i].0 by {
                if i > 0 {
                    if k < s[0].0 {
                        assert(t[i] == s[i - 1]);
                    } else {
                        assert(t[i] == s[i]);
                    }
                }
            }
            assert forall|i: int, j: int| 0 <= i < j < t.len() implies t[i].0 < t[j].0 by {
                if k < s[0].0 {
                    assert(t[j] == s[j - 1]);
                    if i > 0 {
                        assert(t[i] == s[i - 1]);
                    } else {
                        assert(s[0].0 <= s[j - 1].0);
                    }
                } else {
                    assert(t[j] == s[j]);
                    if i > 0 {
                        assert(t[i] == s[i]);
                    } else {
                        assert(s[0].0 < s[j].0);
                    }
                }
            }
        }
    }
}

/// Removal keeps a sorted sequence sorted, and adds no key at or below a
/// bound.
pub proof fn lemma_remove_sorted<V>(s: Seq<(u64, V)>, k: u64, lo: int)
    requires
        sorted(s),
        forall|i: int| 0 <= i < s.len() ==> lo < #[trigger] s[i].0,
    ensures
        sorted(seq_remove(s, k)),
        forall|i: int|
            0 <= i < seq_remove(s, k).len() ==> lo < #[trigger] seq_remove(s, k)[i].0,
    decreases s.len(),
{
    if s.len() > 0 {
        let r = s.drop_first();
        assert forall|i: int, j: int| 0 <= i < j < r.len() implies r[i].0 < r[j].0 by {
            assert(s[i + 1].0 < s[j + 1].0);
        }
        assert forall|i: int| 0 <= i < r.len() implies s[0].0 < #[trigger] r[i].0 by {
            assert(s[0].0 < s[i + 1].0);
        }
        if s[0].0 == k {
            lemma_remove_sorted(r, k, lo);
        } else {
            lemma_remove_sorted(r, k, s[0].0 as int);
            let u = seq_remove(r, k);
            let t = seq![s[0]] + u;
            assert(seq_remove(s, k) == t);
            assert forall|i: int| 0 <= i < t.len() implies lo < #[trigger] t[i].0 by {
                if i > 0 {
                    assert(t[i] == u[i - 1]);
                }
            }
            assert forall|i: int, j: int| 0 <= i < j < t.len() implies t[i].0 < t[j].0 by {
                assert(t[j] == u[j - 1]);
                if i > 0 {
                    assert(t[i] == u[i - 1]);
                }
            }
        }
    }
}

/// Regrouping of concatenations, as a rotation rearranges three subtrees
/// and two entries.
pub proof fn lemma_regroup<A>(
    p: Seq<A>,
    q: Seq<A>,
    r: Seq<A>,
    s: Seq<A>,
    t: Seq<A>,
    u: Seq<A>,
    w: Seq<A>,
)
    ensures
        (p + q + r) + s + (t + u + w) == p + q + (r + s + t) + u + w,
        (p + q + r) + (t + u + w) == p + q + (r + t) + u + w,
{
    assert((p + q + r) + s + (t + u + w) =~= p + q + (r + s + t) + u + w);
    assert((p + q + r) + (t + u + w) =~= p + q + (r + t) + u + w);
}

/// The first index at or above `k` in a concatenation.
pub proof fn lemma_lower_concat<V>(a: Seq<(u64, V)>, b: Seq<(u64, V)>, k: int)
    ensures
        0 <= lower_index(a, k) <= a.len(),
        lower_index(a + b, k) == (if lower_index(a, k) < a.len() {
            lower_index(a, k)
        } else {
            a.len() + lower_index(b, k)
        }),
    decreases a.len(),
{
    if a.len() == 0 {
        assert(a + b =~= b);
    } else {
        assert((a + b).drop_first() =~= a.drop_first() + b);
        assert((a + b)[0] == a[0]);
        lemma_lower_concat(a.drop_first(), b, k);
    }
}

/// The first index at or above `k` lies within the sequence, every key
/// before it is below `k`, and the key there is not.
pub proof fn lemma_lower_bounds<V>(s: Seq<(u64, V)>, k: int)
    ensures
        0 <= lower_index(s, k) <= s.len(),
        forall|i: int| 0 <= i < lower_index(s, k) ==> #[trigger] s[i].0 < k,
        lower_index(s, k) < s.len() ==> s[lower_index(s, k)].0 >= k,
    decreases s.len(),
{
    if s.len() > 0 && s[0].0 < k {
        lemma_lower_bounds(s.drop_first(), k);
        assert forall|i: int| 0 <= i < lower_index(s, k) implies #[trigger] s[i].0 < k by {
            if i > 0 {
                assert(s[i] == s.drop_first()[i - 1]);
            }
        }
    }
}

/// In a sorted sequence, the first index at or above `k` is the one that
/// splits the keys below `k` from the rest.
pub proof fn lemma_lower_unique<V>(s: Seq<(u64, V)>, k: int, i: int)
    requires
        sorted(s),
        0 <= i <= s.len(),
        forall|j: int| 0 <= j < i ==> #[trigger] s[j].0 < k,
        i < s.len() ==> s[i].0 >= k,
    ensures
        lower_index(s, k) == i,
{
    lemma_lower_bounds(s, k);
    let p = lower_index(s, k);
    if p < i {
        assert(s[p].0 < k);
    }
    if p > i {
        assert(s[i].0 < k);
    }
}

/// Lookup in a sorted sequence split around an entry `x`, by position.
pub proof fn lemma_lower_split<V>(l: Seq<(u64, V)>, x: (u64, V), r: Seq<(u64, V)>, k: int)
    requires
        all_below(l, x.0),
    ensures
        lower_index(l + seq![x] + r, k) == (if k <= x.0 {
            lower_index(l, k)
        } else {
            l.len() + 1 + lower_index(r, k)
        }),
{
    let xs = seq![x];
    lemma_lower_concat(l + xs, r, k);
    lemma_lower_concat(l, xs, k);
    assert(xs[0] == x);
    if k > x.0 {
        lemma_lower_bounds(l, k);
        lemma_lower_unique_plain(l, k);
        assert(xs.drop_first() =~= Seq::<(u64, V)>::empty());
        assert(lower_index(xs.drop_first(), k) == 0);
    }
}

proof fn lemma_lower_unique_plain<V>(l: Seq<(u64, V)>, k: int)
    requires
        forall|i: int| 0 <= i < l.len() ==> #[trigger] l[i].0 < k,
    ensures
        lower_index(l, k) == l.len(),
    decreases l.len(),
{
    if l.len() > 0 {
        assert forall|i: int| 0 <= i < l.len() - 1 implies #[trigger] l.drop_first()[i].0 < k by {
            assert(l.drop_first()[i] == l[i + 1]);
        }
        lemma_lower_unique_plain(l.drop_first(), k);
    }
}

/// In a sorted sequence the entry at `i` is found at index `i`, and the
/// next key up starts at `i + 1`.
pub proof fn lemma_lower_at<V>(s: Seq<(u64, V)>, i: int)
    requires
        sorted(s),
        0 <= i < s.len(),
    ensures
        lower_index(s, s[i].0 as int) == i,
        lower_index(s, s[i].0 + 1) == i + 1,
{
    assert forall|j: int| 0 <= j < i implies #[trigger] s[j].0 < s[i].0 by {}
    lemma_lower_unique(s, s[i].0 as int, i);
    if i + 1 < s.len() {
        assert(s[i].0 < s[i + 1].0);
    }
    lemma_lower_unique(s, s[i].0 + 1, i + 1);
}

/// Inserting under a key that a sorted sequence holds replaces that entry.
pub proof fn lemma_insert_existing<V>(s: Seq<(u64, V)>, i: int, v: V)
    requires
        sorted(s),
        0 <= i < s.len(),
    ensures
        seq_insert(s, s[i].0, v) == s.update(i, (s[i].0, v)),
    decreases s.len(),
{
    if i == 0 {
        assert(seq![(s[0].0, v)] + s.drop_first() =~= s.update(0, (s[0].0, v)));
    } else {
        assert(s[0].0 < s[i].0);
        let r = s.drop_first();
        assert(r[i - 1] == s[i]);
        assert forall|a: int, b: int| 0 <= a < b < r.len() implies r[a].0 < r[b].0 by {
            assert(s[a + 1].0 < s[b + 1].0);
        }
        lemma_insert_existing(r, i - 1, v);
        assert(seq![s[0]] + r.update(i - 1, (s[i].0, v)) =~= s.update(i, (s[i].0, v)));
    }
}

/// Removing a key that a sorted sequence holds removes exactly its entry.
pub proof fn lemma_remove_existing<V>(s: Seq<(u64, V)>, i: int)
    requires
        sorted(s),
        0 <= i < s.len(),
    ensures
        seq_remove(s, s[i].0) == s.remove(i),
    decreases s.len(),
{
    let r = s.drop_first();
    assert forall|a: int, b: int| 0 <= a < b < r.len() implies r[a].0 < r[b].0 by {
        assert(s[a + 1].0 < s[b + 1].0);
    }
    if i == 0 {
        assert(!has_key(r, s[0].0)) by {
            if has_key(r, s[0].0) {
                let j = choose|j: int| 0 <= j < r.len() && #[trigger] r[j].0 == s[0].0;
                assert(s[0].0 < s[j + 1].0);
            }
        }
        lemma_remove_absent(r, s[0].0);
        assert(r =~= s.remove(0));
    } else {
        assert(s[0].0 < s[i].0);
        assert(r[i - 1] == s[i]);
        lemma_remove_existing(r, i - 1);
        assert(seq![s[0]] + r.remove(i - 1) =~= s.remove(i));
    }
}

/// Replacing a value or dropping an entry keeps a sequence sorted.
pub proof fn lemma_sorted_edit<V>(s: Seq<(u64, V)>, i: int, v: V)
    requires
        sorted(s),
        0 <= i < s.len(),
    ensures
        sorted(s.update(i, (s[i].0, v))),
        sorted(s.remove(i)),
{
    let u = s.update(i, (s[i].0, v));
    assert forall|a: int, b: int| 0 <= a < b < u.len() implies u[a].0 < u[b].0 by {
        assert(u[a].0 == s[a].0 && u[b].0 == s[b].0);
    }
    let w = s.remove(i);
    assert forall|a: int, b: int| 0 <= a < b < w.len() implies w[a].0 < w[b].0 by {
        let a2 = if a < i { a } else { a + 1 };
        let b2 = if b < i { b } else { b + 1 };
        assert(w[a] == s[a2] && w[b] == s[b2]);
    }
}

/// A second insertion under the same key overrides the first.
pub proof fn lemma_insert_twice<V>(s: Seq<(u64, V)>, k: u64, v1: V, v2: V)
    ensures
        seq_insert(seq_insert(s, k, v1), k, v2) == seq_insert(s, k, v2),
    decreases s.len(),
{
    let t = seq_insert(s, k, v1);
    if s.len() == 0 {
        assert(t.drop_first() =~= Seq::<(u64, V)>::empty());
    } else if k < s[0].0 {
        assert(t.drop_first() =~= s);
    } else if k == s[0].0 {
        assert(t.drop_first() =~= s.drop_first());
    } else {
        assert(t.drop_first() =~= seq_insert(s.drop_first(), k, v1));
        lemma_insert_twice(s.drop_first(), k, v1, v2);
    }
}

} // verus!
