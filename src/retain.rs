//! What a shortlist retains, as multisets: one insertion, a run of insertions,
//! and what it means to hold the `k` largest items of a multiset.
use crate::order::{ascending, le, lemma_le_total_order, total_order};
use vstd::multiset::Multiset;
use vstd::prelude::*;

verus! {

broadcast use {vstd::multiset::group_multiset_axioms, vstd::multiset::group_multiset_properties};

/// `x` is a smallest item of `m`.
pub open spec fn is_least<T: Ord>(m: Multiset<T>, x: T) -> bool {
    m.count(x) > 0 && forall|y: T| #[trigger] m.count(y) > 0 ==> le(x, y)
}

/// `x` is a largest item of `m`.
pub open spec fn is_greatest<T: Ord>(m: Multiset<T>, x: T) -> bool {
    m.count(x) > 0 && forall|y: T| #[trigger] m.count(y) > 0 ==> le(y, x)
}

/// The smallest item of a non-empty multiset (unique under a total order).
pub open spec fn least<T: Ord>(m: Multiset<T>) -> T {
    choose|x: T| is_least(m, x)
}

/// The largest item of a non-empty multiset.
pub open spec fn greatest<T: Ord>(m: Multiset<T>) -> T {
    choose|x: T| is_greatest(m, x)
}

/// The smaller of two sizes.
pub open spec fn min_nat(a: nat, b: nat) -> nat {
    if a <= b {
        a
    } else {
        b
    }
}

/// The items retained with capacity `cap` after `x` is offered to the retained
/// items `m`: below capacity `x` is added; at capacity `x` replaces the smallest
/// item when it is strictly larger than it, and is dropped otherwise.
pub open spec fn after_push<T: Ord>(m: Multiset<T>, cap: nat, x: T) -> Multiset<T> {
    if m.len() < cap {
        m.insert(x)
    } else if le(x, least(m)) {
        m
    } else {
        m.remove(least(m)).insert(x)
    }
}

/// The items retained after each item of `s` is offered in turn, starting from `m`.
pub open spec fn after_pushes<T: Ord>(m: Multiset<T>, cap: nat, s: Seq<T>) -> Multiset<T>
    decreases s.len(),
{
    if s.len() == 0 {
        m
    } else {
        after_push(after_pushes(m, cap, s.drop_last()), cap, s.last())
    }
}

/// `m` holds the `k` largest items of `s` (all of `s` when it has fewer than `k`):
/// it is a sub-multiset of `s` of size `min(k, |s|)`, and no item of `s` left out
/// of `m` is larger than an item of `m`.
pub open spec fn is_top_k<T: Ord>(m: Multiset<T>, s: Multiset<T>, k: nat) -> bool {
    &&& m.subset_of(s)
    &&& m.len() == min_nat(k, s.len())
    &&& forall|x: T, y: T|
        #![trigger m.count(x), s.count(y)]
        m.count(x) > 0 && s.count(y) > m.count(y) ==> le(y, x)
}

/// A non-empty multiset has a smallest item.
pub proof fn lemma_least<T: Ord>(m: Multiset<T>)
    requires
        total_order::<T>(),
        m.len() > 0,
    ensures
        is_least(m, least(m)),
    decreases m.len(),
{
    lemma_le_total_order::<T>();
    let x = m.choose();
    let rest = m.remove(x);
    if rest.len() == 0 {
        assert forall|y: T| #[trigger] m.count(y) > 0 implies le(x, y) by {
            if y != x {
                assert(rest.count(y) == m.count(y));
            }
        }
        assert(is_least(m, x));
    } else {
        lemma_least(rest);
        let y = least(rest);
        if le(x, y) {
            assert forall|z: T| #[trigger] m.count(z) > 0 implies le(x, z) by {
                if z != x {
                    assert(rest.count(z) > 0);
                }
            }
            assert(is_least(m, x));
        } else {
            assert forall|z: T| #[trigger] m.count(z) > 0 implies le(y, z) by {
                if z != x {
                    assert(rest.count(z) > 0);
                }
            }
            assert(is_least(m, y));
        }
    }
}

/// A non-empty multiset has a largest item.
pub proof fn lemma_greatest<T: Ord>(m: Multiset<T>)
    requires
        total_order::<T>(),
        m.len() > 0,
    ensures
        is_greatest(m, greatest(m)),
    decreases m.len(),
{
    lemma_le_total_order::<T>();
    let x = m.choose();
    let rest = m.remove(x);
    if rest.len() == 0 {
        assert forall|y: T| #[trigger] m.count(y) > 0 implies le(y, x) by {
            if y != x {
                assert(rest.count(y) == m.count(y));
            }
        }
        assert(is_greatest(m, x));
    } else {
        lemma_greatest(rest);
        let y = greatest(rest);
        if le(y, x) {
            assert forall|z: T| #[trigger] m.count(z) > 0 implies le(z, x) by {
                if z != x {
                    assert(rest.count(z) > 0);
                }
            }
            assert(is_greatest(m, x));
        } else {
            assert forall|z: T| #[trigger] m.count(z) > 0 implies le(z, y) by {
                if z != x {
                    assert(rest.count(z) > 0);
                }
            }
            assert(is_greatest(m, y));
        }
    }
}

/// A sub-multiset as large as the whole is the whole.
proof fn lemma_subset_same_len<T>(m: Multiset<T>, s: Multiset<T>)
    requires
        m.subset_of(s),
        m.len() == s.len(),
    ensures
        m == s,
{
    let d = s.sub(m);
    assert(d.len() == 0);
    assert forall|v: T| #[trigger] m.count(v) == s.count(v) by {
        assert(d.count(v) == 0);
    }
    assert(m =~= s);
}

/// Offering one more item keeps the `k` largest.
pub proof fn lemma_after_push_top_k<T: Ord>(m: Multiset<T>, s: Multiset<T>, k: nat, x: T)
    requires
        total_order::<T>(),
        k > 0,
        is_top_k(m, s, k),
    ensures
        is_top_k(after_push(m, k, x), s.insert(x), k),
{
    lemma_le_total_order::<T>();
    let s2 = s.insert(x);
    if m.len() < k {
        lemma_subset_same_len(m, s);
        assert(after_push(m, k, x) == s2);
        assert(is_top_k(s2, s2, k));
    } else {
        lemma_least(m);
        let mn = least(m);
        if le(x, mn) {
            assert forall|a: T, y: T|
                #![trigger m.count(a), s2.count(y)]
                m.count(a) > 0 && s2.count(y) > m.count(y) implies le(y, a) by {
                if y != x {
                    assert(s.count(y) == s2.count(y));
                } else {
                    assert(le(mn, a));
                }
            }
            assert(is_top_k(m, s2, k));
        } else {
            let m2 = m.remove(mn).insert(x);
            assert(x != mn);
            assert(after_push(m, k, x) == m2);
            assert forall|v: T| #[trigger] m2.count(v) <= s2.count(v) by {
                assert(m.count(v) <= s.count(v));
            }
            assert forall|a: T, y: T|
                #![trigger m2.count(a), s2.count(y)]
                m2.count(a) > 0 && s2.count(y) > m2.count(y) implies le(y, a) by {
                assert(le(mn, a)) by {
                    if a != x {
                        assert(m.count(a) > 0);
                    }
                }
                if y == x {
                    assert(s.count(x) > m.count(x));
                    assert(m.count(mn) > 0);
                    assert(le(x, mn));
                } else if y != mn {
                    assert(s.count(y) > m.count(y));
                    assert(m.count(mn) > 0);
                    assert(le(y, mn));
                }
            }
            assert(is_top_k(m2, s2, k));
        }
    }
}

/// Offering a run of items to a holder of the `k` largest of `s` keeps the `k`
/// largest of `s` and the run together.
pub proof fn lemma_after_pushes_top_k<T: Ord>(m: Multiset<T>, s: Multiset<T>, k: nat, t: Seq<T>)
    requires
        total_order::<T>(),
        k > 0,
        is_top_k(m, s, k),
    ensures
        is_top_k(after_pushes(m, k, t), s.add(t.to_multiset()), k),
    decreases t.len(),
{
    broadcast use vstd::seq_lib::group_to_multiset_ensures;

    if t.len() == 0 {
        assert(s.add(t.to_multiset()) =~= s);
    } else {
        let front = t.drop_last();
        lemma_after_pushes_top_k(m, s, k, front);
        lemma_after_push_top_k(after_pushes(m, k, front), s.add(front.to_multiset()), k, t.last());
        assert(front.push(t.last()) == t);
        assert(s.add(front.to_multiset()).insert(t.last()) =~= s.add(t.to_multiset()));
    }
}

/// Any multiset of at most `k` items holds the `k` largest of itself.
pub proof fn lemma_top_k_of_self<T: Ord>(m: Multiset<T>, k: nat)
    requires
        m.len() <= k,
    ensures
        is_top_k(m, m, k),
{
}

/// The `k` largest items of a multiset are unique.
pub proof fn lemma_top_k_unique<T: Ord>(m1: Multiset<T>, m2: Multiset<T>, s: Multiset<T>, k: nat)
    requires
        total_order::<T>(),
        is_top_k(m1, s, k),
        is_top_k(m2, s, k),
    ensures
        m1 == m2,
    decreases k,
{
    lemma_le_total_order::<T>();
    if m1.len() == 0 {
        assert(m1 =~= m2);
    } else {
        lemma_greatest(s);
        let mx = greatest(s);
        assert(m1.count(mx) > 0) by {
            let a = m1.choose();
            assert(m1.count(a) > 0);
            assert(s.count(a) > 0);
            if m1.count(mx) == 0 {
                assert(s.count(mx) > m1.count(mx));
                assert(le(mx, a));
                assert(le(a, mx));
            }
        }
        assert(m2.count(mx) > 0) by {
            let a = m2.choose();
            assert(m2.count(a) > 0);
            assert(s.count(a) > 0);
            if m2.count(mx) == 0 {
                assert(s.count(mx) > m2.count(mx));
                assert(le(mx, a));
                assert(le(a, mx));
            }
        }
        let r1 = m1.remove(mx);
        let r2 = m2.remove(mx);
        let sr = s.remove(mx);
        assert forall|a: T, y: T|
            #![trigger r1.count(a), sr.count(y)]
            r1.count(a) > 0 && sr.count(y) > r1.count(y) implies le(y, a) by {
            assert(m1.count(a) > 0);
            assert(s.count(y) > m1.count(y));
        }
        assert forall|a: T, y: T|
            #![trigger r2.count(a), sr.count(y)]
            r2.count(a) > 0 && sr.count(y) > r2.count(y) implies le(y, a) by {
            assert(m2.count(a) > 0);
            assert(s.count(y) > m2.count(y));
        }
        lemma_top_k_unique(r1, r2, sr, (k - 1) as nat);
        assert(m1 =~= r1.insert(mx));
        assert(m2 =~= r2.insert(mx));
    }
}

/// Offering the items of any finite sequence `s`, one by one, to an empty
/// shortlist of capacity `k` retains exactly the `k` largest items of `s`.
pub proof fn lemma_retains_largest<T: Ord>(k: nat, s: Seq<T>)
    requires
        total_order::<T>(),
        k > 0,
    ensures
        is_top_k(after_pushes(Multiset::empty(), k, s), s.to_multiset(), k),
{
    let e = Multiset::<T>::empty();
    lemma_top_k_of_self(e, k);
    lemma_after_pushes_top_k(e, e, k, s);
    assert(e.add(s.to_multiset()) =~= s.to_multiset());
}

/// At every point the number of retained items is the capacity or the number
/// of items offered so far, whichever is smaller.
pub proof fn lemma_len_after_pushes<T: Ord>(m: Multiset<T>, k: nat, s: Seq<T>)
    requires
        total_order::<T>(),
        k > 0,
        m.len() <= k,
    ensures
        after_pushes(m, k, s).len() == min_nat(k, m.len() + s.len()),
{
    broadcast use vstd::seq_lib::group_to_multiset_ensures;

    lemma_top_k_of_self(m, k);
    lemma_after_pushes_top_k(m, m, k, s);
}

/// Reordering the offered items does not change what is retained: two
/// sequences with the same items leave the same retained multiset.
pub proof fn lemma_order_independent<T: Ord>(k: nat, s1: Seq<T>, s2: Seq<T>)
    requires
        total_order::<T>(),
        k > 0,
        s1.to_multiset() == s2.to_multiset(),
    ensures
        after_pushes(Multiset::empty(), k, s1) == after_pushes(Multiset::empty(), k, s2),
{
    lemma_retains_largest(k, s1);
    lemma_retains_largest(k, s2);
    lemma_top_k_unique(
        after_pushes(Multiset::empty(), k, s1),
        after_pushes(Multiset::empty(), k, s2),
        s1.to_multiset(),
        k,
    );
}

/// Merging: offering the items `b` of one shortlist, in any order, to a
/// shortlist of capacity `k` holding `a` retains the `k` largest items of
/// `a` and `b` together.
pub proof fn lemma_merge_keeps_largest<T: Ord>(a: Multiset<T>, k: nat, b: Seq<T>)
    requires
        total_order::<T>(),
        k > 0,
        a.len() <= k,
    ensures
        is_top_k(after_pushes(a, k, b), a.add(b.to_multiset()), k),
{
    lemma_top_k_of_self(a, k);
    lemma_after_pushes_top_k(a, a, k, b);
}

/// The items retained from `s` with capacity `k` are the last `min(k, |s|)`
/// items of `s` sorted: for any ascending `q` with the items of `s`, they are
/// the items of `q`'s suffix of that length.
pub proof fn lemma_retains_sorted_suffix<T: Ord>(k: nat, s: Seq<T>, q: Seq<T>)
    requires
        total_order::<T>(),
        k > 0,
        ascending(q),
        q.to_multiset() == s.to_multiset(),
    ensures
        after_pushes(Multiset::empty(), k, s) == q.subrange(
            q.len() - min_nat(k, q.len()),
            q.len() as int,
        ).to_multiset(),
{
    broadcast use vstd::seq_lib::group_to_multiset_ensures;

    let n = q.len() as int;
    let cut = n - min_nat(k, q.len());
    let low = q.subrange(0, cut);
    let high = q.subrange(cut, n);
    assert(q == low + high);
    vstd::seq_lib::lemma_multiset_commutative(low, high);
    let sm = s.to_multiset();
    let hm = high.to_multiset();
    assert forall|x: T, y: T|
        #![trigger hm.count(x), sm.count(y)]
        hm.count(x) > 0 && sm.count(y) > hm.count(y) implies le(y, x) by {
        assert(low.to_multiset().count(y) > 0);
        assert(low.contains(y));
        assert(high.contains(x));
        let i = choose|i: int| 0 <= i < low.len() && low[i] == y;
        let j = choose|j: int| 0 <= j < high.len() && high[j] == x;
        assert(q[i] == y);
        assert(q[cut + j] == x);
    }
    assert(is_top_k(hm, sm, k));
    lemma_retains_largest(k, s);
    lemma_top_k_unique(after_pushes(Multiset::empty(), k, s), hm, sm, k);
}

} // verus!
