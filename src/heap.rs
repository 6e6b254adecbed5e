//! A binary min-heap laid out in the first slots of a `Vec`: the item in slot
//! `i > 0` is never smaller than the item in slot `(i - 1) / 2`.
use crate::order::{le, le_exec, lemma_le_total_order, total_order};
use crate::retain::{is_least, least};
use vstd::prelude::*;

verus! {

broadcast use vstd::seq_lib::group_to_multiset_ensures;

/// The slot above slot `i`.
pub open spec fn parent(i: int) -> int {
    (i - 1) / 2
}

/// The first `n` items of `s` form a min-heap.
pub open spec fn is_heap<T: Ord>(s: Seq<T>, n: int) -> bool {
    forall|i: int| #![trigger s[i]] 0 < i < n ==> le(s[parent(i)], s[i])
}

/// A min-heap but for the link from slot `k` up to its parent.
pub open spec fn heap_but_up<T: Ord>(s: Seq<T>, n: int, k: int) -> bool {
    forall|i: int| #![trigger s[i]] 0 < i < n && i != k ==> le(s[parent(i)], s[i])
}

/// A min-heap but for the links from slot `k` down to its children.
pub open spec fn heap_but_down<T: Ord>(s: Seq<T>, n: int, k: int) -> bool {
    forall|i: int| #![trigger s[i]] 0 < i < n && parent(i) != k ==> le(s[parent(i)], s[i])
}

/// `s` is `t` with the items in slots `i` and `j` exchanged.
pub open spec fn swapped<T>(t: Seq<T>, i: int, j: int) -> Seq<T> {
    t.update(i, t[j]).update(j, t[i])
}

/// The first slot of a non-empty heap holds its smallest item.
pub proof fn lemma_root_least<T: Ord>(s: Seq<T>, n: int, i: int)
    requires
        total_order::<T>(),
        is_heap(s, n),
        0 <= i < n <= s.len(),
    ensures
        le(s[0], s[i]),
    decreases i,
{
    lemma_le_total_order::<T>();
    if i > 0 {
        lemma_root_least(s, n, parent(i));
        assert(le(s[parent(i)], s[i]));
    }
}

/// The first slot of a non-empty heap holds the least item of the heap.
pub proof fn lemma_heap_least<T: Ord>(s: Seq<T>)
    requires
        total_order::<T>(),
        is_heap(s, s.len() as int),
        s.len() > 0,
    ensures
        least(s.to_multiset()) == s[0],
{
    lemma_le_total_order::<T>();
    let m = s.to_multiset();
    assert(s.contains(s[0]));
    assert forall|y: T| #[trigger] m.count(y) > 0 implies le(s[0], y) by {
        assert(s.contains(y));
        let i = choose|i: int| 0 <= i < s.len() && s[i] == y;
        lemma_root_least(s, s.len() as int, i);
    }
    assert(is_least(m, s[0]));
    let x = least(m);
    assert(is_least(m, x));
    assert(le(x, s[0]) && le(s[0], x));
}

/// Exchanging two slots keeps the multiset of items.
pub proof fn lemma_swapped_multiset<T>(t: Seq<T>, i: int, j: int)
    requires
        0 <= i < t.len(),
        0 <= j < t.len(),
    ensures
        swapped(t, i, j).to_multiset() == t.to_multiset(),
{
    broadcast use {vstd::multiset::group_multiset_axioms, vstd::multiset::group_multiset_properties};

    let u = t.update(i, t[j]);
    assert(u.to_multiset() == t.to_multiset().insert(t[j]).remove(t[i]));
    assert(swapped(t, i, j).to_multiset() == u.to_multiset().insert(t[i]).remove(u[j]));
    if i == j {
        assert(swapped(t, i, j) =~= t);
    } else {
        assert(swapped(t, i, j).to_multiset() =~= t.to_multiset());
    }
}

/// Exchanges the items in slots `i` and `j`, moving them without copies and
/// without growing the vector's allocation.
pub fn swap_slots<T>(v: &mut Vec<T>, i: usize, j: usize)
    requires
        i < old(v).len(),
        j < old(v).len(),
    ensures
        final(v)@ == swapped(old(v)@, i as int, j as int),
{
    let ghost start = v@;
    if i == j {
        assert(swapped(start, i as int, j as int) =~= start);
        return ;
    }
    let n = v.len();
    let mut spare = match v.pop() {
        Some(x) => x,
        None => {
            return ;
        },
    };
    if i == n - 1 {
        v.set_and_swap(j, &mut spare);
        v.push(spare);
    } else if j == n - 1 {
        v.set_and_swap(i, &mut spare);
        v.push(spare);
    } else {
        v.set_and_swap(i, &mut spare);
        v.set_and_swap(j, &mut spare);
        v.set_and_swap(i, &mut spare);
        v.push(spare);
    }
    assert(v@ =~= swapped(start, i as int, j as int));
}

/// Moves the item in slot `k` up until its parent is no larger.
pub fn sift_up<T: Ord>(v: &mut Vec<T>, k: usize)
    requires
        total_order::<T>(),
        k < old(v).len(),
        heap_but_up(old(v)@, old(v)@.len() as int, k as int),
        k > 0 ==> forall|c: int|
            #![trigger old(v)@[c]]
            0 < c < old(v)@.len() && parent(c) == k ==> le(
                old(v)@[parent(k as int)],
                old(v)@[c],
            ),
    ensures
        final(v)@.len() == old(v)@.len(),
        final(v)@.to_multiset() == old(v)@.to_multiset(),
        is_heap(final(v)@, final(v)@.len() as int),
{
    proof {
        lemma_le_total_order::<T>();
    }
    let ghost start = v@;
    let n = v.len();
    let mut k = k;
    while k > 0
        invariant
            total_order::<T>(),
            start == old(v)@,
            start.len() == n,
            v@.len() == n,
            k < n,
            v@.to_multiset() == start.to_multiset(),
            heap_but_up(v@, n as int, k as int),
            k > 0 ==> forall|c: int|
                #![trigger v@[c]]
                0 < c < n && parent(c) == k ==> le(v@[parent(k as int)], v@[c]),
        decreases k,
    {
        proof {
            lemma_le_total_order::<T>();
        }
        let p = (k - 1) / 2;
        if le_exec(&v[p], &v[k]) {
            assert(is_heap(v@, n as int));
            return ;
        }
        let ghost before = v@;
        swap_slots(v, k, p);
        proof {
            lemma_swapped_multiset(before, k as int, p as int);
            assert(le(before[k as int], before[p as int]));
            assert forall|i: int| #![trigger v@[i]] 0 < i < n && i != p implies le(
                v@[parent(i)],
                v@[i],
            ) by {
                if i == k {
                } else if parent(i) == k {
                    assert(le(before[p as int], before[i]));
                } else if parent(i) == p {
                    assert(le(before[p as int], before[i]));
                } else {
                    assert(before[i] == v@[i]);
                    assert(le(before[parent(i)], before[i]));
                }
            }
            if p > 0 {
                assert forall|c: int| #![trigger v@[c]] 0 < c < n && parent(c) == p implies le(
                    v@[parent(p as int)],
                    v@[c],
                ) by {
                    assert(le(before[parent(p as int)], before[p as int]));
                    if c != k {
                        assert(le(before[p as int], before[c]));
                    }
                }
            }
        }
        k = p;
    }
    assert(is_heap(v@, n as int));
}

/// Moves the item in slot `k` down, within the first `n` slots, until no child
/// is smaller; slots from `n` on are left alone.
pub fn sift_down<T: Ord>(v: &mut Vec<T>, k: usize, n: usize)
    requires
        total_order::<T>(),
        k < n <= old(v).len(),
        heap_but_down(old(v)@, n as int, k as int),
        k > 0 ==> forall|c: int|
            #![trigger old(v)@[c]]
            0 < c < n && parent(c) == k ==> le(old(v)@[parent(k as int)], old(v)@[c]),
    ensures
        final(v)@.len() == old(v)@.len(),
        final(v)@.to_multiset() == old(v)@.to_multiset(),
        final(v)@.subrange(0, n as int).to_multiset() == old(v)@.subrange(0, n as int).to_multiset(),
        final(v)@.subrange(n as int, final(v)@.len() as int) == old(v)@.subrange(
            n as int,
            old(v)@.len() as int,
        ),
        is_heap(final(v)@, n as int),
{
    proof {
        lemma_le_total_order::<T>();
    }
    let ghost start = v@;
    let mut k = k;
    loop
        invariant
            total_order::<T>(),
            start == old(v)@,
            k < n <= v@.len(),
            v@.len() == start.len(),
            v@.to_multiset() == start.to_multiset(),
            v@.subrange(0, n as int).to_multiset() == start.subrange(0, n as int).to_multiset(),
            v@.subrange(n as int, v@.len() as int) == start.subrange(n as int, start.len() as int),
            heap_but_down(v@, n as int, k as int),
            k > 0 ==> forall|c: int|
                #![trigger v@[c]]
                0 < c < n && parent(c) == k ==> le(v@[parent(k as int)], v@[c]),
        decreases n - k,
    {
        proof {
            lemma_le_total_order::<T>();
        }
        if k >= n / 2 {
            assert(is_heap(v@, n as int));
            return ;
        }
        let l = 2 * k + 1;
        let mut m = l;
        if l + 1 < n && !le_exec(&v[l], &v[l + 1]) {
            m = l + 1;
        }
        if le_exec(&v[k], &v[m]) {
            assert(is_heap(v@, n as int)) by {
                assert forall|i: int| #![trigger v@[i]] 0 < i < n implies le(v@[parent(i)], v@[i]) by {
                    if parent(i) == k {
                        assert(i == l || i == l + 1);
                        assert(l + 1 < n ==> le(v@[m as int], v@[l + 1]));
                        assert(le(v@[m as int], v@[l as int]));
                    }
                }
            }
            return ;
        }
        let ghost before = v@;
        swap_slots(v, k, m);
        proof {
            lemma_swapped_multiset(before, k as int, m as int);
            lemma_swapped_multiset(before.subrange(0, n as int), k as int, m as int);
            assert(v@.subrange(0, n as int) =~= swapped(
                before.subrange(0, n as int),
                k as int,
                m as int,
            ));
            assert(v@.subrange(n as int, v@.len() as int) =~= before.subrange(
                n as int,
                before.len() as int,
            ));
            assert(le(before[m as int], before[k as int]));
            assert(l + 1 < n ==> le(before[m as int], before[l + 1]));
            assert(le(before[m as int], before[l as int]));
            assert forall|i: int| #![trigger v@[i]] 0 < i < n && parent(i) != m implies le(
                v@[parent(i)],
                v@[i],
            ) by {
                if i == m {
                } else if parent(i) == k {
                    assert(i == l || i == l + 1);
                } else if i == k {
                    assert(le(before[parent(k as int)], before[m as int]));
                } else {
                    assert(before[i] == v@[i]);
                    assert(le(before[parent(i)], before[i]));
                }
            }
            assert forall|c: int| #![trigger v@[c]] 0 < c < n && parent(c) == m implies le(
                v@[parent(m as int)],
                v@[c],
            ) by {
                assert(le(before[m as int], before[c]));
            }
        }
        k = m;
    }
}

/// Removes and returns the item in the first slot, the smallest of the heap.
pub fn pop_min<T: Ord>(v: &mut Vec<T>) -> (r: T)
    requires
        total_order::<T>(),
        old(v)@.len() > 0,
        is_heap(old(v)@, old(v)@.len() as int),
    ensures
        r == old(v)@[0],
        final(v)@.len() == old(v)@.len() - 1,
        final(v)@.to_multiset() == old(v)@.to_multiset().remove(r),
        is_heap(final(v)@, final(v)@.len() as int),
{
    broadcast use {vstd::multiset::group_multiset_axioms, vstd::multiset::group_multiset_properties};

    let ghost before = v@;
    let r = v.swap_remove(0);
    let n = v.len();
    proof {
        let u = before.update(0, before.last());
        assert(u.remove(n as int) =~= v@);
        assert(v@.to_multiset() =~= before.to_multiset().remove(r));
    }
    if n > 0 {
        let ghost mid = v@;
        assert(mid.subrange(0, n as int) =~= mid);
        sift_down(v, 0, n);
        assert(v@.subrange(0, n as int) =~= v@);
    }
    r
}

/// Sorts a heap in place, largest item first: each round moves the smallest
/// item of the shrinking heap to the slot just past it.
pub fn heap_sort_descending<T: Ord>(v: &mut Vec<T>)
    requires
        total_order::<T>(),
        is_heap(old(v)@, old(v)@.len() as int),
    ensures
        final(v)@.len() == old(v)@.len(),
        final(v)@.to_multiset() == old(v)@.to_multiset(),
        forall|i: int, j: int| 0 <= i < j < final(v)@.len() ==> le(final(v)@[j], final(v)@[i]),
{
    broadcast use {vstd::multiset::group_multiset_axioms, vstd::multiset::group_multiset_properties};

    let ghost start = v@;
    let len = v.len();
    let mut n = len;
    while n > 1
        invariant
            total_order::<T>(),
            start == old(v)@,
            start.len() == len,
            v@.len() == len,
            n <= len,
            v@.to_multiset() == start.to_multiset(),
            is_heap(v@, n as int),
            forall|i: int, j: int| n <= i < j < len ==> le(v@[j], v@[i]),
            forall|j: int, x: T|
                #![trigger v@[j], v@.subrange(0, n as int).to_multiset().count(x)]
                n <= j < len && v@.subrange(0, n as int).to_multiset().count(x) > 0 ==> le(v@[j], x),
        decreases n,
    {
        proof {
            lemma_le_total_order::<T>();
        }
        let ghost before = v@;
        let ghost pre = before.subrange(0, n as int);
        let ghost r = before[0];
        proof {
            assert forall|x: T| #[trigger] pre.to_multiset().count(x) > 0 implies le(r, x) by {
                assert(pre.contains(x));
                let i = choose|i: int| 0 <= i < pre.len() && pre[i] == x;
                lemma_root_least(before, n as int, i);
            }
            assert(pre[0] == r);
            assert(pre.to_multiset().count(r) > 0);
        }
        swap_slots(v, 0, n - 1);
        let ghost mid = v@;
        proof {
            lemma_swapped_multiset(before, 0, n - 1);
            lemma_swapped_multiset(pre, 0, n - 1);
            assert(mid.subrange(0, n as int) =~= swapped(pre, 0, n - 1));
            let w = mid.subrange(0, n as int);
            assert(w.remove(n - 1) =~= mid.subrange(0, n - 1));
            assert(mid.subrange(0, n - 1).to_multiset() == pre.to_multiset().remove(r));
            assert(heap_but_down(mid, n - 1, 0));
        }
        n = n - 1;
        assert(mid.subrange(0, n as int).to_multiset() == pre.to_multiset().remove(r));
        sift_down(v, 0, n);
        proof {
            assert forall|j: int| n <= j < len implies v@[j] == mid[j] by {
                assert(v@.subrange(n as int, len as int)[j - n] == mid.subrange(n as int, len as int)[j - n]);
            }
            assert forall|i: int, j: int| n <= i < j < len implies le(v@[j], v@[i]) by {
                assert(v@[j] == mid[j]);
                assert(v@[i] == mid[i]);
                assert(mid[j] == before[j]);
                if i == n {
                    assert(mid[i] == r);
                    assert(le(before[j], r));
                } else {
                    assert(le(before[j], before[i]));
                }
            }
            assert forall|j: int, x: T|
                #![trigger v@[j], v@.subrange(0, n as int).to_multiset().count(x)]
                n <= j < len && v@.subrange(0, n as int).to_multiset().count(x) > 0 implies le(v@[j], x) by {
                assert(pre.to_multiset().count(x) > 0);
                if j == n {
                    assert(v@[j] == mid[j]);
                    assert(v@[j] == r);
                } else {
                    assert(v@[j] == mid[j]);
                    assert(mid[j] == before[j]);
                    assert(before.subrange(0, (n + 1) as int) == pre);
                }
            }
        }
    }
    proof {
        lemma_le_total_order::<T>();
        assert forall|i: int, j: int| 0 <= i < j < len implies le(v@[j], v@[i]) by {
            if i < n {
                assert(v@.subrange(0, n as int)[0] == v@[0]);
                assert(v@.subrange(0, n as int).contains(v@[0]));
                assert(v@.subrange(0, n as int).to_multiset().count(v@[0]) > 0);
            }
        }
    }
}

/// Reverses the order of the items in place.
pub fn reverse_in_place<T>(v: &mut Vec<T>)
    ensures
        final(v)@ == old(v)@.reverse(),
{
    let ghost start = v@;
    let len = v.len();
    let mut i: usize = 0;
    while i < len / 2
        invariant
            start == old(v)@,
            start.len() == len,
            v@.len() == len,
            i <= len / 2,
            forall|k: int|
                0 <= k < len ==> #[trigger] v@[k] == if k < i || k >= len - i {
                    start[len - 1 - k]
                } else {
                    start[k]
                },
        decreases len / 2 - i,
    {
        swap_slots(v, i, len - 1 - i);
        i = i + 1;
    }
    assert(v@ =~= start.reverse());
}

} // verus!
