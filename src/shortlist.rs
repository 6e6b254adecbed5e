//! The shortlist: a bounded min-heap that keeps the largest items offered to it.
use crate::heap::{
    heap_sort_descending, is_heap, lemma_heap_least, pop_min, reverse_in_place, sift_down, sift_up,
};
use crate::order::{ascending, clones_equal, le, le_exec, lemma_le_total_order, total_order};
use crate::retain::{after_push, after_pushes, is_least, lemma_least, min_nat};
use vstd::multiset::Multiset;
use vstd::pervasive::strictly_cloned;
use vstd::prelude::*;
use vstd::std_specs::iter::IteratorSpec;

verus! {

broadcast use {
    vstd::seq_lib::group_to_multiset_ensures,
    vstd::std_specs::vec::axiom_spec_into_iter,
    vstd::std_specs::slice::axiom_spec_slice_iter,
    vstd::multiset::group_multiset_axioms,
    vstd::multiset::group_multiset_properties,
};

/// Keeps the largest items offered to it, up to a fixed capacity.
///
/// The items sit in a min-heap whose storage is reserved once, at construction,
/// so the smallest retained item, the one to evict, is always at hand.
#[derive(Debug, Clone)]
pub struct Shortlist<T> {
    heap: Vec<T>,
    cap: usize,
}

impl<T> View for Shortlist<T> {
    type V = Multiset<T>;

    /// The retained items.
    open spec fn view(&self) -> Multiset<T> {
        self.items().to_multiset()
    }
}

impl<T> Shortlist<T> {
    /// The retained items in storage order.
    pub closed spec fn items(&self) -> Seq<T> {
        self.heap@
    }

    /// The capacity fixed at construction.
    pub closed spec fn max_len(&self) -> nat {
        self.cap as nat
    }

    /// The capacity fixed at construction.
    pub fn capacity(&self) -> (r: usize)
        ensures
            r == self.max_len(),
    {
        self.cap
    }

    /// The number of retained items.
    pub fn len(&self) -> (r: usize)
        ensures
            r == self.items().len(),
    {
        self.heap.len()
    }

    /// Whether nothing is retained.
    pub fn is_empty(&self) -> (r: bool)
        ensures
            r <==> self.items().len() == 0,
    {
        self.heap.len() == 0
    }

    /// The retained items, by reference, in storage order.
    pub fn iter(&self) -> (r: std::slice::Iter<'_, T>)
        ensures
            r.remaining() == self.items().as_ref(),
    {
        self.heap.iter()
    }

    /// Gives up the storage itself: the retained items in storage order.
    pub fn into_vec(self) -> (r: Vec<T>)
        ensures
            r@ == self.items(),
    {
        self.heap
    }

    /// Moves the retained items one by one into a new vector, in storage order.
    pub fn into_vec_safe(self) -> (r: Vec<T>)
        ensures
            r@ == self.items(),
    {
        let ghost items = self.heap@;
        let mut out: Vec<T> = Vec::with_capacity(self.heap.len());
        for x in it: self.heap
            invariant
                it.seq() == items,
                out@ == items.take(it.index()),
        {
            out.push(x);
            assert(out@ =~= items.take(it.index() + 1));
        }
        assert(items.take(items.len() as int) =~= items);
        out
    }
}

impl<T: Ord> Shortlist<T> {
    /// The storage is a min-heap of at most `max_len() > 0` items.
    pub closed spec fn wf(&self) -> bool {
        &&& self.cap > 0
        &&& self.heap@.len() <= self.cap
        &&& is_heap(self.heap@, self.heap@.len() as int)
    }

    /// What follows from being well formed.
    pub proof fn lemma_wf(&self)
        requires
            self.wf(),
        ensures
            self.max_len() > 0,
            self.items().len() <= self.max_len(),
    {
    }

    /// An empty shortlist that will retain up to `capacity` items.
    pub fn new(capacity: usize) -> (r: Shortlist<T>)
        requires
            capacity > 0,
        ensures
            r.wf(),
            r.max_len() == capacity,
            r.items() == Seq::<T>::empty(),
            r@ == Multiset::<T>::empty(),
    {
        let r = Shortlist { heap: Vec::with_capacity(capacity), cap: capacity };
        assert(r@ =~= Multiset::<T>::empty());
        r
    }

    /// An empty shortlist that will retain up to `capacity` items, or `None`
    /// when `capacity` is zero.
    pub fn try_new(capacity: usize) -> (r: Option<Shortlist<T>>)
        ensures
            r is None <==> capacity == 0,
            r matches Some(s) ==> s.wf() && s.max_len() == capacity && s.items() == Seq::<
                T,
            >::empty(),
    {
        if capacity == 0 {
            None
        } else {
            Some(Shortlist::new(capacity))
        }
    }

    /// Offers `item`: below capacity it is kept; at capacity it replaces the
    /// smallest retained item if it is strictly larger, and is dropped otherwise.
    pub fn push(&mut self, item: T)
        requires
            old(self).wf(),
            total_order::<T>(),
        ensures
            final(self).wf(),
            final(self).max_len() == old(self).max_len(),
            final(self)@ == after_push(old(self)@, old(self).max_len(), item),
            final(self).items().len() == min_nat(
                old(self).max_len(),
                old(self).items().len() + 1,
            ),
    {
        let n = self.heap.len();
        if n < self.cap {
            self.heap.push(item);
            sift_up(&mut self.heap, n);
        } else if le_exec(&item, &self.heap[0]) {
            proof {
                lemma_heap_least(self.heap@);
            }
        } else {
            let ghost before = self.heap@;
            proof {
                lemma_heap_least(before);
                lemma_le_total_order::<T>();
            }
            self.heap.set(0, item);
            assert(self.heap@.to_multiset() =~= before.to_multiset().remove(before[0]).insert(item));
            let ghost mid = self.heap@;
            assert(mid.subrange(0, n as int) =~= mid);
            sift_down(&mut self.heap, 0, n);
            assert(self.heap@.subrange(0, n as int) =~= self.heap@);
        }
    }

    /// Offers every item of `contents`, in order. The iterator must be finite,
    /// with a measure that each step decreases.
    pub fn append<I: Iterator<Item = T>>(&mut self, contents: I)
        requires
            old(self).wf(),
            total_order::<T>(),
            contents.obeys_prophetic_iter_laws(),
            contents.decrease() is Some,
        ensures
            final(self).wf(),
            final(self).max_len() == old(self).max_len(),
            final(self)@ == after_pushes(old(self)@, old(self).max_len(), contents.remaining()),
    {
        let ghost items = contents.remaining();
        let ghost mut done: int = 0;
        let mut rest = contents;
        loop
            invariant
                total_order::<T>(),
                rest.obeys_prophetic_iter_laws(),
                rest.decrease() is Some,
                0 <= done <= items.len(),
                rest.remaining() == items.skip(done),
                self.wf(),
                self.max_len() == old(self).max_len(),
                self@ == after_pushes(old(self)@, old(self).max_len(), items.take(done)),
            ensures
                self.wf(),
                self.max_len() == old(self).max_len(),
                self@ == after_pushes(old(self)@, old(self).max_len(), items),
            decreases rest.decrease()->0,
        {
            match rest.next() {
                Some(x) => {
                    assert(items.take(done + 1).drop_last() =~= items.take(done));
                    assert(items.skip(done)[0] == items[done]);
                    self.push(x);
                    proof {
                        assert(items.skip(done).drop_first() =~= items.skip(done + 1));
                        done = done + 1;
                    }
                },
                None => {
                    assert(items.skip(done).len() == 0);
                    assert(items.take(done) =~= items);
                    break;
                },
            }
        }
    }

    /// Offers a clone of `item`, made only when the item is retained.
    pub fn clone_push(&mut self, item: &T) where T: Clone
        requires
            old(self).wf(),
            total_order::<T>(),
            clones_equal::<T>(),
        ensures
            final(self).wf(),
            final(self).max_len() == old(self).max_len(),
            final(self)@ == after_push(old(self)@, old(self).max_len(), *item),
            final(self).items().len() == min_nat(
                old(self).max_len(),
                old(self).items().len() + 1,
            ),
    {
        if self.heap.len() < self.cap || !le_exec(item, &self.heap[0]) {
            let c = item.clone();
            assert(strictly_cloned(*item, c));
            self.push(c);
        } else {
            proof {
                lemma_heap_least(self.heap@);
            }
        }
    }

    /// Offers a clone of every item of `contents`, in order.
    pub fn append_slice(&mut self, contents: &[T]) where T: Clone
        requires
            old(self).wf(),
            total_order::<T>(),
            clones_equal::<T>(),
        ensures
            final(self).wf(),
            final(self).max_len() == old(self).max_len(),
            final(self)@ == after_pushes(old(self)@, old(self).max_len(), contents@),
    {
        let n = contents.len();
        for i in 0..n
            invariant
                n == contents@.len(),
                total_order::<T>(),
                clones_equal::<T>(),
                self.wf(),
                self.max_len() == old(self).max_len(),
                self@ == after_pushes(old(self)@, old(self).max_len(), contents@.take(i as int)),
        {
            assert(contents@.take(i + 1).drop_last() =~= contents@.take(i as int));
            self.clone_push(&contents[i]);
        }
        assert(contents@.take(n as int) =~= contents@);
    }

    /// A shortlist of capacity `capacity` offered the items of `contents` in order.
    pub fn from_iter<I: Iterator<Item = T>>(capacity: usize, contents: I) -> (r: Shortlist<T>)
        requires
            capacity > 0,
            total_order::<T>(),
            contents.obeys_prophetic_iter_laws(),
            contents.decrease() is Some,
        ensures
            r.wf(),
            r.max_len() == capacity,
            r@ == after_pushes(Multiset::empty(), capacity as nat, contents.remaining()),
    {
        let mut s = Shortlist::new(capacity);
        s.append(contents);
        s
    }

    /// A shortlist of capacity `capacity` offered clones of the items of
    /// `contents` in order.
    pub fn from_slice(capacity: usize, contents: &[T]) -> (r: Shortlist<T>) where T: Clone
        requires
            capacity > 0,
            total_order::<T>(),
            clones_equal::<T>(),
        ensures
            r.wf(),
            r.max_len() == capacity,
            r@ == after_pushes(Multiset::empty(), capacity as nat, contents@),
    {
        let mut s = Shortlist::new(capacity);
        s.append_slice(contents);
        s
    }

    /// Removes every retained item and hands them out in storage order; the
    /// shortlist is left empty with its capacity.
    pub fn drain(&mut self) -> (r: std::vec::IntoIter<T>)
        requires
            old(self).wf(),
        ensures
            final(self).wf(),
            final(self).max_len() == old(self).max_len(),
            final(self).items() == Seq::<T>::empty(),
            r.remaining() == old(self).items(),
    {
        let taken = self.heap.split_off(0);
        taken.into_iter()
    }

    /// Discards every retained item, keeping the capacity and the storage.
    pub fn clear(&mut self)
        requires
            old(self).wf(),
        ensures
            final(self).wf(),
            final(self).max_len() == old(self).max_len(),
            final(self).items() == Seq::<T>::empty(),
    {
        self.heap.clear();
    }

    /// Moves every item of `other` into this shortlist, offering them in
    /// `other`'s storage order; `other` is left empty with its capacity.
    pub fn merge(&mut self, other: &mut Shortlist<T>)
        requires
            old(self).wf(),
            old(other).wf(),
            total_order::<T>(),
        ensures
            final(self).wf(),
            final(other).wf(),
            final(self).max_len() == old(self).max_len(),
            final(other).max_len() == old(other).max_len(),
            final(self)@ == after_pushes(old(self)@, old(self).max_len(), old(other).items()),
            final(other).items() == Seq::<T>::empty(),
    {
        let taken = other.heap.split_off(0);
        assert(taken@ =~= old(other).items());
        self.append(taken.into_iter());
    }

    /// Consumes the shortlist: the retained items in ascending order, each
    /// moved once into a new vector.
    pub fn into_sorted_vec_safe(self) -> (r: Vec<T>)
        requires
            self.wf(),
            total_order::<T>(),
        ensures
            r@.to_multiset() == self@,
            ascending(r@),
    {
        let ghost all = self@;
        let mut heap = self.heap;
        let mut out: Vec<T> = Vec::with_capacity(heap.len());
        while heap.len() > 0
            invariant
                total_order::<T>(),
                is_heap(heap@, heap@.len() as int),
                out@.to_multiset().add(heap@.to_multiset()) == all,
                forall|i: int, j: int| 0 <= i < j < out@.len() ==> le(out@[i], out@[j]),
                forall|i: int, x: T|
                    #![trigger out@[i], heap@.to_multiset().count(x)]
                    0 <= i < out@.len() && heap@.to_multiset().count(x) > 0 ==> le(
                        out@[i],
                        x,
                    ),
            decreases heap@.len(),
        {
            let ghost before = heap@;
            proof {
                lemma_heap_least(before);
                lemma_least(before.to_multiset());
            }
            let x = pop_min(&mut heap);
            proof {
                assert(before.to_multiset().count(x) > 0);
                assert(is_least(before.to_multiset(), x));
            }
            out.push(x);
            proof {
                assert(out@.to_multiset().add(heap@.to_multiset()) =~= all);
            }
        }
        assert(heap@.to_multiset() =~= Multiset::empty());
        assert(out@.to_multiset() =~= all);
        out
    }

    /// Consumes the shortlist: the retained items in ascending order, sorted in
    /// place in the shortlist's own storage, with no new allocation.
    pub fn into_sorted_vec(self) -> (r: Vec<T>)
        requires
            self.wf(),
            total_order::<T>(),
        ensures
            r@.to_multiset() == self@,
            ascending(r@),
    {
        let mut v = self.heap;
        heap_sort_descending(&mut v);
        let ghost d = v@;
        reverse_in_place(&mut v);
        proof {
            d.lemma_reverse_to_multiset();
            assert forall|i: int, j: int| 0 <= i < j < v@.len() implies le(v@[i], v@[j]) by {
                assert(v@[i] == d[d.len() - 1 - i]);
                assert(v@[j] == d[d.len() - 1 - j]);
            }
        }
        v
    }

    /// The retained items in ascending order, as clones; the shortlist is kept.
    pub fn sorted_cloned_vec(&self) -> (r: Vec<T>) where T: Clone
        requires
            self.wf(),
            total_order::<T>(),
            clones_equal::<T>(),
        ensures
            r@.to_multiset() == self@,
            ascending(r@),
    {
        let copy = self.heap.clone();
        assert(copy@ =~= self.heap@);
        let s = Shortlist { heap: copy, cap: self.cap };
        s.into_sorted_vec_safe()
    }
}

} // verus!
