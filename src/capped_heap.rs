//! A max-heap that never holds more than a fixed number of values: once
//! full, each push drops the largest value.
use vstd::multiset::Multiset;
use vstd::prelude::*;
use crate::binary_heap::{is_max_of, sorted_seq, BinaryHeap};

verus! {

pub struct CappedHeap {
    heap: BinaryHeap,
    cap: usize,
}

impl CappedHeap {
    /// The values held.
    pub closed spec fn view(&self) -> Multiset<usize> {
        self.heap@
    }

    /// The bound given at construction.
    pub closed spec fn cap(&self) -> nat {
        self.cap as nat
    }

    pub closed spec fn wf(&self) -> bool {
        self.heap.wf() && self.heap@.len() <= self.cap
    }

    pub fn with_capacity(cap: usize) -> (r: Self)
        ensures
            r.wf(),
            r@ =~= Multiset::empty(),
            r.cap() == cap,
            r@.len() <= r.cap(),
    {
        CappedHeap { heap: BinaryHeap::with_capacity(cap), cap }
    }

    /// Adds `x`; when the heap was full, the largest of the values and `x`
    /// is dropped.
    pub fn push(&mut self, x: usize)
        requires
            old(self).wf(),
        ensures
            final(self).wf(),
            final(self).cap() == old(self).cap(),
            final(self)@.len() <= final(self).cap(),
            old(self)@.len() < old(self).cap() ==> final(self)@ == old(self)@.insert(x),
            old(self)@.len() == old(self).cap() ==> exists|m: usize|
                is_max_of(m, old(self)@.insert(x)) && final(self)@ == #[trigger] old(self)@.insert(x).remove(m),
    {
        if self.heap.len() == self.cap {
            let m = self.heap.push_pop(x);
            assert(self.heap@ == old(self)@.insert(x).remove(m));
        } else {
            self.heap.push(x);
        }
    }

    /// The largest value held, if any.
    pub fn peek(&self) -> (r: Option<&usize>)
        requires
            self.wf(),
        ensures
            r is None <==> self@.len() == 0,
            r matches Some(x) ==> is_max_of(*x, self@),
    {
        self.heap.peek()
    }

    /// The values in non-decreasing order.
    pub fn into_sorted_vec(self) -> (r: Vec<usize>)
        requires
            self.wf(),
        ensures
            sorted_seq(r@),
            r@.to_multiset() == self@,
    {
        self.heap.into_sorted_vec()
    }

    pub fn len(&self) -> (r: usize)
        ensures
            r == self@.len(),
    {
        self.heap.len()
    }

    pub fn capacity(&self) -> (r: usize)
        ensures
            r == self.cap(),
    {
        self.cap
    }
}

} // verus!
