//! Path tokens: the short stack of child and triangle indices that records
//! which way a ray went through composite geometry, so that the same path
//! can be replayed later.
use vstd::prelude::*;

verus! {

/// Most indices a path token holds.
pub const MANIFOLD_CAPACITY: usize = 2;

#[derive(Copy, Clone, Debug, PartialEq, Eq)]
pub struct Manifold {
    array: [u32; 2],
    len: usize,
}

impl Manifold {
    /// The indices held, from the bottom of the stack to its top.
    pub closed spec fn view(&self) -> Seq<usize> {
        Seq::new(self.len as nat, |i: int| self.array@[i] as usize)
    }

    pub closed spec fn wf(&self) -> bool {
        self.len <= MANIFOLD_CAPACITY
    }

    pub fn empty() -> (r: Self)
        ensures
            r.wf(),
            r@ == Seq::<usize>::empty(),
    {
        let r = Manifold { array: [0, 0], len: 0 };
        assert(r@ =~= Seq::<usize>::empty());
        r
    }

    pub fn is_empty(&self) -> (r: bool)
        ensures
            r == (self@.len() == 0),
    {
        self.len == 0
    }

    pub fn len(&self) -> (r: usize)
        requires
            self.wf(),
        ensures
            r == self@.len(),
            r <= MANIFOLD_CAPACITY,
    {
        self.len
    }

    /// The token with `other` pushed on top. A full token, or an index that
    /// does not fit in 32 bits, is a caller error.
    pub fn push(self, other: usize) -> (r: Self)
        requires
            self.wf(),
            self@.len() < MANIFOLD_CAPACITY,
            other <= u32::MAX,
        ensures
            r.wf(),
            r@ == self@.push(other),
    {
        let mut r = self;
        r.array[r.len] = other as u32;
        r.len = r.len + 1;
        assert(r@ =~= self@.push(other));
        r
    }

    /// Splits off the top index, if any.
    pub fn pop(self) -> (r: Option<(Self, usize)>)
        requires
            self.wf(),
        ensures
            r is None <==> self@.len() == 0,
            r matches Some((rest, top)) ==> rest.wf() && self@ == rest@.push(top),
    {
        if self.len == 0 {
            return None;
        }
        let mut r = self;
        r.len = r.len - 1;
        let end = r.array[r.len];
        r.array[r.len] = 0;
        assert(self@ =~= r@.push(end as usize));
        Some((r, end as usize))
    }
}

} // verus!
