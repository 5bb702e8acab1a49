//! The implicit balanced tree over a range of a vector: the element at the
//! structural midpoint is the node, the parts before and after it are the
//! two subtrees.
use vstd::prelude::*;

verus! {

/// Index of the node of the non-empty range `[lo, hi)`.
pub open spec fn mid_of(lo: int, hi: int) -> int {
    lo + (hi - lo) / 2
}

/// The shape of a range seen as a tree.
#[derive(Copy, Clone, Debug, PartialEq, Eq)]
pub enum SeqTreeView {
    Node { left: (usize, usize), center: usize, right: (usize, usize) },
    Empty,
}

/// A range `[start, end)` of a vector, seen as an implicit tree.
#[derive(Copy, Clone, Debug, PartialEq, Eq)]
pub struct SeqTree {
    pub start: usize,
    pub end: usize,
}

impl SeqTree {
    pub fn new(start: usize, end: usize) -> (r: Self)
        ensures
            r.start == start,
            r.end == end,
    {
        SeqTree { start, end }
    }

    /// The node and the two subtrees of this range, or `Empty`.
    pub fn as_view(&self) -> (r: SeqTreeView)
        ensures
            self.start >= self.end <==> r is Empty,
            r matches SeqTreeView::Node { left, center, right } ==> {
                &&& center == mid_of(self.start as int, self.end as int)
                &&& left == (self.start, center)
                &&& right == ((center + 1) as usize, self.end)
            },
    {
        if self.start >= self.end {
            SeqTreeView::Empty
        } else {
            let center = self.start + (self.end - self.start) / 2;
            SeqTreeView::Node { left: (self.start, center), center, right: (center + 1, self.end) }
        }
    }
}

} // verus!
