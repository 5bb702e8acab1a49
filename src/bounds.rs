//! Axis-aligned boxes and intervals over integer coordinates.
use vstd::prelude::*;
use crate::vec::{diff_of, dot_of, square_distance_of, Vec3, Vector, COORD_MAX, PRODUCT_MAX};

verus! {

pub open spec fn min_i(a: int, b: int) -> int {
    if a <= b { a } else { b }
}

pub open spec fn max_i(a: int, b: int) -> int {
    if a >= b { a } else { b }
}

/// Distance from `x` to the closed range `[lo, hi]` along one axis.
pub open spec fn gap(x: int, lo: int, hi: int) -> int {
    if x < lo { lo - x } else if x > hi { x - hi } else { 0 }
}

/// Squared Euclidean distance from point `p` to the box `[lo, hi]`.
pub open spec fn box_square_distance(lo: Seq<int>, hi: Seq<int>, p: Seq<int>) -> int {
    gap(p[0], lo[0], hi[0]) * gap(p[0], lo[0], hi[0])
        + gap(p[1], lo[1], hi[1]) * gap(p[1], lo[1], hi[1])
        + gap(p[2], lo[2], hi[2]) * gap(p[2], lo[2], hi[2])
}

/// Squared Euclidean distance between two three-dimensional points.
pub open spec fn point_square_distance(a: Seq<int>, b: Seq<int>) -> int {
    (a[0] - b[0]) * (a[0] - b[0]) + (a[1] - b[1]) * (a[1] - b[1]) + (a[2] - b[2]) * (a[2] - b[2])
}

/// For three-dimensional points the general squared distance is the sum of
/// the three squared coordinate differences.
pub proof fn lemma_square_distance_3(a: Seq<int>, b: Seq<int>)
    requires
        a.len() == 3,
        b.len() == 3,
    ensures
        square_distance_of(a, b) == point_square_distance(a, b),
{
    let d = diff_of(a, b);
    let d2 = d.take(2);
    let d1 = d.take(1);
    let d0 = d.take(0);
    assert(d.drop_last() =~= d2);
    assert(d.take(2) =~= d2);
    assert(d2.drop_last() =~= d1);
    assert(d2.take(1) =~= d1);
    assert(d1.drop_last() =~= d0);
    assert(d1.take(0) =~= d0);
    assert(dot_of(d0, d0) == 0);
    assert(dot_of(d1, d1) == d[0] * d[0]);
    assert(dot_of(d2, d2) == d[0] * d[0] + d[1] * d[1]);
}

/// The squared distance between two points is at least the square of their
/// difference along any one axis.
pub proof fn lemma_axis_le_distance(a: Seq<int>, b: Seq<int>, axis: int)
    requires
        0 <= axis < 3,
    ensures
        (a[axis] - b[axis]) * (a[axis] - b[axis]) <= point_square_distance(a, b),
{
    let x = a[0] - b[0];
    let y = a[1] - b[1];
    let z = a[2] - b[2];
    assert(0 <= x * x && 0 <= y * y && 0 <= z * z) by (nonlinear_arith);
}

/// `p` lies in the box `[lo, hi]`.
pub open spec fn box_contains(lo: Seq<int>, hi: Seq<int>, p: Seq<int>) -> bool {
    forall|i: int| 0 <= i < 3 ==> lo[i] <= #[trigger] p[i] <= hi[i]
}

proof fn lemma_gap_le(x: int, lo: int, hi: int, y: int)
    requires
        lo <= y <= hi,
    ensures
        gap(x, lo, hi) * gap(x, lo, hi) <= (x - y) * (x - y),
        0 <= gap(x, lo, hi),
{
    let g = gap(x, lo, hi);
    let d = if x >= y { x - y } else { y - x };
    assert(0 <= g <= d);
    assert(g * g <= d * d) by (nonlinear_arith)
        requires
            0 <= g <= d,
    ;
    assert(d * d == (x - y) * (x - y)) by (nonlinear_arith)
        requires
            d == x - y || d == y - x,
    ;
}

/// The squared distance from a point to a box never exceeds its squared
/// distance to any point of the box.
pub proof fn lemma_box_distance_le(lo: Seq<int>, hi: Seq<int>, p: Seq<int>, q: Seq<int>)
    requires
        box_contains(lo, hi, q),
    ensures
        box_square_distance(lo, hi, p) <= point_square_distance(p, q),
        0 <= box_square_distance(lo, hi, p),
{
    assert(lo[0] <= q[0] <= hi[0]);
    assert(lo[1] <= q[1] <= hi[1]);
    assert(lo[2] <= q[2] <= hi[2]);
    lemma_gap_le(p[0], lo[0], hi[0], q[0]);
    lemma_gap_le(p[1], lo[1], hi[1], q[1]);
    lemma_gap_le(p[2], lo[2], hi[2], q[2]);
    let g0 = gap(p[0], lo[0], hi[0]);
    let g1 = gap(p[1], lo[1], hi[1]);
    let g2 = gap(p[2], lo[2], hi[2]);
    assert(0 <= g0 * g0 && 0 <= g1 * g1 && 0 <= g2 * g2) by (nonlinear_arith)
        requires
            0 <= g0 && 0 <= g1 && 0 <= g2,
    ;
}

/// An axis-aligned box. The empty box has every minimum at `COORD_MAX` and
/// every maximum at `-COORD_MAX`, the identity of `union` over bounded
/// coordinates.
#[derive(Copy, Clone, Debug, PartialEq, Eq)]
pub struct Bounds {
    pub min: Vec3,
    pub max: Vec3,
}

impl Bounds {
    /// Both corners have bounded coordinates.
    pub open spec fn wf(&self) -> bool {
        self.min.bounded() && self.max.bounded()
    }

    pub open spec fn contains(&self, p: Seq<int>) -> bool {
        box_contains(self.min@, self.max@, p)
    }

    pub fn new(min: Vec3, max: Vec3) -> (r: Self)
        ensures
            r.min == min,
            r.max == max,
    {
        Bounds { min, max }
    }

    /// The box that holds a single point.
    pub fn from_point(p: Vec3) -> (r: Self)
        ensures
            r.min == p,
            r.max == p,
    {
        Bounds { min: p, max: p }
    }

    /// The box that contains nothing.
    pub fn empty() -> (r: Self)
        ensures
            r.wf(),
            forall|i: int| 0 <= i < 3 ==> #[trigger] r.min.c@[i] == COORD_MAX && r.max.c@[i] == -COORD_MAX,
            forall|p: Seq<int>| !r.contains(p),
    {
        let r = Bounds { min: Vector::<3>::broadcast(COORD_MAX), max: Vector::<3>::broadcast(-COORD_MAX) };
        assert forall|p: Seq<int>| !r.contains(p) by {
            assert(r.min@[0] == COORD_MAX && r.max@[0] == -COORD_MAX);
            if r.contains(p) {
                assert(r.min@[0] <= p[0] <= r.max@[0]);
            }
        }
        r
    }

    /// The smallest box that contains both boxes.
    pub fn union(&self, other: &Self) -> (r: Bounds)
        ensures
            forall|i: int| 0 <= i < 3 ==> #[trigger] r.min.c@[i] == min_i(self.min.c@[i] as int, other.min.c@[i] as int),
            forall|i: int| 0 <= i < 3 ==> #[trigger] r.max.c@[i] == max_i(self.max.c@[i] as int, other.max.c@[i] as int),
            self.wf() && other.wf() ==> r.wf(),
            forall|p: Seq<int>| self.contains(p) || other.contains(p) ==> r.contains(p),
    {
        let mut lo = self.min;
        let mut hi = self.max;
        let mut i: usize = 0;
        while i < 3
            invariant
                0 <= i <= 3,
                forall|j: int| 0 <= j < i ==> #[trigger] lo.c@[j] == min_i(self.min.c@[j] as int, other.min.c@[j] as int),
                forall|j: int| 0 <= j < i ==> #[trigger] hi.c@[j] == max_i(self.max.c@[j] as int, other.max.c@[j] as int),
            decreases 3 - i,
        {
            if other.min.c[i] < self.min.c[i] {
                lo.c[i] = other.min.c[i];
            } else {
                lo.c[i] = self.min.c[i];
            }
            if other.max.c[i] > self.max.c[i] {
                hi.c[i] = other.max.c[i];
            } else {
                hi.c[i] = self.max.c[i];
            }
            i = i + 1;
        }
        let r = Bounds { min: lo, max: hi };
        assert forall|p: Seq<int>| self.contains(p) || other.contains(p) implies r.contains(p) by {
            assert forall|j: int| 0 <= j < 3 implies r.min@[j] <= #[trigger] p[j] <= r.max@[j] by {
                assert(r.min.c@[j] == min_i(self.min.c@[j] as int, other.min.c@[j] as int));
                assert(r.max.c@[j] == max_i(self.max.c@[j] as int, other.max.c@[j] as int));
            }
        }
        r
    }

    pub fn min(&self) -> (r: Vec3)
        ensures
            r == self.min,
    {
        self.min
    }

    pub fn max(&self) -> (r: Vec3)
        ensures
            r == self.max,
    {
        self.max
    }

    pub fn min_mut(&mut self) -> (r: &mut Vec3)
        ensures
            *r == old(self).min,
            final(self).min == *final(r),
            final(self).max == old(self).max,
    {
        &mut self.min
    }

    pub fn max_mut(&mut self) -> (r: &mut Vec3)
        ensures
            *r == old(self).max,
            final(self).max == *final(r),
            final(self).min == old(self).min,
    {
        &mut self.max
    }

    /// Twice the centre of the box: the sum of its corners, which keeps the
    /// centre exact in integers.
    pub fn center(&self) -> (r: Vec3)
        requires
            self.wf(),
        ensures
            forall|i: int| 0 <= i < 3 ==> #[trigger] r.c@[i] == self.min.c@[i] + self.max.c@[i],
    {
        self.min.sum(self.max)
    }

    /// Squared Euclidean distance from `p` to the box (zero inside it).
    pub fn distance(&self, p: Vec3) -> (r: i64)
        requires
            self.wf(),
            p.bounded(),
        ensures
            r == box_square_distance(self.min@, self.max@, p@),
    {
        let mut total: i64 = 0;
        let mut i: usize = 0;
        while i < 3
            invariant
                0 <= i <= 3,
                self.wf(),
                p.bounded(),
                total == (if i > 0 { gap(p@[0], self.min@[0], self.max@[0]) * gap(p@[0], self.min@[0], self.max@[0]) } else { 0 })
                    + (if i > 1 { gap(p@[1], self.min@[1], self.max@[1]) * gap(p@[1], self.min@[1], self.max@[1]) } else { 0 })
                    + (if i > 2 { gap(p@[2], self.min@[2], self.max@[2]) * gap(p@[2], self.min@[2], self.max@[2]) } else { 0 }),
                0 <= total <= i * PRODUCT_MAX,
            decreases 3 - i,
        {
            let x = p.c[i];
            let lo = self.min.c[i];
            let hi = self.max.c[i];
            let d: i64 = if x < lo { lo - x } else if x > hi { x - hi } else { 0 };
            assert(d == gap(p@[i as int], self.min@[i as int], self.max@[i as int]));
            assert(0 <= d * d <= PRODUCT_MAX) by (nonlinear_arith)
                requires
                    0 <= d <= 2 * COORD_MAX,
                    COORD_MAX == 1048576,
                    PRODUCT_MAX == 17592186044416,
            ;
            total = total + d * d;
            i = i + 1;
        }
        total
    }

    /// The extent of the box along `index`, as its two ends.
    pub fn range(&self, index: usize) -> (r: (i64, i64))
        requires
            index < 3,
        ensures
            r == (self.min.c@[index as int], self.max.c@[index as int]),
    {
        (self.min.c[index], self.max.c[index])
    }

    /// Length of the box along `index`.
    pub fn dim(&self, index: usize) -> (r: i64)
        requires
            index < 3,
            self.wf(),
        ensures
            r == self.max.c@[index as int] - self.min.c@[index as int],
    {
        self.max.c[index] - self.min.c[index]
    }

    /// Surface area of the box.
    pub fn surface_area(&self) -> (r: i64)
        requires
            self.wf(),
        ensures
            r == surface_area_of(self.max@[0] - self.min@[0], self.max@[1] - self.min@[1], self.max@[2] - self.min@[2]),
            -24 * PRODUCT_MAX <= r <= 24 * PRODUCT_MAX,
    {
        let dx = self.dim(0);
        let dy = self.dim(1);
        let dz = self.dim(2);
        assert(-4 * PRODUCT_MAX <= dx * dy <= 4 * PRODUCT_MAX) by (nonlinear_arith)
            requires -2 * COORD_MAX <= dx <= 2 * COORD_MAX, -2 * COORD_MAX <= dy <= 2 * COORD_MAX,
                COORD_MAX == 1048576, PRODUCT_MAX == 17592186044416;
        assert(-4 * PRODUCT_MAX <= dx * dz <= 4 * PRODUCT_MAX) by (nonlinear_arith)
            requires -2 * COORD_MAX <= dx <= 2 * COORD_MAX, -2 * COORD_MAX <= dz <= 2 * COORD_MAX,
                COORD_MAX == 1048576, PRODUCT_MAX == 17592186044416;
        assert(-4 * PRODUCT_MAX <= dy * dz <= 4 * PRODUCT_MAX) by (nonlinear_arith)
            requires -2 * COORD_MAX <= dy <= 2 * COORD_MAX, -2 * COORD_MAX <= dz <= 2 * COORD_MAX,
                COORD_MAX == 1048576, PRODUCT_MAX == 17592186044416;
        (dx * dy + dx * dz + dy * dz) * 2
    }
}

/// Surface area of a box with the given side lengths.
pub open spec fn surface_area_of(dx: int, dy: int, dz: int) -> int {
    (dx * dy + dx * dz + dy * dz) * 2
}

/// An interval of ray times.
#[derive(Copy, Clone, Debug, PartialEq, Eq)]
pub struct Interval {
    pub min: i64,
    pub max: i64,
}

impl Interval {
    pub fn new(min: i64, max: i64) -> (r: Self)
        ensures
            r.min == min,
            r.max == max,
    {
        Interval { min, max }
    }

    /// The interval of all representable times.
    pub fn full() -> (r: Self)
        ensures
            r.min == i64::MIN,
            r.max == i64::MAX,
    {
        Interval { min: i64::MIN, max: i64::MAX }
    }

    /// The overlap of two closed intervals, when they share at least one
    /// point (intervals that only touch share their common end).
    pub fn intersect(&self, other: &Self) -> (r: Option<Self>)
        ensures
            r is Some <==> max_i(self.min as int, other.min as int) <= min_i(self.max as int, other.max as int),
            r matches Some(i) ==> i.min == max_i(self.min as int, other.min as int) && i.max == min_i(self.max as int, other.max as int),
    {
        let min = if self.min >= other.min { self.min } else { other.min };
        let max = if self.max <= other.max { self.max } else { other.max };
        if min <= max {
            Some(Interval { min, max })
        } else {
            None
        }
    }
}

} // verus!
