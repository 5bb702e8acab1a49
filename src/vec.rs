//! Fixed-size vectors of integer coordinates.
use vstd::prelude::*;

verus! {

/// Largest magnitude of a coordinate that the geometry accepts. Products of
/// sums and differences of such coordinates stay far inside `i64`.
pub const COORD_MAX: i64 = 1048576;

/// Bound on the product of two coordinates of vectors that are `wide`.
pub const PRODUCT_MAX: i64 = 17592186044416;

/// A vector of `N` integer coordinates.
#[derive(Copy, Clone, Debug, PartialEq, Eq)]
pub struct Vector<const N: usize> {
    pub c: [i64; N],
}

pub type Vec2 = Vector<2>;
pub type Vec3 = Vector<3>;
pub type Vec4 = Vector<4>;

impl<const N: usize> Vector<N> {
    /// The coordinates as integers.
    pub open spec fn view(&self) -> Seq<int> {
        Seq::new(N as nat, |i: int| self.c@[i] as int)
    }

    /// Every coordinate lies within `COORD_MAX`.
    pub open spec fn bounded(&self) -> bool {
        forall|i: int| 0 <= i < N ==> -COORD_MAX <= #[trigger] self.c@[i] <= COORD_MAX
    }

    pub fn broadcast(value: i64) -> (r: Self)
        ensures
            forall|i: int| 0 <= i < N ==> r.c@[i] == value,
    {
        Vector { c: [value; N] }
    }
}

/// Sum of the products of matching coordinates of two integer sequences.
pub open spec fn dot_of(a: Seq<int>, b: Seq<int>) -> int
    decreases a.len(),
{
    if a.len() == 0 || b.len() == 0 {
        0
    } else {
        dot_of(a.drop_last(), b.take(a.len() - 1)) + a.last() * b[a.len() - 1]
    }
}

proof fn lemma_dot_bound(a: Seq<int>, b: Seq<int>, n: int)
    requires
        0 <= n <= a.len(),
        a.len() == b.len(),
        forall|i: int| 0 <= i < a.len() ==> -4 * COORD_MAX <= #[trigger] a[i] <= 4 * COORD_MAX,
        forall|i: int| 0 <= i < b.len() ==> -4 * COORD_MAX <= #[trigger] b[i] <= 4 * COORD_MAX,
    ensures
        -n * (PRODUCT_MAX) <= dot_of(a.take(n), b.take(n)) <= n * (PRODUCT_MAX),
    decreases n,
{
    if n > 0 {
        let an = a.take(n);
        let bn = b.take(n);
        assert(an.drop_last() =~= a.take(n - 1));
        assert(bn.take(n - 1) =~= b.take(n - 1));
        lemma_dot_bound(a, b, n - 1);
        let x = a[n - 1];
        let y = b[n - 1];
        assert(-PRODUCT_MAX <= x * y <= PRODUCT_MAX) by (nonlinear_arith)
            requires
                -4 * COORD_MAX <= x <= 4 * COORD_MAX,
                -4 * COORD_MAX <= y <= 4 * COORD_MAX,
                COORD_MAX == 1048576,
                PRODUCT_MAX == 17592186044416,
        ;
    }
}

impl<const N: usize> Vector<N> {
    /// Every coordinate lies within four times `COORD_MAX` (differences and
    /// sums of bounded vectors stay in this range).
    pub open spec fn wide(&self) -> bool {
        forall|i: int| 0 <= i < N ==> -4 * COORD_MAX <= #[trigger] self.c@[i] <= 4 * COORD_MAX
    }

    /// Dot product.
    pub fn dot(self, other: Self) -> (r: i64)
        requires
            N <= 4,
            self.wide(),
            other.wide(),
        ensures
            r == dot_of(self@, other@),
    {
        let mut total: i64 = 0;
        let mut i: usize = 0;
        proof {
            lemma_dot_bound(self@, other@, 0);
        }
        while i < N
            invariant
                0 <= i <= N <= 4,
                self.wide(),
                other.wide(),
                self@.len() == N,
                other@.len() == N,
                total == dot_of(self@.take(i as int), other@.take(i as int)),
            decreases N - i,
        {
            proof {
                lemma_dot_bound(self@, other@, i as int);
                lemma_dot_bound(self@, other@, i as int + 1);
                let an = self@.take(i as int + 1);
                let bn = other@.take(i as int + 1);
                assert(an.drop_last() =~= self@.take(i as int));
                assert(bn.take(i as int) =~= other@.take(i as int));
                let x = self.c@[i as int] as int;
                let y = other.c@[i as int] as int;
                assert(-PRODUCT_MAX <= x * y <= PRODUCT_MAX) by (nonlinear_arith)
                    requires
                        -4 * COORD_MAX <= x <= 4 * COORD_MAX,
                        -4 * COORD_MAX <= y <= 4 * COORD_MAX,
                        COORD_MAX == 1048576,
                PRODUCT_MAX == 17592186044416,
                ;
            }
            total = total + self.c[i] * other.c[i];
            i = i + 1;
        }
        assert(self@.take(N as int) =~= self@);
        assert(other@.take(N as int) =~= other@);
        total
    }

    /// Squared Euclidean length.
    pub fn square_length(self) -> (r: i64)
        requires
            N <= 4,
            self.wide(),
        ensures
            r == dot_of(self@, self@),
    {
        self.dot(self)
    }

    /// Coordinate-wise product.
    pub fn zip_mul(self, other: Self) -> (r: Self)
        requires
            self.wide(),
            other.wide(),
        ensures
            forall|i: int| 0 <= i < N ==> #[trigger] r.c@[i] == self.c@[i] * other.c@[i],
    {
        let mut r = self;
        let mut i: usize = 0;
        while i < N
            invariant
                0 <= i <= N,
                self.wide(),
                other.wide(),
                forall|j: int| 0 <= j < i ==> #[trigger] r.c@[j] == self.c@[j] * other.c@[j],
            decreases N - i,
        {
            let x = self.c[i];
            let y = other.c[i];
            proof {
                assert(-PRODUCT_MAX <= x * y <= PRODUCT_MAX) by (nonlinear_arith)
                    requires
                        -4 * COORD_MAX <= x <= 4 * COORD_MAX,
                        -4 * COORD_MAX <= y <= 4 * COORD_MAX,
                        COORD_MAX == 1048576,
                        PRODUCT_MAX == 17592186044416,
                ;
            }
            r.c[i] = x * y;
            i = i + 1;
        }
        r
    }

    /// Coordinate-wise product (same as `zip_mul`).
    pub fn map_mul(self, other: Self) -> (r: Self)
        requires
            self.wide(),
            other.wide(),
        ensures
            forall|i: int| 0 <= i < N ==> #[trigger] r.c@[i] == self.c@[i] * other.c@[i],
    {
        self.zip_mul(other)
    }

    /// Every negative coordinate replaced by zero.
    pub fn clamp(self) -> (r: Self)
        ensures
            forall|i: int| 0 <= i < N ==> #[trigger] r.c@[i] == if self.c@[i] < 0 { 0 } else { self.c@[i] },
    {
        let mut r = self;
        let mut i: usize = 0;
        while i < N
            invariant
                0 <= i <= N,
                forall|j: int| 0 <= j < N ==> r.c@[j] == self.c@[j] || j < i,
                forall|j: int| 0 <= j < i ==> #[trigger] r.c@[j] == if self.c@[j] < 0 { 0 } else { self.c@[j] },
            decreases N - i,
        {
            if self.c[i] < 0 {
                r.c[i] = 0;
            }
            i = i + 1;
        }
        r
    }

    /// Coordinate-wise sum.
    pub fn sum(self, other: Self) -> (r: Self)
        requires
            self.wide(),
            other.wide(),
        ensures
            forall|i: int| 0 <= i < N ==> #[trigger] r.c@[i] == self.c@[i] + other.c@[i],
    {
        let mut r = self;
        let mut i: usize = 0;
        while i < N
            invariant
                0 <= i <= N,
                self.wide(),
                other.wide(),
                forall|j: int| 0 <= j < i ==> #[trigger] r.c@[j] == self.c@[j] + other.c@[j],
            decreases N - i,
        {
            r.c[i] = self.c[i] + other.c[i];
            i = i + 1;
        }
        r
    }

    /// Coordinate-wise difference.
    pub fn difference(self, other: Self) -> (r: Self)
        requires
            self.wide(),
            other.wide(),
        ensures
            forall|i: int| 0 <= i < N ==> #[trigger] r.c@[i] == self.c@[i] - other.c@[i],
    {
        let mut r = self;
        let mut i: usize = 0;
        while i < N
            invariant
                0 <= i <= N,
                self.wide(),
                other.wide(),
                forall|j: int| 0 <= j < i ==> #[trigger] r.c@[j] == self.c@[j] - other.c@[j],
            decreases N - i,
        {
            r.c[i] = self.c[i] - other.c[i];
            i = i + 1;
        }
        r
    }

    /// Squared Euclidean distance between two bounded points.
    pub fn square_distance(self, other: Self) -> (r: i64)
        requires
            N <= 4,
            self.bounded(),
            other.bounded(),
        ensures
            r == square_distance_of(self@, other@),
    {
        assert(self.wide());
        assert(other.wide());
        let d = self.difference(other);
        assert(d@ =~= diff_of(self@, other@));
        assert(d.wide());
        d.square_length()
    }
}

/// Coordinate-wise difference of two integer sequences.
pub open spec fn diff_of(a: Seq<int>, b: Seq<int>) -> Seq<int> {
    Seq::new(a.len(), |i: int| a[i] - b[i])
}

/// Squared Euclidean distance between two integer points.
pub open spec fn square_distance_of(a: Seq<int>, b: Seq<int>) -> int {
    let d = diff_of(a, b);
    dot_of(d, d)
}

impl Vector<2> {
    pub fn new(x: i64, y: i64) -> (r: Self)
        ensures
            r.c@ == seq![x, y],
    {
        Vector { c: [x, y] }
    }

    pub fn x(&self) -> (r: i64)
        ensures
            r == self.c@[0],
    {
        self.c[0]
    }

    pub fn y(&self) -> (r: i64)
        ensures
            r == self.c@[1],
    {
        self.c[1]
    }

    pub fn x_mut(&mut self) -> (r: &mut i64)
        ensures
            *r == old(self).c@[0],
            final(self).c@ == old(self).c@.update(0, *final(r)),
    {
        &mut self.c[0]
    }

    pub fn y_mut(&mut self) -> (r: &mut i64)
        ensures
            *r == old(self).c@[1],
            final(self).c@ == old(self).c@.update(1, *final(r)),
    {
        &mut self.c[1]
    }
}

impl Vector<3> {
    pub fn new(x: i64, y: i64, z: i64) -> (r: Self)
        ensures
            r.c@ == seq![x, y, z],
    {
        Vector { c: [x, y, z] }
    }

    pub fn x(&self) -> (r: i64)
        ensures
            r == self.c@[0],
    {
        self.c[0]
    }

    pub fn y(&self) -> (r: i64)
        ensures
            r == self.c@[1],
    {
        self.c[1]
    }

    pub fn z(&self) -> (r: i64)
        ensures
            r == self.c@[2],
    {
        self.c[2]
    }

    pub fn x_mut(&mut self) -> (r: &mut i64)
        ensures
            *r == old(self).c@[0],
            final(self).c@ == old(self).c@.update(0, *final(r)),
    {
        &mut self.c[0]
    }

    pub fn y_mut(&mut self) -> (r: &mut i64)
        ensures
            *r == old(self).c@[1],
            final(self).c@ == old(self).c@.update(1, *final(r)),
    {
        &mut self.c[1]
    }

    pub fn z_mut(&mut self) -> (r: &mut i64)
        ensures
            *r == old(self).c@[2],
            final(self).c@ == old(self).c@.update(2, *final(r)),
    {
        &mut self.c[2]
    }

    /// The first three coordinates of a four-vector.
    pub fn from_vec4(v: Vec4) -> (r: Self)
        ensures
            r.c@ == v.c@.take(3),
    {
        let r = Vector { c: [v.c[0], v.c[1], v.c[2]] };
        assert(r.c@ =~= v.c@.take(3));
        r
    }

    /// Cross product.
    pub fn cross(self, other: Self) -> (r: Self)
        requires
            self.wide(),
            other.wide(),
        ensures
            r@ == cross_of(self@, other@),
    {
        let (a1, a2, a3) = (self.c[0], self.c[1], self.c[2]);
        let (b1, b2, b3) = (other.c[0], other.c[1], other.c[2]);
        proof {
            assert forall|x: i64, y: i64|
                -4 * COORD_MAX <= x <= 4 * COORD_MAX && -4 * COORD_MAX <= y <= 4 * COORD_MAX
                implies -PRODUCT_MAX <= #[trigger] (x * y) <= PRODUCT_MAX by {
                assert(-PRODUCT_MAX <= x * y <= PRODUCT_MAX) by (nonlinear_arith)
                    requires
                        -4 * COORD_MAX <= x <= 4 * COORD_MAX,
                        -4 * COORD_MAX <= y <= 4 * COORD_MAX,
                        COORD_MAX == 1048576,
                        PRODUCT_MAX == 17592186044416,
                ;
            }
        }
        let r = Vector { c: [a2 * b3 - a3 * b2, a3 * b1 - a1 * b3, a1 * b2 - a2 * b1] };
        assert(r@ =~= cross_of(self@, other@));
        r
    }
}

/// Cross product of two integer three-vectors.
pub open spec fn cross_of(a: Seq<int>, b: Seq<int>) -> Seq<int> {
    seq![a[1] * b[2] - a[2] * b[1], a[2] * b[0] - a[0] * b[2], a[0] * b[1] - a[1] * b[0]]
}

impl Vector<4> {
    pub fn new(x: i64, y: i64, z: i64, w: i64) -> (r: Self)
        ensures
            r.c@ == seq![x, y, z, w],
    {
        Vector { c: [x, y, z, w] }
    }

    /// A direction: the three coordinates followed by zero.
    pub fn from_vec3(v: Vec3) -> (r: Self)
        ensures
            r.c@ == v.c@.push(0),
    {
        let r = Vector { c: [v.c[0], v.c[1], v.c[2], 0] };
        assert(r.c@ =~= v.c@.push(0));
        r
    }

    /// A position: the three coordinates followed by one.
    pub fn from_position(v: Vec3) -> (r: Self)
        ensures
            r.c@ == v.c@.push(1),
    {
        let r = Vector { c: [v.c[0], v.c[1], v.c[2], 1] };
        assert(r.c@ =~= v.c@.push(1));
        r
    }

    pub fn x(&self) -> (r: i64)
        ensures
            r == self.c@[0],
    {
        self.c[0]
    }

    pub fn y(&self) -> (r: i64)
        ensures
            r == self.c@[1],
    {
        self.c[1]
    }

    pub fn z(&self) -> (r: i64)
        ensures
            r == self.c@[2],
    {
        self.c[2]
    }

    pub fn w(&self) -> (r: i64)
        ensures
            r == self.c@[3],
    {
        self.c[3]
    }

    pub fn x_mut(&mut self) -> (r: &mut i64)
        ensures
            *r == old(self).c@[0],
            final(self).c@ == old(self).c@.update(0, *final(r)),
    {
        &mut self.c[0]
    }

    pub fn y_mut(&mut self) -> (r: &mut i64)
        ensures
            *r == old(self).c@[1],
            final(self).c@ == old(self).c@.update(1, *final(r)),
    {
        &mut self.c[1]
    }

    pub fn z_mut(&mut self) -> (r: &mut i64)
        ensures
            *r == old(self).c@[2],
            final(self).c@ == old(self).c@.update(2, *final(r)),
    {
        &mut self.c[2]
    }

    pub fn w_mut(&mut self) -> (r: &mut i64)
        ensures
            *r == old(self).c@[3],
            final(self).c@ == old(self).c@.update(3, *final(r)),
    {
        &mut self.c[3]
    }
}

} // verus!