//! Triangles over integer vertices.
use vstd::prelude::*;
use crate::bounds::{max_i, min_i, Bounds};
use crate::vec::{Vec3, Vector};

verus! {

#[derive(Copy, Clone, Debug, PartialEq, Eq)]
pub struct Triangle {
    pub vertices: [Vec3; 3],
}

impl Triangle {
    /// All three vertices have bounded coordinates.
    pub open spec fn wf(&self) -> bool {
        forall|i: int| 0 <= i < 3 ==> (#[trigger] self.vertices@[i]).bounded()
    }

    /// The box `b` contains the three vertices.
    pub open spec fn within(&self, b: Bounds) -> bool {
        forall|i: int| 0 <= i < 3 ==> b.contains((#[trigger] self.vertices@[i])@)
    }

    pub fn new(vertices: [Vec3; 3]) -> (r: Self)
        ensures
            r.vertices == vertices,
    {
        Triangle { vertices }
    }

    pub fn vertices(&self) -> (r: &[Vec3; 3])
        ensures
            *r == self.vertices,
    {
        &self.vertices
    }

    /// The smallest box that contains the triangle.
    pub fn bounds(&self) -> (r: Bounds)
        requires
            self.wf(),
        ensures
            r.wf(),
            self.within(r),
            forall|i: int| 0 <= i < 3 ==> #[trigger] r.min.c@[i] == min_i(
                min_i(self.vertices@[0].c@[i] as int, self.vertices@[1].c@[i] as int),
                self.vertices@[2].c@[i] as int,
            ),
            forall|i: int| 0 <= i < 3 ==> #[trigger] r.max.c@[i] == max_i(
                max_i(self.vertices@[0].c@[i] as int, self.vertices@[1].c@[i] as int),
                self.vertices@[2].c@[i] as int,
            ),
    {
        assert(self.vertices@[0].bounded());
        assert(self.vertices@[1].bounded());
        assert(self.vertices@[2].bounded());
        let b0 = Bounds::from_point(self.vertices[0]);
        let p1 = Bounds::from_point(self.vertices[1]);
        let p2 = Bounds::from_point(self.vertices[2]);
        assert(b0.contains(self.vertices@[0]@));
        assert(p1.contains(self.vertices@[1]@));
        assert(p2.contains(self.vertices@[2]@));
        let b1 = b0.union(&p1);
        let b2 = b1.union(&p2);
        b2
    }

    /// The normal of the triangle's plane, not normalised: the cross product
    /// of two of its edges, in the winding order of the vertices.
    pub fn normal(&self) -> (r: Vec3)
        requires
            self.wf(),
        ensures
            r@ == crate::vec::cross_of(
                crate::vec::diff_of(self.vertices@[1]@, self.vertices@[0]@),
                crate::vec::diff_of(self.vertices@[2]@, self.vertices@[1]@),
            ),
    {
        let v0 = self.vertices[0];
        let v1 = self.vertices[1];
        let v2 = self.vertices[2];
        assert(v0.bounded() && v1.bounded() && v2.bounded());
        let e0 = Vector::<3>::new(v1.c[0] - v0.c[0], v1.c[1] - v0.c[1], v1.c[2] - v0.c[2]);
        let e1 = Vector::<3>::new(v2.c[0] - v1.c[0], v2.c[1] - v1.c[1], v2.c[2] - v1.c[2]);
        assert(e0@ =~= crate::vec::diff_of(v1@, v0@));
        assert(e1@ =~= crate::vec::diff_of(v2@, v1@));
        e0.cross(e1)
    }
}

} // verus!
