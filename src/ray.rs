//! Rays with integer origin and direction.
use vstd::prelude::*;
use crate::vec::{Vec3, COORD_MAX};

verus! {

#[derive(Copy, Clone, Debug, PartialEq, Eq)]
pub struct Ray {
    orig: Vec3,
    dir: Vec3,
}

impl Ray {
    pub closed spec fn spec_orig(&self) -> Vec3 {
        self.orig
    }

    pub closed spec fn spec_dir(&self) -> Vec3 {
        self.dir
    }

    pub fn new(orig: Vec3, dir: Vec3) -> (r: Self)
        ensures
            r.spec_orig() == orig,
            r.spec_dir() == dir,
    {
        Ray { orig, dir }
    }

    pub fn orig(&self) -> (r: Vec3)
        ensures
            r == self.spec_orig(),
    {
        self.orig
    }

    pub fn dir(&self) -> (r: Vec3)
        ensures
            r == self.spec_dir(),
    {
        self.dir
    }

    /// The point reached at `time`: origin plus `time` times the direction.
    pub fn pos(&self, time: i64) -> (r: Vec3)
        requires
            self.spec_orig().bounded(),
            self.spec_dir().bounded(),
            -COORD_MAX <= time <= COORD_MAX,
        ensures
            forall|i: int| 0 <= i < 3 ==> #[trigger] r.c@[i] == self.spec_orig().c@[i] + time * self.spec_dir().c@[i],
    {
        let mut r = self.orig;
        let mut i: usize = 0;
        while i < 3
            invariant
                0 <= i <= 3,
                self.orig.bounded(),
                self.dir.bounded(),
                -COORD_MAX <= time <= COORD_MAX,
                forall|j: int| 0 <= j < i ==> #[trigger] r.c@[j] == self.orig.c@[j] + time * self.dir.c@[j],
            decreases 3 - i,
        {
            let d = self.dir.c[i];
            assert(-COORD_MAX * COORD_MAX <= time * d <= COORD_MAX * COORD_MAX) by (nonlinear_arith)
                requires
                    -COORD_MAX <= time <= COORD_MAX,
                    -COORD_MAX <= d <= COORD_MAX,
            ;
            assert(COORD_MAX * COORD_MAX == 1099511627776) by (nonlinear_arith)
                requires
                    COORD_MAX == 1048576,
            ;
            r.c[i] = self.orig.c[i] + time * d;
            i = i + 1;
        }
        r
    }
}

} // verus!
