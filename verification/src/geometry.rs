//! Shapes that the pipeline passes along, whatever their points are made of.

use vstd::prelude::*;

verus! {

/// Three corners of any point type.
#[derive(Default, Copy, Clone, Debug, PartialEq)]
pub struct Triangle<PointType>(pub [PointType; 3]);

/// How a ray meets a plane: it lies in the plane, it meets the plane in one
/// point, or it does not meet the plane.
#[derive(Debug, PartialEq, Eq, Structural)]
pub enum IntersectionType {
    Incidental,
    Single,
    NoIntersection,
}

impl<PointType: Copy> Triangle<PointType> {
    /// The triangle with corner `i` replaced by `p`.
    pub open spec fn with_corner(self, i: int, p: PointType) -> Self {
        Triangle(
            [
                if i == 0 {
                    p
                } else {
                    self.0[0]
                },
                if i == 1 {
                    p
                } else {
                    self.0[1]
                },
                if i == 2 {
                    p
                } else {
                    self.0[2]
                },
            ],
        )
    }

    /// Replaces one corner.
    pub fn replace_corner(&self, i: usize, p: PointType) -> (r: Self)
        requires
            i < 3,
        ensures
            r == self.with_corner(i as int, p),
    {
        let mut corners = self.0;
        corners[i] = p;
        assert(corners =~= self.with_corner(i as int, p).0);
        Triangle(corners)
    }
}

} // verus!
