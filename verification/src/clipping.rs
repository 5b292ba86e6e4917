//! Clipping against one plane: what becomes of a bounding sphere and of a
//! triangle, decided from signed distances to the plane.
//!
//! A signed distance is taken on an integer scale: any scale will do on which
//! zero stands for zero and a larger number for a larger distance. The plane's
//! front is the side of the positive distances; a corner at distance zero
//! counts as in front.

use vstd::prelude::*;
use crate::geometry::Triangle;
use crate::scale::magnitude;

verus! {

/// What a plane does to a bounding sphere: the sphere lies wholly behind the
/// plane, wholly in front of it, or the plane cuts it.
#[derive(PartialEq, Eq, Structural, Debug)]
pub enum ClipType {
    NopeAllBehind,
    NopeAllFront,
    Clip,
}

/// A replaced corner: the index of the corner, and the edge of the triangle
/// as it was given, from its start corner to its end corner, on which the
/// new point lies.
pub type Replacement = (usize, (usize, usize));

/// A triangle of which two corners were moved onto the plane.
#[derive(Debug, PartialEq)]
pub struct TriangleWith2Replaced<PointType> {
    pub tri: Triangle<PointType>,
    pub replacement_a: Replacement,
    pub replacement_b: Replacement,
}

/// A triangle of which one corner was moved onto the plane.
#[derive(Debug, PartialEq)]
pub struct TriangleWith1Replaced<PointType> {
    pub tri: Triangle<PointType>,
    pub replacement: Replacement,
}

/// One triangle that clipping leaves: the triangle as it was given, or that
/// triangle with one or two corners replaced.
#[derive(Debug, PartialEq)]
pub enum ClippedTriangle<PointType> {
    NoClip,
    SingleReplacement(TriangleWith1Replaced<PointType>),
    DoubleReplacement(TriangleWith2Replaced<PointType>),
}

/// What clipping leaves of a triangle: nothing, one triangle, or two.
pub type Clipped<PointType> = Option<(ClippedTriangle<PointType>, Option<ClippedTriangle<PointType>>)>;

/// What a plane does to a sphere whose centre has signed distance `distance`
/// from it.
pub open spec fn clip_type_of(distance: i32, radius: i32) -> ClipType {
    if magnitude(distance as int) < radius {
        ClipType::Clip
    } else if distance > 0 {
        ClipType::NopeAllFront
    } else {
        ClipType::NopeAllBehind
    }
}

/// How many of three corners are in front of the plane.
pub open spec fn kept_count(d: [i32; 3]) -> int {
    (if d[0] >= 0 {
        1int
    } else {
        0int
    }) + (if d[1] >= 0 {
        1int
    } else {
        0int
    }) + (if d[2] >= 0 {
        1int
    } else {
        0int
    })
}

/// The corner indices by descending distance, corners at equal distance in
/// the order of their indices.
pub open spec fn descending_order(d: [i32; 3]) -> (usize, usize, usize) {
    let (a, b): (usize, usize) = if d[1] > d[0] {
        (1, 0)
    } else {
        (0, 1)
    };
    let (b, c): (usize, usize) = if d[2] > d[b as int] {
        (2, b)
    } else {
        (b, 2)
    };
    let (a, b): (usize, usize) = if d[b as int] > d[a as int] {
        (b, a)
    } else {
        (a, b)
    };
    (a, b, c)
}

/// The first corner in front of the plane, or corner 2 where there is none
/// before it.
pub open spec fn apex_of(d: [i32; 3]) -> usize {
    if d[0] >= 0 {
        0
    } else if d[1] >= 0 {
        1
    } else {
        2
    }
}

/// The two edges of a triangle that cross the plane, each from its corner in
/// front to its corner behind; none where all corners lie on one side.
///
/// With two corners in front, the first edge starts in the nearer of them and
/// the second in the farther. With one corner in front, the edges lead from
/// it to the corner after it and to the corner before it.
pub open spec fn crossing_edges_of(d: [i32; 3]) -> Option<((usize, usize), (usize, usize))> {
    if kept_count(d) == 2 {
        let (i0, i1, i2) = descending_order(d);
        Some(((i1, i2), (i0, i2)))
    } else if kept_count(d) == 1 {
        let a = apex_of(d);
        Some(((a, ((a + 1) % 3) as usize), (a, ((a + 2) % 3) as usize)))
    } else {
        None
    }
}

/// What clipping leaves of a triangle whose corners have the distances `d`,
/// where `first` and `second` are the points in which the two edges of
/// `crossing_edges_of(d)` meet the plane.
///
/// With all corners in front the triangle stays as it is, with none nothing
/// is left. With one corner in front, the two others move onto the plane.
/// With two in front, the part in front has four corners and is returned as
/// two triangles: the given one with the corner behind moved along the first
/// edge, and the given one with the nearer corner in front moved to that same
/// point and the corner behind moved along the second edge.
pub open spec fn clip_result<PointType: Copy>(
    d: [i32; 3],
    tri: Triangle<PointType>,
    first: PointType,
    second: PointType,
) -> Clipped<PointType> {
    if kept_count(d) == 3 {
        Some((ClippedTriangle::NoClip, None))
    } else if kept_count(d) == 0 {
        None
    } else if kept_count(d) == 2 {
        let (i0, i1, i2) = descending_order(d);
        Some(
            (
                ClippedTriangle::SingleReplacement(
                    TriangleWith1Replaced {
                        tri: tri.with_corner(i2 as int, first),
                        replacement: (i2, (i1, i2)),
                    },
                ),
                Some(
                    ClippedTriangle::DoubleReplacement(
                        TriangleWith2Replaced {
                            tri: tri.with_corner(i1 as int, first).with_corner(i2 as int, second),
                            replacement_a: (i1, (i1, i2)),
                            replacement_b: (i2, (i0, i2)),
                        },
                    ),
                ),
            ),
        )
    } else {
        let a = apex_of(d);
        let b = ((a + 1) % 3) as usize;
        let c = ((a + 2) % 3) as usize;
        Some(
            (
                ClippedTriangle::DoubleReplacement(
                    TriangleWith2Replaced {
                        tri: tri.with_corner(b as int, first).with_corner(c as int, second),
                        replacement_a: (b, (a, b)),
                        replacement_b: (c, (a, c)),
                    },
                ),
                None,
            ),
        )
    }
}

/// Whether `clipped` has one of the four forms that clipping gives: nothing,
/// the triangle as it was, one triangle with two corners replaced, or a
/// triangle with one corner replaced followed by one with two replaced.
pub open spec fn is_clip_outcome<PointType>(clipped: Clipped<PointType>) -> bool {
    match clipped {
        None => true,
        Some((ClippedTriangle::NoClip, None)) => true,
        Some((ClippedTriangle::DoubleReplacement(_), None)) => true,
        Some(
            (ClippedTriangle::SingleReplacement(_), Some(ClippedTriangle::DoubleReplacement(_))),
        ) => true,
        _ => false,
    }
}

/// The triangles that are left of `tri` after clipping, in the order in which
/// they go on to the next plane.
pub open spec fn survivors<PointType>(
    tri: Triangle<PointType>,
    clipped: Clipped<PointType>,
) -> Seq<Triangle<PointType>> {
    match clipped {
        Some((ClippedTriangle::NoClip, None)) => seq![tri],
        Some((ClippedTriangle::DoubleReplacement(result), None)) => seq![result.tri],
        Some(
            (
                ClippedTriangle::SingleReplacement(first),
                Some(ClippedTriangle::DoubleReplacement(second)),
            ),
        ) => seq![first.tri, second.tri],
        _ => Seq::empty(),
    }
}

/// The descending order names each corner once, distances do not rise along
/// it, and of two corners at one distance the one with the lower index comes
/// first.
pub proof fn lemma_descending_order(d: [i32; 3])
    ensures
        ({
            let (i0, i1, i2) = descending_order(d);
            &&& i0 < 3 && i1 < 3 && i2 < 3
            &&& i0 != i1 && i1 != i2 && i0 != i2
            &&& d[i0 as int] >= d[i1 as int] >= d[i2 as int]
            &&& (d[i0 as int] == d[i1 as int] ==> i0 < i1)
            &&& (d[i1 as int] == d[i2 as int] ==> i1 < i2)
        }),
{
}

/// Every crossing edge leads from a corner in front of the plane to a corner
/// behind it, and the two edges end in different corners or start in
/// different ones.
pub proof fn lemma_crossing_edges(d: [i32; 3])
    ensures
        crossing_edges_of(d).is_some() <==> 0 < kept_count(d) < 3,
        crossing_edges_of(d) matches Some((e, f)) ==> {
            &&& e.0 < 3 && e.1 < 3 && f.0 < 3 && f.1 < 3
            &&& d[e.0 as int] >= 0 > d[e.1 as int]
            &&& d[f.0 as int] >= 0 > d[f.1 as int]
            &&& e != f
        },
{
    lemma_descending_order(d);
}

/// Nothing that clipping leaves reaches behind the plane: every corner of
/// every triangle that is left is a corner that lies in front, unmoved, or
/// one of the two points in which the triangle crosses the plane.
pub proof fn lemma_clip_leaves_front<PointType: Copy>(
    d: [i32; 3],
    tri: Triangle<PointType>,
    first: PointType,
    second: PointType,
)
    ensures
        is_clip_outcome(clip_result(d, tri, first, second)),
        forall|n: int, j: int|
            #![trigger survivors(tri, clip_result(d, tri, first, second))[n].0[j]]
            0 <= n < survivors(tri, clip_result(d, tri, first, second)).len() && 0 <= j < 3 ==> {
                let corner = survivors(tri, clip_result(d, tri, first, second))[n].0[j];
                corner == first || corner == second || (corner == tri.0[j] && d[j] >= 0)
            },
{
    lemma_descending_order(d);
}

/// Classifies a bounding sphere against a plane, from the signed distance of
/// its centre and its radius, both on one scale.
pub fn get_clip_type(distance: i32, radius: i32) -> (r: ClipType)
    ensures
        r == clip_type_of(distance, radius),
{
    let d: i64 = distance as i64;
    let size: i64 = if d < 0 {
        -d
    } else {
        d
    };
    if size < radius as i64 {
        ClipType::Clip
    } else if distance > 0 {
        ClipType::NopeAllFront
    } else {
        ClipType::NopeAllBehind
    }
}

/// Whether a bounding sphere lies wholly behind one of the planes whose
/// signed distances from its centre are given: a model in such a sphere
/// cannot be seen, and no part of it need be drawn.
pub fn is_behind_any(distances: &[i32], radius: i32) -> (r: bool)
    ensures
        r <==> exists|i: int|
            0 <= i < distances@.len() && clip_type_of(#[trigger] distances@[i], radius)
                == ClipType::NopeAllBehind,
{
    let mut i: usize = 0;
    while i < distances.len()
        invariant
            i <= distances@.len(),
            forall|j: int|
                0 <= j < i ==> clip_type_of(#[trigger] distances@[j], radius)
                    != ClipType::NopeAllBehind,
        decreases distances@.len() - i,
    {
        if get_clip_type(distances[i], radius) == ClipType::NopeAllBehind {
            return true;
        }
        i = i + 1;
    }
    false
}

/// The corner indices by descending distance.
fn order_descending(d: &[i32; 3]) -> (r: (usize, usize, usize))
    ensures
        r == descending_order(*d),
        r.0 < 3 && r.1 < 3 && r.2 < 3,
{
    let mut i_0: usize = 0;
    let mut i_1: usize = 1;
    let mut i_2: usize = 2;
    if d[i_1] > d[i_0] {
        let held = i_1;
        i_1 = i_0;
        i_0 = held;
    }
    if d[i_2] > d[i_1] {
        let held = i_2;
        i_2 = i_1;
        i_1 = held;
    }
    if d[i_1] > d[i_0] {
        let held = i_1;
        i_1 = i_0;
        i_0 = held;
    }
    (i_0, i_1, i_2)
}

/// How many of three corners are in front of the plane.
fn count_kept(d: &[i32; 3]) -> (r: usize)
    ensures
        r == kept_count(*d),
{
    let mut state: usize = 0;
    if d[0] >= 0 {
        state = state + 1;
    }
    if d[1] >= 0 {
        state = state + 1;
    }
    if d[2] >= 0 {
        state = state + 1;
    }
    state
}

/// The two edges of a triangle that cross the plane, from the signed
/// distances of its corners.
pub fn crossing_edges(distances: &[i32; 3]) -> (r: Option<((usize, usize), (usize, usize))>)
    ensures
        r == crossing_edges_of(*distances),
{
    let state = count_kept(distances);
    if state == 2 {
        let (i_0, i_1, i_2) = order_descending(distances);
        Some(((i_1, i_2), (i_0, i_2)))
    } else if state == 1 {
        let i_a: usize = if distances[0] >= 0 {
            0
        } else if distances[1] >= 0 {
            1
        } else {
            2
        };
        Some(((i_a, (i_a + 1) % 3), (i_a, (i_a + 2) % 3)))
    } else {
        None
    }
}

/// Clips a triangle against a plane.
///
/// `distances` holds the signed distances of the three corners from the
/// plane. Where the triangle has corners on both sides, `crossings` holds the
/// two points in which the edges of `crossing_edges(distances)` meet the
/// plane, in that order; else it is not read.
pub fn clip_triangle<PointType: Copy>(
    distances: &[i32; 3],
    tri: &Triangle<PointType>,
    crossings: Option<(PointType, PointType)>,
) -> (r: Clipped<PointType>)
    requires
        crossing_edges_of(*distances).is_some() ==> crossings.is_some(),
    ensures
        kept_count(*distances) == 3 ==> r matches Some((ClippedTriangle::NoClip, None)),
        kept_count(*distances) == 0 ==> r.is_none(),
        crossings matches Some((first, second)) ==> r == clip_result(
            *distances,
            *tri,
            first,
            second,
        ),
        kept_count(*distances) == 2 ==> r matches Some(
            (ClippedTriangle::SingleReplacement(_), Some(ClippedTriangle::DoubleReplacement(_))),
        ),
        kept_count(*distances) == 1 ==> r matches Some(
            (ClippedTriangle::DoubleReplacement(_), None),
        ),
        is_clip_outcome(r),
{
    let state = count_kept(distances);
    if state == 3 {
        Some((ClippedTriangle::NoClip, None))
    } else if state == 0 {
        None
    } else if state == 2 {
        // One corner lies behind the plane: what is left has four corners.
        let (i_0, i_1, i_2) = order_descending(distances);
        let (on_bc, on_ac) = crossings.unwrap();
        let new_triangle_1 = TriangleWith1Replaced {
            tri: tri.replace_corner(i_2, on_bc),
            replacement: (i_2, (i_1, i_2)),
        };
        let new_triangle_2 = TriangleWith2Replaced {
            tri: tri.replace_corner(i_1, on_bc).replace_corner(i_2, on_ac),
            replacement_a: (i_1, (i_1, i_2)),
            replacement_b: (i_2, (i_0, i_2)),
        };
        Some(
            (
                ClippedTriangle::SingleReplacement(new_triangle_1),
                Some(ClippedTriangle::DoubleReplacement(new_triangle_2)),
            ),
        )
    } else {
        // Two corners lie behind the plane: both move onto it.
        let i_a: usize = if distances[0] >= 0 {
            0
        } else if distances[1] >= 0 {
            1
        } else {
            2
        };
        let i_b = (i_a + 1) % 3;
        let i_c = (i_a + 2) % 3;
        let (on_ab, on_ac) = crossings.unwrap();
        let result = TriangleWith2Replaced {
            tri: tri.replace_corner(i_b, on_ab).replace_corner(i_c, on_ac),
            replacement_a: (i_b, (i_a, i_b)),
            replacement_b: (i_c, (i_a, i_c)),
        };
        Some((ClippedTriangle::DoubleReplacement(result), None))
    }
}

/// Appends to `retained` what clipping has left of `tri`: nothing, the
/// triangle itself, or the one or two triangles made from it.
pub fn retain_clipped<PointType: Copy>(
    retained: &mut Vec<Triangle<PointType>>,
    tri: &Triangle<PointType>,
    clipped: Clipped<PointType>,
)
    requires
        is_clip_outcome(clipped),
    ensures
        final(retained)@ == old(retained)@ + survivors(*tri, clipped),
{
    match clipped {
        None => {
            assert(retained@ =~= old(retained)@ + survivors(*tri, clipped));
        },
        Some((first, second)) => {
            match first {
                ClippedTriangle::NoClip => {
                    retained.push(*tri);
                },
                ClippedTriangle::DoubleReplacement(result) => {
                    retained.push(result.tri);
                },
                ClippedTriangle::SingleReplacement(new_triangle_1) => {
                    retained.push(new_triangle_1.tri);
                    match second {
                        Some(ClippedTriangle::DoubleReplacement(new_triangle_2)) => {
                            retained.push(new_triangle_2.tri);
                        },
                        _ => {},
                    }
                },
            }
            assert(retained@ =~= old(retained)@ + survivors(*tri, clipped));
        },
    }
}

} // verus!
