//! Rasterisation on the pixel grid: the horizontal spans that fill a
//! triangle, and the pixels of a straight line.

use vstd::prelude::*;
use vstd::arithmetic::div_mod::lemma_fundamental_div_mod_converse;
use crate::raster::{interp_pixels, Pixel, ScanlineH, Triangle2D};
use crate::scale::magnitude;

verus! {

/// The spans that fill a triangle, one per row, from its lowest row number to
/// its highest: the corners are put in ascending order of their rows, and
/// the two sides are paired row by row.
pub open spec fn scanlines_of(t: Triangle2D) -> Seq<ScanlineH> {
    let sides = t.ascending().sides();
    Seq::new(sides.0.len(), |i: int| ScanlineH { l: sides.0[i], r: sides.1[i] })
}

/// Pairs the pixels of a left and a right side into spans.
fn zip_sides(lefts: &Vec<Pixel>, rights: &Vec<Pixel>) -> (r: Vec<ScanlineH>)
    requires
        lefts@.len() == rights@.len(),
    ensures
        r@ == Seq::new(lefts@.len(), |i: int| ScanlineH { l: lefts@[i], r: rights@[i] }),
{
    let mut spans: Vec<ScanlineH> = Vec::new();
    let mut i: usize = 0;
    while i < lefts.len()
        invariant
            lefts@.len() == rights@.len(),
            i <= lefts@.len(),
            spans@ =~= Seq::new(i as nat, |j: int| ScanlineH { l: lefts@[j], r: rights@[j] }),
        decreases lefts@.len() - i,
    {
        spans.push(ScanlineH { l: lefts[i], r: rights[i] });
        i = i + 1;
    }
    spans
}

/// The spans that fill a triangle, one per row.
///
/// There is one span for every row from the triangle's lowest row number to
/// its highest, in that order, and both ends of a span lie in its row. Which
/// side is the left one is decided in the middle row, where the left end is
/// never right of the right end. Where the two sides do not share the pixel
/// of the middle row, no left end lies right of its right end in any row; on
/// a triangle so thin that they share it, one may.
pub fn scanlines(raw_tri: &Triangle2D) -> (r: Vec<ScanlineH>)
    ensures
        r@ == scanlines_of(*raw_tri),
        r@.len() == raw_tri.max_y() - raw_tri.min_y() + 1,
        forall|i: int|
            0 <= i < r@.len() ==> (#[trigger] r@[i]).l.y == raw_tri.min_y() + i && r@[i].r.y
                == raw_tri.min_y() + i,
        r@[r@.len() as int / 2].l.x <= r@[r@.len() as int / 2].r.x,
        raw_tri.ascending().sides_differ() ==> forall|i: int|
            0 <= i < r@.len() ==> (#[trigger] r@[i]).l.x <= r@[i].r.x,
        forall|i: int|
            0 <= i < r@.len() ==> raw_tri.min_x() <= (#[trigger] r@[i]).l.x <= raw_tri.max_x()
                && raw_tri.min_x() <= r@[i].r.x <= raw_tri.max_x(),
{
    let is = raw_tri.get_indices_sorted();
    let tri = Triangle2D {
        points: [raw_tri.points[is.2], raw_tri.points[is.1], raw_tri.points[is.0]],
    };
    proof {
        raw_tri.lemma_indices_sorted();
        assert(tri.points =~= raw_tri.ascending().points);
    }
    let (l, r) = tri.get_sides();
    zip_sides(&l, &r)
}

/// The smaller of two lengths.
pub open spec fn shorter(a: nat, b: nat) -> nat {
    if a <= b {
        a
    } else {
        b
    }
}

/// A run of values without its last one, if it has one.
pub open spec fn without_last<A>(values: Seq<A>) -> Seq<A> {
    if values.len() == 0 {
        values
    } else {
        values.drop_last()
    }
}

/// The spans that fill a triangle, each with a value for its left and one for
/// its right end. The values are given along the three edges of the triangle
/// with its corners in ascending order of their rows: `attr_01` from the
/// first corner to the second, `attr_12` from the second to the third,
/// `attr_02` from the first to the third.
///
/// The values of the first two edges are joined as the pixels of the edges
/// are, the first edge giving up its last value, and each run of values stays
/// with the side that it was given for. There are as many spans as the
/// shortest of the runs allows.
pub open spec fn scanlines_with_attributes_of<A>(
    t: Triangle2D,
    attr_01: Seq<A>,
    attr_12: Seq<A>,
    attr_02: Seq<A>,
) -> Seq<(ScanlineH, (A, A))> {
    let tri = t.ascending();
    let attr_012 = without_last(attr_01) + attr_12;
    let (l, r) = if tri.long_side_is_left() {
        (attr_02, attr_012)
    } else {
        (attr_012, attr_02)
    };
    Seq::new(
        shorter(scanlines_of(t).len(), shorter(l.len(), r.len())),
        |i: int| (scanlines_of(t)[i], (l[i], r[i])),
    )
}

/// The spans that fill a triangle, each with the values of its two ends.
///
/// The three runs of values belong to the edges of the triangle with its
/// corners in ascending order of their rows, which `get_indices_sorted`
/// gives from last to first: one value for every row of the edge.
pub fn scanlines_with_attributes<A: Copy>(
    raw_tri: &Triangle2D,
    attr_01: Vec<A>,
    attr_12: Vec<A>,
    attr_02: Vec<A>,
) -> (r: Vec<(ScanlineH, (A, A))>)
    ensures
        r@ == scanlines_with_attributes_of(*raw_tri, attr_01@, attr_12@, attr_02@),
{
    // Step 1: the corners in ascending order of their rows.
    let is = raw_tri.get_indices_sorted();
    let tri = Triangle2D {
        points: [raw_tri.points[is.2], raw_tri.points[is.1], raw_tri.points[is.0]],
    };
    proof {
        raw_tri.lemma_indices_sorted();
        assert(tri.points =~= raw_tri.ascending().points);
    }

    // Step 2: the values along the compound side.
    let mut attr_012 = attr_01;
    attr_012.pop();
    let mut rest = attr_12;
    attr_012.append(&mut rest);
    assert(attr_012@ =~= without_last(attr_01@) + attr_12@);

    let (sides, attributes) = tri.get_sides_with_attr(attr_012, attr_02);

    // Step 3: pair them up, row by row.
    let mut rows = sides.0.len();
    if attributes.0.len() < rows {
        rows = attributes.0.len();
    }
    if attributes.1.len() < rows {
        rows = attributes.1.len();
    }
    let mut spans: Vec<(ScanlineH, (A, A))> = Vec::new();
    let mut i: usize = 0;
    while i < rows
        invariant
            i <= rows,
            rows <= sides.0@.len(),
            sides.0@.len() == sides.1@.len(),
            rows <= attributes.0@.len(),
            rows <= attributes.1@.len(),
            spans@ =~= Seq::new(
                i as nat,
                |j: int|
                    (
                        ScanlineH { l: sides.0@[j], r: sides.1@[j] },
                        (attributes.0@[j], attributes.1@[j]),
                    ),
            ),
        decreases rows - i,
    {
        spans.push(
            (ScanlineH { l: sides.0[i], r: sides.1[i] }, (attributes.0[i], attributes.1[i])),
        );
        i = i + 1;
    }
    proof {
        tri.lemma_sides_rows();
        assert(spans@ =~= scanlines_with_attributes_of(*raw_tri, attr_01@, attr_12@, attr_02@));
    }
    spans
}

/// Fills a triangle: the same spans as `scanlines`.
pub fn fill(raw_tri: &Triangle2D) -> (r: Vec<ScanlineH>)
    ensures
        r@ == scanlines_of(*raw_tri),
        r@.len() == raw_tri.max_y() - raw_tri.min_y() + 1,
        forall|i: int|
            0 <= i < r@.len() ==> (#[trigger] r@[i]).l.y == raw_tri.min_y() + i && r@[i].r.y
                == raw_tri.min_y() + i,
        r@[r@.len() as int / 2].l.x <= r@[r@.len() as int / 2].r.x,
        raw_tri.ascending().sides_differ() ==> forall|i: int|
            0 <= i < r@.len() ==> (#[trigger] r@[i]).l.x <= r@[i].r.x,
        forall|i: int|
            0 <= i < r@.len() ==> raw_tri.min_x() <= (#[trigger] r@[i]).l.x <= raw_tri.max_x()
                && raw_tri.min_x() <= r@[i].r.x <= raw_tri.max_x(),
{
    // The corners in ascending order of their rows.
    let mut i0: usize = 0;
    let mut i1: usize = 1;
    let mut i2: usize = 2;
    if raw_tri.points[i1].y > raw_tri.points[i0].y {
        let held = i1;
        i1 = i0;
        i0 = held;
    }
    if raw_tri.points[i2].y > raw_tri.points[i0].y {
        let held = i2;
        i2 = i0;
        i0 = held;
    }
    if raw_tri.points[i2].y > raw_tri.points[i1].y {
        let held = i2;
        i2 = i1;
        i1 = held;
    }
    let tri = Triangle2D { points: [raw_tri.points[i2], raw_tri.points[i1], raw_tri.points[i0]] };
    proof {
        raw_tri.lemma_indices_sorted();
        assert(tri.points =~= raw_tri.ascending().points);
        tri.lemma_sides_rows();
        tri.lemma_sides_columns();
        if tri.sides_differ() {
            tri.lemma_sides_ordered();
        }
    }

    let mut p012 = interp_pixels(tri.points[0], tri.points[1]);
    // The last pixel of the first edge is the first pixel of the second.
    p012.pop();
    let mut p12 = interp_pixels(tri.points[1], tri.points[2]);
    p012.append(&mut p12);
    let p02 = interp_pixels(tri.points[0], tri.points[2]);

    // Which of the two is the left side and which the right.
    let mid = p02.len() / 2;
    let spans = if p02[mid].x < p012[mid].x {
        zip_sides(&p02, &p012)
    } else {
        zip_sides(&p012, &p02)
    };
    proof {
        let sides = tri.sides();
        assert forall|i: int| 0 <= i < spans@.len() implies (#[trigger] spans@[i]).l == sides.0[i]
            && spans@[i].r == sides.1[i] by {}
    }
    spans
}

/// How far a line has moved across after `i` steps along, when over `along`
/// steps along it moves `across` in all: `across * i / along` rounded to the
/// nearest whole number, a half rounded down.
pub open spec fn steps_across(across: int, along: int, i: int) -> int
    recommends
        0 <= across <= along,
        0 <= i <= along,
{
    if along == 0 {
        0
    } else {
        (2 * across * i + along - 1) / (2 * along)
    }
}

/// The pixels of a line that is at least as wide as it is high, from `a` to
/// `b` with `a` not right of `b`: one pixel per column.
pub open spec fn shallow_line(a: Pixel, b: Pixel) -> Seq<Pixel>
    recommends
        a.x <= b.x,
        magnitude(b.y - a.y) <= b.x - a.x,
{
    Seq::new(
        (b.x - a.x + 1) as nat,
        |i: int|
            Pixel {
                x: (a.x + i) as i32,
                y: (if b.y < a.y {
                    a.y - steps_across(a.y - b.y, b.x - a.x, i)
                } else {
                    a.y + steps_across(b.y - a.y, b.x - a.x, i)
                }) as i32,
            },
    )
}

/// The pixels of a line that is at least as high as it is wide, from `a` to
/// `b` with `a` not below `b`: one pixel per row.
pub open spec fn steep_line(a: Pixel, b: Pixel) -> Seq<Pixel>
    recommends
        a.y <= b.y,
        magnitude(b.x - a.x) <= b.y - a.y,
{
    Seq::new(
        (b.y - a.y + 1) as nat,
        |i: int|
            Pixel {
                x: (if b.x < a.x {
                    a.x - steps_across(a.x - b.x, b.y - a.y, i)
                } else {
                    a.x + steps_across(b.x - a.x, b.y - a.y, i)
                }) as i32,
                y: (a.y + i) as i32,
            },
    )
}

/// The pixels of the line between two pixels. A line wider than high has one
/// pixel per column and runs from its left end to its right end; any other
/// line has one pixel per row and runs from the lower row number to the
/// higher, and from `p2` to `p1` where both lie in one row.
pub open spec fn line_pixels(p1: Pixel, p2: Pixel) -> Seq<Pixel> {
    if magnitude(p2.y - p1.y) < magnitude(p2.x - p1.x) {
        if p2.x > p1.x {
            shallow_line(p1, p2)
        } else {
            shallow_line(p2, p1)
        }
    } else {
        if p2.y > p1.y {
            steep_line(p1, p2)
        } else {
            steep_line(p2, p1)
        }
    }
}

/// `steps_across` is the one whole number within half a step of the exact
/// position, the lower one where two are.
pub proof fn lemma_steps_across_unique(across: int, along: int, i: int, k: int)
    requires
        0 < along,
        2 * (along * k) - along < 2 * (across * i) <= 2 * (along * k) + along,
    ensures
        steps_across(across, along, i) == k,
{
    let n = 2 * across * i + along - 1;
    let r = n - k * (2 * along);
    assert(2 * across * i == 2 * (across * i)) by (nonlinear_arith);
    assert(k * (2 * along) == 2 * (along * k)) by (nonlinear_arith);
    lemma_fundamental_div_mod_converse(n, 2 * along, k, r);
}

/// A line starts where it starts, ends where it ends, and never moves
/// further across than it has to.
pub proof fn lemma_steps_across_range(across: int, along: int, i: int)
    requires
        0 <= across <= along,
        0 <= i <= along,
    ensures
        steps_across(across, along, 0) == 0,
        steps_across(across, along, along) == across,
        0 <= steps_across(across, along, i) <= across,
{
    if along > 0 {
        assert(across * 0 == 0 && along * 0 == 0) by (nonlinear_arith);
        lemma_steps_across_unique(across, along, 0, 0);
        assert(across * along == along * across) by (nonlinear_arith);
        lemma_steps_across_unique(across, along, along, across);
        let k = steps_across(across, along, i);
        let n = 2 * across * i + along - 1;
        assert(0 <= 2 * across * i <= 2 * across * along) by (nonlinear_arith)
            requires
                0 <= across,
                0 <= i <= along,
        ;
        vstd::arithmetic::div_mod::lemma_div_is_ordered(along - 1, n, 2 * along);
        vstd::arithmetic::div_mod::lemma_div_is_ordered(
            n,
            2 * across * along + along - 1,
            2 * along,
        );
        assert((along - 1) / (2 * along) >= 0) by (nonlinear_arith)
            requires
                along > 0,
        ;
    }
}

/// `steps_across` lies within half a step of the exact position.
pub proof fn lemma_steps_across_near(across: int, along: int, i: int)
    requires
        0 < along,
    ensures
        2 * (along * steps_across(across, along, i)) - along < 2 * (across * i) <= 2 * (along
            * steps_across(across, along, i)) + along,
{
    let n = 2 * across * i + along - 1;
    let k = steps_across(across, along, i);
    vstd::arithmetic::div_mod::lemma_fundamental_div_mod(n, 2 * along);
    vstd::arithmetic::div_mod::lemma_mod_bound(n, 2 * along);
    assert(2 * across * i == 2 * (across * i)) by (nonlinear_arith);
    assert((2 * along) * k == 2 * (along * k)) by (nonlinear_arith);
}

/// With one step along, a line moves one step across or none.
pub proof fn lemma_steps_across_next(across: int, along: int, i: int)
    requires
        0 <= across <= along,
        0 <= i < along,
    ensures
        steps_across(across, along, i + 1) == steps_across(across, along, i) || steps_across(
            across,
            along,
            i + 1,
        ) == steps_across(across, along, i) + 1,
{
    let k = steps_across(across, along, i);
    lemma_steps_across_near(across, along, i);
    assert(across * (i + 1) == across * i + across) by (nonlinear_arith);
    assert(along * (k + 1) == along * k + along) by (nonlinear_arith);
    if 2 * (across * (i + 1)) <= 2 * (along * k) + along {
        lemma_steps_across_unique(across, along, i + 1, k);
    } else {
        lemma_steps_across_unique(across, along, i + 1, k + 1);
    }
}

/// Whether a line can step from `here` to `next`: one step along, and at
/// most one step across. A line steps along the columns if it is `wide`, else
/// along the rows.
pub open spec fn is_step(here: Pixel, next: Pixel, wide: bool) -> bool {
    if wide {
        next.x == here.x + 1 && magnitude(next.y - here.y) <= 1
    } else {
        next.y == here.y + 1 && magnitude(next.x - here.x) <= 1
    }
}

/// A line has no gaps: from each of its pixels to the next it is one step.
pub proof fn lemma_line_connected(p1: Pixel, p2: Pixel)
    ensures
        forall|i: int, j: int|
            0 <= i && j == i + 1 && j < line_pixels(p1, p2).len() ==> is_step(
                #[trigger] line_pixels(p1, p2)[i],
                #[trigger] line_pixels(p1, p2)[j],
                magnitude(p2.y - p1.y) < magnitude(p2.x - p1.x),
            ),
{
    let line = line_pixels(p1, p2);
    let wide = magnitude(p2.x - p1.x);
    let high = magnitude(p2.y - p1.y);
    assert forall|i: int, j: int| 0 <= i && j == i + 1 && j < line.len() implies is_step(
        #[trigger] line[i],
        #[trigger] line[j],
        high < wide,
    ) by {
        if high < wide {
            lemma_steps_across_range(high, wide, i);
            lemma_steps_across_range(high, wide, j);
            lemma_steps_across_next(high, wide, i);
        } else {
            lemma_steps_across_range(wide, high, i);
            lemma_steps_across_range(wide, high, j);
            lemma_steps_across_next(wide, high, i);
        }
    }
}

/// Whether `v` lies between `a` and `b`, whichever of them is the larger.
pub open spec fn between(v: int, a: int, b: int) -> bool {
    a <= v <= b || b <= v <= a
}

/// No pixel of a line lies outside the rectangle that its end points span.
pub proof fn lemma_line_within(p1: Pixel, p2: Pixel)
    ensures
        forall|i: int|
            0 <= i < line_pixels(p1, p2).len() ==> between(
                (#[trigger] line_pixels(p1, p2)[i]).x as int,
                p1.x as int,
                p2.x as int,
            ) && between(line_pixels(p1, p2)[i].y as int, p1.y as int, p2.y as int),
{
    let line = line_pixels(p1, p2);
    let wide = magnitude(p2.x - p1.x);
    let high = magnitude(p2.y - p1.y);
    assert forall|i: int| 0 <= i < line.len() implies between(
        (#[trigger] line[i]).x as int,
        p1.x as int,
        p2.x as int,
    ) && between(line[i].y as int, p1.y as int, p2.y as int) by {
        if high < wide {
            lemma_steps_across_range(high, wide, i);
        } else {
            lemma_steps_across_range(wide, high, i);
        }
    }
}

/// The pixels of a line wider than high, one per column, from left to right.
fn pll(p1: Pixel, p2: Pixel) -> (r: Vec<Pixel>)
    requires
        p1.x <= p2.x,
        magnitude(p2.y - p1.y) <= p2.x - p1.x,
    ensures
        r@ == shallow_line(p1, p2),
{
    let dx: i64 = p2.x as i64 - p1.x as i64;
    let mut dy: i64 = p2.y as i64 - p1.y as i64;
    let mut yi: i64 = 1;
    if dy < 0 {
        yi = -1;
        dy = -dy;
    }
    let mut d: i64 = (2 * dy) - dx;
    let mut y: i64 = p1.y as i64;
    let mut points: Vec<Pixel> = Vec::new();
    let mut i: i64 = 0;
    let ghost mut k: int = 0;
    let ghost mut gone: int = 0;
    let ghost mut paid: int = 0;
    while i <= dx
        invariant
            p1.x <= p2.x,
            dx == p2.x - p1.x,
            dy == magnitude(p2.y - p1.y),
            dy <= dx,
            yi == (if p2.y < p1.y {
                -1int
            } else {
                1int
            }),
            0 <= i <= dx + 1,
            0 <= k <= i,
            y == (if p2.y < p1.y {
                p1.y - k
            } else {
                p1.y + k
            }),
            gone == dy * i,
            paid == dx * k,
            d == 2 * gone + 2 * dy - 2 * paid - dx,
            2 * dy - 2 * dx <= d <= 2 * dy,
            dx > 0 ==> 2 * dy - 2 * dx < d,
            points@ =~= shallow_line(p1, p2).take(i as int),
        decreases dx + 1 - i,
    {
        proof {
            lemma_steps_across_range(dy as int, dx as int, i as int);
            if dx > 0 {
                lemma_steps_across_unique(dy as int, dx as int, i as int, k);
            } else {
                assert(dx * k == 0) by (nonlinear_arith)
                    requires
                        dx == 0,
                ;
            }
            assert(k == steps_across(dy as int, dx as int, i as int));
        }
        points.push(Pixel { x: (p1.x as i64 + i) as i32, y: y as i32 });
        if d > 0 {
            y = y + yi;
            d = d + 2 * (dy - dx);
            proof {
                assert(dx * (k + 1) == dx * k + dx) by (nonlinear_arith);
                k = k + 1;
                paid = paid + dx;
            }
        } else {
            d = d + 2 * dy;
        }
        proof {
            assert(dy * (i + 1) == dy * i + dy) by (nonlinear_arith);
            gone = gone + dy;
        }
        i = i + 1;
    }
    assert(points@ =~= shallow_line(p1, p2));
    points
}

/// The pixels of a line higher than wide, one per row, by ascending row
/// number.
fn plh(p1: Pixel, p2: Pixel) -> (r: Vec<Pixel>)
    requires
        p1.y <= p2.y,
        magnitude(p2.x - p1.x) <= p2.y - p1.y,
    ensures
        r@ == steep_line(p1, p2),
{
    let mut dx: i64 = p2.x as i64 - p1.x as i64;
    let dy: i64 = p2.y as i64 - p1.y as i64;
    let mut xi: i64 = 1;
    if dx < 0 {
        xi = -1;
        dx = -dx;
    }
    let mut d: i64 = (2 * dx) - dy;
    let mut x: i64 = p1.x as i64;
    let mut points: Vec<Pixel> = Vec::new();
    let mut i: i64 = 0;
    let ghost mut k: int = 0;
    let ghost mut gone: int = 0;
    let ghost mut paid: int = 0;
    while i <= dy
        invariant
            p1.y <= p2.y,
            dy == p2.y - p1.y,
            dx == magnitude(p2.x - p1.x),
            dx <= dy,
            xi == (if p2.x < p1.x {
                -1int
            } else {
                1int
            }),
            0 <= i <= dy + 1,
            0 <= k <= i,
            x == (if p2.x < p1.x {
                p1.x - k
            } else {
                p1.x + k
            }),
            gone == dx * i,
            paid == dy * k,
            d == 2 * gone + 2 * dx - 2 * paid - dy,
            2 * dx - 2 * dy <= d <= 2 * dx,
            dy > 0 ==> 2 * dx - 2 * dy < d,
            points@ =~= steep_line(p1, p2).take(i as int),
        decreases dy + 1 - i,
    {
        proof {
            lemma_steps_across_range(dx as int, dy as int, i as int);
            if dy > 0 {
                lemma_steps_across_unique(dx as int, dy as int, i as int, k);
            } else {
                assert(dy * k == 0) by (nonlinear_arith)
                    requires
                        dy == 0,
                ;
            }
            assert(k == steps_across(dx as int, dy as int, i as int));
        }
        points.push(Pixel { x: x as i32, y: (p1.y as i64 + i) as i32 });
        if d > 0 {
            x = x + xi;
            d = d + 2 * (dx - dy);
            proof {
                assert(dy * (k + 1) == dy * k + dy) by (nonlinear_arith);
                k = k + 1;
                paid = paid + dy;
            }
        } else {
            d = d + 2 * dx;
        }
        proof {
            assert(dx * (i + 1) == dx * i + dx) by (nonlinear_arith);
            gone = gone + dx;
        }
        i = i + 1;
    }
    assert(points@ =~= steep_line(p1, p2));
    points
}

/// The pixels of the straight line between two pixels.
///
/// The line has one pixel for every step along its longer extent, starts in
/// one end point and ends in the other, stays in the rectangle that the two
/// span, and has no gaps: each pixel touches the next.
pub fn line_between(p1: Pixel, p2: Pixel) -> (r: Vec<Pixel>)
    ensures
        r@ == line_pixels(p1, p2),
        r@.len() == (if magnitude(p2.y - p1.y) < magnitude(p2.x - p1.x) {
            magnitude(p2.x - p1.x)
        } else {
            magnitude(p2.y - p1.y)
        }) + 1,
        r@.first() == p1 && r@.last() == p2 || r@.first() == p2 && r@.last() == p1,
        forall|i: int|
            0 <= i < r@.len() ==> between((#[trigger] r@[i]).x as int, p1.x as int, p2.x as int)
                && between(r@[i].y as int, p1.y as int, p2.y as int),
        forall|i: int, j: int|
            0 <= i && j == i + 1 && j < r@.len() ==> is_step(
                #[trigger] r@[i],
                #[trigger] r@[j],
                magnitude(p2.y - p1.y) < magnitude(p2.x - p1.x),
            ),
{
    let dx: i64 = p2.x as i64 - p1.x as i64;
    let dy: i64 = p2.y as i64 - p1.y as i64;
    let wide: i64 = if dx < 0 {
        -dx
    } else {
        dx
    };
    let high: i64 = if dy < 0 {
        -dy
    } else {
        dy
    };
    proof {
        if high < wide {
            lemma_steps_across_range(high as int, wide as int, 0);
        } else {
            lemma_steps_across_range(wide as int, high as int, 0);
        }
    }
    let line = if high < wide {
        if p2.x > p1.x {
            pll(p1, p2)
        } else {
            pll(p2, p1)
        }
    } else {
        if p2.y > p1.y {
            plh(p1, p2)
        } else {
            plh(p2, p1)
        }
    };
    proof {
        lemma_line_within(p1, p2);
        lemma_line_connected(p1, p2);
        assert(line@ == line_pixels(p1, p2));
    }
    line
}

} // verus!
