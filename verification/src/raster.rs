//! Pixels, triangles on the pixel grid, and the sampling of a triangle's
//! edges row by row.
//!
//! An edge is sampled once per row: the column is the linear interpolation
//! between the edge's two end points, rounded toward zero. All of it is exact
//! integer arithmetic, so an edge always starts and ends in its end points.

use vstd::prelude::*;
use vstd::arithmetic::div_mod::{
    lemma_div_is_ordered, lemma_div_multiples_vanish, lemma_div_multiples_vanish_quotient,
};

verus! {

/// A point of the pixel grid.
#[derive(Copy, Clone, Debug, PartialOrd, PartialEq, Eq, Structural)]
pub struct Pixel {
    pub x: i32,
    pub y: i32,
}

/// A triangle on the pixel grid.
#[derive(Copy, Clone)]
pub struct Triangle2D {
    pub points: [Pixel; 3],
}

/// One horizontal span of a filled shape: its left and its right end.
#[derive(Copy, Clone)]
pub struct ScanlineH {
    pub l: Pixel,
    pub r: Pixel,
}

/// The quotient `n / d` rounded toward zero.
pub open spec fn toward_zero(n: int, d: int) -> int
    recommends
        d > 0,
{
    if n >= 0 {
        n / d
    } else {
        -((-n) / d)
    }
}

/// The column in which the segment from `a` up to `b` meets row `y`: the
/// linear interpolation between the two end points, rounded toward zero.
pub open spec fn column_at(a: Pixel, b: Pixel, y: int) -> int
    recommends
        a.y < b.y,
        a.y <= y <= b.y,
{
    toward_zero(a.x * (b.y - a.y) + (b.x - a.x) * (y - a.y), b.y - a.y)
}

/// The pixel of the segment from `a` up to `b` that lies `i` rows above `a`.
pub open spec fn edge_pixel(a: Pixel, b: Pixel, i: int) -> Pixel
    recommends
        a.y < b.y,
        0 <= i <= b.y - a.y,
{
    Pixel { x: column_at(a, b, a.y + i) as i32, y: (a.y + i) as i32 }
}

/// The pixels of the edge between `p0` and `p1`, one per row, from the lower
/// row number to the higher. An edge that lies in a single row is sampled as
/// its first end point alone.
pub open spec fn edge_pixels(p0: Pixel, p1: Pixel) -> Seq<Pixel> {
    if p0.y == p1.y {
        seq![p0]
    } else if p1.y < p0.y {
        Seq::new((p0.y - p1.y + 1) as nat, |i: int| edge_pixel(p1, p0, i))
    } else {
        Seq::new((p1.y - p0.y + 1) as nat, |i: int| edge_pixel(p0, p1, i))
    }
}

/// Rounding toward zero gives back the factor of an exact multiple.
pub proof fn lemma_toward_zero_of_multiple(k: int, d: int)
    requires
        d > 0,
    ensures
        toward_zero(k * d, d) == k,
{
    if k >= 0 {
        assert(k * d >= 0) by (nonlinear_arith)
            requires
                k >= 0,
                d > 0,
        ;
        lemma_div_multiples_vanish(k, d);
        assert(k * d == d * k) by (nonlinear_arith);
    } else {
        assert(k * d < 0) by (nonlinear_arith)
            requires
                k < 0,
                d > 0,
        ;
        lemma_div_multiples_vanish(-k, d);
        assert(-(k * d) == d * (-k)) by (nonlinear_arith);
    }
}

/// Rounding toward zero keeps the order of the numerators.
pub proof fn lemma_toward_zero_monotone(m: int, n: int, d: int)
    requires
        d > 0,
        m <= n,
    ensures
        toward_zero(m, d) <= toward_zero(n, d),
{
    if m >= 0 {
        lemma_div_is_ordered(m, n, d);
    } else if n >= 0 {
        assert((-m) / d >= 0) by (nonlinear_arith)
            requires
                -m >= 0,
                d > 0,
        ;
        assert(n / d >= 0) by (nonlinear_arith)
            requires
                n >= 0,
                d > 0,
        ;
    } else {
        lemma_div_is_ordered(-n, -m, d);
    }
}

/// Rounding toward zero does not change when the numerator and the
/// denominator grow by the same factor.
pub proof fn lemma_toward_zero_scaled(n: int, d: int, k: int)
    requires
        d > 0,
        k > 0,
    ensures
        k * d > 0,
        toward_zero(k * n, k * d) == toward_zero(n, d),
{
    if n >= 0 {
        lemma_div_multiples_vanish_quotient(k, n, d);
        assert(k * n >= 0) by (nonlinear_arith)
            requires
                k > 0,
                n >= 0,
        ;
    } else {
        lemma_div_multiples_vanish_quotient(k, -n, d);
        assert(k * n < 0 && k * (-n) == -(k * n)) by (nonlinear_arith)
            requires
                k > 0,
                n < 0,
        ;
    }
}

/// Of two fractions the smaller does not round to the larger number.
pub proof fn lemma_toward_zero_ordered(n1: int, d1: int, n2: int, d2: int)
    requires
        d1 > 0,
        d2 > 0,
        n1 * d2 <= n2 * d1,
    ensures
        toward_zero(n1, d1) <= toward_zero(n2, d2),
{
    lemma_toward_zero_scaled(n1, d1, d2);
    lemma_toward_zero_scaled(n2, d2, d1);
    assert(d2 * n1 == n1 * d2 && d1 * n2 == n2 * d1 && d2 * d1 == d1 * d2) by (nonlinear_arith);
    lemma_toward_zero_monotone(d2 * n1, d1 * n2, d1 * d2);
}

/// The arithmetic behind `lemma_sides_apart` for the rows from the middle
/// corner on. The first corner lies in column `x0`, the middle one `a`
/// columns and `d1` rows from it, the last one `b` columns and `d1 + e` rows
/// from it; the row lies `k` rows behind the middle corner. The two sides,
/// each taken times the rows of the other, differ by the triangle's bend
/// times the rows that are left.
proof fn lemma_lower_part(x0: int, a: int, b: int, d1: int, e: int, k: int)
    ensures
        ((x0 + a) * e + (b - a) * k) * (d1 + e) - (x0 * (d1 + e) + b * (k + d1)) * e == (e - k)
            * (a * (d1 + e) - b * d1),
{
    let d2 = d1 + e;
    let p = e * d2;
    let q = k * d2;
    let r = (k + d1) * e;
    let ed1 = e * d1;
    let kd1 = k * d1;
    assert(p == ed1 + e * e) by (nonlinear_arith)
        requires
            p == e * (d1 + e),
            ed1 == e * d1,
    ;
    assert(q == kd1 + k * e) by (nonlinear_arith)
        requires
            q == k * (d1 + e),
            kd1 == k * d1,
    ;
    assert(r == k * e + ed1) by (nonlinear_arith)
        requires
            r == (k + d1) * e,
            ed1 == e * d1,
    ;
    assert(((x0 + a) * e + (b - a) * k) * d2 == (x0 + a) * p + (b - a) * q) by (nonlinear_arith)
        requires
            p == e * d2,
            q == k * d2,
    ;
    assert((x0 * d2 + b * (k + d1)) * e == x0 * p + b * r) by (nonlinear_arith)
        requires
            p == e * d2,
            r == (k + d1) * e,
    ;
    assert((x0 + a) * p + (b - a) * q - (x0 * p + b * r) == a * p + b * q - a * q - b * r)
        by (nonlinear_arith);
    let m = e - k;
    let u = a * d2;
    let v = b * d1;
    assert(m * (u - v) == m * u - m * v) by (nonlinear_arith);
    assert(m * d2 == p - q) by (nonlinear_arith)
        requires
            m == e - k,
            p == e * d2,
            q == k * d2,
    ;
    assert(m * d1 == ed1 - kd1) by (nonlinear_arith)
        requires
            m == e - k,
            ed1 == e * d1,
            kd1 == k * d1,
    ;
    assert(m * u == a * (m * d2)) by (nonlinear_arith)
        requires
            u == a * d2,
    ;
    assert(m * v == b * (m * d1)) by (nonlinear_arith)
        requires
            v == b * d1,
    ;
    assert((e - k) * (a * d2 - b * d1) == a * (p - q) - b * (ed1 - kd1));
    assert(a * (p - q) - b * (ed1 - kd1) == a * p - a * q - b * ed1 + b * kd1)
        by (nonlinear_arith);
    assert(b * q - b * r == b * kd1 - b * ed1) by (nonlinear_arith)
        requires
            q - r == kd1 - ed1,
    ;
}

/// An edge stays between the columns of its end points.
pub proof fn lemma_column_between(a: Pixel, b: Pixel, y: int)
    requires
        a.y < b.y,
        a.y <= y <= b.y,
    ensures
        a.x <= b.x ==> a.x <= column_at(a, b, y) <= b.x,
        b.x <= a.x ==> b.x <= column_at(a, b, y) <= a.x,
{
    let dy = b.y - a.y;
    let dx = b.x - a.x;
    let t = y - a.y;
    let n = a.x * dy + dx * t;
    lemma_toward_zero_of_multiple(a.x as int, dy);
    lemma_toward_zero_of_multiple(b.x as int, dy);
    assert(a.x * dy + dx * dy == b.x * dy) by (nonlinear_arith)
        requires
            dx == b.x - a.x,
    ;
    if dx >= 0 {
        assert(0 <= dx * t <= dx * dy) by (nonlinear_arith)
            requires
                dx >= 0,
                0 <= t <= dy,
        ;
        lemma_toward_zero_monotone(a.x * dy, n, dy);
        lemma_toward_zero_monotone(n, b.x * dy, dy);
    }
    if dx <= 0 {
        assert(dx * dy <= dx * t <= 0) by (nonlinear_arith)
            requires
                dx <= 0,
                0 <= t <= dy,
        ;
        lemma_toward_zero_monotone(n, a.x * dy, dy);
        lemma_toward_zero_monotone(b.x * dy, n, dy);
    }
}

/// An edge starts in its lower end point and ends in its upper one.
pub proof fn lemma_edge_ends(a: Pixel, b: Pixel)
    requires
        a.y < b.y,
    ensures
        edge_pixel(a, b, 0) == a,
        edge_pixel(a, b, b.y - a.y) == b,
{
    let dy = b.y - a.y;
    lemma_toward_zero_of_multiple(a.x as int, dy);
    lemma_toward_zero_of_multiple(b.x as int, dy);
    assert(a.x * dy + (b.x - a.x) * 0 == a.x * dy) by (nonlinear_arith);
    assert(a.x * dy + (b.x - a.x) * dy == b.x * dy) by (nonlinear_arith);
}

/// What `edge_pixels` says of an edge, row by row: it has one pixel in every
/// row between its end points, each between the end points' columns, and it
/// runs from the end point in the lower row to the one in the higher row.
pub proof fn lemma_edge_pixels(p0: Pixel, p1: Pixel)
    ensures
        edge_pixels(p0, p1).len() == (if p0.y <= p1.y {
            p1.y - p0.y
        } else {
            p0.y - p1.y
        }) + 1,
        forall|i: int|
            0 <= i < edge_pixels(p0, p1).len() ==> {
                let p = #[trigger] edge_pixels(p0, p1)[i];
                &&& p.y == (if p0.y <= p1.y {
                    p0.y
                } else {
                    p1.y
                }) + i
                &&& (p0.x <= p1.x ==> p0.x <= p.x <= p1.x)
                &&& (p1.x <= p0.x ==> p1.x <= p.x <= p0.x)
            },
        edge_pixels(p0, p1).first() == (if p0.y <= p1.y {
            p0
        } else {
            p1
        }),
        p0.y != p1.y ==> edge_pixels(p0, p1).last() == (if p0.y <= p1.y {
            p1
        } else {
            p0
        }),
{
    if p0.y == p1.y {
    } else {
        let (a, b) = if p1.y < p0.y {
            (p1, p0)
        } else {
            (p0, p1)
        };
        lemma_edge_ends(a, b);
        assert forall|i: int| 0 <= i < edge_pixels(p0, p1).len() implies {
            let p = #[trigger] edge_pixels(p0, p1)[i];
            &&& p.y == a.y + i
            &&& (a.x <= b.x ==> a.x <= p.x <= b.x)
            &&& (b.x <= a.x ==> b.x <= p.x <= a.x)
        } by {
            lemma_column_between(a, b, a.y + i);
        }
    }
}

/// Samples the edge between two pixels, one pixel per row.
pub fn interp_pixels(p0: Pixel, p1: Pixel) -> (r: Vec<Pixel>)
    ensures
        r@ == edge_pixels(p0, p1),
{
    if p0.y == p1.y {
        let single = vec![p0];
        assert(single@ =~= edge_pixels(p0, p1));
        return single;
    }
    let (a, b) = if p1.y < p0.y {
        (p1, p0)
    } else {
        (p0, p1)
    };
    let dy: i64 = b.y as i64 - a.y as i64;
    let dx: i64 = b.x as i64 - a.x as i64;
    let mut out: Vec<Pixel> = Vec::new();
    let mut t: i64 = 0;
    while t <= dy
        invariant
            a.y < b.y,
            dy == b.y - a.y,
            dx == b.x - a.x,
            0 <= t <= dy + 1,
            out@ =~= Seq::new(t as nat, |i: int| edge_pixel(a, b, i)),
        decreases dy + 1 - t,
    {
        proof {
            lemma_column_between(a, b, a.y + t);
            assert(-0x8000_0000_0000_0000 <= a.x * dy <= 0x8000_0000_0000_0000)
                by (nonlinear_arith)
                requires
                    -0x8000_0000 <= a.x <= 0x8000_0000,
                    0 <= dy <= 0x1_0000_0000,
            ;
            assert(-0x1_0000_0000_0000_0000 <= dx * t <= 0x1_0000_0000_0000_0000)
                by (nonlinear_arith)
                requires
                    -0x1_0000_0000 <= dx <= 0x1_0000_0000,
                    0 <= t <= 0x1_0000_0000,
            ;
        }
        let n: i128 = (a.x as i128) * (dy as i128) + (dx as i128) * (t as i128);
        let x: i128 = n / (dy as i128);
        assert(x == column_at(a, b, a.y + t));
        out.push(Pixel { x: x as i32, y: (a.y as i64 + t) as i32 });
        t = t + 1;
    }
    assert(out@ =~= edge_pixels(p0, p1));
    out
}

impl Triangle2D {
    /// The lowest row number among the three corners.
    pub open spec fn min_y(self) -> int {
        let a = self.points[0].y;
        let b = self.points[1].y;
        let c = self.points[2].y;
        if a <= b && a <= c {
            a as int
        } else if b <= c {
            b as int
        } else {
            c as int
        }
    }

    /// The highest row number among the three corners.
    pub open spec fn max_y(self) -> int {
        let a = self.points[0].y;
        let b = self.points[1].y;
        let c = self.points[2].y;
        if a >= b && a >= c {
            a as int
        } else if b >= c {
            b as int
        } else {
            c as int
        }
    }

    /// The lowest column number among the three corners.
    pub open spec fn min_x(self) -> int {
        let a = self.points[0].x;
        let b = self.points[1].x;
        let c = self.points[2].x;
        if a <= b && a <= c {
            a as int
        } else if b <= c {
            b as int
        } else {
            c as int
        }
    }

    /// The highest column number among the three corners.
    pub open spec fn max_x(self) -> int {
        let a = self.points[0].x;
        let b = self.points[1].x;
        let c = self.points[2].x;
        if a >= b && a >= c {
            a as int
        } else if b >= c {
            b as int
        } else {
            c as int
        }
    }

    /// Whether the corners are stored by ascending row number.
    pub open spec fn is_ascending(self) -> bool {
        self.points[0].y <= self.points[1].y <= self.points[2].y
    }

    /// The corner indices by descending row number: three exchanges, each made
    /// only on a strictly greater row number, first between corners 1 and 0,
    /// then between corner 2 and the head, then between the last two.
    pub open spec fn indices_sorted(self) -> (usize, usize, usize) {
        let (h, m): (usize, usize) = if self.points[1].y > self.points[0].y {
            (1, 0)
        } else {
            (0, 1)
        };
        let (h, t): (usize, usize) = if self.points[2].y > self.points[h as int].y {
            (2, h)
        } else {
            (h, 2)
        };
        let (m, t): (usize, usize) = if self.points[t as int].y > self.points[m as int].y {
            (t, m)
        } else {
            (m, t)
        };
        (h, m, t)
    }

    /// The same triangle with its corners stored by ascending row number.
    pub open spec fn ascending(self) -> Triangle2D {
        let (i0, i1, i2) = self.indices_sorted();
        Triangle2D {
            points: [self.points[i2 as int], self.points[i1 as int], self.points[i0 as int]],
        }
    }

    /// The compound edge through all three corners in order, one pixel per
    /// row: the edge from corner 0 to corner 1 without its last pixel, then
    /// the edge from corner 1 to corner 2.
    pub open spec fn short_side(self) -> Seq<Pixel> {
        edge_pixels(self.points[0], self.points[1]).drop_last() + edge_pixels(
            self.points[1],
            self.points[2],
        )
    }

    /// The edge from corner 0 straight to corner 2, one pixel per row.
    pub open spec fn long_side(self) -> Seq<Pixel> {
        edge_pixels(self.points[0], self.points[2])
    }

    /// Whether the long side is taken for the left one: it is when, in the
    /// middle row, it lies strictly left of the compound side.
    pub open spec fn long_side_is_left(self) -> bool {
        let mid = self.long_side().len() / 2;
        self.long_side()[mid as int].x < self.short_side()[mid as int].x
    }

    /// The left and the right side of the triangle, one pixel per row each.
    pub open spec fn sides(self) -> (Seq<Pixel>, Seq<Pixel>) {
        if self.long_side_is_left() {
            (self.long_side(), self.short_side())
        } else {
            (self.short_side(), self.long_side())
        }
    }

    /// To which side the triangle bends at corner 1: positive where the
    /// corner lies on the side of the larger columns of the line through the
    /// two other corners, negative where it lies on the side of the smaller
    /// ones, zero where the three corners lie on one line.
    pub open spec fn bend(self) -> int {
        (self.points[1].x - self.points[0].x) * (self.points[2].y - self.points[0].y) - (
        self.points[2].x - self.points[0].x) * (self.points[1].y - self.points[0].y)
    }

    /// Whether the middle row tells the two sides apart: they do not share
    /// its pixel.
    pub open spec fn sides_differ(self) -> bool {
        let mid = self.long_side().len() / 2;
        self.long_side()[mid as int].x != self.short_side()[mid as int].x
    }

    /// The sorted indices are the three corner indices in some order, and the
    /// row numbers do not rise along them.
    pub proof fn lemma_indices_sorted(self)
        ensures
            ({
                let (i0, i1, i2) = self.indices_sorted();
                &&& i0 < 3 && i1 < 3 && i2 < 3
                &&& i0 != i1 && i1 != i2 && i0 != i2
                &&& self.points[i0 as int].y >= self.points[i1 as int].y
                &&& self.points[i1 as int].y >= self.points[i2 as int].y
            }),
            self.ascending().is_ascending(),
            self.ascending().min_y() == self.min_y(),
            self.ascending().max_y() == self.max_y(),
            self.ascending().points[0].y == self.min_y(),
            self.ascending().points[2].y == self.max_y(),
            self.ascending().min_x() == self.min_x(),
            self.ascending().max_x() == self.max_x(),
    {
    }

    /// Both sides of a triangle stored by ascending row number have one pixel
    /// in every row from the first corner's to the last corner's.
    pub proof fn lemma_sides_rows(self)
        requires
            self.is_ascending(),
        ensures
            self.short_side().len() == self.points[2].y - self.points[0].y + 1,
            self.long_side().len() == self.points[2].y - self.points[0].y + 1,
            forall|i: int|
                0 <= i < self.short_side().len() ==> (#[trigger] self.short_side()[i]).y
                    == self.points[0].y + i,
            forall|i: int|
                0 <= i < self.long_side().len() ==> (#[trigger] self.long_side()[i]).y
                    == self.points[0].y + i,
    {
        let p0 = self.points[0];
        let p1 = self.points[1];
        let p2 = self.points[2];
        lemma_edge_pixels(p0, p1);
        lemma_edge_pixels(p1, p2);
        lemma_edge_pixels(p0, p2);
        let head = edge_pixels(p0, p1).drop_last();
        let tail = edge_pixels(p1, p2);
        assert forall|i: int| 0 <= i < self.short_side().len() implies (
        #[trigger] self.short_side()[i]).y == p0.y + i by {
            if i < head.len() {
                assert(self.short_side()[i] == edge_pixels(p0, p1)[i]);
            } else {
                assert(self.short_side()[i] == tail[i - head.len()]);
            }
        }
    }

    /// Both sides start in a corner of the first row and end in a corner of
    /// the last: the straight side in the first and in the last corner, the
    /// compound side in the middle corner wherever that corner shares the row.
    pub proof fn lemma_sides_ends(self)
        requires
            self.is_ascending(),
        ensures
            self.long_side().first() == self.points[0],
            self.points[0].y < self.points[2].y ==> self.long_side().last() == self.points[2],
            self.short_side().first() == (if self.points[0].y < self.points[1].y {
                self.points[0]
            } else {
                self.points[1]
            }),
            self.short_side().last() == (if self.points[1].y < self.points[2].y {
                self.points[2]
            } else {
                self.points[1]
            }),
    {
        let p0 = self.points[0];
        let p1 = self.points[1];
        let p2 = self.points[2];
        lemma_edge_pixels(p0, p1);
        lemma_edge_pixels(p1, p2);
        lemma_edge_pixels(p0, p2);
        let head = edge_pixels(p0, p1).drop_last();
        let tail = edge_pixels(p1, p2);
        if p0.y < p1.y {
            assert(self.short_side()[0] == head[0]);
        } else {
            assert(self.short_side()[0] == tail[0]);
        }
        assert(self.short_side().last() == tail.last());
    }

    /// No pixel of a side lies left or right of all three corners.
    pub proof fn lemma_sides_columns(self)
        requires
            self.is_ascending(),
        ensures
            forall|i: int|
                0 <= i < self.short_side().len() ==> self.min_x() <= (
                #[trigger] self.short_side()[i]).x <= self.max_x(),
            forall|i: int|
                0 <= i < self.long_side().len() ==> self.min_x() <= (
                #[trigger] self.long_side()[i]).x <= self.max_x(),
    {
        let p0 = self.points[0];
        let p1 = self.points[1];
        let p2 = self.points[2];
        lemma_edge_pixels(p0, p1);
        lemma_edge_pixels(p1, p2);
        lemma_edge_pixels(p0, p2);
        let head = edge_pixels(p0, p1).drop_last();
        let tail = edge_pixels(p1, p2);
        assert forall|i: int| 0 <= i < self.short_side().len() implies self.min_x() <= (
        #[trigger] self.short_side()[i]).x <= self.max_x() by {
            if i < head.len() {
                assert(self.short_side()[i] == edge_pixels(p0, p1)[i]);
            } else {
                assert(self.short_side()[i] == tail[i - head.len()]);
            }
        }
    }

    /// In a triangle that is more than one row high, the compound side lies
    /// in every row on the side of the straight one to which the triangle
    /// bends.
    pub proof fn lemma_sides_apart(self)
        requires
            self.is_ascending(),
            self.points[0].y < self.points[2].y,
        ensures
            self.bend() >= 0 ==> forall|i: int|
                0 <= i < self.long_side().len() ==> (#[trigger] self.long_side()[i]).x
                    <= self.short_side()[i].x,
            self.bend() <= 0 ==> forall|i: int|
                0 <= i < self.long_side().len() ==> self.short_side()[i].x <= (
                #[trigger] self.long_side()[i]).x,
    {
        self.lemma_sides_rows();
        assert forall|i: int| 0 <= i < self.long_side().len() implies (self.bend() >= 0 ==> (
        #[trigger] self.long_side()[i]).x <= self.short_side()[i].x) && (self.bend() <= 0
            ==> self.short_side()[i].x <= self.long_side()[i].x) by {
            self.lemma_sides_apart_in_row(i);
        }
    }

    /// What `lemma_sides_apart` says, of one row.
    proof fn lemma_sides_apart_in_row(self, i: int)
        requires
            self.is_ascending(),
            self.points[0].y < self.points[2].y,
            0 <= i <= self.points[2].y - self.points[0].y,
        ensures
            self.bend() >= 0 ==> self.long_side()[i].x <= self.short_side()[i].x,
            self.bend() <= 0 ==> self.short_side()[i].x <= self.long_side()[i].x,
    {
        let p0 = self.points[0];
        let p1 = self.points[1];
        let p2 = self.points[2];
        let x0 = p0.x as int;
        let x1 = p1.x as int;
        let x2 = p2.x as int;
        let d1 = p1.y - p0.y;
        let d2 = p2.y - p0.y;
        let e = p2.y - p1.y;
        let bend = self.bend();
        self.lemma_sides_rows();
        lemma_edge_pixels(p0, p1);
        lemma_edge_pixels(p1, p2);
        lemma_edge_pixels(p0, p2);
        lemma_column_between(p0, p2, p0.y + i);
        let head = edge_pixels(p0, p1).drop_last();
        let tail = edge_pixels(p1, p2);
        let n2 = x0 * d2 + (x2 - x0) * i;
        assert(self.long_side()[i] == edge_pixel(p0, p2, i));
        assert(self.long_side()[i].x == toward_zero(n2, d2));
        if i < d1 {
            lemma_column_between(p0, p1, p0.y + i);
            let n1 = x0 * d1 + (x1 - x0) * i;
            assert(self.short_side()[i] == head[i]);
            assert(head[i] == edge_pixel(p0, p1, i));
            assert(self.short_side()[i].x == toward_zero(n1, d1));
            assert(n1 * d2 - n2 * d1 == i * bend) by (nonlinear_arith)
                requires
                    n1 == x0 * d1 + (x1 - x0) * i,
                    n2 == x0 * d2 + (x2 - x0) * i,
                    bend == (x1 - x0) * d2 - (x2 - x0) * d1,
            ;
            if bend >= 0 {
                assert(i * bend >= 0) by (nonlinear_arith)
                    requires
                        i >= 0,
                        bend >= 0,
                ;
                lemma_toward_zero_ordered(n2, d2, n1, d1);
            }
            if bend <= 0 {
                assert(i * bend <= 0) by (nonlinear_arith)
                    requires
                        i >= 0,
                        bend <= 0,
                ;
                lemma_toward_zero_ordered(n1, d1, n2, d2);
            }
        } else {
            let k = i - d1;
            assert(head.len() == d1);
            assert(self.short_side()[i] == tail[k]);
            if e > 0 {
                lemma_column_between(p1, p2, p1.y + k);
                let n1 = x1 * e + (x2 - x1) * k;
                assert(tail[k] == edge_pixel(p1, p2, k));
                assert(self.short_side()[i].x == toward_zero(n1, e));
                lemma_lower_part(x0, x1 - x0, x2 - x0, d1, e, k);
                if bend >= 0 {
                    assert((e - k) * bend >= 0) by (nonlinear_arith)
                        requires
                            e - k >= 0,
                            bend >= 0,
                    ;
                    lemma_toward_zero_ordered(n2, d2, n1, e);
                }
                if bend <= 0 {
                    assert((e - k) * bend <= 0) by (nonlinear_arith)
                        requires
                            e - k >= 0,
                            bend <= 0,
                    ;
                    lemma_toward_zero_ordered(n1, e, n2, d2);
                }
            } else {
                assert(tail[k] == p1);
                assert(i == d2);
                lemma_edge_ends(p0, p2);
                assert(self.long_side()[i] == p2);
                assert(bend == (x1 - x2) * d2) by (nonlinear_arith)
                    requires
                        bend == (x1 - x0) * d2 - (x2 - x0) * d1,
                        d1 == d2,
                ;
                if bend >= 0 {
                    assert(x1 - x2 >= 0) by (nonlinear_arith)
                        requires
                            (x1 - x2) * d2 >= 0,
                            d2 > 0,
                    ;
                }
                if bend <= 0 {
                    assert(x1 - x2 <= 0) by (nonlinear_arith)
                        requires
                            (x1 - x2) * d2 <= 0,
                            d2 > 0,
                    ;
                }
            }
        }
    }

    /// Where the middle row tells the two sides apart, no pixel of the left
    /// side lies right of its partner on the right side.
    pub proof fn lemma_sides_ordered(self)
        requires
            self.is_ascending(),
            self.sides_differ(),
        ensures
            forall|i: int|
                0 <= i < self.sides().0.len() ==> (#[trigger] self.sides().0[i]).x
                    <= self.sides().1[i].x,
    {
        self.lemma_sides_rows();
        if self.points[0].y < self.points[2].y {
            self.lemma_sides_apart();
            let mid = (self.long_side().len() / 2) as int;
            if self.long_side_is_left() {
                // The long side lies strictly left in the middle row.
                if self.bend() <= 0 {
                    assert(self.short_side()[mid].x <= self.long_side()[mid].x);
                }
            } else {
                if self.bend() >= 0 {
                    assert(self.long_side()[mid].x <= self.short_side()[mid].x);
                }
            }
        }
    }

    /// A triangle from three `(x, y)` pairs.
    pub fn from_points(points: &[(i32, i32); 3]) -> (r: Self)
        ensures
            forall|i: int|
                0 <= i < 3 ==> (#[trigger] r.points[i]) == (Pixel {
                    x: points[i].0,
                    y: points[i].1,
                }),
    {
        Triangle2D {
            points: [
                Pixel { x: points[0].0, y: points[0].1 },
                Pixel { x: points[1].0, y: points[1].1 },
                Pixel { x: points[2].0, y: points[2].1 },
            ],
        }
    }

    /// The corner indices sorted by row number, the highest row number first.
    pub fn get_indices_sorted(&self) -> (r: (usize, usize, usize))
        ensures
            r == self.indices_sorted(),
            r.0 < 3 && r.1 < 3 && r.2 < 3,
            r.0 != r.1 && r.1 != r.2 && r.0 != r.2,
            self.points[r.0 as int].y >= self.points[r.1 as int].y >= self.points[r.2 as int].y,
    {
        let mut i0: usize = 0;
        let mut i1: usize = 1;
        let mut i2: usize = 2;
        if self.points[i1].y > self.points[i0].y {
            let held = i1;
            i1 = i0;
            i0 = held;
        }
        if self.points[i2].y > self.points[i0].y {
            let held = i2;
            i2 = i0;
            i0 = held;
        }
        if self.points[i2].y > self.points[i1].y {
            let held = i2;
            i2 = i1;
            i1 = held;
        }
        (i0, i1, i2)
    }

    /// The pixels along the edges from corner 0 to corner 1 to corner 2.
    fn get_012(&self) -> (r: Vec<Pixel>)
        requires
            self.is_ascending(),
        ensures
            r@ == self.short_side(),
    {
        let mut side = interp_pixels(self.points[0], self.points[1]);
        // The last pixel of the first edge is the first pixel of the second.
        side.pop();
        let mut rest = interp_pixels(self.points[1], self.points[2]);
        side.append(&mut rest);
        side
    }

    /// The pixels along the edge from corner 0 to corner 2.
    fn get_02(&self) -> (r: Vec<Pixel>)
        requires
            self.is_ascending(),
        ensures
            r@ == self.long_side(),
    {
        interp_pixels(self.points[0], self.points[2])
    }

    /// The left and the right side of a triangle whose corners are stored by
    /// ascending row number.
    ///
    /// Which side is the left one is decided in the middle row alone. On a
    /// triangle so thin that both sides share the middle pixel, a pixel of
    /// the side returned as left may lie right of its partner in another row.
    pub fn get_sides(&self) -> (r: (Vec<Pixel>, Vec<Pixel>))
        requires
            self.is_ascending(),
        ensures
            r.0@ == self.sides().0,
            r.1@ == self.sides().1,
            r.0@.len() == self.max_y() - self.min_y() + 1,
            r.1@.len() == r.0@.len(),
            forall|i: int|
                0 <= i < r.0@.len() ==> (#[trigger] r.0@[i]).y == self.min_y() + i && (
                #[trigger] r.1@[i]).y == self.min_y() + i,
            r.0@[r.0@.len() as int / 2].x <= r.1@[r.0@.len() as int / 2].x,
            self.sides_differ() ==> forall|i: int|
                0 <= i < r.0@.len() ==> (#[trigger] r.0@[i]).x <= r.1@[i].x,
            forall|i: int|
                0 <= i < r.0@.len() ==> self.min_x() <= (#[trigger] r.0@[i]).x <= self.max_x()
                    && self.min_x() <= (#[trigger] r.1@[i]).x <= self.max_x(),
    {
        let lefts = self.get_012();
        let rights = self.get_02();
        proof {
            self.lemma_sides_rows();
            self.lemma_sides_columns();
            if self.sides_differ() {
                self.lemma_sides_ordered();
            }
        }
        let mid = rights.len() / 2;
        if rights[mid].x < lefts[mid].x {
            (rights, lefts)
        } else {
            (lefts, rights)
        }
    }

    /// The two sides of a triangle whose corners are stored by ascending row
    /// number, each with the values that go with its pixels: `attr_012`
    /// belongs to the compound side, `attr_02` to the straight one.
    ///
    /// The sides are the ones of `get_sides`, and the values stay with their
    /// side: where the sides change places, so do the values.
    pub fn get_sides_with_attr<A>(&self, attr_012: Vec<A>, attr_02: Vec<A>) -> (r: (
        (Vec<Pixel>, Vec<Pixel>),
        (Vec<A>, Vec<A>),
    ))
        requires
            self.is_ascending(),
        ensures
            r.0.0@ == self.sides().0,
            r.0.1@ == self.sides().1,
            self.long_side_is_left() ==> r.1.0@ == attr_02@ && r.1.1@ == attr_012@,
            !self.long_side_is_left() ==> r.1.0@ == attr_012@ && r.1.1@ == attr_02@,
    {
        let l = self.get_012();
        let r = self.get_02();
        proof {
            self.lemma_sides_rows();
        }
        let mid = l.len() / 2;
        if r[mid].x < l[mid].x {
            ((r, l), (attr_02, attr_012))
        } else {
            ((l, r), (attr_012, attr_02))
        }
    }
}

} // verus!
