//! Drawing on an image, with nothing but pixels: lines, and triangles in
//! outline or filled.

use vstd::prelude::*;
use crate::grr::{fill, line_between, line_pixels, scanlines_of};
use crate::raster::{Pixel, ScanlineH, Triangle2D};
use crate::surface::{
    image_height, image_holds, image_is_grid, image_pixels, image_width, lemma_place, place, Image,
};

verus! {

/// The pixels of an image after the given ones were set to one colour, one
/// after the other. A pixel without a place in the image changes nothing.
pub open spec fn painted(
    pixels: Seq<[u8; 3]>,
    width: nat,
    points: Seq<Pixel>,
    col: [u8; 3],
) -> Seq<[u8; 3]>
    decreases points.len(),
{
    if points.len() == 0 {
        pixels
    } else {
        let before = painted(pixels, width, points.drop_last(), col);
        let at = place(width, points.last());
        if 0 <= at < before.len() {
            before.update(at, col)
        } else {
            before
        }
    }
}

/// The pixels of a span, from its left end to its right end; none where the
/// left end lies right of the right end.
pub open spec fn span_pixels(span: ScanlineH) -> Seq<Pixel> {
    Seq::new(
        (if span.l.x <= span.r.x {
            span.r.x - span.l.x + 1
        } else {
            0
        }) as nat,
        |i: int| Pixel { x: (span.l.x + i) as i32, y: span.l.y },
    )
}

/// The pixels of spans, span after span.
pub open spec fn spans_pixels(spans: Seq<ScanlineH>) -> Seq<Pixel>
    decreases spans.len(),
{
    if spans.len() == 0 {
        Seq::empty()
    } else {
        spans_pixels(spans.drop_last()) + span_pixels(spans.last())
    }
}

/// The pixel with the given column and row.
pub open spec fn pixel_of(p: [i32; 2]) -> Pixel {
    Pixel { x: p[0], y: p[1] }
}

/// The triangle with the given corners.
pub open spec fn triangle_of(tri: [[i32; 2]; 3]) -> Triangle2D {
    Triangle2D { points: [pixel_of(tri[0]), pixel_of(tri[1]), pixel_of(tri[2])] }
}

/// Painting keeps the number of pixels.
pub proof fn lemma_painted_len(pixels: Seq<[u8; 3]>, width: nat, points: Seq<Pixel>, col: [u8; 3])
    ensures
        painted(pixels, width, points, col).len() == pixels.len(),
    decreases points.len(),
{
    if points.len() > 0 {
        lemma_painted_len(pixels, width, points.drop_last(), col);
    }
}

/// Painting two runs of pixels one after the other is painting the one run
/// that both make.
pub proof fn lemma_painted_twice(
    pixels: Seq<[u8; 3]>,
    width: nat,
    first: Seq<Pixel>,
    second: Seq<Pixel>,
    col: [u8; 3],
)
    ensures
        painted(painted(pixels, width, first, col), width, second, col) == painted(
            pixels,
            width,
            first + second,
            col,
        ),
    decreases second.len(),
{
    if second.len() == 0 {
        assert(first + second =~= first);
    } else {
        lemma_painted_twice(pixels, width, first, second.drop_last(), col);
        assert((first + second).drop_last() =~= first + second.drop_last());
        assert((first + second).last() == second.last());
    }
}

/// A painted pixel that lies in the image has the colour it was painted
/// with.
pub proof fn lemma_painted_has_colour(
    pixels: Seq<[u8; 3]>,
    width: nat,
    points: Seq<Pixel>,
    col: [u8; 3],
    i: int,
)
    requires
        0 <= i < points.len(),
        0 <= place(width, points[i]) < pixels.len(),
    ensures
        painted(pixels, width, points, col)[place(width, points[i])] == col,
    decreases points.len(),
{
    lemma_painted_len(pixels, width, points.drop_last(), col);
    if i < points.len() - 1 {
        lemma_painted_has_colour(pixels, width, points.drop_last(), col, i);
    }
}

/// Sets the given pixels to one colour.
fn paint(img: &mut Image, points: &Vec<Pixel>, col: &[u8; 3])
    requires
        image_is_grid(*old(img)),
        forall|i: int| 0 <= i < points@.len() ==> image_holds(*old(img), #[trigger] points@[i]),
    ensures
        image_is_grid(*final(img)),
        image_width(*final(img)) == image_width(*old(img)),
        image_height(*final(img)) == image_height(*old(img)),
        image_pixels(*final(img)) == painted(
            image_pixels(*old(img)),
            image_width(*old(img)),
            points@,
            *col,
        ),
{
    let mut i: usize = 0;
    while i < points.len()
        invariant
            i <= points@.len(),
            image_is_grid(*img),
            image_width(*img) == image_width(*old(img)),
            image_height(*img) == image_height(*old(img)),
            forall|j: int| 0 <= j < points@.len() ==> image_holds(*old(img), #[trigger] points@[j]),
            image_pixels(*img) == painted(
                image_pixels(*old(img)),
                image_width(*old(img)),
                points@.take(i as int),
                *col,
            ),
        decreases points@.len() - i,
    {
        assert(image_holds(*old(img), points@[i as int]));
        proof {
            lemma_place(*img, points@[i as int]);
        }
        img.put(points[i], col);
        assert(points@.take(i + 1).drop_last() =~= points@.take(i as int));
        i = i + 1;
    }
    assert(points@.take(points@.len() as int) =~= points@);
}

/// Draws the line between two pixels, which both have to lie in the image.
pub fn render_line(img: &mut Image, p1: [i32; 2], p2: [i32; 2], col: &[u8; 3])
    requires
        image_is_grid(*old(img)),
        image_holds(*old(img), pixel_of(p1)),
        image_holds(*old(img), pixel_of(p2)),
    ensures
        image_is_grid(*final(img)),
        image_width(*final(img)) == image_width(*old(img)),
        image_height(*final(img)) == image_height(*old(img)),
        image_pixels(*final(img)) == painted(
            image_pixels(*old(img)),
            image_width(*old(img)),
            line_pixels(pixel_of(p1), pixel_of(p2)),
            *col,
        ),
{
    let p1 = Pixel { x: p1[0], y: p1[1] };
    let p2 = Pixel { x: p2[0], y: p2[1] };
    let line = line_between(p1, p2);
    paint(img, &line, col);
    let ghost drawn = image_pixels(*img);
    let ghost first = choose|i: int| 0 <= i < line@.len() && line@[i] == p1;
    let ghost last = choose|i: int| 0 <= i < line@.len() && line@[i] == p2;
    proof {
        assert(line@.first() == p1 || line@.last() == p1);
        assert(line@.first() == p2 || line@.last() == p2);
        lemma_place(*old(img), p1);
        lemma_place(*old(img), p2);
        lemma_painted_has_colour(
            image_pixels(*old(img)),
            image_width(*old(img)),
            line@,
            *col,
            first,
        );
        lemma_painted_has_colour(
            image_pixels(*old(img)),
            image_width(*old(img)),
            line@,
            *col,
            last,
        );
    }
    // The ends of a line are pixels of the line: this changes nothing.
    img.put(p1, col);
    img.put(p2, col);
    assert(image_pixels(*img) =~= drawn);
}

/// Draws the three edges of a triangle, whose corners have to lie in the
/// image: from the first corner to the second, on to the third, and back.
pub fn render_triangle_wireframe(img: &mut Image, tri: &[[i32; 2]; 3], col: &[u8; 3])
    requires
        image_is_grid(*old(img)),
        forall|i: int| 0 <= i < 3 ==> image_holds(*old(img), pixel_of(#[trigger] tri[i])),
    ensures
        image_is_grid(*final(img)),
        image_width(*final(img)) == image_width(*old(img)),
        image_height(*final(img)) == image_height(*old(img)),
        image_pixels(*final(img)) == painted(
            image_pixels(*old(img)),
            image_width(*old(img)),
            line_pixels(pixel_of(tri[0]), pixel_of(tri[1])) + line_pixels(
                pixel_of(tri[1]),
                pixel_of(tri[2]),
            ) + line_pixels(pixel_of(tri[2]), pixel_of(tri[0])),
            *col,
        ),
{
    let tri = Triangle2D::from_points(
        &[(tri[0][0], tri[0][1]), (tri[1][0], tri[1][1]), (tri[2][0], tri[2][1])],
    );
    assert(image_holds(*old(img), tri.points[0]));
    assert(image_holds(*old(img), tri.points[1]));
    assert(image_holds(*old(img), tri.points[2]));
    let ghost before = image_pixels(*img);
    let ghost width = image_width(*img);
    let line = line_between(tri.points[0], tri.points[1]);
    paint(img, &line, col);
    let line = line_between(tri.points[1], tri.points[2]);
    paint(img, &line, col);
    let line = line_between(tri.points[2], tri.points[0]);
    paint(img, &line, col);
    proof {
        let a = line_pixels(tri.points[0], tri.points[1]);
        let b = line_pixels(tri.points[1], tri.points[2]);
        let c = line_pixels(tri.points[2], tri.points[0]);
        lemma_painted_twice(before, width, a, b, *col);
        lemma_painted_twice(before, width, a + b, c, *col);
    }
}

/// Fills a triangle, whose corners have to lie in the image: every span from
/// its left end to its right end.
pub fn render_triangle_filled(img: &mut Image, tri: &[[i32; 2]; 3], col: &[u8; 3])
    requires
        image_is_grid(*old(img)),
        forall|i: int| 0 <= i < 3 ==> image_holds(*old(img), pixel_of(#[trigger] tri[i])),
    ensures
        image_is_grid(*final(img)),
        image_width(*final(img)) == image_width(*old(img)),
        image_height(*final(img)) == image_height(*old(img)),
        image_pixels(*final(img)) == painted(
            image_pixels(*old(img)),
            image_width(*old(img)),
            spans_pixels(scanlines_of(triangle_of(*tri))),
            *col,
        ),
{
    let ghost given = triangle_of(*tri);
    let tri = Triangle2D::from_points(
        &[(tri[0][0], tri[0][1]), (tri[1][0], tri[1][1]), (tri[2][0], tri[2][1])],
    );
    assert(tri.points =~= given.points);
    assert(image_holds(*old(img), tri.points[0]));
    assert(image_holds(*old(img), tri.points[1]));
    assert(image_holds(*old(img), tri.points[2]));
    let ghost before = image_pixels(*img);
    let ghost width = image_width(*img);
    let spans = fill(&tri);
    let mut j: usize = 0;
    while j < spans.len()
        invariant
            j <= spans@.len(),
            spans@ == scanlines_of(tri),
            spans@.len() == tri.max_y() - tri.min_y() + 1,
            forall|i: int|
                0 <= i < spans@.len() ==> (#[trigger] spans@[i]).l.y == tri.min_y() + i && tri.min_x()
                    <= spans@[i].l.x <= tri.max_x() && tri.min_x() <= spans@[i].r.x
                    <= tri.max_x(),
            0 <= tri.min_x() && tri.max_x() < image_width(*old(img)),
            0 <= tri.min_y() && tri.max_y() < image_height(*old(img)),
            before == image_pixels(*old(img)),
            width == image_width(*old(img)),
            image_is_grid(*img),
            image_width(*img) == width,
            image_height(*img) == image_height(*old(img)),
            image_pixels(*img) == painted(before, width, spans_pixels(spans@.take(j as int)), *col),
        decreases spans@.len() - j,
    {
        let line = spans[j];
        let ghost done = spans_pixels(spans@.take(j as int));
        assert(done + span_pixels(line).take(0) =~= done);
        let mut x: i64 = line.l.x as i64;
        while x <= line.r.x as i64
            invariant
                line.l.x <= x,
                line.l.x <= line.r.x ==> x <= line.r.x + 1,
                line.l.x > line.r.x ==> x == line.l.x,
                0 <= line.l.x && line.r.x < width,
                0 <= line.l.y < image_height(*old(img)),
                width == image_width(*old(img)),
                image_is_grid(*img),
                image_width(*img) == width,
                image_height(*img) == image_height(*old(img)),
                image_pixels(*img) == painted(
                    before,
                    width,
                    done + span_pixels(line).take(x - line.l.x),
                    *col,
                ),
            decreases line.r.x + 1 - x,
        {
            let ghost so_far = done + span_pixels(line).take(x - line.l.x);
            let at = Pixel { x: x as i32, y: line.l.y };
            proof {
                lemma_place(*img, at);
            }
            img.put(at, col);
            proof {
                let next = done + span_pixels(line).take(x + 1 - line.l.x);
                assert(next.drop_last() =~= so_far);
                assert(next.last() == at);
            }
            x = x + 1;
        }
        proof {
            assert(span_pixels(line).take(x - line.l.x) =~= span_pixels(line));
            assert(spans@.take(j + 1).drop_last() =~= spans@.take(j as int));
            assert(spans@.take(j + 1).last() == line);
        }
        j = j + 1;
    }
    assert(spans@.take(spans@.len() as int) =~= spans@);
}

} // verus!
