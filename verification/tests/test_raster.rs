use vox::grr;
use vox::raster::{interp_pixels, Pixel, Triangle2D};

fn px(x: i32, y: i32) -> Pixel {
    Pixel { x, y }
}

#[test]
fn edge_has_one_pixel_per_row() {
    let edge = interp_pixels(px(0, 0), px(10, 4));
    assert_eq!(edge, vec![px(0, 0), px(2, 1), px(5, 2), px(7, 3), px(10, 4)]);
}

#[test]
fn edge_runs_by_ascending_row_whatever_the_order() {
    let down = interp_pixels(px(10, 4), px(0, 0));
    assert_eq!(down, vec![px(0, 0), px(2, 1), px(5, 2), px(7, 3), px(10, 4)]);
}

#[test]
fn edge_in_one_row_is_its_first_end() {
    assert_eq!(interp_pixels(px(3, 7), px(9, 7)), vec![px(3, 7)]);
    assert_eq!(interp_pixels(px(9, 7), px(3, 7)), vec![px(9, 7)]);
    assert_eq!(interp_pixels(px(3, 7), px(3, 7)), vec![px(3, 7)]);
}

#[test]
fn edge_rounds_toward_zero() {
    // Columns -1/3 and -2/3 both round to zero.
    let edge = interp_pixels(px(0, 0), px(-1, 3));
    assert_eq!(edge, vec![px(0, 0), px(0, 1), px(0, 2), px(-1, 3)]);
    // Columns -2/3 and -1/3 on the way up.
    let edge = interp_pixels(px(-1, 0), px(0, 3));
    assert_eq!(edge, vec![px(-1, 0), px(0, 1), px(0, 2), px(0, 3)]);
}

#[test]
fn edge_between_the_widest_columns() {
    let edge = interp_pixels(px(i32::MIN, 0), px(i32::MAX, 2));
    assert_eq!(edge, vec![px(i32::MIN, 0), px(0, 1), px(i32::MAX, 2)]);
    let edge = interp_pixels(px(i32::MAX, i32::MIN), px(i32::MIN, i32::MIN + 2));
    assert_eq!(
        edge,
        vec![px(i32::MAX, i32::MIN), px(0, i32::MIN + 1), px(i32::MIN, i32::MIN + 2)]
    );
}

#[test]
fn from_points_keeps_the_order() {
    let tri = Triangle2D::from_points(&[(1, 2), (3, 4), (5, 6)]);
    assert_eq!(tri.points, [px(1, 2), px(3, 4), px(5, 6)]);
}

#[test]
fn indices_sorted_by_descending_row() {
    let rows = |a: i32, b: i32, c: i32| Triangle2D::from_points(&[(0, a), (0, b), (0, c)]);
    assert_eq!(rows(1, 2, 3).get_indices_sorted(), (2, 1, 0));
    assert_eq!(rows(3, 2, 1).get_indices_sorted(), (0, 1, 2));
    assert_eq!(rows(2, 3, 1).get_indices_sorted(), (1, 0, 2));
    assert_eq!(rows(2, 1, 3).get_indices_sorted(), (2, 0, 1));
    assert_eq!(rows(1, 3, 2).get_indices_sorted(), (1, 2, 0));
    assert_eq!(rows(3, 1, 2).get_indices_sorted(), (0, 2, 1));
}

#[test]
fn indices_sorted_with_equal_rows() {
    let rows = |a: i32, b: i32, c: i32| Triangle2D::from_points(&[(0, a), (0, b), (0, c)]);
    assert_eq!(rows(5, 5, 5).get_indices_sorted(), (0, 1, 2));
    assert_eq!(rows(5, 5, 7).get_indices_sorted(), (2, 1, 0));
    assert_eq!(rows(5, 7, 5).get_indices_sorted(), (1, 0, 2));
    assert_eq!(rows(7, 5, 5).get_indices_sorted(), (0, 1, 2));
    assert_eq!(rows(7, 7, 5).get_indices_sorted(), (0, 1, 2));
    assert_eq!(rows(7, 5, 7).get_indices_sorted(), (0, 2, 1));
    assert_eq!(rows(5, 7, 7).get_indices_sorted(), (1, 2, 0));
}

#[test]
fn sides_of_a_triangle_with_its_bend_on_the_right() {
    let tri = Triangle2D::from_points(&[(0, 0), (4, 2), (0, 4)]);
    let (l, r) = tri.get_sides();
    assert_eq!(l, vec![px(0, 0), px(0, 1), px(0, 2), px(0, 3), px(0, 4)]);
    assert_eq!(r, vec![px(0, 0), px(2, 1), px(4, 2), px(2, 3), px(0, 4)]);
}

#[test]
fn sides_of_a_triangle_with_its_bend_on_the_left() {
    let tri = Triangle2D::from_points(&[(0, 0), (-4, 2), (0, 4)]);
    let (l, r) = tri.get_sides();
    assert_eq!(l, vec![px(0, 0), px(-2, 1), px(-4, 2), px(-2, 3), px(0, 4)]);
    assert_eq!(r, vec![px(0, 0), px(0, 1), px(0, 2), px(0, 3), px(0, 4)]);
}

#[test]
fn sides_of_a_flat_topped_triangle_start_apart() {
    let tri = Triangle2D::from_points(&[(10, 20), (30, 20), (20, 40)]);
    let (l, r) = tri.get_sides();
    assert_eq!(l.len(), 21);
    assert_eq!(r.len(), 21);
    assert_eq!(l[0], px(10, 20));
    assert_eq!(r[0], px(30, 20));
    assert_eq!(l[10], px(15, 30));
    assert_eq!(r[10], px(25, 30));
}

#[test]
fn scanlines_of_a_single_row() {
    let tri = Triangle2D::from_points(&[(1, 5), (9, 5), (4, 5)]);
    let spans = grr::scanlines(&tri);
    assert_eq!(spans.len(), 1);
    assert_eq!(spans[0].l.y, 5);
    assert_eq!(spans[0].r.y, 5);
}

#[test]
fn scanlines_have_one_span_per_row_in_order() {
    let tri = Triangle2D::from_points(&[(7, 31), (-5, -12), (40, 3)]);
    let spans = grr::scanlines(&tri);
    assert_eq!(spans.len(), 44);
    for (i, span) in spans.iter().enumerate() {
        assert_eq!(span.l.y, -12 + i as i32);
        assert_eq!(span.r.y, -12 + i as i32);
        assert!(span.l.x <= span.r.x);
    }
    assert_eq!(spans[0].l, px(-5, -12));
    assert_eq!(spans[43].r, px(7, 31));
}

#[test]
fn scanlines_do_not_depend_on_the_order_of_distinct_rows() {
    let a = grr::scanlines(&Triangle2D::from_points(&[(10, 20), (27, 32), (14, 80)]));
    let b = grr::scanlines(&Triangle2D::from_points(&[(14, 80), (10, 20), (27, 32)]));
    let c = grr::scanlines(&Triangle2D::from_points(&[(27, 32), (14, 80), (10, 20)]));
    assert_eq!(a.len(), b.len());
    assert_eq!(a.len(), c.len());
    for i in 0..a.len() {
        assert_eq!((a[i].l, a[i].r), (b[i].l, b[i].r));
        assert_eq!((a[i].l, a[i].r), (c[i].l, c[i].r));
    }
}

#[test]
fn sides_of_a_thin_triangle_may_cross_off_the_middle_row() {
    // Both sides share the pixel of the middle row, so the sides are not
    // exchanged, and in row 1 the left end lies right of the right end.
    let tri = Triangle2D::from_points(&[(0, 0), (1, 1), (0, 10)]);
    let spans = grr::scanlines(&tri);
    assert_eq!(spans.len(), 11);
    assert_eq!((spans[5].l, spans[5].r), (px(0, 5), px(0, 5)));
    assert_eq!((spans[1].l, spans[1].r), (px(1, 1), px(0, 1)));
}

#[test]
fn fill_gives_the_spans_of_scanlines() {
    let tris = [
        [(20, 20), (10, 40), (30, 40)],
        [(10, 20), (30, 20), (20, 40)],
        [(10, 20), (27, 32), (14, 80)],
        [(0, 0), (0, 0), (0, 0)],
        [(5, 1), (-5, 1), (0, -8)],
    ];
    for points in tris.iter() {
        let tri = Triangle2D::from_points(points);
        let filled = grr::fill(&tri);
        let spans = grr::scanlines(&tri);
        assert_eq!(filled.len(), spans.len());
        for i in 0..spans.len() {
            assert_eq!((filled[i].l, filled[i].r), (spans[i].l, spans[i].r));
        }
    }
}

#[test]
fn line_wider_than_high() {
    let line = grr::line_between(px(0, 0), px(5, 2));
    assert_eq!(line, vec![px(0, 0), px(1, 0), px(2, 1), px(3, 1), px(4, 2), px(5, 2)]);
    // The same pixels from the other end: the line runs from left to right.
    let back = grr::line_between(px(5, 2), px(0, 0));
    assert_eq!(back, line);
}

#[test]
fn line_higher_than_wide() {
    let line = grr::line_between(px(0, 0), px(-2, 5));
    assert_eq!(line, vec![px(0, 0), px(0, 1), px(-1, 2), px(-1, 3), px(-2, 4), px(-2, 5)]);
    // The same pixels from the other end: the line runs by ascending row.
    let back = grr::line_between(px(-2, 5), px(0, 0));
    assert_eq!(back, line);
}

#[test]
fn line_falling_to_the_right() {
    let line = grr::line_between(px(0, 0), px(4, -2));
    assert_eq!(line, vec![px(0, 0), px(1, 0), px(2, -1), px(3, -1), px(4, -2)]);
}

#[test]
fn line_along_an_axis_or_a_diagonal() {
    assert_eq!(grr::line_between(px(2, 3), px(2, 3)), vec![px(2, 3)]);
    assert_eq!(grr::line_between(px(0, 1), px(3, 1)), vec![px(0, 1), px(1, 1), px(2, 1), px(3, 1)]);
    assert_eq!(grr::line_between(px(1, 3), px(1, 0)), vec![px(1, 0), px(1, 1), px(1, 2), px(1, 3)]);
    assert_eq!(grr::line_between(px(0, 0), px(3, 3)), vec![px(0, 0), px(1, 1), px(2, 2), px(3, 3)]);
    assert_eq!(grr::line_between(px(3, 0), px(0, 3)), vec![px(3, 0), px(2, 1), px(1, 2), px(0, 3)]);
}

#[test]
fn line_across_the_whole_width_of_the_grid_ends_in_its_end_points() {
    let line = grr::line_between(px(i32::MAX - 3, i32::MIN), px(i32::MAX, i32::MIN + 1));
    assert_eq!(
        line,
        vec![
            px(i32::MAX - 3, i32::MIN),
            px(i32::MAX - 2, i32::MIN),
            px(i32::MAX - 1, i32::MIN + 1),
            px(i32::MAX, i32::MIN + 1)
        ]
    );
}

#[test]
fn line_has_no_gaps() {
    let ends = [
        (px(0, 0), px(17, 5)),
        (px(3, -4), px(-9, 20)),
        (px(-7, 7), px(7, -7)),
        (px(100, 3), px(-100, 4)),
        (px(5, 5), px(5, -30)),
    ];
    for (a, b) in ends.iter() {
        let line = grr::line_between(*a, *b);
        let wide = (b.x - a.x).abs() > (b.y - a.y).abs();
        assert_eq!(line.len() as i32, (b.x - a.x).abs().max((b.y - a.y).abs()) + 1);
        assert!((line[0] == *a && line[line.len() - 1] == *b) || (line[0] == *b && line[line.len() - 1] == *a));
        for i in 1..line.len() {
            let (here, next) = (line[i - 1], line[i]);
            if wide {
                assert_eq!(next.x, here.x + 1);
                assert!((next.y - here.y).abs() <= 1);
            } else {
                assert_eq!(next.y, here.y + 1);
                assert!((next.x - here.x).abs() <= 1);
            }
        }
    }
}

#[test]
fn spans_are_ordered_where_the_middle_row_tells_the_sides_apart() {
    let tris = [
        [(20, 20), (10, 40), (30, 40)],
        [(0, 0), (50, 3), (-4, 91)],
        [(-30, 12), (-31, -40), (60, -39)],
        [(5, 5), (6, 20), (4, 35)],
    ];
    for points in tris.iter() {
        let spans = grr::scanlines(&Triangle2D::from_points(points));
        let mid = spans.len() / 2;
        assert!(spans[mid].l.x < spans[mid].r.x);
        let min_x = points.iter().map(|p| p.0).min().unwrap();
        let max_x = points.iter().map(|p| p.0).max().unwrap();
        for span in spans.iter() {
            assert!(span.l.x <= span.r.x);
            assert!(min_x <= span.l.x && span.r.x <= max_x);
        }
    }
}
