use vox::grr;
use vox::raster::{Pixel, ScanlineH, Triangle2D};

/// returns true if the scanlines are monotonically increasing
fn validate_scanline_monotonicity(items: &[ScanlineH]) -> bool {
    let mut prev = items[0];
    for next in items {
        assert_eq!(next.l.y, next.r.y);
        assert!(prev.l.y <= next.l.y);
        assert!(prev.r.y <= next.r.y);
        prev = *next;
    }
    true
}

#[test]
fn test_raster_fill() {
    // [Scenario] an isosceles triangle (pointing upwards)
    {
        let tri = Triangle2D::from_points(&[(20, 20), (10, 40), (30, 40)]);
        let scanlines = grr::scanlines(&tri);

        assert_eq!(scanlines.len(), 21);

        // Validate the start and end of the collection since these are known values
        assert_eq!(scanlines[0].l, Pixel { x: 20, y: 20 });
        assert_eq!(scanlines[0].r, Pixel { x: 20, y: 20 });
        assert_eq!(scanlines[scanlines.len() - 1].l, Pixel { x: 10, y: 40 });
        assert_eq!(scanlines[scanlines.len() - 1].r, Pixel { x: 30, y: 40 });

        // Validate that the scanlines increase monotonically
        assert!(validate_scanline_monotonicity(&scanlines[..]));
    }

    // [Scenario] an isosceles triangle (pointing downwards)
    {
        let tri = Triangle2D::from_points(&[(10, 20), (30, 20), (20, 40)]);
        let scanlines = grr::scanlines(&tri);

        assert_eq!(scanlines.len(), 21);

        // Validate the start and end of the collection since these are known values
        assert_eq!(scanlines[0].l, Pixel { x: 10, y: 20 });
        assert_eq!(scanlines[0].r, Pixel { x: 30, y: 20 });
        assert_eq!(scanlines[scanlines.len() - 1].l, Pixel { x: 20, y: 40 });
        assert_eq!(scanlines[scanlines.len() - 1].r, Pixel { x: 20, y: 40 });

        // Validate that the scanlines increase monotonically
        assert!(validate_scanline_monotonicity(&scanlines[..]));
    }

    // [Scenario] a scalene triangle, off-axis
    {
        let tri = Triangle2D::from_points(&[(10, 20), (27, 32), (14, 80)]);
        let scanlines = grr::scanlines(&tri);

        assert_eq!(scanlines.len(), 61);

        // Validate the start and end of the collection since these are known values
        //
        // In this case, the scanlines should start and end at the same points
        assert_eq!(scanlines[0].l, scanlines[0].r);
        assert_eq!(scanlines[0].l, Pixel { x: 10, y: 20 });
        assert_eq!(scanlines[scanlines.len() - 1].l, scanlines[scanlines.len() - 1].r);
        assert_eq!(scanlines[scanlines.len() - 1].r, Pixel { x: 14, y: 80 });

        // Validate that the scanlines increase monotonically
        assert!(validate_scanline_monotonicity(&scanlines[..]));
    }
}

/// One value for every row between `y0` and `y1`, from the lower row number
/// to the higher, linear between `a0` and `a1`; for a single row `a0` alone.
fn sample_rows(y0: i32, a0: f32, y1: i32, a1: f32) -> Vec<f32> {
    if y0 == y1 {
        return vec![a0];
    }
    let (y0, a0, y1, a1) = if y1 < y0 { (y1, a1, y0, a0) } else { (y0, a0, y1, a1) };
    let m = (a1 - a0) / (y1 - y0) as f32;
    let b = a0 - (m * y0 as f32);
    (y0..=y1).map(|y| (m * y as f32) + b).collect()
}

fn scanlines_with_attributes(tri: &Triangle2D, raw_attr: &[f32; 3]) -> Vec<(ScanlineH, (f32, f32))> {
    let is = tri.get_indices_sorted();
    let p = [tri.points[is.2], tri.points[is.1], tri.points[is.0]];
    let a = [raw_attr[is.2], raw_attr[is.1], raw_attr[is.0]];
    grr::scanlines_with_attributes(
        tri,
        sample_rows(p[0].y, a[0], p[1].y, a[1]),
        sample_rows(p[1].y, a[1], p[2].y, a[2]),
        sample_rows(p[0].y, a[0], p[2].y, a[2]),
    )
}

#[test]
fn test_scanlines_with_attributes() {
    // [Scenario] an isosceles triangle (pointing upwards)
    {
        let tri = Triangle2D::from_points(&[(20, 20), (10, 40), (30, 40)]);
        let attr = [1.0, 1.0, 1.0];
        let scanlines = scanlines_with_attributes(&tri, &attr);

        assert_eq!(scanlines.len(), 21);

        // Validate the start and end of the collection since these are known values
        assert_eq!(scanlines[0].0.l, Pixel { x: 20, y: 20 });
        assert_eq!(scanlines[0].0.r, Pixel { x: 20, y: 20 });
        assert_eq!(scanlines[scanlines.len() - 1].0.l, Pixel { x: 10, y: 40 });
        assert_eq!(scanlines[scanlines.len() - 1].0.r, Pixel { x: 30, y: 40 });

        // Validate that the attributes were correctly calculated
        assert_eq!(scanlines[0].1 .0, 1.0);
        assert_eq!(scanlines[0].1 .1, 1.0);
        assert_eq!(scanlines[scanlines.len() - 1].1 .0, 1.0);
        assert_eq!(scanlines[scanlines.len() - 1].1 .1, 1.0);

        // Validate that the scanlines increase monotonically
        let scanlines: Vec<ScanlineH> = scanlines.into_iter().map(|(s, _)| s).collect();
        assert!(validate_scanline_monotonicity(&scanlines[..]));
    }

    // [Scenario] an isosceles triangle (pointing downwards)
    {
        let tri = Triangle2D::from_points(&[(10, 20), (30, 20), (20, 40)]);
        let scanlines = grr::scanlines(&tri);

        assert_eq!(scanlines.len(), 21);

        // Validate the start and end of the collection since these are known values
        assert_eq!(scanlines[0].l, Pixel { x: 10, y: 20 });
        assert_eq!(scanlines[0].r, Pixel { x: 30, y: 20 });
        assert_eq!(scanlines[scanlines.len() - 1].l, Pixel { x: 20, y: 40 });
        assert_eq!(scanlines[scanlines.len() - 1].r, Pixel { x: 20, y: 40 });

        // Validate that the scanlines increase monotonically
        assert!(validate_scanline_monotonicity(&scanlines[..]));
    }

    // [Scenario] a scalene triangle, off-axis
    {
        let tri = Triangle2D::from_points(&[(10, 20), (27, 32), (14, 80)]);
        let scanlines = grr::scanlines(&tri);

        assert_eq!(scanlines.len(), 61);

        // Validate the start and end of the collection since these are known values
        //
        // In this case, the scanlines should start and end at the same points
        assert_eq!(scanlines[0].l, scanlines[0].r);
        assert_eq!(scanlines[0].l, Pixel { x: 10, y: 20 });
        assert_eq!(scanlines[scanlines.len() - 1].l, scanlines[scanlines.len() - 1].r);
        assert_eq!(scanlines[scanlines.len() - 1].r, Pixel { x: 14, y: 80 });

        // Validate that the scanlines increase monotonically
        assert!(validate_scanline_monotonicity(&scanlines[..]));
    }
}

#[test]
fn values_stay_with_their_side() {
    // The bend lies on the right: the compound side is the right one.
    let tri = Triangle2D::from_points(&[(0, 0), (4, 2), (0, 4)]);
    let spans = grr::scanlines_with_attributes(
        &tri,
        vec![10, 11, 12],
        vec![12, 13, 14],
        vec![20, 21, 22, 23, 24],
    );
    let values: Vec<(i32, i32)> = spans.iter().map(|s| s.1).collect();
    assert_eq!(values, vec![(20, 10), (21, 11), (22, 12), (23, 13), (24, 14)]);
    assert_eq!(spans[2].0.l, Pixel { x: 0, y: 2 });
    assert_eq!(spans[2].0.r, Pixel { x: 4, y: 2 });

    // The bend lies on the left: the compound side is the left one.
    let tri = Triangle2D::from_points(&[(0, 0), (-4, 2), (0, 4)]);
    let spans = grr::scanlines_with_attributes(
        &tri,
        vec![10, 11, 12],
        vec![12, 13, 14],
        vec![20, 21, 22, 23, 24],
    );
    let values: Vec<(i32, i32)> = spans.iter().map(|s| s.1).collect();
    assert_eq!(values, vec![(10, 20), (11, 21), (12, 22), (13, 23), (14, 24)]);
}

#[test]
fn spans_with_values_end_with_the_shortest_run() {
    let tri = Triangle2D::from_points(&[(0, 0), (4, 2), (0, 4)]);
    let spans = grr::scanlines_with_attributes(&tri, vec![1u8, 2, 3], vec![3, 4, 5], vec![7, 8]);
    assert_eq!(spans.len(), 2);
    let spans = grr::scanlines_with_attributes(&tri, vec![], vec![3u8], vec![7, 8, 9]);
    assert_eq!(spans.len(), 1);
    assert_eq!(spans[0].1, (7, 3));
    let none: Vec<u8> = Vec::new();
    let spans = grr::scanlines_with_attributes(&tri, none.clone(), none.clone(), none);
    assert_eq!(spans.len(), 0);
}

#[test]
fn sides_with_values_change_places_together() {
    let right = Triangle2D::from_points(&[(0, 0), (4, 2), (0, 4)]);
    let ((l, r), (la, ra)) = right.get_sides_with_attr(vec!['a'], vec!['b']);
    assert_eq!((l[2].x, r[2].x), (0, 4));
    assert_eq!((la, ra), (vec!['b'], vec!['a']));
    let left = Triangle2D::from_points(&[(0, 0), (-4, 2), (0, 4)]);
    let ((l, r), (la, ra)) = left.get_sides_with_attr(vec!['a'], vec!['b']);
    assert_eq!((l[2].x, r[2].x), (-4, 0));
    assert_eq!((la, ra), (vec!['a'], vec!['b']));
}
