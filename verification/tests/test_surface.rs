use vox::raster::Pixel;
use vox::surface::{pack, Surface};

fn px(x: i32, y: i32) -> Pixel {
    Pixel { x, y }
}

#[test]
fn new_surface_is_black_and_empty() {
    let s = Surface::new(4, 3, false);
    assert_eq!(s.shape, (4, 3));
    for x in 0..4 {
        for y in 0..3 {
            assert_eq!(*s.get_pixel(x, y), [0, 0, 0]);
            assert_eq!(s.get_z(x, y), 0);
        }
    }
}

#[test]
fn supersampled_surface_is_three_times_as_large() {
    let s = Surface::new(4, 3, true);
    assert_eq!(s.shape, (12, 9));
    assert_eq!(*s.get_pixel(11, 8), [0, 0, 0]);
}

#[test]
fn pixels_and_depths_are_kept_apart() {
    let mut s = Surface::new(4, 3, false);
    s.set_pixel(3, 0, &[1, 2, 3]);
    s.set_pixel(0, 1, &[4, 5, 6]);
    s.set_z(3, 0, 7);
    s.set_z(0, 1, -7);
    assert_eq!(*s.get_pixel(3, 0), [1, 2, 3]);
    assert_eq!(*s.get_pixel(0, 1), [4, 5, 6]);
    assert_eq!(s.get_z(3, 0), 7);
    assert_eq!(s.get_z(0, 1), -7);
    s.set_pixel(3, 2, &[9, 9, 9]);
    assert_eq!(*s.get_pixel(3, 2), [9, 9, 9]);
    assert_eq!(*s.get_pixel(3, 1), [0, 0, 0]);
    assert_eq!(*s.get_pixel(2, 2), [0, 0, 0]);
}

#[test]
fn clear_wipes_both_buffers() {
    let mut s = Surface::new(2, 2, false);
    s.set_pixel(1, 1, &[1, 2, 3]);
    s.set_z(1, 1, 5);
    s.set_pixel(0, 0, &[1, 2, 3]);
    s.clear();
    assert_eq!(s.shape, (2, 2));
    for x in 0..2 {
        for y in 0..2 {
            assert_eq!(*s.get_pixel(x, y), [0, 0, 0]);
            assert_eq!(s.get_z(x, y), 0);
        }
    }
}

#[test]
fn the_nearer_pixel_wins() {
    let mut s = Surface::new(4, 3, false);
    assert!(s.draw_if_closer(px(1, 2), 5, &[10, 0, 0]));
    assert_eq!(*s.get_pixel(1, 2), [10, 0, 0]);
    assert_eq!(s.get_z(1, 2), 5);

    // Farther away, or just as far: nothing changes.
    assert!(!s.draw_if_closer(px(1, 2), 4, &[20, 0, 0]));
    assert!(!s.draw_if_closer(px(1, 2), 5, &[20, 0, 0]));
    assert_eq!(*s.get_pixel(1, 2), [10, 0, 0]);
    assert_eq!(s.get_z(1, 2), 5);

    // Nearer: drawn over.
    assert!(s.draw_if_closer(px(1, 2), 6, &[30, 0, 0]));
    assert_eq!(*s.get_pixel(1, 2), [30, 0, 0]);
    assert_eq!(s.get_z(1, 2), 6);

    // Nothing is nearer than what is not drawn at depth zero or below.
    assert!(!s.draw_if_closer(px(0, 0), 0, &[1, 1, 1]));
    assert!(!s.draw_if_closer(px(0, 0), -3, &[1, 1, 1]));
    assert_eq!(*s.get_pixel(0, 0), [0, 0, 0]);
}

#[test]
fn pixels_off_the_surface_are_dropped() {
    let mut s = Surface::new(4, 3, false);
    assert!(!s.draw_if_closer(px(4, 0), 5, &[1, 1, 1]));
    assert!(!s.draw_if_closer(px(0, 3), 5, &[1, 1, 1]));
    assert!(!s.draw_if_closer(px(-1, 0), 5, &[1, 1, 1]));
    assert!(!s.draw_if_closer(px(0, -1), 5, &[1, 1, 1]));
    assert!(!s.draw_if_closer(px(i32::MAX, i32::MIN), 5, &[1, 1, 1]));
    for x in 0..4 {
        for y in 0..3 {
            assert_eq!(*s.get_pixel(x, y), [0, 0, 0]);
            assert_eq!(s.get_z(x, y), 0);
        }
    }
    assert!(s.draw_if_closer(px(3, 2), 5, &[1, 1, 1]));
}

#[test]
fn image_holds_the_pixels_row_by_row() {
    let mut s = Surface::new(3, 2, false);
    s.set_pixel(0, 0, &[1, 2, 3]);
    s.set_pixel(2, 0, &[4, 5, 6]);
    s.set_pixel(1, 1, &[7, 8, 9]);
    let bytes = s.to_img().into_bytes();
    assert_eq!(
        bytes,
        vec![1, 2, 3, 0, 0, 0, 4, 5, 6, 0, 0, 0, 7, 8, 9, 0, 0, 0]
    );
    let bytes = s.to_img_full().into_bytes();
    assert_eq!(bytes.len(), 18);
    assert_eq!(&bytes[12..15], &[7, 8, 9]);
}

#[test]
fn image_of_a_supersampled_surface_has_the_size_asked_for() {
    let mut s = Surface::new(4, 2, true);
    for x in 0..12 {
        for y in 0..6 {
            s.set_pixel(x, y, &[200, 100, 50]);
        }
    }
    assert_eq!(s.to_img_full().into_bytes().len(), 3 * 12 * 6);
    let bytes = s.to_img().into_bytes();
    assert_eq!(bytes.len(), 3 * 4 * 2);
    // A surface of one colour stays of that colour.
    for px in bytes.chunks(3) {
        assert_eq!(px, &[200, 100, 50]);
    }
}

#[test]
fn image_of_an_empty_surface_is_empty() {
    assert_eq!(Surface::new(0, 5, false).to_img().into_bytes().len(), 0);
    assert_eq!(Surface::new(5, 0, false).to_img().into_bytes().len(), 0);
    assert_eq!(Surface::new(0, 0, true).to_img().into_bytes().len(), 0);
    assert_eq!(Surface::new(0, 2, true).to_img().into_bytes().len(), 0);
}

#[test]
fn pack_puts_red_lowest() {
    assert_eq!(pack(0x12, 0x34, 0x56), 0x0056_3412);
    assert_eq!(pack(0xff, 0, 0), 0x0000_00ff);
    assert_eq!(pack(0, 0xff, 0), 0x0000_ff00);
    assert_eq!(pack(0, 0, 0xff), 0x00ff_0000);
}

#[test]
fn fill_buffer_packs_the_pixels_in_order() {
    let mut s = Surface::new(2, 2, false);
    s.set_pixel(0, 0, &[1, 2, 3]);
    s.set_pixel(1, 0, &[4, 5, 6]);
    s.set_pixel(0, 1, &[7, 8, 9]);
    s.set_pixel(1, 1, &[10, 11, 12]);
    let mut buf = vec![0xdead_beefu32; 6];
    s.fill_buffer(&mut buf);
    assert_eq!(
        buf,
        vec![0x0003_0201, 0x0006_0504, 0x0009_0807, 0x000c_0b0a, 0xdead_beef, 0xdead_beef]
    );
}

#[test]
fn fill_buffer_of_a_supersampled_surface_fills_the_image_size() {
    let mut s = Surface::new(2, 1, true);
    for x in 0..6 {
        for y in 0..3 {
            s.set_pixel(x, y, &[9, 9, 9]);
        }
    }
    let mut buf = vec![0xdead_beefu32; 3];
    s.fill_buffer(&mut buf);
    assert_eq!(buf, vec![0x0009_0909, 0x0009_0909, 0xdead_beef]);
}

#[test]
fn pack_into_packs_an_image() {
    let mut s = Surface::new(1, 2, false);
    s.set_pixel(0, 1, &[0xaa, 0xbb, 0xcc]);
    let mut buf = vec![7u32; 2];
    s.to_img().pack_into(&mut buf);
    assert_eq!(buf, vec![0, 0x00cc_bbaa]);
}

#[test]
fn what_is_drawn_on_a_wiped_surface_has_a_depth_above_zero() {
    let mut s = Surface::new(3, 3, false);
    let shots = [
        (px(0, 0), 5, [1u8, 1, 1]),
        (px(1, 1), -2, [2, 2, 2]),
        (px(0, 0), 3, [3, 3, 3]),
        (px(2, 2), 1, [4, 4, 4]),
        (px(0, 0), 9, [5, 5, 5]),
        (px(7, 0), 9, [6, 6, 6]),
    ];
    for (at, z, col) in shots.iter() {
        s.draw_if_closer(*at, *z, col);
    }
    for x in 0..3 {
        for y in 0..3 {
            let drawn = *s.get_pixel(x, y) != [0, 0, 0];
            assert_eq!(drawn, s.get_z(x, y) > 0);
        }
    }
    assert_eq!(*s.get_pixel(0, 0), [5, 5, 5]);
    assert_eq!(s.get_z(0, 0), 9);
    assert_eq!(*s.get_pixel(1, 1), [0, 0, 0]);
}

#[test]
fn surface_knows_whether_it_is_supersampled() {
    assert!(Surface::new(1, 1, true).is_supersampled());
    assert!(!Surface::new(1, 1, false).is_supersampled());
}
