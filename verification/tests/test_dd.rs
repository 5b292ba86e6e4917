use vox::dd;
use vox::raster::Pixel;
use vox::surface::Image;

const INK: [u8; 3] = [9, 8, 7];

/// The columns and rows of the pixels that have the colour of the ink.
fn inked(img: Image, width: usize) -> Vec<(usize, usize)> {
    let bytes = img.into_bytes();
    let mut found = Vec::new();
    for (i, px) in bytes.chunks(3).enumerate() {
        if px == &INK[..] {
            found.push((i % width, i / width));
        } else {
            assert_eq!(px, &[0, 0, 0]);
        }
    }
    found
}

#[test]
fn new_image_is_black() {
    let img = Image::new(3, 2);
    assert_eq!(img.into_bytes(), vec![0u8; 18]);
    assert_eq!(Image::new(0, 7).into_bytes().len(), 0);
}

#[test]
fn put_sets_one_pixel() {
    let mut img = Image::new(3, 2);
    img.put(Pixel { x: 2, y: 1 }, &INK);
    img.put(Pixel { x: 0, y: 0 }, &[1, 2, 3]);
    assert_eq!(
        img.into_bytes(),
        vec![1, 2, 3, 0, 0, 0, 0, 0, 0, 0, 0, 0, 0, 0, 0, 9, 8, 7]
    );
}

#[test]
fn line_is_drawn_pixel_by_pixel() {
    let mut img = Image::new(6, 3);
    dd::render_line(&mut img, [0, 0], [5, 2], &INK);
    assert_eq!(inked(img, 6), vec![(0, 0), (1, 0), (2, 1), (3, 1), (4, 2), (5, 2)]);
}

#[test]
fn line_of_one_pixel() {
    let mut img = Image::new(2, 2);
    dd::render_line(&mut img, [1, 1], [1, 1], &INK);
    assert_eq!(inked(img, 2), vec![(1, 1)]);
}

#[test]
fn wireframe_draws_the_three_edges() {
    let mut img = Image::new(5, 5);
    dd::render_triangle_wireframe(&mut img, &[[0, 0], [4, 0], [0, 4]], &INK);
    assert_eq!(
        inked(img, 5),
        vec![
            (0, 0),
            (1, 0),
            (2, 0),
            (3, 0),
            (4, 0),
            (0, 1),
            (3, 1),
            (0, 2),
            (2, 2),
            (0, 3),
            (1, 3),
            (0, 4)
        ]
    );
}

#[test]
fn filled_triangle_covers_its_spans() {
    let mut img = Image::new(5, 5);
    dd::render_triangle_filled(&mut img, &[[0, 0], [4, 0], [0, 4]], &INK);
    assert_eq!(
        inked(img, 5),
        vec![
            (0, 0),
            (1, 0),
            (2, 0),
            (3, 0),
            (4, 0),
            (0, 1),
            (1, 1),
            (2, 1),
            (3, 1),
            (0, 2),
            (1, 2),
            (2, 2),
            (0, 3),
            (1, 3),
            (0, 4)
        ]
    );
}

#[test]
fn filled_triangle_in_one_pixel() {
    let mut img = Image::new(3, 3);
    dd::render_triangle_filled(&mut img, &[[1, 1], [1, 1], [1, 1]], &INK);
    assert_eq!(inked(img, 3), vec![(1, 1)]);
}
