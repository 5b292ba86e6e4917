//! The drawing surface: a colour buffer and a depth buffer of one size, and
//! the image that is made from them.
//!
//! Both buffers hold the surface row by row: the pixel in column `x` of row
//! `y` has the index `x + width * y`. A depth is kept on an integer scale on
//! which a larger number is nearer to the eye, and zero says that nothing has
//! been drawn.

use vstd::prelude::*;
use crate::raster::Pixel;

verus! {

/// An RGB image of 8 bits per channel, as the `image` crate holds it.
#[verifier::external_body]
pub struct Image {
    inner: image::RgbImage,
}

/// The pixels of an image, row by row from the top, each row from the left.
pub uninterp spec fn image_pixels(img: Image) -> Seq<[u8; 3]>;

/// The number of pixels in each row of an image.
pub uninterp spec fn image_width(img: Image) -> nat;

/// `image::ImageBuffer::new`: an image of the given size, all of whose
/// channels are zero. The size in bytes has to fit a vector.
#[verifier::external_body]
fn blank_image(width: u32, height: u32) -> (img: Image)
    requires
        3 * width * height <= isize::MAX,
    ensures
        image_width(img) == width,
        image_pixels(img) == Seq::new((width * height) as nat, |i: int| [0u8, 0u8, 0u8]),
{
    Image { inner: image::ImageBuffer::new(width, height) }
}

/// `image::ImageBuffer::put_pixel`: sets the pixel in column `x` of row `y`
/// and no other. The place has to lie inside the image.
#[verifier::external_body]
fn put_pixel(img: &mut Image, x: u32, y: u32, col: [u8; 3])
    requires
        x < image_width(*old(img)),
        x + image_width(*old(img)) * y < image_pixels(*old(img)).len(),
    ensures
        image_width(*final(img)) == image_width(*old(img)),
        image_pixels(*final(img)) == image_pixels(*old(img)).update(
            x + image_width(*old(img)) * y,
            col,
        ),
{
    img.inner.put_pixel(x, y, image::Rgb(col));
}

/// `image::imageops::resize` with the Lanczos filter of window 3, from an
/// image three times as wide and three times as high as the one asked for:
/// an image of exactly the size asked for. Nothing is said of its pixels.
/// On the way an image of the old width and the new height is made, with
/// sixteen bytes to the pixel, which has to fit a vector.
#[verifier::external_body]
fn resize_lanczos3(img: &Image, width: u32, height: u32) -> (r: Image)
    requires
        image_width(*img) == 3 * width,
        image_pixels(*img).len() == (3 * width) * (3 * height),
        48 * width * height <= isize::MAX,
    ensures
        image_width(r) == width,
        image_pixels(r).len() == width * height,
{
    Image {
        inner: image::imageops::resize(
            &img.inner,
            width,
            height,
            image::imageops::FilterType::Lanczos3,
        ),
    }
}

/// `image::ImageBuffer::into_raw`: the channels of all pixels in order, three
/// for each pixel.
#[verifier::external_body]
fn into_raw(img: Image) -> (raw: Vec<u8>)
    ensures
        raw@.len() == 3 * image_pixels(img).len(),
        forall|i: int, k: int|
            0 <= i < image_pixels(img).len() && 0 <= k < 3 ==> raw@[3 * i + k] == image_pixels(
                img,
            )[i][k],
{
    img.inner.into_raw()
}

/// The number of rows of an image.
pub open spec fn image_height(img: Image) -> nat {
    if image_width(img) == 0 {
        0
    } else {
        image_pixels(img).len() / image_width(img)
    }
}

/// Whether an image holds whole rows only.
pub open spec fn image_is_grid(img: Image) -> bool {
    image_pixels(img).len() == image_width(img) * image_height(img)
}

/// Whether a pixel lies inside an image.
pub open spec fn image_holds(img: Image, at: Pixel) -> bool {
    0 <= at.x < image_width(img) && 0 <= at.y < image_height(img)
}

/// The place of a pixel among the pixels of an image as wide as given.
pub open spec fn place(width: nat, at: Pixel) -> int {
    at.x + width * at.y
}

/// An image of `height` rows of `width` pixels holds whole rows only, and
/// `height` of them unless they are empty.
pub proof fn lemma_image_of_rows(img: Image, width: nat, height: nat)
    requires
        image_width(img) == width,
        image_pixels(img).len() == width * height,
    ensures
        image_is_grid(img),
        width > 0 ==> image_height(img) == height,
{
    if width > 0 {
        vstd::arithmetic::div_mod::lemma_div_multiples_vanish(height as int, width as int);
        assert(width * height == width as int * height as int);
    } else {
        assert(width * height == 0) by (nonlinear_arith)
            requires
                width == 0,
        ;
    }
}

/// Every pixel inside an image has its own place among the pixels.
pub proof fn lemma_place(img: Image, at: Pixel)
    requires
        image_is_grid(img),
        image_holds(img, at),
    ensures
        0 <= place(image_width(img), at) < image_pixels(img).len(),
{
    let w = image_width(img) as int;
    let h = image_height(img) as int;
    let y = at.y as int;
    assert(0 <= w * y && w * y + w <= w * h) by (nonlinear_arith)
        requires
            0 <= y < h,
            0 <= w,
    ;
}

/// A pixel as one number: red in the lowest eight bits, green in the next
/// eight, blue above them.
pub open spec fn packed(px: [u8; 3]) -> u32 {
    (px[0] + 0x100 * px[1] + 0x1_0000 * px[2]) as u32
}

/// Packs three channels into one number.
pub fn pack(red: u8, green: u8, blue: u8) -> (r: u32)
    ensures
        r == red + 0x100 * green + 0x1_0000 * blue,
{
    let r = ((blue as u32) << 16) | ((green as u32) << 8) | (red as u32);
    assert(((blue as u32) << 16) | ((green as u32) << 8) | (red as u32) == red as u32 + 0x100
        * (green as u32) + 0x1_0000 * (blue as u32)) by (bit_vector);
    r
}

impl Image {
    /// A black image of the given size.
    pub fn new(width: u32, height: u32) -> (img: Image)
        requires
            3 * width * height <= isize::MAX,
        ensures
            image_width(img) == width,
            image_pixels(img) == Seq::new((width * height) as nat, |i: int| [0u8, 0u8, 0u8]),
            image_is_grid(img),
            width > 0 ==> image_height(img) == height,
    {
        let img = blank_image(width, height);
        proof {
            lemma_image_of_rows(img, width as nat, height as nat);
        }
        img
    }

    /// Sets the pixel in column `x` of row `y`, and no other.
    pub fn put(&mut self, at: Pixel, col: &[u8; 3])
        requires
            image_is_grid(*old(self)),
            image_holds(*old(self), at),
        ensures
            image_width(*final(self)) == image_width(*old(self)),
            image_pixels(*final(self)) == image_pixels(*old(self)).update(
                place(image_width(*old(self)), at),
                *col,
            ),
            image_is_grid(*final(self)),
            image_height(*final(self)) == image_height(*old(self)),
    {
        proof {
            lemma_place(*self, at);
        }
        put_pixel(self, at.x as u32, at.y as u32, *col);
    }

    /// The channels of all pixels, row by row: red, green and blue of the
    /// first pixel, then of the second, and so on.
    pub fn into_bytes(self) -> (raw: Vec<u8>)
        ensures
            raw@.len() == 3 * image_pixels(self).len(),
            forall|i: int, k: int|
                0 <= i < image_pixels(self).len() && 0 <= k < 3 ==> raw@[3 * i + k]
                    == image_pixels(self)[i][k],
    {
        into_raw(self)
    }

    /// Writes the pixels, each packed into one number, to the front of `buf`.
    pub fn pack_into(self, buf: &mut Vec<u32>)
        requires
            image_pixels(self).len() <= old(buf)@.len(),
        ensures
            final(buf)@.len() == old(buf)@.len(),
            forall|i: int|
                0 <= i < image_pixels(self).len() ==> final(buf)@[i] == packed(
                    #[trigger] image_pixels(self)[i],
                ),
            forall|i: int|
                image_pixels(self).len() <= i < old(buf)@.len() ==> final(buf)@[i] == old(buf)@[i],
    {
        let ghost pixels = image_pixels(self);
        let raw = into_raw(self);
        let count = raw.len() / 3;
        let mut i: usize = 0;
        while i < count
            invariant
                count == pixels.len(),
                raw@.len() == 3 * count,
                raw@.len() <= usize::MAX,
                forall|j: int, k: int|
                    0 <= j < count && 0 <= k < 3 ==> raw@[3 * j + k] == pixels[j][k],
                i <= count <= buf@.len(),
                buf@.len() == old(buf)@.len(),
                forall|j: int| 0 <= j < i ==> buf@[j] == packed(#[trigger] pixels[j]),
                forall|j: int| i <= j < buf@.len() ==> buf@[j] == old(buf)@[j],
            decreases count - i,
        {
            let value = pack(raw[3 * i], raw[3 * i + 1], raw[3 * i + 2]);
            buf[i] = value;
            i = i + 1;
        }
    }
}

/// A rendering surface.
pub struct Surface {
    /// The width and the height of the surface.
    pub shape: (usize, usize),
    z_buffer: Vec<i32>,
    p_buffer: Vec<[u8; 3]>,
    supersampling: bool,
}

impl Surface {
    /// The number of pixels in a row of the surface: the first part of its
    /// shape.
    pub closed spec fn width(&self) -> nat {
        self.shape.0 as nat
    }

    /// The number of rows of the surface: the second part of its shape.
    pub closed spec fn height(&self) -> nat {
        self.shape.1 as nat
    }

    /// The depth of every pixel, row by row.
    pub closed spec fn depths(&self) -> Seq<i32> {
        self.z_buffer@
    }

    /// The colour of every pixel, row by row.
    pub closed spec fn pixels(&self) -> Seq<[u8; 3]> {
        self.p_buffer@
    }

    /// Whether the surface holds three pixels, each way, for every pixel of
    /// the image that is made from it.
    pub closed spec fn supersampled(&self) -> bool {
        self.supersampling
    }

    /// Both buffers hold one entry for every pixel of the surface, and a
    /// supersampled surface is a whole number of image pixels wide and high.
    pub open spec fn wf(&self) -> bool {
        &&& self.depths().len() == self.width() * self.height()
        &&& self.pixels().len() == self.width() * self.height()
        &&& self.supersampled() ==> self.width() % 3 == 0 && self.height() % 3 == 0
    }

    /// Whether the surface is small enough to be made into an image: no side
    /// longer than `u32::MAX`, and six bytes to the pixel within the longest
    /// vector.
    pub open spec fn fits_image(&self) -> bool {
        &&& self.width() <= u32::MAX
        &&& self.height() <= u32::MAX
        &&& 6 * self.width() * self.height() <= isize::MAX
    }

    /// Whether column `x` of row `y` lies on the surface.
    pub open spec fn contains(&self, x: int, y: int) -> bool {
        0 <= x < self.width() && 0 <= y < self.height()
    }

    /// The place of column `x` of row `y` in the buffers.
    pub open spec fn index_of(&self, x: int, y: int) -> int {
        x + self.width() * y
    }

    /// Every pixel of the surface has its own place in the buffers.
    pub proof fn lemma_index_of(&self, x: int, y: int)
        requires
            self.contains(x, y),
        ensures
            0 <= self.index_of(x, y) < self.width() * self.height(),
            forall|u: int, v: int|
                self.contains(u, v) && self.index_of(u, v) == self.index_of(x, y) ==> u == x && v
                    == y,
    {
        let w = self.width() as int;
        let h = self.height() as int;
        assert(0 <= w * y && w * y + w <= w * h) by (nonlinear_arith)
            requires
                0 <= y < h,
                0 <= w,
        ;
        assert forall|u: int, v: int|
            self.contains(u, v) && self.index_of(u, v) == self.index_of(x, y) implies u == x && v
            == y by {
            if v < y {
                assert(w * v + w <= w * y) by (nonlinear_arith)
                    requires
                        v < y,
                        0 <= w,
                ;
            } else if v > y {
                assert(w * y + w <= w * v) by (nonlinear_arith)
                    requires
                        y < v,
                        0 <= w,
                ;
            }
        }
    }

    /// A surface on which nothing is drawn: every pixel black, every depth
    /// zero. With supersampling the surface is three times as wide and three
    /// times as high as asked for.
    pub fn new(width: usize, height: usize, supersampling: bool) -> (r: Self)
        requires
            !supersampling ==> width * height <= usize::MAX,
            supersampling ==> 3 * width <= usize::MAX && 3 * height <= usize::MAX && (3 * width)
                * (3 * height) <= usize::MAX,
        ensures
            r.wf(),
            r.supersampled() == supersampling,
            r.width() == (if supersampling {
                3 * width
            } else {
                width as int
            }),
            r.height() == (if supersampling {
                3 * height
            } else {
                height as int
            }),
            r.pixels() == Seq::new(r.pixels().len(), |i: int| [0u8, 0u8, 0u8]),
            r.depths() == Seq::new(r.depths().len(), |i: int| 0i32),
    {
        let width = if supersampling {
            width * 3
        } else {
            width
        };
        let height = if supersampling {
            height * 3
        } else {
            height
        };
        let r = Surface {
            shape: (width, height),
            z_buffer: vec![0i32; width * height],
            p_buffer: vec![[0u8, 0u8, 0u8]; width * height],
            supersampling,
        };
        assert forall|i: int| 0 <= i < r.p_buffer@.len() implies r.p_buffer@[i] == [
            0u8,
            0u8,
            0u8,
        ] by {
            assert(r.p_buffer@[i]@ =~= [0u8, 0u8, 0u8]@);
        }
        assert(r.pixels() =~= Seq::new(r.pixels().len(), |i: int| [0u8, 0u8, 0u8]));
        assert(r.depths() =~= Seq::new(r.depths().len(), |i: int| 0i32));
        r
    }

    /// Whether the surface holds three pixels, each way, for every pixel of
    /// the image that is made from it.
    pub fn is_supersampled(&self) -> (r: bool)
        ensures
            r == self.supersampled(),
    {
        self.supersampling
    }

    /// Wipes the surface: every pixel black, every depth zero.
    pub fn clear(&mut self)
        requires
            old(self).wf(),
        ensures
            final(self).wf(),
            final(self).width() == old(self).width(),
            final(self).height() == old(self).height(),
            final(self).supersampled() == old(self).supersampled(),
            final(self).pixels() == Seq::new(old(self).pixels().len(), |i: int| [0u8, 0u8, 0u8]),
            final(self).depths() == Seq::new(old(self).depths().len(), |i: int| 0i32),
    {
        let n = self.p_buffer.len();
        let mut i: usize = 0;
        while i < n
            invariant
                i <= n,
                self.p_buffer@.len() == n,
                self.z_buffer@.len() == n,
                self.shape == old(self).shape,
                self.supersampling == old(self).supersampling,
                forall|j: int| 0 <= j < i ==> self.p_buffer@[j] == [0u8, 0u8, 0u8],
                forall|j: int| 0 <= j < i ==> self.z_buffer@[j] == 0i32,
            decreases n - i,
        {
            self.p_buffer[i] = [0u8, 0u8, 0u8];
            self.z_buffer[i] = 0;
            i = i + 1;
        }
        assert(self.pixels() =~= Seq::new(old(self).pixels().len(), |i: int| [0u8, 0u8, 0u8]));
        assert(self.depths() =~= Seq::new(old(self).depths().len(), |i: int| 0i32));
    }

    /// The place of column `x` of row `y` in the buffers.
    fn get_index(&self, x: usize, y: usize) -> (i: usize)
        requires
            self.wf(),
            self.contains(x as int, y as int),
        ensures
            i == self.index_of(x as int, y as int),
            i < self.pixels().len(),
    {
        proof {
            self.lemma_index_of(x as int, y as int);
            vstd::std_specs::vec::axiom_spec_len(&self.p_buffer);
            assert(0 <= self.shape.0 * y) by (nonlinear_arith)
                requires
                    0 <= self.shape.0,
                    0 <= y,
            ;
        }
        x + (self.shape.0 * y)
    }

    /// The depth at column `x` of row `y`.
    pub fn get_z(&self, x: usize, y: usize) -> (z: i32)
        requires
            self.wf(),
            self.contains(x as int, y as int),
        ensures
            z == self.depths()[self.index_of(x as int, y as int)],
    {
        let i = self.get_index(x, y);
        self.z_buffer[i]
    }

    /// Sets the depth at column `x` of row `y`, and nothing else.
    pub fn set_z(&mut self, x: usize, y: usize, z: i32)
        requires
            old(self).wf(),
            old(self).contains(x as int, y as int),
        ensures
            final(self).wf(),
            final(self).width() == old(self).width(),
            final(self).height() == old(self).height(),
            final(self).supersampled() == old(self).supersampled(),
            final(self).pixels() == old(self).pixels(),
            final(self).depths() == old(self).depths().update(
                old(self).index_of(x as int, y as int),
                z,
            ),
    {
        let i = self.get_index(x, y);
        self.z_buffer[i] = z;
    }

    /// Sets the colour at column `x` of row `y`, and nothing else.
    pub fn set_pixel(&mut self, x: usize, y: usize, col: &[u8; 3])
        requires
            old(self).wf(),
            old(self).contains(x as int, y as int),
        ensures
            final(self).wf(),
            final(self).width() == old(self).width(),
            final(self).height() == old(self).height(),
            final(self).supersampled() == old(self).supersampled(),
            final(self).depths() == old(self).depths(),
            final(self).pixels() == old(self).pixels().update(
                old(self).index_of(x as int, y as int),
                *col,
            ),
    {
        let i = self.get_index(x, y);
        self.p_buffer[i] = *col;
    }

    /// The colour at column `x` of row `y`.
    pub fn get_pixel(&self, x: usize, y: usize) -> (col: &[u8; 3])
        requires
            self.wf(),
            self.contains(x as int, y as int),
        ensures
            *col == self.pixels()[self.index_of(x as int, y as int)],
    {
        let i = self.get_index(x, y);
        &self.p_buffer[i]
    }

    /// Draws one pixel of a shape if it is nearer to the eye than what the
    /// surface holds in its place: the nearer one wins. A pixel off the
    /// surface is dropped. Says whether the pixel was drawn.
    ///
    /// No depth ever falls, and a pixel changes its colour only where its
    /// depth rises: on a surface that was wiped, whatever has been drawn since
    /// has a depth above zero.
    pub fn draw_if_closer(&mut self, at: Pixel, z: i32, col: &[u8; 3]) -> (drawn: bool)
        requires
            old(self).wf(),
        ensures
            final(self).wf(),
            final(self).width() == old(self).width(),
            final(self).height() == old(self).height(),
            final(self).supersampled() == old(self).supersampled(),
            drawn <==> old(self).contains(at.x as int, at.y as int) && z > old(self).depths()[old(
                self,
            ).index_of(at.x as int, at.y as int)],
            drawn ==> final(self).pixels() == old(self).pixels().update(
                old(self).index_of(at.x as int, at.y as int),
                *col,
            ) && final(self).depths() == old(self).depths().update(
                old(self).index_of(at.x as int, at.y as int),
                z,
            ),
            !drawn ==> final(self).pixels() == old(self).pixels() && final(self).depths() == old(
                self,
            ).depths(),
            forall|i: int|
                0 <= i < old(self).depths().len() ==> old(self).depths()[i] <= (
                #[trigger] final(self).depths()[i]),
            forall|i: int|
                0 <= i < old(self).depths().len() && final(self).pixels()[i] != old(
                    self,
                ).pixels()[i] ==> old(self).depths()[i] < (#[trigger] final(self).depths()[i]),
    {
        proof {
            if old(self).contains(at.x as int, at.y as int) {
                old(self).lemma_index_of(at.x as int, at.y as int);
            }
        }
        if at.x < 0 || at.y < 0 {
            return false;
        }
        let x = at.x as usize;
        let y = at.y as usize;
        if x >= self.shape.0 {
            return false;
        }
        if y >= self.shape.1 {
            return false;
        }
        let z_current = self.get_z(x, y);
        if z > z_current {
            self.set_pixel(x, y, col);
            self.set_z(x, y, z);
            true
        } else {
            false
        }
    }

    /// The surface as an image of its own size, pixel for pixel.
    pub fn to_img_full(&self) -> (img: Image)
        requires
            self.wf(),
            self.fits_image(),
        ensures
            image_width(img) == self.width(),
            image_pixels(img) == self.pixels(),
    {
        let width = self.shape.0;
        let height = self.shape.1;
        proof {
            assert(0 <= 3 * width * height <= 6 * width * height) by (nonlinear_arith)
                requires
                    0 <= width,
                    0 <= height,
            ;
        }
        let mut img = blank_image(width as u32, height as u32);
        let mut x: usize = 0;
        while x < width
            invariant
                self.wf(),
                width == self.shape.0,
                height == self.shape.1,
                width <= u32::MAX,
                height <= u32::MAX,
                x <= width,
                image_width(img) == width,
                image_pixels(img).len() == width * height,
                forall|u: int, v: int|
                    0 <= u < x && 0 <= v < height ==> image_pixels(img)[#[trigger] self.index_of(
                        u,
                        v,
                    )] == self.pixels()[self.index_of(u, v)],
            decreases width - x,
        {
            let mut y: usize = 0;
            while y < height
                invariant
                    self.wf(),
                    width == self.shape.0,
                    height == self.shape.1,
                    width <= u32::MAX,
                    height <= u32::MAX,
                    x < width,
                    y <= height,
                    image_width(img) == width,
                    image_pixels(img).len() == width * height,
                    forall|u: int, v: int|
                        0 <= u < x && 0 <= v < height ==> image_pixels(img)[#[trigger] self.index_of(
                            u,
                            v,
                        )] == self.pixels()[self.index_of(u, v)],
                    forall|v: int|
                        0 <= v < y ==> image_pixels(img)[#[trigger] self.index_of(x as int, v)]
                            == self.pixels()[self.index_of(x as int, v)],
                decreases height - y,
            {
                proof {
                    self.lemma_index_of(x as int, y as int);
                }
                let col = *self.get_pixel(x, y);
                let ghost before = image_pixels(img);
                put_pixel(&mut img, x as u32, y as u32, col);
                proof {
                    assert forall|u: int, v: int| 0 <= u < x && 0 <= v < height implies image_pixels(
                        img,
                    )[#[trigger] self.index_of(u, v)] == self.pixels()[self.index_of(u, v)] by {
                        self.lemma_index_of(u, v);
                        assert(before[self.index_of(u, v)] == self.pixels()[self.index_of(u, v)]);
                    }
                    assert forall|v: int| 0 <= v < y + 1 implies image_pixels(img)[#[trigger] self.index_of(
                        x as int,
                        v,
                    )] == self.pixels()[self.index_of(x as int, v)] by {
                        self.lemma_index_of(x as int, v);
                        if v < y {
                            assert(before[self.index_of(x as int, v)] == self.pixels()[self.index_of(
                                x as int,
                                v,
                            )]);
                        }
                    }
                }
                y = y + 1;
            }
            x = x + 1;
        }
        proof {
            assert forall|i: int| 0 <= i < self.pixels().len() implies image_pixels(img)[i]
                == self.pixels()[i] by {
                let w = width as int;
                let v = i / w;
                let u = i % w;
                assert(w > 0) by (nonlinear_arith)
                    requires
                        0 <= i < w * height,
                        0 <= w,
                ;
                assert(i == w * v + u && 0 <= u < w) by (nonlinear_arith)
                    requires
                        w > 0,
                        v == i / w,
                        u == i % w,
                ;
                assert(0 <= v < height) by (nonlinear_arith)
                    requires
                        0 <= i < w * height,
                        i == w * v + u,
                        0 <= u < w,
                ;
                assert(self.index_of(u, v) == i);
            }
            assert(image_pixels(img) =~= self.pixels());
        }
        img
    }

    /// The surface as an image. A supersampled surface is filtered down to a
    /// third of its width and of its height; any other is copied pixel for
    /// pixel.
    pub fn to_img(&self) -> (img: Image)
        requires
            self.wf(),
            self.fits_image(),
        ensures
            !self.supersampled() ==> image_width(img) == self.width() && image_pixels(img)
                == self.pixels(),
            self.supersampled() ==> image_width(img) == self.width() / 3 && image_pixels(
                img,
            ).len() == (self.width() / 3) * (self.height() / 3),
    {
        let img = self.to_img_full();
        if self.supersampling {
            let width = self.shape.0 / 3;
            let height = self.shape.1 / 3;
            proof {
                assert(48 * width * height <= 6 * (3 * width) * (3 * height)) by (nonlinear_arith)
                    requires
                        0 <= width,
                        0 <= height,
                ;
            }
            resize_lanczos3(&img, width as u32, height as u32)
        } else {
            img
        }
    }

    /// Writes the image of the surface, each pixel packed into one number, to
    /// the front of `buf`.
    pub fn fill_buffer(&self, buf: &mut Vec<u32>)
        requires
            self.wf(),
            self.fits_image(),
            !self.supersampled() ==> self.width() * self.height() <= old(buf)@.len(),
            self.supersampled() ==> (self.width() / 3) * (self.height() / 3) <= old(buf)@.len(),
        ensures
            final(buf)@.len() == old(buf)@.len(),
            !self.supersampled() ==> forall|i: int|
                0 <= i < self.pixels().len() ==> final(buf)@[i] == packed(
                    #[trigger] self.pixels()[i],
                ),
            !self.supersampled() ==> forall|i: int|
                self.pixels().len() <= i < old(buf)@.len() ==> final(buf)@[i] == old(buf)@[i],
            self.supersampled() ==> forall|i: int|
                (self.width() / 3) * (self.height() / 3) <= i < old(buf)@.len() ==> final(buf)@[i]
                    == old(buf)@[i],
    {
        let result = self.to_img();
        result.pack_into(buf);
    }
}

} // verus!
