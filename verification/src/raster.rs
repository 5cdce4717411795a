//! Grey-scale bitmaps: an image buffer, and what the verified code knows of it.

use image::GrayImage;
use image::Luma;
use vstd::prelude::*;

verus! {

/// An 8-bit grey-scale image. The samples live in an `image::GrayImage`; the
/// verified code sees them through `bitmap_width`, `bitmap_height` and
/// `bitmap_data` only.
#[verifier::external_body]
#[derive(Debug)]
pub struct GrayBitmap {
    inner: GrayImage,
}

/// The number of columns of the image.
pub uninterp spec fn bitmap_width(img: &GrayBitmap) -> u32;

/// The number of rows of the image.
pub uninterp spec fn bitmap_height(img: &GrayBitmap) -> u32;

/// The samples that the image holds, row after row from the top.
pub uninterp spec fn bitmap_data(img: &GrayBitmap) -> Seq<u8>;

/// The value of an ink pixel.
pub const INK: u8 = 0;

/// The value of a background pixel.
pub const BACKGROUND: u8 = 255;

/// The mathematical content of a bitmap: its size and its samples. The pixel
/// in column `x` of row `y` is the sample at `y * width + x`.
pub struct Bitmap {
    pub width: int,
    pub height: int,
    pub data: Seq<u8>,
}

impl Bitmap {
    /// The samples cover every pixel.
    pub open spec fn wf(self) -> bool {
        &&& 0 <= self.width
        &&& 0 <= self.height
        &&& self.width * self.height <= self.data.len()
    }

    /// The samples cover every pixel and nothing more.
    pub open spec fn exact(self) -> bool {
        &&& 0 <= self.width
        &&& 0 <= self.height
        &&& self.width * self.height == self.data.len()
    }

    /// `(x, y)` is a pixel of the image.
    pub open spec fn inside(self, x: int, y: int) -> bool {
        0 <= x < self.width && 0 <= y < self.height
    }

    /// The position of pixel `(x, y)` among the samples.
    pub open spec fn offset(self, x: int, y: int) -> int {
        y * self.width + x
    }

    /// The value of pixel `(x, y)`.
    pub open spec fn pixel(self, x: int, y: int) -> u8 {
        self.data[self.offset(x, y)]
    }

    /// `(x, y)` is a pixel of the image and holds ink.
    pub open spec fn is_ink(self, x: int, y: int) -> bool {
        self.inside(x, y) && self.pixel(x, y) == INK
    }

    /// The same size as `other`.
    pub open spec fn same_size(self, other: Bitmap) -> bool {
        self.width == other.width && self.height == other.height
    }

    /// The image with pixel `(x, y)` set to `value`.
    pub open spec fn with_pixel(self, x: int, y: int, value: u8) -> Bitmap {
        Bitmap { data: self.data.update(self.offset(x, y), value), ..self }
    }
}

impl View for GrayBitmap {
    type V = Bitmap;

    open spec fn view(&self) -> Bitmap {
        Bitmap {
            width: bitmap_width(self) as int,
            height: bitmap_height(self) as int,
            data: bitmap_data(self),
        }
    }
}

/// A pixel inside an image has its sample among the image's samples.
pub proof fn lemma_offset_in_range(b: Bitmap, x: int, y: int)
    requires
        b.wf(),
        b.inside(x, y),
    ensures
        0 <= b.offset(x, y) < b.width * b.height,
        b.offset(x, y) < b.data.len(),
{
    assert(y * b.width + x < (y + 1) * b.width) by (nonlinear_arith)
        requires
            0 <= x < b.width,
    ;
    assert((y + 1) * b.width <= b.height * b.width) by (nonlinear_arith)
        requires
            0 <= y < b.height,
            0 <= b.width,
    ;
    assert(0 <= y * b.width) by (nonlinear_arith)
        requires
            0 <= y,
            0 <= b.width,
    ;
    assert(b.height * b.width == b.width * b.height) by (nonlinear_arith);
}

/// Two pixels inside an image with the same sample position are the same pixel.
pub proof fn lemma_offset_injective(b: Bitmap, x1: int, y1: int, x2: int, y2: int)
    requires
        b.inside(x1, y1),
        b.inside(x2, y2),
        b.offset(x1, y1) == b.offset(x2, y2),
    ensures
        x1 == x2,
        y1 == y2,
{
    if y1 < y2 {
        assert(y1 * b.width + b.width <= y2 * b.width) by (nonlinear_arith)
            requires
                y1 + 1 <= y2,
                0 <= b.width,
        ;
    } else if y2 < y1 {
        assert(y2 * b.width + b.width <= y1 * b.width) by (nonlinear_arith)
            requires
                y2 + 1 <= y1,
                0 <= b.width,
        ;
    }
}

/// `ImageBuffer::dimensions`: the width and the height that the buffer was
/// made with. Every constructor of a buffer checks that its samples cover
/// `width * height` pixels, and no method shortens them.
#[verifier::external_body]
fn buffer_dimensions(img: &GrayBitmap) -> (r: (u32, u32))
    ensures
        r.0 == bitmap_width(img),
        r.1 == bitmap_height(img),
        r.0 * r.1 <= bitmap_data(img).len(),
{
    img.inner.dimensions()
}

/// `ImageBuffer::get_pixel`: the sample at `y * width + x`. The call panics
/// outside the image, which the precondition excludes.
#[verifier::external_body]
fn buffer_get(img: &GrayBitmap, x: u32, y: u32) -> (r: u8)
    requires
        x < bitmap_width(img),
        y < bitmap_height(img),
    ensures
        r == bitmap_data(img)[y * bitmap_width(img) + x],
{
    img.inner.get_pixel(x, y).0[0]
}

/// `ImageBuffer::put_pixel`: overwrites the sample at `y * width + x` and
/// leaves the size and every other sample as they were. The call panics
/// outside the image, which the precondition excludes.
#[verifier::external_body]
fn buffer_put(img: &mut GrayBitmap, x: u32, y: u32, value: u8)
    requires
        x < bitmap_width(old(img)),
        y < bitmap_height(old(img)),
    ensures
        bitmap_width(final(img)) == bitmap_width(old(img)),
        bitmap_height(final(img)) == bitmap_height(old(img)),
        bitmap_data(final(img)) == bitmap_data(old(img)).update(
            y * bitmap_width(old(img)) + x,
            value,
        ),
{
    img.inner.put_pixel(x, y, Luma([value]));
}

/// `ImageBuffer::from_vec`: a buffer of the given size over the given
/// samples, kept whole and in order; nothing when the samples are fewer than
/// `width * height`.
#[verifier::external_body]
fn buffer_from_vec(width: u32, height: u32, data: Vec<u8>) -> (r: Option<GrayBitmap>)
    ensures
        r is Some <==> width * height <= data@.len(),
        r matches Some(img) ==> bitmap_width(&img) == width && bitmap_height(&img) == height
            && bitmap_data(&img) == data@,
{
    match GrayImage::from_vec(width, height, data) {
        Some(inner) => Some(GrayBitmap { inner }),
        None => None,
    }
}

/// `ImageBuffer::as_raw`: the samples of the buffer, whole and in order.
#[verifier::external_body]
fn buffer_raw(img: &GrayBitmap) -> (r: &Vec<u8>)
    ensures
        r@ == bitmap_data(img),
{
    img.inner.as_raw()
}

/// `ImageBuffer::clone`: a buffer of the same size over a copy of the samples.
#[verifier::external_body]
fn buffer_clone(img: &GrayBitmap) -> (r: GrayBitmap)
    ensures
        bitmap_width(&r) == bitmap_width(img),
        bitmap_height(&r) == bitmap_height(img),
        bitmap_data(&r) == bitmap_data(img),
{
    GrayBitmap { inner: img.inner.clone() }
}

impl GrayBitmap {
    /// Builds an image of `width` by `height` pixels over `data`, which holds
    /// the pixels row after row. Fails when `data` is too short.
    pub fn from_vec(width: u32, height: u32, data: Vec<u8>) -> (r: Option<GrayBitmap>)
        ensures
            r is Some <==> width * height <= data@.len(),
            r matches Some(img) ==> img@ == (Bitmap {
                width: width as int,
                height: height as int,
                data: data@,
            }),
    {
        buffer_from_vec(width, height, data)
    }

    /// The width and the height.
    pub fn dimensions(&self) -> (r: (u32, u32))
        ensures
            r.0 == self@.width,
            r.1 == self@.height,
            self@.wf(),
    {
        buffer_dimensions(self)
    }

    /// The number of columns.
    pub fn width(&self) -> (r: u32)
        ensures
            r == self@.width,
            self@.wf(),
    {
        buffer_dimensions(self).0
    }

    /// The number of rows.
    pub fn height(&self) -> (r: u32)
        ensures
            r == self@.height,
            self@.wf(),
    {
        buffer_dimensions(self).1
    }

    /// The value of pixel `(x, y)`.
    pub fn get_pixel(&self, x: u32, y: u32) -> (r: u8)
        requires
            self@.inside(x as int, y as int),
        ensures
            r == self@.pixel(x as int, y as int),
    {
        buffer_get(self, x, y)
    }

    /// Sets pixel `(x, y)` to `value`.
    pub fn put_pixel(&mut self, x: u32, y: u32, value: u8)
        requires
            old(self)@.inside(x as int, y as int),
        ensures
            final(self)@ == old(self)@.with_pixel(x as int, y as int, value),
    {
        buffer_put(self, x, y, value);
    }

    /// The samples, row after row.
    pub fn as_raw(&self) -> (r: &Vec<u8>)
        ensures
            r@ == self@.data,
            self@.wf(),
    {
        let _ = buffer_dimensions(self);
        buffer_raw(self)
    }

    /// A copy of the image.
    pub fn duplicate(&self) -> (r: GrayBitmap)
        ensures
            r@ == self@,
    {
        buffer_clone(self)
    }
}

} // verus!
