//! The page raster: an RGB image of the `image` crate, seen through a small
//! set of operations whose contracts are stated over its dimensions and over a
//! map from pixel positions to colours.
//!
//! The operations marked `external_body` are the only code of this library
//! that touches the `image` crate. Their contracts are taken from that crate's
//! source and are not proved here; everything else is proved from them.

use vstd::prelude::*;

verus! {

/// A colour as its red, green and blue samples.
pub type Color = (u8, u8, u8);

/// An RGB raster with eight bits per sample, stored by the `image` crate as
/// an `ImageBuffer<Rgb<u8>, Vec<u8>>`.
///
/// Verified code never looks inside: it knows a raster only by
/// [`raster_width`], [`raster_height`] and [`raster_pixels`].
#[verifier::external_body]
pub struct Raster {
    inner: image::RgbImage,
}

/// Number of columns of a raster.
pub uninterp spec fn raster_width(img: Raster) -> nat;

/// Number of rows of a raster.
pub uninterp spec fn raster_height(img: Raster) -> nat;

/// The colour of each pixel of a raster, keyed by column and row.
pub uninterp spec fn raster_pixels(img: Raster) -> Map<(int, int), Color>;

/// The bytes that the JPEG encoder of the `image` crate writes for an RGB
/// raster of the given dimensions and pixels at the given quality.
pub uninterp spec fn jpeg_encoding(
    width: nat,
    height: nat,
    pixels: Map<(int, int), Color>,
    quality: u8,
) -> Seq<u8>;

/// `image::ImageError`, what the encoders of the `image` crate fail with.
#[verifier::external_type_specification]
#[verifier::external_body]
pub struct ExImageError(image::ImageError);

/// The colour of the pixel in column `x` and row `y`.
pub open spec fn color_at(img: Raster, x: int, y: int) -> Color {
    raster_pixels(img)[(x, y)]
}

/// Whether a raster of `width` by `height` pixels can be stored: its three
/// bytes per pixel must fit a vector.
pub open spec fn storable(width: int, height: int) -> bool {
    3 * width * height <= isize::MAX
}

/// The most pixels per side that a JPEG file can record.
pub const JPEG_MAX_SIDE: u32 = 65535;

/// Whether a raster of `width` by `height` pixels can be written as a JPEG
/// file: each side holds at least one pixel and at most [`JPEG_MAX_SIDE`].
pub open spec fn encodable(width: int, height: int) -> bool {
    1 <= width <= JPEG_MAX_SIDE && 1 <= height <= JPEG_MAX_SIDE
}

/// Calls `ImageBuffer::new`, which allocates a raster whose samples are all
/// zero. It panics when the byte length overflows, which `requires` excludes.
#[verifier::external_body]
pub(crate) fn blank(width: u32, height: u32) -> (img: Raster)
    requires
        storable(width as int, height as int),
    ensures
        raster_width(img) == width,
        raster_height(img) == height,
        forall|x: int, y: int|
            0 <= x < width && 0 <= y < height ==> #[trigger] color_at(img, x, y) == (
                0u8,
                0u8,
                0u8,
            ),
{
    Raster { inner: image::RgbImage::new(width, height) }
}

/// Calls `ImageBuffer::dimensions`. The last clause holds of every raster:
/// the field is private and only [`blank`] fills it, whose `requires` is that
/// bound. (`ImageBuffer` itself keeps three bytes per pixel within the length
/// of its vector, which never exceeds `isize::MAX`.)
#[verifier::external_body]
pub(crate) fn dimensions(img: &Raster) -> (d: (u32, u32))
    ensures
        d.0 == raster_width(*img),
        d.1 == raster_height(*img),
        storable(d.0 as int, d.1 as int),
{
    img.inner.dimensions()
}

/// Calls `ImageBuffer::get_pixel`, which panics outside the raster: `requires`
/// excludes that.
#[verifier::external_body]
pub(crate) fn pixel(img: &Raster, x: u32, y: u32) -> (c: Color)
    requires
        x < raster_width(*img),
        y < raster_height(*img),
    ensures
        c == color_at(*img, x as int, y as int),
{
    let p = img.inner.get_pixel(x, y);
    (p.0[0], p.0[1], p.0[2])
}

/// Calls `ImageBuffer::put_pixel`, which panics outside the raster: `requires`
/// excludes that. It overwrites one pixel and leaves the rest as it was.
#[verifier::external_body]
pub(crate) fn set_pixel(img: &mut Raster, x: u32, y: u32, c: Color)
    requires
        x < raster_width(*old(img)),
        y < raster_height(*old(img)),
    ensures
        raster_width(*final(img)) == raster_width(*old(img)),
        raster_height(*final(img)) == raster_height(*old(img)),
        raster_pixels(*final(img)) == raster_pixels(*old(img)).insert((x as int, y as int), c),
{
    img.inner.put_pixel(x, y, image::Rgb([c.0, c.1, c.2]));
}

/// Calls `ImageBuffer::write_with_encoder` with a `JpegEncoder` made by
/// `JpegEncoder::new_with_quality`, writing into a fresh vector. What the
/// encoder writes depends on the dimensions, the pixels and the quality
/// alone. It refuses a raster exactly when a side is outside the range that
/// a JPEG file can record, before it writes anything; its other failures are
/// those of the writer, and writing into a vector does not fail.
#[verifier::external_body]
pub(crate) fn encode_jpeg(img: &Raster, quality: u8) -> (outcome: Result<
    Vec<u8>,
    image::ImageError,
>)
    ensures
        outcome.is_ok() == encodable(raster_width(*img) as int, raster_height(*img) as int),
        outcome matches Ok(bytes) ==> bytes@ == jpeg_encoding(
            raster_width(*img),
            raster_height(*img),
            raster_pixels(*img),
            quality,
        ),
{
    let mut bytes: Vec<u8> = Vec::new();
    let encoder = image::codecs::jpeg::JpegEncoder::new_with_quality(
        std::io::Cursor::new(&mut bytes),
        quality,
    );
    img.inner.write_with_encoder(encoder)?;
    Ok(bytes)
}

proof fn lemma_bytes_fit(width: u32, height: u32)
    ensures
        0 <= 3 * width * height <= 3 * 0xffff_ffff * 0xffff_ffff,
{
    assert(0 <= width * height <= 0xffff_ffff * 0xffff_ffff) by (nonlinear_arith)
        requires
            0 <= width <= 0xffff_ffff,
            0 <= height <= 0xffff_ffff,
    ;
    assert(3 * width * height == 3 * (width * height)) by (nonlinear_arith);
}

impl Raster {
    /// Makes a black raster of `width` by `height` pixels, or nothing when
    /// such a raster cannot be stored.
    pub fn new(width: u32, height: u32) -> (made: Option<Raster>)
        ensures
            made is Some <==> storable(width as int, height as int),
            made matches Some(img) ==> {
                &&& raster_width(img) == width
                &&& raster_height(img) == height
                &&& forall|x: int, y: int|
                    0 <= x < width && 0 <= y < height ==> #[trigger] color_at(img, x, y) == (
                        0u8,
                        0u8,
                        0u8,
                    )
            },
    {
        proof {
            lemma_bytes_fit(width, height);
        }
        let bytes: u128 = 3 * (width as u128) * (height as u128);
        if bytes <= isize::MAX as u128 {
            Some(blank(width, height))
        } else {
            None
        }
    }

    /// The number of columns.
    pub fn width(&self) -> (w: u32)
        ensures
            w == raster_width(*self),
    {
        dimensions(self).0
    }

    /// The number of rows.
    pub fn height(&self) -> (h: u32)
        ensures
            h == raster_height(*self),
    {
        dimensions(self).1
    }

    /// The colour of the pixel in column `x` and row `y`, or nothing when the
    /// raster has no such pixel.
    pub fn get(&self, x: u32, y: u32) -> (c: Option<Color>)
        ensures
            c == if x < raster_width(*self) && y < raster_height(*self) {
                Some(color_at(*self, x as int, y as int))
            } else {
                None
            },
    {
        let (w, h) = dimensions(self);
        if x < w && y < h {
            Some(pixel(self, x, y))
        } else {
            None
        }
    }

    /// Paints the pixel in column `x` and row `y`, and says whether the
    /// raster has such a pixel. Without one, nothing changes.
    pub fn put(&mut self, x: u32, y: u32, c: Color) -> (painted: bool)
        ensures
            painted == (x < raster_width(*old(self)) && y < raster_height(*old(self))),
            raster_width(*final(self)) == raster_width(*old(self)),
            raster_height(*final(self)) == raster_height(*old(self)),
            raster_pixels(*final(self)) == if painted {
                raster_pixels(*old(self)).insert((x as int, y as int), c)
            } else {
                raster_pixels(*old(self))
            },
    {
        let (w, h) = dimensions(self);
        if x < w && y < h {
            set_pixel(self, x, y, c);
            true
        } else {
            false
        }
    }
}

} // verus!
