//! Cutting a polygonal region out of a page raster.
//!
//! The cut-out is the upright rectangle around the polygon, widened by a
//! margin and clipped to the page. Inside the polygon it shows the page;
//! outside it is painted in one flat grey.

use vstd::prelude::*;
use crate::geometry::{inside, law_outside_bounding_box_is_exterior, point_in_polygon, Point};
use crate::raster::{
    blank, color_at, dimensions, encodable, encode_jpeg, jpeg_encoding, pixel, raster_height,
    raster_pixels, raster_width, set_pixel, storable, Color, Raster, JPEG_MAX_SIDE,
};

verus! {

/// Pixels added on every side of the polygon's bounding box, unless the
/// caller asks for another margin.
pub const DEFAULT_MARGIN: u32 = 4;

/// The level of red, green and blue alike that paints what lies outside the
/// polygon.
pub const FILL_LEVEL: u8 = 48;

/// The JPEG quality at which a cut-out is encoded.
pub const JPEG_QUALITY: u8 = 90;

/// Why a region could not be cut out.
#[derive(Clone, Copy, Debug, PartialEq, Eq, Structural)]
pub enum ExtractError {
    /// The polygon has no vertex.
    EmptyRegion,
    /// The widened and clipped bounding box holds no pixel.
    DegenerateRegion,
    /// The cut-out cannot be written as a JPEG file.
    EncodingFailed,
}

/// The smallest upright rectangle that holds a set of vertices.
#[derive(Clone, Copy, Debug, PartialEq, Eq, Structural)]
pub struct BoundingBox {
    pub min_x: i32,
    pub min_y: i32,
    pub max_x: i32,
    pub max_y: i32,
}

/// The columns `x0..x1` and rows `y0..y1` of the page that a cut-out shows.
#[derive(Clone, Copy, Debug, PartialEq, Eq, Structural)]
pub struct CropBox {
    pub x0: u32,
    pub y0: u32,
    pub x1: u32,
    pub y1: u32,
}

/// A cut-out together with its encoded form.
pub struct Extraction {
    /// The masked cut-out.
    pub crop: Raster,
    /// The cut-out as a JPEG file.
    pub payload: Vec<u8>,
}

/// The colour that paints what lies outside the polygon.
pub open spec fn fill() -> Color {
    (FILL_LEVEL, FILL_LEVEL, FILL_LEVEL)
}

/// The box that holds the single point `p`.
pub open spec fn box_around(p: Point) -> BoundingBox {
    BoundingBox { min_x: p.x, min_y: p.y, max_x: p.x, max_y: p.y }
}

/// The box `b` stretched, where needed, to hold `p` as well.
pub open spec fn stretched(b: BoundingBox, p: Point) -> BoundingBox {
    BoundingBox {
        min_x: if p.x < b.min_x {
            p.x
        } else {
            b.min_x
        },
        min_y: if p.y < b.min_y {
            p.y
        } else {
            b.min_y
        },
        max_x: if p.x > b.max_x {
            p.x
        } else {
            b.max_x
        },
        max_y: if p.y > b.max_y {
            p.y
        } else {
            b.max_y
        },
    }
}

/// The bounding box of the first `k` vertices, for `k` at least one.
pub open spec fn bounds_upto(poly: Seq<Point>, k: nat) -> BoundingBox
    decreases k,
{
    if k <= 1 {
        box_around(poly[0])
    } else {
        stretched(bounds_upto(poly, (k - 1) as nat), poly[k - 1])
    }
}

/// The bounding box of a polygon with at least one vertex.
pub open spec fn bounds(poly: Seq<Point>) -> BoundingBox {
    bounds_upto(poly, poly.len())
}

/// `v` moved into the range from `lo` to `hi`.
pub open spec fn clamped(v: int, lo: int, hi: int) -> int {
    if v < lo {
        lo
    } else if v > hi {
        hi
    } else {
        v
    }
}

/// The bounding box `b` widened by `margin` on every side, each edge then
/// clipped on its own to a page of `width` by `height` pixels.
pub open spec fn crop_of(b: BoundingBox, width: u32, height: u32, margin: u32) -> CropBox {
    CropBox {
        x0: clamped(b.min_x - margin, 0, width as int) as u32,
        y0: clamped(b.min_y - margin, 0, height as int) as u32,
        x1: clamped(b.max_x + margin, 0, width as int) as u32,
        y1: clamped(b.max_y + margin, 0, height as int) as u32,
    }
}

/// Whether a cut-out holds at least one pixel.
pub open spec fn has_area(c: CropBox) -> bool {
    c.x0 < c.x1 && c.y0 < c.y1
}

/// What the cut-out of a polygon from a page of `width` by `height` pixels
/// covers, or why there is none.
pub open spec fn crop_outcome(poly: Seq<Point>, width: u32, height: u32, margin: u32) -> Result<
    CropBox,
    ExtractError,
> {
    if poly.len() == 0 {
        Err(ExtractError::EmptyRegion)
    } else if !has_area(crop_of(bounds(poly), width, height, margin)) {
        Err(ExtractError::DegenerateRegion)
    } else {
        Ok(crop_of(bounds(poly), width, height, margin))
    }
}

/// The colour of the cut-out's pixel in column `x` and row `y`: the page's
/// pixel that it lies over where that is interior to the polygon, the fill
/// elsewhere.
pub open spec fn masked_color(poly: Seq<Point>, page: Raster, crop: CropBox, x: int, y: int) -> Color {
    if inside(poly, crop.x0 + x, crop.y0 + y) {
        color_at(page, crop.x0 + x, crop.y0 + y)
    } else {
        fill()
    }
}

/// Whether `out` is the cut-out `crop` of `page`, masked by `poly`.
pub open spec fn is_masked_crop(out: Raster, poly: Seq<Point>, page: Raster, crop: CropBox) -> bool {
    &&& raster_width(out) == crop.x1 - crop.x0
    &&& raster_height(out) == crop.y1 - crop.y0
    &&& forall|x: int, y: int|
        0 <= x < crop.x1 - crop.x0 && 0 <= y < crop.y1 - crop.y0 ==> #[trigger] color_at(
            out,
            x,
            y,
        ) == masked_color(poly, page, crop, x, y)
}

/// The bounding box of the first `k` vertices holds each of them, and each
/// of its four edges passes through one of them.
pub proof fn lemma_bounds_are_tight(poly: Seq<Point>, k: nat)
    requires
        1 <= k <= poly.len(),
    ensures
        forall|i: int|
            0 <= i < k ==> {
                &&& bounds_upto(poly, k).min_x <= (#[trigger] poly[i]).x <= bounds_upto(poly, k).max_x
                &&& bounds_upto(poly, k).min_y <= poly[i].y <= bounds_upto(poly, k).max_y
            },
        exists|i: int| 0 <= i < k && (#[trigger] poly[i]).x == bounds_upto(poly, k).min_x,
        exists|i: int| 0 <= i < k && (#[trigger] poly[i]).x == bounds_upto(poly, k).max_x,
        exists|i: int| 0 <= i < k && (#[trigger] poly[i]).y == bounds_upto(poly, k).min_y,
        exists|i: int| 0 <= i < k && (#[trigger] poly[i]).y == bounds_upto(poly, k).max_y,
    decreases k,
{
    if k <= 1 {
        assert(poly[0].x == bounds_upto(poly, k).min_x);
    } else {
        let j = (k - 1) as nat;
        lemma_bounds_are_tight(poly, j);
        let b = bounds_upto(poly, j);
        let i0 = choose|i: int| 0 <= i < j && (#[trigger] poly[i]).x == b.min_x;
        let i1 = choose|i: int| 0 <= i < j && (#[trigger] poly[i]).x == b.max_x;
        let i2 = choose|i: int| 0 <= i < j && (#[trigger] poly[i]).y == b.min_y;
        let i3 = choose|i: int| 0 <= i < j && (#[trigger] poly[i]).y == b.max_y;
        let last = k - 1;
        assert(poly[if poly[last].x < b.min_x {
            last
        } else {
            i0
        }].x == bounds_upto(poly, k).min_x);
        assert(poly[if poly[last].x > b.max_x {
            last
        } else {
            i1
        }].x == bounds_upto(poly, k).max_x);
        assert(poly[if poly[last].y < b.min_y {
            last
        } else {
            i2
        }].y == bounds_upto(poly, k).min_y);
        assert(poly[if poly[last].y > b.max_y {
            last
        } else {
            i3
        }].y == bounds_upto(poly, k).max_y);
    }
}

/// A cut-out never reaches beyond the page: an edge that the margin would
/// push past a border of the page lies on that border instead.
pub proof fn law_crop_stays_on_page(b: BoundingBox, width: u32, height: u32, margin: u32)
    requires
        b.min_x <= b.max_x,
        b.min_y <= b.max_y,
    ensures
        0 <= crop_of(b, width, height, margin).x0 <= crop_of(b, width, height, margin).x1 <= width,
        0 <= crop_of(b, width, height, margin).y0 <= crop_of(b, width, height, margin).y1 <= height,
        b.min_x - margin <= 0 ==> crop_of(b, width, height, margin).x0 == 0,
        b.min_y - margin <= 0 ==> crop_of(b, width, height, margin).y0 == 0,
        b.max_x + margin >= width ==> crop_of(b, width, height, margin).x1 == width,
        b.max_y + margin >= height ==> crop_of(b, width, height, margin).y1 == height,
{
}

/// Every pixel of a masked cut-out that lies outside the polygon's bounding
/// box, such as the whole margin, shows the fill.
pub proof fn law_margin_is_filled(
    out: Raster,
    poly: Seq<Point>,
    page: Raster,
    crop: CropBox,
    x: int,
    y: int,
)
    requires
        poly.len() > 0,
        is_masked_crop(out, poly, page, crop),
        0 <= x < crop.x1 - crop.x0,
        0 <= y < crop.y1 - crop.y0,
        crop.x0 + x < bounds(poly).min_x || crop.x0 + x > bounds(poly).max_x || crop.y0 + y
            < bounds(poly).min_y || crop.y0 + y > bounds(poly).max_y,
    ensures
        color_at(out, x, y) == fill(),
{
    lemma_bounds_are_tight(poly, poly.len());
    law_outside_bounding_box_is_exterior(poly, crop.x0 + x, crop.y0 + y);
}

/// Finds the bounding box of a list of vertices, or nothing for an empty
/// list.
pub fn bounding_box(vertices: &Vec<Point>) -> (found: Option<BoundingBox>)
    ensures
        found == if vertices@.len() == 0 {
            None
        } else {
            Some(bounds(vertices@))
        },
{
    let n = vertices.len();
    if n == 0 {
        return None;
    }
    let first = vertices[0];
    let mut b = BoundingBox { min_x: first.x, min_y: first.y, max_x: first.x, max_y: first.y };
    let mut i: usize = 1;
    while i < n
        invariant
            1 <= i <= n,
            n == vertices.len(),
            b == bounds_upto(vertices@, i as nat),
        decreases n - i,
    {
        let p = vertices[i];
        if p.x < b.min_x {
            b.min_x = p.x;
        }
        if p.y < b.min_y {
            b.min_y = p.y;
        }
        if p.x > b.max_x {
            b.max_x = p.x;
        }
        if p.y > b.max_y {
            b.max_y = p.y;
        }
        i = i + 1;
    }
    Some(b)
}

fn clamp_to(v: i64, hi: u32) -> (r: u32)
    ensures
        r == clamped(v as int, 0, hi as int),
{
    if v < 0 {
        0
    } else if v > hi as i64 {
        hi
    } else {
        v as u32
    }
}

/// Works out which part of a page of `width` by `height` pixels the cut-out
/// of a polygon covers.
///
/// Fails with `EmptyRegion` for a polygon without vertices, and with
/// `DegenerateRegion` when the widened and clipped box holds no pixel.
pub fn crop_box(vertices: &Vec<Point>, width: u32, height: u32, margin: u32) -> (r: Result<
    CropBox,
    ExtractError,
>)
    ensures
        r == crop_outcome(vertices@, width, height, margin),
        r matches Ok(c) ==> c.x0 < c.x1 <= width && c.y0 < c.y1 <= height,
{
    match bounding_box(vertices) {
        None => Err(ExtractError::EmptyRegion),
        Some(b) => {
            let m = margin as i64;
            let c = CropBox {
                x0: clamp_to(b.min_x as i64 - m, width),
                y0: clamp_to(b.min_y as i64 - m, height),
                x1: clamp_to(b.max_x as i64 + m, width),
                y1: clamp_to(b.max_y as i64 + m, height),
            };
            if c.x0 < c.x1 && c.y0 < c.y1 {
                Ok(c)
            } else {
                Err(ExtractError::DegenerateRegion)
            }
        },
    }
}

proof fn lemma_crop_is_storable(cw: int, ch: int, width: int, height: int)
    requires
        0 <= cw <= width,
        0 <= ch <= height,
        storable(width, height),
    ensures
        storable(cw, ch),
{
    assert(cw * ch <= width * height) by (nonlinear_arith)
        requires
            0 <= cw <= width,
            0 <= ch <= height,
    ;
    assert(3 * cw * ch == 3 * (cw * ch)) by (nonlinear_arith);
    assert(3 * width * height == 3 * (width * height)) by (nonlinear_arith);
}

/// Cuts the region of `vertices` out of `page`: a raster as large as the
/// cut-out's box, showing the page inside the polygon and the fill outside.
///
/// Fails as [`crop_box`] does, and in no other case.
pub fn extract_region(vertices: &Vec<Point>, page: &Raster, margin: u32) -> (r: Result<
    Raster,
    ExtractError,
>)
    ensures
        match crop_outcome(
            vertices@,
            raster_width(*page) as u32,
            raster_height(*page) as u32,
            margin,
        ) {
            Ok(crop) => r matches Ok(out) && is_masked_crop(out, vertices@, *page, crop),
            Err(e) => r matches Err(f) && f == e,
        },
{
    let (width, height) = dimensions(page);
    let crop = match crop_box(vertices, width, height, margin) {
        Ok(c) => c,
        Err(e) => {
            return Err(e);
        },
    };
    let cw: u32 = crop.x1 - crop.x0;
    let ch: u32 = crop.y1 - crop.y0;
    proof {
        lemma_crop_is_storable(cw as int, ch as int, width as int, height as int);
    }
    let mut out = blank(cw, ch);
    let mut y: u32 = 0;
    while y < ch
        invariant
            y <= ch,
            cw == crop.x1 - crop.x0,
            ch == crop.y1 - crop.y0,
            crop.x1 <= raster_width(*page),
            crop.y1 <= raster_height(*page),
            raster_width(out) == cw,
            raster_height(out) == ch,
            forall|i: int, j: int|
                0 <= i < cw && 0 <= j < y ==> #[trigger] color_at(out, i, j) == masked_color(
                    vertices@,
                    *page,
                    crop,
                    i,
                    j,
                ),
        decreases ch - y,
    {
        let mut x: u32 = 0;
        while x < cw
            invariant
                x <= cw,
                y < ch,
                cw == crop.x1 - crop.x0,
                ch == crop.y1 - crop.y0,
                crop.x1 <= raster_width(*page),
                crop.y1 <= raster_height(*page),
                raster_width(out) == cw,
                raster_height(out) == ch,
                forall|i: int, j: int|
                    0 <= i < cw && 0 <= j < y ==> #[trigger] color_at(out, i, j) == masked_color(
                        vertices@,
                        *page,
                        crop,
                        i,
                        j,
                    ),
                forall|i: int|
                    0 <= i < x ==> #[trigger] color_at(out, i, y as int) == masked_color(
                        vertices@,
                        *page,
                        crop,
                        i,
                        y as int,
                    ),
            decreases cw - x,
        {
            let px: u32 = crop.x0 + x;
            let py: u32 = crop.y0 + y;
            let c = if point_in_polygon(vertices, px as i64, py as i64) {
                pixel(page, px, py)
            } else {
                (FILL_LEVEL, FILL_LEVEL, FILL_LEVEL)
            };
            let ghost before = out;
            set_pixel(&mut out, x, y, c);
            assert forall|i: int, j: int| 0 <= i < cw && 0 <= j < y implies #[trigger] color_at(
                out,
                i,
                j,
            ) == masked_color(vertices@, *page, crop, i, j) by {
                assert(color_at(before, i, j) == masked_color(vertices@, *page, crop, i, j));
            }
            assert forall|i: int| 0 <= i < x + 1 implies #[trigger] color_at(out, i, y as int)
                == masked_color(vertices@, *page, crop, i, y as int) by {
                if i < x {
                    assert(color_at(before, i, y as int) == masked_color(
                        vertices@,
                        *page,
                        crop,
                        i,
                        y as int,
                    ));
                }
            }
            x = x + 1;
        }
        y = y + 1;
    }
    Ok(out)
}

/// Turns what the encoder gave into the payload, or into the library's own
/// error when the encoder failed.
pub fn encoded_payload(outcome: Result<Vec<u8>, image::ImageError>) -> (r: Result<
    Vec<u8>,
    ExtractError,
>)
    ensures
        match outcome {
            Ok(bytes) => r == Ok::<Vec<u8>, ExtractError>(bytes),
            Err(_) => r == Err::<Vec<u8>, ExtractError>(ExtractError::EncodingFailed),
        },
{
    match outcome {
        Ok(bytes) => Ok(bytes),
        Err(_) => Err(ExtractError::EncodingFailed),
    }
}

/// Encodes a cut-out as a JPEG file at [`JPEG_QUALITY`].
///
/// Fails with `EncodingFailed` exactly when the cut-out cannot be written as
/// a JPEG file: when it holds no pixel, or more than [`JPEG_MAX_SIDE`] on a
/// side.
pub fn encode_crop(crop: &Raster) -> (r: Result<Vec<u8>, ExtractError>)
    ensures
        r is Ok <==> encodable(raster_width(*crop) as int, raster_height(*crop) as int),
        match r {
            Ok(bytes) => bytes@ == jpeg_encoding(
                raster_width(*crop),
                raster_height(*crop),
                raster_pixels(*crop),
                JPEG_QUALITY,
            ),
            Err(e) => e == ExtractError::EncodingFailed,
        },
{
    encoded_payload(encode_jpeg(crop, JPEG_QUALITY))
}

/// Whether a cut-out is small enough to be written as a JPEG file.
pub open spec fn fits_encoder(crop: CropBox) -> bool {
    crop.x1 - crop.x0 <= JPEG_MAX_SIDE && crop.y1 - crop.y0 <= JPEG_MAX_SIDE
}

/// Whether `ex` holds the cut-out `crop` of `page`, masked by `poly`, and
/// that cut-out's encoded form.
pub open spec fn is_extraction(ex: Extraction, poly: Seq<Point>, page: Raster, crop: CropBox) -> bool {
    &&& is_masked_crop(ex.crop, poly, page, crop)
    &&& ex.payload@ == jpeg_encoding(
        raster_width(ex.crop),
        raster_height(ex.crop),
        raster_pixels(ex.crop),
        JPEG_QUALITY,
    )
}

/// Cuts the region of `vertices` out of `page` and encodes it.
///
/// Fails with `EmptyRegion` or `DegenerateRegion` exactly as [`crop_box`]
/// does, and with `EncodingFailed` exactly when the cut-out exists but has
/// more than [`JPEG_MAX_SIDE`] pixels on a side. In every other case the
/// result holds the cut-out and its encoded form.
pub fn extract_image(vertices: &Vec<Point>, page: &Raster, margin: u32) -> (r: Result<
    Extraction,
    ExtractError,
>)
    ensures
        match crop_outcome(
            vertices@,
            raster_width(*page) as u32,
            raster_height(*page) as u32,
            margin,
        ) {
            Ok(crop) => if fits_encoder(crop) {
                r matches Ok(ex) && is_extraction(ex, vertices@, *page, crop)
            } else {
                r matches Err(e) && e == ExtractError::EncodingFailed
            },
            Err(e) => r matches Err(f) && f == e,
        },
{
    let crop = match extract_region(vertices, page, margin) {
        Ok(c) => c,
        Err(e) => {
            return Err(e);
        },
    };
    match encode_crop(&crop) {
        Ok(payload) => Ok(Extraction { crop, payload }),
        Err(e) => Err(e),
    }
}

} // verus!
