//! Cutting plates out of an image.

use vstd::prelude::*;

use crate::engines::nms::PlateBox;
use crate::engines::plate_image::{REC_HEIGHT, REC_WIDTH};
use crate::error::{fails, ErrorKind, VisionError};
use crate::ieee::{Single, SINGLE_ZERO};
use crate::imaging::image::{cut_out_bytes_are_those_of_the_whole, is_part_at, lemma_offset, rectangle_inside, Image,
    Picture};
use crate::imaging::sample::{draw, is_sampled, shows};

verus! {

/// The corners of a box in whole pixels: left and top rounded down, right and bottom up.
#[derive(Debug, Clone, Copy, PartialEq, Eq, Structural)]
pub struct PixelBounds {
    pub left: i32,
    pub top: i32,
    pub right: i32,
    pub bottom: i32,
}

/// A number, or the nearer end of a range that it is outside of.
pub open spec fn clamped(n: int, low: int, high: int) -> int {
    if n < low {
        low
    } else if n > high {
        high
    } else {
        n
    }
}

fn clamp(n: i32, low: i32, high: i32) -> (r: i32)
    requires
        low <= high,
    ensures
        r == clamped(n as int, low as int, high as int),
{
    if n < low {
        low
    } else if n > high {
        high
    } else {
        n
    }
}

/// Whether an image has pixels, and no more in a row or a column than an `i32` counts.
pub open spec fn has_pixels(p: Picture) -> bool {
    0 < p.width <= i32::MAX && 0 < p.height <= i32::MAX
}

/// Whether `part` is the rectangle of an image between the bounds, which are moved into
/// the image so that at least one pixel is left.
pub open spec fn is_padded_crop(part: Picture, image: Picture, bounds: PixelBounds) -> bool {
    let left = clamped(bounds.left as int, 0, image.width - 1);
    let top = clamped(bounds.top as int, 0, image.height - 1);
    let right = clamped(bounds.right as int, left + 1, image.width);
    let bottom = clamped(bounds.bottom as int, top + 1, image.height);
    &&& part.wf()
    &&& part.sized(right - left, bottom - top, image.channels)
    &&& is_part_at(part, image, left, top)
}

/// Cuts the rectangle between the bounds out of an image.
pub fn crop_with_padding(image: &Image, bounds: PixelBounds) -> (r: Result<Image, VisionError>)
    requires
        image.wf(),
        has_pixels(image@),
    ensures
        r is Ok,
        is_padded_crop(r->Ok_0@, image@, bounds),
{
    let (width, height) = (image.width() as i32, image.height() as i32);
    let left = clamp(bounds.left, 0, width - 1);
    let top = clamp(bounds.top, 0, height - 1);
    let right = clamp(bounds.right, left + 1, width);
    let bottom = clamp(bounds.bottom, top + 1, height);
    image.crop(left as usize, top as usize, (right - left) as usize, (bottom - top) as usize)
}

/// The first column or row of a box.
pub open spec fn first_inside(n: int) -> int {
    if n < 0 {
        0
    } else {
        n
    }
}

/// Whether a box begins inside an image.
pub open spec fn begins_inside(p: Picture, bounds: PixelBounds) -> bool {
    bounds.left < p.width && bounds.top < p.height
}

/// Whether an image is the bounding box of a plate, at the given place.
pub open spec fn is_warp_crop(crop: Image, left: usize, top: usize, image: Picture, bounds: PixelBounds) -> bool {
    &&& crop.wf()
    &&& left == first_inside(bounds.left as int)
    &&& top == first_inside(bounds.top as int)
    &&& crop@.sized(
        clamped(bounds.right as int, left + 1, image.width) - left,
        clamped(bounds.bottom as int, top + 1, image.height) - top,
        image.channels,
    )
    &&& is_part_at(crop@, image, left as int, top as int)
}

/// Cuts the bounding box of a plate out of an image, to be straightened, if it begins inside
/// the image. The result comes with the place of its first pixel.
pub fn crop_for_warp(image: &Image, bounds: PixelBounds) -> (r: Option<(Image, usize, usize)>)
    requires
        image.wf(),
        has_pixels(image@),
    ensures
        r is Some <==> begins_inside(image@, bounds),
        r matches Some((crop, left, top)) ==> is_warp_crop(crop, left, top, image@, bounds),
{
    if bounds.left >= image.width() as i32 || bounds.top >= image.height() as i32 {
        return None;
    }
    let left: i32 = if bounds.left < 0 {
        0
    } else {
        bounds.left
    };
    let top: i32 = if bounds.top < 0 {
        0
    } else {
        bounds.top
    };
    let right = clamp(bounds.right, left + 1, image.width() as i32);
    let bottom = clamp(bounds.bottom, top + 1, image.height() as i32);
    let (x, y) = (left as usize, top as usize);
    match image.crop(x, y, (right - left) as usize, (bottom - top) as usize) {
        Ok(crop) => Some((crop, x, y)),
        Err(_) => None,
    }
}

/// Whether a pixel of a straightened plate is one that `sample` gives for it, with the
/// bounding box of the plate and the mapping from the straightened plate into it.
pub open spec fn is_warp_pixel<H, S: Fn(&Image, &H, usize, usize) -> Option<Vec<u8>>>(
    plate: Picture,
    x: int,
    y: int,
    crop: Image,
    mapping: H,
    sample: &S,
) -> bool {
    exists|sampled: Option<Vec<u8>>| #[trigger]
        call_ensures(*sample, (&crop, &mapping, x as usize, y as usize), sampled) && shows(plate, x, y, sampled)
}

/// Whether an image is a straightened plate, pixel by pixel what `sample` gives.
pub open spec fn is_warped<H, S: Fn(&Image, &H, usize, usize) -> Option<Vec<u8>>>(
    plate: Image,
    crop: Image,
    mapping: H,
    sample: &S,
) -> bool {
    &&& plate.wf()
    &&& plate@.sized(REC_WIDTH as int, REC_HEIGHT as int, crop@.channels)
    &&& forall|x: int, y: int|
        0 <= x < REC_WIDTH && 0 <= y < REC_HEIGHT ==> #[trigger] is_warp_pixel(plate@, x, y, crop, mapping, sample)
}

/// What cutting plates out of an image calls. A mapping leads from a straightened plate into
/// its bounding box.
pub struct CropCalls<B, M, S> {
    /// The corners of a plate in whole pixels, a number of pixels further out.
    pub bounds: B,
    /// The mapping for a plate whose bounding box begins at the given column and row, if
    /// there is one.
    pub solve: M,
    /// The bytes of a pixel of a straightened plate, if it lies in the bounding box.
    pub sample: S,
}

impl<
    H,
    B: Fn(&PlateBox, Single) -> PixelBounds,
    M: Fn(&PlateBox, usize, usize) -> Option<H>,
    S: Fn(&Image, &H, usize, usize) -> Option<Vec<u8>>,
> CropCalls<B, M, S> {
    /// Whether everything can be called, and the pixels of a straightened plate have the
    /// channels of its bounding box.
    pub open spec fn are_callable(self) -> bool {
        &&& forall|plate: &PlateBox, padding: Single| call_requires(self.bounds, (plate, padding))
        &&& forall|plate: &PlateBox, left: usize, top: usize| call_requires(self.solve, (plate, left, top))
        &&& forall|crop: &Image, mapping: &H, x: usize, y: usize|
            crop.wf() ==> call_requires(self.sample, (crop, mapping, x, y))
        &&& forall|crop: &Image, mapping: &H, x: usize, y: usize, bytes: Vec<u8>|
            crop.wf() && call_ensures(self.sample, (crop, mapping, x, y), Some(bytes)) ==> bytes.len()
                == crop@.channels
    }
}

/// What straightening a plate gives: nothing if there is no mapping, else the plate drawn
/// through it.
pub open spec fn is_warp_through<
    H,
    B: Fn(&PlateBox, Single) -> PixelBounds,
    M: Fn(&PlateBox, usize, usize) -> Option<H>,
    S: Fn(&Image, &H, usize, usize) -> Option<Vec<u8>>,
>(r: Option<Image>, crop: Image, left: usize, top: usize, plate: &PlateBox, calls: &CropCalls<B, M, S>) -> bool {
    match r {
        Some(out) => exists|mapping: H| #[trigger]
            call_ensures(calls.solve, (plate, left, top), Some(mapping)) && is_warped(
                out,
                crop,
                mapping,
                &calls.sample,
            ),
        None => call_ensures(calls.solve, (plate, left, top), None),
    }
}

/// What straightening a plate of an image gives: nothing if its bounding box begins outside
/// the image.
pub open spec fn is_warp<
    H,
    B: Fn(&PlateBox, Single) -> PixelBounds,
    M: Fn(&PlateBox, usize, usize) -> Option<H>,
    S: Fn(&Image, &H, usize, usize) -> Option<Vec<u8>>,
>(r: Option<Image>, image: Picture, plate: &PlateBox, bounds: PixelBounds, calls: &CropCalls<B, M, S>) -> bool {
    if begins_inside(image, bounds) {
        exists|crop: Image, left: usize, top: usize| #[trigger]
            is_warp_crop(crop, left, top, image, bounds) && is_warp_through(r, crop, left, top, plate, calls)
    } else {
        r is None
    }
}

/// Straightens a plate, if it begins inside the image and there is a mapping for it.
pub fn warp_plate<
    H,
    B: Fn(&PlateBox, Single) -> PixelBounds,
    M: Fn(&PlateBox, usize, usize) -> Option<H>,
    S: Fn(&Image, &H, usize, usize) -> Option<Vec<u8>>,
>(image: &Image, plate: &PlateBox, bounds: PixelBounds, calls: &CropCalls<B, M, S>) -> (r: Option<Image>)
    requires
        image.wf(),
        has_pixels(image@),
        REC_WIDTH * REC_HEIGHT * image@.channels <= usize::MAX,
        calls.are_callable(),
    ensures
        is_warp(r, image@, plate, bounds, calls),
{
    let (crop, left, top) = match crop_for_warp(image, bounds) {
        Some(found) => found,
        None => {
            return None;
        },
    };
    let mapping = match (calls.solve)(plate, left, top) {
        Some(mapping) => mapping,
        None => {
            assert(is_warp_through(None, crop, left, top, plate, calls));
            return None;
        },
    };
    let draw_pixel = |x: usize, y: usize| -> (bytes: Option<Vec<u8>>)
        ensures
            call_ensures(calls.sample, (&crop, &mapping, x, y), bytes),
        { (calls.sample)(&crop, &mapping, x, y) };
    let out = draw(REC_WIDTH, REC_HEIGHT, crop.channels(), draw_pixel);
    proof {
        assert forall|x: int, y: int| 0 <= x < REC_WIDTH && 0 <= y < REC_HEIGHT implies #[trigger] is_warp_pixel(
            out@,
            x,
            y,
            crop,
            mapping,
            &calls.sample,
        ) by {
            assert(is_sampled(out@, x, y, draw_pixel));
        }
        assert(is_warped(out, crop, mapping, &calls.sample));
        assert(is_warp_through(Some(out), crop, left, top, plate, calls));
    }
    Some(out)
}

/// Where the bytes of a pixel of an image stand, if there is such a pixel.
pub fn pixel_offset(image: &Image, x: i64, y: i64) -> (r: Option<usize>)
    requires
        image.wf(),
    ensures
        r is Some <==> 0 <= x < image@.width && 0 <= y < image@.height && image@.channels > 0,
        r is Some ==> r->0 == image@.offset(x as int, y as int, 0) && r->0 + image@.channels <= image@.data.len(),
{
    if x < 0 || y < 0 || image.channels() == 0 {
        return None;
    }
    let (w, h) = (image.width(), image.height());
    if x as u64 >= w as u64 || y as u64 >= h as u64 {
        return None;
    }
    proof {
        image.lemma_size_fits();
        lemma_offset(image@, x as int, y as int, 0);
        lemma_offset(image@, x as int, y as int, image@.channels - 1);
        assert(image@.width * image@.height <= usize::MAX) by (nonlinear_arith)
            requires
                image@.width * image@.height * image@.channels <= usize::MAX,
                image@.channels >= 1,
                image@.width * image@.height >= 0,
        ;
    }
    Some((y as usize * w + x as usize) * image.channels())
}

/// What a rectangle with the given corner and size cuts out of an image.
pub open spec fn is_signed_crop(
    r: Result<Image, VisionError>,
    image: Picture,
    x: int,
    y: int,
    width: int,
    height: int,
) -> bool {
    if rectangle_inside(image, x, y, width, height) {
        &&& r is Ok
        &&& r->Ok_0.wf()
        &&& r->Ok_0@.sized(width, height, image.channels)
        &&& is_part_at(r->Ok_0@, image, x, y)
    } else {
        fails(r, ErrorKind::Image, "crop rectangle is empty or outside the image"@)
    }
}

/// Cuts a rectangle out of an image. One that begins before the image is outside of it.
pub fn crop_signed(image: &Image, x: i32, y: i32, width: i64, height: i64) -> (r: Result<Image, VisionError>)
    requires
        image.wf(),
        width <= u32::MAX,
        height <= u32::MAX,
    ensures
        is_signed_crop(r, image@, x as int, y as int, width as int, height as int),
{
    if x < 0 || y < 0 || width < 0 || height < 0 {
        return Err(VisionError::image(String::from_str("crop rectangle is empty or outside the image")));
    }
    image.crop(x as usize, y as usize, width as usize, height as usize)
}

/// Whether a picture has no more columns and rows than another.
pub open spec fn is_smaller(part: Picture, whole: Picture) -> bool {
    0 < part.width <= whole.width && 0 < part.height <= whole.height
}

/// What is cut out for a plate: the straightened image if there are corners and they can
/// be straightened, else the rectangle between the bounds.
pub open spec fn is_plate_crop<
    H,
    B: Fn(&PlateBox, Single) -> PixelBounds,
    M: Fn(&PlateBox, usize, usize) -> Option<H>,
    S: Fn(&Image, &H, usize, usize) -> Option<Vec<u8>>,
>(cut: Image, image: Picture, plate: &PlateBox, calls: &CropCalls<B, M, S>) -> bool {
    exists|bounds: PixelBounds| #[trigger]
        call_ensures(calls.bounds, (plate, Single { bits: SINGLE_ZERO }), bounds) && {
            ||| plate.landmarks is Some && is_warp(Some(cut), image, plate, bounds, calls)
            ||| {
                &&& plate.landmarks is Some ==> is_warp(None, image, plate, bounds, calls)
                &&& is_padded_crop(cut@, image, bounds)
            }
        }
}

/// Cuts out a plate.
pub fn crop_plate_box<
    H,
    B: Fn(&PlateBox, Single) -> PixelBounds,
    M: Fn(&PlateBox, usize, usize) -> Option<H>,
    S: Fn(&Image, &H, usize, usize) -> Option<Vec<u8>>,
>(image: &Image, plate: &PlateBox, calls: &CropCalls<B, M, S>) -> (r: Result<Image, VisionError>)
    requires
        image.wf(),
        has_pixels(image@),
        REC_WIDTH * REC_HEIGHT * image@.channels <= usize::MAX,
        calls.are_callable(),
    ensures
        r is Ok,
        is_plate_crop(r->Ok_0, image@, plate, calls),
        r->Ok_0.wf(),
        r->Ok_0@.channels == image@.channels,
        is_smaller(r->Ok_0@, image@) || r->Ok_0@.sized(REC_WIDTH as int, REC_HEIGHT as int, image@.channels),
{
    let bounds = (calls.bounds)(plate, Single { bits: SINGLE_ZERO });
    assert(call_ensures(calls.bounds, (plate, Single { bits: SINGLE_ZERO }), bounds));
    if plate.landmarks.is_some() {
        match warp_plate(image, plate, bounds, calls) {
            Some(crop) => {
                return Ok(crop);
            },
            None => {},
        }
    }
    crop_with_padding(image, bounds)
}

/// What is cut out between bounds lies in the image and has a pixel at least. Bounds that lie in
/// the image are taken as they are: the part begins with the first column and row, ends before
/// the last ones, and shows the image byte by byte.
pub proof fn padded_crops_show_the_image(part: Picture, image: Picture, bounds: PixelBounds, x: int, y: int, c: int)
    requires
        image.wf(),
        has_pixels(image),
        is_padded_crop(part, image, bounds),
    ensures
        1 <= part.width <= image.width,
        1 <= part.height <= image.height,
        part.channels == image.channels,
        ({
            &&& 0 <= bounds.left < bounds.right <= image.width
            &&& 0 <= bounds.top < bounds.bottom <= image.height
        }) ==> {
            &&& part.width == bounds.right - bounds.left
            &&& part.height == bounds.bottom - bounds.top
            &&& part.has(x, y, c) ==> part.data[(y * part.width + x) * image.channels + c] == image.data[((bounds.top + y)
                * image.width + (bounds.left + x)) * image.channels + c]
        },
        bounds.left < 0 && 0 <= bounds.right <= image.width && bounds.right > 0 ==> part.width == bounds.right,
        bounds.top < 0 && 0 <= bounds.bottom <= image.height && bounds.bottom > 0 ==> part.height == bounds.bottom,
        0 <= bounds.left < image.width < bounds.right ==> part.width == image.width - bounds.left,
        0 <= bounds.top < image.height < bounds.bottom ==> part.height == image.height - bounds.top,
{
    if part.has(x, y, c) && 0 <= bounds.left < bounds.right <= image.width && 0 <= bounds.top < bounds.bottom
        <= image.height {
        cut_out_bytes_are_those_of_the_whole(part, image, bounds.left as int, bounds.top as int, x, y, c);
    }
}

/// A plate is straightened out of its bounding box, which begins at the column and the row that
/// its mapping is solved for.
pub proof fn bounding_boxes_begin_where_they_say(
    crop: Image,
    left: usize,
    top: usize,
    image: Picture,
    bounds: PixelBounds,
    x: int,
    y: int,
    c: int,
)
    requires
        image.wf(),
        has_pixels(image),
        is_warp_crop(crop, left, top, image, bounds),
        begins_inside(image, bounds),
        crop@.has(x, y, c),
    ensures
        bounds.left >= 0 ==> left == bounds.left,
        bounds.left < 0 ==> left == 0,
        bounds.top >= 0 ==> top == bounds.top,
        bounds.top < 0 ==> top == 0,
        left < bounds.right <= image.width ==> crop@.width == bounds.right - left,
        top < bounds.bottom <= image.height ==> crop@.height == bounds.bottom - top,
        crop@.data[(y * crop@.width + x) * image.channels + c] == image.data[((top + y) * image.width + (left + x))
            * image.channels + c],
{
    cut_out_bytes_are_those_of_the_whole(crop@, image, left as int, top as int, x, y, c);
}

/// A straightened plate shows, byte by byte, what is sampled for its columns and rows out of the
/// bounding box; it is black where nothing is.
pub proof fn straightened_plates_show_their_samples<H, S: Fn(&Image, &H, usize, usize) -> Option<Vec<u8>>>(
    plate: Image,
    crop: Image,
    mapping: H,
    sample: &S,
    x: int,
    y: int,
    c: int,
) -> (sampled: Option<Vec<u8>>)
    requires
        is_warped(plate, crop, mapping, sample),
        0 <= x < 94,
        0 <= y < 24,
        0 <= c < crop@.channels,
    ensures
        plate@.sized(94, 24, crop@.channels),
        call_ensures(*sample, (&crop, &mapping, x as usize, y as usize), sampled),
        plate@.data[(y * 94 + x) * crop@.channels + c] == match sampled {
            Some(bytes) => bytes@[c],
            None => 0,
        },
{
    assert(is_warp_pixel(plate@, x, y, crop, mapping, sample));
    let sampled = choose|sampled: Option<Vec<u8>>| #[trigger]
        call_ensures(*sample, (&crop, &mapping, x as usize, y as usize), sampled) && shows(plate@, x, y, sampled);
    assert(plate@.at(x, y, c) == plate@.data[(y * 94 + x) * crop@.channels + c]);
    sampled
}

/// A plate without corners is cut out as it stands. One with corners is straightened: its
/// bounding box is cut out, the mapping is solved for the column and the row at which that
/// begins, and the plate is drawn through the mapping. Only if there is no mapping, or the
/// bounding box begins outside the image, it is cut out as it stands.
pub proof fn plates_with_corners_are_straightened<
    H,
    B: Fn(&PlateBox, Single) -> PixelBounds,
    M: Fn(&PlateBox, usize, usize) -> Option<H>,
    S: Fn(&Image, &H, usize, usize) -> Option<Vec<u8>>,
>(cut: Image, image: Picture, plate: &PlateBox, calls: &CropCalls<B, M, S>) -> (r: (
    PixelBounds,
    Image,
    usize,
    usize,
    Option<H>,
))
    requires
        is_plate_crop(cut, image, plate, calls),
    ensures
        ({
            let (bounds, crop, left, top, mapping) = r;
            &&& call_ensures(calls.bounds, (plate, Single { bits: 0 }), bounds)
            &&& plate.landmarks is None ==> is_padded_crop(cut@, image, bounds)
            &&& plate.landmarks is Some && bounds.left < image.width && bounds.top < image.height ==> {
                &&& is_warp_crop(crop, left, top, image, bounds)
                &&& call_ensures(calls.solve, (plate, left, top), mapping)
                &&& mapping is Some ==> is_warped(cut, crop, mapping->0, &calls.sample)
                &&& mapping is None ==> is_padded_crop(cut@, image, bounds)
            }
            &&& !(bounds.left < image.width && bounds.top < image.height) ==> is_padded_crop(cut@, image, bounds)
        }),
{
    let bounds = choose|bounds: PixelBounds| #[trigger]
        call_ensures(calls.bounds, (plate, Single { bits: SINGLE_ZERO }), bounds) && {
            ||| plate.landmarks is Some && is_warp(Some(cut), image, plate, bounds, calls)
            ||| {
                &&& plate.landmarks is Some ==> is_warp(None, image, plate, bounds, calls)
                &&& is_padded_crop(cut@, image, bounds)
            }
        };
    if plate.landmarks is Some && begins_inside(image, bounds) {
        if is_warp(Some(cut), image, plate, bounds, calls) {
            let (crop, left, top) = choose|crop: Image, left: usize, top: usize| #[trigger]
                is_warp_crop(crop, left, top, image, bounds) && is_warp_through(
                    Some(cut),
                    crop,
                    left,
                    top,
                    plate,
                    calls,
                );
            let mapping = choose|mapping: H| #[trigger]
                call_ensures(calls.solve, (plate, left, top), Some(mapping)) && is_warped(
                    cut,
                    crop,
                    mapping,
                    &calls.sample,
                );
            (bounds, crop, left, top, Some(mapping))
        } else {
            let (crop, left, top) = choose|crop: Image, left: usize, top: usize| #[trigger]
                is_warp_crop(crop, left, top, image, bounds) && is_warp_through(None, crop, left, top, plate, calls);
            (bounds, crop, left, top, None)
        }
    } else {
        (bounds, arbitrary(), arbitrary(), arbitrary(), None)
    }
}

/// A crop begins at the first column and row of its bounds, or at the next ones inside the image,
/// and ends at the last ones, at the border of the image, or one pixel behind its beginning.
/// Everywhere it shows the image from there on.
pub proof fn padded_crops_begin_inside_the_image(
    part: Picture,
    image: Picture,
    bounds: PixelBounds,
    x: int,
    y: int,
    c: int,
)
    requires
        image.wf(),
        has_pixels(image),
        is_padded_crop(part, image, bounds),
        part.has(x, y, c),
    ensures
        ({
            let left = if bounds.left <= 0 {
                0
            } else if bounds.left < image.width {
                bounds.left as int
            } else {
                image.width - 1
            };
            let top = if bounds.top <= 0 {
                0
            } else if bounds.top < image.height {
                bounds.top as int
            } else {
                image.height - 1
            };
            &&& bounds.right >= image.width ==> left + part.width == image.width
            &&& left < bounds.right < image.width ==> left + part.width == bounds.right
            &&& bounds.right <= left ==> part.width == 1
            &&& bounds.bottom >= image.height ==> top + part.height == image.height
            &&& top < bounds.bottom < image.height ==> top + part.height == bounds.bottom
            &&& bounds.bottom <= top ==> part.height == 1
            &&& part.data[(y * part.width + x) * image.channels + c] == image.data[((top + y) * image.width + (left + x))
                * image.channels + c]
        }),
{
    let left = clamped(bounds.left as int, 0, image.width - 1);
    let top = clamped(bounds.top as int, 0, image.height - 1);
    assert(part.at(x, y, c) == image.at(left + x, top + y, c));
}

} // verus!
