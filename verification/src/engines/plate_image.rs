//! Preparing images for the plate models.

use vstd::prelude::*;

use crate::bounds::{lemma_cancel, lemma_dividing, lemma_divisors, lemma_fitted_side, lemma_inverse_proportion,
    lemma_less_in_units, lemma_lesser, lemma_proportion, lemma_quotient_value, lemma_ratio_and_one, lemma_shrinking,
    lemma_unit_step, lemma_whole, lemma_whole_in_units, unit, value, SINGLE_PARTS};
use crate::engines::priors::DET_INPUT_SIZE;
use crate::error::{fails, ErrorKind, VisionError};
use crate::imaging::color::{channels_message, cvt_color, has_bgr3, is_bgr3_of, is_converted, planes, to_bgr3, to_planes,
    ColorConversion};
use crate::imaging::image::{is_pasted, lemma_byte_has_place, Image, Picture};
use crate::imaging::resize::{resize, scaled, scaling_fits, Interpolation};
use crate::magnitude::Magnitude;
use crate::rounding::{float_of, floor_of, is_less, lesser, nearest_of, product, quotient, Precision};

verus! {

/// The value of the border of a letterbox.
pub const YOLO_PAD_VALUE: u8 = 114;

/// The width of the recognition model's input.
pub const REC_WIDTH: usize = 94;

/// The height of the recognition model's input.
pub const REC_HEIGHT: usize = 24;

/// Where a scaled image stands on the detector's input.
#[derive(Debug, Clone, Copy, PartialEq, Eq, Structural)]
pub struct Placement {
    /// The width of the image.
    pub image_width: usize,
    /// The height of the image.
    pub image_height: usize,
    /// The scaled width.
    pub width: usize,
    /// The scaled height.
    pub height: usize,
    /// The columns before it.
    pub left: usize,
    /// The rows above it.
    pub top: usize,
}

/// Whether an image is small enough that its scaled form can be computed.
pub open spec fn fits_detector(p: Picture) -> bool {
    &&& p.width <= u32::MAX
    &&& p.height <= u32::MAX
    &&& p.width * p.height * 3 <= usize::MAX
    &&& (p.width * 640 + 1) * 3 <= isize::MAX
    &&& 64 * (p.width + 641) <= isize::MAX
    &&& 64 * (p.height + 641) <= isize::MAX
}

/// Whether an image is small enough that its scaled form can be computed.
pub fn can_detect(image: &Image) -> (r: bool)
    ensures
        r == fits_detector(image@),
{
    let (w, h) = (image.width() as u128, image.height() as u128);
    let limit = isize::MAX as u128;
    if w > u32::MAX as u128 || h > u32::MAX as u128 {
        return false;
    }
    assert(0 <= w * h <= 0xffff_ffff * 0xffff_ffff) by (nonlinear_arith)
        requires
            0 <= w <= 0xffff_ffff,
            0 <= h <= 0xffff_ffff,
    ;
    w * h * 3 <= usize::MAX as u128 && (w * 640 + 1) * 3 <= limit && 64 * (w + 641) <= limit && 64 * (h + 641) <= limit
}

proof fn lemma_scaling_fits(p: Picture, width: int, height: int)
    requires
        fits_detector(p),
        0 <= p.width,
        0 <= width <= 640,
        0 <= height <= 640,
    ensures
        scaling_fits(p.width, p.height, 3, width, height),
{
    assert(width * height <= 640 * 640 && p.width * height <= p.width * 640) by (nonlinear_arith)
        requires
            0 <= width <= 640,
            0 <= height <= 640,
            0 <= p.width,
    ;
}

// ---------------------------------------------------------------------------
// The anchor-based detector
// ---------------------------------------------------------------------------

/// Height over width.
pub open spec fn aspect(width: int, height: int) -> (int, int) {
    quotient(float_of(height, Precision::Single), float_of(width, Precision::Single), Precision::Single)
}

/// One at least.
pub open spec fn at_least_one(n: int) -> int {
    if n < 1 {
        1
    } else {
        n
    }
}

/// The whole pixels of the shorter side of an image whose longer side fills the input.
pub open spec fn short_side(width: int, height: int) -> int {
    let goal = float_of(640, Precision::Single);
    if is_less(float_of(1, Precision::Single), aspect(width, height)) {
        floor_of(quotient(goal, aspect(width, height), Precision::Single))
    } else {
        floor_of(product(goal, aspect(width, height), Precision::Single))
    }
}

/// Where an image stands on the input of the anchor-based detector: its longer side fills
/// the input, and it is centred on the other side.
pub open spec fn is_mnet_placement(place: Placement, width: int, height: int) -> bool {
    let side = short_side(width, height);
    &&& place.image_width == width
    &&& place.image_height == height
    &&& if is_less(float_of(1, Precision::Single), aspect(width, height)) {
        &&& place.width == at_least_one(side)
        &&& place.height == 640
        &&& place.left == (640 - side) / 2
        &&& place.top == 0
    } else {
        &&& place.width == 640
        &&& place.height == at_least_one(side)
        &&& place.left == 0
        &&& place.top == (640 - side) / 2
    }
}

/// Where an image stands on the input of the anchor-based detector.
pub fn mnet_placement(width: usize, height: usize) -> (place: Placement)
    requires
        width > 0,
        height > 0,
    ensures
        is_mnet_placement(place, width as int, height as int),
        1 <= place.width <= 640,
        1 <= place.height <= 640,
        place.left + place.width <= 640,
        place.top + place.height <= 640,
{
    let goal = Magnitude::of(640, Precision::Single);
    let one = Magnitude::of(1, Precision::Single);
    let hw_scale = Magnitude::of(height as u64, Precision::Single).divided_by(
        Magnitude::of(width as u64, Precision::Single),
        Precision::Single,
    );
    if one.less_than(hw_scale) {
        let exact = goal.divided_by(hw_scale, Precision::Single);
        proof {
            lemma_dividing(640, goal@, hw_scale@, exact@, Precision::Single);
        }
        let new_w = exact.floor();
        Placement {
            image_width: width,
            image_height: height,
            width: if new_w < 1 {
                1
            } else {
                new_w
            },
            height: DET_INPUT_SIZE,
            left: (DET_INPUT_SIZE - new_w) / 2,
            top: 0,
        }
    } else {
        let exact = goal.times(hw_scale, Precision::Single);
        proof {
            lemma_shrinking(640, goal@, hw_scale@, exact@, Precision::Single);
        }
        let new_h = exact.floor();
        Placement {
            image_width: width,
            image_height: height,
            width: DET_INPUT_SIZE,
            height: if new_h < 1 {
                1
            } else {
                new_h
            },
            left: 0,
            top: (DET_INPUT_SIZE - new_h) / 2,
        }
    }
}

/// The detector's input in one colour.
pub open spec fn blank_input(value: u8) -> Picture {
    Picture { width: 640, height: 640, channels: 3, data: Seq::new(1228800, |i: int| value) }
}

/// Whether `out` is the detector's input with the scaled image on it.
pub open spec fn is_input_of(out: Picture, image: Picture, place: Placement, value: u8, interp: Interpolation) -> bool {
    exists|bgr: Picture| #[trigger]
        is_bgr3_of(bgr, image) && is_pasted(
            out,
            blank_input(value),
            scaled(bgr, place.width as int, place.height as int, interp),
            place.left as int,
            place.top as int,
        )
}

fn make_input(image: &Image, place: Placement, value: u8, interp: Interpolation) -> (r: Result<Image, VisionError>)
    requires
        image.wf(),
        image@.data.len() > 0,
        fits_detector(image@),
        place.left + place.width <= 640,
        place.top + place.height <= 640,
    ensures
        !has_bgr3(image@) ==> fails(r, ErrorKind::Image, channels_message(image@.channels)),
        has_bgr3(image@) && (place.width == 0 || place.height == 0) ==> fails(
            r,
            ErrorKind::Image,
            "resize target size must be > 0"@,
        ),
        has_bgr3(image@) && place.width > 0 && place.height > 0 ==> r is Ok && r->Ok_0.wf() && r->Ok_0@.sized(
            640,
            640,
            3,
        ) && is_input_of(r->Ok_0@, image@, place, value, interp),
{
    let bgr = match to_bgr3(image) {
        Ok(bgr) => bgr,
        Err(e) => {
            return Err(e);
        },
    };
    proof {
        let _ = lemma_byte_has_place(image@, 0);
        assert(image@.width * image@.height > 0) by (nonlinear_arith)
            requires
                image@.width > 0,
                image@.height > 0,
        ;
        lemma_scaling_fits(bgr@, place.width as int, place.height as int);
    }
    let resized = match resize(&bgr, place.width, place.height, interp) {
        Ok(resized) => resized,
        Err(e) => {
            return Err(e);
        },
    };
    let mut padded = Image::filled(DET_INPUT_SIZE, DET_INPUT_SIZE, 3, value);
    assert(padded@.data =~= blank_input(value).data);
    padded.paste(place.left, place.top, &resized);
    Ok(padded)
}

/// The input of the anchor-based detector, and where the image stands on it.
pub fn preprocess_mnet(image: &Image) -> (r: Result<(Vec<u8>, Placement), VisionError>)
    requires
        image.wf(),
        image@.data.len() > 0,
        fits_detector(image@),
    ensures
        !has_bgr3(image@) ==> fails(r, ErrorKind::Image, channels_message(image@.channels)),
        has_bgr3(image@) ==> r is Ok && is_mnet_placement(r->Ok_0.1, image@.width, image@.height) && exists|out: Picture|
            #[trigger] is_input_of(out, image@, r->Ok_0.1, 0, Interpolation::Area) && r->Ok_0.0@ == planes(out),
{
    proof {
        let _ = lemma_byte_has_place(image@, 0);
    }
    let place = mnet_placement(image.width(), image.height());
    let padded = match make_input(image, place, 0, Interpolation::Area) {
        Ok(padded) => padded,
        Err(e) => {
            return Err(e);
        },
    };
    Ok((to_planes(&padded), place))
}

// ---------------------------------------------------------------------------
// The grid-based detector
// ---------------------------------------------------------------------------

/// The factor that brings both sides of an image into the input.
pub open spec fn letterbox_scale(width: int, height: int) -> (int, int) {
    let goal = float_of(640, Precision::Single);
    lesser(
        quotient(goal, float_of(width, Precision::Single), Precision::Single),
        quotient(goal, float_of(height, Precision::Single), Precision::Single),
    )
}

/// A side of an image in the letterbox.
pub open spec fn letterbox_side(side: int, scale: (int, int)) -> int {
    nearest_of(product(float_of(side, Precision::Single), scale, Precision::Single))
}

/// Where an image stands in the letterbox: it is as large as fits, and centred.
pub open spec fn is_letterbox(place: Placement, width: int, height: int) -> bool {
    let scale = letterbox_scale(width, height);
    &&& place.image_width == width
    &&& place.image_height == height
    &&& place.width == letterbox_side(width, scale)
    &&& place.height == letterbox_side(height, scale)
    &&& place.left == (640 - letterbox_side(width, scale)) / 2
    &&& place.top == (640 - letterbox_side(height, scale)) / 2
}

/// Where an image stands in the letterbox.
pub fn letterbox_placement(width: usize, height: usize) -> (place: Placement)
    requires
        width > 0,
        height > 0,
    ensures
        is_letterbox(place, width as int, height as int),
        place.left + place.width <= 640,
        place.top + place.height <= 640,
{
    let goal = Magnitude::of(640, Precision::Single);
    let (w, h) = (Magnitude::of(width as u64, Precision::Single), Magnitude::of(height as u64, Precision::Single));
    let horizontal = goal.divided_by(w, Precision::Single);
    let vertical = goal.divided_by(h, Precision::Single);
    let scale = horizontal.min(vertical);
    let exact_w = w.times(scale, Precision::Single);
    let exact_h = h.times(scale, Precision::Single);
    proof {
        lemma_lesser(horizontal@, vertical@);
        assert(w@.0 * scale@.0 > 0 && h@.0 * scale@.0 > 0) by (nonlinear_arith)
            requires
                w@.0 > 0,
                h@.0 > 0,
                scale@.0 > 0,
        ;
        lemma_fitted_side(640, w@, scale@, Precision::Single);
        lemma_fitted_side(640, h@, scale@, Precision::Single);
    }
    let new_w = exact_w.nearest();
    let new_h = exact_h.nearest();
    Placement {
        image_width: width,
        image_height: height,
        width: new_w,
        height: new_h,
        left: (DET_INPUT_SIZE - new_w) / 2,
        top: (DET_INPUT_SIZE - new_h) / 2,
    }
}

/// An image in the letterbox is as large as fits: no side is above 640, and one is 640.
pub proof fn letterbox_is_filled(width: int, height: int)
    requires
        0 < width <= u64::MAX,
        0 < height <= u64::MAX,
    ensures
        ({
            let scale = letterbox_scale(width, height);
            let (w, h) = (letterbox_side(width, scale), letterbox_side(height, scale));
            &&& 0 <= w <= 640
            &&& 0 <= h <= 640
            &&& w == 640 || h == 640
        }),
{
    let goal = float_of(640, Precision::Single);
    let (w, h) = (float_of(width, Precision::Single), float_of(height, Precision::Single));
    lemma_whole(640, Precision::Single);
    lemma_whole(width, Precision::Single);
    lemma_whole(height, Precision::Single);
    lemma_quotient_value(goal, w, Precision::Single);
    lemma_quotient_value(goal, h, Precision::Single);
    lemma_lesser(quotient(goal, w, Precision::Single), quotient(goal, h, Precision::Single));
    let scale = letterbox_scale(width, height);
    lemma_fitted_side(640, w, scale, Precision::Single);
    lemma_fitted_side(640, h, scale, Precision::Single);
}

/// The input of the grid-based detector, and where the image stands on it.
pub fn preprocess_yolo_letterbox(image: &Image) -> (r: Result<(Vec<u8>, Placement), VisionError>)
    requires
        image.wf(),
        image@.data.len() > 0,
        fits_detector(image@),
    ensures
        !has_bgr3(image@) ==> fails(r, ErrorKind::Image, channels_message(image@.channels)),
        has_bgr3(image@) ==> ({
            let scale = letterbox_scale(image@.width, image@.height);
            if letterbox_side(image@.width, scale) == 0 || letterbox_side(image@.height, scale) == 0 {
                fails(r, ErrorKind::Image, "resize target size must be > 0"@)
            } else {
                &&& r is Ok
                &&& is_letterbox(r->Ok_0.1, image@.width, image@.height)
                &&& exists|out: Picture, rgb: Picture| #[trigger]
                    is_input_of(out, image@, r->Ok_0.1, 114, Interpolation::Linear) && #[trigger] is_converted(
                        rgb,
                        out,
                        ColorConversion::Bgr2Rgb,
                    ) && r->Ok_0.0@ == planes(rgb)
            }
        }),
{
    proof {
        let _ = lemma_byte_has_place(image@, 0);
    }
    let place = letterbox_placement(image.width(), image.height());
    let padded = match make_input(image, place, YOLO_PAD_VALUE, Interpolation::Linear) {
        Ok(padded) => padded,
        Err(e) => {
            return Err(e);
        },
    };
    let rgb = match cvt_color(&padded, ColorConversion::Bgr2Rgb) {
        Ok(rgb) => rgb,
        Err(e) => {
            return Err(e);
        },
    };
    Ok((to_planes(&rgb), place))
}

// ---------------------------------------------------------------------------
// The recognition model
// ---------------------------------------------------------------------------

/// The input of the recognition model.
pub fn preprocess_rec(crop: &Image) -> (r: Result<Vec<u8>, VisionError>)
    requires
        crop.wf(),
        fits_detector(crop@),
    ensures
        crop@.data.len() == 0 ==> fails(r, ErrorKind::Image, "识别车牌图像为空"@),
        crop@.data.len() > 0 && !has_bgr3(crop@) ==> fails(r, ErrorKind::Image, channels_message(crop@.channels)),
        crop@.data.len() > 0 && has_bgr3(crop@) ==> r is Ok && exists|bgr: Picture| #[trigger]
            is_bgr3_of(bgr, crop@) && r->Ok_0@ == planes(scaled(bgr, 94, 24, Interpolation::Linear)),
{
    if crop.is_empty() {
        return Err(VisionError::image(String::from_str("识别车牌图像为空")));
    }
    let bgr = match to_bgr3(crop) {
        Ok(bgr) => bgr,
        Err(e) => {
            return Err(e);
        },
    };
    proof {
        let _ = lemma_byte_has_place(crop@, 0);
        assert(crop@.width * crop@.height > 0) by (nonlinear_arith)
            requires
                crop@.width > 0,
                crop@.height > 0,
        ;
        lemma_scaling_fits(bgr@, 94, 24);
    }
    let resized = match resize(&bgr, REC_WIDTH, REC_HEIGHT, Interpolation::Linear) {
        Ok(resized) => resized,
        Err(e) => {
            return Err(e);
        },
    };
    Ok(to_planes(&resized))
}

/// On the input of the anchor-based detector an image stands in the middle: what is left and
/// right of it, or above and below, is the same, but for one column or row.
pub proof fn anchor_input_is_centred(place: Placement, width: int, height: int)
    requires
        is_mnet_placement(place, width, height),
        1 <= short_side(width, height) <= 640,
    ensures
        place.width == 640 || place.height == 640,
        2 * place.left <= 640 - place.width <= 2 * place.left + 1,
        2 * place.top <= 640 - place.height <= 2 * place.top + 1,
{
}

/// A letterbox keeps the proportions of the image: one side fills the input, and the other one is
/// the integer nearest to what the proportions ask for, up to the rounding of the scale factor.
pub proof fn letterbox_keeps_the_proportions(place: Placement, width: int, height: int)
    requires
        is_letterbox(place, width, height),
        0 < width <= u32::MAX,
        0 < height <= u32::MAX,
    ensures
        ({
            ||| place.width == 640 && -1001 * width <= 2000 * (place.height * width - 640 * height) <= 1001 * width
            ||| place.height == 640 && -1001 * height <= 2000 * (place.width * height - 640 * width) <= 1001 * height
        }),
{
    let goal = float_of(640, Precision::Single);
    let (w, h) = (float_of(width, Precision::Single), float_of(height, Precision::Single));
    let (by_width, by_height) = (
        quotient(goal, w, Precision::Single),
        quotient(goal, h, Precision::Single),
    );
    lemma_whole(640, Precision::Single);
    lemma_whole(width, Precision::Single);
    lemma_whole(height, Precision::Single);
    lemma_quotient_value(goal, w, Precision::Single);
    lemma_quotient_value(goal, h, Precision::Single);
    lemma_less_in_units(by_width, by_height);
    lemma_less_in_units(by_height, by_width);
    lemma_less_in_units(by_width, by_width);
    lemma_less_in_units(by_height, by_height);
    if is_less(by_height, by_width) {
        lemma_divisors(640, width, height);
        lemma_fitted_side(640, h, by_height, Precision::Single);
        lemma_nearest_side(width, 640, height);
    } else {
        lemma_divisors(640, height, width);
        lemma_fitted_side(640, w, by_width, Precision::Single);
        lemma_nearest_side(height, 640, width);
    }
}

/// The nearest integer to a side that is scaled by the quotient of a goal and another side.
proof fn lemma_nearest_side(side: int, goal: int, other: int)
    requires
        0 < side <= 2 * other,
        side <= u64::MAX,
        0 < other <= u64::MAX,
        0 < goal <= 640,
    ensures
        ({
            let q = quotient(
                float_of(goal, Precision::Single),
                float_of(other, Precision::Single),
                Precision::Single,
            );
            let n = nearest_of(product(float_of(side, Precision::Single), q, Precision::Single));
            -1001 * other <= 2000 * (n * other - goal * side) <= 1001 * other
        }),
{
    let q = quotient(float_of(goal, Precision::Single), float_of(other, Precision::Single), Precision::Single);
    let p = product(float_of(side, Precision::Single), q, Precision::Single);
    lemma_proportion(side, goal, other);
    lemma_whole_in_units(p);
    lemma_unit_step(0, 0);
    let (l, o, v, n) = (SINGLE_PARTS as int, unit(0), value(p), nearest_of(p));
    let (x, y, k) = (v * other, side * goal, other * l);
    assert(side * goal * o == y * o);
    assert(k > 0) by (nonlinear_arith)
        requires
            k == other * l,
            other > 0,
            l > 0,
    ;
    assert(((2 * n - 1) * k) * o <= (2 * y * (l + 6)) * o) by {
        assert(((2 * n - 1) * o) * k <= (2 * v) * k) by (nonlinear_arith)
            requires
                (2 * n - 1) * o <= 2 * v,
                k > 0,
        ;
        assert((2 * v) * k == 2 * (x * l)) by (nonlinear_arith)
            requires
                x == v * other,
                k == other * l,
        ;
        assert(((2 * n - 1) * o) * k == ((2 * n - 1) * k) * o) by (nonlinear_arith);
        assert(2 * (y * o * (l + 6)) == (2 * y * (l + 6)) * o) by (nonlinear_arith);
    }
    lemma_cancel((2 * n - 1) * k, 2 * y * (l + 6), o);
    assert((2 * y * (l - 6)) * o <= ((2 * n + 1) * k) * o) by {
        assert(((2 * n + 1) * o) * k >= (2 * v) * k) by (nonlinear_arith)
            requires
                (2 * n + 1) * o >= 2 * v,
                k > 0,
        ;
        assert((2 * v) * k == 2 * (x * l)) by (nonlinear_arith)
            requires
                x == v * other,
                k == other * l,
        ;
        assert(((2 * n + 1) * o) * k == ((2 * n + 1) * k) * o) by (nonlinear_arith);
        assert(2 * (y * o * (l - 6)) == (2 * y * (l - 6)) * o) by (nonlinear_arith);
    }
    lemma_cancel(2 * y * (l - 6), (2 * n + 1) * k, o);
    let m = n * other;
    assert((2 * n - 1) * k == (2 * m - other) * l && (2 * n + 1) * k == (2 * m + other) * l) by (nonlinear_arith)
        requires
            k == other * l,
            m == n * other,
    ;
    assert(0 < y <= 1280 * other) by (nonlinear_arith)
        requires
            y == side * goal,
            0 < side <= 2 * other,
            0 < goal <= 640,
    ;
    assert(goal * side == y) by (nonlinear_arith)
        requires
            y == side * goal,
    ;
    assert(l == 0x100_0000);
}

/// The input of the anchor-based detector keeps the proportions of the image: the longer side is
/// 640 pixels, and the other one is the largest integer that is not above what the proportions
/// ask for, up to the rounding of the ratio, but at least one.
pub proof fn anchor_input_keeps_the_proportions(place: Placement, width: int, height: int)
    requires
        is_mnet_placement(place, width, height),
        0 < width <= u32::MAX,
        0 < height <= u32::MAX,
    ensures
        ({
            ||| place.width == 640 && height <= 2 * width && (place.height == 1 || -1001 * width <= 1000 * (place.height
                * width - 640 * height) <= width)
            ||| place.height == 640 && width <= 2 * height && (place.width == 1 || -1001 * height <= 1000 * (place.width
                * height - 640 * width) <= height)
        }),
{
    lemma_ratio_and_one(height, width);
    let goal = float_of(640, Precision::Single);
    if is_less(float_of(1, Precision::Single), aspect(width, height)) {
        let p = quotient(goal, aspect(width, height), Precision::Single);
        lemma_inverse_proportion(640, height, width);
        lemma_side_below(p, 640 * width, width, height);
    } else {
        let p = product(goal, aspect(width, height), Precision::Single);
        lemma_proportion(640, height, width);
        lemma_side_below(p, 640 * height, height, width);
    }
}

/// The largest integer that is not above a scaled side.
proof fn lemma_side_below(p: (int, int), y: int, side: int, other: int)
    requires
        0 < p.0,
        -1500 <= p.1 <= 1500,
        0 < side <= 2 * other,
        y == 640 * side,
        value(p) * other * SINGLE_PARTS <= y * unit(0) * (SINGLE_PARTS + 6),
        value(p) * other * SINGLE_PARTS >= y * unit(0) * (SINGLE_PARTS - 6),
    ensures
        -1001 * other <= 1000 * (floor_of(p) * other - y) <= other,
{
    lemma_whole_in_units(p);
    lemma_unit_step(0, 0);
    let (l, o, v, n) = (SINGLE_PARTS as int, unit(0), value(p), floor_of(p));
    let (x, k) = (v * other, other * l);
    assert(k > 0) by (nonlinear_arith)
        requires
            k == other * l,
            other > 0,
            l > 0,
    ;
    assert(v * k == x * l) by (nonlinear_arith)
        requires
            x == v * other,
            k == other * l,
    ;
    assert((n * k) * o <= (y * (l + 6)) * o) by {
        assert((n * o) * k <= v * k) by (nonlinear_arith)
            requires
                n * o <= v,
                k > 0,
        ;
        assert((n * o) * k == (n * k) * o) by (nonlinear_arith);
        assert(y * o * (l + 6) == (y * (l + 6)) * o) by (nonlinear_arith);
    }
    lemma_cancel(n * k, y * (l + 6), o);
    assert((y * (l - 6)) * o <= ((n + 1) * k) * o) by {
        assert(((n + 1) * o) * k >= v * k) by (nonlinear_arith)
            requires
                (n + 1) * o >= v,
                k > 0,
        ;
        assert(((n + 1) * o) * k == ((n + 1) * k) * o) by (nonlinear_arith);
        assert(y * o * (l - 6) == (y * (l - 6)) * o) by (nonlinear_arith);
    }
    lemma_cancel(y * (l - 6), (n + 1) * k, o);
    let m = n * other;
    assert(n * k == m * l && (n + 1) * k == (m + other) * l) by (nonlinear_arith)
        requires
            k == other * l,
            m == n * other,
    ;
    assert(-1001 * other <= 1000 * (m - y) <= other) by (nonlinear_arith)
        requires
            m * l <= y * (l + 6),
            y * (l - 6) <= (m + other) * l,
            0 < y <= 1280 * other,
            l == 0x100_0000,
    ;
}

} // verus!
