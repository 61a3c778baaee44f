//! Scaling of images.

use fast_image_resize::images::Image as Pixels;
use fast_image_resize::{FilterType, PixelType, ResizeAlg, ResizeOptions, Resizer};
use vstd::prelude::*;

use crate::bounds::{
    lemma_fitted_side, lemma_lesser, lemma_ordered, lemma_quotient_of_larger, lemma_quotient_value, lemma_shrinking, lemma_times_one,
    lemma_whole,
};
use crate::error::{fails, ErrorKind, VisionError};
use crate::imaging::image::{lemma_byte_has_place, Image, Picture};
use crate::magnitude::{is_ordinary, Magnitude};
use crate::rounding::{float_of, is_less, lesser, nearest_of, product, quotient, rounding_exists, saturated, Precision};
use crate::text::{decimal, push_decimal};

verus! {

/// How the pixels of a scaled image come about.
#[derive(Debug, Clone, Copy, PartialEq, Eq, Structural)]
pub enum Interpolation {
    /// The nearest pixel.
    Nearest,
    /// A linear blend.
    Linear,
    /// The mean of an area.
    Area,
    /// A cubic blend.
    Cubic,
}

impl Default for Interpolation {
    fn default() -> (r: Self)
        ensures
            r == Interpolation::Linear,
    {
        Interpolation::Linear
    }
}

/// A resampling algorithm. All but the first are convolutions whose kernel is stretched
/// with the scale, so that no source pixel is skipped when an image becomes much smaller.
#[derive(Debug, Clone, Copy, PartialEq, Eq, Structural)]
pub enum Sampling {
    Nearest,
    Bilinear,
    CatmullRom,
    Box,
}

/// A layout of the bytes of a pixel.
#[derive(Debug, Clone, Copy, PartialEq, Eq, Structural)]
pub enum PixelKind {
    U8,
    U8x2,
    U8x3,
    U8x4,
}

impl PixelKind {
    /// The number of bytes of a pixel.
    pub open spec fn bytes(self) -> int {
        match self {
            PixelKind::U8 => 1,
            PixelKind::U8x2 => 2,
            PixelKind::U8x3 => 3,
            PixelKind::U8x4 => 4,
        }
    }
}

impl Interpolation {
    /// The algorithm of an interpolation.
    pub open spec fn sampling(self) -> Sampling {
        match self {
            Interpolation::Nearest => Sampling::Nearest,
            Interpolation::Linear => Sampling::Bilinear,
            Interpolation::Area => Sampling::Box,
            Interpolation::Cubic => Sampling::CatmullRom,
        }
    }

    /// The algorithm of an interpolation.
    pub fn to_fir_alg(self) -> (r: Sampling)
        ensures
            r == self.sampling(),
    {
        match self {
            Interpolation::Nearest => Sampling::Nearest,
            Interpolation::Linear => Sampling::Bilinear,
            Interpolation::Cubic => Sampling::CatmullRom,
            Interpolation::Area => Sampling::Box,
        }
    }

    /// The pixel layout of a number of channels, if there is one.
    pub fn to_fir_pixel_type(channels: usize) -> (r: Option<PixelKind>)
        ensures
            r == pixel_kind(channels as int),
            r is Some <==> 1 <= channels <= 4,
            r is Some ==> r->0.bytes() == channels,
    {
        match channels {
            1 => Some(PixelKind::U8),
            2 => Some(PixelKind::U8x2),
            3 => Some(PixelKind::U8x3),
            4 => Some(PixelKind::U8x4),
            _ => None,
        }
    }
}

/// The pixel layout of a number of channels.
pub open spec fn pixel_kind(channels: int) -> Option<PixelKind> {
    if channels == 1 {
        Some(PixelKind::U8)
    } else if channels == 2 {
        Some(PixelKind::U8x2)
    } else if channels == 3 {
        Some(PixelKind::U8x3)
    } else if channels == 4 {
        Some(PixelKind::U8x4)
    } else {
        None
    }
}

/// Whether the buffers that scaling needs fit into memory addresses.
pub open spec fn scaling_fits(width: int, height: int, channels: int, new_width: int, new_height: int) -> bool {
    &&& width <= u32::MAX
    &&& height <= u32::MAX
    &&& new_width <= u32::MAX
    &&& new_height <= u32::MAX
    &&& new_width * new_height * channels <= isize::MAX
    &&& (width * new_height + 1) * channels <= isize::MAX
    &&& 64 * (width + new_width + 1) <= isize::MAX
    &&& 64 * (height + new_height + 1) <= isize::MAX
}

/// Whether the buffers that scaling needs fit into memory addresses.
pub fn can_scale(width: usize, height: usize, channels: usize, new_width: usize, new_height: usize) -> (r: bool)
    requires
        channels <= 4,
    ensures
        r == scaling_fits(width as int, height as int, channels as int, new_width as int, new_height as int),
{
    let (w, h, c) = (width as u128, height as u128, channels as u128);
    let (nw, nh) = (new_width as u128, new_height as u128);
    let (side, limit) = (u32::MAX as u128, isize::MAX as u128);
    if w > side || h > side || nw > side || nh > side {
        return false;
    }
    assert(0 <= nw * nh <= 0xffff_ffff * 0xffff_ffff && 0 <= w * nh <= 0xffff_ffff * 0xffff_ffff) by (nonlinear_arith)
        requires
            0 <= nw <= 0xffff_ffff,
            0 <= nh <= 0xffff_ffff,
            0 <= w <= 0xffff_ffff,
    ;
    let (area, strip) = (nw * nh, w * nh + 1);
    assert(0 <= area * c <= area * 4 && 0 <= strip * c <= strip * 4) by (nonlinear_arith)
        requires
            0 <= area,
            0 <= strip,
            0 <= c <= 4,
    ;
    area * c <= limit && strip * c <= limit && 64 * (w + nw + 1) <= limit && 64 * (h + nh + 1) <= limit
}

/// The bytes that `fast_image_resize::Resizer::resize` writes for a source of the given
/// bytes, size and pixel layout, a target size, an algorithm and the flag that says
/// whether colours are weighted with the alpha channel.
pub uninterp spec fn resampled(
    data: Seq<u8>,
    width: u32,
    height: u32,
    kind: PixelKind,
    new_width: u32,
    new_height: u32,
    sampling: Sampling,
    use_alpha: bool,
) -> Seq<u8>;

/// Calls `fast_image_resize::Resizer::resize`, from an image made by
/// `images::Image::from_vec_u8` into one made by `images::Image::new`.
///
/// On a source that holds all its pixels and sizes above zero the call succeeds; the bytes
/// are named by [`resampled`], there is one for each byte of each target pixel, and a
/// target of the source's size is a copy of the source.
#[verifier::external_body]
fn resample(
    data: Vec<u8>,
    width: u32,
    height: u32,
    kind: PixelKind,
    new_width: u32,
    new_height: u32,
    sampling: Sampling,
    use_alpha: bool,
) -> (r: Option<Vec<u8>>)
    requires
        width > 0,
        height > 0,
        new_width > 0,
        new_height > 0,
        data.len() == width * height * kind.bytes(),
        scaling_fits(width as int, height as int, kind.bytes(), new_width as int, new_height as int),
    ensures
        r is Some,
        r->0@ == resampled(data@, width, height, kind, new_width, new_height, sampling, use_alpha),
        r->0@.len() == new_width * new_height * kind.bytes(),
        width == new_width && height == new_height ==> r->0@ == data@,
{
    let alg = match sampling {
        Sampling::Nearest => ResizeAlg::Nearest,
        Sampling::Bilinear => ResizeAlg::Convolution(FilterType::Bilinear),
        Sampling::CatmullRom => ResizeAlg::Convolution(FilterType::CatmullRom),
        Sampling::Box => ResizeAlg::Convolution(FilterType::Box),
    };
    let pixel = match kind {
        PixelKind::U8 => PixelType::U8, PixelKind::U8x2 => PixelType::U8x2,
        PixelKind::U8x3 => PixelType::U8x3, PixelKind::U8x4 => PixelType::U8x4,
    };
    let source = Pixels::from_vec_u8(width, height, data, pixel).ok()?;
    let mut target = Pixels::new(new_width, new_height, pixel);
    let options = ResizeOptions::new().resize_alg(alg).use_alpha(use_alpha);
    Resizer::new().resize(&source, &mut target, &options).ok()?;
    Some(target.into_vec())
}

/// Whether an image can be scaled to a size.
pub open spec fn is_scalable(p: Picture, width: int, height: int) -> bool {
    width > 0 && height > 0 && p.data.len() > 0 && 1 <= p.channels <= 4
}

/// The image of the given size, its colours not weighted with the alpha channel.
pub open spec fn scaled(p: Picture, width: int, height: int, interp: Interpolation) -> Picture {
    Picture {
        width,
        height,
        channels: p.channels,
        data: resampled(
            p.data,
            p.width as u32,
            p.height as u32,
            pixel_kind(p.channels)->0,
            width as u32,
            height as u32,
            interp.sampling(),
            false,
        ),
    }
}

/// What scaling an image to a size gives.
pub open spec fn is_resized(
    r: Result<Image, VisionError>,
    p: Picture,
    width: int,
    height: int,
    interp: Interpolation,
) -> bool {
    if width == 0 || height == 0 {
        fails(r, ErrorKind::Image, "resize target size must be > 0"@)
    } else if p.data.len() == 0 {
        fails(r, ErrorKind::Image, "cannot resize empty image"@)
    } else if pixel_kind(p.channels) is None {
        fails(r, ErrorKind::Image, "unsupported channel count "@ + decimal(p.channels as nat))
    } else {
        &&& r is Ok
        &&& r->Ok_0.wf()
        &&& r->Ok_0@ == scaled(p, width, height, interp)
        &&& width == p.width && height == p.height ==> r->Ok_0@ == p
    }
}

/// Scales an image to a size.
pub fn resize(image: &Image, width: usize, height: usize, interp: Interpolation) -> (r: Result<Image, VisionError>)
    requires
        image.wf(),
        is_scalable(image@, width as int, height as int) ==> scaling_fits(
            image@.width,
            image@.height,
            image@.channels,
            width as int,
            height as int,
        ),
    ensures
        is_resized(r, image@, width as int, height as int, interp),
{
    if width == 0 || height == 0 {
        return Err(VisionError::image(String::from_str("resize target size must be > 0")));
    }
    if image.is_empty() {
        return Err(VisionError::image(String::from_str("cannot resize empty image")));
    }
    let kind = match Interpolation::to_fir_pixel_type(image.channels()) {
        Some(kind) => kind,
        None => {
            let mut message = String::from_str("unsupported channel count ");
            push_decimal(&mut message, image.channels() as u64);
            return Err(VisionError::image(message));
        },
    };
    proof {
        let _ = lemma_byte_has_place(image@, 0);
    }
    let source: Vec<u8> = image.data().clone();
    assert(source@ =~= image@.data);
    let bytes = resample(
        source,
        image.width() as u32,
        image.height() as u32,
        kind,
        width as u32,
        height as u32,
        interp.to_fir_alg(),
        false,
    );
    match bytes {
        Some(data) => Image::from_raw(width, height, image.channels(), data),
        None => Err(VisionError::image(String::from_str("resize failed"))),
    }
}

/// The factor by which an image is scaled to lie within a size, one at most.
pub open spec fn within_scale(p: Picture, width: int, height: int) -> (int, int) {
    let horizontal = quotient(
        float_of(width, Precision::Double),
        float_of(p.width, Precision::Double),
        Precision::Double,
    );
    let vertical = quotient(
        float_of(height, Precision::Double),
        float_of(p.height, Precision::Double),
        Precision::Double,
    );
    lesser(lesser(horizontal, vertical), float_of(1, Precision::Double))
}

/// A side of an image scaled by a factor, one at least.
pub open spec fn scaled_side(side: int, scale: (int, int)) -> int {
    let n = saturated(nearest_of(product(float_of(side, Precision::Double), scale, Precision::Double)));
    if n < 1 {
        1
    } else {
        n
    }
}

fn scale_side(side: usize, scale: Magnitude) -> (n: usize)
    requires
        0 < side <= u32::MAX,
        is_ordinary(scale@, 600),
        !is_less(float_of(1, Precision::Double), scale@),
    ensures
        n == scaled_side(side as int, scale@),
        1 <= n <= side,
{
    let whole = Magnitude::of(side as u64, Precision::Double);
    let exact = whole.times(scale, Precision::Double);
    let n = exact.nearest();
    proof {
        lemma_shrinking(side as int, whole@, scale@, exact@, Precision::Double);
    }
    if n < 1 {
        1
    } else {
        n
    }
}

proof fn lemma_smaller_fits(width: int, height: int, channels: int, new_width: int, new_height: int)
    requires
        scaling_fits(width, height, channels, width, height),
        0 < channels,
        0 < new_width <= width,
        0 < new_height <= height,
    ensures
        scaling_fits(width, height, channels, new_width, new_height),
{
    assert(new_width * new_height <= width * new_height && width * new_height <= width * height) by (nonlinear_arith)
        requires
            0 < new_width <= width,
            0 < new_height <= height,
    ;
    let (a, b, c) = (new_width * new_height, width * new_height, width * height);
    assert(a * channels <= c * channels && (b + 1) * channels <= (c + 1) * channels) by (nonlinear_arith)
        requires
            a <= c,
            b <= c,
            channels > 0,
    ;
}

/// Scales an image down, if needed, so that it lies within a size.
pub fn resize_within(
    image: &Image,
    width: usize,
    height: usize,
    interp: Interpolation,
) -> (r: Result<Image, VisionError>)
    requires
        image.wf(),
        image@.width <= u32::MAX,
        image@.height <= u32::MAX,
        is_scalable(image@, image@.width, image@.height) ==> scaling_fits(
            image@.width,
            image@.height,
            image@.channels,
            image@.width,
            image@.height,
        ),
    ensures
        image@.data.len() == 0 ==> fails(r, ErrorKind::Image, "cannot resize empty image"@),
        image@.data.len() > 0 ==> is_resized(
            r,
            image@,
            scaled_side(image@.width, within_scale(image@, width as int, height as int)),
            scaled_side(image@.height, within_scale(image@, width as int, height as int)),
            interp,
        ),
        r is Ok ==> r->Ok_0@.width <= image@.width && r->Ok_0@.height <= image@.height,
{
    if image.is_empty() {
        return Err(VisionError::image(String::from_str("cannot resize empty image")));
    }
    proof {
        let _ = lemma_byte_has_place(image@, 0);
    }
    let horizontal = Magnitude::of(width as u64, Precision::Double).divided_by(
        Magnitude::of(image.width() as u64, Precision::Double),
        Precision::Double,
    );
    let vertical = Magnitude::of(height as u64, Precision::Double).divided_by(
        Magnitude::of(image.height() as u64, Precision::Double),
        Precision::Double,
    );
    let scale = horizontal.min(vertical).min(Magnitude::of(1, Precision::Double));
    let nw = scale_side(image.width(), scale);
    let nh = scale_side(image.height(), scale);
    proof {
        if is_scalable(image@, nw as int, nh as int) {
            lemma_smaller_fits(image@.width, image@.height, image@.channels, nw as int, nh as int);
        }
    }
    resize(image, nw, nh, interp)
}

/// A side of an image scaled to lie within a size, and what it comes to if its own factor
/// is the smaller one.
proof fn lemma_side_within(side: int, goal: int, scale: (int, int))
    requires
        0 < side <= u32::MAX,
        0 < goal <= u64::MAX,
        is_ordinary(scale, 600),
        0 < scale.0,
        !is_less(float_of(1, Precision::Double), scale),
        !is_less(
            quotient(float_of(goal, Precision::Double), float_of(side, Precision::Double), Precision::Double),
            scale,
        ),
    ensures
        1 <= scaled_side(side, scale) <= side,
        scaled_side(side, scale) <= goal,
        scale == float_of(1, Precision::Double) ==> scaled_side(side, scale) == side,
        scale == quotient(float_of(goal, Precision::Double), float_of(side, Precision::Double), Precision::Double)
            ==> scaled_side(side, scale) == goal || scale == float_of(1, Precision::Double),
{
    let whole = float_of(side, Precision::Double);
    let exact = product(whole, scale, Precision::Double);
    lemma_whole(side, Precision::Double);
    rounding_exists(side, 1, 0, Precision::Double);
    rounding_exists(whole.0 * scale.0, 1, whole.1 + scale.1, Precision::Double);
    lemma_shrinking(side, whole, scale, exact, Precision::Double);
    lemma_times_one(side);
    if goal <= u32::MAX {
        lemma_fitted_side(goal, whole, scale, Precision::Double);
    } else {
        lemma_quotient_of_larger(goal, side);
    }
}

/// An image that is scaled to lie within a size lies within it, does not grow, and is the
/// largest that does: it fills the size in one direction, or it keeps its own size.
pub proof fn image_fits_as_large_as_possible(p: Picture, width: int, height: int)
    requires
        0 < p.width <= u32::MAX,
        0 < p.height <= u32::MAX,
        0 < width <= u64::MAX,
        0 < height <= u64::MAX,
    ensures
        ({
            let scale = within_scale(p, width, height);
            let (w, h) = (scaled_side(p.width, scale), scaled_side(p.height, scale));
            &&& 1 <= w <= width && w <= p.width
            &&& 1 <= h <= height && h <= p.height
            &&& w == width || h == height || (w == p.width && h == p.height)
        }),
{
    let one = float_of(1, Precision::Double);
    let (w, h) = (float_of(p.width, Precision::Double), float_of(p.height, Precision::Double));
    let (x, y) = (float_of(width, Precision::Double), float_of(height, Precision::Double));
    let horizontal = quotient(x, w, Precision::Double);
    let vertical = quotient(y, h, Precision::Double);
    let fit = lesser(horizontal, vertical);
    lemma_whole(p.width, Precision::Double);
    lemma_whole(p.height, Precision::Double);
    lemma_whole(width, Precision::Double);
    lemma_whole(height, Precision::Double);
    lemma_whole(1, Precision::Double);
    lemma_quotient_value(x, w, Precision::Double);
    lemma_quotient_value(y, h, Precision::Double);
    lemma_lesser(horizontal, vertical);
    lemma_lesser(fit, one);
    let scale = within_scale(p, width, height);
    lemma_ordered(scale, fit, horizontal);
    lemma_ordered(scale, fit, vertical);
    lemma_side_within(p.width, width, scale);
    lemma_side_within(p.height, height, scale);
}

/// An image that lies within a size keeps its own size.
pub proof fn image_within_keeps_its_size(p: Picture, width: int, height: int)
    requires
        0 < p.width <= u32::MAX,
        0 < p.height <= u32::MAX,
        p.width <= width <= u64::MAX,
        p.height <= height <= u64::MAX,
    ensures
        scaled_side(p.width, within_scale(p, width, height)) == p.width,
        scaled_side(p.height, within_scale(p, width, height)) == p.height,
{
    lemma_quotient_of_larger(width, p.width);
    lemma_quotient_of_larger(height, p.height);
    lemma_times_one(p.width);
    lemma_times_one(p.height);
}

/// Scaling asks for the given width and height, in this order, by the filter that belongs to
/// the interpolation, and from the size that the picture has.
pub proof fn scaling_asks_for_the_size(p: Picture, width: int, height: int, interp: Interpolation)
    requires
        0 <= width <= u32::MAX,
        0 <= height <= u32::MAX,
        0 <= p.width <= u32::MAX,
        0 <= p.height <= u32::MAX,
        1 <= p.channels <= 4,
    ensures
        scaled(p, width, height, interp).sized(width, height, p.channels),
        ({
            let filter = match interp {
                Interpolation::Nearest => Sampling::Nearest,
                Interpolation::Linear => Sampling::Bilinear,
                Interpolation::Area => Sampling::Box,
                Interpolation::Cubic => Sampling::CatmullRom,
            };
            let kind = if p.channels == 1 {
                PixelKind::U8
            } else if p.channels == 2 {
                PixelKind::U8x2
            } else if p.channels == 3 {
                PixelKind::U8x3
            } else {
                PixelKind::U8x4
            };
            scaled(p, width, height, interp).data == resampled(
                p.data,
                p.width as u32,
                p.height as u32,
                kind,
                width as u32,
                height as u32,
                filter,
                false,
            )
        }),
{
}

} // verus!
