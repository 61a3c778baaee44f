//! Finding text.

use vstd::prelude::*;

use crate::bounds::{lemma_cancel, lemma_fitted_value, lemma_integer_value, lemma_integers_compare, lemma_lesser,
    lemma_nearest_steps, lemma_proportion, lemma_quotient_value, lemma_scaled_by_one, lemma_unit_step, lemma_whole,
    lemma_whole_in_units, unit, value, SINGLE_PARTS};
use crate::engines::components::{components_cover_foreground, components_of, dilate_bitmap, dilated,
    find_connected_components, foreground, lemma_pixels_are_foreground, Component};
use crate::engines::ocr_region::TextRegion;
use crate::error::{fails, ErrorKind, VisionError};
use crate::ieee::Single;
use crate::imaging::color::{channels_message, cvt_color, exchanged_planes_begin_with_the_last_channel, has_bgr3,
    is_bgr3_of, is_converted, planes, to_bgr3, to_planes, ColorConversion};
use crate::imaging::image::{lemma_byte_has_place, Image, Picture};
use crate::imaging::resize::{can_scale, resize, scaled, scaling_fits, Interpolation};
use crate::magnitude::{is_ordinary, Magnitude};
use crate::rounding::{float_of, is_less, nearest_of, product, quotient, saturated, Precision};
use crate::runtime::base::{is_base_of, opening_error, BaseOnnxEngine, Environment, ModelFile};
use crate::runtime::device_type::DeviceType;
use crate::runtime::runtime_config::{default_config, OnnxRuntimeConfig};
use crate::runtime::session_factory::limit_fits;
use crate::runtime::tensor::TensorOutput;
use crate::sorting::{comes_before, is_stable_order, stable_order};
use crate::text::{decimal, push_decimal, push_shape, shape_text};

verus! {

/// Which side of an image the limit speaks of.
#[derive(Debug, Clone, Copy, PartialEq, Eq, Structural)]
pub enum DetLimitType {
    /// The longer side is brought down to the limit.
    Max,
    /// The shorter side is brought to the limit.
    Min,
}

impl Default for DetLimitType {
    fn default() -> (r: Self)
        ensures
            r == DetLimitType::Max,
    {
        DetLimitType::Max
    }
}

/// The bit pattern of the default threshold of the probability map, 0.3.
pub const DEFAULT_DET_THRESH: u32 = 0x3e99_999a;

/// The bit pattern of the default threshold of a region's score, 0.5.
pub const DEFAULT_BOX_THRESH: u32 = 0x3f00_0000;

/// The bit pattern of the default growth of a region, 2.0.
pub const DEFAULT_UNCLIP_RATIO: u32 = 0x4000_0000;

/// Finds text.
#[derive(Debug)]
pub struct OcrDetector {
    pub base: BaseOnnxEngine,
    /// The limit on a side.
    pub det_limit_side_len: usize,
    /// Which side the limit speaks of.
    pub det_limit_type: DetLimitType,
    /// The probability above which a pixel is text.
    pub det_thresh: Single,
    /// The score below which a region is dropped.
    pub det_box_thresh: Single,
    /// How much a region grows.
    pub det_unclip_ratio: Single,
    /// The shorter side below which a region is dropped.
    pub det_min_size: usize,
    /// How many regions are looked at.
    pub det_max_candidates: usize,
    /// Whether the text pixels are thickened.
    pub det_use_dilation: bool,
}

// ---------------------------------------------------------------------------
// The size of the input
// ---------------------------------------------------------------------------

/// The factor by which an image is scaled.
pub open spec fn limit_ratio(limit: int, kind: DetLimitType, width: int, height: int) -> (int, int) {
    let goal = float_of(limit, Precision::Single);
    match kind {
        DetLimitType::Max => {
            let long_side = float_of(
                if width < height {
                    height
                } else {
                    width
                },
                Precision::Single,
            );
            if is_less(goal, long_side) {
                quotient(goal, long_side, Precision::Single)
            } else {
                float_of(1, Precision::Single)
            }
        },
        DetLimitType::Min => {
            let short_side = float_of(
                if width < height {
                    width
                } else {
                    height
                },
                Precision::Single,
            );
            quotient(goal, short_side, Precision::Single)
        },
    }
}

/// A side scaled by a factor, in steps of 32 pixels.
pub open spec fn steps_of(side: int, ratio: (int, int)) -> int {
    saturated(
        nearest_of(
            quotient(
                product(float_of(side, Precision::Single), ratio, Precision::Single),
                float_of(32, Precision::Single),
                Precision::Single,
            ),
        ),
    )
}

/// A scaled side in pixels, 32 at least.
pub open spec fn input_side(side: int, ratio: (int, int)) -> int {
    if steps_of(side, ratio) < 1 {
        32
    } else {
        steps_of(side, ratio) * 32
    }
}

/// Whether a side of the input is the multiple of 32 nearest to a length, or the smallest
/// that the input can have.
pub open spec fn is_near(side: int, length: int) -> bool {
    side == 32 || -16 <= side - length <= 16
}

/// A side that is scaled by the quotient of a length and itself.
proof fn lemma_limited_side(side: int, length: int)
    requires
        0 < side <= u64::MAX,
        0 < length <= 0x10_0000,
    ensures
        is_near(
            input_side(
                side,
                quotient(float_of(length, Precision::Single), float_of(side, Precision::Single), Precision::Single),
            ),
            length,
        ),
{
    let (goal, whole) = (float_of(length, Precision::Single), float_of(side, Precision::Single));
    let ratio = quotient(goal, whole, Precision::Single);
    lemma_whole(side, Precision::Single);
    lemma_whole(length, Precision::Single);
    lemma_quotient_value(goal, whole, Precision::Single);
    lemma_lesser(ratio, ratio);
    lemma_fitted_value(length, whole, ratio, Precision::Single);
    lemma_nearest_steps(product(whole, ratio, Precision::Single), length);
}

/// The sides of the input are multiples of 32. The side that the limit speaks of is the one
/// nearest to the limit; but a longer side that is within the limit is not enlarged, and is
/// the one nearest to its own length.
pub proof fn limited_side_is_near_the_limit(limit: int, kind: DetLimitType, width: int, height: int)
    requires
        0 < limit <= 0x10_0000,
        0 < width <= u64::MAX,
        0 < height <= u64::MAX,
    ensures
        ({
            let ratio = limit_ratio(limit, kind, width, height);
            let (w, h) = (input_side(width, ratio), input_side(height, ratio));
            &&& w % 32 == 0 && h % 32 == 0
            &&& kind == DetLimitType::Max ==> {
                let (long, side) = if width < height {
                    (height, h)
                } else {
                    (width, w)
                };
                is_near(
                    side,
                    if limit < long {
                        limit
                    } else {
                        long
                    },
                )
            }
            &&& kind == DetLimitType::Min ==> is_near(
                if width < height {
                    w
                } else {
                    h
                },
                limit,
            )
        }),
{
    let (long, short) = if width < height {
        (height, width)
    } else {
        (width, height)
    };
    match kind {
        DetLimitType::Max => {
            let (goal, whole) = (float_of(limit, Precision::Single), float_of(long, Precision::Single));
            lemma_integers_compare(limit, long, Precision::Single);
            if limit < long {
                lemma_limited_side(long, limit);
            } else {
                let one = float_of(1, Precision::Single);
                lemma_scaled_by_one(long, Precision::Single);
                lemma_nearest_steps(product(whole, one, Precision::Single), long);
            }
        },
        DetLimitType::Min => {
            lemma_limited_side(short, limit);
        },
    }
}

/// An integer as a `usize`, if it is one.
pub open spec fn to_usize(n: int) -> Option<usize> {
    if 0 <= n <= usize::MAX {
        Some(n as usize)
    } else {
        None
    }
}

fn scale_side(side: usize, ratio: Magnitude) -> (n: Option<usize>)
    requires
        is_ordinary(ratio@, 400),
    ensures
        n == to_usize(input_side(side as int, ratio@)),
{
    let exact = Magnitude::of(side as u64, Precision::Single).times(ratio, Precision::Single);
    let steps = exact.divided_by(Magnitude::of(32, Precision::Single), Precision::Single).nearest();
    if steps < 1 {
        Some(32)
    } else {
        steps.checked_mul(32)
    }
}

// ---------------------------------------------------------------------------
// The probability map
// ---------------------------------------------------------------------------

/// The text pixels of a probability map.
pub open spec fn binarized(flat: Seq<Single>, count: int, thresh: Single) -> Seq<u8> {
    Seq::new(
        count as nat,
        |i: int|
            if flat[i].greater(thresh) {
                1u8
            } else {
                0u8
            },
    )
}

/// The shorter side of the bounding box of a component.
pub open spec fn shorter_side(c: Component) -> int {
    let (w, h) = (c.max_x - c.min_x + 1, c.max_y - c.min_y + 1);
    if w < h {
        w
    } else {
        h
    }
}

/// The components whose shorter side is not below the minimum, in order.
pub open spec fn large_enough(components: Seq<Component>, min_size: int) -> Seq<Component>
    decreases components.len(),
{
    if components.len() == 0 {
        Seq::empty()
    } else if shorter_side(components.last()) < min_size {
        large_enough(components.drop_last(), min_size)
    } else {
        large_enough(components.drop_last(), min_size).push(components.last())
    }
}

/// The components that are large enough are components.
proof fn lemma_large_of(components: Seq<Component>, min_size: int, i: int) -> (k: int)
    requires
        0 <= i < large_enough(components, min_size).len(),
    ensures
        0 <= k < components.len(),
        components[k] == large_enough(components, min_size)[i],
    decreases components.len(),
{
    let shorter = components.drop_last();
    if i < large_enough(shorter, min_size).len() {
        lemma_large_of(shorter, min_size, i)
    } else {
        components.len() - 1
    }
}

/// The message on what is wrong with a probability map, if anything is.
pub open spec fn map_complaint(output: TensorOutput) -> Option<Seq<char>> {
    if !(output.data is F32) {
        Some("output tensor is not f32"@)
    } else if output.shape.len() != 4 || output.dim(1) != 1 {
        Some("DB det 模型期望 [1,1,H,W] 概率图输出，实际 shape: "@ + shape_text(output.shape@))
    } else if output.values().len() < output.dim(2) * output.dim(3) {
        Some(
            "det 输出元素数 "@ + decimal(output.values().len()) + " < "@ + decimal(output.dim(2) as nat) + "x"@ + decimal(
                output.dim(3) as nat,
            ),
        )
    } else {
        None
    }
}

/// Whether the pixels of a probability map can be counted with 32 bits.
pub open spec fn is_countable(output: TensorOutput) -> bool {
    map_complaint(output) is None ==> output.dim(2) * output.dim(3) <= 0x1_0000_0000
}

/// Whether the pixels of a probability map can be counted with 32 bits.
pub fn can_count(output: &TensorOutput) -> (r: bool)
    requires
        output.wf(),
    ensures
        r == is_countable(*output),
{
    let flat = match output.as_f32() {
        Ok(flat) => flat,
        Err(_) => {
            return true;
        },
    };
    let shape = &output.shape;
    if shape.len() != 4 || shape[1] != 1 {
        return true;
    }
    let (map_h, map_w) = (shape[2] as usize, shape[3] as usize);
    let ghost n = output.dim(2) * output.dim(3);
    assert(map_h * map_w == n && n >= 0) by (nonlinear_arith)
        requires
            map_h == output.dim(2),
            map_w == output.dim(3),
            n == output.dim(2) * output.dim(3),
    ;
    let countable = match map_h.checked_mul(map_w) {
        Some(count) => flat.len() < count || count as u64 <= 0x1_0000_0000,
        None => true,
    };
    assert(countable == (flat.len() < n || n <= 0x1_0000_0000));
    countable
}

/// The regions of connected text pixels of a map.
#[derive(Debug)]
pub struct TextMap {
    pub width: usize,
    pub height: usize,
    pub components: Vec<Component>,
}

/// What is left of a list of outcomes.
pub open spec fn somes(outcomes: Seq<Option<TextRegion>>) -> Seq<TextRegion>
    decreases outcomes.len(),
{
    if outcomes.len() == 0 {
        Seq::empty()
    } else {
        match outcomes.last() {
            Some(region) => somes(outcomes.drop_last()).push(region),
            None => somes(outcomes.drop_last()),
        }
    }
}

/// What is left of a list of outcomes are outcomes.
proof fn lemma_some_of(outcomes: Seq<Option<TextRegion>>, i: int) -> (k: int)
    requires
        0 <= i < somes(outcomes).len(),
    ensures
        0 <= k < outcomes.len(),
        outcomes[k] == Some(somes(outcomes)[i]),
    decreases outcomes.len(),
{
    let shorter = outcomes.drop_last();
    if i < somes(shorter).len() {
        lemma_some_of(shorter, i)
    } else {
        outcomes.len() - 1
    }
}

/// What the place of a component in the image depends on, besides the component.
#[derive(Debug, Clone, Copy, PartialEq, Eq, Structural)]
pub struct MapFrame {
    /// The size of the map.
    pub width: usize,
    pub height: usize,
    /// The size of the image.
    pub image_width: usize,
    pub image_height: usize,
    /// How far a region is grown.
    pub unclip_ratio: Single,
}

/// What the detector calls on its components and regions.
pub struct TextCalls<P, L, K> {
    /// The mean of at least one value.
    pub mean: P,
    /// The corners of a component in the image, if it is not too small there.
    pub locate: L,
    /// The row and the column of the centre of a region.
    pub center: K,
}

impl<
    P: Fn(&Vec<Single>) -> Single,
    L: Fn(&Component, &MapFrame) -> Option<[[Single; 2]; 4]>,
    K: Fn(&TextRegion) -> (Single, Single),
> TextCalls<P, L, K> {
    /// Whether everything can be called.
    pub open spec fn are_callable(self) -> bool {
        &&& forall|values: &Vec<Single>| values.len() > 0 ==> call_requires(self.mean, (values,))
        &&& forall|c: &Component, frame: &MapFrame| call_requires(self.locate, (c, frame))
        &&& forall|region: &TextRegion| call_requires(self.center, (region,))
    }
}

/// The values of a map at the pixels of a component.
pub open spec fn pixel_values(flat: Seq<Single>, pixels: Seq<u32>) -> Seq<Single> {
    Seq::new(pixels.len(), |k: int| flat[pixels[k] as int])
}

/// Whether `s` is the score of a component: the mean of the map over its pixels.
pub open spec fn is_component_score<P: Fn(&Vec<Single>) -> Single>(
    s: Single,
    flat: Vec<Single>,
    c: Component,
    mean: P,
) -> bool {
    exists|values: Vec<Single>| #[trigger]
        call_ensures(mean, (&values,), s) && values@ == pixel_values(flat@, c.pixels@)
}

fn component_score<P: Fn(&Vec<Single>) -> Single>(flat: &Vec<Single>, c: &Component, mean: &P) -> (s: Single)
    requires
        c.pixels.len() > 0,
        forall|k: int| 0 <= k < c.pixels.len() ==> #[trigger] c.pixels[k] < flat.len(),
        forall|values: &Vec<Single>| values.len() > 0 ==> call_requires(*mean, (values,)),
    ensures
        is_component_score(s, *flat, *c, *mean),
{
    let mut values: Vec<Single> = Vec::new();
    let mut k: usize = 0;
    while k < c.pixels.len()
        invariant
            forall|k: int| 0 <= k < c.pixels.len() ==> #[trigger] c.pixels[k] < flat.len(),
            k <= c.pixels.len(),
            values.len() == k,
            forall|j: int| 0 <= j < k ==> #[trigger] values@[j] == flat@[c.pixels@[j] as int],
        decreases c.pixels.len() - k,
    {
        let at: usize = c.pixels[k] as usize;
        values.push(flat[at]);
        k += 1;
    }
    assert(values@ =~= pixel_values(flat@, c.pixels@));
    let s = mean(&values);
    assert(call_ensures(*mean, (&values,), s));
    s
}

/// Whether a component becomes `outcome`: nothing if its score is below the threshold or
/// it has no corners, else the region between its corners.
pub open spec fn is_outcome<
    P: Fn(&Vec<Single>) -> Single,
    L: Fn(&Component, &MapFrame) -> Option<[[Single; 2]; 4]>,
    K: Fn(&TextRegion) -> (Single, Single),
>(
    outcome: Option<TextRegion>,
    flat: Vec<Single>,
    c: Component,
    frame: MapFrame,
    box_thresh: Single,
    calls: TextCalls<P, L, K>,
) -> bool {
    exists|s: Single| #[trigger]
        is_component_score(s, flat, c, calls.mean) && if box_thresh.greater(s) {
            outcome is None
        } else {
            match outcome {
                Some(region) => region.score == s && call_ensures(calls.locate, (&c, &frame), Some(region.quad)),
                None => call_ensures(calls.locate, (&c, &frame), None),
            }
        }
}

/// Whether `outcomes` are what the components become.
pub open spec fn are_outcomes<
    P: Fn(&Vec<Single>) -> Single,
    L: Fn(&Component, &MapFrame) -> Option<[[Single; 2]; 4]>,
    K: Fn(&TextRegion) -> (Single, Single),
>(
    outcomes: Seq<Option<TextRegion>>,
    flat: Vec<Single>,
    components: Seq<Component>,
    frame: MapFrame,
    box_thresh: Single,
    calls: TextCalls<P, L, K>,
) -> bool {
    &&& outcomes.len() == components.len()
    &&& forall|i: int|
        0 <= i < components.len() ==> is_outcome(
            #[trigger] outcomes[i],
            flat,
            components[i],
            frame,
            box_thresh,
            calls,
        )
}

/// Whether `centers` are the centres of the regions, row first.
pub open spec fn are_centers<K: Fn(&TextRegion) -> (Single, Single)>(
    centers: Seq<(Single, Single)>,
    regions: Seq<TextRegion>,
    center: K,
) -> bool {
    &&& centers.len() == regions.len()
    &&& forall|i: int| 0 <= i < regions.len() ==> call_ensures(center, (&regions[i],), #[trigger] centers[i])
}

/// The keys that order regions from top to bottom, and from left to right.
pub open spec fn reading_keys(centers: Seq<(Single, Single)>) -> Seq<(i64, i64)> {
    centers.map_values(|c: (Single, Single)| (c.0.key() as i64, c.1.key() as i64))
}

/// Whether `result` are the regions in reading order.
pub open spec fn in_reading_order<K: Fn(&TextRegion) -> (Single, Single)>(
    result: Seq<TextRegion>,
    regions: Seq<TextRegion>,
    center: K,
) -> bool {
    exists|centers: Seq<(Single, Single)>, order: Seq<usize>|
        #![trigger are_centers(centers, regions, center), is_stable_order(reading_keys(centers), order)]
        are_centers(centers, regions, center) && is_stable_order(reading_keys(centers), order) && result.len()
            == regions.len() && forall|i: int|
            0 <= i < result.len() ==> #[trigger] result[i] == regions[order[i] as int]
}

/// Orders regions from top to bottom, and from left to right, by their centres.
pub fn reading_order<K: Fn(&TextRegion) -> (Single, Single)>(regions: &Vec<TextRegion>, center: &K) -> (result: Vec<
    TextRegion,
>)
    requires
        forall|r: &TextRegion| call_requires(*center, (r,)),
    ensures
        in_reading_order(result@, regions@, *center),
{
    let mut keys: Vec<(i64, i64)> = Vec::new();
    let ghost mut centers: Seq<(Single, Single)> = Seq::empty();
    let mut i: usize = 0;
    while i < regions.len()
        invariant
            forall|r: &TextRegion| call_requires(*center, (r,)),
            i <= regions.len(),
            centers.len() == i,
            forall|k: int| 0 <= k < i ==> call_ensures(*center, (&regions@[k],), #[trigger] centers[k]),
            keys@ == reading_keys(centers),
        decreases regions.len() - i,
    {
        let at = center(&regions[i]);
        keys.push((at.0.order_key(), at.1.order_key()));
        proof {
            centers = centers.push(at);
            assert(keys@ =~= reading_keys(centers));
        }
        i += 1;
    }
    let order = stable_order(&keys);
    let mut result: Vec<TextRegion> = Vec::new();
    let mut i: usize = 0;
    while i < order.len()
        invariant
            i <= order.len(),
            order.len() == regions.len(),
            is_stable_order(reading_keys(centers), order@),
            reading_keys(centers).len() == regions.len(),
            result.len() == i,
            forall|k: int| 0 <= k < i ==> #[trigger] result@[k] == regions@[order@[k] as int],
        decreases order.len() - i,
    {
        result.push(regions[order[i]]);
        i += 1;
    }
    proof {
        assert(are_centers(centers, regions@, *center));
    }
    result
}

impl OcrDetector {
    /// Whether an engine is opened with the default parameters.
    pub open spec fn is_opened(
        r: Result<OcrDetector, VisionError>,
        model: ModelFile,
        device: DeviceType,
        config: OnnxRuntimeConfig,
        env: Environment,
    ) -> bool {
        match opening_error(model, config) {
            Some((error, message)) => fails(r, error, message),
            None => {
                &&& r is Ok
                &&& is_base_of(r->Ok_0.base, model, device, 960, 960, config, env)
                &&& r->Ok_0.det_limit_side_len == 960
                &&& r->Ok_0.det_limit_type is Max
                &&& r->Ok_0.det_thresh.bits == DEFAULT_DET_THRESH
                &&& r->Ok_0.det_box_thresh.bits == DEFAULT_BOX_THRESH
                &&& r->Ok_0.det_unclip_ratio.bits == DEFAULT_UNCLIP_RATIO
                &&& r->Ok_0.det_min_size == 3
                &&& r->Ok_0.det_max_candidates == 1000
                &&& !r->Ok_0.det_use_dilation
            },
        }
    }

    /// Opens a detector.
    pub fn new(model: &ModelFile, device_type: DeviceType, env: &Environment) -> (r: Result<OcrDetector, VisionError>)
        requires
            limit_fits(device_type, default_config(env.limit), env.enabled),
        ensures
            OcrDetector::is_opened(r, *model, device_type, default_config(env.limit), *env),
    {
        OcrDetector::with_config(model, device_type, OnnxRuntimeConfig::defaults(&env.limit), env)
    }

    /// Opens a detector.
    pub fn with_config(
        model: &ModelFile,
        device_type: DeviceType,
        runtime_config: OnnxRuntimeConfig,
        env: &Environment,
    ) -> (r: Result<OcrDetector, VisionError>)
        requires
            limit_fits(device_type, runtime_config, env.enabled),
        ensures
            OcrDetector::is_opened(r, *model, device_type, runtime_config, *env),
    {
        let base = match BaseOnnxEngine::with_config(model, device_type, 960, 960, runtime_config, env) {
            Ok(base) => base,
            Err(e) => {
                return Err(e);
            },
        };
        Ok(
            OcrDetector {
                base,
                det_limit_side_len: 960,
                det_limit_type: DetLimitType::Max,
                det_thresh: Single { bits: DEFAULT_DET_THRESH },
                det_box_thresh: Single { bits: DEFAULT_BOX_THRESH },
                det_unclip_ratio: Single { bits: DEFAULT_UNCLIP_RATIO },
                det_min_size: 3,
                det_max_candidates: 1000,
                det_use_dilation: false,
            },
        )
    }

    /// The probability above which a pixel is text.
    pub fn det_thresh(&self) -> (r: Single)
        ensures
            r == self.det_thresh,
    {
        self.det_thresh
    }

    /// Sets the probability above which a pixel is text.
    pub fn set_det_thresh(&mut self, thresh: Single)
        ensures
            *final(self) == (OcrDetector { det_thresh: thresh, ..*old(self) }),
    {
        self.det_thresh = thresh;
    }

    /// The score below which a region is dropped.
    pub fn box_thresh(&self) -> (r: Single)
        ensures
            r == self.det_box_thresh,
    {
        self.det_box_thresh
    }

    /// Sets the score below which a region is dropped.
    pub fn set_box_thresh(&mut self, thresh: Single)
        ensures
            *final(self) == (OcrDetector { det_box_thresh: thresh, ..*old(self) }),
    {
        self.det_box_thresh = thresh;
    }

    /// How much a region grows.
    pub fn unclip_ratio(&self) -> (r: Single)
        ensures
            r == self.det_unclip_ratio,
    {
        self.det_unclip_ratio
    }

    /// Sets how much a region grows.
    pub fn set_unclip_ratio(&mut self, ratio: Single)
        ensures
            *final(self) == (OcrDetector { det_unclip_ratio: ratio, ..*old(self) }),
    {
        self.det_unclip_ratio = ratio;
    }

    /// The limit on a side.
    pub fn limit_side_len(&self) -> (r: usize)
        ensures
            r == self.det_limit_side_len,
    {
        self.det_limit_side_len
    }

    /// Sets the limit on a side.
    pub fn set_limit_side_len(&mut self, side_len: usize)
        ensures
            *final(self) == (OcrDetector { det_limit_side_len: side_len, ..*old(self) }),
    {
        self.det_limit_side_len = side_len;
    }

    /// Which side the limit speaks of.
    pub fn limit_type(&self) -> (r: DetLimitType)
        ensures
            r == self.det_limit_type,
    {
        self.det_limit_type
    }

    /// Sets which side the limit speaks of.
    pub fn set_limit_type(&mut self, limit_type: DetLimitType)
        ensures
            *final(self) == (OcrDetector { det_limit_type: limit_type, ..*old(self) }),
    {
        self.det_limit_type = limit_type;
    }

    /// Whether the text pixels are thickened.
    pub fn use_dilation(&self) -> (r: bool)
        ensures
            r == self.det_use_dilation,
    {
        self.det_use_dilation
    }

    /// Sets whether the text pixels are thickened.
    pub fn set_use_dilation(&mut self, use_dilation: bool)
        ensures
            *final(self) == (OcrDetector { det_use_dilation: use_dilation, ..*old(self) }),
    {
        self.det_use_dilation = use_dilation;
    }

    /// How many regions are looked at.
    pub fn max_candidates(&self) -> (r: usize)
        ensures
            r == self.det_max_candidates,
    {
        self.det_max_candidates
    }

    /// Sets how many regions are looked at.
    pub fn set_max_candidates(&mut self, max_candidates: usize)
        ensures
            *final(self) == (OcrDetector { det_max_candidates: max_candidates, ..*old(self) }),
    {
        self.det_max_candidates = max_candidates;
    }

    /// The factor by which an image is scaled.
    pub open spec fn ratio(self, width: int, height: int) -> (int, int) {
        limit_ratio(self.det_limit_side_len as int, self.det_limit_type, width, height)
    }

    /// The width of the input for an image.
    pub open spec fn input_width(self, width: int, height: int) -> int {
        input_side(width, self.ratio(width, height))
    }

    /// The height of the input for an image.
    pub open spec fn input_height(self, width: int, height: int) -> int {
        input_side(height, self.ratio(width, height))
    }

    /// Whether an image can be scaled to the input.
    pub open spec fn fits(self, p: Picture) -> bool {
        let (width, height) = (self.input_width(p.width, p.height), self.input_height(p.width, p.height));
        &&& p.width * p.height * 3 <= usize::MAX
        &&& width <= usize::MAX
        &&& height <= usize::MAX
        &&& scaling_fits(p.width, p.height, 3, width, height)
    }

    /// The width and the height of the input for an image, as far as they can be counted.
    pub fn input_size_for(&self, width: usize, height: usize) -> (r: (Option<usize>, Option<usize>))
        requires
            width > 0,
            height > 0,
        ensures
            r.0 == to_usize(self.input_width(width as int, height as int)),
            r.1 == to_usize(self.input_height(width as int, height as int)),
    {
        let goal = Magnitude::of(self.det_limit_side_len as u64, Precision::Single);
        let (short, long) = if width < height {
            (width, height)
        } else {
            (height, width)
        };
        let ratio = match self.det_limit_type {
            DetLimitType::Max => {
                let long_side = Magnitude::of(long as u64, Precision::Single);
                if goal.less_than(long_side) {
                    goal.divided_by(long_side, Precision::Single)
                } else {
                    Magnitude::of(1, Precision::Single)
                }
            },
            DetLimitType::Min => goal.divided_by(Magnitude::of(short as u64, Precision::Single), Precision::Single),
        };
        (scale_side(width, ratio), scale_side(height, ratio))
    }

    /// Whether an image can be scaled to the input.
    pub fn can_preprocess(&self, image: &Image) -> (r: bool)
        requires
            image@.width > 0,
            image@.height > 0,
        ensures
            r == self.fits(image@),
    {
        let (w, h) = (image.width(), image.height());
        match self.input_size_for(w, h) {
            (Some(width), Some(height)) => {
                if !can_scale(w, h, 3, width, height) {
                    return false;
                }
                assert(0 <= w * h <= 0xffff_ffff * 0xffff_ffff) by (nonlinear_arith)
                    requires
                        0 <= w <= 0xffff_ffff,
                        0 <= h <= 0xffff_ffff,
                ;
                (w as u128) * (h as u128) * 3 <= usize::MAX as u128
            },
            _ => false,
        }
    }

    /// Whether `input` is the input for an image.
    pub open spec fn is_input(self, input: Seq<u8>, image: Picture) -> bool {
        let (width, height) = (
            self.input_width(image.width, image.height),
            self.input_height(image.width, image.height),
        );
        exists|bgr: Picture, rgb: Picture| #[trigger]
            is_bgr3_of(bgr, image) && #[trigger] is_converted(
                rgb,
                scaled(bgr, width, height, Interpolation::Linear),
                ColorConversion::Bgr2Rgb,
            ) && input == planes(rgb)
    }

    /// The input for an image, and its width and height.
    pub fn preprocess(&self, image: &Image) -> (r: Result<(Vec<u8>, usize, usize), VisionError>)
        requires
            image.wf(),
            image@.data.len() > 0,
            self.fits(image@),
        ensures
            !has_bgr3(image@) ==> fails(r, ErrorKind::Image, channels_message(image@.channels)),
            has_bgr3(image@) ==> r is Ok && self.is_input(r->Ok_0.0@, image@) && r->Ok_0.1 == self.input_width(
                image@.width,
                image@.height,
            ) && r->Ok_0.2 == self.input_height(image@.width, image@.height),
    {
        proof {
            let _ = lemma_byte_has_place(image@, 0);
        }
        let (width, height) = match self.input_size_for(image.width(), image.height()) {
            (Some(width), Some(height)) => (width, height),
            _ => (0, 0),
        };
        let bgr = match to_bgr3(image) {
            Ok(bgr) => bgr,
            Err(e) => {
                return Err(e);
            },
        };
        proof {
            assert(image@.width * image@.height > 0) by (nonlinear_arith)
                requires
                    image@.width > 0,
                    image@.height > 0,
            ;
        }
        let resized = match resize(&bgr, width, height, Interpolation::Linear) {
            Ok(resized) => resized,
            Err(e) => {
                return Err(e);
            },
        };
        let rgb = match cvt_color(&resized, ColorConversion::Bgr2Rgb) {
            Ok(rgb) => rgb,
            Err(e) => {
                return Err(e);
            },
        };
        Ok((to_planes(&rgb), width, height))
    }

    /// The text pixels of a map.
    pub open spec fn bitmap(self, output: TensorOutput) -> Seq<u8> {
        let count = output.dim(2) * output.dim(3);
        let bits = binarized(output.values(), count, self.det_thresh);
        if self.det_use_dilation {
            dilated(bits, output.dim(3), output.dim(2))
        } else {
            bits
        }
    }

    /// Whether the components are those of a map that are looked at: the first ones, and
    /// of them those that are large enough.
    pub open spec fn is_text_map(self, map: TextMap, output: TensorOutput) -> bool {
        &&& map.width == output.dim(3)
        &&& map.height == output.dim(2)
        &&& exists|all: Seq<Component>| #[trigger]
            components_of(all, self.bitmap(output), output.dim(3), true) && map.components@ == large_enough(
                all.take(
                    if all.len() < self.det_max_candidates {
                        all.len() as int
                    } else {
                        self.det_max_candidates as int
                    },
                ),
                self.det_min_size as int,
            )
    }

    /// The regions of connected text pixels of a probability map.
    pub fn find_components(&self, output: &TensorOutput) -> (r: Result<TextMap, VisionError>)
        requires
            output.wf(),
            is_countable(*output),
        ensures
            map_complaint(*output) is Some ==> fails(r, ErrorKind::Inference, map_complaint(*output)->0),
            map_complaint(*output) is None ==> r is Ok && self.is_text_map(r->Ok_0, *output),
    {
        let flat = match output.as_f32() {
            Ok(flat) => flat,
            Err(e) => {
                return Err(e);
            },
        };
        let shape = &output.shape;
        if shape.len() != 4 || shape[1] != 1 {
            let mut message = String::from_str("DB det 模型期望 [1,1,H,W] 概率图输出，实际 shape: ");
            push_shape(&mut message, shape);
            return Err(VisionError::inference(message));
        }
        let (map_h, map_w) = (shape[2] as usize, shape[3] as usize);
        let enough = match map_h.checked_mul(map_w) {
            Some(count) => flat.len() >= count,
            None => false,
        };
        if !enough {
            let mut message = String::from_str("det 输出元素数 ");
            push_decimal(&mut message, flat.len() as u64);
            message.append(" < ");
            push_decimal(&mut message, map_h as u64);
            message.append("x");
            push_decimal(&mut message, map_w as u64);
            return Err(VisionError::inference(message));
        }
        let count = map_h * map_w;
        assert(map_h * map_w == map_w * map_h) by (nonlinear_arith);
        let mut bitmap: Vec<u8> = Vec::new();
        let mut i: usize = 0;
        while i < count
            invariant
                i <= count <= flat.len(),
                bitmap.len() == i,
                forall|k: int|
                    0 <= k < i ==> #[trigger] bitmap@[k] == if flat@[k].greater(self.det_thresh) {
                        1u8
                    } else {
                        0u8
                    },
            decreases count - i,
        {
            bitmap.push(
                if flat[i].gt(self.det_thresh) {
                    1
                } else {
                    0
                },
            );
            i += 1;
        }
        assert(bitmap@ =~= binarized(flat@, count as int, self.det_thresh));
        if self.det_use_dilation {
            dilate_bitmap(&mut bitmap, map_w, map_h);
        }
        assert(bitmap@ == self.bitmap(*output));
        let all = find_connected_components(bitmap.as_slice(), map_w, map_h, true);
        let limit: usize = if all.len() < self.det_max_candidates {
            all.len()
        } else {
            self.det_max_candidates
        };
        let components = self.keep_large(all, limit, Ghost(bitmap@), Ghost(map_w as int));
        Ok(TextMap { width: map_w, height: map_h, components })
    }

    /// The text pixels of a map have values.
    proof fn lemma_bitmap_has_values(self, output: TensorOutput)
        requires
            output.wf(),
            map_complaint(output) is None,
        ensures
            self.bitmap(output).len() <= output.values().len(),
    {
        assert(0 <= output.shape[2] && 0 <= output.shape[3]);
        let (height, width) = (output.dim(2), output.dim(3));
        assert(height * width >= 0) by (nonlinear_arith)
            requires
                height >= 0,
                width >= 0,
        ;
    }

    /// A component of a map is one of its text pixels.
    proof fn lemma_text_component(self, map: TextMap, output: TensorOutput, i: int)
        requires
            self.is_text_map(map, output),
            0 <= i < map.components.len(),
        ensures
            map.components@[i].is_component_of(self.bitmap(output), output.dim(3), true),
    {
        let all = choose|all: Seq<Component>| #[trigger]
            components_of(all, self.bitmap(output), output.dim(3), true) && map.components@ == large_enough(
                all.take(
                    if all.len() < self.det_max_candidates {
                        all.len() as int
                    } else {
                        self.det_max_candidates as int
                    },
                ),
                self.det_min_size as int,
            );
        let first = all.take(
            if all.len() < self.det_max_candidates {
                all.len() as int
            } else {
                self.det_max_candidates as int
            },
        );
        let j = lemma_large_of(first, self.det_min_size as int, i);
        assert(all[j] == map.components@[i]);
    }

    /// A component of a map has pixels, and they lie in the map.
    proof fn lemma_pixels_inside(self, map: TextMap, output: TensorOutput, i: int)
        requires
            output.wf(),
            map_complaint(output) is None,
            self.is_text_map(map, output),
            0 <= i < map.components.len(),
        ensures
            map.components@[i].pixels.len() > 0,
            forall|k: int|
                0 <= k < map.components@[i].pixels.len() ==> #[trigger] map.components@[i].pixels[k]
                    < output.values().len(),
    {
        self.lemma_text_component(map, output, i);
        self.lemma_bitmap_has_values(output);
        lemma_pixels_are_foreground(map.components@[i], self.bitmap(output), output.dim(3), true);
    }

    /// Keeps the components that are large enough, of the first `limit` ones.
    fn keep_large(
        &self,
        all: Vec<Component>,
        limit: usize,
        Ghost(bitmap): Ghost<Seq<u8>>,
        Ghost(width): Ghost<int>,
    ) -> (kept: Vec<Component>)
        requires
            limit <= all.len(),
            components_of(all@, bitmap, width, true),
        ensures
            kept@ == large_enough(all@.take(limit as int), self.det_min_size as int),
    {
        let ghost whole = all@;
        let mut rest = all;
        let mut kept: Vec<Component> = Vec::new();
        let mut i: usize = 0;
        while i < limit
            invariant
                i <= limit <= whole.len(),
                components_of(whole, bitmap, width, true),
                rest.len() == whole.len(),
                forall|k: int| i <= k < whole.len() ==> #[trigger] rest@[k] == whole[k],
                kept@ == large_enough(whole.take(i as int), self.det_min_size as int),
            decreases limit - i,
        {
            let mut component = Component { pixels: Vec::new(), min_x: 0, min_y: 0, max_x: 0, max_y: 0 };
            let ghost c = whole[i as int];
            assert(rest@[i as int] == c);
            assert(c.is_component_of(bitmap, width, true));
            std::mem::swap(&mut rest[i], &mut component);
            assert(component == c);
            proof {
                assert(whole.take(i + 1).drop_last() =~= whole.take(i as int));
                assert(whole.take(i + 1).last() == c);
            }
            let w: usize = component.max_x - component.min_x;
            let h: usize = component.max_y - component.min_y;
            let side: usize = if w < h {
                w
            } else {
                h
            };
            if !(self.det_min_size > 0 && side < self.det_min_size - 1) {
                kept.push(component);
            }
            i += 1;
        }
        kept
    }

    /// What the places of components depend on.
    pub open spec fn frame(self, output: TensorOutput, image_width: usize, image_height: usize) -> MapFrame {
        MapFrame {
            width: output.dim(3) as usize,
            height: output.dim(2) as usize,
            image_width,
            image_height,
            unclip_ratio: self.det_unclip_ratio,
        }
    }

    /// Whether `result` are the text regions of a probability map of an image.
    pub open spec fn are_regions<
        P: Fn(&Vec<Single>) -> Single,
        L: Fn(&Component, &MapFrame) -> Option<[[Single; 2]; 4]>,
        K: Fn(&TextRegion) -> (Single, Single),
    >(
        self,
        result: Seq<TextRegion>,
        output: TensorOutput,
        image_width: usize,
        image_height: usize,
        calls: TextCalls<P, L, K>,
    ) -> bool {
        exists|map: TextMap, outcomes: Seq<Option<TextRegion>>|
            #![trigger self.is_text_map(map, output), somes(outcomes)]
            {
                &&& self.is_text_map(map, output)
                &&& are_outcomes(
                    outcomes,
                    output.data->F32_0,
                    map.components@,
                    self.frame(output, image_width, image_height),
                    self.det_box_thresh,
                    calls,
                )
                &&& in_reading_order(result, somes(outcomes), calls.center)
            }
    }

    /// No region that is found has a score below the threshold for regions.
    pub proof fn found_regions_are_sure<
        P: Fn(&Vec<Single>) -> Single,
        L: Fn(&Component, &MapFrame) -> Option<[[Single; 2]; 4]>,
        K: Fn(&TextRegion) -> (Single, Single),
    >(
        self,
        result: Seq<TextRegion>,
        output: TensorOutput,
        image_width: usize,
        image_height: usize,
        calls: TextCalls<P, L, K>,
        i: int,
    )
        requires
            self.are_regions(result, output, image_width, image_height, calls),
            0 <= i < result.len(),
        ensures
            !self.det_box_thresh.greater(result[i].score),
    {
        let frame = self.frame(output, image_width, image_height);
        let (map, outcomes) = choose|map: TextMap, outcomes: Seq<Option<TextRegion>>|
            #![trigger self.is_text_map(map, output), somes(outcomes)]
            {
                &&& self.is_text_map(map, output)
                &&& are_outcomes(outcomes, output.data->F32_0, map.components@, frame, self.det_box_thresh, calls)
                &&& in_reading_order(result, somes(outcomes), calls.center)
            };
        let (centers, order) = choose|centers: Seq<(Single, Single)>, order: Seq<usize>|
            #![trigger are_centers(centers, somes(outcomes), calls.center), is_stable_order(reading_keys(centers), order)]
            are_centers(centers, somes(outcomes), calls.center) && is_stable_order(reading_keys(centers), order)
                && result.len() == somes(outcomes).len() && forall|i: int|
                0 <= i < result.len() ==> #[trigger] result[i] == somes(outcomes)[order[i] as int];
        assert(result[i] == somes(outcomes)[order[i] as int]);
        let k = lemma_some_of(outcomes, order[i] as int);
        assert(is_outcome(outcomes[k], output.data->F32_0, map.components@[k], frame, self.det_box_thresh, calls));
    }

    /// The text regions of a probability map in reading order, placed in an image of the
    /// given size.
    pub fn postprocess<
        P: Fn(&Vec<Single>) -> Single,
        L: Fn(&Component, &MapFrame) -> Option<[[Single; 2]; 4]>,
        K: Fn(&TextRegion) -> (Single, Single),
    >(&self, output: &TensorOutput, image_width: usize, image_height: usize, calls: &TextCalls<P, L, K>) -> (r: Result<
        Vec<TextRegion>,
        VisionError,
    >)
        requires
            output.wf(),
            is_countable(*output),
            calls.are_callable(),
        ensures
            map_complaint(*output) is Some ==> fails(r, ErrorKind::Inference, map_complaint(*output)->0),
            map_complaint(*output) is None ==> r is Ok && self.are_regions(
                r->Ok_0@,
                *output,
                image_width,
                image_height,
                *calls,
            ),
    {
        let map = match self.find_components(output) {
            Ok(map) => map,
            Err(e) => {
                return Err(e);
            },
        };
        let flat = match output.as_f32() {
            Ok(flat) => flat,
            Err(e) => {
                return Err(e);
            },
        };
        let frame = MapFrame {
            width: map.width,
            height: map.height,
            image_width,
            image_height,
            unclip_ratio: self.det_unclip_ratio,
        };
        let mut regions: Vec<TextRegion> = Vec::new();
        let ghost mut outcomes: Seq<Option<TextRegion>> = Seq::empty();
        let mut i: usize = 0;
        while i < map.components.len()
            invariant
                calls.are_callable(),
                output.wf(),
                map_complaint(*output) is None,
                *flat == output.data->F32_0,
                self.is_text_map(map, *output),
                i <= map.components.len(),
                outcomes.len() == i,
                regions@ == somes(outcomes),
                forall|k: int|
                    0 <= k < i ==> is_outcome(
                        #[trigger] outcomes[k],
                        *flat,
                        map.components@[k],
                        frame,
                        self.det_box_thresh,
                        *calls,
                    ),
            decreases map.components.len() - i,
        {
            let c = &map.components[i];
            proof {
                self.lemma_pixels_inside(map, *output, i as int);
            }
            let s = component_score(flat, c, &calls.mean);
            let outcome = if s.lt(self.det_box_thresh) {
                None
            } else {
                match (calls.locate)(c, &frame) {
                    Some(quad) => Some(TextRegion { quad, score: s }),
                    None => None,
                }
            };
            proof {
                assert(is_component_score(s, *flat, *c, calls.mean));
                assert(is_outcome(outcome, *flat, *c, frame, self.det_box_thresh, *calls));
                let longer = outcomes.push(outcome);
                assert(longer.drop_last() =~= outcomes);
                outcomes = longer;
            }
            if let Some(region) = outcome {
                regions.push(region);
            }
            i += 1;
        }
        let result = reading_order(&regions, &calls.center);
        proof {
            assert(self.is_text_map(map, *output));
            assert(frame == self.frame(*output, image_width, image_height));
            assert(are_outcomes(outcomes, output.data->F32_0, map.components@, frame, self.det_box_thresh, *calls));
            assert(self.are_regions(result@, *output, image_width, image_height, *calls));
        }
        Ok(result)
    }

    /// What finding text in an image of the given size gives, if the model answers `reply`.
    pub open spec fn is_answer<
        P: Fn(&Vec<Single>) -> Single,
        L: Fn(&Component, &MapFrame) -> Option<[[Single; 2]; 4]>,
        K: Fn(&TextRegion) -> (Single, Single),
    >(
        self,
        r: Result<Vec<TextRegion>, VisionError>,
        reply: Result<TensorOutput, VisionError>,
        image_width: usize,
        image_height: usize,
        calls: TextCalls<P, L, K>,
    ) -> bool {
        match reply {
            Err(e) => r is Err && r->Err_0 == e,
            Ok(output) => if map_complaint(output) is Some {
                fails(r, ErrorKind::Inference, map_complaint(output)->0)
            } else {
                r is Ok && self.are_regions(r->Ok_0@, output, image_width, image_height, calls)
            },
        }
    }

    /// What finding text in an image gives.
    pub open spec fn is_detection<
        I: Fn(&Vec<u8>, usize, usize) -> Result<TensorOutput, VisionError>,
        P: Fn(&Vec<Single>) -> Single,
        L: Fn(&Component, &MapFrame) -> Option<[[Single; 2]; 4]>,
        K: Fn(&TextRegion) -> (Single, Single),
    >(
        self,
        r: Result<Vec<TextRegion>, VisionError>,
        image: Picture,
        infer: I,
        calls: TextCalls<P, L, K>,
    ) -> bool {
        if image.data.len() == 0 {
            fails(r, ErrorKind::Image, "cannot detect on empty image"@)
        } else if !has_bgr3(image) {
            fails(r, ErrorKind::Image, channels_message(image.channels))
        } else {
            exists|input: Vec<u8>, reply: Result<TensorOutput, VisionError>|
                self.is_input(input@, image) && #[trigger] call_ensures(
                    infer,
                    (
                        &input,
                        self.input_width(image.width, image.height) as usize,
                        self.input_height(image.width, image.height) as usize,
                    ),
                    reply,
                ) && self.is_answer(r, reply, image.width as usize, image.height as usize, calls)
        }
    }

    /// Finds text in an image, in reading order. `infer` runs the model on an input of the
    /// given width and height.
    pub fn detect<
        I: Fn(&Vec<u8>, usize, usize) -> Result<TensorOutput, VisionError>,
        P: Fn(&Vec<Single>) -> Single,
        L: Fn(&Component, &MapFrame) -> Option<[[Single; 2]; 4]>,
        K: Fn(&TextRegion) -> (Single, Single),
    >(&self, image: &Image, infer: &I, calls: &TextCalls<P, L, K>) -> (r: Result<Vec<TextRegion>, VisionError>)
        requires
            image.wf(),
            image@.data.len() > 0 ==> self.fits(image@),
            forall|input: &Vec<u8>, w: usize, h: usize| call_requires(*infer, (input, w, h)),
            forall|input: &Vec<u8>, w: usize, h: usize, reply: Result<TensorOutput, VisionError>|
                call_ensures(*infer, (input, w, h), reply) ==> is_good_map(reply),
            calls.are_callable(),
        ensures
            self.is_detection(r, image@, *infer, *calls),
    {
        if image.is_empty() {
            return Err(VisionError::image(String::from_str("cannot detect on empty image")));
        }
        let (input, width, height) = match self.preprocess(image) {
            Ok(prepared) => prepared,
            Err(e) => {
                return Err(e);
            },
        };
        let reply = infer(&input, width, height);
        let ghost answered = reply;
        assert(call_ensures(*infer, (&input, width, height), answered));
        assert(width == self.input_width(image@.width, image@.height) as usize);
        assert(height == self.input_height(image@.width, image@.height) as usize);
        let result = match reply {
            Ok(output) => self.postprocess(&output, image.width(), image.height(), calls),
            Err(e) => Err(e),
        };
        assert(self.is_answer(result, answered, image@.width as usize, image@.height as usize, *calls));
        result
    }
}

/// Of two regions in reading order, the first has its centre above that of the second, or
/// in the same row and not further right.
pub proof fn regions_read_top_down<K: Fn(&TextRegion) -> (Single, Single)>(
    result: Seq<TextRegion>,
    regions: Seq<TextRegion>,
    center: K,
    i: int,
    j: int,
)
    requires
        in_reading_order(result, regions, center),
        0 <= i < j < result.len(),
    ensures
        exists|a: (Single, Single), b: (Single, Single)| #[trigger]
            call_ensures(center, (&result[i],), a) && #[trigger] call_ensures(center, (&result[j],), b) && (a.0.key()
                < b.0.key() || a.0.key() == b.0.key() && a.1.key() <= b.1.key()),
{
    let (centers, order) = choose|centers: Seq<(Single, Single)>, order: Seq<usize>|
        #![trigger are_centers(centers, regions, center), is_stable_order(reading_keys(centers), order)]
        are_centers(centers, regions, center) && is_stable_order(reading_keys(centers), order) && result.len()
            == regions.len() && forall|i: int|
            0 <= i < result.len() ==> #[trigger] result[i] == regions[order[i] as int];
    let keys = reading_keys(centers);
    let (p, q) = (order[i] as int, order[j] as int);
    assert(comes_before(keys, p, q));
    assert(result[i] == regions[p] && result[j] == regions[q]);
    assert(keys[p] == (centers[p].0.key() as i64, centers[p].1.key() as i64));
    assert(keys[q] == (centers[q].0.key() as i64, centers[q].1.key() as i64));
    assert(call_ensures(center, (&regions[p],), centers[p]));
    assert(call_ensures(center, (&regions[q],), centers[q]));
}

/// Whether a reply of the detector is well formed and its pixels can be counted.
pub open spec fn is_good_map(reply: Result<TensorOutput, VisionError>) -> bool {
    reply is Ok ==> reply->Ok_0.wf() && is_countable(reply->Ok_0)
}

/// What is left of a list of outcomes are the regions among them, each once and in order: they
/// stand at the places that are returned, and no other outcome is a region.
pub proof fn regions_are_those_of_the_outcomes(outcomes: Seq<Option<TextRegion>>) -> (at: Seq<int>)
    ensures
        at.len() == somes(outcomes).len(),
        forall|k: int|
            0 <= k < at.len() ==> 0 <= #[trigger] at[k] < outcomes.len() && outcomes[at[k]] == Some(
                somes(outcomes)[k],
            ),
        forall|i: int, j: int| 0 <= i < j < at.len() ==> #[trigger] at[i] < #[trigger] at[j],
        forall|i: int| 0 <= i < outcomes.len() && #[trigger] outcomes[i] is Some ==> at.contains(i),
    decreases outcomes.len(),
{
    if outcomes.len() == 0 {
        Seq::empty()
    } else {
        let shorter = outcomes.drop_last();
        let last = outcomes.len() - 1;
        let before = regions_are_those_of_the_outcomes(shorter);
        let at = if outcomes.last() is Some {
            before.push(last)
        } else {
            before
        };
        assert forall|k: int| 0 <= k < at.len() implies 0 <= #[trigger] at[k] < outcomes.len() && outcomes[at[k]]
            == Some(somes(outcomes)[k]) by {
            if k < before.len() {
                assert(at[k] == before[k]);
                assert(shorter[before[k]] == outcomes[before[k]]);
            }
        }
        assert forall|i: int, j: int| 0 <= i < j < at.len() implies #[trigger] at[i] < #[trigger] at[j] by {
            assert(at[i] == before[i]);
            if j < before.len() {
                assert(at[j] == before[j]);
            }
        }
        assert forall|i: int| 0 <= i < outcomes.len() && #[trigger] outcomes[i] is Some implies at.contains(i) by {
            if i < last {
                assert(shorter[i] == outcomes[i]);
                assert(before.contains(i));
                let k = choose|k: int| 0 <= k < before.len() && before[k] == i;
                assert(at[k] == i);
            } else {
                assert(at[before.len() as int] == i);
            }
        }
        at
    }
}

/// The components that are large enough are those whose box is at least so wide and at least so
/// high, each once and in order.
pub proof fn large_components_are_wide_and_high(components: Seq<Component>, min_size: int) -> (at: Seq<int>)
    ensures
        at.len() == large_enough(components, min_size).len(),
        forall|k: int|
            0 <= k < at.len() ==> {
                &&& 0 <= #[trigger] at[k] < components.len()
                &&& components[at[k]] == large_enough(components, min_size)[k]
                &&& components[at[k]].max_x - components[at[k]].min_x + 1 >= min_size
                &&& components[at[k]].max_y - components[at[k]].min_y + 1 >= min_size
            },
        forall|i: int, j: int| 0 <= i < j < at.len() ==> #[trigger] at[i] < #[trigger] at[j],
        forall|i: int|
            0 <= i < components.len() && (#[trigger] components[i]).max_x - components[i].min_x + 1 >= min_size
                && components[i].max_y - components[i].min_y + 1 >= min_size ==> at.contains(i),
    decreases components.len(),
{
    if components.len() == 0 {
        Seq::empty()
    } else {
        let shorter = components.drop_last();
        let last = components.len() - 1;
        let c = components.last();
        let before = large_components_are_wide_and_high(shorter, min_size);
        let at = if c.max_x - c.min_x + 1 >= min_size && c.max_y - c.min_y + 1 >= min_size {
            before.push(last)
        } else {
            before
        };
        assert forall|k: int| 0 <= k < at.len() implies {
            &&& 0 <= #[trigger] at[k] < components.len()
            &&& components[at[k]] == large_enough(components, min_size)[k]
            &&& components[at[k]].max_x - components[at[k]].min_x + 1 >= min_size
            &&& components[at[k]].max_y - components[at[k]].min_y + 1 >= min_size
        } by {
            if k < before.len() {
                assert(at[k] == before[k]);
                assert(shorter[before[k]] == components[before[k]]);
            }
        }
        assert forall|i: int, j: int| 0 <= i < j < at.len() implies #[trigger] at[i] < #[trigger] at[j] by {
            assert(at[i] == before[i]);
            if j < before.len() {
                assert(at[j] == before[j]);
            }
        }
        assert forall|i: int|
            0 <= i < components.len() && (#[trigger] components[i]).max_x - components[i].min_x + 1 >= min_size
                && components[i].max_y - components[i].min_y + 1 >= min_size implies at.contains(i) by {
            if i < last {
                assert(shorter[i] == components[i]);
                assert(before.contains(i));
                let k = choose|k: int| 0 <= k < before.len() && before[k] == i;
                assert(at[k] == i);
            } else {
                assert(at[before.len() as int] == i);
            }
        }
        at
    }
}

/// Reading order holds every region, and nothing else.
pub proof fn reading_order_keeps_all_regions<K: Fn(&TextRegion) -> (Single, Single)>(
    result: Seq<TextRegion>,
    regions: Seq<TextRegion>,
    center: K,
    r: TextRegion,
)
    requires
        in_reading_order(result, regions, center),
        regions.len() <= usize::MAX,
    ensures
        result.len() == regions.len(),
        result.contains(r) <==> regions.contains(r),
{
    let (centers, order) = choose|centers: Seq<(Single, Single)>, order: Seq<usize>|
        #![trigger are_centers(centers, regions, center), is_stable_order(reading_keys(centers), order)]
        are_centers(centers, regions, center) && is_stable_order(reading_keys(centers), order) && result.len()
            == regions.len() && forall|i: int|
            0 <= i < result.len() ==> #[trigger] result[i] == regions[order[i] as int];
    let keys = reading_keys(centers);
    if result.contains(r) {
        let i = choose|i: int| 0 <= i < result.len() && result[i] == r;
        assert(regions[order[i] as int] == r);
    }
    if regions.contains(r) {
        let p = choose|p: int| 0 <= p < regions.len() && regions[p] == r;
        assert(order.contains(p as usize));
        let i = choose|i: int| 0 <= i < order.len() && order[i] == p as usize;
        assert(result[i] == regions[order[i] as int]);
    }
}

impl OcrDetector {
    /// Each region that is found is that of a component: its score is the mean of the values that
    /// the map has at the pixels of the component, one for each; its corners are those that the
    /// component is given for the size of the map and of the image; the component is at least as
    /// wide and as high as it must be; and without dilation all its values are above the threshold.
    pub proof fn found_regions_are_those_of_components<
        P: Fn(&Vec<Single>) -> Single,
        L: Fn(&Component, &MapFrame) -> Option<[[Single; 2]; 4]>,
        K: Fn(&TextRegion) -> (Single, Single),
    >(
        self,
        result: Seq<TextRegion>,
        output: TensorOutput,
        image_width: usize,
        image_height: usize,
        calls: TextCalls<P, L, K>,
        i: int,
    ) -> (r: (Component, Vec<Single>))
        requires
            output.wf(),
            map_complaint(output) is None,
            self.are_regions(result, output, image_width, image_height, calls),
            0 <= i < result.len(),
        ensures
            output.shape@.len() == 4,
            call_ensures(calls.mean, (&r.1,), result[i].score),
            r.1@.len() == r.0.pixels@.len() > 0,
            forall|k: int|
                0 <= k < r.0.pixels@.len() ==> {
                    &&& #[trigger] r.0.pixels@[k] < output.data->F32_0@.len()
                    &&& r.1@[k] == output.data->F32_0@[r.0.pixels@[k] as int]
                    &&& !self.det_use_dilation ==> output.data->F32_0@[r.0.pixels@[k] as int].greater(self.det_thresh)
                },
            call_ensures(
                calls.locate,
                (
                    &r.0,
                    &MapFrame {
                        width: output.shape@[3] as usize,
                        height: output.shape@[2] as usize,
                        image_width,
                        image_height,
                        unclip_ratio: self.det_unclip_ratio,
                    },
                ),
                Some(result[i].quad),
            ),
            r.0.max_x - r.0.min_x + 1 >= self.det_min_size,
            r.0.max_y - r.0.min_y + 1 >= self.det_min_size,
    {
        let frame = self.frame(output, image_width, image_height);
        let (map, outcomes) = choose|map: TextMap, outcomes: Seq<Option<TextRegion>>|
            #![trigger self.is_text_map(map, output), somes(outcomes)]
            {
                &&& self.is_text_map(map, output)
                &&& are_outcomes(outcomes, output.data->F32_0, map.components@, frame, self.det_box_thresh, calls)
                &&& in_reading_order(result, somes(outcomes), calls.center)
            };
        let (centers, order) = choose|centers: Seq<(Single, Single)>, order: Seq<usize>|
            #![trigger are_centers(centers, somes(outcomes), calls.center), is_stable_order(reading_keys(centers), order)]
            are_centers(centers, somes(outcomes), calls.center) && is_stable_order(reading_keys(centers), order)
                && result.len() == somes(outcomes).len() && forall|i: int|
                0 <= i < result.len() ==> #[trigger] result[i] == somes(outcomes)[order[i] as int];
        assert(result[i] == somes(outcomes)[order[i] as int]);
        let j = lemma_some_of(outcomes, order[i] as int);
        let c = map.components@[j];
        assert(is_outcome(outcomes[j], output.data->F32_0, c, frame, self.det_box_thresh, calls));
        let s = choose|s: Single| #[trigger]
            is_component_score(s, output.data->F32_0, c, calls.mean) && if self.det_box_thresh.greater(s) {
                outcomes[j] is None
            } else {
                match outcomes[j] {
                    Some(region) => region.score == s && call_ensures(calls.locate, (&c, &frame), Some(region.quad)),
                    None => call_ensures(calls.locate, (&c, &frame), None),
                }
            };
        let values = choose|values: Vec<Single>| #[trigger]
            call_ensures(calls.mean, (&values,), s) && values@ == pixel_values(output.data->F32_0@, c.pixels@);
        self.lemma_pixels_inside(map, output, j);
        self.lemma_map_components_are_large(map, output, j);
        self.lemma_pixels_are_above(map, output, j);
        (c, values)
    }

    /// Without dilation the pixels of the foreground are those with values above the threshold.
    proof fn lemma_bits(self, output: TensorOutput, p: int)
        requires
            !self.det_use_dilation,
            output.dim(2) * output.dim(3) >= 0,
            0 <= p,
        ensures
            foreground(self.bitmap(output), p) <==> p < output.dim(2) * output.dim(3) && output.data->F32_0@[p].greater(
                self.det_thresh,
            ),
    {
    }

    proof fn lemma_pixels_in_foreground(self, map: TextMap, output: TensorOutput, i: int)
        requires
            self.is_text_map(map, output),
            0 <= i < map.components.len(),
        ensures
            forall|k: int|
                0 <= k < map.components@[i].pixels@.len() ==> foreground(
                    self.bitmap(output),
                    #[trigger] map.components@[i].pixels@[k] as int,
                ),
    {
        self.lemma_text_component(map, output, i);
        lemma_pixels_are_foreground(map.components@[i], self.bitmap(output), output.dim(3), true);
    }

    proof fn lemma_pixels_are_above(self, map: TextMap, output: TensorOutput, i: int)
        requires
            output.wf(),
            map_complaint(output) is None,
            self.is_text_map(map, output),
            0 <= i < map.components.len(),
        ensures
            !self.det_use_dilation ==> forall|k: int|
                0 <= k < map.components@[i].pixels@.len() ==> output.data->F32_0@[(
                #[trigger] map.components@[i].pixels@[k]) as int].greater(self.det_thresh),
    {
        self.lemma_pixels_in_foreground(map, output, i);
        self.lemma_count(output);
        if !self.det_use_dilation {
            assert forall|k: int| 0 <= k < map.components@[i].pixels@.len() implies output.data->F32_0@[(
            #[trigger] map.components@[i].pixels@[k]) as int].greater(self.det_thresh) by {
                self.lemma_bits(output, map.components@[i].pixels@[k] as int);
            }
        }
    }

    proof fn lemma_count(self, output: TensorOutput)
        requires
            output.wf(),
            map_complaint(output) is None,
        ensures
            0 <= output.dim(2) * output.dim(3) <= output.data->F32_0@.len(),
    {
        assert(0 <= output.shape[2] && 0 <= output.shape[3]);
        let (height, width) = (output.dim(2), output.dim(3));
        assert(height * width >= 0) by (nonlinear_arith)
            requires
                height >= 0,
                width >= 0,
        ;
    }

    /// All components of a map, those that are left out among them.
    proof fn lemma_all_components(self, map: TextMap, output: TensorOutput, p: int) -> (all: Seq<Component>)
        requires
            self.is_text_map(map, output),
        ensures
            foreground(self.bitmap(output), p) <==> exists|i: int| 0 <= i < all.len() && (#[trigger] all[i]).has(p),
            map.components@ == large_enough(
                all.take(
                    if all.len() < self.det_max_candidates {
                        all.len() as int
                    } else {
                        self.det_max_candidates as int
                    },
                ),
                self.det_min_size as int,
            ),
    {
        let all = choose|all: Seq<Component>| #[trigger]
            components_of(all, self.bitmap(output), output.dim(3), true) && map.components@ == large_enough(
                all.take(
                    if all.len() < self.det_max_candidates {
                        all.len() as int
                    } else {
                        self.det_max_candidates as int
                    },
                ),
                self.det_min_size as int,
            );
        components_cover_foreground(all, self.bitmap(output), output.dim(3), true, p);
        all
    }

    proof fn lemma_map_components_are_large(self, map: TextMap, output: TensorOutput, i: int)
        requires
            self.is_text_map(map, output),
            0 <= i < map.components.len(),
        ensures
            map.components@[i].max_x - map.components@[i].min_x + 1 >= self.det_min_size,
            map.components@[i].max_y - map.components@[i].min_y + 1 >= self.det_min_size,
    {
        let all = self.lemma_all_components(map, output, 0);
        let first = all.take(
            if all.len() < self.det_max_candidates {
                all.len() as int
            } else {
                self.det_max_candidates as int
            },
        );
        let at = large_components_are_wide_and_high(first, self.det_min_size as int);
        assert(first[at[i]] == map.components@[i]);
    }

    /// No text is lost: where there are not too many components, every pixel whose value is above
    /// the threshold belongs to a component of the map, unless its component is too small; the
    /// components of the map are joined by sides and corners.
    pub proof fn pixels_above_the_threshold_are_found(self, map: TextMap, output: TensorOutput, p: int) -> (all:
        Seq<Component>)
        requires
            output.wf(),
            map_complaint(output) is None,
            self.is_text_map(map, output),
            !self.det_use_dilation,
            0 <= p < output.shape@[2] * output.shape@[3],
        ensures
            map.width == output.shape@[3] && map.height == output.shape@[2],
            output.data->F32_0@[p].greater(self.det_thresh) <==> exists|i: int|
                0 <= i < all.len() && (#[trigger] all[i]).has(p),
            forall|i: int|
                0 <= i < all.len() && i < self.det_max_candidates && (#[trigger] all[i]).max_x - all[i].min_x + 1
                    >= self.det_min_size && all[i].max_y - all[i].min_y + 1 >= self.det_min_size
                    ==> map.components@.contains(all[i]),
            forall|k: int|
                0 <= k < map.components.len() ==> exists|i: int|
                    0 <= i < all.len() && i < self.det_max_candidates && #[trigger] all[i]
                        == #[trigger] map.components@[k],
    {
        let all = self.lemma_all_components(map, output, p);
        let first = all.take(
            if all.len() < self.det_max_candidates {
                all.len() as int
            } else {
                self.det_max_candidates as int
            },
        );
        let at = large_components_are_wide_and_high(first, self.det_min_size as int);
        self.lemma_count(output);
        self.lemma_bits(output, p);
        assert forall|k: int| 0 <= k < map.components.len() implies exists|i: int|
            0 <= i < all.len() && i < self.det_max_candidates && #[trigger] all[i] == #[trigger] map.components@[k] by {
            assert(all[at[k]] == map.components@[k]);
        }
        assert forall|i: int|
            0 <= i < all.len() && i < self.det_max_candidates && (#[trigger] all[i]).max_x - all[i].min_x + 1
                >= self.det_min_size && all[i].max_y - all[i].min_y + 1
                >= self.det_min_size implies map.components@.contains(all[i]) by {
            assert(first[i] == all[i]);
            assert(at.contains(i));
            let k = choose|k: int| 0 <= k < at.len() && at[k] == i;
            assert(map.components@[k] == all[i]);
        }
        all
    }

    /// The detector is given the scaled image with red, green and blue one after the other.
    pub proof fn input_shows_the_image(self, input: Seq<u8>, image: Picture, x: int, y: int, c: int)
        requires
            image.wf(),
            has_bgr3(image),
            self.is_input(input, image),
            0 <= x < self.input_width(image.width, image.height),
            0 <= y < self.input_height(image.width, image.height),
            0 <= c < 3,
        ensures
            ({
                let (w, h) = (
                    self.input_width(image.width, image.height),
                    self.input_height(image.width, image.height),
                );
                &&& input.len() == 3 * (w * h)
                &&& exists|bgr: Picture| #[trigger]
                    is_bgr3_of(bgr, image) && input[c * (w * h) + (y * w + x)] == scaled(
                        bgr,
                        w,
                        h,
                        Interpolation::Linear,
                    ).data[3 * (y * w + x) + (2 - c)]
            }),
    {
        let (w, h) = (self.input_width(image.width, image.height), self.input_height(image.width, image.height));
        let (bgr, rgb) = choose|bgr: Picture, rgb: Picture| #[trigger]
            is_bgr3_of(bgr, image) && #[trigger] is_converted(
                rgb,
                scaled(bgr, w, h, Interpolation::Linear),
                ColorConversion::Bgr2Rgb,
            ) && input == planes(rgb);
        assert(bgr.channels == 3);
        exchanged_planes_begin_with_the_last_channel(rgb, scaled(bgr, w, h, Interpolation::Linear), x, y, c);
    }
}

/// The regions of an image are those of the answer that the model gives to its input. The model
/// is told how wide and how high the input is, and the regions are placed on an image of the
/// width and the height that it really has.
pub proof fn regions_are_those_of_the_answer<
    I: Fn(&Vec<u8>, usize, usize) -> Result<TensorOutput, VisionError>,
    P: Fn(&Vec<Single>) -> Single,
    L: Fn(&Component, &MapFrame) -> Option<[[Single; 2]; 4]>,
    K: Fn(&TextRegion) -> (Single, Single),
>(
    detector: OcrDetector,
    regions: Vec<TextRegion>,
    image: Picture,
    infer: I,
    calls: TextCalls<P, L, K>,
) -> (r: (Vec<u8>, TensorOutput))
    requires
        detector.is_detection(Ok(regions), image, infer, calls),
        detector.fits(image),
    ensures
        ({
            let (input, output) = r;
            let (w, h) = (
                detector.input_width(image.width, image.height),
                detector.input_height(image.width, image.height),
            );
            &&& detector.is_input(input@, image)
            &&& call_ensures(infer, (&input, w as usize, h as usize), Ok(output))
            &&& output.data is F32
            &&& output.shape@.len() == 4 && output.shape@[1] == 1
            &&& output.shape@[2] * output.shape@[3] <= output.data->F32_0@.len()
            &&& detector.are_regions(regions@, output, image.width as usize, image.height as usize, calls)
        }),
{
    let result: Result<Vec<TextRegion>, VisionError> = Ok(regions);
    let (input, reply) = choose|input: Vec<u8>, reply: Result<TensorOutput, VisionError>|
        detector.is_input(input@, image) && #[trigger] call_ensures(
            infer,
            (
                &input,
                detector.input_width(image.width, image.height) as usize,
                detector.input_height(image.width, image.height) as usize,
            ),
            reply,
        ) && detector.is_answer(result, reply, image.width as usize, image.height as usize, calls);
    (input, reply->Ok_0)
}

/// The input keeps the proportions of the image, as far as steps of 32 pixels allow. If the longer
/// side is above the limit, or the limit is one for the shorter side, each side is the multiple of
/// 32 that is nearest to what it comes to when that side is scaled to the limit, up to the
/// rounding of the scale factor. Else each side is the multiple that is nearest to its length. No
/// side is less than 32 pixels.
pub proof fn input_keeps_the_proportions(limit: int, kind: DetLimitType, width: int, height: int, side: int)
    requires
        0 < limit <= 0x10_0000,
        0 < width <= u32::MAX,
        0 < height <= u32::MAX,
        side == width || side == height,
    ensures
        ({
            let (long, short) = if width < height {
                (height, width)
            } else {
                (width, height)
            };
            let n = input_side(side, limit_ratio(limit, kind, width, height));
            let whole = if kind == DetLimitType::Max {
                long
            } else {
                short
            };
            &&& n >= 32 && n % 32 == 0
            &&& n == 32 || n >= usize::MAX || if kind == DetLimitType::Max && long <= limit {
                -16 <= n - side <= 16
            } else {
                -(32 * whole + side) <= 2 * (n * whole - limit * side) <= 32 * whole + side
            }
        }),
{
    let (long, short) = if width < height {
        (height, width)
    } else {
        (width, height)
    };
    lemma_integers_compare(limit, long, Precision::Single);
    if kind == DetLimitType::Max && long <= limit {
        let one = float_of(1, Precision::Single);
        lemma_scaled_by_one(side, Precision::Single);
        lemma_nearest_steps(product(float_of(side, Precision::Single), one, Precision::Single), side);
    } else {
        lemma_steps_of_side(
            side,
            limit,
            if kind == DetLimitType::Max {
                long
            } else {
                short
            },
        );
    }
}

/// The steps of 32 of a side that is scaled by the quotient of a limit and another side.
proof fn lemma_steps_of_side(side: int, limit: int, whole: int)
    requires
        0 < side <= u32::MAX,
        0 < whole <= u32::MAX,
        0 < limit <= 0x10_0000,
    ensures
        ({
            let q = quotient(
                float_of(limit, Precision::Single),
                float_of(whole, Precision::Single),
                Precision::Single,
            );
            let p = product(float_of(side, Precision::Single), q, Precision::Single);
            let n = nearest_of(quotient(p, float_of(32, Precision::Single), Precision::Single));
            -(32 * whole + side) <= 2 * (32 * n * whole - limit * side) <= 32 * whole + side
        }),
{
    let q = quotient(float_of(limit, Precision::Single), float_of(whole, Precision::Single), Precision::Single);
    let p = product(float_of(side, Precision::Single), q, Precision::Single);
    let t = float_of(32, Precision::Single);
    let r = quotient(p, t, Precision::Single);
    lemma_proportion(side, limit, whole);
    lemma_integer_value(32, Precision::Single);
    lemma_quotient_value(p, t, Precision::Single);
    lemma_whole_in_units(r);
    lemma_unit_step(0, 0);
    let (l, o, vp, vr, n) = (SINGLE_PARTS as int, unit(0), value(p), value(r), nearest_of(r));
    let (y, k) = (side * limit, whole * l);
    assert(k > 0) by (nonlinear_arith)
        requires
            k == whole * l,
            whole > 0,
            l > 0,
    ;
    assert(y > 0 && 16 * y <= l * side) by (nonlinear_arith)
        requires
            y == side * limit,
            side > 0,
            0 < limit <= 0x10_0000,
            l == 0x100_0000,
    ;
    assert(vr * (32 * o) * l == (32 * vr * l) * o) by (nonlinear_arith);
    assert(vp * o * (l + 1) == (vp * (l + 1)) * o) by (nonlinear_arith);
    assert(vp * o * (l - 1) == (vp * (l - 1)) * o) by (nonlinear_arith);
    lemma_cancel(32 * vr * l, vp * (l + 1), o);
    lemma_cancel(vp * (l - 1), 32 * vr * l, o);
    assert(vp * whole * l == vp * k) by (nonlinear_arith)
        requires
            k == whole * l,
    ;
    // 32 * vr * k * l within y * o * (l - 8) * l and y * o * (l + 8) * l
    let w = y * o;
    assert(w > 0) by (nonlinear_arith)
        requires
            w == y * o,
            y > 0,
            o > 0,
    ;
    assert((32 * vr * k) * l <= (w * (l + 8)) * l) by {
        assert((32 * vr * l) * k <= (vp * (l + 1)) * k) by (nonlinear_arith)
            requires
                32 * vr * l <= vp * (l + 1),
                k > 0,
        ;
        assert((vp * k) * (l + 1) <= (w * (l + 6)) * (l + 1)) by (nonlinear_arith)
            requires
                vp * k <= w * (l + 6),
                l > 0,
        ;
        assert((w * (l + 6)) * (l + 1) <= (w * (l + 8)) * l) by (nonlinear_arith)
            requires
                w > 0,
                l == 0x100_0000,
        ;
        assert((32 * vr * l) * k == (32 * vr * k) * l) by (nonlinear_arith);
        assert((vp * (l + 1)) * k == (vp * k) * (l + 1)) by (nonlinear_arith);
    }
    lemma_cancel(32 * vr * k, w * (l + 8), l);
    assert((w * (l - 8)) * l <= (32 * vr * k) * l) by {
        assert((32 * vr * l) * k >= (vp * (l - 1)) * k) by (nonlinear_arith)
            requires
                32 * vr * l >= vp * (l - 1),
                k > 0,
        ;
        assert((vp * k) * (l - 1) >= (w * (l - 6)) * (l - 1)) by (nonlinear_arith)
            requires
                vp * k >= w * (l - 6),
                l > 1,
        ;
        assert((w * (l - 6)) * (l - 1) >= (w * (l - 8)) * l) by (nonlinear_arith)
            requires
                w > 0,
                l == 0x100_0000,
        ;
        assert((32 * vr * l) * k == (32 * vr * k) * l) by (nonlinear_arith);
        assert((vp * (l - 1)) * k == (vp * k) * (l - 1)) by (nonlinear_arith);
    }
    lemma_cancel(w * (l - 8), 32 * vr * k, l);
    assert((32 * (2 * n - 1) * k) * o <= (2 * y * (l + 8)) * o) by {
        assert(((2 * n - 1) * o) * (32 * k) <= (2 * vr) * (32 * k)) by (nonlinear_arith)
            requires
                (2 * n - 1) * o <= 2 * vr,
                k > 0,
        ;
        assert((2 * vr) * (32 * k) == 2 * (32 * vr * k)) by (nonlinear_arith);
        assert(((2 * n - 1) * o) * (32 * k) == (32 * (2 * n - 1) * k) * o) by (nonlinear_arith);
        assert(2 * (w * (l + 8)) == (2 * y * (l + 8)) * o) by (nonlinear_arith)
            requires
                w == y * o,
        ;
    }
    lemma_cancel(32 * (2 * n - 1) * k, 2 * y * (l + 8), o);
    assert((2 * y * (l - 8)) * o <= (32 * (2 * n + 1) * k) * o) by {
        assert(((2 * n + 1) * o) * (32 * k) >= (2 * vr) * (32 * k)) by (nonlinear_arith)
            requires
                (2 * n + 1) * o >= 2 * vr,
                k > 0,
        ;
        assert((2 * vr) * (32 * k) == 2 * (32 * vr * k)) by (nonlinear_arith);
        assert(((2 * n + 1) * o) * (32 * k) == (32 * (2 * n + 1) * k) * o) by (nonlinear_arith);
        assert(2 * (w * (l - 8)) == (2 * y * (l - 8)) * o) by (nonlinear_arith)
            requires
                w == y * o,
        ;
    }
    lemma_cancel(2 * y * (l - 8), 32 * (2 * n + 1) * k, o);
    let m = 32 * n * whole;
    assert(32 * (2 * n - 1) * k == (2 * m - 32 * whole) * l && 32 * (2 * n + 1) * k == (2 * m + 32 * whole) * l)
        by (nonlinear_arith)
        requires
            k == whole * l,
            m == 32 * n * whole,
    ;
    assert(-(32 * whole + side) <= 2 * (m - y) <= 32 * whole + side) by (nonlinear_arith)
        requires
            (2 * m - 32 * whole) * l <= 2 * y * (l + 8),
            2 * y * (l - 8) <= (2 * m + 32 * whole) * l,
            16 * y <= l * side,
            l == 0x100_0000,
    ;
    assert(limit * side == y) by (nonlinear_arith)
        requires
            y == side * limit,
    ;
}

/// A component of a map is one of the components that the text pixels of the answer hang together
/// in, by sides and by corners. The answer is as wide as its last dimension.
pub proof fn map_components_hang_together_by_corners(
    detector: OcrDetector,
    map: TextMap,
    output: TensorOutput,
    k: int,
) -> (r: (Seq<Component>, int))
    requires
        detector.is_text_map(map, output),
        0 <= k < map.components.len(),
    ensures
        components_of(r.0, detector.bitmap(output), output.shape@[3] as int, true),
        0 <= r.1 < r.0.len(),
        r.0[r.1] == map.components@[k],
{
    let limit = detector.det_max_candidates;
    let all = choose|all: Seq<Component>| #[trigger]
        components_of(all, detector.bitmap(output), output.dim(3), true) && map.components@ == large_enough(
            all.take(
                if all.len() < limit {
                    all.len() as int
                } else {
                    limit as int
                },
            ),
            detector.det_min_size as int,
        );
    let first = all.take(
        if all.len() < limit {
            all.len() as int
        } else {
            limit as int
        },
    );
    let at = large_components_are_wide_and_high(first, detector.det_min_size as int);
    assert(first[at[k]] == map.components@[k]);
    assert(all[at[k]] == map.components@[k]);
    (all, at[k])
}

/// No sure component is left out. For each component of the map there is a region with its mean as
/// score and with the corners that it is placed at, unless its mean is below the threshold, or it
/// has no place.
pub proof fn sure_components_have_their_region<
    P: Fn(&Vec<Single>) -> Single,
    L: Fn(&Component, &MapFrame) -> Option<[[Single; 2]; 4]>,
    K: Fn(&TextRegion) -> (Single, Single),
>(
    detector: OcrDetector,
    result: Seq<TextRegion>,
    output: TensorOutput,
    image_width: usize,
    image_height: usize,
    calls: TextCalls<P, L, K>,
) -> (r: (TextMap, Seq<Vec<Single>>, Seq<Single>))
    requires
        detector.are_regions(result, output, image_width, image_height, calls),
        result.len() <= usize::MAX,
    ensures
        ({
            let (map, values, scores) = r;
            let frame = MapFrame {
                width: output.shape@[3] as usize,
                height: output.shape@[2] as usize,
                image_width,
                image_height,
                unclip_ratio: detector.det_unclip_ratio,
            };
            &&& detector.is_text_map(map, output)
            &&& values.len() == scores.len() == map.components.len()
            &&& forall|k: int|
                0 <= k < scores.len() ==> {
                    let c = map.components@[k];
                    &&& values[k]@.len() == c.pixels@.len()
                    &&& forall|n: int|
                        0 <= n < values[k]@.len() ==> #[trigger] values[k]@[n]
                            == output.data->F32_0@[c.pixels@[n] as int]
                    &&& call_ensures(calls.mean, (&values[k],), #[trigger] scores[k])
                    &&& {
                        ||| detector.det_box_thresh.greater(scores[k])
                        ||| call_ensures(calls.locate, (&c, &frame), None)
                        ||| exists|i: int|
                            0 <= i < result.len() && (#[trigger] result[i]).score == scores[k] && call_ensures(
                                calls.locate,
                                (&c, &frame),
                                Some(result[i].quad),
                            )
                    }
                }
        }),
{
    let flat = output.data->F32_0;
    let frame = detector.frame(output, image_width, image_height);
    let (map, outcomes) = choose|map: TextMap, outcomes: Seq<Option<TextRegion>>|
        #![trigger detector.is_text_map(map, output), somes(outcomes)]
        {
            &&& detector.is_text_map(map, output)
            &&& are_outcomes(outcomes, flat, map.components@, frame, detector.det_box_thresh, calls)
            &&& in_reading_order(result, somes(outcomes), calls.center)
        };
    let n = map.components@.len();
    let scores = Seq::new(
        n,
        |k: int|
            choose|s: Single| #[trigger]
                is_component_score(s, flat, map.components@[k], calls.mean) && is_outcome_with(
                    s,
                    outcomes[k],
                    map.components@[k],
                    frame,
                    detector.det_box_thresh,
                    calls,
                ),
    );
    let values = Seq::new(
        n,
        |k: int|
            choose|values: Vec<Single>| #[trigger]
                call_ensures(calls.mean, (&values,), scores[k]) && values@ == pixel_values(
                    flat@,
                    map.components@[k].pixels@,
                ),
    );
    assert forall|k: int| 0 <= k < scores.len() implies {
        let c = map.components@[k];
        &&& values[k]@.len() == c.pixels@.len()
        &&& forall|n: int|
            0 <= n < values[k]@.len() ==> #[trigger] values[k]@[n] == output.data->F32_0@[c.pixels@[n] as int]
        &&& call_ensures(calls.mean, (&values[k],), #[trigger] scores[k])
        &&& {
            ||| detector.det_box_thresh.greater(scores[k])
            ||| call_ensures(calls.locate, (&c, &frame), None)
            ||| exists|i: int|
                0 <= i < result.len() && (#[trigger] result[i]).score == scores[k] && call_ensures(
                    calls.locate,
                    (&c, &frame),
                    Some(result[i].quad),
                )
        }
    } by {
        let c = map.components@[k];
        assert(is_outcome(outcomes[k], flat, c, frame, detector.det_box_thresh, calls));
        let s = choose|s: Single| #[trigger]
            is_component_score(s, flat, c, calls.mean) && if detector.det_box_thresh.greater(s) {
                outcomes[k] is None
            } else {
                match outcomes[k] {
                    Some(region) => region.score == s && call_ensures(calls.locate, (&c, &frame), Some(region.quad)),
                    None => call_ensures(calls.locate, (&c, &frame), None),
                }
            };
        assert(is_component_score(s, flat, c, calls.mean) && is_outcome_with(
            s,
            outcomes[k],
            c,
            frame,
            detector.det_box_thresh,
            calls,
        ));
        assert(is_component_score(scores[k], flat, c, calls.mean));
        if outcomes[k] is Some {
            let region = outcomes[k]->0;
            let at = regions_are_those_of_the_outcomes(outcomes);
            assert(at.contains(k));
            let m = choose|m: int| 0 <= m < at.len() && at[m] == k;
            assert(somes(outcomes)[m] == region);
            assert(somes(outcomes).contains(region));
            reading_order_keeps_all_regions(result, somes(outcomes), calls.center, region);
            let i = choose|i: int| 0 <= i < result.len() && result[i] == region;
            assert(result[i].score == scores[k]);
        }
    }
    (map, values, scores)
}

/// Whether an outcome is what a component with a score gives.
spec fn is_outcome_with<
    P: Fn(&Vec<Single>) -> Single,
    L: Fn(&Component, &MapFrame) -> Option<[[Single; 2]; 4]>,
    K: Fn(&TextRegion) -> (Single, Single),
>(
    s: Single,
    outcome: Option<TextRegion>,
    c: Component,
    frame: MapFrame,
    box_thresh: Single,
    calls: TextCalls<P, L, K>,
) -> bool {
    if box_thresh.greater(s) {
        outcome is None
    } else {
        match outcome {
            Some(region) => region.score == s && call_ensures(calls.locate, (&c, &frame), Some(region.quad)),
            None => call_ensures(calls.locate, (&c, &frame), None),
        }
    }
}

} // verus!
