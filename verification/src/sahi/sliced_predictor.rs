//! Predicting slice by slice.

use std::collections::HashSet;

use vstd::prelude::*;

use crate::engines::plate_crop::{crop_signed, is_signed_crop};
use crate::error::VisionError;
use crate::ieee::{Double, Single};
use crate::imaging::image::{cut_out_bytes_are_those_of_the_whole, Image};
use crate::sahi::config::{MatchMetric, PostprocessType, SahiBox, SahiConfig, LOW_MODEL_CONFIDENCE};

verus! {

/// Predicts on one image.
pub trait SahiSinglePredictor<T> {
    /// The predictions on an image.
    fn predict_single(&self, image: &Image) -> Result<Vec<T>, VisionError>;
}

/// Turns predictions into boxes and boxes into predictions.
pub trait SahiResultAdapter<T> {
    /// What brings the masks of boxes together; nothing for predictions without masks.
    type MaskMerger;

    /// What brings the masks of boxes together.
    fn mask_merger(&self) -> Self::MaskMerger;

    /// Whether a prediction is of a class that is left out.
    fn is_excluded(&self, item: &T, names: &HashSet<String>, ids: &HashSet<i32>) -> bool;

    /// The box of a prediction on a slice, moved to its place on the whole image; none if
    /// nothing of it lies there.
    fn to_box(&self, item: &T, shift_x: i32, shift_y: i32, full_width: i32, full_height: i32) -> Option<SahiBox>;

    /// The prediction of a box.
    fn to_result(&self, merged: &SahiBox) -> T;
}

/// A slice of an image: left, top, right and bottom.
pub type Slice = [i32; 4];

// ---------------------------------------------------------------------------
// The way of bringing boxes together
// ---------------------------------------------------------------------------

/// The threshold that counts: the greater of the engine's and the configured one.
pub open spec fn effective_threshold(config: SahiConfig, threshold: Single) -> Single {
    match config.min_confidence {
        Some(m) => threshold.max(m),
        None => threshold,
    }
}

/// The way of bringing boxes together.
#[derive(Debug, Clone, Copy, PartialEq, Eq, Structural)]
pub struct MergeWay {
    /// How overlapping boxes are brought together.
    pub postprocess_type: PostprocessType,
    /// How the overlap of two boxes is measured.
    pub match_metric: MatchMetric,
    /// The overlap from which boxes are brought together.
    pub match_threshold: Double,
    /// Whether boxes of different classes are brought together.
    pub class_agnostic: bool,
}

/// Whether boxes are dropped, not merged, so that weak boxes do not make strong ones larger.
pub open spec fn drops_boxes(config: SahiConfig, threshold: Single) -> bool {
    let low = (Single { bits: LOW_MODEL_CONFIDENCE }).greater(effective_threshold(config, threshold));
    !config.force_postprocess_type && low && config.postprocess_type != PostprocessType::Nms
}

/// The way of bringing boxes together: the configured one, but at a low threshold boxes are
/// dropped, and their overlap is measured against the union.
pub open spec fn resolved(config: SahiConfig, threshold: Single) -> MergeWay {
    MergeWay {
        postprocess_type: if drops_boxes(config, threshold) {
            PostprocessType::Nms
        } else {
            config.postprocess_type
        },
        match_metric: if drops_boxes(config, threshold) {
            MatchMetric::Iou
        } else {
            config.match_metric
        },
        match_threshold: config.match_threshold,
        class_agnostic: config.class_agnostic,
    }
}

/// The way of bringing boxes together.
pub fn resolve_postprocess(config: &SahiConfig, confidence_threshold: Single) -> (r: MergeWay)
    ensures
        r == resolved(*config, confidence_threshold),
{
    let effective = match config.min_confidence {
        Some(m) => confidence_threshold.max(m),
        None => confidence_threshold,
    };
    let low = effective.lt(Single { bits: LOW_MODEL_CONFIDENCE });
    let drops = !config.force_postprocess_type && low && config.postprocess_type != PostprocessType::Nms;
    MergeWay {
        postprocess_type: if drops {
            PostprocessType::Nms
        } else {
            config.postprocess_type
        },
        match_metric: if drops {
            MatchMetric::Iou
        } else {
            config.match_metric
        },
        match_threshold: config.match_threshold,
        class_agnostic: config.class_agnostic,
    }
}

// ---------------------------------------------------------------------------
// Collecting boxes
// ---------------------------------------------------------------------------

/// What is left of a list of outcomes.
pub open spec fn boxes_of(outcomes: Seq<Option<SahiBox>>) -> Seq<SahiBox>
    decreases outcomes.len(),
{
    if outcomes.len() == 0 {
        Seq::empty()
    } else {
        match outcomes.last() {
            Some(b) => boxes_of(outcomes.drop_last()).push(b),
            None => boxes_of(outcomes.drop_last()),
        }
    }
}

/// Whether a prediction becomes `outcome`: nothing if its class is left out, if nothing of
/// it lies on the image, or if its score is too low, else its box.
pub open spec fn is_collected<T, A: SahiResultAdapter<T>>(
    outcome: Option<SahiBox>,
    item: T,
    adapter: A,
    config: SahiConfig,
    shift_x: i32,
    shift_y: i32,
    full_width: i32,
    full_height: i32,
) -> bool {
    ||| outcome is None && call_ensures(
        A::is_excluded,
        (&adapter, &item, &config.exclude_class_names, &config.exclude_class_ids),
        true,
    )
    ||| call_ensures(
        A::is_excluded,
        (&adapter, &item, &config.exclude_class_names, &config.exclude_class_ids),
        false,
    ) && exists|boxed: Option<SahiBox>| #[trigger]
        call_ensures(A::to_box, (&adapter, &item, shift_x, shift_y, full_width, full_height), boxed) && if is_too_weak(
            boxed,
            config.min_confidence,
        ) {
            outcome is None
        } else {
            outcome == boxed
        }
}

/// Whether a box has a score below the least one.
pub open spec fn is_too_weak(boxed: Option<SahiBox>, min_confidence: Option<Single>) -> bool {
    boxed is Some && min_confidence is Some && min_confidence->0.greater(boxed->0.score)
}

/// Whether `after` is `before` with the boxes of the predictions behind it.
pub open spec fn are_collected<T, A: SahiResultAdapter<T>>(
    after: Seq<SahiBox>,
    before: Seq<SahiBox>,
    raw: Seq<T>,
    adapter: A,
    config: SahiConfig,
    shift_x: i32,
    shift_y: i32,
    full_width: i32,
    full_height: i32,
) -> bool {
    exists|outcomes: Seq<Option<SahiBox>>|
        #![trigger boxes_of(outcomes)]
        {
            &&& outcomes.len() == raw.len()
            &&& forall|i: int|
                0 <= i < raw.len() ==> is_collected(
                    #[trigger] outcomes[i],
                    raw[i],
                    adapter,
                    config,
                    shift_x,
                    shift_y,
                    full_width,
                    full_height,
                )
            &&& after == before + boxes_of(outcomes)
        }
}

/// Appends the boxes of predictions: classes that are left out go first, then what does
/// not lie on the image, then what is too weak.
pub fn collect_predictions<T, A: SahiResultAdapter<T>>(
    raw: &Vec<T>,
    adapter: &A,
    config: &SahiConfig,
    out: &mut Vec<SahiBox>,
    shift_x: i32,
    shift_y: i32,
    full_width: i32,
    full_height: i32,
)
    ensures
        are_collected(
            final(out)@,
            old(out)@,
            raw@,
            *adapter,
            *config,
            shift_x,
            shift_y,
            full_width,
            full_height,
        ),
{
    let ghost before = out@;
    let ghost mut outcomes: Seq<Option<SahiBox>> = Seq::empty();
    let mut i: usize = 0;
    assert(before =~= before + boxes_of(outcomes));
    while i < raw.len()
        invariant
            i <= raw.len(),
            outcomes.len() == i,
            out@ == before + boxes_of(outcomes),
            forall|k: int|
                0 <= k < i ==> is_collected(
                    #[trigger] outcomes[k],
                    raw@[k],
                    *adapter,
                    *config,
                    shift_x,
                    shift_y,
                    full_width,
                    full_height,
                ),
        decreases raw.len() - i,
    {
        let item = &raw[i];
        let ghost mut outcome: Option<SahiBox> = None;
        let ghost mut boxed: Option<SahiBox> = None;
        if !adapter.is_excluded(item, &config.exclude_class_names, &config.exclude_class_ids) {
            let found = adapter.to_box(item, shift_x, shift_y, full_width, full_height);
            proof {
                boxed = found;
                assert(call_ensures(
                    A::to_box,
                    (adapter, item, shift_x, shift_y, full_width, full_height),
                    boxed,
                ));
            }
            if let Some(b) = found {
                let weak = match config.min_confidence {
                    Some(m) => b.score.lt(m),
                    None => false,
                };
                if !weak {
                    proof {
                        outcome = Some(b);
                    }
                    out.push(b);
                }
            }
        }
        proof {
            assert(is_collected(
                outcome,
                *item,
                *adapter,
                *config,
                shift_x,
                shift_y,
                full_width,
                full_height,
            ));
            let longer = outcomes.push(outcome);
            assert(longer.drop_last() =~= outcomes);
            assert(out@ =~= before + boxes_of(longer));
            outcomes = longer;
        }
        i += 1;
    }
}

// ---------------------------------------------------------------------------
// Slices
// ---------------------------------------------------------------------------

/// Zero, or a number above it.
pub open spec fn not_negative(n: int) -> int {
    if n < 0 {
        0
    } else {
        n
    }
}

/// Whether `cut` is what a slice cuts out of an image.
pub open spec fn is_slice(cut: Result<Image, VisionError>, image: Image, slice: Slice) -> bool {
    is_signed_crop(
        cut,
        image@,
        not_negative(slice[0] as int),
        not_negative(slice[1] as int),
        not_negative(slice[2] - slice[0]),
        not_negative(slice[3] - slice[1]),
    )
}

/// What predicting on a slice gives.
pub open spec fn is_slice_prediction<T, P: SahiSinglePredictor<T>>(
    r: Result<Vec<T>, VisionError>,
    single: P,
    image: Image,
    slice: Slice,
) -> bool {
    ||| r is Err && is_slice(Err(r->Err_0), image, slice)
    ||| exists|cut: Image|
        is_slice(Ok(cut), image, slice) && #[trigger] call_ensures(P::predict_single, (&single, &cut), r)
}

/// Predicts on a slice.
pub fn predict_slice<T, P: SahiSinglePredictor<T>>(single: &P, image: &Image, slice: Slice) -> (r: Result<
    Vec<T>,
    VisionError,
>)
    requires
        image.wf(),
    ensures
        is_slice_prediction(r, *single, *image, slice),
{
    let (x, y): (i64, i64) = (slice[0] as i64, slice[1] as i64);
    let (width, height): (i64, i64) = (slice[2] as i64 - x, slice[3] as i64 - y);
    let cut = match crop_signed(
        image,
        if x < 0 {
            0
        } else {
            slice[0]
        },
        if y < 0 {
            0
        } else {
            slice[1]
        },
        if width < 0 {
            0
        } else {
            width
        },
        if height < 0 {
            0
        } else {
            height
        },
    ) {
        Ok(cut) => cut,
        Err(e) => {
            return Err(e);
        },
    };
    assert(is_slice(Ok(cut), *image, slice));
    let r = single.predict_single(&cut);
    assert(call_ensures(P::predict_single, (single, &cut), r));
    r
}

/// Whether boxes are brought together in between: there are more than the buffer holds. A
/// negative length stands for a buffer without an end.
pub open spec fn overflows(count: int, buffer: Option<i32>) -> bool {
    buffer is Some && buffer->0 >= 0 && count > buffer->0
}

/// Whether `after` are the boxes after a slice, `before` being those before it.
pub open spec fn is_slice_step<
    T,
    A: SahiResultAdapter<T>,
    P: SahiSinglePredictor<T>,
    M: Fn(&Vec<SahiBox>, MergeWay, &A::MaskMerger) -> Vec<SahiBox>,
>(
    after: Seq<SahiBox>,
    before: Seq<SahiBox>,
    slice: Slice,
    image: Image,
    config: SahiConfig,
    adapter: A,
    single: P,
    way: MergeWay,
    masks: A::MaskMerger,
    merge: M,
) -> bool {
    exists|raw: Vec<T>, all: Vec<SahiBox>|
        #![trigger is_slice_prediction(Ok(raw), single, image, slice), all@]
        {
            &&& is_slice_prediction(Ok(raw), single, image, slice)
            &&& are_collected(
                all@,
                before,
                raw@,
                adapter,
                config,
                slice[0],
                slice[1],
                image@.width as i32,
                image@.height as i32,
            )
            &&& is_buffered(after, all, config.merge_buffer_length, way, masks, merge)
        }
}

/// Whether `after` are the boxes `all`, brought together if they overflow the buffer.
pub open spec fn is_buffered<G, M: Fn(&Vec<SahiBox>, MergeWay, &G) -> Vec<SahiBox>>(
    after: Seq<SahiBox>,
    all: Vec<SahiBox>,
    buffer: Option<i32>,
    way: MergeWay,
    masks: G,
    merge: M,
) -> bool {
    if overflows(all.len() as int, buffer) {
        exists|merged: Vec<SahiBox>| #[trigger]
            call_ensures(merge, (&all, way, &masks), merged) && after == merged@
    } else {
        after == all@
    }
}

/// Whether `states` are the boxes before the first slice and after each slice.
pub open spec fn are_slice_states<
    T,
    A: SahiResultAdapter<T>,
    P: SahiSinglePredictor<T>,
    M: Fn(&Vec<SahiBox>, MergeWay, &A::MaskMerger) -> Vec<SahiBox>,
>(
    states: Seq<Seq<SahiBox>>,
    slices: Seq<Slice>,
    image: Image,
    config: SahiConfig,
    adapter: A,
    single: P,
    way: MergeWay,
    masks: A::MaskMerger,
    merge: M,
) -> bool {
    &&& 1 <= states.len() <= slices.len() + 1
    &&& states[0] == Seq::<SahiBox>::empty()
    &&& forall|i: int|
        0 < i < states.len() ==> is_slice_step(
            #[trigger] states[i],
            states[i - 1],
            slices[i - 1],
            image,
            config,
            adapter,
            single,
            way,
            masks,
            merge,
        )
}

/// What predicting all slices gives: the boxes after the last one, or the error of the
/// first that gives one.
pub open spec fn are_slice_boxes<
    T,
    A: SahiResultAdapter<T>,
    P: SahiSinglePredictor<T>,
    M: Fn(&Vec<SahiBox>, MergeWay, &A::MaskMerger) -> Vec<SahiBox>,
>(
    r: Result<Vec<SahiBox>, VisionError>,
    slices: Seq<Slice>,
    image: Image,
    config: SahiConfig,
    adapter: A,
    single: P,
    way: MergeWay,
    masks: A::MaskMerger,
    merge: M,
) -> bool {
    exists|states: Seq<Seq<SahiBox>>| #[trigger]
        are_slice_states(states, slices, image, config, adapter, single, way, masks, merge) && match r {
            Ok(boxes) => states.len() == slices.len() + 1 && boxes@ == states.last(),
            Err(e) => states.len() <= slices.len() && is_slice_prediction::<T, P>(
                Err(e),
                single,
                image,
                slices[states.len() - 1],
            ),
        }
}

fn predict_slices<
    T,
    A: SahiResultAdapter<T>,
    P: SahiSinglePredictor<T>,
    M: Fn(&Vec<SahiBox>, MergeWay, &A::MaskMerger) -> Vec<SahiBox>,
>(
    image: &Image,
    config: &SahiConfig,
    adapter: &A,
    single: &P,
    slices: &Vec<Slice>,
    way: MergeWay,
    masks: &A::MaskMerger,
    merge: &M,
) -> (r: Result<Vec<SahiBox>, VisionError>)
    requires
        image.wf(),
        image@.width <= i32::MAX,
        image@.height <= i32::MAX,
        forall|boxes: &Vec<SahiBox>, w: MergeWay, g: &A::MaskMerger| call_requires(*merge, (boxes, w, g)),
    ensures
        are_slice_boxes(r, slices@, *image, *config, *adapter, *single, way, *masks, *merge),
{
    let (image_width, image_height) = (image.width() as i32, image.height() as i32);
    let mut accumulated: Vec<SahiBox> = Vec::new();
    let ghost mut states: Seq<Seq<SahiBox>> = seq![Seq::empty()];
    let mut i: usize = 0;
    assert(accumulated@ =~= Seq::<SahiBox>::empty());
    while i < slices.len()
        invariant
            image.wf(),
            image_width == image@.width as i32,
            image_height == image@.height as i32,
            forall|boxes: &Vec<SahiBox>, w: MergeWay, g: &A::MaskMerger| call_requires(*merge, (boxes, w, g)),
            i <= slices.len(),
            states.len() == i + 1,
            accumulated@ == states.last(),
            are_slice_states(states, slices@, *image, *config, *adapter, *single, way, *masks, *merge),
        decreases slices.len() - i,
    {
        let slice = slices[i];
        let raw = match predict_slice(single, image, slice) {
            Ok(raw) => raw,
            Err(e) => {
                assert(is_slice_prediction::<T, P>(Err(e), *single, *image, slice));
                return Err(e);
            },
        };
        let ghost before = accumulated@;
        collect_predictions(
            &raw,
            adapter,
            config,
            &mut accumulated,
            slice[0],
            slice[1],
            image_width,
            image_height,
        );
        let ghost all = accumulated;
        let full = match config.merge_buffer_length {
            Some(buffer) => buffer >= 0 && accumulated.len() > buffer as usize,
            None => false,
        };
        if full {
            let merged = merge(&accumulated, way, masks);
            assert(call_ensures(*merge, (&all, way, masks), merged));
            accumulated = merged;
        }
        proof {
            assert(is_slice_prediction(Ok(raw), *single, *image, slice));
            assert(is_buffered(accumulated@, all, config.merge_buffer_length, way, *masks, *merge));
            assert(is_slice_step(
                accumulated@,
                before,
                slice,
                *image,
                *config,
                *adapter,
                *single,
                way,
                *masks,
                *merge,
            ));
            let longer = states.push(accumulated@);
            assert forall|k: int| 0 < k < longer.len() implies is_slice_step(
                #[trigger] longer[k],
                longer[k - 1],
                slices@[k - 1],
                *image,
                *config,
                *adapter,
                *single,
                way,
                *masks,
                *merge,
            ) by {
                if k < states.len() {
                    assert(longer[k] == states[k]);
                    assert(longer[k - 1] == states[k - 1]);
                }
            }
            states = longer;
        }
        i += 1;
    }
    Ok(accumulated)
}

// ---------------------------------------------------------------------------
// The whole
// ---------------------------------------------------------------------------

/// Predictions on an image, and how they came about.
#[derive(Debug)]
pub struct SahiPredictionResult<T> {
    /// The predictions.
    pub detections: Vec<T>,
    /// The number of slices.
    pub slice_count: usize,
    pub image_width: i32,
    pub image_height: i32,
    /// How long the slicing took, in milliseconds.
    pub slice_millis: u64,
    /// How long the prediction took, in milliseconds.
    pub predict_millis: u64,
    /// How long it took to bring the boxes together, in milliseconds.
    pub postprocess_millis: u64,
}

/// Whether the whole image is predicted too.
pub open spec fn predicts_whole(config: SahiConfig, slices: Seq<Slice>) -> bool {
    slices.len() > 1 && config.perform_standard_prediction
}

/// What the boxes of the slices become with those of the whole image, if it is predicted.
pub open spec fn is_completed<T, A: SahiResultAdapter<T>, P: SahiSinglePredictor<T>>(
    all: Result<Seq<SahiBox>, VisionError>,
    boxes: Seq<SahiBox>,
    slices: Seq<Slice>,
    image: Image,
    config: SahiConfig,
    adapter: A,
    single: P,
) -> bool {
    if predicts_whole(config, slices) {
        exists|reply: Result<Vec<T>, VisionError>| #[trigger]
            call_ensures(P::predict_single, (&single, &image), reply) && match reply {
                Err(e) => all is Err && all->Err_0 == e,
                Ok(raw) => all is Ok && are_collected(
                    all->Ok_0,
                    boxes,
                    raw@,
                    adapter,
                    config,
                    0,
                    0,
                    image@.width as i32,
                    image@.height as i32,
                ),
            }
    } else {
        all is Ok && all->Ok_0 == boxes
    }
}

/// Whether `merged` are the boxes `all` brought together. One box stays as it is.
pub open spec fn is_brought_together<G, M: Fn(&Vec<SahiBox>, MergeWay, &G) -> Vec<SahiBox>>(
    merged: Seq<SahiBox>,
    all: Vec<SahiBox>,
    way: MergeWay,
    masks: G,
    merge: M,
) -> bool {
    if all.len() > 1 {
        exists|v: Vec<SahiBox>| #[trigger] call_ensures(merge, (&all, way, &masks), v) && merged == v@
    } else {
        merged == all@
    }
}

/// Whether `detections` are the predictions of the boxes.
pub open spec fn are_results<T, A: SahiResultAdapter<T>>(
    detections: Seq<T>,
    merged: Seq<SahiBox>,
    adapter: A,
) -> bool {
    &&& detections.len() == merged.len()
    &&& forall|i: int|
        0 <= i < merged.len() ==> call_ensures(A::to_result, (&adapter, &merged[i]), #[trigger] detections[i])
}

/// The milliseconds between two readings of a clock, zero if it was set back.
pub open spec fn between(from: u64, to: u64) -> int {
    if to > from {
        to - from
    } else {
        0
    }
}

/// Whether a duration lies between two readings of a clock.
pub open spec fn is_duration<K: Fn() -> u64>(millis: u64, clock: K) -> bool {
    exists|from: u64, to: u64| #[trigger]
        call_ensures(clock, (), from) && #[trigger] call_ensures(clock, (), to) && millis == between(from, to)
}

/// What sliced prediction gives once all boxes are there.
pub open spec fn is_finished<
    T,
    A: SahiResultAdapter<T>,
    M: Fn(&Vec<SahiBox>, MergeWay, &A::MaskMerger) -> Vec<SahiBox>,
    K: Fn() -> u64,
>(
    result: SahiPredictionResult<T>,
    all: Seq<SahiBox>,
    slices: Seq<Slice>,
    image: Image,
    slice_millis: u64,
    adapter: A,
    way: MergeWay,
    masks: A::MaskMerger,
    merge: M,
    clock: K,
) -> bool {
    &&& result.slice_count == slices.len()
    &&& result.image_width == image@.width
    &&& result.image_height == image@.height
    &&& result.slice_millis == slice_millis
    &&& is_duration(result.predict_millis, clock)
    &&& is_duration(result.postprocess_millis, clock)
    &&& exists|v: Vec<SahiBox>, merged: Seq<SahiBox>|
        v@ == all && #[trigger] is_brought_together(merged, v, way, masks, merge) && are_results(
            result.detections@,
            merged,
            adapter,
        )
}

/// What sliced prediction gives, if the masks of boxes are brought together by `masks`.
pub open spec fn is_prediction_with<
    T,
    A: SahiResultAdapter<T>,
    P: SahiSinglePredictor<T>,
    M: Fn(&Vec<SahiBox>, MergeWay, &A::MaskMerger) -> Vec<SahiBox>,
    K: Fn() -> u64,
>(
    r: Result<SahiPredictionResult<T>, VisionError>,
    image: Image,
    config: SahiConfig,
    adapter: A,
    masks: A::MaskMerger,
    threshold: Single,
    single: P,
    slices: Seq<Slice>,
    slice_millis: u64,
    merge: M,
    clock: K,
) -> bool {
    let way = resolved(config, threshold);
    exists|parts: Result<Vec<SahiBox>, VisionError>| #[trigger]
        are_slice_boxes(parts, slices, image, config, adapter, single, way, masks, merge) && match parts {
            Err(e) => r is Err && r->Err_0 == e,
            Ok(boxes) => exists|all: Result<Seq<SahiBox>, VisionError>| #[trigger]
                is_completed(all, boxes@, slices, image, config, adapter, single) && match all {
                    Err(e) => r is Err && r->Err_0 == e,
                    Ok(all) => r is Ok && is_finished(
                        r->Ok_0,
                        all,
                        slices,
                        image,
                        slice_millis,
                        adapter,
                        way,
                        masks,
                        merge,
                        clock,
                    ),
                },
        }
}

/// What sliced prediction gives.
pub open spec fn is_sliced_prediction<
    T,
    A: SahiResultAdapter<T>,
    P: SahiSinglePredictor<T>,
    M: Fn(&Vec<SahiBox>, MergeWay, &A::MaskMerger) -> Vec<SahiBox>,
    K: Fn() -> u64,
>(
    r: Result<SahiPredictionResult<T>, VisionError>,
    image: Image,
    config: SahiConfig,
    adapter: A,
    threshold: Single,
    single: P,
    slices: Seq<Slice>,
    slice_millis: u64,
    merge: M,
    clock: K,
) -> bool {
    exists|masks: A::MaskMerger| #[trigger]
        call_ensures(A::mask_merger, (&adapter,), masks) && is_prediction_with(
            r,
            image,
            config,
            adapter,
            masks,
            threshold,
            single,
            slices,
            slice_millis,
            merge,
            clock,
        )
}

/// Brings boxes together and turns them into predictions.
fn finish<
    T,
    A: SahiResultAdapter<T>,
    M: Fn(&Vec<SahiBox>, MergeWay, &A::MaskMerger) -> Vec<SahiBox>,
>(all: Vec<SahiBox>, adapter: &A, way: MergeWay, masks: &A::MaskMerger, merge: &M) -> (detections: Vec<T>)
    requires
        forall|boxes: &Vec<SahiBox>, w: MergeWay, g: &A::MaskMerger| call_requires(*merge, (boxes, w, g)),
    ensures
        exists|merged: Seq<SahiBox>| #[trigger]
            is_brought_together(merged, all, way, *masks, *merge) && are_results(detections@, merged, *adapter),
{
    let ghost whole = all;
    let merged = if all.len() > 1 {
        let merged = merge(&all, way, masks);
        assert(call_ensures(*merge, (&whole, way, masks), merged));
        merged
    } else {
        all
    };
    assert(is_brought_together(merged@, whole, way, *masks, *merge));
    let mut detections: Vec<T> = Vec::new();
    let mut i: usize = 0;
    while i < merged.len()
        invariant
            i <= merged.len(),
            detections.len() == i,
            forall|k: int|
                0 <= k < i ==> call_ensures(A::to_result, (adapter, &merged@[k]), #[trigger] detections@[k]),
        decreases merged.len() - i,
    {
        detections.push(adapter.to_result(&merged[i]));
        i += 1;
    }
    assert(are_results(detections@, merged@, *adapter));
    detections
}

/// The milliseconds between two readings of a clock.
fn elapsed(from: u64, to: u64) -> (n: u64)
    ensures
        n == between(from, to),
{
    if to > from {
        to - from
    } else {
        0
    }
}

/// Predicts slice by slice, and on the whole image if that is wanted, and brings the boxes
/// together.
///
/// `slices` were made in `slice_millis` milliseconds. `merge` brings boxes together in the
/// given way, with what the adapter has for masks, and `clock` reads a clock in
/// milliseconds.
pub fn predict_sliced<
    T,
    A: SahiResultAdapter<T>,
    P: SahiSinglePredictor<T>,
    M: Fn(&Vec<SahiBox>, MergeWay, &A::MaskMerger) -> Vec<SahiBox>,
    K: Fn() -> u64,
>(
    image: &Image,
    config: &SahiConfig,
    adapter: &A,
    confidence_threshold: Single,
    single: &P,
    slices: &Vec<Slice>,
    slice_millis: u64,
    merge: M,
    clock: K,
) -> (r: Result<SahiPredictionResult<T>, VisionError>)
    requires
        image.wf(),
        image@.width <= i32::MAX,
        image@.height <= i32::MAX,
        forall|boxes: &Vec<SahiBox>, w: MergeWay, g: &A::MaskMerger| call_requires(merge, (boxes, w, g)),
        call_requires(clock, ()),
    ensures
        is_sliced_prediction(
            r,
            *image,
            *config,
            *adapter,
            confidence_threshold,
            *single,
            slices@,
            slice_millis,
            merge,
            clock,
        ),
{
    let (image_width, image_height) = (image.width() as i32, image.height() as i32);
    let way = resolve_postprocess(config, confidence_threshold);
    let masks = adapter.mask_merger();
    assert(call_ensures(A::mask_merger, (adapter,), masks));
    let t_predict = clock();
    let predicted = predict_slices(image, config, adapter, single, slices, way, &masks, &merge);
    let ghost parts = predicted;
    assert(are_slice_boxes(parts, slices@, *image, *config, *adapter, *single, way, masks, merge));
    let mut accumulated = match predicted {
        Ok(boxes) => boxes,
        Err(e) => {
            return Err(e);
        },
    };
    let ghost boxes = accumulated@;
    if slices.len() > 1 && config.perform_standard_prediction {
        let reply = single.predict_single(image);
        let ghost answered = reply;
        assert(call_ensures(P::predict_single, (single, image), answered));
        let full = match reply {
            Ok(full) => full,
            Err(e) => {
                let ghost all: Result<Seq<SahiBox>, VisionError> = Err(e);
                assert(is_completed(all, boxes, slices@, *image, *config, *adapter, *single));
                return Err(e);
            },
        };
        collect_predictions(&full, adapter, config, &mut accumulated, 0, 0, image_width, image_height);
    }
    let ghost all: Result<Seq<SahiBox>, VisionError> = Ok(accumulated@);
    assert(is_completed(all, boxes, slices@, *image, *config, *adapter, *single));
    let predicted_at = clock();
    let predict_millis = elapsed(t_predict, predicted_at);
    let t_post = clock();
    let ghost whole = accumulated;
    let detections = finish(accumulated, adapter, way, &masks, &merge);
    let finished_at = clock();
    let postprocess_millis = elapsed(t_post, finished_at);
    let result = SahiPredictionResult {
        detections,
        slice_count: slices.len(),
        image_width,
        image_height,
        slice_millis,
        predict_millis,
        postprocess_millis,
    };
    proof {
        assert(call_ensures(clock, (), t_predict) && call_ensures(clock, (), predicted_at));
        assert(is_duration(predict_millis, clock));
        assert(call_ensures(clock, (), t_post) && call_ensures(clock, (), finished_at));
        assert(is_duration(postprocess_millis, clock));
        assert(whole@ == all->Ok_0);
        assert(is_finished(result, all->Ok_0, slices@, *image, slice_millis, *adapter, way, masks, merge, clock));
    }
    Ok(result)
}

/// A configured least score that is not low keeps the configured way of bringing boxes
/// together, however low the engine's own threshold is.
pub proof fn least_score_keeps_way(config: SahiConfig, threshold: Single)
    requires
        config.min_confidence is Some,
        !config.min_confidence->0.not_a_number(),
        !(Single { bits: LOW_MODEL_CONFIDENCE }).greater(config.min_confidence->0),
    ensures
        resolved(config, threshold).postprocess_type == config.postprocess_type,
        resolved(config, threshold).match_metric == config.match_metric,
{
}

/// Without a configured least score, boxes are dropped and not merged at a low threshold,
/// unless the way is forced.
pub proof fn low_threshold_drops_boxes(config: SahiConfig, threshold: Single)
    requires
        config.min_confidence is None,
        !config.force_postprocess_type,
        config.postprocess_type != PostprocessType::Nms,
        (Single { bits: LOW_MODEL_CONFIDENCE }).greater(threshold),
    ensures
        resolved(config, threshold).postprocess_type == PostprocessType::Nms,
        resolved(config, threshold).match_metric == MatchMetric::Iou,
{
}

/// Whether an adapter always answers alike.
pub open spec fn answers_alike<T, A: SahiResultAdapter<T>>(
    adapter: A,
    config: SahiConfig,
    shift_x: i32,
    shift_y: i32,
    full_width: i32,
    full_height: i32,
) -> bool {
    &&& forall|item: T|
        !(#[trigger] call_ensures(
            A::is_excluded,
            (&adapter, &item, &config.exclude_class_names, &config.exclude_class_ids),
            true,
        ) && call_ensures(
            A::is_excluded,
            (&adapter, &item, &config.exclude_class_names, &config.exclude_class_ids),
            false,
        ))
    &&& forall|item: T, a: Option<SahiBox>, b: Option<SahiBox>| #[trigger]
        call_ensures(A::to_box, (&adapter, &item, shift_x, shift_y, full_width, full_height), a)
            && #[trigger] call_ensures(
            A::to_box,
            (&adapter, &item, shift_x, shift_y, full_width, full_height),
            b,
        ) ==> a == b
}

/// Collecting with a configured least score is collecting without one and then dropping
/// the boxes with a lower score.
pub proof fn least_score_filters_boxes<T, A: SahiResultAdapter<T>>(
    with: Seq<SahiBox>,
    without: Seq<SahiBox>,
    raw: Seq<T>,
    adapter: A,
    config: SahiConfig,
    least: Single,
    shift_x: i32,
    shift_y: i32,
    full_width: i32,
    full_height: i32,
)
    requires
        answers_alike(adapter, config, shift_x, shift_y, full_width, full_height),
        config.min_confidence == Some(least),
        are_collected(with, Seq::empty(), raw, adapter, config, shift_x, shift_y, full_width, full_height),
        are_collected(
            without,
            Seq::empty(),
            raw,
            adapter,
            (SahiConfig { min_confidence: None, ..config }),
            shift_x,
            shift_y,
            full_width,
            full_height,
        ),
    ensures
        with == without.filter(|b: SahiBox| !least.greater(b.score)),
{
    let free = SahiConfig { min_confidence: None, ..config };
    let first = choose|outcomes: Seq<Option<SahiBox>>|
        #![trigger boxes_of(outcomes)]
        {
            &&& outcomes.len() == raw.len()
            &&& forall|i: int|
                0 <= i < raw.len() ==> is_collected(
                    #[trigger] outcomes[i],
                    raw[i],
                    adapter,
                    config,
                    shift_x,
                    shift_y,
                    full_width,
                    full_height,
                )
            &&& with == Seq::<SahiBox>::empty() + boxes_of(outcomes)
        };
    let second = choose|outcomes: Seq<Option<SahiBox>>|
        #![trigger boxes_of(outcomes)]
        {
            &&& outcomes.len() == raw.len()
            &&& forall|i: int|
                0 <= i < raw.len() ==> is_collected(
                    #[trigger] outcomes[i],
                    raw[i],
                    adapter,
                    free,
                    shift_x,
                    shift_y,
                    full_width,
                    full_height,
                )
            &&& without == Seq::<SahiBox>::empty() + boxes_of(outcomes)
        };
    assert forall|i: int| 0 <= i < raw.len() implies #[trigger] first[i] == strong_enough(second[i], least) by {
        assert(is_collected(first[i], raw[i], adapter, config, shift_x, shift_y, full_width, full_height));
        assert(is_collected(second[i], raw[i], adapter, free, shift_x, shift_y, full_width, full_height));
    }
    lemma_filtered(first, second, least);
    assert(with =~= boxes_of(first));
    assert(without =~= boxes_of(second));
}

/// A box, unless its score is below the least one.
spec fn strong_enough(boxed: Option<SahiBox>, least: Single) -> Option<SahiBox> {
    if is_too_weak(boxed, Some(least)) {
        None
    } else {
        boxed
    }
}

proof fn lemma_filtered(first: Seq<Option<SahiBox>>, second: Seq<Option<SahiBox>>, least: Single)
    requires
        first.len() == second.len(),
        forall|i: int| 0 <= i < first.len() ==> #[trigger] first[i] == strong_enough(second[i], least),
    ensures
        boxes_of(first) == boxes_of(second).filter(|b: SahiBox| !least.greater(b.score)),
    decreases first.len(),
{
    reveal(Seq::filter);
    let keep = |b: SahiBox| !least.greater(b.score);
    if first.len() > 0 {
        let (a, b) = (first.drop_last(), second.drop_last());
        assert forall|i: int| 0 <= i < a.len() implies #[trigger] a[i] == strong_enough(b[i], least) by {
            assert(first[i] == strong_enough(second[i], least));
        }
        lemma_filtered(a, b, least);
        assert(first[first.len() - 1] == strong_enough(second[second.len() - 1], least));
        if second.last() is Some {
            let longer = boxes_of(second);
            assert(longer.drop_last() =~= boxes_of(b));
            assert(longer.filter(keep) =~= if keep(second.last()->0) {
                boxes_of(b).filter(keep).push(second.last()->0)
            } else {
                boxes_of(b).filter(keep)
            });
        }
    } else {
        assert(boxes_of(second).filter(keep) =~= Seq::<SahiBox>::empty());
    }
}

/// No collected box has a score below the configured least one.
pub proof fn collected_boxes_are_strong<T, A: SahiResultAdapter<T>>(
    after: Seq<SahiBox>,
    before: Seq<SahiBox>,
    raw: Seq<T>,
    adapter: A,
    config: SahiConfig,
    shift_x: i32,
    shift_y: i32,
    full_width: i32,
    full_height: i32,
    i: int,
)
    requires
        are_collected(after, before, raw, adapter, config, shift_x, shift_y, full_width, full_height),
        before.len() <= i < after.len(),
        config.min_confidence is Some,
    ensures
        !config.min_confidence->0.greater(after[i].score),
{
    let outcomes = choose|outcomes: Seq<Option<SahiBox>>|
        #![trigger boxes_of(outcomes)]
        {
            &&& outcomes.len() == raw.len()
            &&& forall|i: int|
                0 <= i < raw.len() ==> is_collected(
                    #[trigger] outcomes[i],
                    raw[i],
                    adapter,
                    config,
                    shift_x,
                    shift_y,
                    full_width,
                    full_height,
                )
            &&& after == before + boxes_of(outcomes)
        };
    assert forall|k: int| 0 <= k < outcomes.len() && outcomes[k] is Some implies !config.min_confidence->0.greater(
        (#[trigger] outcomes[k])->0.score,
    ) by {
        assert(is_collected(
            outcomes[k],
            raw[k],
            adapter,
            config,
            shift_x,
            shift_y,
            full_width,
            full_height,
        ));
    }
    lemma_boxes_are_strong(outcomes, config.min_confidence->0, i - before.len());
}

proof fn lemma_boxes_are_strong(outcomes: Seq<Option<SahiBox>>, least: Single, i: int)
    requires
        forall|k: int|
            0 <= k < outcomes.len() && outcomes[k] is Some ==> !least.greater((#[trigger] outcomes[k])->0.score),
        0 <= i < boxes_of(outcomes).len(),
    ensures
        !least.greater(boxes_of(outcomes)[i].score),
    decreases outcomes.len(),
{
    if outcomes.len() > 0 {
        let shorter = outcomes.drop_last();
        if i < boxes_of(shorter).len() {
            assert forall|k: int| 0 <= k < shorter.len() && shorter[k] is Some implies !least.greater(
                (#[trigger] shorter[k])->0.score,
            ) by {
                assert(shorter[k] == outcomes[k]);
            }
            lemma_boxes_are_strong(shorter, least, i);
        } else {
            assert(outcomes[outcomes.len() - 1] is Some);
        }
    }
}

/// What is left of a list of outcomes are the boxes among them, each once and in order: they
/// stand at the places that are returned, and no other outcome is a box.
pub proof fn boxes_are_those_of_the_outcomes(outcomes: Seq<Option<SahiBox>>) -> (at: Seq<int>)
    ensures
        at.len() == boxes_of(outcomes).len(),
        forall|k: int|
            0 <= k < at.len() ==> 0 <= #[trigger] at[k] < outcomes.len() && outcomes[at[k]] == Some(
                boxes_of(outcomes)[k],
            ),
        forall|i: int, j: int| 0 <= i < j < at.len() ==> #[trigger] at[i] < #[trigger] at[j],
        forall|i: int| 0 <= i < outcomes.len() && #[trigger] outcomes[i] is Some ==> at.contains(i),
    decreases outcomes.len(),
{
    if outcomes.len() == 0 {
        Seq::empty()
    } else {
        let shorter = outcomes.drop_last();
        let last = outcomes.len() - 1;
        let before = boxes_are_those_of_the_outcomes(shorter);
        let at = if outcomes.last() is Some {
            before.push(last)
        } else {
            before
        };
        assert forall|k: int| 0 <= k < at.len() implies 0 <= #[trigger] at[k] < outcomes.len() && outcomes[at[k]]
            == Some(boxes_of(outcomes)[k]) by {
            if k < before.len() {
                assert(at[k] == before[k]);
                assert(shorter[before[k]] == outcomes[before[k]]);
            }
        }
        assert forall|i: int, j: int| 0 <= i < j < at.len() implies #[trigger] at[i] < #[trigger] at[j] by {
            assert(at[i] == before[i]);
            if j < before.len() {
                assert(at[j] == before[j]);
            }
        }
        assert forall|i: int| 0 <= i < outcomes.len() && #[trigger] outcomes[i] is Some implies at.contains(i) by {
            if i < last {
                assert(shorter[i] == outcomes[i]);
                assert(before.contains(i));
                let k = choose|k: int| 0 <= k < before.len() && before[k] == i;
                assert(at[k] == i);
            } else {
                assert(at[before.len() as int] == i);
            }
        }
        at
    }
}

/// Collecting keeps the boxes from before and adds boxes of predictions in their order: each is
/// what the adapter gives for a prediction that is not excluded, moved by the given columns and
/// rows, and its score is not below the least one.
pub proof fn collected_boxes_are_those_of_predictions<T, A: SahiResultAdapter<T>>(
    after: Seq<SahiBox>,
    before: Seq<SahiBox>,
    raw: Seq<T>,
    adapter: A,
    config: SahiConfig,
    shift_x: i32,
    shift_y: i32,
    full_width: i32,
    full_height: i32,
) -> (at: Seq<int>)
    requires
        are_collected(after, before, raw, adapter, config, shift_x, shift_y, full_width, full_height),
    ensures
        after.len() == before.len() + at.len(),
        after.take(before.len() as int) == before,
        forall|i: int, j: int| 0 <= i < j < at.len() ==> #[trigger] at[i] < #[trigger] at[j],
        forall|k: int|
            0 <= k < at.len() ==> {
                &&& 0 <= #[trigger] at[k] < raw.len()
                &&& call_ensures(
                    A::is_excluded,
                    (&adapter, &raw[at[k]], &config.exclude_class_names, &config.exclude_class_ids),
                    false,
                )
                &&& call_ensures(
                    A::to_box,
                    (&adapter, &raw[at[k]], shift_x, shift_y, full_width, full_height),
                    Some(after[before.len() + k]),
                )
                &&& config.min_confidence is Some ==> !config.min_confidence->0.greater(
                    after[before.len() + k].score,
                )
            },
        forall|i: int|
            #![trigger raw[i]]
            0 <= i < raw.len() && !at.contains(i) ==> call_ensures(
                A::is_excluded,
                (&adapter, &raw[i], &config.exclude_class_names, &config.exclude_class_ids),
                true,
            ) || call_ensures(A::to_box, (&adapter, &raw[i], shift_x, shift_y, full_width, full_height), None) || (
            config.min_confidence is Some && exists|b: SahiBox| #[trigger]
                call_ensures(A::to_box, (&adapter, &raw[i], shift_x, shift_y, full_width, full_height), Some(b))
                    && config.min_confidence->0.greater(b.score)),
{
    let outcomes = choose|outcomes: Seq<Option<SahiBox>>|
        #![trigger boxes_of(outcomes)]
        {
            &&& outcomes.len() == raw.len()
            &&& forall|i: int|
                0 <= i < raw.len() ==> is_collected(
                    #[trigger] outcomes[i],
                    raw[i],
                    adapter,
                    config,
                    shift_x,
                    shift_y,
                    full_width,
                    full_height,
                )
            &&& after == before + boxes_of(outcomes)
        };
    let at = boxes_are_those_of_the_outcomes(outcomes);
    assert(after.take(before.len() as int) =~= before);
    assert forall|k: int| 0 <= k < at.len() implies {
        &&& 0 <= #[trigger] at[k] < raw.len()
        &&& call_ensures(
            A::is_excluded,
            (&adapter, &raw[at[k]], &config.exclude_class_names, &config.exclude_class_ids),
            false,
        )
        &&& call_ensures(
            A::to_box,
            (&adapter, &raw[at[k]], shift_x, shift_y, full_width, full_height),
            Some(after[before.len() + k]),
        )
        &&& config.min_confidence is Some ==> !config.min_confidence->0.greater(after[before.len() + k].score)
    } by {
        assert(outcomes[at[k]] == Some(boxes_of(outcomes)[k]));
        assert(is_collected(
            outcomes[at[k]],
            raw[at[k]],
            adapter,
            config,
            shift_x,
            shift_y,
            full_width,
            full_height,
        ));
    }
    assert forall|i: int|
        #![trigger raw[i]]
        0 <= i < raw.len() && !at.contains(i) implies call_ensures(
        A::is_excluded,
        (&adapter, &raw[i], &config.exclude_class_names, &config.exclude_class_ids),
        true,
    ) || call_ensures(A::to_box, (&adapter, &raw[i], shift_x, shift_y, full_width, full_height), None) || (
    config.min_confidence is Some && exists|b: SahiBox| #[trigger]
        call_ensures(A::to_box, (&adapter, &raw[i], shift_x, shift_y, full_width, full_height), Some(b))
            && config.min_confidence->0.greater(b.score)) by {
        assert(outcomes[i] is None);
        assert(is_collected(outcomes[i], raw[i], adapter, config, shift_x, shift_y, full_width, full_height));
        if !call_ensures(
            A::is_excluded,
            (&adapter, &raw[i], &config.exclude_class_names, &config.exclude_class_ids),
            true,
        ) {
            let boxed = choose|boxed: Option<SahiBox>| #[trigger]
                call_ensures(A::to_box, (&adapter, &raw[i], shift_x, shift_y, full_width, full_height), boxed)
                    && if is_too_weak(boxed, config.min_confidence) {
                    outcomes[i] is None
                } else {
                    outcomes[i] == boxed
                };
            if boxed is Some {
                assert(call_ensures(
                    A::to_box,
                    (&adapter, &raw[i], shift_x, shift_y, full_width, full_height),
                    Some(boxed->0),
                ));
            }
        }
    }
    at
}

/// A slice that lies in the image is the part of it between its left and its right, its top and
/// its bottom.
pub proof fn slices_show_their_part(cut: Image, image: Image, slice: Slice, x: int, y: int, c: int)
    requires
        image.wf(),
        is_slice(Ok(cut), image, slice),
        0 <= slice[0] < slice[2] <= image@.width,
        0 <= slice[1] < slice[3] <= image@.height,
        0 <= x < slice[2] - slice[0],
        0 <= y < slice[3] - slice[1],
        0 <= c < image@.channels,
    ensures
        cut@.width == slice[2] - slice[0],
        cut@.height == slice[3] - slice[1],
        cut@.channels == image@.channels,
        cut@.data[(y * cut@.width + x) * image@.channels + c] == image@.data[((slice[1] + y) * image@.width + (slice[0]
            + x)) * image@.channels + c],
{
    cut_out_bytes_are_those_of_the_whole(cut@, image@, slice[0] as int, slice[1] as int, x, y, c);
}

/// Whether a box is what the adapter gives for a prediction on a slice, moved by the left and
/// the top of that slice.
pub open spec fn is_box_of_slice<T, A: SahiResultAdapter<T>, P: SahiSinglePredictor<T>>(
    b: SahiBox,
    cut: Image,
    raw: Vec<T>,
    k: int,
    slice: Slice,
    image: Image,
    adapter: A,
    single: P,
) -> bool {
    &&& is_slice(Ok(cut), image, slice)
    &&& call_ensures(P::predict_single, (&single, &cut), Ok(raw))
    &&& 0 <= k < raw.len()
    &&& call_ensures(
        A::to_box,
        (&adapter, &raw@[k], slice[0], slice[1], image@.width as i32, image@.height as i32),
        Some(b),
    )
}

/// One slice adds boxes behind those from before. Each is what the adapter gives for a prediction
/// on this slice, moved by the left of the slice to the right and by its top down, in an image of
/// the full size. If there are then more than the buffer holds, all of them are merged.
pub proof fn a_slice_adds_its_own_boxes<
    T,
    A: SahiResultAdapter<T>,
    P: SahiSinglePredictor<T>,
    M: Fn(&Vec<SahiBox>, MergeWay, &A::MaskMerger) -> Vec<SahiBox>,
>(
    after: Seq<SahiBox>,
    before: Seq<SahiBox>,
    slice: Slice,
    image: Image,
    config: SahiConfig,
    adapter: A,
    single: P,
    way: MergeWay,
    masks: A::MaskMerger,
    merge: M,
) -> (r: (Vec<T>, Vec<SahiBox>, Image, Seq<int>))
    requires
        is_slice_step(after, before, slice, image, config, adapter, single, way, masks, merge),
    ensures
        ({
            let (raw, all, cut, at) = r;
            let n = before.len() as int;
            &&& is_slice(Ok(cut), image, slice)
            &&& call_ensures(P::predict_single, (&single, &cut), Ok(raw))
            &&& all@.len() == n + at.len()
            &&& all@.take(n) == before
            &&& forall|i: int, j: int| 0 <= i < j < at.len() ==> #[trigger] at[i] < #[trigger] at[j]
            &&& forall|k: int|
                0 <= k < at.len() ==> 0 <= #[trigger] at[k] < raw.len() && call_ensures(
                    A::to_box,
                    (&adapter, &raw@[at[k]], slice[0], slice[1], image@.width as i32, image@.height as i32),
                    Some(all@[n + k]),
                )
            &&& config.merge_buffer_length is None ==> after == all@
            &&& config.merge_buffer_length is Some ==> if 0 <= config.merge_buffer_length->0 < all.len() {
                exists|merged: Vec<SahiBox>| #[trigger]
                    call_ensures(merge, (&all, way, &masks), merged) && after == merged@
            } else {
                after == all@
            }
        }),
{
    let (left, top) = (slice[0], slice[1]);
    let (raw, all) = choose|raw: Vec<T>, all: Vec<SahiBox>|
        #![trigger is_slice_prediction(Ok(raw), single, image, slice), all@]
        {
            &&& is_slice_prediction(Ok(raw), single, image, slice)
            &&& are_collected(
                all@,
                before,
                raw@,
                adapter,
                config,
                left,
                top,
                image@.width as i32,
                image@.height as i32,
            )
            &&& is_buffered(after, all, config.merge_buffer_length, way, masks, merge)
        };
    let ok: Result<Vec<T>, VisionError> = Ok(raw);
    let cut = choose|cut: Image|
        is_slice(Ok(cut), image, slice) && #[trigger] call_ensures(P::predict_single, (&single, &cut), ok);
    let at = collected_boxes_are_those_of_predictions(
        all@,
        before,
        raw@,
        adapter,
        config,
        left,
        top,
        image@.width as i32,
        image@.height as i32,
    );
    (raw, all, cut, at)
}

/// Without a buffer each box that the slices give together is that of a prediction on one of the
/// slices, moved by the left and the top of that very slice.
pub proof fn boxes_stand_where_their_slice_stands<
    T,
    A: SahiResultAdapter<T>,
    P: SahiSinglePredictor<T>,
    M: Fn(&Vec<SahiBox>, MergeWay, &A::MaskMerger) -> Vec<SahiBox>,
>(
    boxes: Vec<SahiBox>,
    slices: Seq<Slice>,
    image: Image,
    config: SahiConfig,
    adapter: A,
    single: P,
    way: MergeWay,
    masks: A::MaskMerger,
    merge: M,
    k: int,
) -> (r: (int, Vec<T>, Image, int))
    requires
        are_slice_boxes(Ok(boxes), slices, image, config, adapter, single, way, masks, merge),
        config.merge_buffer_length is None,
        0 <= k < boxes.len(),
    ensures
        ({
            let (i, raw, cut, j) = r;
            &&& 0 <= i < slices.len()
            &&& is_slice(Ok(cut), image, slices[i])
            &&& call_ensures(P::predict_single, (&single, &cut), Ok(raw))
            &&& 0 <= j < raw.len()
            &&& call_ensures(
                A::to_box,
                (&adapter, &raw@[j], slices[i][0], slices[i][1], image@.width as i32, image@.height as i32),
                Some(boxes@[k]),
            )
        }),
{
    let ok: Result<Vec<SahiBox>, VisionError> = Ok(boxes);
    let states = choose|states: Seq<Seq<SahiBox>>| #[trigger]
        are_slice_states(states, slices, image, config, adapter, single, way, masks, merge) && match ok {
            Ok(boxes) => states.len() == slices.len() + 1 && boxes@ == states.last(),
            Err(e) => states.len() <= slices.len() && is_slice_prediction::<T, P>(
                Err(e),
                single,
                image,
                slices[states.len() - 1],
            ),
        };
    lemma_box_of_state(states, slices, image, config, adapter, single, way, masks, merge, slices.len() as int, k)
}

proof fn lemma_box_of_state<
    T,
    A: SahiResultAdapter<T>,
    P: SahiSinglePredictor<T>,
    M: Fn(&Vec<SahiBox>, MergeWay, &A::MaskMerger) -> Vec<SahiBox>,
>(
    states: Seq<Seq<SahiBox>>,
    slices: Seq<Slice>,
    image: Image,
    config: SahiConfig,
    adapter: A,
    single: P,
    way: MergeWay,
    masks: A::MaskMerger,
    merge: M,
    s: int,
    k: int,
) -> (r: (int, Vec<T>, Image, int))
    requires
        are_slice_states(states, slices, image, config, adapter, single, way, masks, merge),
        config.merge_buffer_length is None,
        0 <= s < states.len(),
        0 <= k < states[s].len(),
    ensures
        0 <= r.0 < slices.len(),
        is_box_of_slice(states[s][k], r.2, r.1, r.3, slices[r.0], image, adapter, single),
    decreases s,
{
    assert(s > 0);
    let (raw, all, cut, at) = a_slice_adds_its_own_boxes(
        states[s],
        states[s - 1],
        slices[s - 1],
        image,
        config,
        adapter,
        single,
        way,
        masks,
        merge,
    );
    let n = states[s - 1].len() as int;
    if k < n {
        assert(all@.take(n)[k] == all@[k]);
        lemma_box_of_state(states, slices, image, config, adapter, single, way, masks, merge, s - 1, k)
    } else {
        assert(0 <= at[k - n] < raw.len());
        (s - 1, raw, cut, at[k - n])
    }
}

/// The prediction on the whole image, which is made where there are several slices and it is
/// wanted, adds its boxes as they stand behind those of the slices.
pub proof fn whole_image_boxes_are_not_moved<T, A: SahiResultAdapter<T>, P: SahiSinglePredictor<T>>(
    all: Seq<SahiBox>,
    boxes: Seq<SahiBox>,
    slices: Seq<Slice>,
    image: Image,
    config: SahiConfig,
    adapter: A,
    single: P,
) -> (r: (Vec<T>, Seq<int>))
    requires
        is_completed(Ok(all), boxes, slices, image, config, adapter, single),
    ensures
        !(slices.len() > 1 && config.perform_standard_prediction) ==> all == boxes,
        slices.len() > 1 && config.perform_standard_prediction ==> {
            let (raw, at) = r;
            let n = boxes.len() as int;
            &&& call_ensures(P::predict_single, (&single, &image), Ok(raw))
            &&& all.len() == n + at.len()
            &&& all.take(n) == boxes
            &&& forall|k: int|
                0 <= k < at.len() ==> 0 <= #[trigger] at[k] < raw.len() && call_ensures(
                    A::to_box,
                    (&adapter, &raw@[at[k]], 0, 0, image@.width as i32, image@.height as i32),
                    Some(all[n + k]),
                )
        },
{
    if slices.len() > 1 && config.perform_standard_prediction {
        let result: Result<Seq<SahiBox>, VisionError> = Ok(all);
        let reply = choose|reply: Result<Vec<T>, VisionError>| #[trigger]
            call_ensures(P::predict_single, (&single, &image), reply) && match reply {
                Err(e) => result is Err && result->Err_0 == e,
                Ok(raw) => result is Ok && are_collected(
                    result->Ok_0,
                    boxes,
                    raw@,
                    adapter,
                    config,
                    0,
                    0,
                    image@.width as i32,
                    image@.height as i32,
                ),
            };
        let raw = reply->Ok_0;
        let at = collected_boxes_are_those_of_predictions(
            all,
            boxes,
            raw@,
            adapter,
            config,
            0,
            0,
            image@.width as i32,
            image@.height as i32,
        );
        (raw, at)
    } else {
        (arbitrary(), arbitrary())
    }
}

/// Boxes are always brought together at the configured overlap and across the configured classes.
/// Only where the way is not forced and the threshold is below a tenth, they are dropped, by what
/// they share of their union; in all other cases the configured way and measure are kept.
pub proof fn way_is_the_configured_one(config: SahiConfig, threshold: Single)
    ensures
        resolved(config, threshold).match_threshold == config.match_threshold,
        resolved(config, threshold).class_agnostic == config.class_agnostic,
        !threshold.not_a_number() && !(Single { bits: 0x3dcc_cccd }).greater(threshold) ==> resolved(
            config,
            threshold,
        ).postprocess_type == config.postprocess_type && resolved(config, threshold).match_metric
            == config.match_metric,
        !config.force_postprocess_type && config.postprocess_type != PostprocessType::Nms && (Single {
            bits: 0x3dcc_cccd,
        }).greater(threshold) && (config.min_confidence is Some ==> (Single { bits: 0x3dcc_cccd }).greater(
            config.min_confidence->0,
        )) ==> resolved(config, threshold).postprocess_type == PostprocessType::Nms && resolved(
            config,
            threshold,
        ).match_metric == MatchMetric::Iou,
        config.force_postprocess_type ==> resolved(config, threshold).postprocess_type == config.postprocess_type
            && resolved(config, threshold).match_metric == config.match_metric,
        config.postprocess_type == PostprocessType::Nms ==> resolved(config, threshold).match_metric
            == config.match_metric,
{
}

/// A prediction has one result for each box that is left, in their order. Two boxes or more are
/// brought together in the resolved way; a single one is left as it is. The result also says how
/// many slices there were and how large the image was.
pub proof fn results_are_those_of_the_boxes_left<
    T,
    A: SahiResultAdapter<T>,
    M: Fn(&Vec<SahiBox>, MergeWay, &A::MaskMerger) -> Vec<SahiBox>,
    K: Fn() -> u64,
>(
    result: SahiPredictionResult<T>,
    all: Seq<SahiBox>,
    slices: Seq<Slice>,
    image: Image,
    slice_millis: u64,
    adapter: A,
    way: MergeWay,
    masks: A::MaskMerger,
    merge: M,
    clock: K,
) -> (r: (Vec<SahiBox>, Seq<SahiBox>))
    requires
        is_finished(result, all, slices, image, slice_millis, adapter, way, masks, merge, clock),
    ensures
        ({
            let (boxes, merged) = r;
            &&& boxes@ == all
            &&& all.len() <= 1 ==> merged == all
            &&& all.len() > 1 ==> exists|v: Vec<SahiBox>| #[trigger]
                call_ensures(merge, (&boxes, way, &masks), v) && merged == v@
            &&& result.detections.len() == merged.len()
            &&& forall|i: int|
                0 <= i < merged.len() ==> call_ensures(
                    A::to_result,
                    (&adapter, &merged[i]),
                    #[trigger] result.detections@[i],
                )
            &&& result.slice_count == slices.len()
            &&& result.image_width == image@.width
            &&& result.image_height == image@.height
            &&& result.slice_millis == slice_millis
        }),
{
    let (v, merged) = choose|v: Vec<SahiBox>, merged: Seq<SahiBox>|
        v@ == all && #[trigger] is_brought_together(merged, v, way, masks, merge) && are_results(
            result.detections@,
            merged,
            adapter,
        );
    (v, merged)
}

/// Between the slices boxes are brought together only if there are more of them than the buffer
/// holds; without a buffer, or with a negative one, never.
pub proof fn buffered_boxes_stay_until_there_are_too_many<G, M: Fn(&Vec<SahiBox>, MergeWay, &G) -> Vec<SahiBox>>(
    after: Seq<SahiBox>,
    all: Vec<SahiBox>,
    buffer: Option<i32>,
    way: MergeWay,
    masks: G,
    merge: M,
)
    requires
        is_buffered(after, all, buffer, way, masks, merge),
    ensures
        buffer is None ==> after == all@,
        buffer is Some && (buffer->0 < 0 || all.len() <= buffer->0) ==> after == all@,
        buffer is Some && 0 <= buffer->0 < all.len() ==> exists|merged: Vec<SahiBox>| #[trigger]
            call_ensures(merge, (&all, way, &masks), merged) && after == merged@,
{
}

} // verus!
