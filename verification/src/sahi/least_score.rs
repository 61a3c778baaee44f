//! A least score against the threshold of an engine.
//!
//! An engine can be opened with a low threshold, and the threshold raised for one image by a
//! least score. The laws here say that this is the same as an engine that was opened with
//! the higher threshold.

use vstd::prelude::*;

use crate::error::VisionError;
use crate::ieee::Single;
use crate::imaging::image::Image;
use crate::sahi::config::{SahiBox, SahiConfig};
use crate::sahi::sliced_predictor::{are_collected, are_slice_boxes, are_slice_states, boxes_of, is_buffered, is_collected,
    is_completed, is_finished, is_prediction_with, is_slice, is_slice_prediction, is_slice_step, is_sliced_prediction,
    predicts_whole, resolved, MergeWay, SahiPredictionResult, SahiResultAdapter, SahiSinglePredictor, Slice};

verus! {

/// The configuration without a least score.
pub open spec fn without_least_score(config: SahiConfig) -> SahiConfig {
    SahiConfig { min_confidence: None, ..config }
}

/// Whether `filtered` is an answer without the predictions that are not kept.
pub open spec fn is_filtered<T>(
    filtered: Result<Vec<T>, VisionError>,
    answer: Result<Vec<T>, VisionError>,
    keeps: spec_fn(T) -> bool,
) -> bool {
    match answer {
        Ok(raw) => filtered is Ok && filtered->Ok_0@ == raw@.filter(keeps),
        Err(e) => filtered is Err && filtered->Err_0 == e,
    }
}

/// Whether one predictor answers as another one does, without the predictions that are not
/// kept.
pub open spec fn filters<T, P: SahiSinglePredictor<T>, Q: SahiSinglePredictor<T>>(
    filtered: Q,
    single: P,
    keeps: spec_fn(T) -> bool,
) -> bool {
    &&& forall|image: Image, answer: Result<Vec<T>, VisionError>| #[trigger]
        call_ensures(P::predict_single, (&single, &image), answer) ==> exists|less: Result<Vec<T>, VisionError>|
            #[trigger] call_ensures(Q::predict_single, (&filtered, &image), less) && is_filtered(less, answer, keeps)
    &&& forall|image: Image, less: Result<Vec<T>, VisionError>| #[trigger]
        call_ensures(Q::predict_single, (&filtered, &image), less) ==> exists|answer: Result<Vec<T>, VisionError>|
            #[trigger] call_ensures(P::predict_single, (&single, &image), answer) && is_filtered(less, answer, keeps)
}

/// Whether the predictions that are kept are those whose box has a score that is not below
/// the least one, wherever the box is moved to.
pub open spec fn keeps_strong<T, A: SahiResultAdapter<T>>(
    keeps: spec_fn(T) -> bool,
    adapter: A,
    least: Single,
) -> bool {
    forall|item: T, shift_x: i32, shift_y: i32, full_width: i32, full_height: i32, b: SahiBox| #[trigger]
        call_ensures(A::to_box, (&adapter, &item, shift_x, shift_y, full_width, full_height), Some(b)) ==> (keeps(
            item,
        ) <==> !least.greater(b.score))
}

/// Whether an adapter has an answer for a prediction.
pub open spec fn has_outcome<T, A: SahiResultAdapter<T>>(
    item: T,
    adapter: A,
    config: SahiConfig,
    shift_x: i32,
    shift_y: i32,
    full_width: i32,
    full_height: i32,
) -> bool {
    exists|outcome: Option<SahiBox>| #[trigger]
        is_collected(outcome, item, adapter, config, shift_x, shift_y, full_width, full_height)
}

/// Whether an adapter has an answer for every prediction.
pub open spec fn answers<T, A: SahiResultAdapter<T>>(adapter: A, config: SahiConfig) -> bool {
    forall|item: T, shift_x: i32, shift_y: i32, full_width: i32, full_height: i32| #[trigger]
        has_outcome(item, adapter, config, shift_x, shift_y, full_width, full_height)
}

/// A least score acts as the threshold of an engine does: what sliced prediction gives with
/// a least score, it also gives without one, for an engine whose threshold is the greater of
/// its own and the least score, and which answers without the predictions whose boxes have a
/// lower score.
pub proof fn least_score_acts_as_threshold<
    T,
    A: SahiResultAdapter<T>,
    P: SahiSinglePredictor<T>,
    Q: SahiSinglePredictor<T>,
    M: Fn(&Vec<SahiBox>, MergeWay, &A::MaskMerger) -> Vec<SahiBox>,
    K: Fn() -> u64,
>(
    r: Result<SahiPredictionResult<T>, VisionError>,
    image: Image,
    config: SahiConfig,
    adapter: A,
    threshold: Single,
    single: P,
    filtered: Q,
    keeps: spec_fn(T) -> bool,
    slices: Seq<Slice>,
    slice_millis: u64,
    merge: M,
    clock: K,
)
    requires
        config.min_confidence is Some,
        keeps_strong(keeps, adapter, config.min_confidence->0),
        filters(filtered, single, keeps),
        is_sliced_prediction(r, image, config, adapter, threshold, single, slices, slice_millis, merge, clock),
    ensures
        is_sliced_prediction(
            r,
            image,
            without_least_score(config),
            adapter,
            threshold.max(config.min_confidence->0),
            filtered,
            slices,
            slice_millis,
            merge,
            clock,
        ),
{
    let free = without_least_score(config);
    assert forall|at: Image, answer: Result<Vec<T>, VisionError>| #[trigger]
        call_ensures(P::predict_single, (&single, &at), answer) implies exists|less: Result<Vec<T>, VisionError>|
        #[trigger] call_ensures(Q::predict_single, (&filtered, &at), less) && is_collected_alike(
            answer,
            less,
            adapter,
            config,
            free,
        ) by {
        let less = choose|less: Result<Vec<T>, VisionError>| #[trigger]
            call_ensures(Q::predict_single, (&filtered, &at), less) && is_filtered(less, answer, keeps);
        lemma_less_collected(answer, less, adapter, config, keeps);
    }
    lemma_same_prediction(
        r,
        image,
        config,
        free,
        adapter,
        threshold,
        threshold.max(config.min_confidence->0),
        single,
        filtered,
        slices,
        slice_millis,
        merge,
        clock,
    );
}

/// The threshold of an engine acts as a least score does: what sliced prediction gives
/// without a least score, for an engine that answers without the predictions whose boxes have
/// a lower score, it also gives with that least score, for an engine that answers with them.
pub proof fn threshold_acts_as_least_score<
    T,
    A: SahiResultAdapter<T>,
    P: SahiSinglePredictor<T>,
    Q: SahiSinglePredictor<T>,
    M: Fn(&Vec<SahiBox>, MergeWay, &A::MaskMerger) -> Vec<SahiBox>,
    K: Fn() -> u64,
>(
    r: Result<SahiPredictionResult<T>, VisionError>,
    image: Image,
    config: SahiConfig,
    adapter: A,
    threshold: Single,
    single: P,
    filtered: Q,
    keeps: spec_fn(T) -> bool,
    slices: Seq<Slice>,
    slice_millis: u64,
    merge: M,
    clock: K,
)
    requires
        config.min_confidence is Some,
        answers(adapter, config),
        keeps_strong(keeps, adapter, config.min_confidence->0),
        filters(filtered, single, keeps),
        is_sliced_prediction(
            r,
            image,
            without_least_score(config),
            adapter,
            threshold.max(config.min_confidence->0),
            filtered,
            slices,
            slice_millis,
            merge,
            clock,
        ),
    ensures
        is_sliced_prediction(r, image, config, adapter, threshold, single, slices, slice_millis, merge, clock),
{
    let free = without_least_score(config);
    assert forall|at: Image, less: Result<Vec<T>, VisionError>| #[trigger]
        call_ensures(Q::predict_single, (&filtered, &at), less) implies exists|answer: Result<Vec<T>, VisionError>|
        #[trigger] call_ensures(P::predict_single, (&single, &at), answer) && is_collected_alike(
            less,
            answer,
            adapter,
            free,
            config,
        ) by {
        let answer = choose|answer: Result<Vec<T>, VisionError>| #[trigger]
            call_ensures(P::predict_single, (&single, &at), answer) && is_filtered(less, answer, keeps);
        lemma_more_collected(answer, less, adapter, config, keeps);
    }
    lemma_same_prediction(
        r,
        image,
        free,
        config,
        adapter,
        threshold.max(config.min_confidence->0),
        threshold,
        filtered,
        single,
        slices,
        slice_millis,
        merge,
        clock,
    );
}

/// Whether what is collected from one answer is also collected from another.
spec fn is_collected_alike<T, A: SahiResultAdapter<T>>(
    first: Result<Vec<T>, VisionError>,
    second: Result<Vec<T>, VisionError>,
    adapter: A,
    one: SahiConfig,
    other: SahiConfig,
) -> bool {
    match first {
        Err(e) => second is Err && second->Err_0 == e,
        Ok(raw) => second is Ok && forall|
            after: Seq<SahiBox>,
            before: Seq<SahiBox>,
            shift_x: i32,
            shift_y: i32,
            full_width: i32,
            full_height: i32,
        | #[trigger]
            are_collected(after, before, raw@, adapter, one, shift_x, shift_y, full_width, full_height)
                ==> are_collected(
                after,
                before,
                second->Ok_0@,
                adapter,
                other,
                shift_x,
                shift_y,
                full_width,
                full_height,
            ),
    }
}

/// Whether `outcomes` are those of the predictions.
spec fn are_outcomes_of<T, A: SahiResultAdapter<T>>(
    outcomes: Seq<Option<SahiBox>>,
    raw: Seq<T>,
    adapter: A,
    config: SahiConfig,
    shift_x: i32,
    shift_y: i32,
    full_width: i32,
    full_height: i32,
) -> bool {
    &&& outcomes.len() == raw.len()
    &&& forall|i: int|
        0 <= i < raw.len() ==> is_collected(
            #[trigger] outcomes[i],
            raw[i],
            adapter,
            config,
            shift_x,
            shift_y,
            full_width,
            full_height,
        )
}

proof fn lemma_shorter_outcomes<T, A: SahiResultAdapter<T>>(
    outcomes: Seq<Option<SahiBox>>,
    raw: Seq<T>,
    adapter: A,
    config: SahiConfig,
    shift_x: i32,
    shift_y: i32,
    full_width: i32,
    full_height: i32,
)
    requires
        are_outcomes_of(outcomes, raw, adapter, config, shift_x, shift_y, full_width, full_height),
        raw.len() > 0,
    ensures
        are_outcomes_of(
            outcomes.drop_last(),
            raw.drop_last(),
            adapter,
            config,
            shift_x,
            shift_y,
            full_width,
            full_height,
        ),
        is_collected(outcomes.last(), raw.last(), adapter, config, shift_x, shift_y, full_width, full_height),
{
    let shorter = outcomes.drop_last();
    assert forall|i: int| 0 <= i < raw.drop_last().len() implies is_collected(
        #[trigger] shorter[i],
        raw.drop_last()[i],
        adapter,
        config,
        shift_x,
        shift_y,
        full_width,
        full_height,
    ) by {
        assert(shorter[i] == outcomes[i]);
    }
    assert(outcomes[outcomes.len() - 1] == outcomes.last());
}

proof fn lemma_longer_outcomes<T, A: SahiResultAdapter<T>>(
    outcomes: Seq<Option<SahiBox>>,
    raw: Seq<T>,
    outcome: Option<SahiBox>,
    item: T,
    adapter: A,
    config: SahiConfig,
    shift_x: i32,
    shift_y: i32,
    full_width: i32,
    full_height: i32,
)
    requires
        are_outcomes_of(outcomes, raw, adapter, config, shift_x, shift_y, full_width, full_height),
        is_collected(outcome, item, adapter, config, shift_x, shift_y, full_width, full_height),
    ensures
        are_outcomes_of(
            outcomes.push(outcome),
            raw.push(item),
            adapter,
            config,
            shift_x,
            shift_y,
            full_width,
            full_height,
        ),
        boxes_of(outcomes.push(outcome)) == match outcome {
            Some(b) => boxes_of(outcomes).push(b),
            None => boxes_of(outcomes),
        },
{
    let longer = outcomes.push(outcome);
    assert forall|i: int| 0 <= i < raw.push(item).len() implies is_collected(
        #[trigger] longer[i],
        raw.push(item)[i],
        adapter,
        config,
        shift_x,
        shift_y,
        full_width,
        full_height,
    ) by {
        if i < outcomes.len() {
            assert(longer[i] == outcomes[i]);
        }
    }
    assert(longer.drop_last() =~= outcomes);
}

/// The outcomes of the predictions that are kept.
proof fn lemma_kept_outcomes<T, A: SahiResultAdapter<T>>(
    outcomes: Seq<Option<SahiBox>>,
    raw: Seq<T>,
    adapter: A,
    config: SahiConfig,
    keeps: spec_fn(T) -> bool,
    shift_x: i32,
    shift_y: i32,
    full_width: i32,
    full_height: i32,
) -> (less: Seq<Option<SahiBox>>)
    requires
        config.min_confidence is Some,
        keeps_strong(keeps, adapter, config.min_confidence->0),
        are_outcomes_of(outcomes, raw, adapter, config, shift_x, shift_y, full_width, full_height),
    ensures
        are_outcomes_of(
            less,
            raw.filter(keeps),
            adapter,
            without_least_score(config),
            shift_x,
            shift_y,
            full_width,
            full_height,
        ),
        boxes_of(less) == boxes_of(outcomes),
    decreases raw.len(),
{
    reveal(Seq::filter);
    if raw.len() == 0 {
        outcomes
    } else {
        let free = without_least_score(config);
        let (item, outcome) = (raw.last(), outcomes.last());
        lemma_shorter_outcomes(outcomes, raw, adapter, config, shift_x, shift_y, full_width, full_height);
        let less = lemma_kept_outcomes(
            outcomes.drop_last(),
            raw.drop_last(),
            adapter,
            config,
            keeps,
            shift_x,
            shift_y,
            full_width,
            full_height,
        );
        if keeps(item) {
            assert(is_collected(outcome, item, adapter, free, shift_x, shift_y, full_width, full_height));
            lemma_longer_outcomes(
                less,
                raw.drop_last().filter(keeps),
                outcome,
                item,
                adapter,
                free,
                shift_x,
                shift_y,
                full_width,
                full_height,
            );
            less.push(outcome)
        } else {
            assert(outcome is None);
            less
        }
    }
}

/// The outcomes of all predictions, from those that are kept.
proof fn lemma_all_outcomes<T, A: SahiResultAdapter<T>>(
    less: Seq<Option<SahiBox>>,
    raw: Seq<T>,
    adapter: A,
    config: SahiConfig,
    keeps: spec_fn(T) -> bool,
    shift_x: i32,
    shift_y: i32,
    full_width: i32,
    full_height: i32,
) -> (outcomes: Seq<Option<SahiBox>>)
    requires
        config.min_confidence is Some,
        answers(adapter, config),
        keeps_strong(keeps, adapter, config.min_confidence->0),
        are_outcomes_of(
            less,
            raw.filter(keeps),
            adapter,
            without_least_score(config),
            shift_x,
            shift_y,
            full_width,
            full_height,
        ),
    ensures
        are_outcomes_of(outcomes, raw, adapter, config, shift_x, shift_y, full_width, full_height),
        boxes_of(less) == boxes_of(outcomes),
    decreases raw.len(),
{
    reveal(Seq::filter);
    if raw.len() == 0 {
        less
    } else {
        let free = without_least_score(config);
        let item = raw.last();
        let rest = if keeps(item) {
            assert(raw.filter(keeps).drop_last() =~= raw.drop_last().filter(keeps));
            lemma_shorter_outcomes(
                less,
                raw.filter(keeps),
                adapter,
                free,
                shift_x,
                shift_y,
                full_width,
                full_height,
            );
            less.drop_last()
        } else {
            less
        };
        let shorter = lemma_all_outcomes(
            rest,
            raw.drop_last(),
            adapter,
            config,
            keeps,
            shift_x,
            shift_y,
            full_width,
            full_height,
        );
        let outcome = if keeps(item) {
            less.last()
        } else {
            assert(has_outcome(item, adapter, config, shift_x, shift_y, full_width, full_height));
            choose|outcome: Option<SahiBox>| #[trigger]
                is_collected(outcome, item, adapter, config, shift_x, shift_y, full_width, full_height)
        };
        assert(is_collected(outcome, item, adapter, config, shift_x, shift_y, full_width, full_height));
        lemma_longer_outcomes(
            shorter,
            raw.drop_last(),
            outcome,
            item,
            adapter,
            config,
            shift_x,
            shift_y,
            full_width,
            full_height,
        );
        assert(raw.drop_last().push(item) =~= raw);
        shorter.push(outcome)
    }
}

proof fn lemma_less_collected<T, A: SahiResultAdapter<T>>(
    answer: Result<Vec<T>, VisionError>,
    less: Result<Vec<T>, VisionError>,
    adapter: A,
    config: SahiConfig,
    keeps: spec_fn(T) -> bool,
)
    requires
        config.min_confidence is Some,
        keeps_strong(keeps, adapter, config.min_confidence->0),
        is_filtered(less, answer, keeps),
    ensures
        is_collected_alike(answer, less, adapter, config, without_least_score(config)),
{
    let free = without_least_score(config);
    if let Ok(raw) = answer {
        assert forall|
            after: Seq<SahiBox>,
            before: Seq<SahiBox>,
            shift_x: i32,
            shift_y: i32,
            full_width: i32,
            full_height: i32,
        | #[trigger]
            are_collected(
                after,
                before,
                raw@,
                adapter,
                config,
                shift_x,
                shift_y,
                full_width,
                full_height,
            ) implies are_collected(
            after,
            before,
            less->Ok_0@,
            adapter,
            free,
            shift_x,
            shift_y,
            full_width,
            full_height,
        ) by {
            let outcomes = choose|outcomes: Seq<Option<SahiBox>>|
                #![trigger boxes_of(outcomes)]
                {
                    &&& are_outcomes_of(
                        outcomes,
                        raw@,
                        adapter,
                        config,
                        shift_x,
                        shift_y,
                        full_width,
                        full_height,
                    )
                    &&& after == before + boxes_of(outcomes)
                };
            let kept = lemma_kept_outcomes(
                outcomes,
                raw@,
                adapter,
                config,
                keeps,
                shift_x,
                shift_y,
                full_width,
                full_height,
            );
            assert(after == before + boxes_of(kept));
        }
    }
}

proof fn lemma_more_collected<T, A: SahiResultAdapter<T>>(
    answer: Result<Vec<T>, VisionError>,
    less: Result<Vec<T>, VisionError>,
    adapter: A,
    config: SahiConfig,
    keeps: spec_fn(T) -> bool,
)
    requires
        config.min_confidence is Some,
        answers(adapter, config),
        keeps_strong(keeps, adapter, config.min_confidence->0),
        is_filtered(less, answer, keeps),
    ensures
        is_collected_alike(less, answer, adapter, without_least_score(config), config),
{
    let free = without_least_score(config);
    if let Ok(raw) = answer {
        assert forall|
            after: Seq<SahiBox>,
            before: Seq<SahiBox>,
            shift_x: i32,
            shift_y: i32,
            full_width: i32,
            full_height: i32,
        | #[trigger]
            are_collected(
                after,
                before,
                less->Ok_0@,
                adapter,
                free,
                shift_x,
                shift_y,
                full_width,
                full_height,
            ) implies are_collected(
            after,
            before,
            raw@,
            adapter,
            config,
            shift_x,
            shift_y,
            full_width,
            full_height,
        ) by {
            let kept = choose|outcomes: Seq<Option<SahiBox>>|
                #![trigger boxes_of(outcomes)]
                {
                    &&& are_outcomes_of(
                        outcomes,
                        less->Ok_0@,
                        adapter,
                        free,
                        shift_x,
                        shift_y,
                        full_width,
                        full_height,
                    )
                    &&& after == before + boxes_of(outcomes)
                };
            let outcomes = lemma_all_outcomes(
                kept,
                raw@,
                adapter,
                config,
                keeps,
                shift_x,
                shift_y,
                full_width,
                full_height,
            );
            assert(after == before + boxes_of(outcomes));
        }
    }
}

proof fn lemma_alike<T, A: SahiResultAdapter<T>>(
    after: Seq<SahiBox>,
    before: Seq<SahiBox>,
    first: Vec<T>,
    second: Vec<T>,
    adapter: A,
    one: SahiConfig,
    other: SahiConfig,
    shift_x: i32,
    shift_y: i32,
    full_width: i32,
    full_height: i32,
)
    requires
        is_collected_alike(Ok(first), Ok(second), adapter, one, other),
        are_collected(after, before, first@, adapter, one, shift_x, shift_y, full_width, full_height),
    ensures
        are_collected(after, before, second@, adapter, other, shift_x, shift_y, full_width, full_height),
{
    let (a, b): (Result<Vec<T>, VisionError>, Result<Vec<T>, VisionError>) = (Ok(first), Ok(second));
    assert(a->Ok_0@ == first@ && b->Ok_0@ == second@);
}

/// Predictors whose answers are collected alike give the same predictions on a slice.
proof fn lemma_same_step<
    T,
    A: SahiResultAdapter<T>,
    P: SahiSinglePredictor<T>,
    Q: SahiSinglePredictor<T>,
    M: Fn(&Vec<SahiBox>, MergeWay, &A::MaskMerger) -> Vec<SahiBox>,
>(
    after: Seq<SahiBox>,
    before: Seq<SahiBox>,
    slice: Slice,
    image: Image,
    one: SahiConfig,
    other: SahiConfig,
    adapter: A,
    first: P,
    second: Q,
    way: MergeWay,
    masks: A::MaskMerger,
    merge: M,
)
    requires
        one.merge_buffer_length == other.merge_buffer_length,
        forall|at: Image, a: Result<Vec<T>, VisionError>| #[trigger]
            call_ensures(P::predict_single, (&first, &at), a) ==> exists|b: Result<Vec<T>, VisionError>| #[trigger]
                call_ensures(Q::predict_single, (&second, &at), b) && is_collected_alike(a, b, adapter, one, other),
        is_slice_step(after, before, slice, image, one, adapter, first, way, masks, merge),
    ensures
        is_slice_step(after, before, slice, image, other, adapter, second, way, masks, merge),
{
    let (raw, all) = choose|raw: Vec<T>, all: Vec<SahiBox>|
        #![trigger is_slice_prediction(Ok(raw), first, image, slice), all@]
        {
            &&& is_slice_prediction(Ok(raw), first, image, slice)
            &&& are_collected(
                all@,
                before,
                raw@,
                adapter,
                one,
                slice[0],
                slice[1],
                image@.width as i32,
                image@.height as i32,
            )
            &&& is_buffered(after, all, one.merge_buffer_length, way, masks, merge)
        };
    let answer: Result<Vec<T>, VisionError> = Ok(raw);
    let cut = choose|cut: Image|
        is_slice(Ok(cut), image, slice) && #[trigger] call_ensures(P::predict_single, (&first, &cut), answer);
    let b = choose|b: Result<Vec<T>, VisionError>| #[trigger]
        call_ensures(Q::predict_single, (&second, &cut), b) && is_collected_alike(answer, b, adapter, one, other);
    let less = b->Ok_0;
    assert(b == Ok::<Vec<T>, VisionError>(less));
    lemma_alike(
        all@,
        before,
        raw,
        less,
        adapter,
        one,
        other,
        slice[0],
        slice[1],
        image@.width as i32,
        image@.height as i32,
    );
    assert(is_slice_prediction(Ok(less), second, image, slice));
}

/// Predictors whose answers are collected alike, brought together in the same way, give the
/// same predictions.
proof fn lemma_same_prediction<
    T,
    A: SahiResultAdapter<T>,
    P: SahiSinglePredictor<T>,
    Q: SahiSinglePredictor<T>,
    M: Fn(&Vec<SahiBox>, MergeWay, &A::MaskMerger) -> Vec<SahiBox>,
    K: Fn() -> u64,
>(
    r: Result<SahiPredictionResult<T>, VisionError>,
    image: Image,
    one: SahiConfig,
    other: SahiConfig,
    adapter: A,
    one_threshold: Single,
    other_threshold: Single,
    first: P,
    second: Q,
    slices: Seq<Slice>,
    slice_millis: u64,
    merge: M,
    clock: K,
)
    requires
        one.merge_buffer_length == other.merge_buffer_length,
        one.perform_standard_prediction == other.perform_standard_prediction,
        resolved(one, one_threshold) == resolved(other, other_threshold),
        forall|at: Image, a: Result<Vec<T>, VisionError>| #[trigger]
            call_ensures(P::predict_single, (&first, &at), a) ==> exists|b: Result<Vec<T>, VisionError>| #[trigger]
                call_ensures(Q::predict_single, (&second, &at), b) && is_collected_alike(a, b, adapter, one, other),
        is_sliced_prediction(r, image, one, adapter, one_threshold, first, slices, slice_millis, merge, clock),
    ensures
        is_sliced_prediction(r, image, other, adapter, other_threshold, second, slices, slice_millis, merge, clock),
{
    let way = resolved(one, one_threshold);
    let masks = choose|masks: A::MaskMerger| #[trigger]
        call_ensures(A::mask_merger, (&adapter,), masks) && is_prediction_with(
            r,
            image,
            one,
            adapter,
            masks,
            one_threshold,
            first,
            slices,
            slice_millis,
            merge,
            clock,
        );
    let parts = choose|parts: Result<Vec<SahiBox>, VisionError>| #[trigger]
        are_slice_boxes(parts, slices, image, one, adapter, first, way, masks, merge) && match parts {
            Err(e) => r is Err && r->Err_0 == e,
            Ok(boxes) => exists|all: Result<Seq<SahiBox>, VisionError>| #[trigger]
                is_completed(all, boxes@, slices, image, one, adapter, first) && match all {
                    Err(e) => r is Err && r->Err_0 == e,
                    Ok(all) => r is Ok && is_finished(
                        r->Ok_0,
                        all,
                        slices,
                        image,
                        slice_millis,
                        adapter,
                        way,
                        masks,
                        merge,
                        clock,
                    ),
                },
        };
    lemma_same_parts(parts, image, one, other, adapter, first, second, slices, way, masks, merge);
    if let Ok(boxes) = parts {
        let all = choose|all: Result<Seq<SahiBox>, VisionError>| #[trigger]
            is_completed(all, boxes@, slices, image, one, adapter, first) && match all {
                Err(e) => r is Err && r->Err_0 == e,
                Ok(all) => r is Ok && is_finished(
                    r->Ok_0,
                    all,
                    slices,
                    image,
                    slice_millis,
                    adapter,
                    way,
                    masks,
                    merge,
                    clock,
                ),
            };
        if predicts_whole(one, slices) {
            let reply = choose|reply: Result<Vec<T>, VisionError>| #[trigger]
                call_ensures(P::predict_single, (&first, &image), reply) && match reply {
                    Err(e) => all is Err && all->Err_0 == e,
                    Ok(raw) => all is Ok && are_collected(
                        all->Ok_0,
                        boxes@,
                        raw@,
                        adapter,
                        one,
                        0,
                        0,
                        image@.width as i32,
                        image@.height as i32,
                    ),
                };
            let b = choose|b: Result<Vec<T>, VisionError>| #[trigger]
                call_ensures(Q::predict_single, (&second, &image), b) && is_collected_alike(
                    reply,
                    b,
                    adapter,
                    one,
                    other,
                );
            assert(call_ensures(Q::predict_single, (&second, &image), b));
        }
        assert(is_completed(all, boxes@, slices, image, other, adapter, second));
    }
    assert(is_prediction_with(
        r,
        image,
        other,
        adapter,
        masks,
        other_threshold,
        second,
        slices,
        slice_millis,
        merge,
        clock,
    ));
}

proof fn lemma_same_parts<
    T,
    A: SahiResultAdapter<T>,
    P: SahiSinglePredictor<T>,
    Q: SahiSinglePredictor<T>,
    M: Fn(&Vec<SahiBox>, MergeWay, &A::MaskMerger) -> Vec<SahiBox>,
>(
    parts: Result<Vec<SahiBox>, VisionError>,
    image: Image,
    one: SahiConfig,
    other: SahiConfig,
    adapter: A,
    first: P,
    second: Q,
    slices: Seq<Slice>,
    way: MergeWay,
    masks: A::MaskMerger,
    merge: M,
)
    requires
        one.merge_buffer_length == other.merge_buffer_length,
        forall|at: Image, a: Result<Vec<T>, VisionError>| #[trigger]
            call_ensures(P::predict_single, (&first, &at), a) ==> exists|b: Result<Vec<T>, VisionError>| #[trigger]
                call_ensures(Q::predict_single, (&second, &at), b) && is_collected_alike(a, b, adapter, one, other),
        are_slice_boxes(parts, slices, image, one, adapter, first, way, masks, merge),
    ensures
        are_slice_boxes(parts, slices, image, other, adapter, second, way, masks, merge),
{
    let states = choose|states: Seq<Seq<SahiBox>>| #[trigger]
        are_slice_states(states, slices, image, one, adapter, first, way, masks, merge) && match parts {
            Ok(boxes) => states.len() == slices.len() + 1 && boxes@ == states.last(),
            Err(e) => states.len() <= slices.len() && is_slice_prediction::<T, P>(
                Err(e),
                first,
                image,
                slices[states.len() - 1],
            ),
        };
    assert forall|i: int| 0 < i < states.len() implies is_slice_step(
        #[trigger] states[i],
        states[i - 1],
        slices[i - 1],
        image,
        other,
        adapter,
        second,
        way,
        masks,
        merge,
    ) by {
        lemma_same_step(
            states[i],
            states[i - 1],
            slices[i - 1],
            image,
            one,
            other,
            adapter,
            first,
            second,
            way,
            masks,
            merge,
        );
    }
    assert(are_slice_states(states, slices, image, other, adapter, second, way, masks, merge));
    if let Err(e) = parts {
        let slice = slices[states.len() - 1];
        let answer: Result<Vec<T>, VisionError> = Err(e);
        if !is_slice(Err(e), image, slice) {
            let cut = choose|cut: Image|
                is_slice(Ok(cut), image, slice) && #[trigger] call_ensures(P::predict_single, (&first, &cut), answer);
            let b = choose|b: Result<Vec<T>, VisionError>| #[trigger]
                call_ensures(Q::predict_single, (&second, &cut), b) && is_collected_alike(
                    answer,
                    b,
                    adapter,
                    one,
                    other,
                );
            assert(b == answer);
        }
        assert(is_slice_prediction::<T, Q>(Err(e), second, image, slice));
    }
}

} // verus!
