//! Finding and reading plates.

use vstd::prelude::*;

use crate::engines::nms::{is_compared, is_suppression, kept_plates_are_candidates,
    kept_plates_descend_and_do_not_overlap, nms_plates, suppresses,
    PlateBox};
use crate::engines::plate_image::{blank_input, fits_detector, is_input_of, is_letterbox, is_mnet_placement, letterbox_scale,
    letterbox_side, preprocess_mnet, preprocess_rec, preprocess_yolo_letterbox, Placement};
use crate::engines::plate_output::{are_raw_boxes, candidates_belong_to_their_anchor, corners_are_points_of_the_model,
    is_largest, is_raw_plate, is_yolo_reading, lemma_raw_boxes_pass, mnet_candidates, mnet_complaint, passing,
    passing_is_exact, read_mnet, yolo_candidates, yolo_readable, MnetOutputs, RawBox, RawPlate};
use crate::engines::plate_text::{is_plate_reading, plate_complaint, read_plate, PlateReading};
use crate::engines::priors::{all_priors, generate_priors, Prior};
use crate::error::{fails, ErrorKind, VisionError};
use crate::ieee::{clamped_values_lie_within, Double, Single, SINGLE_ZERO};
use crate::imaging::color::{channels_message, exchanged_planes_begin_with_the_last_channel, has_bgr3, is_bgr3_of,
    is_converted, planes, planes_hold_channel_after_channel, ColorConversion};
use crate::imaging::image::{is_pasted, pasted_bytes_are_those_of_the_patch, Image, Picture};
use crate::imaging::resize::{scaled, Interpolation};
use crate::magnitude::{lemma_single_of, nearest_single, single_of};
use crate::runtime::base::{is_base_of, opening_error, BaseOnnxEngine, Environment, ModelFile};
use crate::runtime::device_type::DeviceType;
use crate::runtime::runtime_config::{default_config, OnnxRuntimeConfig};
use crate::runtime::session_factory::limit_fits;
use crate::runtime::tensor::TensorOutput;

verus! {

/// A plate that was found and read.
#[derive(Debug)]
pub struct PlateResult {
    /// Left, top, right and bottom in the image.
    pub bbox: [Single; 4],
    /// The characters.
    pub text: String,
    /// The confidence of the detection times that of the characters.
    pub score: Double,
    /// The colour of the plate.
    pub plate_type: Option<String>,
}

/// The kind of detector.
#[derive(Debug, Clone, Copy, PartialEq, Eq, Structural)]
pub enum PlateDetectorKind {
    /// With anchors and corners.
    Mnet,
    /// With a grid, without corners.
    Yolo,
}

impl Default for PlateDetectorKind {
    fn default() -> (r: Self)
        ensures
            r == PlateDetectorKind::Mnet,
    {
        PlateDetectorKind::Mnet
    }
}

// ---------------------------------------------------------------------------
// Recognition
// ---------------------------------------------------------------------------

/// Reads plates.
#[derive(Debug)]
pub struct PlateRecognizer {
    pub base: BaseOnnxEngine,
}

/// Whether a reply of the recognition model is well formed.
pub open spec fn is_good_reply(reply: Result<TensorOutput, VisionError>) -> bool {
    reply is Ok ==> reply->Ok_0.wf()
}

/// Whether `input` is the input of the recognition model for an image.
pub open spec fn is_rec_input(input: Seq<u8>, crop: Picture) -> bool {
    exists|bgr: Picture| #[trigger]
        is_bgr3_of(bgr, crop) && input == planes(scaled(bgr, 94, 24, Interpolation::Linear))
}

/// What reading a plate image gives, if the model answers `reply`.
pub open spec fn is_reply_reading(
    r: Result<PlateReading, VisionError>,
    reply: Result<TensorOutput, VisionError>,
) -> bool {
    match reply {
        Err(e) => r is Err && r->Err_0 == e,
        Ok(output) => if plate_complaint(output) is Some {
            fails(r, ErrorKind::Inference, plate_complaint(output)->0)
        } else {
            r is Ok && is_plate_reading(r->Ok_0, output)
        },
    }
}

/// What reading a plate image gives.
pub open spec fn is_crop_reading<I: Fn(&Vec<u8>) -> Result<TensorOutput, VisionError>>(
    r: Result<PlateReading, VisionError>,
    crop: Picture,
    infer: I,
) -> bool {
    if crop.data.len() == 0 {
        fails(r, ErrorKind::Image, "识别车牌图像为空"@)
    } else if !has_bgr3(crop) {
        fails(r, ErrorKind::Image, channels_message(crop.channels))
    } else {
        exists|input: Vec<u8>, reply: Result<TensorOutput, VisionError>|
            is_rec_input(input@, crop) && #[trigger] call_ensures(infer, (&input,), reply) && is_reply_reading(r, reply)
    }
}

impl PlateRecognizer {
    /// Opens the recognition model.
    pub fn new(model: &ModelFile, device_type: DeviceType, env: &Environment) -> (r: Result<PlateRecognizer, VisionError>)
        requires
            limit_fits(device_type, default_config(env.limit), env.enabled),
        ensures
            opening_error(*model, default_config(env.limit)) is Some ==> fails(
                r,
                (opening_error(*model, default_config(env.limit))->0).0,
                (opening_error(*model, default_config(env.limit))->0).1,
            ),
            opening_error(*model, default_config(env.limit)) is None ==> r is Ok && is_base_of(
                r->Ok_0.base,
                *model,
                device_type,
                24,
                94,
                default_config(env.limit),
                *env,
            ),
    {
        match BaseOnnxEngine::with_input_size(model, device_type, 24, 94, env) {
            Ok(base) => Ok(PlateRecognizer { base }),
            Err(e) => Err(e),
        }
    }

    /// Reads a plate image. `infer` runs the model.
    pub fn recognize_crop<I: Fn(&Vec<u8>) -> Result<TensorOutput, VisionError>>(&self, crop: &Image, infer: &I) -> (r: Result<
        PlateReading,
        VisionError,
    >)
        requires
            crop.wf(),
            fits_detector(crop@),
            forall|input: &Vec<u8>| call_requires(*infer, (input,)),
            forall|input: &Vec<u8>, reply: Result<TensorOutput, VisionError>|
                call_ensures(*infer, (input,), reply) ==> is_good_reply(reply),
        ensures
            is_crop_reading(r, crop@, *infer),
            r is Ok ==> r->Ok_0.wf(),
    {
        let input = match preprocess_rec(crop) {
            Ok(input) => input,
            Err(e) => {
                return Err(e);
            },
        };
        assert(is_rec_input(input@, crop@));
        let reply = infer(&input);
        let ghost answered = reply;
        assert(call_ensures(*infer, (&input,), answered));
        match reply {
            Ok(output) => read_plate(&output),
            Err(e) => Err(e),
        }
    }
}

// ---------------------------------------------------------------------------
// Detection
// ---------------------------------------------------------------------------

/// Finds and reads plates.
#[derive(Debug)]
pub struct LicensePlateEngine {
    /// The detector.
    pub base: BaseOnnxEngine,
    /// The recognition model.
    pub recognizer: PlateRecognizer,
    /// The kind of detector.
    pub detector_kind: PlateDetectorKind,
    /// The overlap above which the weaker of two plates is dropped.
    pub nms_threshold: Single,
    /// The anchors of the detector.
    pub priors: Vec<Prior>,
}

/// The bit pattern of the default overlap threshold, 0.4.
pub const DEFAULT_NMS_THRESHOLD: u32 = 0x3ecc_cccd;

/// Whether a reply of a detector is well formed and can be read: the anchor-based detector has
/// an anchor for each box that passes the threshold, and the grid-based detector has all the
/// values that its size says.
pub open spec fn are_good_outputs(
    reply: Result<Vec<TensorOutput>, VisionError>,
    kind: PlateDetectorKind,
    threshold: Single,
) -> bool {
    reply is Ok ==> {
        let outputs = reply->Ok_0@;
        &&& forall|i: int| 0 <= i < outputs.len() ==> (#[trigger] outputs[i]).wf()
        &&& match kind {
            PlateDetectorKind::Mnet => mnet_complaint(outputs) is None ==> forall|m: MnetOutputs| #[trigger]
                m.is_read_from(outputs) ==> m.has_anchors(16800, threshold),
            PlateDetectorKind::Yolo => yolo_readable(outputs),
        }
    }
}

/// Where a candidate with corners stands in the image.
#[derive(Debug, Clone, Copy)]
pub struct PlateShape {
    /// Left, top, right and bottom.
    pub xyxy: [Single; 4],
    /// Top left, top right, bottom left and bottom right.
    pub corners: [[Single; 2]; 4],
}

/// What the detector calls: the model, the places of its candidates in the image, and the
/// overlap of two plates.
pub struct DetectorCalls<I, A, G, O> {
    /// Runs the model on an input.
    pub infer: I,
    /// Where a candidate of the anchor-based detector stands, be it beyond the image.
    pub place_anchor: A,
    /// Where a candidate of the grid-based detector stands, be it beyond the image.
    pub place_grid: G,
    /// How far two plates overlap.
    pub iou: O,
}

impl<
    I: Fn(&Vec<u8>) -> Result<Vec<TensorOutput>, VisionError>,
    A: Fn(&RawPlate, &Placement) -> PlateShape,
    G: Fn(&RawBox, &Placement) -> [Single; 4],
    O: Fn(&PlateBox, &PlateBox) -> Single,
> DetectorCalls<I, A, G, O> {
    /// Whether everything can be called, and the answers of a detector of the given kind can
    /// be read.
    pub open spec fn are_callable(self, kind: PlateDetectorKind, threshold: Single) -> bool {
        &&& forall|input: &Vec<u8>| call_requires(self.infer, (input,))
        &&& forall|input: &Vec<u8>, reply: Result<Vec<TensorOutput>, VisionError>|
            call_ensures(self.infer, (input,), reply) ==> are_good_outputs(reply, kind, threshold)
        &&& forall|t: &RawPlate, at: &Placement| call_requires(self.place_anchor, (t, at))
        &&& forall|t: &RawBox, at: &Placement| call_requires(self.place_grid, (t, at))
        &&& forall|a: &PlateBox, b: &PlateBox| call_requires(self.iou, (a, b))
    }
}

/// The end of the columns of an image, on axis zero, or that of its rows, on axis one.
pub open spec fn image_end(at: Placement, axis: int) -> Single {
    if axis == 0 {
        single_of(at.image_width as int)
    } else {
        single_of(at.image_height as int)
    }
}

/// Whether coordinates, a column and a row in turn, are others moved into an image.
pub open spec fn are_inside(after: Seq<Single>, before: Seq<Single>, at: Placement) -> bool {
    &&& after.len() == before.len()
    &&& forall|i: int|
        0 <= i < after.len() ==> #[trigger] after[i] == before[i].clamp(
            Single { bits: SINGLE_ZERO },
            image_end(at, i % 2),
        )
}

fn move_inside(point: [Single; 2], at: &Placement) -> (r: [Single; 2])
    ensures
        are_inside(r@, point@, *at),
{
    let zero = Single { bits: SINGLE_ZERO };
    [point[0].clamp(zero, nearest_single(at.image_width)), point[1].clamp(zero, nearest_single(at.image_height))]
}

fn move_box_inside(xyxy: [Single; 4], at: &Placement) -> (r: [Single; 4])
    ensures
        are_inside(r@, xyxy@, *at),
{
    let first = move_inside([xyxy[0], xyxy[1]], at);
    let last = move_inside([xyxy[2], xyxy[3]], at);
    let r = [first[0], first[1], last[0], last[1]];
    proof {
        let zero = Single { bits: SINGLE_ZERO };
        assert(r@[0] == first@[0] && r@[1] == first@[1] && r@[2] == last@[0] && r@[3] == last@[1]);
        assert(r@[0] == xyxy@[0].clamp(zero, image_end(*at, 0)));
        assert(r@[1] == xyxy@[1].clamp(zero, image_end(*at, 1)));
        assert(r@[2] == xyxy@[2].clamp(zero, image_end(*at, 0)));
        assert(r@[3] == xyxy@[3].clamp(zero, image_end(*at, 1)));
    }
    r
}

/// Whether a plate is a candidate of the anchor-based detector, placed and moved into the image.
pub open spec fn is_placed_anchor<A: Fn(&RawPlate, &Placement) -> PlateShape>(
    plate: PlateBox,
    raw: RawPlate,
    at: Placement,
    place: A,
) -> bool {
    exists|shape: PlateShape| #[trigger]
        call_ensures(place, (&raw, &at), shape) && {
            &&& are_inside(plate.xyxy@, shape.xyxy@, at)
            &&& plate.score == raw.score
            &&& plate.landmarks is Some
            &&& forall|k: int|
                0 <= k < 4 ==> are_inside((#[trigger] plate.landmarks->0[k])@, shape.corners[k]@, at)
        }
}

/// Whether `boxes` are the candidates of the anchor-based detector, each placed in the image.
pub open spec fn are_placed_anchors<A: Fn(&RawPlate, &Placement) -> PlateShape>(
    boxes: Seq<PlateBox>,
    raw: Seq<RawPlate>,
    at: Placement,
    place: A,
) -> bool {
    &&& boxes.len() == raw.len()
    &&& forall|k: int| 0 <= k < raw.len() ==> is_placed_anchor(#[trigger] boxes[k], raw[k], at, place)
}

fn place_anchors<A: Fn(&RawPlate, &Placement) -> PlateShape>(raw: &Vec<RawPlate>, at: Placement, place: &A) -> (boxes: Vec<
    PlateBox,
>)
    requires
        forall|t: &RawPlate, at: &Placement| call_requires(*place, (t, at)),
    ensures
        are_placed_anchors(boxes@, raw@, at, *place),
{
    let mut boxes: Vec<PlateBox> = Vec::new();
    let mut k: usize = 0;
    while k < raw.len()
        invariant
            forall|t: &RawPlate, at: &Placement| call_requires(*place, (t, at)),
            k <= raw.len(),
            boxes.len() == k,
            forall|j: int| 0 <= j < k ==> is_placed_anchor(#[trigger] boxes@[j], raw@[j], at, *place),
        decreases raw.len() - k,
    {
        let shape = place(&raw[k], &at);
        let c = shape.corners;
        let corners = [
            move_inside(c[0], &at),
            move_inside(c[1], &at),
            move_inside(c[2], &at),
            move_inside(c[3], &at),
        ];
        proof {
            assert(are_inside(corners[0]@, c[0]@, at));
            assert(are_inside(corners[1]@, c[1]@, at));
            assert(are_inside(corners[2]@, c[2]@, at));
            assert(are_inside(corners[3]@, c[3]@, at));
        }
        boxes.push(
            PlateBox { xyxy: move_box_inside(shape.xyxy, &at), score: raw[k].score, landmarks: Some(corners) },
        );
        assert(call_ensures(*place, (&raw@[k as int], &at), shape));
        assert(is_placed_anchor(boxes@[k as int], raw@[k as int], at, *place));
        k += 1;
    }
    boxes
}

/// Whether a plate is a candidate of the grid-based detector, placed and moved into the image.
pub open spec fn is_placed_box<G: Fn(&RawBox, &Placement) -> [Single; 4]>(
    plate: PlateBox,
    raw: RawBox,
    at: Placement,
    place: G,
) -> bool {
    exists|xyxy: [Single; 4]| #[trigger]
        call_ensures(place, (&raw, &at), xyxy) && {
            &&& are_inside(plate.xyxy@, xyxy@, at)
            &&& plate.score == raw.score
            &&& plate.landmarks is None
        }
}

/// Whether `boxes` are the candidates of the grid-based detector, each placed in the image.
pub open spec fn are_placed_boxes<G: Fn(&RawBox, &Placement) -> [Single; 4]>(
    boxes: Seq<PlateBox>,
    raw: Seq<RawBox>,
    at: Placement,
    place: G,
) -> bool {
    &&& boxes.len() == raw.len()
    &&& forall|k: int| 0 <= k < raw.len() ==> is_placed_box(#[trigger] boxes[k], raw[k], at, place)
}

fn place_boxes<G: Fn(&RawBox, &Placement) -> [Single; 4]>(raw: &Vec<RawBox>, at: Placement, place: &G) -> (boxes: Vec<
    PlateBox,
>)
    requires
        forall|t: &RawBox, at: &Placement| call_requires(*place, (t, at)),
    ensures
        are_placed_boxes(boxes@, raw@, at, *place),
{
    let mut boxes: Vec<PlateBox> = Vec::new();
    let mut k: usize = 0;
    while k < raw.len()
        invariant
            forall|t: &RawBox, at: &Placement| call_requires(*place, (t, at)),
            k <= raw.len(),
            boxes.len() == k,
            forall|j: int| 0 <= j < k ==> is_placed_box(#[trigger] boxes@[j], raw@[j], at, *place),
        decreases raw.len() - k,
    {
        let xyxy = place(&raw[k], &at);
        boxes.push(PlateBox { xyxy: move_box_inside(xyxy, &at), score: raw[k].score, landmarks: None });
        assert(call_ensures(*place, (&raw@[k as int], &at), xyxy));
        assert(is_placed_box(boxes@[k as int], raw@[k as int], at, *place));
        k += 1;
    }
    boxes
}

/// Whether coordinates, a column and a row in turn, lie in an image or are no numbers.
pub open spec fn lie_in(coordinates: Seq<Single>, image: Picture) -> bool {
    forall|i: int|
        0 <= i < coordinates.len() ==> (#[trigger] coordinates[i]).is_within(
            Single { bits: SINGLE_ZERO },
            single_of(
                if i % 2 == 0 {
                    image.width
                } else {
                    image.height
                },
            ),
        )
}

/// Whether a plate and its corners lie in an image.
pub open spec fn lies_in(plate: PlateBox, image: Picture) -> bool {
    &&& lie_in(plate.xyxy@, image)
    &&& plate.landmarks is Some ==> forall|k: int| 0 <= k < 4 ==> lie_in((#[trigger] plate.landmarks->0[k])@, image)
}

proof fn lemma_inside(after: Seq<Single>, before: Seq<Single>, at: Placement)
    requires
        are_inside(after, before, at),
    ensures
        forall|i: int|
            0 <= i < after.len() ==> (#[trigger] after[i]).is_within(
                Single { bits: SINGLE_ZERO },
                image_end(at, i % 2),
            ),
{
    let zero = Single { bits: SINGLE_ZERO };
    assert forall|i: int| 0 <= i < after.len() implies (#[trigger] after[i]).is_within(zero, image_end(at, i % 2)) by {
        lemma_single_of(at.image_width as int);
        lemma_single_of(at.image_height as int);
        clamped_values_lie_within(before[i], zero, image_end(at, i % 2));
    }
}

/// Whether `input` is the input of the anchor-based detector for an image that stands on
/// it at `at`.
pub open spec fn is_mnet_input(input: Seq<u8>, at: Placement, image: Picture) -> bool {
    &&& is_mnet_placement(at, image.width, image.height)
    &&& exists|out: Picture| #[trigger] is_input_of(out, image, at, 0, Interpolation::Area) && input == planes(out)
}

/// The candidates of the anchors that pass the threshold.
pub open spec fn are_mnet_candidates(raw: Seq<RawPlate>, outputs: Seq<TensorOutput>, threshold: Single) -> bool {
    exists|m: MnetOutputs|
        #![trigger m.scores()]
        m.is_read_from(outputs) && raw.len() == passing(m.scores(), threshold).len() && forall|k: int|
            0 <= k < raw.len() ==> is_raw_plate(
                #[trigger] raw[k],
                m,
                all_priors(),
                passing(m.scores(), threshold)[k],
            )
}

/// What the anchor-based detector finds, if the model answers `reply`.
pub open spec fn is_mnet_answer<
    A: Fn(&RawPlate, &Placement) -> PlateShape,
    O: Fn(&PlateBox, &PlateBox) -> Single,
>(
    r: Result<Vec<PlateBox>, VisionError>,
    reply: Result<Vec<TensorOutput>, VisionError>,
    at: Placement,
    threshold: Single,
    place: A,
    iou: O,
    iou_threshold: Single,
) -> bool {
    match reply {
        Err(e) => r is Err && r->Err_0 == e,
        Ok(outputs) => if mnet_complaint(outputs@) is Some {
            fails(r, ErrorKind::Inference, mnet_complaint(outputs@)->0)
        } else {
            &&& r is Ok
            &&& exists|raw: Seq<RawPlate>, boxes: Seq<PlateBox>|
                are_mnet_candidates(raw, outputs@, threshold) && #[trigger] are_placed_anchors(boxes, raw, at, place)
                    && suppresses(boxes, iou, iou_threshold, r->Ok_0@)
        },
    }
}

/// What the anchor-based detector finds in an image.
pub open spec fn is_mnet_detection<
    I: Fn(&Vec<u8>) -> Result<Vec<TensorOutput>, VisionError>,
    A: Fn(&RawPlate, &Placement) -> PlateShape,
    O: Fn(&PlateBox, &PlateBox) -> Single,
>(
    r: Result<Vec<PlateBox>, VisionError>,
    image: Picture,
    threshold: Single,
    infer: I,
    place: A,
    iou: O,
    iou_threshold: Single,
) -> bool {
    if !has_bgr3(image) {
        fails(r, ErrorKind::Image, channels_message(image.channels))
    } else {
        exists|input: Vec<u8>, at: Placement, reply: Result<Vec<TensorOutput>, VisionError>|
            #![trigger is_mnet_input(input@, at, image), call_ensures(infer, (&input,), reply)]
            is_mnet_input(input@, at, image) && call_ensures(infer, (&input,), reply) && is_mnet_answer(
                r,
                reply,
                at,
                threshold,
                place,
                iou,
                iou_threshold,
            )
    }
}

/// Whether `input` is the input of the grid-based detector for an image that stands on it
/// at `at`.
pub open spec fn is_yolo_input(input: Seq<u8>, at: Placement, image: Picture) -> bool {
    &&& is_letterbox(at, image.width, image.height)
    &&& exists|out: Picture, rgb: Picture| #[trigger]
        is_input_of(out, image, at, 114, Interpolation::Linear) && #[trigger] is_converted(
            rgb,
            out,
            ColorConversion::Bgr2Rgb,
        ) && input == planes(rgb)
}

/// What the grid-based detector finds, if the model answers `reply`.
pub open spec fn is_yolo_answer<
    G: Fn(&RawBox, &Placement) -> [Single; 4],
    O: Fn(&PlateBox, &PlateBox) -> Single,
>(
    r: Result<Vec<PlateBox>, VisionError>,
    reply: Result<Vec<TensorOutput>, VisionError>,
    at: Placement,
    threshold: Single,
    place: G,
    iou: O,
    iou_threshold: Single,
) -> bool {
    match reply {
        Err(e) => r is Err && r->Err_0 == e,
        Ok(outputs) => exists|reading: Result<Vec<RawBox>, VisionError>| #[trigger]
            is_yolo_reading(reading, outputs@, threshold) && match reading {
                Err(e) => r is Err && r->Err_0 == e,
                Ok(raw) => {
                    &&& r is Ok
                    &&& exists|boxes: Seq<PlateBox>| #[trigger]
                        are_placed_boxes(boxes, raw@, at, place) && suppresses(boxes, iou, iou_threshold, r->Ok_0@)
                },
            },
    }
}

/// What the grid-based detector finds in an image.
pub open spec fn is_yolo_detection<
    I: Fn(&Vec<u8>) -> Result<Vec<TensorOutput>, VisionError>,
    G: Fn(&RawBox, &Placement) -> [Single; 4],
    O: Fn(&PlateBox, &PlateBox) -> Single,
>(
    r: Result<Vec<PlateBox>, VisionError>,
    image: Picture,
    threshold: Single,
    infer: I,
    place: G,
    iou: O,
    iou_threshold: Single,
) -> bool {
    let scale = letterbox_scale(image.width, image.height);
    if !has_bgr3(image) {
        fails(r, ErrorKind::Image, channels_message(image.channels))
    } else if letterbox_side(image.width, scale) == 0 || letterbox_side(image.height, scale) == 0 {
        fails(r, ErrorKind::Image, "resize target size must be > 0"@)
    } else {
        exists|input: Vec<u8>, at: Placement, reply: Result<Vec<TensorOutput>, VisionError>|
            #![trigger is_yolo_input(input@, at, image), call_ensures(infer, (&input,), reply)]
            is_yolo_input(input@, at, image) && call_ensures(infer, (&input,), reply) && is_yolo_answer(
                r,
                reply,
                at,
                threshold,
                place,
                iou,
                iou_threshold,
            )
    }
}

impl LicensePlateEngine {
    /// Whether the engine has the anchors that its detector needs.
    pub open spec fn wf(self) -> bool {
        self.priors@ == match self.detector_kind {
            PlateDetectorKind::Mnet => all_priors(),
            PlateDetectorKind::Yolo => Seq::<Prior>::empty(),
        }
    }

    /// The error on models that cannot be opened, if there is one: that of the detector,
    /// then that of the recognition model.
    pub open spec fn error_of(det: ModelFile, rec: ModelFile, config: OnnxRuntimeConfig, env: Environment) -> Option<
        (ErrorKind, Seq<char>),
    > {
        if opening_error(det, config) is Some {
            opening_error(det, config)
        } else {
            opening_error(rec, default_config(env.limit))
        }
    }

    /// Whether an engine is opened from the given models and parameters.
    pub open spec fn is_opened(
        r: Result<LicensePlateEngine, VisionError>,
        det: ModelFile,
        rec: ModelFile,
        device: DeviceType,
        kind: PlateDetectorKind,
        config: OnnxRuntimeConfig,
        env: Environment,
    ) -> bool {
        match LicensePlateEngine::error_of(det, rec, config, env) {
            Some((error, message)) => fails(r, error, message),
            None => {
                &&& r is Ok
                &&& r->Ok_0.wf()
                &&& r->Ok_0.detector_kind == kind
                &&& r->Ok_0.nms_threshold.bits == DEFAULT_NMS_THRESHOLD
                &&& is_base_of(r->Ok_0.base, det, device, 640, 640, config, env)
                &&& is_base_of(r->Ok_0.recognizer.base, rec, device, 24, 94, default_config(env.limit), env)
            },
        }
    }

    /// Opens an engine with the anchor-based detector.
    pub fn new(det_model: &ModelFile, rec_model: &ModelFile, device_type: DeviceType, env: &Environment) -> (r: Result<
        LicensePlateEngine,
        VisionError,
    >)
        requires
            limit_fits(device_type, default_config(env.limit), env.enabled),
        ensures
            LicensePlateEngine::is_opened(
                r,
                *det_model,
                *rec_model,
                device_type,
                PlateDetectorKind::Mnet,
                default_config(env.limit),
                *env,
            ),
    {
        LicensePlateEngine::for_mnet(det_model, rec_model, device_type, env)
    }

    /// Opens an engine with the anchor-based detector.
    pub fn for_mnet(det_model: &ModelFile, rec_model: &ModelFile, device_type: DeviceType, env: &Environment) -> (r: Result<
        LicensePlateEngine,
        VisionError,
    >)
        requires
            limit_fits(device_type, default_config(env.limit), env.enabled),
        ensures
            LicensePlateEngine::is_opened(
                r,
                *det_model,
                *rec_model,
                device_type,
                PlateDetectorKind::Mnet,
                default_config(env.limit),
                *env,
            ),
    {
        LicensePlateEngine::with_config(
            det_model,
            rec_model,
            device_type,
            PlateDetectorKind::Mnet,
            OnnxRuntimeConfig::defaults(&env.limit),
            env,
        )
    }

    /// Opens an engine with the grid-based detector.
    pub fn for_yolo(det_model: &ModelFile, rec_model: &ModelFile, device_type: DeviceType, env: &Environment) -> (r: Result<
        LicensePlateEngine,
        VisionError,
    >)
        requires
            limit_fits(device_type, default_config(env.limit), env.enabled),
        ensures
            LicensePlateEngine::is_opened(
                r,
                *det_model,
                *rec_model,
                device_type,
                PlateDetectorKind::Yolo,
                default_config(env.limit),
                *env,
            ),
    {
        LicensePlateEngine::with_config(
            det_model,
            rec_model,
            device_type,
            PlateDetectorKind::Yolo,
            OnnxRuntimeConfig::defaults(&env.limit),
            env,
        )
    }

    /// Opens an engine.
    pub fn with_config(
        det_model: &ModelFile,
        rec_model: &ModelFile,
        device_type: DeviceType,
        detector_kind: PlateDetectorKind,
        runtime_config: OnnxRuntimeConfig,
        env: &Environment,
    ) -> (r: Result<LicensePlateEngine, VisionError>)
        requires
            limit_fits(device_type, runtime_config, env.enabled),
            opening_error(*det_model, runtime_config) is None ==> limit_fits(
                device_type,
                default_config(env.limit),
                env.enabled,
            ),
        ensures
            LicensePlateEngine::is_opened(
                r,
                *det_model,
                *rec_model,
                device_type,
                detector_kind,
                runtime_config,
                *env,
            ),
    {
        let base = match BaseOnnxEngine::with_config(det_model, device_type, 640, 640, runtime_config, env) {
            Ok(base) => base,
            Err(e) => {
                return Err(e);
            },
        };
        let recognizer = match PlateRecognizer::new(rec_model, device_type, env) {
            Ok(recognizer) => recognizer,
            Err(e) => {
                return Err(e);
            },
        };
        let priors = match detector_kind {
            PlateDetectorKind::Mnet => generate_priors(),
            PlateDetectorKind::Yolo => Vec::new(),
        };
        assert(detector_kind is Yolo ==> priors@ =~= Seq::<Prior>::empty());
        Ok(
            LicensePlateEngine {
                base,
                recognizer,
                detector_kind,
                nms_threshold: Single { bits: DEFAULT_NMS_THRESHOLD },
                priors,
            },
        )
    }

    /// The kind of detector.
    pub fn detector_kind(&self) -> (kind: PlateDetectorKind)
        ensures
            kind == self.detector_kind,
    {
        self.detector_kind
    }

    /// The overlap above which the weaker of two plates is dropped.
    pub fn nms_threshold(&self) -> (threshold: Single)
        ensures
            threshold == self.nms_threshold,
    {
        self.nms_threshold
    }

    /// Sets the overlap above which the weaker of two plates is dropped.
    pub fn set_nms_threshold(&mut self, threshold: Single)
        ensures
            *final(self) == (LicensePlateEngine { nms_threshold: threshold, ..*old(self) }),
    {
        self.nms_threshold = threshold;
    }

    fn detect_mnet<
        I: Fn(&Vec<u8>) -> Result<Vec<TensorOutput>, VisionError>,
        A: Fn(&RawPlate, &Placement) -> PlateShape,
        O: Fn(&PlateBox, &PlateBox) -> Single,
    >(&self, image: &Image, threshold: Single, infer: &I, place: &A, iou: &O) -> (r: Result<Vec<PlateBox>, VisionError>)
        requires
            self.wf(),
            self.detector_kind is Mnet,
            image.wf(),
            image@.data.len() > 0,
            fits_detector(image@),
            forall|input: &Vec<u8>| call_requires(*infer, (input,)),
            forall|input: &Vec<u8>, reply: Result<Vec<TensorOutput>, VisionError>|
                call_ensures(*infer, (input,), reply) ==> are_good_outputs(reply, PlateDetectorKind::Mnet, threshold),
            forall|t: &RawPlate, at: &Placement| call_requires(*place, (t, at)),
            forall|a: &PlateBox, b: &PlateBox| call_requires(*iou, (a, b)),
        ensures
            is_mnet_detection(r, image@, threshold, *infer, *place, *iou, self.nms_threshold),
    {
        let (input, at) = match preprocess_mnet(image) {
            Ok(prepared) => prepared,
            Err(e) => {
                return Err(e);
            },
        };
        assert(is_mnet_input(input@, at, image@));
        let reply = infer(&input);
        let ghost answered = reply;
        assert(call_ensures(*infer, (&input,), answered));
        let outputs = match reply {
            Ok(outputs) => outputs,
            Err(e) => {
                assert(is_mnet_answer(Err(e), answered, at, threshold, *place, *iou, self.nms_threshold));
                return Err(e);
            },
        };
        let matrices = match read_mnet(&outputs) {
            Ok(matrices) => matrices,
            Err(e) => {
                assert(is_mnet_answer(Err(e), answered, at, threshold, *place, *iou, self.nms_threshold));
                return Err(e);
            },
        };
        proof {
            assert(all_priors().len() == 16800);
        }
        let raw = mnet_candidates(&matrices, &self.priors, threshold);
        let ghost scores = matrices.scores();
        assert(are_mnet_candidates(raw@, outputs@, threshold));
        let boxes = place_anchors(&raw, at, place);
        let ghost placed = boxes@;
        let keep = nms_plates(boxes, self.nms_threshold, iou);
        proof {
            assert(are_placed_anchors(placed, raw@, at, *place));
            assert(is_mnet_answer(Ok(keep), answered, at, threshold, *place, *iou, self.nms_threshold));
        }
        Ok(keep)
    }

    fn detect_yolo<
        I: Fn(&Vec<u8>) -> Result<Vec<TensorOutput>, VisionError>,
        G: Fn(&RawBox, &Placement) -> [Single; 4],
        O: Fn(&PlateBox, &PlateBox) -> Single,
    >(&self, image: &Image, threshold: Single, infer: &I, place: &G, iou: &O) -> (r: Result<Vec<PlateBox>, VisionError>)
        requires
            image.wf(),
            image@.data.len() > 0,
            fits_detector(image@),
            forall|input: &Vec<u8>| call_requires(*infer, (input,)),
            forall|input: &Vec<u8>, reply: Result<Vec<TensorOutput>, VisionError>|
                call_ensures(*infer, (input,), reply) ==> are_good_outputs(reply, PlateDetectorKind::Yolo, threshold),
            forall|t: &RawBox, at: &Placement| call_requires(*place, (t, at)),
            forall|a: &PlateBox, b: &PlateBox| call_requires(*iou, (a, b)),
        ensures
            is_yolo_detection(r, image@, threshold, *infer, *place, *iou, self.nms_threshold),
    {
        let (input, at) = match preprocess_yolo_letterbox(image) {
            Ok(prepared) => prepared,
            Err(e) => {
                return Err(e);
            },
        };
        assert(is_yolo_input(input@, at, image@));
        let reply = infer(&input);
        let ghost answered = reply;
        assert(call_ensures(*infer, (&input,), answered));
        let outputs = match reply {
            Ok(outputs) => outputs,
            Err(e) => {
                assert(is_yolo_answer(Err(e), answered, at, threshold, *place, *iou, self.nms_threshold));
                return Err(e);
            },
        };
        let reading = yolo_candidates(&outputs, threshold);
        let ghost read = reading;
        assert(is_yolo_reading(read, outputs@, threshold));
        let raw = match reading {
            Ok(raw) => raw,
            Err(e) => {
                assert(is_yolo_answer(Err(e), answered, at, threshold, *place, *iou, self.nms_threshold));
                return Err(e);
            },
        };
        let boxes = place_boxes(&raw, at, place);
        let ghost placed = boxes@;
        let keep = nms_plates(boxes, self.nms_threshold, iou);
        proof {
            assert(are_placed_boxes(placed, raw@, at, *place));
            assert(is_yolo_answer(Ok(keep), answered, at, threshold, *place, *iou, self.nms_threshold));
        }
        Ok(keep)
    }

    /// What finding plates in an image gives.
    pub open spec fn is_detection<
        I: Fn(&Vec<u8>) -> Result<Vec<TensorOutput>, VisionError>,
        A: Fn(&RawPlate, &Placement) -> PlateShape,
        G: Fn(&RawBox, &Placement) -> [Single; 4],
        O: Fn(&PlateBox, &PlateBox) -> Single,
    >(
        self,
        r: Result<Vec<PlateBox>, VisionError>,
        image: Picture,
        threshold: Single,
        calls: DetectorCalls<I, A, G, O>,
    ) -> bool {
        if image.data.len() == 0 {
            fails(r, ErrorKind::Image, "cannot detect plates on empty image"@)
        } else {
            match self.detector_kind {
                PlateDetectorKind::Mnet => is_mnet_detection(
                    r,
                    image,
                    threshold,
                    calls.infer,
                    calls.place_anchor,
                    calls.iou,
                    self.nms_threshold,
                ),
                PlateDetectorKind::Yolo => is_yolo_detection(
                    r,
                    image,
                    threshold,
                    calls.infer,
                    calls.place_grid,
                    calls.iou,
                    self.nms_threshold,
                ),
            }
        }
    }

    /// Each plate that is found is at least as sure as the threshold, none is surer than one
    /// before it, and none was found to overlap one before it by more than the threshold for
    /// overlaps.
    pub proof fn found_plates_are_sure_and_apart<
        I: Fn(&Vec<u8>) -> Result<Vec<TensorOutput>, VisionError>,
        A: Fn(&RawPlate, &Placement) -> PlateShape,
        G: Fn(&RawBox, &Placement) -> [Single; 4],
        O: Fn(&PlateBox, &PlateBox) -> Single,
    >(
        self,
        plates: Vec<PlateBox>,
        image: Picture,
        threshold: Single,
        calls: DetectorCalls<I, A, G, O>,
    )
        requires
            self.is_detection(Ok(plates), image, threshold, calls),
        ensures
            forall|i: int| 0 <= i < plates.len() ==> !threshold.greater(#[trigger] plates@[i].score),
            forall|i: int, j: int|
                0 <= i < j < plates.len() ==> {
                    &&& !(#[trigger] plates@[j]).score.greater((#[trigger] plates@[i]).score)
                    &&& is_compared(calls.iou, self.nms_threshold, &plates@[i], &plates@[j], false)
                },
    {
        let boxes = self.lemma_candidates(plates, image, threshold, calls);
        let (order, kept) = choose|order: Seq<usize>, kept: Seq<int>| #[trigger]
            is_suppression(boxes, calls.iou, self.nms_threshold, order, kept, plates@);
        assert forall|i: int| 0 <= i < plates.len() implies !threshold.greater(#[trigger] plates@[i].score) by {
            assert(plates@[i] == boxes[order[kept[i]] as int]);
        }
        assert forall|i: int, j: int| 0 <= i < j < plates.len() implies {
            &&& !(#[trigger] plates@[j]).score.greater((#[trigger] plates@[i]).score)
            &&& is_compared(calls.iou, self.nms_threshold, &plates@[i], &plates@[j], false)
        } by {
            kept_plates_descend_and_do_not_overlap(boxes, calls.iou, self.nms_threshold, plates@, i, j);
        }
    }

    /// Each plate that is found lies in the image: its columns are from zero to the width, and
    /// its rows from zero to the height, as far as they are numbers. So do its corners.
    pub proof fn found_plates_lie_in_the_image<
        I: Fn(&Vec<u8>) -> Result<Vec<TensorOutput>, VisionError>,
        A: Fn(&RawPlate, &Placement) -> PlateShape,
        G: Fn(&RawBox, &Placement) -> [Single; 4],
        O: Fn(&PlateBox, &PlateBox) -> Single,
    >(
        self,
        plates: Vec<PlateBox>,
        image: Picture,
        threshold: Single,
        calls: DetectorCalls<I, A, G, O>,
    )
        requires
            self.is_detection(Ok(plates), image, threshold, calls),
        ensures
            forall|i: int| 0 <= i < plates.len() ==> lies_in(#[trigger] plates@[i], image),
    {
        let boxes = self.lemma_candidates(plates, image, threshold, calls);
        let (order, kept) = choose|order: Seq<usize>, kept: Seq<int>| #[trigger]
            is_suppression(boxes, calls.iou, self.nms_threshold, order, kept, plates@);
        assert forall|i: int| 0 <= i < plates.len() implies lies_in(#[trigger] plates@[i], image) by {
            assert(plates@[i] == boxes[order[kept[i]] as int]);
        }
    }

    /// The candidates that the plates were chosen from, which all pass the threshold and lie in
    /// the image.
    proof fn lemma_candidates<
        I: Fn(&Vec<u8>) -> Result<Vec<TensorOutput>, VisionError>,
        A: Fn(&RawPlate, &Placement) -> PlateShape,
        G: Fn(&RawBox, &Placement) -> [Single; 4],
        O: Fn(&PlateBox, &PlateBox) -> Single,
    >(
        self,
        plates: Vec<PlateBox>,
        image: Picture,
        threshold: Single,
        calls: DetectorCalls<I, A, G, O>,
    ) -> (boxes: Seq<PlateBox>)
        requires
            self.is_detection(Ok(plates), image, threshold, calls),
        ensures
            suppresses(boxes, calls.iou, self.nms_threshold, plates@),
            forall|k: int| 0 <= k < boxes.len() ==> !threshold.greater(#[trigger] boxes[k].score),
            forall|k: int| 0 <= k < boxes.len() ==> lies_in(#[trigger] boxes[k], image),
    {
        let r: Result<Vec<PlateBox>, VisionError> = Ok(plates);
        match self.detector_kind {
            PlateDetectorKind::Mnet => {
                let (input, at, reply) = choose|
                    input: Vec<u8>,
                    at: Placement,
                    reply: Result<Vec<TensorOutput>, VisionError>,
                |
                    #![trigger is_mnet_input(input@, at, image), call_ensures(calls.infer, (&input,), reply)]
                    is_mnet_input(input@, at, image) && call_ensures(calls.infer, (&input,), reply) && is_mnet_answer(
                        r,
                        reply,
                        at,
                        threshold,
                        calls.place_anchor,
                        calls.iou,
                        self.nms_threshold,
                    );
                let outputs = reply->Ok_0@;
                let (raw, boxes) = choose|raw: Seq<RawPlate>, boxes: Seq<PlateBox>|
                    are_mnet_candidates(raw, outputs, threshold) && #[trigger] are_placed_anchors(
                        boxes,
                        raw,
                        at,
                        calls.place_anchor,
                    ) && suppresses(boxes, calls.iou, self.nms_threshold, plates@);
                let m = choose|m: MnetOutputs|
                    #![trigger m.scores()]
                    raw.len() == passing(m.scores(), threshold).len() && forall|k: int|
                        0 <= k < raw.len() ==> is_raw_plate(
                            #[trigger] raw[k],
                            m,
                            all_priors(),
                            passing(m.scores(), threshold)[k],
                        );
                assert forall|k: int| 0 <= k < boxes.len() implies !threshold.greater(#[trigger] boxes[k].score) by {
                    let i = passing(m.scores(), threshold)[k];
                    assert(passing(m.scores(), threshold).contains(i));
                    passing_is_exact(m.scores(), threshold, i);
                    assert(is_raw_plate(raw[k], m, all_priors(), i));
                    assert(is_placed_anchor(boxes[k], raw[k], at, calls.place_anchor));
                }
                assert forall|k: int| 0 <= k < boxes.len() implies lies_in(#[trigger] boxes[k], image) by {
                    assert(is_placed_anchor(boxes[k], raw[k], at, calls.place_anchor));
                    let shape = choose|shape: PlateShape| #[trigger]
                        call_ensures(calls.place_anchor, (&raw[k], &at), shape) && are_inside(
                            boxes[k].xyxy@,
                            shape.xyxy@,
                            at,
                        ) && forall|j: int|
                            0 <= j < 4 ==> are_inside((#[trigger] boxes[k].landmarks->0[j])@, shape.corners[j]@, at);
                    lemma_inside(boxes[k].xyxy@, shape.xyxy@, at);
                    assert forall|j: int| 0 <= j < 4 implies lie_in((#[trigger] boxes[k].landmarks->0[j])@, image) by {
                        lemma_inside(boxes[k].landmarks->0[j]@, shape.corners[j]@, at);
                    }
                }
                boxes
            },
            PlateDetectorKind::Yolo => {
                let (input, at, reply) = choose|
                    input: Vec<u8>,
                    at: Placement,
                    reply: Result<Vec<TensorOutput>, VisionError>,
                |
                    #![trigger is_yolo_input(input@, at, image), call_ensures(calls.infer, (&input,), reply)]
                    is_yolo_input(input@, at, image) && call_ensures(calls.infer, (&input,), reply) && is_yolo_answer(
                        r,
                        reply,
                        at,
                        threshold,
                        calls.place_grid,
                        calls.iou,
                        self.nms_threshold,
                    );
                let outputs = reply->Ok_0@;
                let reading = choose|reading: Result<Vec<RawBox>, VisionError>| #[trigger]
                    is_yolo_reading(reading, outputs, threshold) && reading is Ok && exists|boxes: Seq<PlateBox>|
                        #[trigger] are_placed_boxes(boxes, reading->Ok_0@, at, calls.place_grid) && suppresses(
                            boxes,
                            calls.iou,
                            self.nms_threshold,
                            plates@,
                        );
                let raw = reading->Ok_0@;
                let boxes = choose|boxes: Seq<PlateBox>| #[trigger]
                    are_placed_boxes(boxes, raw, at, calls.place_grid) && suppresses(
                        boxes,
                        calls.iou,
                        self.nms_threshold,
                        plates@,
                    );
                let i = choose|i: int| #[trigger]
                    is_largest(outputs, i) && are_raw_boxes(raw, outputs[i], threshold);
                assert forall|k: int| 0 <= k < boxes.len() implies !threshold.greater(#[trigger] boxes[k].score) by {
                    lemma_raw_boxes_pass(raw, outputs[i], threshold, k);
                    assert(is_placed_box(boxes[k], raw[k], at, calls.place_grid));
                }
                assert forall|k: int| 0 <= k < boxes.len() implies lies_in(#[trigger] boxes[k], image) by {
                    assert(is_placed_box(boxes[k], raw[k], at, calls.place_grid));
                    let xyxy = choose|xyxy: [Single; 4]| #[trigger]
                        call_ensures(calls.place_grid, (&raw[k], &at), xyxy) && are_inside(
                            boxes[k].xyxy@,
                            xyxy@,
                            at,
                        );
                    lemma_inside(boxes[k].xyxy@, xyxy@, at);
                }
                boxes
            },
        }
    }

    /// Finds plates that are at least as sure as the threshold.
    pub fn detect_plates<
        I: Fn(&Vec<u8>) -> Result<Vec<TensorOutput>, VisionError>,
        A: Fn(&RawPlate, &Placement) -> PlateShape,
        G: Fn(&RawBox, &Placement) -> [Single; 4],
        O: Fn(&PlateBox, &PlateBox) -> Single,
    >(&self, image: &Image, threshold: Single, calls: &DetectorCalls<I, A, G, O>) -> (r: Result<
        Vec<PlateBox>,
        VisionError,
    >)
        requires
            self.wf(),
            image.wf(),
            image@.data.len() > 0 ==> fits_detector(image@),
            calls.are_callable(self.detector_kind, threshold),
        ensures
            self.is_detection(r, image@, threshold, *calls),
    {
        if image.is_empty() {
            return Err(VisionError::image(String::from_str("cannot detect plates on empty image")));
        }
        match self.detector_kind {
            PlateDetectorKind::Mnet => self.detect_mnet(
                image,
                threshold,
                &calls.infer,
                &calls.place_anchor,
                &calls.iou,
            ),
            PlateDetectorKind::Yolo => self.detect_yolo(image, threshold, &calls.infer, &calls.place_grid, &calls.iou),
        }
    }
}

/// The anchor-based detector is given the image scaled to its place on a black square, with
/// blue, green and red one after the other. The place is in the middle.
pub proof fn anchor_input_shows_the_image(input: Seq<u8>, at: Placement, image: Picture, x: int, y: int, c: int)
    requires
        image.wf(),
        has_bgr3(image),
        is_mnet_input(input, at, image),
        0 <= x < 640,
        0 <= y < 640,
        0 <= c < 3,
    ensures
        input.len() == 1228800,
        at.image_width == image.width && at.image_height == image.height,
        exists|bgr: Picture|
            #[trigger] is_bgr3_of(bgr, image) && input[409600 * c + (640 * y + x)] == if at.left <= x < at.left + at.width
                && at.top <= y < at.top + at.height {
                scaled(bgr, at.width as int, at.height as int, Interpolation::Area).data[((y - at.top) * at.width + (x
                    - at.left)) * 3 + c]
            } else {
                0
            },
{
    let out = choose|out: Picture| #[trigger]
        is_input_of(out, image, at, 0, Interpolation::Area) && input == planes(out);
    let bgr = lemma_input_pixel(out, image, at, 0, Interpolation::Area, x, y, c);
    planes_hold_channel_after_channel(out, 640 * y + x, c);
    assert(is_bgr3_of(bgr, image));
}

/// The grid-based detector is given the image scaled to its place on a grey square, with red,
/// green and blue one after the other. The place is in the middle.
pub proof fn grid_input_shows_the_image(input: Seq<u8>, at: Placement, image: Picture, x: int, y: int, c: int)
    requires
        image.wf(),
        has_bgr3(image),
        is_yolo_input(input, at, image),
        0 <= x < 640,
        0 <= y < 640,
        0 <= c < 3,
    ensures
        input.len() == 1228800,
        at.image_width == image.width && at.image_height == image.height,
        2 * at.left <= 640 - at.width <= 2 * at.left + 1,
        2 * at.top <= 640 - at.height <= 2 * at.top + 1,
        exists|bgr: Picture|
            #[trigger] is_bgr3_of(bgr, image) && input[409600 * c + (640 * y + x)] == if at.left <= x < at.left + at.width
                && at.top <= y < at.top + at.height {
                scaled(bgr, at.width as int, at.height as int, Interpolation::Linear).data[((y - at.top) * at.width + (x
                    - at.left)) * 3 + (2 - c)]
            } else {
                114
            },
{
    let (out, rgb) = choose|out: Picture, rgb: Picture| #[trigger]
        is_input_of(out, image, at, 114, Interpolation::Linear) && #[trigger] is_converted(
            rgb,
            out,
            ColorConversion::Bgr2Rgb,
        ) && input == planes(rgb);
    let bgr = lemma_input_pixel(out, image, at, 114, Interpolation::Linear, x, y, 2 - c);
    exchanged_planes_begin_with_the_last_channel(rgb, out, x, y, c);
    assert(is_bgr3_of(bgr, image));
}

/// A pixel of the square that a detector is given.
proof fn lemma_input_pixel(
    out: Picture,
    image: Picture,
    at: Placement,
    value: u8,
    interp: Interpolation,
    x: int,
    y: int,
    c: int,
) -> (bgr: Picture)
    requires
        image.wf(),
        has_bgr3(image),
        is_input_of(out, image, at, value, interp),
        0 <= x < 640,
        0 <= y < 640,
        0 <= c < 3,
    ensures
        is_bgr3_of(bgr, image),
        out.sized(640, 640, 3),
        out.wf(),
        out.data[(y * 640 + x) * 3 + c] == if at.left <= x < at.left + at.width && at.top <= y < at.top + at.height {
            scaled(bgr, at.width as int, at.height as int, interp).data[((y - at.top) * at.width + (x - at.left)) * 3
                + c]
        } else {
            value
        },
{
    let bgr = choose|bgr: Picture| #[trigger]
        is_bgr3_of(bgr, image) && is_pasted(
            out,
            blank_input(value),
            scaled(bgr, at.width as int, at.height as int, interp),
            at.left as int,
            at.top as int,
        );
    let patch = scaled(bgr, at.width as int, at.height as int, interp);
    assert(blank_input(value).wf());
    assert(bgr.channels == 3);
    pasted_bytes_are_those_of_the_patch(out, blank_input(value), patch, at.left as int, at.top as int, x, y, c);
    bgr
}

/// The recognition model is given the plate scaled to its size, with blue, green and red one
/// after the other.
pub proof fn recognition_input_shows_the_plate(input: Seq<u8>, crop: Picture, x: int, y: int, c: int)
    requires
        crop.wf(),
        has_bgr3(crop),
        is_rec_input(input, crop),
        0 <= x < 94,
        0 <= y < 24,
        0 <= c < 3,
    ensures
        input.len() == 3 * 24 * 94,
        exists|bgr: Picture|
            #[trigger] is_bgr3_of(bgr, crop) && input[2256 * c + (94 * y + x)] == scaled(
                bgr,
                94,
                24,
                Interpolation::Linear,
            ).data[(94 * y + x) * 3 + c],
{
    let bgr = choose|bgr: Picture| #[trigger]
        is_bgr3_of(bgr, crop) && input == planes(scaled(bgr, 94, 24, Interpolation::Linear));
    planes_hold_channel_after_channel(scaled(bgr, 94, 24, Interpolation::Linear), 94 * y + x, c);
}

/// What lies in the image stays where it was placed: only coordinates beyond an edge are moved,
/// to that edge.
pub proof fn coordinates_inside_are_kept(after: Seq<Single>, before: Seq<Single>, at: Placement, i: int)
    requires
        are_inside(after, before, at),
        0 <= i < before.len(),
    ensures
        ({
            let end = single_of(
                if i % 2 == 0 {
                    at.image_width as int
                } else {
                    at.image_height as int
                },
            );
            &&& !(Single { bits: 0 }).greater(before[i]) && !before[i].greater(end) ==> after[i] == before[i]
            &&& before[i].greater(end) ==> after[i] == end
            &&& (Single { bits: 0 }).greater(before[i]) ==> after[i].bits == 0
        }),
{
    lemma_single_of(at.image_width as int);
    lemma_single_of(at.image_height as int);
    assert(after[i] == before[i].clamp(Single { bits: SINGLE_ZERO }, image_end(at, i % 2)));
}

/// Each plate that the anchor-based detector finds comes from one row of its outputs: it has the
/// confidence of the row, and its box and corners are those that the row and its anchor are
/// placed at, moved into the image.
pub proof fn found_plates_come_from_anchors<
    A: Fn(&RawPlate, &Placement) -> PlateShape,
    O: Fn(&PlateBox, &PlateBox) -> Single,
>(
    plates: Vec<PlateBox>,
    outputs: Vec<TensorOutput>,
    at: Placement,
    threshold: Single,
    place: A,
    iou: O,
    iou_threshold: Single,
    j: int,
) -> (r: (MnetOutputs, int, RawPlate, PlateShape))
    requires
        is_mnet_answer(Ok(plates), Ok(outputs), at, threshold, place, iou, iou_threshold),
        0 <= j < plates.len(),
    ensures
        ({
            let (m, i, raw, shape) = r;
            &&& m.is_read_from(outputs@)
            &&& 0 <= i < m.loc.rows
            &&& !threshold.greater(m.conf.data@[2 * i + 1])
            &&& plates@[j].score == m.conf.data@[2 * i + 1]
            &&& raw.prior == all_priors()[i]
            &&& raw.loc@ == m.loc.data@.subrange(4 * i, 4 * i + 4)
            &&& raw.corners@[0]@ == m.landms.data@.subrange(8 * i + 4, 8 * i + 6)
            &&& raw.corners@[1]@ == m.landms.data@.subrange(8 * i + 6, 8 * i + 8)
            &&& raw.corners@[2]@ == m.landms.data@.subrange(8 * i + 2, 8 * i + 4)
            &&& raw.corners@[3]@ == m.landms.data@.subrange(8 * i, 8 * i + 2)
            &&& call_ensures(place, (&raw, &at), shape)
            &&& are_inside(plates@[j].xyxy@, shape.xyxy@, at)
            &&& plates@[j].landmarks is Some
            &&& forall|k: int|
                0 <= k < 4 ==> are_inside((#[trigger] plates@[j].landmarks->0@[k])@, shape.corners@[k]@, at)
        }),
{
    let (raws, boxes) = choose|raws: Seq<RawPlate>, boxes: Seq<PlateBox>|
        are_mnet_candidates(raws, outputs@, threshold) && #[trigger] are_placed_anchors(boxes, raws, at, place)
            && suppresses(boxes, iou, iou_threshold, plates@);
    let m = choose|m: MnetOutputs|
        #![trigger m.scores()]
        m.is_read_from(outputs@) && raws.len() == passing(m.scores(), threshold).len() && forall|k: int|
            0 <= k < raws.len() ==> is_raw_plate(
                #[trigger] raws[k],
                m,
                all_priors(),
                passing(m.scores(), threshold)[k],
            );
    kept_plates_are_candidates(boxes, iou, iou_threshold, plates@, j);
    let k = choose|k: int| 0 <= k < boxes.len() && boxes[k] == plates@[j];
    let i = passing(m.scores(), threshold)[k];
    assert(passing(m.scores(), threshold).contains(i));
    passing_is_exact(m.scores(), threshold, i);
    let raw = raws[k];
    assert(is_raw_plate(raw, m, all_priors(), i));
    candidates_belong_to_their_anchor(raw, m, all_priors(), i);
    corners_are_points_of_the_model(raw, m, all_priors(), i);
    assert(raw.corners@[0]@ =~= m.landms.data@.subrange(8 * i + 4, 8 * i + 6));
    assert(raw.corners@[1]@ =~= m.landms.data@.subrange(8 * i + 6, 8 * i + 8));
    assert(raw.corners@[2]@ =~= m.landms.data@.subrange(8 * i + 2, 8 * i + 4));
    assert(raw.corners@[3]@ =~= m.landms.data@.subrange(8 * i, 8 * i + 2));
    assert(is_placed_anchor(boxes[k], raw, at, place));
    let shape = choose|shape: PlateShape| #[trigger]
        call_ensures(place, (&raw, &at), shape) && {
            &&& are_inside(boxes[k].xyxy@, shape.xyxy@, at)
            &&& boxes[k].score == raw.score
            &&& boxes[k].landmarks is Some
            &&& forall|k2: int|
                0 <= k2 < 4 ==> are_inside((#[trigger] boxes[k].landmarks->0[k2])@, shape.corners[k2]@, at)
        };
    assert forall|n: int| 0 <= n < 4 implies are_inside(
        (#[trigger] plates@[j].landmarks->0@[n])@,
        shape.corners@[n]@,
        at,
    ) by {
        assert(are_inside(boxes[k].landmarks->0[n]@, shape.corners[n]@, at));
    }
    (m, i, raw, shape)
}

/// Each plate that the grid-based detector finds is one of its candidates: it has its confidence
/// and no corners, and its box is where the candidate is placed, moved into the image.
pub proof fn found_plates_come_from_the_grid<
    G: Fn(&RawBox, &Placement) -> [Single; 4],
    O: Fn(&PlateBox, &PlateBox) -> Single,
>(
    plates: Vec<PlateBox>,
    outputs: Vec<TensorOutput>,
    at: Placement,
    threshold: Single,
    place: G,
    iou: O,
    iou_threshold: Single,
    j: int,
) -> (r: (Vec<RawBox>, int, [Single; 4]))
    requires
        is_yolo_answer(Ok(plates), Ok(outputs), at, threshold, place, iou, iou_threshold),
        0 <= j < plates.len(),
    ensures
        ({
            let (raws, k, xyxy) = r;
            &&& is_yolo_reading(Ok(raws), outputs@, threshold)
            &&& 0 <= k < raws.len()
            &&& plates@[j].score == raws@[k].score
            &&& plates@[j].landmarks is None
            &&& call_ensures(place, (&raws@[k], &at), xyxy)
            &&& are_inside(plates@[j].xyxy@, xyxy@, at)
        }),
{
    let result: Result<Vec<PlateBox>, VisionError> = Ok(plates);
    let reading = choose|reading: Result<Vec<RawBox>, VisionError>| #[trigger]
        is_yolo_reading(reading, outputs@, threshold) && match reading {
            Err(e) => result is Err && result->Err_0 == e,
            Ok(raw) => {
                &&& result is Ok
                &&& exists|boxes: Seq<PlateBox>| #[trigger]
                    are_placed_boxes(boxes, raw@, at, place) && suppresses(boxes, iou, iou_threshold, result->Ok_0@)
            },
        };
    let raws = reading->Ok_0;
    let boxes = choose|boxes: Seq<PlateBox>| #[trigger]
        are_placed_boxes(boxes, raws@, at, place) && suppresses(boxes, iou, iou_threshold, plates@);
    kept_plates_are_candidates(boxes, iou, iou_threshold, plates@, j);
    let k = choose|k: int| 0 <= k < boxes.len() && boxes[k] == plates@[j];
    assert(is_placed_box(boxes[k], raws@[k], at, place));
    let xyxy = choose|xyxy: [Single; 4]| #[trigger]
        call_ensures(place, (&raws@[k], &at), xyxy) && {
            &&& are_inside(boxes[k].xyxy@, xyxy@, at)
            &&& boxes[k].score == raws@[k].score
            &&& boxes[k].landmarks is None
        };
    (raws, k, xyxy)
}

/// An engine that is opened has a session for each of its models: one on the detection model,
/// with the given parameters and an input of 640 by 640 pixels, and one on the recognition model,
/// with the default parameters of the process and an input of 94 by 24 pixels. It is of the
/// given kind, and drops plates that overlap by more than four tenths.
pub proof fn opened_engine_has_both_models(
    engine: LicensePlateEngine,
    det: ModelFile,
    rec: ModelFile,
    device: DeviceType,
    kind: PlateDetectorKind,
    config: OnnxRuntimeConfig,
    env: Environment,
)
    requires
        LicensePlateEngine::is_opened(Ok(engine), det, rec, device, kind, config, env),
    ensures
        engine.base.model_path@ == det.path@ && det.exists && det.path@.len() > 0,
        engine.recognizer.base.model_path@ == rec.path@ && rec.exists && rec.path@.len() > 0,
        engine.base.input_width == 640 && engine.base.input_height == 640,
        engine.recognizer.base.input_width == 94 && engine.recognizer.base.input_height == 24,
        engine.base.session.config == config,
        engine.recognizer.base.session.config.gpu_mem_limit_mb == env.limit.mb,
        engine.detector_kind == kind,
        engine.nms_threshold.bits == 0x3ecc_cccd,
        kind is Mnet ==> engine.priors.len() == 16800,
        kind is Yolo ==> engine.priors.len() == 0,
{
}

} // verus!
