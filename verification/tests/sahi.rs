//! Sliced prediction.

use std::cell::Cell;
use std::collections::HashSet;

use rust_onnx_infer::error::VisionError;
use rust_onnx_infer::ieee::{Double, Single};
use rust_onnx_infer::imaging::image::Image;
use rust_onnx_infer::sahi::config::{
    MatchMetric, PostprocessType, SahiBox, SahiConfig, DEFAULT_MATCH_THRESHOLD, DEFAULT_OVERLAP_RATIO,
    LOW_MODEL_CONFIDENCE,
};
use rust_onnx_infer::sahi::sliced_predictor::{
    collect_predictions, predict_slice, predict_sliced, resolve_postprocess, MergeWay, SahiResultAdapter,
    SahiSinglePredictor,
};

fn single(x: f32) -> Single {
    Single::from_bits(x.to_bits())
}

fn float(x: Single) -> f32 {
    f32::from_bits(x.to_bits())
}

#[derive(Debug, Clone)]
struct Detection {
    name: String,
    class: i32,
    corners: [f64; 4],
    confidence: f64,
}

impl Detection {
    fn new(name: &str, class: i32, x1: f64, y1: f64, x2: f64, y2: f64, confidence: f64) -> Self {
        Detection { name: String::from(name), class, corners: [x1, y1, x2, y2], confidence }
    }

    fn x2(&self) -> f64 {
        self.corners[2]
    }

    fn confidence(&self) -> f64 {
        self.confidence
    }
}

struct DetectionAdapter;

impl SahiResultAdapter<Detection> for DetectionAdapter {
    type MaskMerger = &'static str;

    fn mask_merger(&self) -> &'static str {
        "no masks"
    }

    fn is_excluded(&self, item: &Detection, names: &HashSet<String>, ids: &HashSet<i32>) -> bool {
        names.contains(&item.name) || ids.contains(&item.class)
    }

    fn to_box(&self, item: &Detection, shift_x: i32, shift_y: i32, width: i32, height: i32) -> Option<SahiBox> {
        let place = |v: f64, shift: i32, limit: i32| (v as f32 + shift as f32).clamp(0.0, limit as f32);
        let (x1, x2) = (place(item.corners[0], shift_x, width), place(item.corners[2], shift_x, width));
        let (y1, y2) = (place(item.corners[1], shift_y, height), place(item.corners[3], shift_y, height));
        if x2 <= x1 || y2 <= y1 {
            return None;
        }
        let score = single(item.confidence as f32);
        Some(SahiBox::new(single(x1), single(y1), single(x2), single(y2), score, item.class, &item.name))
    }

    fn to_result(&self, merged: &SahiBox) -> Detection {
        Detection::new(
            &merged.category_name,
            merged.category_id,
            float(merged.min_x) as f64,
            float(merged.min_y) as f64,
            float(merged.max_x) as f64,
            float(merged.max_y) as f64,
            float(merged.score) as f64,
        )
    }
}

/// Always a strong small box, and a weaker large box at the same place.
struct TwoBoxPredictor {
    low_score: f64,
}

impl SahiSinglePredictor<Detection> for TwoBoxPredictor {
    fn predict_single(&self, _image: &Image) -> Result<Vec<Detection>, VisionError> {
        Ok(vec![
            Detection::new("obj", 0, 10.0, 10.0, 50.0, 50.0, 0.8),
            Detection::new("obj", 0, 10.0, 10.0, 90.0, 90.0, self.low_score),
        ])
    }
}

fn copy(b: &SahiBox) -> SahiBox {
    SahiBox::new(b.min_x, b.min_y, b.max_x, b.max_y, b.score, b.category_id, &b.category_name)
}

fn area(b: &SahiBox) -> f32 {
    (float(b.max_x) - float(b.min_x)) * (float(b.max_y) - float(b.min_y))
}

fn overlap(a: &SahiBox, b: &SahiBox, metric: MatchMetric) -> f32 {
    let w = float(a.max_x).min(float(b.max_x)) - float(a.min_x).max(float(b.min_x));
    let h = float(a.max_y).min(float(b.max_y)) - float(a.min_y).max(float(b.min_y));
    let inter = w.max(0.0) * h.max(0.0);
    match metric {
        MatchMetric::Iou => inter / (area(a) + area(b) - inter),
        MatchMetric::Ios => inter / area(a).min(area(b)),
    }
}

/// From the strongest box down, drops or takes in those that overlap it enough.
fn merge(boxes: &Vec<SahiBox>, way: MergeWay, masks: &&'static str) -> Vec<SahiBox> {
    assert_eq!(*masks, "no masks");
    let threshold = f64::from_bits(way.match_threshold.to_bits());

    let mut order: Vec<usize> = (0..boxes.len()).collect();
    order.sort_by(|&a, &b| float(boxes[b].score).partial_cmp(&float(boxes[a].score)).unwrap());
    let mut done = vec![false; boxes.len()];
    let mut out = Vec::new();
    for (k, &i) in order.iter().enumerate() {
        if done[i] {
            continue;
        }
        let mut kept = copy(&boxes[i]);
        for &j in &order[k + 1..] {
            let alike = way.class_agnostic || boxes[i].category_id == boxes[j].category_id;
            if !done[j] && alike && overlap(&boxes[i], &boxes[j], way.match_metric) as f64 >= threshold {
                done[j] = true;
                if way.postprocess_type != PostprocessType::Nms {
                    kept.merge_into(&boxes[j]);
                }
            }
        }
        out.push(kept);
    }
    out
}

fn single_slice_config() -> SahiConfig {
    let mut cfg = SahiConfig::default();
    cfg.slice_width = Some(200);
    cfg.slice_height = Some(200);
    cfg.auto_slice_resolution = false;
    cfg.perform_standard_prediction = false;
    cfg
}

fn predict<P: SahiSinglePredictor<Detection>>(cfg: &SahiConfig, threshold: f32, predictor: &P) -> Vec<Detection> {
    let image = Image::new(200, 200, 3);
    let slices = vec![[0, 0, 200, 200]];
    let r = predict_sliced(&image, cfg, &DetectionAdapter, single(threshold), predictor, &slices, 0, merge, || 0);
    r.unwrap().detections
}

#[test]
fn min_confidence_should_drop_low_score_boxes_before_merge() {
    let predictor = TwoBoxPredictor { low_score: 0.15 };

    let cfg = single_slice_config();
    let detections = predict(&cfg, 0.1, &predictor);
    assert_eq!(detections.len(), 1);
    assert!((detections[0].x2() - 90.0).abs() < 1e-3, "无过滤时 union 应放大到 90,实际 {}", detections[0].x2());

    let mut cfg = single_slice_config();
    cfg.min_confidence = Some(single(0.25));
    let detections = predict(&cfg, 0.1, &predictor);
    assert_eq!(detections.len(), 1);
    assert!((detections[0].x2() - 50.0).abs() < 1e-3, "过滤后高分框几何应原样保留(50),实际 {}", detections[0].x2());
    assert!((detections[0].confidence() - 0.8).abs() < 1e-6);
}

#[test]
fn low_model_confidence_switch_should_use_effective_threshold() {
    let predictor = TwoBoxPredictor { low_score: 0.5 };

    let cfg = single_slice_config();
    let detections = predict(&cfg, 0.05, &predictor);
    assert_eq!(detections.len(), 2, "低阈值无过滤应切换 NMS/IOU,IoU 0.25 两框都留");

    let mut cfg = single_slice_config();
    cfg.min_confidence = Some(single(0.3));
    let detections = predict(&cfg, 0.05, &predictor);
    assert_eq!(detections.len(), 1, "有效阈值 0.3 应保持 GREEDYNMM,IOS 1.0 合并为一");
}

/// A predictor without the predictions below a confidence.
struct Above<'a> {
    predictor: &'a TwoBoxPredictor,
    least: f32,
}

impl SahiSinglePredictor<Detection> for Above<'_> {
    fn predict_single(&self, image: &Image) -> Result<Vec<Detection>, VisionError> {
        let found = self.predictor.predict_single(image)?;
        Ok(found.into_iter().filter(|d| d.confidence as f32 >= self.least).collect())
    }
}

#[test]
fn least_score_is_a_threshold_of_the_engine() {
    for low_score in [0.05, 0.15, 0.3, 0.5, 0.9] {
        for threshold in [0.05, 0.2] {
            for least in [0.05, 0.15, 0.3, 0.85] {
                let predictor = TwoBoxPredictor { low_score };
                let plain = single_slice_config();
                let mut cfg = single_slice_config();
                cfg.min_confidence = Some(single(least));
                let with = predict(&cfg, threshold, &predictor);
                let without = predict(&plain, least.max(threshold), &Above { predictor: &predictor, least });
                let shape = |d: &Detection| (d.corners, d.confidence);
                assert_eq!(
                    with.iter().map(shape).collect::<Vec<_>>(),
                    without.iter().map(shape).collect::<Vec<_>>(),
                    "{low_score} {threshold} {least}"
                );
            }
        }
    }
}

/// Two boxes of different classes that share a quarter of the larger one.
struct TwoClasses;

impl SahiSinglePredictor<Detection> for TwoClasses {
    fn predict_single(&self, _image: &Image) -> Result<Vec<Detection>, VisionError> {
        Ok(vec![
            Detection::new("a", 0, 10.0, 10.0, 50.0, 50.0, 0.8),
            Detection::new("b", 1, 30.0, 30.0, 70.0, 70.0, 0.7),
        ])
    }
}

#[test]
fn boxes_are_merged_as_configured() {
    let half = Double::from_bits(0.5f64.to_bits());
    let fifth = Double::from_bits(0.2f64.to_bits());
    let count = |agnostic: bool, threshold: Double| {
        let mut cfg = single_slice_config();
        cfg.class_agnostic = agnostic;
        cfg.match_threshold = threshold;
        predict(&cfg, 0.5, &TwoClasses).len()
    };
    assert_eq!(count(false, fifth), 2);
    assert_eq!(count(true, fifth), 1);
    assert_eq!(count(true, half), 2);
}

#[test]
fn durations_are_read_from_the_clock() {
    let image = Image::filled(60, 40, 3, 1);
    let readings = Cell::new(0u64);
    let clock = || {
        let n = readings.get();
        readings.set(n + 1);
        n * n * 10
    };
    let predictor = WholeImage { calls: Cell::new(0) };
    let cfg = SahiConfig::defaults();
    let slices = vec![[0, 0, 60, 40]];
    let r = predict_sliced(&image, &cfg, &DetectionAdapter, single(0.5), &predictor, &slices, 7, keep_all, clock);
    let r = r.unwrap();
    assert_eq!((r.slice_millis, r.predict_millis, r.postprocess_millis), (7, 10, 50));
}

#[test]
fn parameters_have_defaults() {
    let cfg = SahiConfig::defaults();
    assert_eq!((cfg.slice_height, cfg.slice_width), (None, None));
    assert_eq!(f64::from_bits(cfg.overlap_height_ratio.to_bits()), 0.2);
    assert_eq!(f64::from_bits(cfg.overlap_width_ratio.to_bits()), 0.2);
    assert_eq!(f64::from_bits(cfg.match_threshold.to_bits()), 0.5);
    assert!(cfg.auto_slice_resolution && cfg.perform_standard_prediction);
    assert_eq!((cfg.postprocess_type, cfg.match_metric), (PostprocessType::Greedynmm, MatchMetric::Ios));
    assert!(!cfg.class_agnostic && !cfg.force_postprocess_type && !cfg.verbose);
    assert!(cfg.exclude_class_names.is_empty() && cfg.exclude_class_ids.is_empty());
    assert!(cfg.merge_buffer_length.is_none() && cfg.min_confidence.is_none());
    assert_eq!(PostprocessType::default(), PostprocessType::Greedynmm);
    assert_eq!(MatchMetric::default(), MatchMetric::Ios);
    assert_eq!(f64::from_bits(DEFAULT_OVERLAP_RATIO), 0.2);
    assert_eq!(f64::from_bits(DEFAULT_MATCH_THRESHOLD), 0.5);
    assert_eq!(f32::from_bits(LOW_MODEL_CONFIDENCE), 0.1);
    let (a, b) = (Double::from_bits(0.25f64.to_bits()), Double::from_bits(0.75f64.to_bits()));
    let cfg = SahiConfig::of(300, 400, a, b);
    assert_eq!((cfg.slice_height, cfg.slice_width), (Some(300), Some(400)));
    assert_eq!((cfg.overlap_height_ratio, cfg.overlap_width_ratio), (a, b));
    assert_eq!(cfg.match_metric, MatchMetric::Ios);
}

#[test]
fn low_thresholds_drop_boxes() {
    let mut cfg = SahiConfig::defaults();
    let way = |cfg: &SahiConfig, t: f32| {
        let way = resolve_postprocess(cfg, single(t));
        assert_eq!((way.match_threshold, way.class_agnostic), (cfg.match_threshold, cfg.class_agnostic));
        (way.postprocess_type, way.match_metric)
    };
    assert_eq!(way(&cfg, 0.1), (PostprocessType::Greedynmm, MatchMetric::Ios));
    assert_eq!(way(&cfg, 0.09), (PostprocessType::Nms, MatchMetric::Iou));
    cfg.min_confidence = Some(single(0.1));
    assert_eq!(way(&cfg, 0.09), (PostprocessType::Greedynmm, MatchMetric::Ios));
    cfg.min_confidence = Some(single(0.05));
    assert_eq!(way(&cfg, 0.09), (PostprocessType::Nms, MatchMetric::Iou));
    cfg.force_postprocess_type = true;
    assert_eq!(way(&cfg, 0.09), (PostprocessType::Greedynmm, MatchMetric::Ios));
    cfg.force_postprocess_type = false;
    cfg.postprocess_type = PostprocessType::Nms;
    assert_eq!(way(&cfg, 0.09), (PostprocessType::Nms, MatchMetric::Ios));
}

#[test]
fn merged_boxes_hold_both() {
    let mut a = SahiBox::new(single(0.0), single(2.0), single(5.0), single(6.0), single(0.5), 1, "one");
    let b = SahiBox::new(single(1.0), single(1.0), single(7.0), single(3.0), single(0.4), 2, "two");
    a.merge_into(&b);
    assert_eq!((float(a.min_x), float(a.min_y), float(a.max_x), float(a.max_y)), (0.0, 1.0, 7.0, 6.0));
    assert_eq!((float(a.score), a.category_id, a.category_name.as_str()), (0.5, 1, "one"));
    let c = SahiBox::new(single(1.0), single(1.0), single(2.0), single(3.0), single(0.5), 3, "three");
    a.merge_into(&c);
    assert_eq!((a.category_id, a.category_name.as_str()), (3, "three"));
    let d = SahiBox::new(single(1.0), single(1.0), single(2.0), single(3.0), single(0.9), 4, "four");
    a.merge_into(&d);
    assert_eq!((float(a.score), a.category_id), (0.9, 4));
    assert!(a.payload.is_none());
}

#[test]
fn predictions_are_collected() {
    let mut cfg = SahiConfig::defaults();
    cfg.exclude_class_ids.insert(7);
    cfg.exclude_class_names.insert(String::from("bad"));
    cfg.min_confidence = Some(single(0.5));
    let raw = vec![
        Detection::new("good", 1, 0.0, 0.0, 10.0, 10.0, 0.9),
        Detection::new("bad", 1, 0.0, 0.0, 10.0, 10.0, 0.9),
        Detection::new("good", 7, 0.0, 0.0, 10.0, 10.0, 0.9),
        Detection::new("good", 1, 0.0, 0.0, 10.0, 10.0, 0.4),
        Detection::new("good", 1, 95.0, 0.0, 99.0, 10.0, 0.9),
        Detection::new("good", 2, 0.0, 0.0, 10.0, 10.0, 0.5),
    ];
    let mut out = Vec::new();
    collect_predictions(&raw, &DetectionAdapter, &cfg, &mut out, 10, 20, 100, 100);
    assert_eq!(out.len(), 2);
    assert_eq!((float(out[0].min_x), float(out[0].min_y)), (10.0, 20.0));
    assert_eq!(out[1].category_id, 2);
    collect_predictions(&raw, &DetectionAdapter, &cfg, &mut out, 10, 20, 100, 100);
    assert_eq!(out.len(), 4);
}

/// One box as large as the image that is predicted on.
struct WholeImage {
    calls: Cell<usize>,
}

impl SahiSinglePredictor<Detection> for WholeImage {
    fn predict_single(&self, image: &Image) -> Result<Vec<Detection>, VisionError> {
        self.calls.set(self.calls.get() + 1);
        Ok(vec![Detection::new("all", 0, 0.0, 0.0, image.width() as f64, image.height() as f64, 0.9)])
    }
}

#[test]
fn slices_are_cut_out() {
    let predictor = WholeImage { calls: Cell::new(0) };
    let image = Image::filled(50, 40, 3, 1);
    let found = predict_slice(&predictor, &image, [10, 5, 30, 20]).unwrap();
    assert_eq!(found[0].corners, [0.0, 0.0, 20.0, 15.0]);
    let e = predict_slice(&predictor, &image, [10, 5, 60, 20]).unwrap_err();
    assert_eq!(e.message, "crop rectangle is empty or outside the image");
    let e = predict_slice(&predictor, &image, [10, 5, 5, 20]).unwrap_err();
    assert_eq!(e.message, "crop rectangle is empty or outside the image");
}

fn keep_all(boxes: &Vec<SahiBox>, _: MergeWay, _: &&'static str) -> Vec<SahiBox> {
    boxes.iter().map(copy).collect()
}

#[test]
fn slices_are_moved_to_their_place() {
    let image = Image::filled(60, 40, 3, 1);
    let slices = vec![[0, 0, 40, 40], [20, 0, 60, 40]];
    let mut cfg = SahiConfig::defaults();
    let predictor = WholeImage { calls: Cell::new(0) };
    let clock = || 0;
    let r = predict_sliced(&image, &cfg, &DetectionAdapter, single(0.5), &predictor, &slices, 7, keep_all, clock);
    let r = r.unwrap();
    let lefts: Vec<f64> = r.detections.iter().map(|d| d.corners[0]).collect();
    assert_eq!(lefts, vec![0.0, 20.0, 0.0]);
    assert_eq!(predictor.calls.get(), 3);
    assert_eq!((r.slice_count, r.image_width, r.image_height, r.slice_millis), (2, 60, 40, 7));

    cfg.perform_standard_prediction = false;
    let r = predict_sliced(&image, &cfg, &DetectionAdapter, single(0.5), &predictor, &slices, 7, keep_all, clock);
    assert_eq!(r.unwrap().detections.len(), 2);
    cfg.perform_standard_prediction = true;
    let one = vec![[0, 0, 60, 40]];
    let r = predict_sliced(&image, &cfg, &DetectionAdapter, single(0.5), &predictor, &one, 7, keep_all, clock);
    assert_eq!(r.unwrap().detections.len(), 1);
}

#[test]
fn buffers_are_merged_in_between() {
    let image = Image::filled(60, 40, 3, 1);
    let slices = vec![[0, 0, 20, 40], [20, 0, 40, 40], [40, 0, 60, 40]];
    let mut cfg = SahiConfig::defaults();
    cfg.perform_standard_prediction = false;
    let predictor = WholeImage { calls: Cell::new(0) };
    let merges = Cell::new(0);
    let counted = |boxes: &Vec<SahiBox>, way: MergeWay, masks: &&'static str| {
        merges.set(merges.get() + 1);
        keep_all(boxes, way, masks)
    };
    let run = |cfg: &SahiConfig| {
        merges.set(0);
        let r =
            predict_sliced(&image, cfg, &DetectionAdapter, single(0.5), &predictor, &slices, 0, &counted, || 0).unwrap();
        (r.detections.len(), merges.get())
    };
    let (plain, without) = run(&cfg);
    cfg.merge_buffer_length = Some(1);
    let (buffered, with) = run(&cfg);
    assert_eq!((plain, buffered), (3, 3));
    assert!(with > without);
}

struct Failing;

impl SahiSinglePredictor<Detection> for Failing {
    fn predict_single(&self, _image: &Image) -> Result<Vec<Detection>, VisionError> {
        Err(VisionError::inference(String::from("no model")))
    }
}

#[test]
fn errors_of_slices_are_passed_on() {
    let image = Image::filled(60, 40, 3, 1);
    let cfg = SahiConfig::defaults();
    let run = |slices: Vec<[i32; 4]>| {
        predict_sliced(&image, &cfg, &DetectionAdapter, single(0.5), &Failing, &slices, 0, keep_all, || 0)
            .unwrap_err()
            .message
    };
    assert_eq!(run(vec![[0, 0, 20, 20]]), "no model");
    assert_eq!(run(vec![[0, 0, 20, 50]]), "crop rectangle is empty or outside the image");
}
