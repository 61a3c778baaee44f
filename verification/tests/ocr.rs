//! Finding and reading text.

use rust_onnx_infer::engines::components::Component;
use rust_onnx_infer::engines::license_plate::{DetectorCalls, LicensePlateEngine, PlateShape};
use rust_onnx_infer::engines::nms::PlateBox;
use rust_onnx_infer::engines::ocr_crop::{
    crop_region, LineCalls, LineMeasure, LineSpot, Margins, Surroundings, LINE_PADDING,
};
use rust_onnx_infer::engines::ocr_detector::{
    can_count, reading_order, DetLimitType, MapFrame, OcrDetector, TextCalls, DEFAULT_BOX_THRESH, DEFAULT_DET_THRESH,
    DEFAULT_UNCLIP_RATIO,
};
use rust_onnx_infer::engines::ocr_pipeline::{pair_lines, OcrPipeline};
use rust_onnx_infer::engines::ocr_recognizer::{can_read_lines, load_dict, OcrRecognizer, ReadCalls};
use rust_onnx_infer::engines::ocr_region::{TextLine, TextRegion};
use rust_onnx_infer::engines::plate_crop::PixelBounds;
use rust_onnx_infer::engines::plate_image::Placement;
use rust_onnx_infer::engines::plate_output::{RawBox, RawPlate};
use rust_onnx_infer::error::{ErrorKind, VisionError};
use rust_onnx_infer::ieee::{Double, Single};
use rust_onnx_infer::imaging::image::Image;
use rust_onnx_infer::runtime::base::{Environment, ModelFile};
use rust_onnx_infer::runtime::device_type::DeviceType;
use rust_onnx_infer::runtime::runtime_config::{GlobalGpuMemLimit, OnnxRuntimeConfig};
use rust_onnx_infer::runtime::session_factory::EnabledProviders;
use rust_onnx_infer::runtime::tensor::{TensorData, TensorOutput};

fn single(x: f32) -> Single {
    Single::from_bits(x.to_bits())
}

fn float(x: Single) -> f32 {
    f32::from_bits(x.to_bits())
}

fn tensor(shape: Vec<i64>, values: &[f32]) -> TensorOutput {
    let data = TensorData::F32(values.iter().map(|&v| single(v)).collect());
    TensorOutput { name: String::from("out"), shape, data }
}

fn environment() -> Environment {
    let enabled = EnabledProviders {
        cuda: false,
        coreml: false,
        tensorrt: false,
        directml: false,
        openvino: false,
        rocm: false,
    };
    Environment { limit: GlobalGpuMemLimit::default(), enabled }
}

fn model(exists: bool) -> ModelFile {
    ModelFile { path: String::from("m.onnx"), exists }
}

fn detector() -> OcrDetector {
    OcrDetector::new(&model(true), DeviceType::Cpu, &environment()).unwrap()
}

fn recognizer(dict: &str) -> OcrRecognizer {
    OcrRecognizer::new(&model(true), "keys.txt", dict, DeviceType::Cpu, &environment()).unwrap()
}

fn region(x1: f32, y1: f32, x2: f32, y2: f32) -> TextRegion {
    TextRegion::from_bbox(single(x1), single(y1), single(x2), single(y2), single(0.5))
}

fn center(r: &TextRegion) -> (Single, Single) {
    let mean = |k: usize| single(r.quad.iter().map(|p| float(p[k])).sum::<f32>() / 4.0);
    (mean(1), mean(0))
}

fn mean(values: &Vec<Single>) -> Single {
    assert!(!values.is_empty());
    single(values.iter().map(|&v| float(v)).sum::<f32>() / values.len() as f32)
}

/// The bounding box of a component, scaled to the image; none if it is one pixel wide.
fn corners(c: &Component, frame: &MapFrame) -> Option<[[Single; 2]; 4]> {
    if c.max_x == c.min_x {
        return None;
    }
    let x = |n: usize| single(n as f32 * frame.image_width as f32 / frame.width as f32);
    let y = |n: usize| single(n as f32 * frame.image_height as f32 / frame.height as f32);
    let (x1, y1, x2, y2) = (x(c.min_x), y(c.min_y), x(c.max_x + 1), y(c.max_y + 1));
    Some([[x1, y1], [x2, y1], [x2, y2], [x1, y2]])
}

#[test]
fn regions_have_bounding_boxes() {
    let r = region(1.0, 2.0, 5.0, 9.0);
    let (x1, y1, x2, y2) = r.axis_aligned_bbox();
    assert_eq!((float(x1), float(y1), float(x2), float(y2)), (1.0, 2.0, 5.0, 9.0));
    let turned = TextRegion {
        quad: [
            [single(5.0), single(-1.0)],
            [single(9.0), single(4.0)],
            [single(4.0), single(8.0)],
            [single(0.5), single(3.0)],
        ],
        score: single(0.1),
    };
    let (x1, y1, x2, y2) = turned.axis_aligned_bbox();
    assert_eq!((float(x1), float(y1), float(x2), float(y2)), (0.5, -1.0, 9.0, 8.0));
}

#[test]
fn detectors_have_default_parameters() {
    let mut d = detector();
    assert_eq!((float(d.det_thresh()), float(d.box_thresh()), float(d.unclip_ratio())), (0.3, 0.5, 2.0));
    assert_eq!(d.det_thresh().to_bits(), DEFAULT_DET_THRESH);
    assert_eq!(d.box_thresh().to_bits(), DEFAULT_BOX_THRESH);
    assert_eq!(d.unclip_ratio().to_bits(), DEFAULT_UNCLIP_RATIO);
    assert_eq!((d.limit_side_len(), d.limit_type(), d.max_candidates()), (960, DetLimitType::Max, 1000));
    assert!(!d.use_dilation());
    assert_eq!(d.det_min_size, 3);
    assert_eq!(DetLimitType::default(), DetLimitType::Max);
    d.set_det_thresh(single(0.1));
    d.set_box_thresh(single(0.2));
    d.set_unclip_ratio(single(1.5));
    d.set_limit_side_len(736);
    d.set_limit_type(DetLimitType::Min);
    d.set_use_dilation(true);
    d.set_max_candidates(7);
    assert_eq!((float(d.det_thresh()), float(d.box_thresh()), float(d.unclip_ratio())), (0.1, 0.2, 1.5));
    assert_eq!((d.limit_side_len(), d.limit_type(), d.max_candidates()), (736, DetLimitType::Min, 7));
    assert!(d.use_dilation());
}

#[test]
fn input_sizes_are_those_of_floats() {
    let mut d = detector();
    for limit_type in [DetLimitType::Max, DetLimitType::Min] {
        d.set_limit_type(limit_type);
        for limit in [32usize, 100, 736, 960] {
            d.set_limit_side_len(limit);
            for w in [1usize, 31, 47, 48, 100, 960, 961, 1920, 3333] {
                for h in [1usize, 16, 80, 720, 1081, 4000] {
                    let ratio = match limit_type {
                        DetLimitType::Max => {
                            let long = w.max(h) as f32;
                            if long > limit as f32 {
                                limit as f32 / long
                            } else {
                                1.0
                            }
                        }
                        DetLimitType::Min => limit as f32 / (w.min(h) as f32).max(1.0),
                    };
                    let side = |n: usize| (((n as f32 * ratio / 32.0).round() as usize) * 32).max(32);
                    assert_eq!(d.input_size_for(w, h), (Some(side(w)), Some(side(h))), "{w}x{h} at {limit}");
                }
            }
        }
    }
}

#[test]
fn limited_side_comes_near_the_limit() {
    let mut d = detector();
    d.set_limit_side_len(960);
    assert_eq!(d.input_size_for(1920, 1080), (Some(960), Some(544)));
    assert_eq!(d.input_size_for(333, 1921), (Some(160), Some(960)));
    // A longer side within the limit goes to the nearest multiple of 32.
    assert_eq!(d.input_size_for(500, 300), (Some(512), Some(288)));
    d.set_limit_side_len(1000);
    assert_eq!(d.input_size_for(4321, 100).0, Some(992));
    d.set_limit_type(DetLimitType::Min);
    d.set_limit_side_len(736);
    assert_eq!(d.input_size_for(100, 300), (Some(736), Some(2208)));
    assert_eq!(d.input_size_for(3000, 1500).1, Some(736));
}

#[test]
fn detector_inputs_are_scaled() {
    let mut image = Image::filled(50, 40, 3, 0);
    for y in 0..40 {
        for x in 0..50 {
            image.set_pixel(x, y, &[10, 20, 30]);
        }
    }
    let d = detector();
    assert!(d.can_preprocess(&image));
    let (planes, w, h) = d.preprocess(&image).unwrap();
    assert_eq!((w, h), (64, 32));
    assert_eq!(planes.len(), 3 * 64 * 32);
    assert_eq!((planes[0], planes[64 * 32], planes[2 * 64 * 32]), (30, 20, 10));
    let e = d.preprocess(&Image::filled(5, 5, 2, 0)).unwrap_err();
    assert_eq!(e.message, "不支持的通道数: 2");
}

fn map_with_text() -> TensorOutput {
    let mut values = vec![0f32; 12 * 10];
    for y in 1..4 {
        for x in 1..6 {
            values[y * 12 + x] = 0.9;
        }
    }
    for y in 5..9 {
        for x in 8..11 {
            values[y * 12 + x] = 0.4;
        }
    }
    for y in 1..4 {
        for x in 8..12 {
            values[y * 12 + x] = 0.8;
        }
    }
    values[9 * 12] = 0.99;
    tensor(vec![1, 1, 10, 12], &values)
}

fn text_calls() -> TextCalls<
    impl Fn(&Vec<Single>) -> Single,
    impl Fn(&Component, &MapFrame) -> Option<[[Single; 2]; 4]>,
    impl Fn(&TextRegion) -> (Single, Single),
> {
    TextCalls { mean, locate: corners, center }
}

#[test]
fn text_is_found_in_maps() {
    let d = detector();
    let map = d.find_components(&map_with_text()).unwrap();
    assert_eq!((map.width, map.height, map.components.len()), (12, 10, 3));
    let regions = d.postprocess(&map_with_text(), 24, 20, &text_calls()).unwrap();
    assert_eq!(regions.len(), 2);
    assert!((float(regions[0].score) - 0.9).abs() < 1e-6);
    assert!((float(regions[1].score) - 0.8).abs() < 1e-6);
    let (x1, y1, x2, y2) = regions[0].axis_aligned_bbox();
    assert_eq!((float(x1), float(y1), float(x2), float(y2)), (2.0, 2.0, 12.0, 8.0));
}

#[test]
fn weak_and_small_regions_are_dropped() {
    let mut d = detector();
    d.set_box_thresh(single(0.3));
    assert_eq!(d.postprocess(&map_with_text(), 24, 20, &text_calls()).unwrap().len(), 3);
    d.set_det_thresh(single(0.5));
    assert_eq!(d.postprocess(&map_with_text(), 24, 20, &text_calls()).unwrap().len(), 2);
    d.set_max_candidates(1);
    assert_eq!(d.postprocess(&map_with_text(), 24, 20, &text_calls()).unwrap().len(), 1);
    d.set_max_candidates(0);
    assert_eq!(d.postprocess(&map_with_text(), 24, 20, &text_calls()).unwrap().len(), 0);
}

#[test]
fn dilation_joins_text() {
    let mut values = vec![0f32; 9 * 4];
    for y in 0..4 {
        for x in 0..9 {
            if x != 4 {
                values[y * 9 + x] = 0.9;
            }
        }
    }
    let output = tensor(vec![1, 1, 4, 9], &values);
    let mut d = detector();
    assert_eq!(d.find_components(&output).unwrap().components.len(), 2);
    d.set_use_dilation(true);
    assert_eq!(d.find_components(&output).unwrap().components.len(), 1);
}

#[test]
fn maps_can_be_counted() {
    assert!(can_count(&map_with_text()));
    // A map without all its values is refused, not counted.
    assert!(can_count(&tensor(vec![1, 1, 1 << 20, 1 << 20], &[0.5])));
    assert!(can_count(&tensor(vec![1, 2, 1], &[0.5, 0.5])));
}

#[test]
fn maps_are_refused() {
    let d = detector();
    let fail = |output: TensorOutput| {
        let e = d.postprocess(&output, 9, 9, &text_calls()).unwrap_err();
        assert_eq!(e.kind, ErrorKind::Inference);
        e.message
    };
    assert_eq!(fail(tensor(vec![1, 2, 2, 1], &[0.0; 4])), "DB det 模型期望 [1,1,H,W] 概率图输出，实际 shape: [1, 2, 2, 1]");
    assert_eq!(fail(tensor(vec![4], &[0.0; 4])), "DB det 模型期望 [1,1,H,W] 概率图输出，实际 shape: [4]");
    assert_eq!(fail(tensor(vec![1, 1, 3, 2], &[0.0; 4])), "det 输出元素数 4 < 3x2");
    let other = TensorOutput { name: String::from("o"), shape: vec![1, 1, 2, 2], data: TensorData::Other(4) };
    assert_eq!(fail(other), "output tensor is not f32");
}

#[test]
fn regions_are_read_from_top_left() {
    let regions = vec![region(5.0, 5.0, 6.0, 6.0), region(9.0, 0.0, 10.0, 1.0), region(1.0, 0.0, 2.0, 1.0)];
    let ordered = reading_order(&regions, &center);
    let lefts: Vec<f32> = ordered.iter().map(|r| float(r.axis_aligned_bbox().0)).collect();
    assert_eq!(lefts, vec![1.0, 9.0, 5.0]);
}

#[test]
fn text_is_detected() {
    let d = detector();
    let seen = |_: &Vec<u8>, w: usize, h: usize| {
        assert_eq!((w, h), (32, 32));
        Ok(map_with_text())
    };
    let regions = d.detect(&Image::filled(24, 20, 3, 7), &seen, &text_calls()).unwrap();
    assert_eq!(regions.len(), 2);
    let e = d.detect(&Image::new(0, 3, 3), &seen, &text_calls()).unwrap_err();
    assert_eq!(e.message, "cannot detect on empty image");
    let broken = |_: &Vec<u8>, _: usize, _: usize| Err(VisionError::inference(String::from("broken")));
    assert_eq!(d.detect(&Image::filled(24, 20, 3, 7), &broken, &text_calls()).unwrap_err().message, "broken");
}

#[test]
fn dictionaries_hold_one_entry_per_line() {
    assert_eq!(load_dict("k", "一\n二\r\n\n三\n\n\n").unwrap(), vec!["一", "二", "", "三"]);
    for content in ["", "\n", "\n\n"] {
        let e = load_dict("k.txt", content).unwrap_err();
        assert_eq!((e.kind, e.message.as_str()), (ErrorKind::InvalidArgument, "OCR 字典为空: k.txt"));
    }
}

#[test]
fn recognizers_have_character_lists() {
    let mut r = recognizer("a\nb\n");
    assert_eq!(r.dict_len(), 2);
    assert_eq!(r.char_list(), &vec!["blank", "a", "b", " "]);
    assert!(r.use_space_char());
    r.set_use_space_char(false);
    assert_eq!(r.char_list(), &vec!["blank", "a", "b"]);
    assert!(!r.use_space_char());
    assert_eq!((r.rec_image_height(), r.rec_max_width()), (48, 320));
    r.set_rec_image_height(0);
    r.set_rec_max_width(0);
    assert_eq!((r.rec_image_height(), r.rec_max_width()), (1, 1));
    r.set_rec_image_height(32);
    r.set_rec_max_width(100);
    assert_eq!((r.rec_image_height(), r.rec_max_width()), (32, 100));
}

#[test]
fn recognizers_are_not_opened() {
    let env = environment();
    let e = OcrRecognizer::new(&model(false), "k", "", DeviceType::Cpu, &env).unwrap_err();
    assert_eq!(e.message, "OCR 字典为空: k");
    let e = OcrRecognizer::new(&model(false), "k", "a", DeviceType::Cpu, &env).unwrap_err();
    assert_eq!(e.kind, ErrorKind::ModelNotFound);
    let bad = OnnxRuntimeConfig::builder(&GlobalGpuMemLimit::default()).inter_op_threads(0).build();
    let e = OcrRecognizer::with_config(&model(true), "k", "a", DeviceType::Cpu, bad, &env).unwrap_err();
    assert_eq!(e.kind, ErrorKind::InvalidArgument);
    assert_eq!(OcrDetector::new(&model(false), DeviceType::Cpu, &env).unwrap_err().message, "m.onnx");
    assert!(OcrDetector::with_config(&model(true), DeviceType::Cpu, bad, &env).is_err());
}

#[test]
fn batches_are_as_wide_as_the_widest_line() {
    let mut r = recognizer("a\nb");
    r.set_rec_image_height(4);
    r.set_rec_max_width(20);
    let wide = Image::filled(9, 3, 3, 200);
    let high = Image::filled(2, 4, 3, 100);
    let (batch, width) = r.preprocess_crops(&vec![high, wide]).unwrap();
    assert_eq!(width, (4.0f32 * 3.0).ceil() as usize);
    assert_eq!(batch.len(), 2 * 3 * 4 * 12);
    assert_eq!((batch[0], batch[1], batch[2]), (Some(100), Some(100), None));
    let plane = 4 * 12;
    assert!(batch[3 * plane..].iter().all(|v| *v == Some(200)));
    assert_eq!(batch[..3 * plane].iter().filter(|v| v.is_some()).count(), 3 * 4 * 2);
}

#[test]
fn batches_have_a_greatest_width() {
    let mut r = recognizer("a");
    r.set_rec_image_height(2);
    r.set_rec_max_width(5);
    let (batch, width) = r.preprocess_crops(&vec![Image::filled(100, 2, 3, 1)]).unwrap();
    assert_eq!((width, batch.len()), (5, 3 * 2 * 5));
    let (_, width) = r.preprocess_crops(&vec![Image::filled(1, 9, 3, 1)]).unwrap();
    assert_eq!(width, 2);
    let e = r.preprocess_crops(&vec![Image::filled(2, 2, 2, 1), Image::new(0, 1, 3)]).unwrap_err();
    assert_eq!(e.message, "识别行图像为空");
    let e = r.preprocess_crops(&vec![Image::filled(2, 2, 3, 1), Image::filled(2, 2, 2, 1)]).unwrap_err();
    assert_eq!(e.message, "不支持的通道数: 2");
}

#[test]
fn greatest_width_may_be_unlimited() {
    let mut r = recognizer("a\nb");
    r.set_rec_max_width(usize::MAX);
    let line = || Image::filled(50, 5, 3, 200);
    assert!(r.is_readable(&line()));
    let (batch, width) = r.preprocess_crops(&vec![line(), Image::filled(5, 9, 3, 1)]).unwrap();
    assert_eq!((width, batch.len()), (480, 2 * 3 * 48 * 480));
    let calls = ReadCalls { infer: answer_b, mean };
    assert_eq!(r.recognize_line(&line(), &calls).unwrap().text, "b");
    assert_eq!(r.recognize_crops(&vec![line(), line()], &calls).unwrap().len(), 2);
    let image = Image::filled(20, 10, 3, 9);
    assert_eq!(r.recognize(&image, &region(1.0, 1.0, 9.0, 5.0), &line_calls(20, 10), &calls).unwrap().text, "b");
    // A width is refused only where the line itself would be too wide.
    assert!(r.is_readable_size(1000, 1));
    assert!(!r.is_readable_size(1 << 31, 1));
    r.set_rec_max_width(320);
    assert!(r.is_readable_size(1 << 31, 1));
    r.set_rec_image_height(usize::MAX);
    assert!(!r.is_readable_size(8, 8));
    assert!(!r.is_readable(&line()));
    // An empty line is refused before anything is scaled.
    assert!(r.is_readable(&Image::new(0, 5, 3)));
    assert_eq!(r.recognize_line(&Image::new(0, 5, 3), &calls).unwrap_err().message, "识别行图像为空");
}

#[test]
fn readable_lines_are_small_enough() {
    let r = recognizer("a");
    assert!(r.is_readable(&Image::filled(50, 5, 3, 1)));
    assert!(r.is_readable(&Image::new(0, 0, 3)));
    assert!(r.is_readable_size(1000, 1000));
    assert!(!r.is_readable_size(usize::MAX, 2));
}

#[test]
fn scores_are_means_over_frames_that_are_not_blank() {
    let r = recognizer("a\nb");
    let decode = |values: &[f32]| {
        let frames: Vec<Single> = values.iter().map(|&v| single(v)).collect();
        let line = r.ctc_decode(&frames, values.len() / 4, 4, &mean);
        (line.text, float(line.score))
    };
    // The repeated frame adds no character, but counts.
    let (text, score) = decode(&[0.0, 0.9, 0.0, 0.0, 0.1, 0.6, 0.0, 0.0, 0.8, 0.1, 0.0, 0.0]);
    assert_eq!(text, "a");
    assert!((score - 0.75).abs() < 1e-6);
    assert_eq!(decode(&[0.9, 0.0, 0.0, 0.1]), (String::new(), 0.0));
    assert_eq!(decode(&[]), (String::new(), 0.0));
}

#[test]
fn lines_are_decoded() {
    let r = recognizer("a\nb");
    let values = [
        0.1, 0.9, 0.0, 0.0, 0.1, 0.8, 0.0, 0.0, 0.9, 0.0, 0.0, 0.0, 0.0, 0.0, 0.7, 0.0, 0.9, 0.0, 0.0, 0.0, 0.9, 0.0,
        0.0, 0.0, 0.0, 0.0, 0.0, 0.6, 0.0, 0.5, 0.0, 0.0,
    ];
    let lines = r.decode_lines(&tensor(vec![2, 4, 4], &values), 2, &mean).unwrap();
    assert_eq!((lines[0].text.as_str(), lines[1].text.as_str()), ("ab", " a"));
    assert!((float(lines[0].score) - 0.8).abs() < 1e-6);
    assert!((float(lines[1].score) - 0.55).abs() < 1e-6);
    assert!(can_read_lines(&tensor(vec![2, 4, 4], &values), 2));
    assert!(!can_read_lines(&tensor(vec![2, 4, 5], &values), 2));
    assert!(can_read_lines(&tensor(vec![9, 9, 9, 9], &values), 2));
    let line = r.decode_lines(&tensor(vec![8, 4], &values), 1, &mean).unwrap();
    assert_eq!(line[0].text, "ab a");
    let e = r.decode_lines(&tensor(vec![8, 4], &values), 2, &mean).unwrap_err();
    assert_eq!(e.message, "rec 模型期望 [N,T,C] 输出，实际 shape: [8, 4]");
    let other = TensorOutput { name: String::from("o"), shape: vec![1, 1, 1], data: TensorData::Other(1) };
    assert_eq!(r.decode_lines(&other, 1, &mean).unwrap_err().message, "output tensor is not f32");
}

/// An answer that reads "b" in every line.
fn answer_b(batch: &Vec<Option<u8>>, lines: usize, width: usize) -> Result<TensorOutput, VisionError> {
    assert_eq!(batch.len(), lines * 3 * 48 * width);
    let mut values = vec![0f32; lines * 4];
    for b in 0..lines {
        values[b * 4 + 2] = 0.75;
    }
    Ok(tensor(vec![lines as i64, 1, 4], &values))
}

#[test]
fn lines_are_read_in_batches() {
    let r = recognizer("a\nb");
    let calls = ReadCalls { infer: answer_b, mean };
    let lines = r.recognize_crops(&vec![Image::filled(9, 9, 3, 0), Image::filled(4, 4, 1, 0)], &calls).unwrap();
    assert_eq!(lines.len(), 2);
    assert_eq!((lines[1].text.as_str(), float(lines[1].score)), ("b", 0.75));
    assert!(r.recognize_crops(&Vec::new(), &calls).unwrap().is_empty());
    assert_eq!(r.recognize_line(&Image::filled(9, 9, 3, 0), &calls).unwrap().text, "b");
    assert_eq!(r.recognize_line(&Image::new(0, 9, 3), &calls).unwrap_err().message, "识别行图像为空");
}

/// How lines of upright regions are cut out of an image.
fn line_calls(
    width: i64,
    height: i64,
) -> LineCalls<
    impl Fn(&TextRegion) -> LineMeasure,
    impl Fn(&TextRegion, LineSpot) -> Option<(usize, usize)>,
    impl Fn(&TextRegion, LineSpot, Surroundings) -> u8,
> {
    LineCalls {
        measure: move |r: &TextRegion| {
            let (x1, y1, x2, y2) = r.axis_aligned_bbox();
            let (x1, y1, x2, y2) = (float(x1) as i64, float(y1) as i64, float(x2) as i64, float(y2) as i64);
            let room = Margins { before: x1, after: width - x2, above: y1, below: height - y2 };
            LineMeasure { length: (x2 - x1) as usize, height: (y2 - y1) as usize, room }
        },
        locate: move |r: &TextRegion, spot: LineSpot| {
            let (x1, y1, _, _) = r.axis_aligned_bbox();
            let x = float(x1) as i64 + spot.x as i64 - spot.padding.before;
            let y = float(y1) as i64 + spot.y as i64 - spot.padding.above;
            if 0 <= x && x < width && 0 <= y && y < height {
                Some((x as usize, y as usize))
            } else {
                None
            }
        },
        blend: |_: &TextRegion, _: LineSpot, around: Surroundings| {
            ((around.here as u32 + around.right as u32 + around.below as u32 + around.far as u32) / 4) as u8
        },
    }
}

#[test]
fn lines_are_cut_out() {
    let data: Vec<u8> = (0..200).collect();
    let image = Image::from_raw(20, 10, 1, data).unwrap();
    let line = crop_region(&image, &region(3.0, 2.0, 13.0, 4.0), &line_calls(20, 10));
    assert_eq!((line.width(), line.height(), line.channels()), (14, 8, 3));
    let corner = (1 + 2 + 21 + 22) / 4;
    assert_eq!(&line.data()[0..3], &[corner, corner, corner]);
    let line = crop_region(&image, &region(18.0, 8.0, 19.0, 9.0), &line_calls(20, 10));
    assert_eq!((line.width(), line.height()), (8, 8));
    assert_eq!(line.data()[0], ((136u32 + 137 + 156 + 157) / 4) as u8);
    assert_eq!(line.data()[3 * 3], ((139u32 + 139 + 159 + 159) / 4) as u8);
    assert_eq!(line.data()[4 * 3], 0);
}

#[test]
fn lines_have_a_padding_that_stays_in_the_image() {
    let image = Image::filled(100, 100, 3, 9);
    let size = |r: TextRegion| {
        let line = crop_region(&image, &r, &line_calls(100, 100));
        assert!(line.data().iter().all(|v| *v == 9));
        (line.width(), line.height())
    };
    let padding = LINE_PADDING as usize;
    assert_eq!(padding, 2);
    assert_eq!(size(region(20.0, 20.0, 60.0, 40.0)), (40 + 2 * padding, 20 + 2 * padding));
    assert_eq!(size(region(1.0, 20.0, 60.0, 100.0)), (59 + 1 + padding, 80 + padding));
    assert_eq!(size(region(0.0, 0.0, 100.0, 100.0)), (100, 100));
    // What stands outside of the image is left out.
    assert_eq!(size(region(-30.0, 20.0, 60.0, 120.0)), (60 + padding, 80 + padding));
}

#[test]
fn lines_reach_as_far_as_there_is_room() {
    let room = Margins { before: 9, after: 1, above: -4, below: 2 };
    assert_eq!(room.padding(), Margins { before: 2, after: 1, above: -4, below: 2 });
    let measure = LineMeasure { length: 20, height: 30, room };
    assert_eq!(measure.line_size(), Some((23, 28)));
    assert_eq!(LineMeasure { length: 0, height: 3, room }.line_size(), Some((8, 8)));
    let gone = Margins { before: i64::MIN, after: i64::MIN, above: i64::MIN, below: i64::MIN };
    assert_eq!(LineMeasure { length: 50, height: 50, room: gone }.line_size(), Some((8, 8)));
    assert_eq!(LineMeasure { length: usize::MAX, height: 3, room }.line_size(), None);
    assert_eq!(LineMeasure { length: usize::MAX / 32, height: 10, room }.line_size(), Some((usize::MAX / 32 + 3, 8)));
    assert_eq!(LineMeasure { length: usize::MAX / 24, height: 10, room }.line_size(), None);
}

#[test]
fn colours_of_lines_are_kept() {
    let mut image = Image::filled(20, 10, 4, 0);
    for y in 0..10 {
        for x in 0..20 {
            image.set_pixel(x, y, &[11, 22, 33, 44]);
        }
    }
    let line = crop_region(&image, &region(1.0, 1.0, 12.0, 9.0), &line_calls(20, 10));
    assert_eq!(&line.data()[0..3], &[11, 22, 33]);
    let shown = pipeline().crop_line_for_debug(&image, &region(1.0, 1.0, 12.0, 9.0), &line_calls(20, 10)).unwrap();
    assert_eq!(shown.data(), line.data());
}

#[test]
fn regions_are_recognized() {
    let r = recognizer("a\nb");
    let calls = ReadCalls { infer: answer_b, mean };
    let image = Image::filled(20, 10, 3, 9);
    assert_eq!(r.recognize(&image, &region(1.0, 1.0, 9.0, 5.0), &line_calls(20, 10), &calls).unwrap().text, "b");
    let regions = vec![region(1.0, 1.0, 9.0, 5.0), region(2.0, 2.0, 4.0, 4.0)];
    assert_eq!(r.recognize_batch(&image, &regions, &line_calls(20, 10), &calls).unwrap().len(), 2);
    assert!(r.recognize_batch(&image, &Vec::new(), &line_calls(20, 10), &calls).unwrap().is_empty());
    let broken = ReadCalls {
        infer: |_: &Vec<Option<u8>>, _: usize, _: usize| Err(VisionError::inference(String::from("broken"))),
        mean,
    };
    assert_eq!(r.recognize_batch(&image, &regions, &line_calls(20, 10), &broken).unwrap_err().message, "broken");
}

fn pipeline() -> OcrPipeline {
    OcrPipeline::new(&model(true), &model(true), "k", "a\nb", DeviceType::Cpu, &environment()).unwrap()
}

#[test]
fn text_is_found_and_read() {
    let p = pipeline();
    let read = ReadCalls { infer: answer_b, mean };
    let infer = |_: &Vec<u8>, _: usize, _: usize| Ok(map_with_text());
    let image = Image::filled(20, 10, 3, 9);
    let pairs = p.recognize(&image, &infer, &text_calls(), &line_calls(20, 10), &read).unwrap();
    assert_eq!(pairs.len(), 2);
    assert_eq!(pairs[0].1.text, "b");
    let nothing = |_: &Vec<u8>, _: usize, _: usize| Ok(tensor(vec![1, 1, 2, 2], &[0.0; 4]));
    assert!(p.recognize(&image, &nothing, &text_calls(), &line_calls(20, 10), &read).unwrap().is_empty());
    let e = p.recognize(&Image::new(0, 1, 3), &infer, &text_calls(), &line_calls(20, 10), &read).unwrap_err();
    assert_eq!(e.message, "cannot detect on empty image");
}

#[test]
fn pipelines_have_a_threshold() {
    let mut p = pipeline();
    assert_eq!(float(p.confidence_threshold()), 0.5);
    p.set_confidence_threshold(single(0.9));
    assert_eq!(float(p.confidence_threshold()), 0.9);
    assert_eq!(float(p.detector.box_thresh()), 0.9);
    let env = environment();
    let e = OcrPipeline::new(&model(false), &model(true), "k", "", DeviceType::Cpu, &env).unwrap_err();
    assert_eq!(e.kind, ErrorKind::ModelNotFound);
    let e = OcrPipeline::new(&model(true), &model(true), "k", "", DeviceType::Cpu, &env).unwrap_err();
    assert_eq!(e.message, "OCR 字典为空: k");
    let config = OnnxRuntimeConfig::builder(&GlobalGpuMemLimit::default()).intra_op_threads(2).build();
    let p = OcrPipeline::with_config(&model(true), &model(true), "k", "a", DeviceType::Cpu, config, &env).unwrap();
    assert_eq!(p.recognizer.base.session.config.intra_op_threads, 2);
}

#[test]
fn regions_are_paired_with_lines() {
    let line = |text: &str| TextLine { text: String::from(text), score: single(0.5) };
    let regions = vec![region(0.0, 0.0, 1.0, 1.0), region(2.0, 0.0, 3.0, 1.0)];
    let pairs = pair_lines(regions.clone(), vec![line("x")]);
    assert_eq!(pairs.len(), 1);
    assert_eq!(pairs[0].1.text, "x");
    let pairs = pair_lines(regions, vec![line("x"), line("y"), line("z")]);
    assert_eq!(pairs.len(), 2);
    assert_eq!(float(pairs[1].0.quad[0][0]), 2.0);
    assert_eq!(pairs[1].1.text, "y");
}

#[test]
fn plates_are_read_as_text() {
    let det = ModelFile { path: String::from("d"), exists: true };
    let engine = LicensePlateEngine::for_yolo(&det, &model(true), DeviceType::Cpu, &environment()).unwrap();
    let find = DetectorCalls {
        infer: |_: &Vec<u8>| {
            let mut values = vec![0f32; 100 * 6];
            values[0..6].copy_from_slice(&[10.0, 4.0, 20.0, 8.0, 0.5, 0.0]);
            Ok(vec![tensor(vec![1, 100, 6], &values)])
        },
        place_anchor: |raw: &RawPlate, _: &Placement| PlateShape { xyxy: raw.loc, corners: raw.corners },
        place_grid: |raw: &RawBox, _: &Placement| raw.coords,
        iou: |_: &PlateBox, _: &PlateBox| single(0.0),
    };
    let bounds = |p: &PlateBox, padding: Single| PixelBounds {
        left: (float(p.xyxy[0]) - float(padding)).floor() as i32,
        top: (float(p.xyxy[1]) - float(padding)).floor() as i32,
        right: (float(p.xyxy[2]) + float(padding)).ceil() as i32,
        bottom: (float(p.xyxy[3]) + float(padding)).ceil() as i32,
    };
    let read = ReadCalls {
        infer: |batch: &Vec<Option<u8>>, lines: usize, width: usize| {
            // The plate is grown by six pixels and stops at the upper edge: 22 by 14.
            assert_eq!(width, (48.0f32 * (22.0f32 / 14.0)).ceil() as usize);
            answer_b(batch, lines, width)
        },
        mean,
    };
    let combine = |a: Single, b: Single| Double::from_bits(((float(a) * float(b)) as f64).to_bits());
    let r = recognizer("a\nb");
    let mut image = Image::filled(40, 20, 3, 0);
    for y in 0..20 {
        for x in 0..40 {
            image.set_pixel(x, y, &[180, 90, 40]);
        }
    }
    let results = engine.recognize_with_ocr(&r, &image, single(0.3), &find, &bounds, &read, &combine).unwrap();
    assert_eq!(results.len(), 1);
    assert_eq!(results[0].text, "b");
    assert_eq!(f64::from_bits(results[0].score.to_bits()), 0.375);
    assert_eq!(results[0].plate_type.as_deref(), Some("蓝牌"));
}
