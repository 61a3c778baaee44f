//! Finding and reading plates.

use rust_onnx_infer::engines::ctc::decode;
use rust_onnx_infer::engines::license_plate::{
    DetectorCalls, LicensePlateEngine, PlateDetectorKind, PlateRecognizer, PlateShape, DEFAULT_NMS_THRESHOLD,
};
use rust_onnx_infer::engines::nms::{nms_plates, offset_plate_box, PlateBox};
use rust_onnx_infer::engines::plate_color::classify_plate_color;
use rust_onnx_infer::engines::plate_crop::{
    crop_for_warp, crop_plate_box, crop_signed, crop_with_padding, pixel_offset, warp_plate, CropCalls, PixelBounds,
};
use rust_onnx_infer::engines::plate_image::{
    can_detect, preprocess_mnet, preprocess_rec, preprocess_yolo_letterbox, Placement, REC_HEIGHT, REC_WIDTH,
    YOLO_PAD_VALUE,
};
use rust_onnx_infer::engines::plate_output::{
    can_read_yolo, find_output, has_part, mnet_candidates, read_mnet, yolo_candidates, Matrix2D, RawBox, RawPlate,
};
use rust_onnx_infer::engines::plate_pipeline::{is_recognizable, PlateReadCalls, OCR_PADDING};
use rust_onnx_infer::engines::plate_text::{
    ctc_decode, plate_characters, read_plate, reading_score, LPR_CHARS, LPR_CLASSES,
};
use rust_onnx_infer::engines::priors::{generate_priors, DET_INPUT_SIZE};
use rust_onnx_infer::error::{ErrorKind, VisionError};
use rust_onnx_infer::ieee::{Double, Single};
use rust_onnx_infer::imaging::image::Image;
use rust_onnx_infer::runtime::base::{Environment, ModelFile};
use rust_onnx_infer::runtime::device_type::DeviceType;
use rust_onnx_infer::runtime::runtime_config::{GlobalGpuMemLimit, OnnxRuntimeConfig};
use rust_onnx_infer::runtime::session_factory::EnabledProviders;
use rust_onnx_infer::runtime::tensor::{TensorData, TensorOutput};

fn single(x: f32) -> Single {
    Single::from_bits(x.to_bits())
}

fn float(x: Single) -> f32 {
    f32::from_bits(x.to_bits())
}

fn singles(values: &[f32]) -> Vec<Single> {
    values.iter().map(|&v| single(v)).collect()
}

fn rectangle(x1: f32, y1: f32, x2: f32, y2: f32) -> [Single; 4] {
    [single(x1), single(y1), single(x2), single(y2)]
}

fn floats(xyxy: [Single; 4]) -> [f32; 4] {
    [float(xyxy[0]), float(xyxy[1]), float(xyxy[2]), float(xyxy[3])]
}

fn plate(x1: f32, y1: f32, x2: f32, y2: f32, score: f32) -> PlateBox {
    PlateBox { xyxy: rectangle(x1, y1, x2, y2), score: single(score), landmarks: None }
}

fn iou(a: &PlateBox, b: &PlateBox) -> Single {
    let (a, b) = (floats(a.xyxy), floats(b.xyxy));
    let inter = (a[2].min(b[2]) - a[0].max(b[0])).max(0.0) * (a[3].min(b[3]) - a[1].max(b[1])).max(0.0);
    if inter <= 0.0 {
        return single(0.0);
    }
    let area = |r: [f32; 4]| (r[2] - r[0]).max(0.0) * (r[3] - r[1]).max(0.0);
    single(inter / (area(a) + area(b) - inter + 1e-9))
}

fn tensor(name: &str, shape: Vec<i64>, values: &[f32]) -> TensorOutput {
    TensorOutput { name: String::from(name), shape, data: TensorData::F32(singles(values)) }
}

fn parts(names: &[&str]) -> Vec<String> {
    names.iter().map(|&n| String::from(n)).collect()
}

fn filled_with(w: usize, h: usize, pixel: &[u8]) -> Image {
    let mut image = Image::filled(w, h, pixel.len(), 0);
    for y in 0..h {
        for x in 0..w {
            image.set_pixel(x, y, pixel);
        }
    }
    image
}

fn environment() -> Environment {
    let enabled = EnabledProviders {
        cuda: false,
        coreml: false,
        tensorrt: false,
        directml: false,
        openvino: false,
        rocm: false,
    };
    Environment { limit: GlobalGpuMemLimit::default(), enabled }
}

fn model(path: &str, exists: bool) -> ModelFile {
    ModelFile { path: String::from(path), exists }
}

fn engine(kind: PlateDetectorKind) -> LicensePlateEngine {
    let (det, rec) = (model("det.onnx", true), model("rec.onnx", true));
    match kind {
        PlateDetectorKind::Mnet => LicensePlateEngine::for_mnet(&det, &rec, DeviceType::Cpu, &environment()).unwrap(),
        PlateDetectorKind::Yolo => LicensePlateEngine::for_yolo(&det, &rec, DeviceType::Cpu, &environment()).unwrap(),
    }
}

fn message(e: VisionError, kind: ErrorKind) -> String {
    assert_eq!(e.kind, kind);
    e.message
}

/// The mean probability of the kept characters.
fn softmax_score(frames: &[f32], classes: usize, best: &[usize], kept: &[usize]) -> f32 {
    let mut sum = 0.0;
    for &t in kept {
        let row = &frames[t * classes..(t + 1) * classes];
        let total: f32 = row.iter().map(|v| (v - row[best[t]]).exp()).sum();
        sum += 1.0 / total;
    }
    if kept.is_empty() {
        0.0
    } else {
        sum / kept.len() as f32
    }
}

#[test]
fn test_priors_generation() {
    let priors = generate_priors();
    let size = DET_INPUT_SIZE as f32;
    assert_eq!(priors.len(), 16800);
    let first: [f32; 4] = [
        priors[0].cx2 as f32 / 2.0 / size,
        priors[0].cy2 as f32 / 2.0 / size,
        priors[0].size as f32 / size,
        priors[0].size as f32 / size,
    ];
    assert!((first[0] - 0.5 * 8.0 / 640.0).abs() < 1e-6);
    assert!((first[2] - 24.0 / 640.0).abs() < 1e-6);
    assert!((priors[1].size as f32 / size - 48.0 / 640.0).abs() < 1e-6);
    assert!((priors[16799].size as f32 / size - 768.0 / 640.0).abs() < 1e-6);
}

#[test]
fn anchors_go_row_by_row() {
    let priors = generate_priors();
    let mut k = 0;
    for (step, sizes) in [(8u32, [24u32, 48]), (16, [96, 192]), (32, [384, 768])] {
        let cells = 640 / step;
        for row in 0..cells {
            for column in 0..cells {
                for size in sizes {
                    let p = priors[k];
                    assert_eq!((p.cx2, p.cy2, p.size), ((2 * column + 1) * step, (2 * row + 1) * step, size));
                    k += 1;
                }
            }
        }
    }
    assert_eq!(k, priors.len());
}

#[test]
fn test_ctc_decode() {
    let classes = plate_characters().len();
    let mut frames = vec![-10f32; 3 * classes];
    frames[12] = 5.0;
    frames[classes + 67] = 5.0;
    frames[2 * classes + 41] = 5.0;
    let d = ctc_decode(&singles(&frames), classes, 3);
    assert_eq!(d.text, "皖A");
    let score = softmax_score(&frames, classes, &d.best, &d.kept);
    assert!(score > 0.99, "softmax 置信度应接近 1，实际 {}", score);

    let mut frames2 = vec![-10f32; 3 * classes];
    frames2[12] = 5.0;
    frames2[classes + 12] = 5.0;
    frames2[2 * classes + 41] = 5.0;
    let d2 = ctc_decode(&singles(&frames2), classes, 3);
    assert_eq!(d2.text, "皖A");
}

#[test]
fn test_plate_color() {
    let mut blue = Image::filled(94, 24, 3, 0);
    for y in 0..24 {
        for x in 0..94 {
            blue.set_pixel(x, y, &[180, 90, 40]);
        }
    }
    assert_eq!(classify_plate_color(&blue), "蓝牌");
    let mut green = Image::filled(94, 24, 3, 0);
    for y in 0..24 {
        for x in 0..94 {
            green.set_pixel(x, y, &[80, 140, 60]);
        }
    }
    assert_eq!(classify_plate_color(&green), "新能源绿牌");
}

#[test]
fn transparency_does_not_colour_a_plate() {
    assert_eq!(classify_plate_color(&filled_with(94, 24, &[180, 90, 40, 255])), "蓝牌");
    assert_eq!(classify_plate_color(&filled_with(94, 24, &[80, 140, 60, 0])), "新能源绿牌");
}

#[test]
fn offset_plate_box_should_shift_xyxy_and_landmarks() {
    let pb = PlateBox {
        xyxy: rectangle(10.0, 20.0, 110.0, 60.0),
        score: single(0.9),
        landmarks: Some([
            [single(10.0), single(20.0)],
            [single(110.0), single(20.0)],
            [single(10.0), single(60.0)],
            [single(110.0), single(60.0)],
        ]),
    };
    let out = offset_plate_box(&pb, 640, 1280, &|x: Single, d: i32| single(float(x) + d as f32));
    assert_eq!(floats(out.xyxy), [650.0, 1300.0, 750.0, 1340.0]);
    let lm = out.landmarks.unwrap();
    assert_eq!([float(lm[0][0]), float(lm[0][1])], [650.0, 1300.0], "关键点应同步平移");
    assert_eq!([float(lm[3][0]), float(lm[3][1])], [750.0, 1340.0]);
    assert_eq!(float(out.score), 0.9, "score 不应被平移改动");
}

#[test]
fn offset_plate_box_without_landmarks() {
    let pb = PlateBox { xyxy: rectangle(0.0, 0.0, 94.0, 24.0), score: single(0.5), landmarks: None };
    let out = offset_plate_box(&pb, 100, 200, &|x: Single, d: i32| single(float(x) + d as f32));
    assert_eq!(floats(out.xyxy), [100.0, 200.0, 194.0, 224.0]);
    assert!(out.landmarks.is_none());
}

#[test]
fn colours_follow_the_means() {
    let name = |b: u8, g: u8, r: u8| classify_plate_color(&filled_with(5, 3, &[b, g, r]));
    assert_eq!(name(100, 115, 100), "新能源绿牌");
    assert_eq!(name(100, 114, 100), "白牌");
    assert_eq!(name(115, 105, 100), "蓝牌");
    assert_eq!(name(100, 120, 130), "黄牌");
    assert_eq!(name(69, 69, 69), "黑牌");
    assert_eq!(name(70, 70, 70), "白牌");
    assert_eq!(name(100, 100, 130), "未知");
    assert_eq!(classify_plate_color(&Image::filled(3, 3, 1, 9)), "未知");
    assert_eq!(classify_plate_color(&Image::new(0, 3, 3)), "未知");
}

#[test]
fn colours_are_those_of_floats() {
    let mut state: u32 = 7;
    for _ in 0..300 {
        let mut data = Vec::new();
        for _ in 0..7 * 3 {
            state = state.wrapping_mul(1103515245).wrapping_add(12345);
            data.push((state >> 24) as u8);
        }
        let mut sum = [0f64; 3];
        for i in 0..7 {
            for c in 0..3 {
                sum[c] += data[i * 3 + c] as f64;
            }
        }
        let (b, g, r) = (sum[0] / 7.0, sum[1] / 7.0, sum[2] / 7.0);
        let spread = b.max(g).max(r) - b.min(g).min(r);
        let expected = if g >= b + 15.0 && g >= r + 15.0 {
            "新能源绿牌"
        } else if b >= r + 15.0 && b >= g + 10.0 {
            "蓝牌"
        } else if r >= b + 30.0 && g >= b + 20.0 {
            "黄牌"
        } else if spread < 30.0 {
            if (b + g + r) / 3.0 < 70.0 {
                "黑牌"
            } else {
                "白牌"
            }
        } else {
            "未知"
        };
        assert_eq!(classify_plate_color(&Image::from_raw(7, 1, 3, data).unwrap()), expected);
    }
}

#[test]
fn decoding_skips_repeats_and_blanks() {
    let table = parts(&["a", "b"]);
    let frames = |picks: &[usize]| {
        let mut out = vec![0f32; picks.len() * 3];
        for (t, &c) in picks.iter().enumerate() {
            out[t * 3 + c] = 1.0;
        }
        singles(&out)
    };
    let text = |picks: &[usize]| decode(&frames(picks), 3, picks.len(), 0, &table).text;
    assert_eq!(text(&[1, 1, 0, 1, 2, 2]), text(&[1, 0, 1, 2]));
    assert_eq!(text(&[0, 0, 0]), "");
    let d = decode(&frames(&[1, 1, 0, 1]), 3, 4, 0, &table);
    assert_eq!(d.best, vec![1, 1, 0, 1]);
    assert_eq!(d.kept, vec![0, 3]);
    assert_eq!(decode(&Vec::new(), 3, 0, 0, &table).text, "");
}

#[test]
fn the_dash_is_never_read() {
    let mut text = String::new();
    for class in 0..LPR_CLASSES {
        let mut frames = vec![-1f32; LPR_CLASSES];
        frames[class] = 3.0;
        text.push_str(&ctc_decode(&singles(&frames), LPR_CLASSES, 1).text);
    }
    assert_eq!(text, &LPR_CHARS[..LPR_CHARS.len() - 1]);
    assert!(!text.contains('-'));
}

#[test]
fn the_first_of_equal_scores_is_best() {
    let d = decode(&singles(&[0.5, 0.5, 0.5]), 3, 1, 2, &parts(&["a", "b", "c"]));
    assert_eq!(d.best, vec![0]);
}

#[test]
fn plate_characters_are_single() {
    let table = plate_characters();
    assert_eq!(table.len(), LPR_CLASSES);
    assert_eq!(table.concat(), LPR_CHARS);
    assert_eq!((table[0].as_str(), table[12].as_str(), table[41].as_str()), ("京", "皖", "A"));
    assert_eq!(table[67], "-");
}

#[test]
fn overlapping_plates_are_dropped() {
    let candidates = vec![
        plate(0.0, 0.0, 10.0, 10.0, 0.5),
        plate(1.0, 0.0, 11.0, 10.0, 0.9),
        plate(30.0, 0.0, 40.0, 10.0, 0.7),
        plate(0.0, 30.0, 10.0, 40.0, 0.9),
    ];
    let kept = nms_plates(candidates.clone(), single(0.4), &iou);
    let scores: Vec<f32> = kept.iter().map(|p| float(p.score)).collect();
    assert_eq!(scores, vec![0.9, 0.9, 0.7]);
    assert_eq!(floats(kept[0].xyxy)[0], 1.0);
    assert_eq!(floats(kept[1].xyxy)[1], 30.0);
    for i in 0..kept.len() {
        for j in i + 1..kept.len() {
            assert!(float(iou(&kept[i], &kept[j])) <= 0.4);
            assert!(float(kept[j].score) <= float(kept[i].score));
        }
    }
    assert_eq!(nms_plates(candidates, single(0.9), &iou).len(), 4);
    assert_eq!(nms_plates(Vec::new(), single(0.4), &iou).len(), 0);
}

#[test]
fn plates_at_the_threshold_are_kept() {
    let candidates = vec![plate(0.0, 0.0, 2.0, 1.0, 0.9), plate(1.0, 0.0, 2.0, 1.0, 0.8)];
    let overlap = iou(&candidates[0], &candidates[1]);
    assert_eq!(nms_plates(candidates.clone(), overlap, &iou).len(), 2);
    assert_eq!(nms_plates(candidates, single(float(overlap) * 0.99), &iou).len(), 1);
}

#[test]
fn outputs_are_found_by_name_then_by_size() {
    let outputs = vec![
        tensor("Boxes", vec![1, 4], &[0.0; 4]),
        tensor("head_LOC", vec![1, 9], &[0.0; 9]),
        tensor("x", vec![2, 2], &[0.0; 4]),
    ];
    assert_eq!(find_output(&outputs, &parts(&["loc"]), 4).unwrap(), 1);
    assert_eq!(find_output(&outputs, &parts(&["none"]), 2).unwrap(), 2);
    assert_eq!(find_output(&outputs, &parts(&["none"]), 4).unwrap(), 0);
    let e = find_output(&outputs, &parts(&["no\"ne"]), 5).unwrap_err();
    assert_eq!(
        message(e, ErrorKind::Inference),
        "未找到 mnet 输出（候选名 [\"no\\\"ne\"]，末维 5）；实际: [\"Boxes\", \"head_LOC\", \"x\"]"
    );
    assert!(has_part("landms", &parts(&["x", "and"])));
    assert!(!has_part("landms", &parts(&[])));
}

#[test]
fn matrices_are_read_from_outputs() {
    let m = Matrix2D::from_output(&tensor("m", vec![1, 2, 2], &[1.0, 2.0, 3.0, 4.0]), 2).unwrap();
    assert_eq!((m.rows, m.cols, float(m.get(1, 0))), (2, 2, 3.0));
    let m = Matrix2D::from_output(&tensor("m", vec![4], &[1.0, 2.0, 3.0, 4.0]), 2).unwrap();
    assert_eq!((m.rows, m.cols, float(m.get(1, 1))), (2, 2, 4.0));
    let fail = |t: TensorOutput, cols: usize| message(Matrix2D::from_output(&t, cols).unwrap_err(), ErrorKind::Inference);
    assert_eq!(fail(tensor("m", vec![1, 1, 2, 2], &[0.0; 4]), 2), "mnet 车牌检测输出维度不支持: [1, 1, 2, 2]");
    assert_eq!(fail(tensor("m", vec![2, 2], &[0.0; 4]), 4), "mnet 车牌检测输出末维 2 与期望 4 不符");
    assert_eq!(fail(tensor("m", vec![3, 2], &[0.0; 4]), 2), "mnet 车牌检测输出元素数 4 < 3x2");
    let other = TensorOutput { name: String::from("m"), shape: vec![2, 2], data: TensorData::Other(4) };
    assert_eq!(fail(other, 2), "output tensor is not f32");
}

fn mnet_outputs(scores: &[f32]) -> Vec<TensorOutput> {
    let n = scores.len();
    let loc: Vec<f32> = (0..n * 4).map(|i| i as f32).collect();
    let conf: Vec<f32> = scores.iter().flat_map(|&s| [1.0 - s, s]).collect();
    let landms: Vec<f32> = (0..n * 8).map(|i| i as f32 * 10.0).collect();
    vec![
        tensor("landms", vec![1, n as i64, 8], &landms),
        tensor("conf", vec![1, n as i64, 2], &conf),
        tensor("loc", vec![1, n as i64, 4], &loc),
    ]
}

#[test]
fn anchors_that_pass_become_candidates() {
    let outputs = read_mnet(&mnet_outputs(&[0.2, 0.5, 0.9])).unwrap();
    let candidates = mnet_candidates(&outputs, &generate_priors(), single(0.5));
    assert_eq!(candidates.len(), 2);
    let c = &candidates[0];
    assert_eq!(float(c.score), 0.5);
    assert_eq!(floats(c.loc), [4.0, 5.0, 6.0, 7.0]);
    assert_eq!((c.prior.cx2, c.prior.size), (8, 48));
    let corners: Vec<f32> = c.corners.iter().map(|p| float(p[0])).collect();
    assert_eq!(corners, vec![120.0, 140.0, 100.0, 80.0]);
}

#[test]
fn anchors_are_counted_up_to_the_threshold() {
    let outputs = read_mnet(&mnet_outputs(&[0.1, 0.9, 0.2])).unwrap();
    assert!(outputs.fits_anchors(3, single(0.0)));
    assert!(outputs.fits_anchors(2, single(0.5)));
    assert!(!outputs.fits_anchors(1, single(0.5)));
    assert!(!outputs.fits_anchors(2, single(0.2)));
}

#[test]
fn grids_hold_all_their_elements() {
    assert!(can_read_yolo(&vec![]));
    assert!(can_read_yolo(&vec![tensor("o", vec![1, 5, 2], &[0.0; 10])]));
    assert!(!can_read_yolo(&vec![tensor("o", vec![1, 5, 2], &[0.0; 9])]));
    // Rows may be missing, and what cannot be read for another reason is refused later.
    assert!(can_read_yolo(&vec![tensor("o", vec![1, 300, 6], &[0.0; 9])]));
    assert!(can_read_yolo(&vec![tensor("o", vec![1, 4, 2], &[0.0; 1])]));
}

#[test]
fn uneven_outputs_are_refused() {
    let mut outputs = mnet_outputs(&[0.2, 0.5]);
    outputs[1] = tensor("conf", vec![1, 1, 2], &[0.5, 0.5]);
    let e = read_mnet(&outputs).unwrap_err();
    assert_eq!(message(e, ErrorKind::Inference), "mnet 输出行数不一致: loc=2, conf=1, landms=2");
}

#[test]
fn grids_are_read_by_column() {
    let mut values = vec![0f32; 6 * 3];
    for i in 0..3 {
        values[i] = 10.0 + i as f32;
        values[3 + i] = 20.0;
        values[6 + i] = 4.0;
        values[9 + i] = 2.0;
    }
    values[12] = 0.3;
    values[3 * 5 + 1] = 0.8;
    let boxes = yolo_candidates(&vec![tensor("meta", vec![1], &[1.0]), tensor("o", vec![1, 6, 3], &values)], single(0.5));
    let boxes = boxes.unwrap();
    assert_eq!(boxes.len(), 1);
    assert!(boxes[0].centered);
    assert_eq!(floats(boxes[0].coords), [11.0, 20.0, 4.0, 2.0]);
    assert_eq!(float(boxes[0].score), 0.8);
}

#[test]
fn finished_boxes_are_read_by_row() {
    let mut values = vec![0f32; 100 * 6];
    values[6..12].copy_from_slice(&[1.0, 2.0, 3.0, 4.0, 0.7, 0.0]);
    let boxes = yolo_candidates(&vec![tensor("o", vec![1, 100, 6], &values)], single(0.5)).unwrap();
    assert_eq!(boxes.len(), 1);
    assert!(!boxes[0].centered);
    assert_eq!(floats(boxes[0].coords), [1.0, 2.0, 3.0, 4.0]);
}

#[test]
fn grids_are_refused() {
    let fail = |outputs: Vec<TensorOutput>| {
        message(yolo_candidates(&outputs, single(0.5)).unwrap_err(), ErrorKind::Inference)
    };
    assert_eq!(fail(Vec::new()), "YOLO 车牌检测模型无输出");
    assert_eq!(fail(vec![tensor("o", vec![4], &[0.0; 4])]), "YOLO 车牌检测输出维度不支持: [4]");
    assert_eq!(
        fail(vec![tensor("o", vec![4, 2], &[0.0; 8])]),
        "YOLO 车牌检测输出 channels=4 < 5（应为 4+nc, nc=1）"
    );
    let other = TensorOutput { name: String::from("o"), shape: vec![5, 1], data: TensorData::Other(5) };
    assert_eq!(fail(vec![other]), "output tensor is not f32");
}

#[test]
fn plates_are_read_in_both_orders() {
    let mut by_frame = vec![0f32; 2 * 68];
    by_frame[3] = 1.0;
    by_frame[68 + 40] = 1.0;
    let mut by_class = vec![0f32; 2 * 68];
    for t in 0..2 {
        for c in 0..68 {
            by_class[c * 2 + t] = by_frame[t * 68 + c];
        }
    }
    let a = read_plate(&tensor("o", vec![2, 68], &by_frame)).unwrap();
    let b = read_plate(&tensor("o", vec![1, 68, 2], &by_class)).unwrap();
    assert_eq!(a.decoding.text, b.decoding.text);
    assert_eq!(a.decoding.text, format!("{}{}", plate_characters()[3], plate_characters()[40]));
    assert_eq!(a.scores, b.scores);
}

#[test]
fn plate_outputs_are_refused() {
    let fail = |t: TensorOutput| message(read_plate(&t).unwrap_err(), ErrorKind::Inference);
    assert_eq!(
        fail(tensor("o", vec![1, 60, 2], &[0.0; 120])),
        "LPRNet 期望输出含 68 类别维（如 [68,T]），实际 shape: [1, 60, 2]"
    );
    assert_eq!(fail(tensor("o", vec![68, 2], &[0.0; 5])), "LPRNet 输出元素数 5 < 68x2");
    let other = TensorOutput { name: String::from("o"), shape: vec![68, 2], data: TensorData::Other(136) };
    assert_eq!(fail(other), "output tensor is not f32");
}

#[test]
fn detector_inputs_hold_the_image() {
    let image = filled_with(64, 32, &[10, 20, 30]);
    assert!(can_detect(&image));
    let (planes, at) = preprocess_mnet(&image).unwrap();
    assert_eq!(at, Placement { image_width: 64, image_height: 32, width: 640, height: 320, left: 0, top: 160 });
    assert_eq!(planes.len(), 3 * 640 * 640);
    let area = 640 * 640;
    assert_eq!((planes[0], planes[area], planes[2 * area]), (0, 0, 0));
    let middle = 320 * 640 + 320;
    assert_eq!((planes[middle], planes[area + middle], planes[2 * area + middle]), (10, 20, 30));

    let (planes, at) = preprocess_yolo_letterbox(&image).unwrap();
    assert_eq!(at, Placement { image_width: 64, image_height: 32, width: 640, height: 320, left: 0, top: 160 });
    assert_eq!(planes[0], YOLO_PAD_VALUE);
    assert_eq!((planes[middle], planes[area + middle], planes[2 * area + middle]), (30, 20, 10));
}

#[test]
fn detector_inputs_are_refused() {
    let e = preprocess_mnet(&Image::filled(4, 4, 2, 1)).unwrap_err();
    assert_eq!(message(e, ErrorKind::Image), "不支持的通道数: 2");
    let e = preprocess_yolo_letterbox(&Image::filled(1, 3000, 3, 1)).unwrap_err();
    assert_eq!(message(e, ErrorKind::Image), "resize target size must be > 0");
    let e = preprocess_rec(&Image::new(0, 4, 3)).unwrap_err();
    assert_eq!(message(e, ErrorKind::Image), "识别车牌图像为空");
}

#[test]
fn recognition_inputs_keep_the_order_of_colours() {
    let planes = preprocess_rec(&filled_with(10, 10, &[1, 2, 3])).unwrap();
    let area = REC_WIDTH * REC_HEIGHT;
    assert_eq!(planes.len(), 3 * area);
    assert_eq!((planes[0], planes[area], planes[2 * area]), (1, 2, 3));
}

#[test]
fn plates_are_cut_out_with_at_least_one_pixel() {
    let data: Vec<u8> = (0..20).collect();
    let image = Image::from_raw(5, 4, 1, data).unwrap();
    let cut = |left: i32, top: i32, right: i32, bottom: i32| {
        crop_with_padding(&image, PixelBounds { left, top, right, bottom }).unwrap()
    };
    assert_eq!(cut(1, 1, 3, 2).data(), &vec![6, 7]);
    assert_eq!(cut(-5, -5, 2, 1).data(), &vec![0, 1]);
    assert_eq!(cut(9, 9, 9, 9).data(), &vec![19]);
    assert_eq!(cut(2, 2, 0, 0).data(), &vec![12]);
    let (crop, left, top) = crop_for_warp(&image, PixelBounds { left: -2, top: 1, right: 2, bottom: 99 }).unwrap();
    assert_eq!((crop.width(), crop.height(), left, top), (2, 3, 0, 1));
    assert_eq!(crop.data()[0], 5);
    assert!(crop_for_warp(&image, PixelBounds { left: 5, top: 1, right: 6, bottom: 3 }).is_none());
    assert!(crop_for_warp(&image, PixelBounds { left: 0, top: 4, right: 6, bottom: 5 }).is_none());
}

#[test]
fn rectangles_before_the_image_are_refused() {
    let image = Image::filled(5, 4, 1, 3);
    assert_eq!(crop_signed(&image, 1, 1, 2, 2).unwrap().data().len(), 4);
    for (x, y, w, h) in [(-1, 0, 2, 2), (0, -1, 2, 2), (0, 0, -1, 2), (4, 0, 2, 1), (0, 0, 0, 1)] {
        let e = crop_signed(&image, x, y, w, h).unwrap_err();
        assert_eq!(message(e, ErrorKind::Image), "crop rectangle is empty or outside the image");
    }
}

#[test]
fn pixels_have_offsets() {
    let image = Image::filled(5, 4, 3, 3);
    assert_eq!(pixel_offset(&image, 2, 1), Some(21));
    assert_eq!(pixel_offset(&image, 5, 1), None);
    assert_eq!(pixel_offset(&image, -1, 1), None);
    assert_eq!(pixel_offset(&image, 0, 4), None);
}

fn bounds(p: &PlateBox, padding: Single) -> PixelBounds {
    let (b, pad) = (floats(p.xyxy), float(padding));
    PixelBounds {
        left: (b[0] - pad).floor() as i32,
        top: (b[1] - pad).floor() as i32,
        right: (b[2] + pad).ceil() as i32,
        bottom: (b[3] + pad).ceil() as i32,
    }
}

#[test]
fn plates_with_corners_are_straightened() {
    let image = filled_with(50, 40, &[7, 8, 9]);
    let mut p = plate(10.0, 5.0, 30.0, 15.0, 0.9);
    let calls = CropCalls {
        bounds,
        solve: |_: &PlateBox, left: usize, top: usize| if left == 10 { Some(top as u8) } else { None },
        sample: |crop: &Image, mapping: &u8, x: usize, y: usize| {
            if x == 0 {
                None
            } else {
                Some(vec![*mapping, crop.width() as u8, y as u8])
            }
        },
    };
    let out = warp_plate(&image, &p, bounds(&p, single(0.0)), &calls).unwrap();
    assert_eq!((out.width(), out.height()), (REC_WIDTH, REC_HEIGHT));
    assert_eq!(&out.data()[0..6], &[0, 0, 0, 5, 20, 0]);

    assert_eq!(crop_plate_box(&image, &p, &calls).unwrap().width(), 20);
    p.landmarks = Some([[single(0.0); 2]; 4]);
    assert_eq!(crop_plate_box(&image, &p, &calls).unwrap().width(), REC_WIDTH);
    p.xyxy[0] = single(11.0);
    assert_eq!(crop_plate_box(&image, &p, &calls).unwrap().width(), 19);
    // A plate at the right border has no pixel of its own to straighten.
    p.xyxy = rectangle(50.0, 5.0, 50.0, 15.0);
    let out = crop_plate_box(&image, &p, &calls).unwrap();
    assert_eq!((out.width(), out.height()), (1, 10));
}

#[test]
fn engines_are_opened() {
    let e = engine(PlateDetectorKind::Mnet);
    assert_eq!(e.detector_kind(), PlateDetectorKind::Mnet);
    assert_eq!(e.priors.len(), 16800);
    assert_eq!(e.nms_threshold().to_bits(), DEFAULT_NMS_THRESHOLD);
    assert_eq!(f32::from_bits(DEFAULT_NMS_THRESHOLD), 0.4);
    assert_eq!((e.base.input_height, e.base.input_width), (640, 640));
    assert_eq!((e.recognizer.base.input_height, e.recognizer.base.input_width), (24, 94));
    let mut e = engine(PlateDetectorKind::Yolo);
    assert!(e.priors.is_empty());
    e.set_nms_threshold(single(0.7));
    assert_eq!(float(e.nms_threshold()), 0.7);
    assert_eq!(PlateDetectorKind::default(), PlateDetectorKind::Mnet);
    let e = LicensePlateEngine::new(&model("d", true), &model("r", true), DeviceType::Cpu, &environment()).unwrap();
    assert_eq!(e.detector_kind(), PlateDetectorKind::Mnet);
}

#[test]
fn engines_are_not_opened() {
    let env = environment();
    let open = |det: &ModelFile, rec: &ModelFile| {
        LicensePlateEngine::new(det, rec, DeviceType::Cpu, &env).unwrap_err().message
    };
    assert_eq!(open(&model("d", false), &model("r", false)), "d");
    assert_eq!(open(&model("d", true), &model("r", false)), "r");
    let bad = OnnxRuntimeConfig::builder(&GlobalGpuMemLimit::default()).intra_op_threads(0).build();
    let e = LicensePlateEngine::with_config(
        &model("d", false),
        &model("r", true),
        DeviceType::Cpu,
        PlateDetectorKind::Yolo,
        bad,
        &env,
    );
    assert_eq!(message(e.unwrap_err(), ErrorKind::InvalidArgument), "intraOpThreads must be >= 1, got 0");
    let e = PlateRecognizer::new(&model("", true), DeviceType::Cpu, &env).unwrap_err();
    assert_eq!(message(e, ErrorKind::InvalidArgument), "modelPath is blank");
}

fn on_grid(raw: &RawBox, at: &Placement) -> [Single; 4] {
    let c = floats(raw.coords);
    let scale = at.width as f32 / at.image_width as f32;
    rectangle((c[0] - at.left as f32) / scale, (c[1] - at.top as f32) / scale, (c[2] - at.left as f32) / scale, (c[3] - at.top as f32) / scale)
}

fn by_anchor(raw: &RawPlate, at: &Placement) -> PlateShape {
    PlateShape { xyxy: rectangle(at.left as f32, at.top as f32, float(raw.loc[2]), float(raw.loc[3])), corners: raw.corners }
}

/// An answer of the grid-based detector with two boxes that overlap and one that does not.
fn finished_boxes(_: &Vec<u8>) -> Result<Vec<TensorOutput>, VisionError> {
    let mut values = vec![0f32; 100 * 6];
    values[0..6].copy_from_slice(&[0.0, 160.0, 200.0, 260.0, 0.6, 0.0]);
    values[6..12].copy_from_slice(&[10.0, 160.0, 210.0, 260.0, 0.9, 0.0]);
    values[12..18].copy_from_slice(&[400.0, 160.0, 500.0, 200.0, 0.8, 0.0]);
    Ok(vec![tensor("o", vec![1, 100, 6], &values)])
}

#[test]
fn plates_are_detected_on_the_grid() {
    let e = engine(PlateDetectorKind::Yolo);
    let calls = DetectorCalls { infer: finished_boxes, place_anchor: by_anchor, place_grid: on_grid, iou };
    let plates = e.detect_plates(&Image::filled(64, 32, 3, 50), single(0.5), &calls).unwrap();
    assert_eq!(plates.len(), 2);
    assert_eq!(floats(plates[0].xyxy), [1.0, 0.0, 21.0, 10.0]);
    assert_eq!(floats(plates[1].xyxy), [40.0, 0.0, 50.0, 4.0]);
    assert_eq!((float(plates[0].score), float(plates[1].score)), (0.9, 0.8));
    assert!(float(iou(&plates[0], &plates[1])) <= float(e.nms_threshold()));
    assert!(plates[0].landmarks.is_none());
    let plates = e.detect_plates(&Image::filled(64, 32, 3, 50), single(0.85), &calls).unwrap();
    assert_eq!(plates.len(), 1);
}

#[test]
fn plates_are_detected_by_anchors() {
    let e = engine(PlateDetectorKind::Mnet);
    let calls = DetectorCalls {
        infer: |_: &Vec<u8>| Ok(mnet_outputs(&[0.1, 0.9])),
        place_anchor: by_anchor,
        place_grid: on_grid,
        iou,
    };
    let plates = e.detect_plates(&Image::filled(64, 32, 3, 50), single(0.5), &calls).unwrap();
    assert_eq!(plates.len(), 1);
    // What stands beyond the image, 64 by 32, is moved into it.
    assert_eq!(floats(plates[0].xyxy), [0.0, 32.0, 6.0, 7.0]);
    assert_eq!(float(plates[0].landmarks.unwrap()[0][0]), 64.0);
}

#[test]
fn found_plates_lie_in_the_image() {
    let e = engine(PlateDetectorKind::Yolo);
    let far = |raw: &RawBox, _: &Placement| {
        if float(raw.score) > 0.85 {
            rectangle(-3.0, -0.5, 70.0, 40.0)
        } else {
            rectangle(f32::NAN, 5.0, 64.0, 31.5)
        }
    };
    let apart = |_: &PlateBox, _: &PlateBox| single(0.0);
    let calls = DetectorCalls { infer: finished_boxes, place_anchor: by_anchor, place_grid: far, iou: apart };
    let plates = e.detect_plates(&Image::filled(64, 32, 3, 50), single(0.7), &calls).unwrap();
    assert_eq!(floats(plates[0].xyxy), [0.0, 0.0, 64.0, 32.0]);
    assert!(float(plates[1].xyxy[0]).is_nan());
    assert_eq!(floats(plates[1].xyxy)[1..], [5.0, 64.0, 31.5]);
}

#[test]
fn detection_errors_are_passed_on() {
    let e = engine(PlateDetectorKind::Mnet);
    let calls = DetectorCalls {
        infer: |_: &Vec<u8>| Err(VisionError::inference(String::from("broken"))),
        place_anchor: by_anchor,
        place_grid: on_grid,
        iou,
    };
    let fail = |image: &Image| e.detect_plates(image, single(0.5), &calls).unwrap_err().message;
    assert_eq!(fail(&Image::filled(8, 8, 3, 0)), "broken");
    assert_eq!(fail(&Image::new(0, 8, 3)), "cannot detect plates on empty image");
    assert_eq!(fail(&Image::filled(8, 8, 2, 0)), "不支持的通道数: 2");
}

fn first_character(_: &Vec<u8>) -> Result<TensorOutput, VisionError> {
    let mut values = vec![0f32; 68];
    values[1] = 2.0;
    Ok(tensor("o", vec![1, 68], &values))
}

fn product(a: Single, b: Single) -> Double {
    Double::from_bits(((float(a) * float(b)) as f64).to_bits())
}

fn half(_: &Vec<Single>, _: usize) -> Single {
    single(0.5)
}

fn mean(values: &Vec<Single>) -> Single {
    assert!(!values.is_empty());
    single(values.iter().map(|&v| float(v)).sum::<f32>() / values.len() as f32)
}

#[test]
fn readings_are_scored_by_their_characters() {
    let mut values = vec![0f32; 5 * 68];
    // Twice one character, a blank, the first character again and another one.
    for (t, class) in [1, 1, 67, 1, 2].into_iter().enumerate() {
        values[t * 68 + class] = 2.0 + t as f32;
    }
    let reading = read_plate(&tensor("o", vec![5, 68], &values)).unwrap();
    assert_eq!(reading.decoding.kept, vec![0, 3, 4]);
    let best = |row: &Vec<Single>, class: usize| {
        assert_eq!(row.len(), 68);
        row[class]
    };
    assert_eq!(float(reading_score(&reading, &best, &mean)), (2.0 + 5.0 + 6.0) / 3.0);
    let blank = read_plate(&tensor("o", vec![0, 68], &[])).unwrap();
    assert_eq!(float(reading_score(&blank, &best, &mean)), 0.0);
}

#[test]
fn plates_are_recognized() {
    let e = engine(PlateDetectorKind::Yolo);
    let image = filled_with(64, 32, &[180, 90, 40]);
    assert!(is_recognizable(&image));
    let find = DetectorCalls { infer: finished_boxes, place_anchor: by_anchor, place_grid: on_grid, iou };
    let crops = CropCalls {
        bounds,
        solve: |_: &PlateBox, _: usize, _: usize| -> Option<u8> { None },
        sample: |_: &Image, _: &u8, _: usize, _: usize| None,
    };
    let read = PlateReadCalls { infer: first_character, probability: half, mean };
    let results = e.recognize(&image, single(0.5), &find, &crops, &read, &product).unwrap();
    assert_eq!(results.len(), 2);
    assert_eq!(results[0].text, plate_characters()[1]);
    assert_eq!(f64::from_bits(results[0].score.to_bits()), (0.9f32 * 0.5) as f64);
    assert_eq!(results[0].plate_type.as_deref(), Some("蓝牌"));
    assert_eq!(floats(results[1].bbox), [40.0, 0.0, 50.0, 4.0]);

    let read = PlateReadCalls {
        infer: |_: &Vec<u8>| -> Result<TensorOutput, VisionError> { Err(VisionError::inference(String::from("dumb"))) },
        probability: half,
        mean,
    };
    assert_eq!(e.recognize_impl(&image, single(0.5), &find, &crops, &read, &product).unwrap_err().message, "dumb");
}

#[test]
fn plates_of_tiles_are_moved_and_merged() {
    let e = engine(PlateDetectorKind::Yolo);
    let image = filled_with(128, 32, &[80, 140, 60]);
    let find = DetectorCalls { infer: finished_boxes, place_anchor: by_anchor, place_grid: on_grid, iou };
    let crops = CropCalls {
        bounds,
        solve: |_: &PlateBox, _: usize, _: usize| -> Option<u8> { None },
        sample: |_: &Image, _: &u8, _: usize, _: usize| None,
    };
    let read = PlateReadCalls { infer: first_character, probability: half, mean };
    let shift = |x: Single, d: i32| single(float(x) + d as f32);
    let tiles = vec![[0, 0, 64, 32], [64, 0, 128, 32]];
    let results =
        e.recognize_sliced(&image, &tiles, single(0.5), &find, &shift, &crops, &read, &product).unwrap();
    let lefts: Vec<f32> = results.iter().map(|r| floats(r.bbox)[0]).collect();
    assert_eq!(lefts, vec![1.0, 65.0, 40.0, 104.0]);
    assert_eq!(results[0].plate_type.as_deref(), Some("新能源绿牌"));

    let tiles = vec![[0, 0, 64, 32], [64, 0, 129, 32]];
    let r = e.recognize_sliced(&image, &tiles, single(0.5), &find, &shift, &crops, &read, &product);
    assert_eq!(r.unwrap_err().message, "crop rectangle is empty or outside the image");
    let tiles = vec![[0, 0, 1, 1]];
    let r = e.recognize_sliced(&image, &tiles, single(0.5), &find, &shift, &crops, &read, &product).unwrap();
    assert_eq!(r.len(), 2);
}

#[test]
fn crops_are_read_by_the_model() {
    let r = PlateRecognizer::new(&model("r", true), DeviceType::Cpu, &environment()).unwrap();
    let reading = r.recognize_crop(&filled_with(20, 10, &[1, 2, 3]), &first_character).unwrap();
    assert_eq!(reading.decoding.text, plate_characters()[1]);
    let e = r.recognize_crop(&Image::new(0, 1, 3), &first_character).unwrap_err();
    assert_eq!(message(e, ErrorKind::Image), "识别车牌图像为空");
}

#[test]
fn padding_for_text_is_six_pixels() {
    assert_eq!(f32::from_bits(OCR_PADDING), 6.0);
}
