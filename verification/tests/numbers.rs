//! Floating-point numbers as bit patterns, rounded sizes, sorting and text.

use rust_onnx_infer::engines::plate_image::{letterbox_placement, mnet_placement, Placement};
use rust_onnx_infer::ieee::{Double, Single, SINGLE_MAX, SINGLE_MIN, SINGLE_ONE, SINGLE_ZERO};
use rust_onnx_infer::magnitude::{nearest_single, Magnitude};
use rust_onnx_infer::rounding::Precision;
use rust_onnx_infer::sorting::stable_order;
use rust_onnx_infer::text::{
    chars_of, contains_text, push_decimal, push_list, push_names, push_shape, push_signed, split_lines,
};

fn single(x: f32) -> Single {
    Single::from_bits(x.to_bits())
}

fn float(x: Single) -> f32 {
    f32::from_bits(x.to_bits())
}

/// Numbers from a fixed linear congruence, to try many sizes.
fn scattered(count: usize, limit: usize) -> Vec<usize> {
    let mut state: u64 = 0x1234_5678_9abc_def1;
    let mut out = Vec::new();
    for _ in 0..count {
        state = state.wrapping_mul(6364136223846793005).wrapping_add(1442695040888963407);
        out.push(1 + (state >> 33) as usize % limit);
    }
    out
}

#[test]
fn integers_have_nearest_singles() {
    let edges = [0, 1, 2, 3, 100, (1 << 24) - 1, 1 << 24, (1 << 24) + 1, (1 << 24) + 3, usize::MAX - 1, usize::MAX];
    for n in scattered(500, 1 << 31).into_iter().chain(edges) {
        assert_eq!(nearest_single(n).to_bits(), (n as f32).to_bits(), "{n}");
    }
}

#[test]
fn values_are_clamped() {
    for x in SAMPLES {
        let r = single(x).clamp(single(-0.75), single(1.0));
        assert_eq!(r.to_bits(), x.clamp(-0.75, 1.0).to_bits(), "{x}");
    }
    assert!(single(f32::NAN).clamp(single(0.0), single(1.0)).is_nan());
}

const SAMPLES: [f32; 13] = [
    0.0,
    -0.0,
    1.0,
    -1.0,
    0.5,
    -0.5,
    1.0e-45,
    -1.0e-45,
    f32::MAX,
    f32::MIN,
    f32::INFINITY,
    f32::NEG_INFINITY,
    f32::NAN,
];

#[test]
fn comparisons_are_those_of_floats() {
    for a in SAMPLES {
        for b in SAMPLES {
            assert_eq!(single(a).gt(single(b)), a > b, "{a} > {b}");
            assert_eq!(single(a).lt(single(b)), a < b, "{a} < {b}");
        }
    }
}

#[test]
fn extremes_are_those_of_floats() {
    for a in SAMPLES {
        for b in SAMPLES {
            let (most, least) = (float(single(a).max(single(b))), float(single(a).min(single(b))));
            assert!(most == a.max(b) || most.is_nan() && a.max(b).is_nan(), "max {a} {b}: {most}");
            assert!(least == a.min(b) || least.is_nan() && a.min(b).is_nan(), "min {a} {b}: {least}");
        }
    }
}

#[test]
fn greater_is_a_strict_order() {
    for a in SAMPLES {
        assert!(!single(a).gt(single(a)));
        for b in SAMPLES {
            assert!(!(single(a).gt(single(b)) && single(b).gt(single(a))));
            for c in SAMPLES {
                if single(a).gt(single(b)) && single(b).gt(single(c)) {
                    assert!(single(a).gt(single(c)));
                }
            }
        }
    }
}

#[test]
fn keys_order_numbers() {
    assert!(single(-2.0).order_key() < single(-1.0).order_key());
    assert!(single(-1.0).order_key() < single(0.0).order_key());
    assert_eq!(single(-0.0).order_key(), single(0.0).order_key());
    assert!(single(0.0).order_key() < single(1.0e-45).order_key());
    assert!(single(1.0).order_key() < single(f32::INFINITY).order_key());
}

#[test]
fn bits_are_kept() {
    assert_eq!(Double::from_bits(2.5f64.to_bits()).to_bits(), 2.5f64.to_bits());
    assert_eq!(single(2.5).to_bits(), 2.5f32.to_bits());
    assert!(single(f32::NAN).is_nan());
    assert!(!single(f32::INFINITY).is_nan());
    assert_eq!(f32::from_bits(SINGLE_MAX), f32::MAX);
    assert_eq!(f32::from_bits(SINGLE_MIN), f32::MIN);
    assert_eq!(f32::from_bits(SINGLE_ONE), 1.0);
    assert_eq!(f32::from_bits(SINGLE_ZERO), 0.0);
}

#[test]
fn single_precision_arithmetic_is_that_of_floats() {
    let sizes = scattered(60, 100_000_000);
    let p = Precision::Single;
    for &a in &sizes {
        for &b in &sizes {
            let (x, y) = (Magnitude::of(a as u64, p), Magnitude::of(b as u64, p));
            let (f, g) = (a as f32, b as f32);
            let q = x.divided_by(y, p);
            assert_eq!(q.times(y, p).floor(), ((f / g) * g).floor() as usize, "{a} / {b}");
            assert_eq!(x.divided_by(y, p).nearest(), (f / g).round() as usize);
            assert_eq!(x.divided_by(y, p).ceil(), (f / g).ceil() as usize);
            assert_eq!(x.times(y, p).floor(), (f * g) as usize);
            assert_eq!(x.plus(y, p).floor(), (f + g) as usize);
            assert_eq!(x.less_than(y), f < g);
            assert_eq!(x.min(y).floor(), f.min(g) as usize);
            if !x.less_than(y) {
                assert_eq!(x.minus(y, p).floor(), (f - g) as usize);
            }
        }
    }
}

#[test]
fn double_precision_arithmetic_is_that_of_floats() {
    let sizes = scattered(60, 2_000_000_000);
    let p = Precision::Double;
    for &a in &sizes {
        for &b in &sizes {
            let (x, y) = (Magnitude::of(a as u64, p), Magnitude::of(b as u64, p));
            let (f, g) = (a as f64, b as f64);
            assert_eq!(x.divided_by(y, p).times(y, p).nearest(), ((f / g) * g).round() as usize);
            assert_eq!(x.divided_by(y, p).ceil(), (f / g).ceil() as usize);
            assert_eq!(x.plus(y, p).floor(), (f + g) as usize);
        }
    }
    assert_eq!(Magnitude::of((1 << 53) + 1, p).floor(), 1 << 53);
    assert_eq!(Magnitude::of(0, p).floor(), 0);
}

#[test]
fn anchor_placements_are_those_of_floats() {
    let sizes = scattered(80, 5000);
    for &w in &sizes {
        for &h in &sizes {
            let aspect = h as f32 / w as f32;
            let expected = if aspect > 1.0 {
                let side = (640.0 / aspect) as usize;
                Placement { image_width: w, image_height: h, width: side.max(1), height: 640, left: (640 - side) / 2, top: 0 }
            } else {
                let side = (640.0 * aspect) as usize;
                Placement { image_width: w, image_height: h, width: 640, height: side.max(1), left: 0, top: (640 - side) / 2 }
            };
            assert_eq!(mnet_placement(w, h), expected, "{w}x{h}");
        }
    }
    let at = mnet_placement(1280, 720);
    assert_eq!((at.width, at.height, at.left, at.top), (640, 360, 0, 140));
    let at = mnet_placement(1, 5000);
    assert_eq!((at.width, at.height, at.left, at.top), (1, 640, 320, 0));
}

#[test]
fn letterboxes_are_filled_in_one_direction() {
    for w in scattered(20, 5000) {
        for h in scattered(20, 4000) {
            let at = letterbox_placement(w, h);
            assert!(at.width <= 640 && at.height <= 640, "{w}x{h}");
            assert!(at.width == 640 || at.height == 640, "{w}x{h}");
        }
    }
}

#[test]
fn letterboxes_are_those_of_floats() {
    let sizes = scattered(80, 5000);
    for &w in &sizes {
        for &h in &sizes {
            let ratio = (640.0 / w as f32).min(640.0 / h as f32);
            let width = (w as f32 * ratio).round() as usize;
            let height = (h as f32 * ratio).round() as usize;
            let place = |n: usize| (((640 - n) as f32 / 2.0 - 0.1).round().max(0.0)) as usize;
            let expected = Placement {
                image_width: w,
                image_height: h,
                width,
                height,
                left: place(width),
                top: place(height),
            };
            assert_eq!(letterbox_placement(w, h), expected, "{w}x{h}");
        }
    }
    let at = letterbox_placement(1280, 719);
    assert_eq!((at.width, at.height, at.left, at.top), (640, 360, 0, 140));
}

#[test]
fn sorting_keeps_equal_keys_in_order() {
    let keys = vec![(2, 0), (1, 5), (2, 0), (1, 4), (-3, 9), (1, 5)];
    let order = stable_order(&keys);
    assert_eq!(order, vec![4, 3, 1, 5, 0, 2]);
    let mut seen = order.clone();
    seen.sort();
    assert_eq!(seen, vec![0, 1, 2, 3, 4, 5]);
    assert_eq!(stable_order(&Vec::new()), Vec::<usize>::new());
}

#[test]
fn numbers_are_written_in_decimal() {
    let mut text = String::from("n=");
    push_decimal(&mut text, 0);
    push_decimal(&mut text, 1050);
    push_decimal(&mut text, u64::MAX);
    assert_eq!(text, "n=0105018446744073709551615");
    let mut text = String::new();
    push_signed(&mut text, -7);
    push_signed(&mut text, 7);
    push_signed(&mut text, i64::MIN);
    assert_eq!(text, format!("-77{}", i64::MIN));
}

#[test]
fn lists_are_written_like_debug_output() {
    let mut text = String::new();
    push_shape(&mut text, &vec![1, -3, 640]);
    assert_eq!(text, format!("{:?}", vec![1i64, -3, 640]));
    let mut text = String::new();
    push_shape(&mut text, &Vec::new());
    assert_eq!(text, "[]");
    let names = vec![String::from("lo\"c"), String::from("车")];
    let mut text = String::new();
    push_names(&mut text, &names);
    assert_eq!(text, format!("{:?}", names));
    let mut text = String::new();
    push_list(&mut text, &vec![String::from("a"), String::from("b")]);
    assert_eq!(text, "[a, b]");
}

#[test]
fn text_is_searched_and_split() {
    assert!(contains_text("output_LOC", "LOC"));
    assert!(!contains_text("output_LOC", "loc"));
    assert!(contains_text("", ""));
    assert!(!contains_text("a", "ab"));
    assert_eq!(chars_of("京A"), vec!['京', 'A']);
    for text in ["", "\n", "a", "a\n", "a\nb", "a\r\nb\r\n", "\n\na", "a\r", "一\n二\n", "\r\n"] {
        let expected: Vec<String> = text.lines().map(String::from).collect();
        assert_eq!(split_lines(text), expected, "{text:?}");
    }
}
