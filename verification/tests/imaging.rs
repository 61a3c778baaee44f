//! Images, colours and scaling.

use rust_onnx_infer::error::ErrorKind;
use rust_onnx_infer::imaging::color::{cvt_color, to_bgr3, to_planes, ColorConversion};
use rust_onnx_infer::imaging::image::Image;
use rust_onnx_infer::imaging::resize::{can_scale, resize, resize_within, Interpolation, PixelKind, Sampling};
use rust_onnx_infer::imaging::sample::draw;

fn solid_stripes(w: usize, h: usize, vertical: bool, low: u8, high: u8) -> Image {
    let mut data = vec![0u8; w * h * 3];
    for y in 0..h {
        for x in 0..w {
            let striped = if vertical { x % 2 == 0 } else { y % 2 == 0 };
            let v = if striped { high } else { low };
            let i = (y * w + x) * 3;
            data[i] = v;
            data[i + 1] = v;
            data[i + 2] = v;
        }
    }
    Image::from_raw(w, h, 3, data).expect("solid stripes buffer always valid")
}

/// An image whose bytes are all different, as far as they go round.
fn counted(w: usize, h: usize, channels: usize) -> Image {
    let data: Vec<u8> = (0..w * h * channels).map(|i| (i % 251) as u8).collect();
    Image::from_raw(w, h, channels, data).unwrap()
}

#[test]
fn linear_downscale_should_spread_impulse_energy() {
    let mut data = vec![0u8; 64 * 3];
    for c in 0..3 {
        data[33 * 3 + c] = 255;
    }
    let src = Image::from_raw(64, 1, 3, data).expect("buffer always valid");
    let dst = resize(&src, 8, 1, Interpolation::Linear).unwrap();
    let v = dst.data()[4 * 3] as i32;
    assert!(v >= 15, "大比率缩小时脉冲能量丢失（输出块4={v}），核未随缩放比拉伸");
}

#[test]
fn resize_should_keep_constant_image_constant() {
    let src = solid_stripes(64, 64, false, 128, 128);
    let dst = resize(&src, 8, 8, Interpolation::Linear).unwrap();
    assert!(dst.data().iter().all(|&v| v == 128));
}

#[test]
fn nearest_should_sample_source_pixels_without_blending() {
    let src = solid_stripes(4, 4, false, 0, 255);
    let dst = resize(&src, 2, 2, Interpolation::Nearest).unwrap();
    assert!(dst.data().iter().all(|&v| v == 0 || v == 255));
}

#[test]
fn scaling_gives_the_asked_size() {
    for channels in 1..5 {
        let dst = resize(&counted(10, 6, channels), 7, 9, Interpolation::Cubic).unwrap();
        assert_eq!((dst.width(), dst.height(), dst.channels()), (7, 9, channels));
        assert_eq!(dst.data().len(), 7 * 9 * channels);
    }
}

#[test]
fn scaling_to_the_same_size_copies() {
    for interp in [Interpolation::Nearest, Interpolation::Linear, Interpolation::Area, Interpolation::Cubic] {
        let src = counted(9, 5, 3);
        assert_eq!(resize(&src, 9, 5, interp).unwrap().data(), src.data());
    }
}

#[test]
fn halving_averages_blocks() {
    let src = Image::from_raw(4, 1, 1, vec![10, 30, 100, 200]).unwrap();
    let dst = resize(&src, 2, 1, Interpolation::Area).unwrap();
    assert_eq!(dst.data(), &vec![20, 150]);
}

#[test]
fn transparent_pixels_are_scaled_like_others() {
    let src = Image::from_raw(2, 1, 4, vec![200, 200, 200, 0, 100, 100, 100, 255]).unwrap();
    let dst = resize(&src, 1, 1, Interpolation::Area).unwrap();
    assert_eq!(dst.data()[0], 150);
}

#[test]
fn scaling_is_refused() {
    let src = counted(4, 4, 3);
    for (w, h) in [(0, 1), (1, 0), (0, 0)] {
        let e = resize(&src, w, h, Interpolation::Linear).unwrap_err();
        assert_eq!((e.kind, e.message.as_str()), (ErrorKind::Image, "resize target size must be > 0"));
    }
    let e = resize(&Image::new(0, 4, 3), 2, 2, Interpolation::Linear).unwrap_err();
    assert_eq!((e.kind, e.message.as_str()), (ErrorKind::Image, "cannot resize empty image"));
    let e = resize(&counted(4, 4, 5), 2, 2, Interpolation::Linear).unwrap_err();
    assert_eq!((e.kind, e.message.as_str()), (ErrorKind::Image, "unsupported channel count 5"));
    let e = resize_within(&Image::new(3, 0, 3), 2, 2, Interpolation::Linear).unwrap_err();
    assert_eq!((e.kind, e.message.as_str()), (ErrorKind::Image, "cannot resize empty image"));
}

#[test]
fn scaling_limits_are_tested() {
    assert!(can_scale(1920, 1080, 3, 640, 640));
    assert!(!can_scale(usize::MAX, 1, 1, 1, 1));
    assert!(!can_scale(1, 1, 4, u32::MAX as usize, u32::MAX as usize));
}

#[test]
fn fitting_keeps_the_aspect() {
    let src = counted(40, 20, 3);
    let dst = resize_within(&src, 10, 10, Interpolation::Linear).unwrap();
    assert_eq!((dst.width(), dst.height()), (10, 5));
    let dst = resize_within(&counted(33, 7, 3), 10, 10, Interpolation::Linear).unwrap();
    assert_eq!((dst.width(), dst.height()), (10, 2));
    let dst = resize_within(&counted(100, 1, 3), 10, 10, Interpolation::Linear).unwrap();
    assert_eq!((dst.width(), dst.height()), (10, 1));
}

#[test]
fn fitting_is_that_of_floats() {
    for w in [1usize, 3, 17, 41, 50] {
        for h in [1usize, 2, 13, 29] {
            for (tw, th) in [(7usize, 9usize), (16, 16), (1, 40), (60, 5)] {
                let scale = (tw as f64 / w as f64).min(th as f64 / h as f64).min(1.0);
                let nw = ((w as f64 * scale).round() as usize).max(1);
                let nh = ((h as f64 * scale).round() as usize).max(1);
                let dst = resize_within(&counted(w, h, 1), tw, th, Interpolation::Nearest).unwrap();
                assert_eq!((dst.width(), dst.height()), (nw, nh), "{w}x{h} in {tw}x{th}");
                assert!(dst.width() <= w && dst.height() <= h);
            }
        }
    }
}

#[test]
fn fitting_is_as_large_as_possible() {
    for (w, h) in [(40usize, 20usize), (7, 90), (64, 64), (3, 2)] {
        for (tw, th) in [(10usize, 10usize), (33, 5), (7, 7), (100, 1), (usize::MAX, 4)] {
            let dst = resize_within(&counted(w, h, 1), tw, th, Interpolation::Nearest).unwrap();
            assert!(dst.width() <= tw && dst.height() <= th, "{w}x{h} in {tw}x{th}");
            let filled = dst.width() == tw || dst.height() == th;
            assert!(filled || (dst.width(), dst.height()) == (w, h), "{w}x{h} in {tw}x{th}");
        }
    }
    let dst = resize_within(&counted(3, 2, 1), usize::MAX, usize::MAX, Interpolation::Nearest).unwrap();
    assert_eq!((dst.width(), dst.height()), (3, 2));
}

#[test]
fn image_that_fits_is_kept() {
    let src = counted(12, 9, 3);
    let dst = resize_within(&src, 12, 50, Interpolation::Linear).unwrap();
    assert_eq!((dst.width(), dst.height()), (12, 9));
    assert_eq!(dst.data(), src.data());
}

#[test]
fn ways_of_sampling() {
    assert_eq!(Interpolation::default(), Interpolation::Linear);
    assert_eq!(Interpolation::Nearest.to_fir_alg(), Sampling::Nearest);
    assert_eq!(Interpolation::Linear.to_fir_alg(), Sampling::Bilinear);
    assert_eq!(Interpolation::Area.to_fir_alg(), Sampling::Box);
    assert_eq!(Interpolation::Cubic.to_fir_alg(), Sampling::CatmullRom);
    assert_eq!(Interpolation::to_fir_pixel_type(1), Some(PixelKind::U8));
    assert_eq!(Interpolation::to_fir_pixel_type(2), Some(PixelKind::U8x2));
    assert_eq!(Interpolation::to_fir_pixel_type(3), Some(PixelKind::U8x3));
    assert_eq!(Interpolation::to_fir_pixel_type(4), Some(PixelKind::U8x4));
    assert_eq!(Interpolation::to_fir_pixel_type(0), None);
    assert_eq!(Interpolation::to_fir_pixel_type(5), None);
}

#[test]
fn buffers_must_match_their_size() {
    assert!(Image::from_raw(2, 2, 3, vec![0; 12]).is_ok());
    for length in [0, 11, 13] {
        let e = Image::from_raw(2, 2, 3, vec![0; length]).unwrap_err();
        assert_eq!((e.kind, e.message.as_str()), (ErrorKind::Image, "image buffer does not match its size"));
    }
    assert!(Image::from_raw(usize::MAX, usize::MAX, 2, vec![0; 2]).is_err());
    assert!(Image::from_raw(usize::MAX, usize::MAX, 0, vec![]).is_ok());
}

#[test]
fn images_have_sizes_and_pixels() {
    let mut image = Image::filled(3, 2, 3, 7);
    assert_eq!((image.width(), image.height(), image.channels()), (3, 2, 3));
    assert!(!image.is_empty());
    image.set_pixel(1, 1, &[1, 2, 3]);
    let mut expected = vec![7; 18];
    expected[12] = 1;
    expected[13] = 2;
    expected[14] = 3;
    assert_eq!(image.data(), &expected);
    assert_eq!(image.clone().data(), image.data());
    assert!(Image::new(4, 1, 1).data().iter().all(|&v| v == 0));
    assert!(Image::new(0, 5, 3).is_empty());
}

#[test]
fn rectangles_are_cut_out() {
    let image = counted(5, 4, 2);
    let part = image.crop(1, 2, 3, 2).unwrap();
    assert_eq!((part.width(), part.height(), part.channels()), (3, 2, 2));
    for y in 0..2 {
        for x in 0..3 {
            for c in 0..2 {
                assert_eq!(part.data()[(y * 3 + x) * 2 + c], image.data()[((y + 2) * 5 + x + 1) * 2 + c]);
            }
        }
    }
    assert_eq!(image.crop(0, 0, 5, 4).unwrap().data(), image.data());
    for (x, y, w, h) in [(0, 0, 0, 1), (0, 0, 1, 0), (3, 0, 3, 1), (0, 3, 1, 2), (usize::MAX, 0, 2, 1)] {
        let e = image.crop(x, y, w, h).unwrap_err();
        assert_eq!((e.kind, e.message.as_str()), (ErrorKind::Image, "crop rectangle is empty or outside the image"));
    }
}

#[test]
fn cutting_undoes_pasting() {
    let mut image = Image::filled(6, 5, 3, 9);
    let patch = counted(2, 3, 3);
    image.paste(3, 1, &patch);
    assert_eq!(image.crop(3, 1, 2, 3).unwrap().data(), patch.data());
    assert_eq!(image.data()[0], 9);
    assert_eq!(image.data().iter().filter(|&&v| v == 9).count(), 6 * 5 * 3 - 18 + 1);
}

#[test]
fn colours_are_converted() {
    let image = Image::from_raw(2, 1, 3, vec![1, 2, 3, 4, 5, 6]).unwrap();
    let rgb = cvt_color(&image, ColorConversion::Bgr2Rgb).unwrap();
    assert_eq!(rgb.data(), &vec![3, 2, 1, 6, 5, 4]);
    assert_eq!(cvt_color(&rgb, ColorConversion::Bgr2Rgb).unwrap().data(), image.data());

    let gray = Image::from_raw(2, 1, 1, vec![8, 9]).unwrap();
    assert_eq!(cvt_color(&gray, ColorConversion::Gray2Bgr).unwrap().data(), &vec![8, 8, 8, 9, 9, 9]);
    let bgra = Image::from_raw(1, 1, 4, vec![1, 2, 3, 200]).unwrap();
    assert_eq!(cvt_color(&bgra, ColorConversion::Bgra2Bgr).unwrap().data(), &vec![1, 2, 3]);

    let e = cvt_color(&gray, ColorConversion::Bgr2Rgb).unwrap_err();
    assert_eq!(
        (e.kind, e.message.as_str()),
        (ErrorKind::Image, "color conversion does not fit the channel count")
    );
}

#[test]
fn every_image_becomes_one_of_three_colours() {
    let gray = Image::from_raw(1, 1, 1, vec![5]).unwrap();
    assert_eq!(to_bgr3(&gray).unwrap().data(), &vec![5, 5, 5]);
    let bgra = Image::from_raw(1, 1, 4, vec![1, 2, 3, 4]).unwrap();
    assert_eq!(to_bgr3(&bgra).unwrap().data(), &vec![1, 2, 3]);
    let bgr = Image::from_raw(1, 1, 3, vec![1, 2, 3]).unwrap();
    assert_eq!(to_bgr3(&bgr).unwrap().data(), bgr.data());
    let e = to_bgr3(&Image::new(1, 1, 2)).unwrap_err();
    assert_eq!(e.message, "不支持的通道数: 2");
}

#[test]
fn planes_hold_one_colour_each() {
    let image = Image::from_raw(2, 1, 3, vec![1, 2, 3, 4, 5, 6]).unwrap();
    assert_eq!(to_planes(&image), vec![1, 4, 2, 5, 3, 6]);
}

#[test]
fn images_are_drawn_pixel_by_pixel() {
    let image = draw(3, 2, 2, |x, y| if x == y { None } else { Some(vec![x as u8, 10 + y as u8]) });
    assert_eq!(image.data(), &vec![0, 0, 1, 10, 2, 10, 0, 11, 0, 0, 2, 11]);
}
