//! Channel orders.

use vstd::prelude::*;

use crate::error::{fails, ErrorKind, VisionError};
use crate::imaging::image::{lemma_offset, picture_is_its_pixels, Image, Picture};
use crate::text::{decimal, push_decimal};

verus! {

/// A change of the channels of each pixel.
#[derive(Debug, Clone, Copy, PartialEq, Eq, Structural)]
pub enum ColorConversion {
    /// Drops the alpha channel.
    Bgra2Bgr,
    /// Repeats the grey value in three channels.
    Gray2Bgr,
    /// Exchanges blue and red.
    Bgr2Rgb,
}

impl ColorConversion {
    /// The number of channels that the conversion starts from.
    pub open spec fn source_channels(self) -> int {
        match self {
            ColorConversion::Bgra2Bgr => 4,
            ColorConversion::Gray2Bgr => 1,
            ColorConversion::Bgr2Rgb => 3,
        }
    }

    /// The channel from which channel `c` of the result is taken.
    pub open spec fn source_channel(self, c: int) -> int {
        match self {
            ColorConversion::Bgra2Bgr => c,
            ColorConversion::Gray2Bgr => 0,
            ColorConversion::Bgr2Rgb => 2 - c,
        }
    }
}

/// Whether `after` is `before` with its channels converted.
pub open spec fn is_converted(after: Picture, before: Picture, conversion: ColorConversion) -> bool {
    &&& after.wf()
    &&& after.sized(before.width, before.height, 3)
    &&& forall|x: int, y: int, c: int| #[trigger]
        after.has(x, y, c) ==> after.at(x, y, c) == before.at(x, y, conversion.source_channel(c))
}

/// Converts the channels of each pixel.
pub fn cvt_color(image: &Image, conversion: ColorConversion) -> (r: Result<Image, VisionError>)
    requires
        image.wf(),
        image@.width * image@.height * 3 <= usize::MAX,
    ensures
        image@.channels == conversion.source_channels() ==> r is Ok && is_converted(r->Ok_0@, image@, conversion),
        image@.channels != conversion.source_channels() ==> fails(
            r,
            ErrorKind::Image,
            "color conversion does not fit the channel count"@,
        ),
{
    let from: [usize; 3] = match conversion {
        ColorConversion::Bgra2Bgr => [0, 1, 2],
        ColorConversion::Gray2Bgr => [0, 0, 0],
        ColorConversion::Bgr2Rgb => [2, 1, 0],
    };
    let channels: usize = match conversion {
        ColorConversion::Bgra2Bgr => 4,
        ColorConversion::Gray2Bgr => 1,
        ColorConversion::Bgr2Rgb => 3,
    };
    if image.channels() != channels {
        return Err(VisionError::image(String::from_str("color conversion does not fit the channel count")));
    }
    proof {
        image.lemma_size_fits();
        assert(image@.width * image@.height >= 0) by (nonlinear_arith)
            requires
                image@.width >= 0,
                image@.height >= 0,
        ;
    }
    let area: usize = image.width() * image.height();
    let source = image.data();
    let mut data: Vec<u8> = Vec::new();
    let mut i: usize = 0;
    while i < area
        invariant
            image.wf(),
            image@.channels == channels == conversion.source_channels(),
            area == image@.width * image@.height,
            area * 3 <= usize::MAX,
            source@ == image@.data,
            source.len() == area * channels,
            source.len() <= usize::MAX,
            i <= area,
            forall|c: int| 0 <= c < 3 ==> #[trigger] from[c] == conversion.source_channel(c),
            data.len() == 3 * i,
            forall|n: int|
                0 <= n < data.len() ==> #[trigger] data@[n] == source@[(n / 3) * channels
                    + conversion.source_channel(n % 3)],
        decreases area - i,
    {
        proof {
            assert(i * channels + channels <= area * channels) by (nonlinear_arith)
                requires
                    i < area,
                    channels >= 0,
            ;
            assert(i * channels >= 0) by (nonlinear_arith)
                requires
                    i >= 0,
                    channels >= 0,
            ;
            assert(forall|c: int| 0 <= c < 3 ==> 0 <= #[trigger] conversion.source_channel(c) < channels);
        }
        let ghost prior = data@;
        let first = i * channels;
        data.push(source[first + from[0]]);
        data.push(source[first + from[1]]);
        data.push(source[first + from[2]]);
        proof {
            assert forall|n: int| 0 <= n < data.len() implies #[trigger] data@[n] == source@[(n / 3) * channels
                + conversion.source_channel(n % 3)] by {
                if n < prior.len() {
                    assert(data@[n] == prior[n]);
                } else {
                    assert(n / 3 == i && n % 3 == n - 3 * i);
                }
            }
        }
        i += 1;
    }
    proof {
        assert(image@.width * image@.height * 3 == 3 * area);
    }
    let converted = Image::from_raw(image.width(), image.height(), 3, data);
    proof {
        let after = converted->Ok_0@;
        assert forall|x: int, y: int, c: int| #[trigger] after.has(x, y, c) implies after.at(x, y, c) == image@.at(
            x,
            y,
            conversion.source_channel(c),
        ) by {
            lemma_offset(after, x, y, c);
            let q = y * after.width + x;
            vstd::arithmetic::div_mod::lemma_fundamental_div_mod_converse(q * 3 + c, 3, q, c);
            assert((q * 3 + c) / 3 == q && (q * 3 + c) % 3 == c);
        }
    }
    converted
}

/// How an image becomes one with the channels blue, green and red.
pub open spec fn is_bgr3_of(after: Picture, before: Picture) -> bool {
    if before.channels == 3 {
        after == before
    } else if before.channels == 4 {
        is_converted(after, before, ColorConversion::Bgra2Bgr)
    } else {
        is_converted(after, before, ColorConversion::Gray2Bgr)
    }
}

/// Whether an image has a number of channels from which blue, green and red can be had.
pub open spec fn has_bgr3(p: Picture) -> bool {
    p.channels == 1 || p.channels == 3 || p.channels == 4
}

/// The message on an unsupported number of channels.
pub open spec fn channels_message(n: int) -> Seq<char> {
    "不支持的通道数: "@ + decimal(n as nat)
}

/// The image with the channels blue, green and red.
pub fn to_bgr3(image: &Image) -> (r: Result<Image, VisionError>)
    requires
        image.wf(),
        has_bgr3(image@) ==> image@.width * image@.height * 3 <= usize::MAX,
    ensures
        has_bgr3(image@) ==> r is Ok && r->Ok_0.wf() && is_bgr3_of(r->Ok_0@, image@) && r->Ok_0@.sized(
            image@.width,
            image@.height,
            3,
        ),
        !has_bgr3(image@) ==> fails(r, ErrorKind::Image, channels_message(image@.channels)),
{
    match image.channels() {
        3 => Ok(image.clone()),
        4 => cvt_color(image, ColorConversion::Bgra2Bgr),
        1 => cvt_color(image, ColorConversion::Gray2Bgr),
        n => {
            let mut message = String::from_str("不支持的通道数: ");
            push_decimal(&mut message, n as u64);
            Err(VisionError::image(message))
        },
    }
}

/// The bytes of a picture with three channels, one plane of all pixels per channel.
pub open spec fn planes(p: Picture) -> Seq<u8> {
    let area = p.width * p.height;
    Seq::new((3 * area) as nat, |i: int| p.data[(i % area) * 3 + i / area])
}

/// The bytes of an image with three channels, one plane of all pixels per channel.
pub fn to_planes(image: &Image) -> (out: Vec<u8>)
    requires
        image.wf(),
        image@.channels == 3,
    ensures
        out@ == planes(image@),
{
    let px = image.data();
    let n: usize = px.len();
    let area: usize = n / 3;
    let ghost w = image@.width * image@.height;
    let mut out: Vec<u8> = Vec::new();
    let mut c: usize = 0;
    while c < 3
        invariant
            c <= 3,
            px@ == image@.data,
            area == w == image@.width * image@.height,
            px.len() == 3 * area,
            px.len() <= usize::MAX,
            out.len() == c * area,
            forall|k: int| 0 <= k < out.len() ==> #[trigger] out@[k] == planes(image@)[k],
        decreases 3 - c,
    {
        let mut i: usize = 0;
        while i < area
            invariant
                c < 3,
                i <= area,
                px@ == image@.data,
                area == image@.width * image@.height,
                px.len() == 3 * area,
                px.len() <= usize::MAX,
                out.len() == c * area + i,
                forall|k: int| 0 <= k < out.len() ==> #[trigger] out@[k] == planes(image@)[k],
            decreases area - i,
        {
            let ghost prior = out@;
            out.push(px[i * 3 + c]);
            proof {
                let k = c * area + i;
                vstd::arithmetic::div_mod::lemma_fundamental_div_mod_converse(k, area as int, c as int, i as int);
                assert(k < 3 * area) by (nonlinear_arith)
                    requires
                        c <= 2,
                        i < area,
                        k == c * area + i,
                ;
                assert(out@[k] == planes(image@)[k]);
                assert forall|j: int| 0 <= j < out.len() implies #[trigger] out@[j] == planes(image@)[j] by {
                    if j < prior.len() {
                        assert(out@[j] == prior[j]);
                    }
                }
            }
            i += 1;
        }
        proof {
            assert((c + 1) * area == c * area + area) by (nonlinear_arith);
        }
        c += 1;
    }
    assert(out@ =~= planes(image@));
    out
}

/// Exchanging blue and red twice changes nothing.
pub proof fn exchanging_twice_is_identity(first: Picture, second: Picture, third: Picture)
    requires
        first.wf(),
        first.channels == 3,
        is_converted(second, first, ColorConversion::Bgr2Rgb),
        is_converted(third, second, ColorConversion::Bgr2Rgb),
    ensures
        third == first,
{
    assert forall|x: int, y: int, c: int| #[trigger] third.has(x, y, c) implies third.at(x, y, c) == first.at(
        x,
        y,
        c,
    ) by {
        assert(second.has(x, y, 2 - c));
    }
    picture_is_its_pixels(third, first);
}

/// Every byte of a picture with three channels stands in its channel's plane.
pub proof fn planes_hold_every_pixel(p: Picture, x: int, y: int, c: int)
    requires
        p.wf(),
        p.channels == 3,
        p.has(x, y, c),
    ensures
        planes(p)[c * (p.width * p.height) + y * p.width + x] == p.at(x, y, c),
{
    lemma_offset(p, x, y, c);
    let area = p.width * p.height;
    let q = y * p.width + x;
    let k = c * area + q;
    vstd::arithmetic::div_mod::lemma_fundamental_div_mod_converse(k, area, c, q);
    assert(0 <= k < 3 * area) by (nonlinear_arith)
        requires
            0 <= c <= 2,
            0 <= q < area,
            k == c * area + q,
    ;
}

/// What conversions do to the bytes of each pixel: exchanging turns the first and the last
/// channel around, dropping leaves the fourth channel out, and a grey byte is repeated.
pub proof fn converted_pixels_have_their_bytes(after: Picture, before: Picture, conversion: ColorConversion, i: int)
    requires
        before.wf(),
        is_converted(after, before, conversion),
        before.channels == conversion.source_channels(),
        0 <= i < before.width * before.height,
    ensures
        after.data.len() == 3 * (before.width * before.height),
        conversion == ColorConversion::Bgr2Rgb ==> {
            &&& before.data.len() == 3 * (before.width * before.height)
            &&& after.data[3 * i] == before.data[3 * i + 2]
            &&& after.data[3 * i + 1] == before.data[3 * i + 1]
            &&& after.data[3 * i + 2] == before.data[3 * i]
        },
        conversion == ColorConversion::Bgra2Bgr ==> {
            &&& before.data.len() == 4 * (before.width * before.height)
            &&& after.data[3 * i] == before.data[4 * i]
            &&& after.data[3 * i + 1] == before.data[4 * i + 1]
            &&& after.data[3 * i + 2] == before.data[4 * i + 2]
        },
        conversion == ColorConversion::Gray2Bgr ==> {
            &&& before.data.len() == before.width * before.height
            &&& after.data[3 * i] == before.data[i]
            &&& after.data[3 * i + 1] == before.data[i]
            &&& after.data[3 * i + 2] == before.data[i]
        },
{
    let (w, h) = (before.width, before.height);
    assert(w > 0) by (nonlinear_arith)
        requires
            0 <= i < w * h,
            w >= 0,
    ;
    let (x, y) = (i % w, i / w);
    vstd::arithmetic::div_mod::lemma_fundamental_div_mod(i, w);
    vstd::arithmetic::div_mod::lemma_mod_bound(i, w);
    assert(y < h) by (nonlinear_arith)
        requires
            i < w * h,
            i == w * y + x,
            0 <= x < w,
    ;
    assert(y >= 0) by (nonlinear_arith)
        requires
            i >= 0,
            i == w * y + x,
            0 <= x < w,
    ;
    assert(y * w + x == i) by (nonlinear_arith)
        requires
            i == w * y + x,
    ;
    assert(after.has(x, y, 0) && after.has(x, y, 1) && after.has(x, y, 2));
    assert(after.at(x, y, 0) == after.data[i * 3] && after.at(x, y, 1) == after.data[i * 3 + 1]);
    assert(after.at(x, y, 2) == after.data[i * 3 + 2]);
    let n = before.channels;
    assert(before.at(x, y, 0) == before.data[i * n] && before.at(x, y, 1) == before.data[i * n + 1]);
    assert(before.at(x, y, 2) == before.data[i * n + 2]);
    assert(i * 4 == 4 * i && i * 3 == 3 * i && i * 1 == i);
    match conversion {
        ColorConversion::Bgr2Rgb => {
            assert(n == 3);
        },
        ColorConversion::Bgra2Bgr => {
            assert(n == 4);
            assert(before.data.len() == w * h * 4);
        },
        ColorConversion::Gray2Bgr => {
            assert(n == 1);
            assert(before.data.len() == w * h * 1);
        },
    }
}

/// The three colours of each pixel are those of the image: a grey byte three times, and blue,
/// green and red as they are, without what is behind them.
pub proof fn blue_green_and_red_are_kept(after: Picture, before: Picture, i: int, c: int)
    requires
        before.wf(),
        has_bgr3(before),
        is_bgr3_of(after, before),
        0 <= i < before.width * before.height,
        0 <= c < 3,
    ensures
        after.sized(before.width, before.height, 3),
        after.data[3 * i + c] == before.data[before.channels * i + if before.channels == 1 {
            0
        } else {
            c
        }],
{
    let n = before.channels;
    assert((n == 3 ==> n * i == 3 * i) && (n == 4 ==> n * i == 4 * i) && (n == 1 ==> n * i == i)) by (nonlinear_arith);
    if before.channels == 4 {
        converted_pixels_have_their_bytes(after, before, ColorConversion::Bgra2Bgr, i);
    } else if before.channels == 1 {
        converted_pixels_have_their_bytes(after, before, ColorConversion::Gray2Bgr, i);
    }
}

/// Planes hold all bytes of the first channel, then all of the second, then all of the third,
/// each in the order of the pixels.
pub proof fn planes_hold_channel_after_channel(p: Picture, i: int, c: int)
    requires
        p.channels == 3,
        0 <= i < p.width * p.height,
        0 <= c < 3,
    ensures
        planes(p).len() == 3 * (p.width * p.height),
        planes(p)[c * (p.width * p.height) + i] == p.data[3 * i + c],
{
    let area = p.width * p.height;
    let n = c * area + i;
    vstd::arithmetic::div_mod::lemma_fundamental_div_mod_converse(n, area, c, i);
    assert(0 <= n < 3 * area) by (nonlinear_arith)
        requires
            n == c * area + i,
            0 <= i < area,
            0 <= c < 3,
    ;
}

/// The planes of a picture whose first and last channel are exchanged begin with its last
/// channel.
pub proof fn exchanged_planes_begin_with_the_last_channel(rgb: Picture, bgr: Picture, x: int, y: int, c: int)
    requires
        bgr.channels == 3,
        is_converted(rgb, bgr, ColorConversion::Bgr2Rgb),
        bgr.has(x, y, c),
    ensures
        planes(rgb).len() == 3 * (bgr.width * bgr.height),
        planes(rgb)[c * (bgr.width * bgr.height) + (y * bgr.width + x)] == bgr.data[3 * (y * bgr.width + x) + (2 - c)],
{
    let q = y * bgr.width + x;
    lemma_offset(rgb, x, y, c);
    assert(rgb.has(x, y, c));
    planes_hold_channel_after_channel(rgb, q, c);
    assert(rgb.at(x, y, c) == rgb.data[q * 3 + c] && bgr.at(x, y, 2 - c) == bgr.data[q * 3 + (2 - c)]);
}

} // verus!
