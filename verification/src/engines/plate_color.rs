//! The colour of a plate.

use vstd::prelude::*;

use crate::bounds::{is_small, lemma_less_in_units, lemma_small_integer, lemma_small_mean, lemma_small_sum};
use crate::imaging::image::{lemma_byte_has_place, Image, Picture};
use crate::magnitude::{is_ordinary, Magnitude};
use crate::rounding::{difference, float_of, is_less, lesser, quotient, sum, Precision};

verus! {

/// The sum of one colour over the first `n` pixels of an image.
pub open spec fn channel_sum(p: Picture, c: int, n: int) -> int
    decreases n,
{
    if n <= 0 {
        0
    } else {
        channel_sum(p, c, n - 1) + p.data[(n - 1) * p.channels + c]
    }
}

/// The mean of a sum over `n` pixels.
pub open spec fn mean(total: int, n: int) -> (int, int) {
    quotient(float_of(total, Precision::Double), float_of(n, Precision::Double), Precision::Double)
}

/// The larger of two numbers.
pub open spec fn greater_of(a: (int, int), b: (int, int)) -> (int, int) {
    if is_less(a, b) {
        b
    } else {
        a
    }
}

/// Whether `a` is at least `b` plus a margin.
pub open spec fn exceeds(a: (int, int), b: (int, int), margin: int) -> bool {
    !is_less(a, sum(b, float_of(margin, Precision::Double), Precision::Double))
}

/// The colour of a plate with the given means of blue, green and red.
pub open spec fn color_name(b: (int, int), g: (int, int), r: (int, int)) -> Seq<char> {
    let spread = difference(
        greater_of(greater_of(b, g), r),
        lesser(lesser(b, g), r),
        Precision::Double,
    );
    let level = quotient(
        sum(sum(b, g, Precision::Double), r, Precision::Double),
        float_of(3, Precision::Double),
        Precision::Double,
    );
    if exceeds(g, b, 15) && exceeds(g, r, 15) {
        "新能源绿牌"@
    } else if exceeds(b, r, 15) && exceeds(b, g, 10) {
        "蓝牌"@
    } else if exceeds(r, b, 30) && exceeds(g, b, 20) {
        "黄牌"@
    } else if is_less(spread, float_of(30, Precision::Double)) {
        if is_less(level, float_of(70, Precision::Double)) {
            "黑牌"@
        } else {
            "白牌"@
        }
    } else {
        "未知"@
    }
}

/// The colour of a plate image.
pub open spec fn plate_color(p: Picture) -> Seq<char> {
    if p.data.len() == 0 || p.channels < 3 {
        "未知"@
    } else {
        let n = p.width * p.height;
        color_name(mean(channel_sum(p, 0, n), n), mean(channel_sum(p, 1, n), n), mean(channel_sum(p, 2, n), n))
    }
}

/// The mean of a sum of bytes.
fn mean_of(total: u64, n: u64) -> (x: Magnitude)
    requires
        total <= 255 * n,
        0 < n < 0x2000_0000_0000,
    ensures
        x@ == mean(total as int, n as int),
        is_small(x@, 255),
        is_ordinary(x@, 400),
{
    let a = Magnitude::of(total, Precision::Double);
    let b = Magnitude::of(n, Precision::Double);
    let x = a.divided_by(b, Precision::Double);
    proof {
        lemma_small_mean(total as int, n as int, a@, b@, x@);
    }
    x
}

/// Whether `a` is at least `b` plus a margin.
fn is_above(a: Magnitude, b: Magnitude, margin: u64) -> (r: bool)
    requires
        is_small(a@, 255),
        is_small(b@, 255),
        is_ordinary(a@, 400),
        is_ordinary(b@, 400),
        0 < margin <= 100,
    ensures
        r == exceeds(a@, b@, margin as int),
{
    let step = Magnitude::of(margin, Precision::Double);
    proof {
        lemma_small_integer(margin as int, step@);
    }
    !a.less_than(b.plus(step, Precision::Double))
}

fn larger(a: Magnitude, b: Magnitude) -> (x: Magnitude)
    requires
        is_ordinary(a@, 400),
        is_ordinary(b@, 400),
    ensures
        x@ == greater_of(a@, b@),
{
    if a.less_than(b) {
        b
    } else {
        a
    }
}

/// Names the colour of a plate by its mean blue, green and red.
fn name_color(b: Magnitude, g: Magnitude, r: Magnitude) -> (name: String)
    requires
        is_small(b@, 255),
        is_small(g@, 255),
        is_small(r@, 255),
        is_ordinary(b@, 400),
        is_ordinary(g@, 400),
        is_ordinary(r@, 400),
    ensures
        name@ == color_name(b@, g@, r@),
{
    if is_above(g, b, 15) && is_above(g, r, 15) {
        return String::from_str("新能源绿牌");
    }
    if is_above(b, r, 15) && is_above(b, g, 10) {
        return String::from_str("蓝牌");
    }
    if is_above(r, b, 30) && is_above(g, b, 20) {
        return String::from_str("黄牌");
    }
    let top = larger(larger(b, g), r);
    let bottom = b.min(g).min(r);
    proof {
        lemma_less_in_units(b@, g@);
        lemma_less_in_units(g@, b@);
        lemma_less_in_units(greater_of(b@, g@), r@);
        lemma_less_in_units(r@, lesser(b@, g@));
        lemma_less_in_units(top@, bottom@);
    }
    let spread = top.minus(bottom, Precision::Double);
    if spread.less_than(Magnitude::of(30, Precision::Double)) {
        let two = b.plus(g, Precision::Double);
        proof {
            lemma_small_sum(b@, g@, 255, 255, two@);
        }
        let total = two.plus(r, Precision::Double);
        proof {
            lemma_small_sum(two@, r@, 510, 255, total@);
        }
        let level = total.divided_by(Magnitude::of(3, Precision::Double), Precision::Double);
        if level.less_than(Magnitude::of(70, Precision::Double)) {
            String::from_str("黑牌")
        } else {
            String::from_str("白牌")
        }
    } else {
        String::from_str("未知")
    }
}

/// Names the colour of a plate by the means of its image.
pub fn classify_plate_color(crop: &Image) -> (name: String)
    requires
        crop.wf(),
        crop@.data.len() < 0x2000_0000_0000,
    ensures
        name@ == plate_color(crop@),
{
    if crop.is_empty() || crop.channels() < 3 {
        return String::from_str("未知");
    }
    let px = crop.data();
    let channels = crop.channels();
    let n: usize = px.len() / channels;
    proof {
        let _ = lemma_byte_has_place(crop@, 0);
        let (q, ch) = (crop@.width * crop@.height, crop@.channels);
        assert(q > 0) by (nonlinear_arith)
            requires
                q == crop@.width * crop@.height,
                crop@.width > 0,
                crop@.height > 0,
        ;
        vstd::arithmetic::div_mod::lemma_fundamental_div_mod_converse(px.len() as int, ch, q, 0);
        assert(q <= q * ch) by (nonlinear_arith)
            requires
                q > 0,
                ch >= 3,
        ;
    }
    let (mut sum_b, mut sum_g, mut sum_r): (u64, u64, u64) = (0, 0, 0);
    let mut i: usize = 0;
    while i < n
        invariant
            i <= n,
            n * channels <= px.len(),
            px.len() < 0x2000_0000_0000,
            n <= px.len(),
            channels >= 3,
            channels == crop@.channels,
            px@ == crop@.data,
            sum_b == channel_sum(crop@, 0, i as int),
            sum_g == channel_sum(crop@, 1, i as int),
            sum_r == channel_sum(crop@, 2, i as int),
            sum_b <= 255 * i,
            sum_g <= 255 * i,
            sum_r <= 255 * i,
        decreases n - i,
    {
        assert(0 <= i * channels && i * channels + channels <= n * channels) by (nonlinear_arith)
            requires
                0 <= i < n,
                channels >= 3,
        ;
        let at: usize = i * channels;
        sum_b = sum_b + px[at] as u64;
        sum_g = sum_g + px[at + 1] as u64;
        sum_r = sum_r + px[at + 2] as u64;
        i += 1;
    }
    name_color(mean_of(sum_b, n as u64), mean_of(sum_g, n as u64), mean_of(sum_r, n as u64))
}

/// The colour of a plate is named by the mean of every pixel, one mean for each of the first three
/// bytes: blue, green and red.
pub proof fn all_pixels_count_for_the_colour(p: Picture)
    requires
        p.data.len() > 0,
        p.channels >= 3,
        p.width * p.height >= 0,
    ensures
        ({
            let n = p.width * p.height;
            let total = |c: int|
                Seq::new(n as nat, |i: int| p.data[i * p.channels + c] as int).fold_left(0int, |a: int, v: int| a + v);
            plate_color(p) == color_name(mean(total(0), n), mean(total(1), n), mean(total(2), n))
        }),
{
    let n = p.width * p.height;
    lemma_channel_sum(p, 0, n);
    lemma_channel_sum(p, 1, n);
    lemma_channel_sum(p, 2, n);
}

/// The sum of one colour, as a fold.
proof fn lemma_channel_sum(p: Picture, c: int, n: int)
    requires
        n >= 0,
    ensures
        channel_sum(p, c, n) == Seq::new(n as nat, |i: int| p.data[i * p.channels + c] as int).fold_left(
            0int,
            |a: int, v: int| a + v,
        ),
    decreases n,
{
    let f = |a: int, v: int| a + v;
    let values = Seq::new(n as nat, |i: int| p.data[i * p.channels + c] as int);
    if n > 0 {
        lemma_channel_sum(p, c, n - 1);
        let shorter = Seq::new((n - 1) as nat, |i: int| p.data[i * p.channels + c] as int);
        assert(values.drop_last() =~= shorter);
        assert(values.fold_left(0int, f) == f(shorter.fold_left(0int, f), values.last()));
    }
}

} // verus!
