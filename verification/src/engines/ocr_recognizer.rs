//! Reading lines of text.

use vstd::prelude::*;

use crate::bounds::{lemma_cancel, lemma_less_in_units, lemma_ordered, lemma_positive_value, lemma_proportion,
    lemma_quotient_value, lemma_unit_step, lemma_whole, lemma_whole_in_units, unit, value, SINGLE_PARTS};
use crate::engines::ctc::{averaged_scores_are_those_of_marked_frames, collect_marked, decode, is_best, is_decoding,
    is_mean, marked_scores, mean_of_values, row, taken_class_has_the_greatest_score, text_is_that_of_new_characters,
    Decoding};
use crate::engines::ocr_crop::{crop_region, is_cut_line, LineCalls, LineMeasure, LineSpot, Surroundings};
use crate::engines::ocr_region::{TextLine, TextRegion};
use crate::error::{fails, ErrorKind, VisionError};
use crate::ieee::Single;
use crate::imaging::color::{channels_message, cvt_color, has_bgr3, is_bgr3_of, is_converted, to_bgr3, ColorConversion};
use crate::imaging::image::{lemma_byte_has_place, lemma_offset, Image, Picture};
use crate::imaging::resize::{can_scale, resize, scaled, scaling_fits, Interpolation};
use crate::magnitude::{is_ordinary, Magnitude};
use crate::rounding::{ceil_of, float_of, is_less, product, quotient, saturated, Precision};
use crate::runtime::base::{is_base_of, opening_error, BaseOnnxEngine, Environment, ModelFile};
use crate::runtime::device_type::DeviceType;
use crate::runtime::runtime_config::{default_config, OnnxRuntimeConfig};
use crate::runtime::session_factory::limit_fits;
use crate::runtime::tensor::TensorOutput;
use crate::text::{lines_of, push_shape, shape_text, split_lines, texts};

verus! {

// ---------------------------------------------------------------------------
// The dictionary
// ---------------------------------------------------------------------------

/// The lines without empty ones at the end.
pub open spec fn trimmed(lines: Seq<Seq<char>>) -> Seq<Seq<char>>
    decreases lines.len(),
{
    if lines.len() > 0 && lines.last().len() == 0 {
        trimmed(lines.drop_last())
    } else {
        lines
    }
}

/// The entries of a dictionary: one per line, without empty lines at the end.
pub open spec fn entries_of(content: Seq<char>) -> Seq<Seq<char>> {
    trimmed(lines_of(content))
}

/// Takes the entries out of a dictionary that was read from `path`.
pub fn load_dict(path: &str, content: &str) -> (r: Result<Vec<String>, VisionError>)
    ensures
        entries_of(content@).len() == 0 ==> fails(r, ErrorKind::InvalidArgument, "OCR 字典为空: "@ + path@),
        entries_of(content@).len() > 0 ==> r is Ok && texts(r->Ok_0@) == entries_of(content@),
{
    let mut lines = split_lines(content);
    while lines.len() > 0 && lines[lines.len() - 1].as_str().unicode_len() == 0
        invariant
            trimmed(texts(lines@)) == entries_of(content@),
        decreases lines.len(),
    {
        let ghost before = lines@;
        lines.pop();
        proof {
            assert(texts(before).last() == before.last()@);
            assert(texts(before).drop_last() =~= texts(lines@));
        }
    }
    proof {
        if lines.len() > 0 {
            assert(texts(lines@).last() == lines@.last()@);
        }
        assert(trimmed(texts(lines@)) =~= texts(lines@));
    }
    if lines.len() == 0 {
        let mut message = String::from_str("OCR 字典为空: ");
        message.append(path);
        return Err(VisionError::invalid_argument(message));
    }
    Ok(lines)
}

/// The characters that classes stand for: the blank, the entries of the dictionary, and a
/// space if it is wanted.
pub open spec fn character_list(dict: Seq<Seq<char>>, use_space_char: bool) -> Seq<Seq<char>> {
    if use_space_char {
        seq!["blank"@] + dict + seq![" "@]
    } else {
        seq!["blank"@] + dict
    }
}

// ---------------------------------------------------------------------------
// Sizes
// ---------------------------------------------------------------------------

/// Width over height.
pub open spec fn size_ratio(width: int, height: int) -> (int, int) {
    quotient(float_of(width, Precision::Single), float_of(height, Precision::Single), Precision::Single)
}

/// Width over height of a line.
pub open spec fn line_ratio(p: Picture) -> (int, int) {
    size_ratio(p.width, p.height)
}

/// The greatest ratio of a list of lines, one at least.
pub open spec fn greatest_ratio(crops: Seq<Image>) -> (int, int)
    decreases crops.len(),
{
    if crops.len() == 0 {
        float_of(1, Precision::Single)
    } else {
        let before = greatest_ratio(crops.drop_last());
        if is_less(before, line_ratio(crops.last()@)) {
            line_ratio(crops.last()@)
        } else {
            before
        }
    }
}

/// The width of a line with a given height and ratio.
pub open spec fn line_width(height: int, ratio: (int, int)) -> int {
    saturated(ceil_of(product(float_of(height, Precision::Single), ratio, Precision::Single)))
}

/// The width of a line with a given height and ratio, at least one and within the limit.
pub open spec fn fitted_width(height: int, ratio: (int, int), limit: int) -> int {
    let width = line_width(height, ratio);
    if width < 1 {
        1
    } else if width > limit {
        limit
    } else {
        width
    }
}

/// The width of a batch of lines: that of the widest one, within the limit.
pub open spec fn batch_width(crops: Seq<Image>, height: int, max_width: int) -> int {
    fitted_width(height, greatest_ratio(crops), max_width)
}

/// The width that one line takes in a batch.
pub open spec fn own_width(p: Picture, height: int, target: int) -> int {
    fitted_width(height, line_ratio(p), target)
}

/// A batch is as wide as a square line or as one of its lines.
proof fn lemma_greatest_ratio(crops: Seq<Image>)
    ensures
        greatest_ratio(crops) == float_of(1, Precision::Single) || exists|k: int|
            0 <= k < crops.len() && greatest_ratio(crops) == line_ratio((#[trigger] crops[k])@),
    decreases crops.len(),
{
    if crops.len() > 0 {
        let shorter = crops.drop_last();
        lemma_greatest_ratio(shorter);
        if is_less(greatest_ratio(shorter), line_ratio(crops.last()@)) {
            assert(greatest_ratio(crops) == line_ratio(crops[crops.len() - 1]@));
        } else if greatest_ratio(shorter) != float_of(1, Precision::Single) {
            let k = choose|k: int|
                0 <= k < shorter.len() && greatest_ratio(shorter) == line_ratio((#[trigger] shorter[k])@);
            assert(crops[k] == shorter[k]);
        }
    }
}

/// The greatest ratio of one line.
proof fn lemma_ratio_alone(line: Image)
    ensures
        greatest_ratio(seq![line]) == if is_less(float_of(1, Precision::Single), line_ratio(line@)) {
            line_ratio(line@)
        } else {
            float_of(1, Precision::Single)
        },
{
    let alone = seq![line];
    assert(alone.drop_last() =~= Seq::<Image>::empty());
    assert(alone.last() == line);
    assert(greatest_ratio(alone.drop_last()) == float_of(1, Precision::Single));
}

fn ratio_of(width: usize, height: usize) -> (r: Magnitude)
    requires
        height > 0,
    ensures
        r@ == size_ratio(width as int, height as int),
        is_ordinary(r@, 400),
{
    Magnitude::of(width as u64, Precision::Single).divided_by(
        Magnitude::of(height as u64, Precision::Single),
        Precision::Single,
    )
}

fn width_within(height: usize, ratio: Magnitude, limit: usize) -> (n: usize)
    requires
        is_ordinary(ratio@, 400),
        limit >= 1,
    ensures
        n == fitted_width(height as int, ratio@, limit as int),
        1 <= n <= limit,
{
    let width = Magnitude::of(height as u64, Precision::Single).times(ratio, Precision::Single).ceil();
    if width < 1 {
        1
    } else if width > limit {
        limit
    } else {
        width
    }
}

// ---------------------------------------------------------------------------
// The batch
// ---------------------------------------------------------------------------

/// Whether every line has pixels.
pub open spec fn none_empty(crops: Seq<Image>) -> bool {
    forall|i: int| 0 <= i < crops.len() ==> (#[trigger] crops[i])@.data.len() > 0
}

/// Whether `i` is the first line whose channels are not supported.
pub open spec fn is_first_unsupported(crops: Seq<Image>, i: int) -> bool {
    &&& 0 <= i < crops.len()
    &&& !has_bgr3(crops[i]@)
    &&& forall|j: int| 0 <= j < i ==> has_bgr3((#[trigger] crops[j])@)
}

/// Whether `rgb` is a line as it stands in a batch.
pub open spec fn is_line_picture(rgb: Picture, crop: Picture, width: int, height: int) -> bool {
    exists|bgr: Picture| #[trigger]
        is_bgr3_of(bgr, crop) && is_converted(
            rgb,
            scaled(bgr, width, height, Interpolation::Linear),
            ColorConversion::Bgr2Rgb,
        )
}

/// The value of a batch at a line, a channel, a row and a column: that of the line, or
/// nothing to the right of it.
pub open spec fn batch_value(rgb: Picture, width: int, x: int, y: int, c: int) -> Option<u8> {
    if x < width {
        Some(rgb.at(x, y, c))
    } else {
        None
    }
}

/// The values of one line in a batch: plane by plane, row by row.
pub open spec fn line_values(rgb: Picture, width: int, height: int, target: int) -> Seq<Option<u8>> {
    Seq::new(
        (3 * (height * target)) as nat,
        |n: int|
            batch_value(
                rgb,
                width,
                (n % (height * target)) % target,
                (n % (height * target)) / target,
                n / (height * target),
            ),
    )
}

/// Whether `batch` holds the lines one after the other.
pub open spec fn is_batch(batch: Seq<Option<u8>>, crops: Seq<Image>, height: int, target: int) -> bool {
    exists|parts: Seq<Seq<Option<u8>>>| #[trigger]
        are_line_parts(parts, crops, height, target) && parts.len() == crops.len() && batch == parts.flatten()
}

/// Whether `part` holds the values of a line.
pub open spec fn is_line_part(part: Seq<Option<u8>>, crop: Picture, height: int, target: int) -> bool {
    exists|rgb: Picture| #[trigger]
        is_line_picture(rgb, crop, own_width(crop, height, target), height) && part == line_values(
            rgb,
            own_width(crop, height, target),
            height,
            target,
        )
}

/// Whether `parts` hold the values of the first lines.
pub open spec fn are_line_parts(
    parts: Seq<Seq<Option<u8>>>,
    crops: Seq<Image>,
    height: int,
    target: int,
) -> bool {
    &&& parts.len() <= crops.len()
    &&& forall|b: int|
        0 <= b < parts.len() ==> is_line_part(#[trigger] parts[b], crops[b]@, height, target)
}

/// Parts of the same length stand one after the other.
proof fn lemma_flat(parts: Seq<Seq<Option<u8>>>, length: int, b: int, k: int)
    requires
        forall|i: int| 0 <= i < parts.len() ==> (#[trigger] parts[i]).len() == length,
        0 <= b < parts.len(),
        0 <= k < length,
    ensures
        parts.flatten().len() == parts.len() * length,
        0 <= b * length + k < parts.len() * length,
        parts.flatten()[b * length + k] == parts[b][k],
    decreases parts.len(),
{
    let (shorter, n) = (parts.drop_last(), parts.len() - 1);
    parts.lemma_flatten_and_flatten_alt_are_equivalent();
    shorter.lemma_flatten_and_flatten_alt_are_equivalent();
    assert(parts.flatten() == shorter.flatten() + parts[n]);
    assert((n + 1) * length == n * length + length && 0 <= b * length) by (nonlinear_arith)
        requires
            b >= 0,
            length >= 0,
    ;
    if n == 0 {
        assert(0 * length == 0) by (nonlinear_arith);
    } else if b < n {
        lemma_flat(shorter, length, b, k);
    } else {
        lemma_flat(shorter, length, 0, k);
    }
}

/// The value of a batch at a line, a channel, a row and a column.
proof fn lemma_value_of_batch(
    batch: Seq<Option<u8>>,
    crops: Seq<Image>,
    height: int,
    target: int,
    b: int,
    c: int,
    y: int,
    x: int,
) -> (rgb: Picture)
    requires
        is_batch(batch, crops, height, target),
        0 <= b < crops.len(),
        0 <= c < 3,
        0 <= y < height,
        0 <= x < target,
    ensures
        is_line_picture(rgb, crops[b]@, own_width(crops[b]@, height, target), height),
        batch.len() == crops.len() * (3 * (height * target)),
        0 <= b * (3 * (height * target)) + (c * (height * target) + (y * target + x)) < batch.len(),
        batch[b * (3 * (height * target)) + (c * (height * target) + (y * target + x))] == batch_value(
            rgb,
            own_width(crops[b]@, height, target),
            x,
            y,
            c,
        ),
{
    let parts = choose|parts: Seq<Seq<Option<u8>>>| #[trigger]
        are_line_parts(parts, crops, height, target) && parts.len() == crops.len() && batch == parts.flatten();
    let plane = height * target;
    assert(plane > 0) by (nonlinear_arith)
        requires
            height > 0,
            target > 0,
            plane == height * target,
    ;
    assert forall|i: int| 0 <= i < parts.len() implies (#[trigger] parts[i]).len() == 3 * plane by {
        assert(is_line_part(parts[i], crops[i]@, height, target));
    }
    let q = y * target + x;
    assert(0 <= q < plane) by (nonlinear_arith)
        requires
            q == y * target + x,
            plane == height * target,
            0 <= y < height,
            0 <= x < target,
    ;
    let n = c * plane + q;
    assert(0 <= n < 3 * plane) by (nonlinear_arith)
        requires
            n == c * plane + q,
            0 <= c < 3,
            0 <= q < plane,
    ;
    vstd::arithmetic::div_mod::lemma_fundamental_div_mod_converse(n, plane, c, q);
    vstd::arithmetic::div_mod::lemma_fundamental_div_mod_converse(q, target, y, x);
    assert(is_line_part(parts[b], crops[b]@, height, target));
    lemma_flat(parts, 3 * plane, b, n);
    choose|rgb: Picture| #[trigger]
        is_line_picture(rgb, crops[b]@, own_width(crops[b]@, height, target), height) && parts[b] == line_values(
            rgb,
            own_width(crops[b]@, height, target),
            height,
            target,
        )
}

/// A batch has a value for each line, channel, row and column. In every row of a line there are
/// values up to its own width, and nothing stands to the right of them.
pub proof fn batches_are_padded_on_the_right(
    batch: Seq<Option<u8>>,
    crops: Seq<Image>,
    height: int,
    target: int,
    b: int,
    c: int,
    y: int,
    x: int,
)
    requires
        is_batch(batch, crops, height, target),
        0 <= b < crops.len(),
        0 <= c < 3,
        0 <= y < height,
        0 <= x < target,
    ensures
        batch.len() == crops.len() * (3 * (height * target)),
        0 <= b * (3 * (height * target)) + (c * (height * target) + (y * target + x)) < batch.len(),
        batch[b * (3 * (height * target)) + (c * (height * target) + (y * target + x))] is Some <==> x < own_width(
            crops[b]@,
            height,
            target,
        ),
{
    let _ = lemma_value_of_batch(batch, crops, height, target, b, c, y, x);
}

/// Up to the width of a line the batch holds, at its channel, row and column, the byte that the
/// scaled line has in the same row and column: red in the first plane, green in the second, and
/// blue in the third.
pub proof fn batches_show_the_scaled_lines(
    batch: Seq<Option<u8>>,
    crops: Seq<Image>,
    height: int,
    target: int,
    b: int,
    c: int,
    y: int,
    x: int,
) -> (bgr: Picture)
    requires
        is_batch(batch, crops, height, target),
        0 <= b < crops.len(),
        crops[b].wf(),
        has_bgr3(crops[b]@),
        0 <= c < 3,
        0 <= y < height,
        0 <= x < own_width(crops[b]@, height, target),
        own_width(crops[b]@, height, target) <= target,
    ensures
        is_bgr3_of(bgr, crops[b]@),
        ({
            let own = own_width(crops[b]@, height, target);
            batch[b * (3 * (height * target)) + (c * (height * target) + (y * target + x))] == Some(
                scaled(bgr, own, height, Interpolation::Linear).data[3 * (y * own + x) + (2 - c)],
            )
        }),
{
    let own = own_width(crops[b]@, height, target);
    let rgb = lemma_value_of_batch(batch, crops, height, target, b, c, y, x);
    let bgr = choose|bgr: Picture| #[trigger]
        is_bgr3_of(bgr, crops[b]@) && is_converted(
            rgb,
            scaled(bgr, own, height, Interpolation::Linear),
            ColorConversion::Bgr2Rgb,
        );
    let line = scaled(bgr, own, height, Interpolation::Linear);
    assert(bgr.channels == 3);
    assert(rgb.has(x, y, c));
    assert(rgb.at(x, y, c) == line.at(x, y, 2 - c));
    assert(line.at(x, y, 2 - c) == line.data[(y * own + x) * 3 + (2 - c)]);
    bgr
}

/// Whether a line of a size can be scaled to a height and a width.
pub open spec fn size_fits(width: int, height: int, new_width: int, new_height: int) -> bool {
    &&& width * height * 3 <= usize::MAX
    &&& scaling_fits(width, height, 3, new_width, new_height)
}

/// Whether a line has its place in a batch of a height and a width. A line whose channels are
/// not supported is not scaled.
pub open spec fn has_place(p: Picture, height: int, target: int) -> bool {
    &&& 3 * (height * target) <= usize::MAX
    &&& has_bgr3(p) ==> size_fits(p.width, p.height, own_width(p, height, target), height)
}

fn size_is_fit(width: usize, height: usize, new_width: usize, new_height: usize) -> (r: bool)
    ensures
        r == size_fits(width as int, height as int, new_width as int, new_height as int),
{
    if !can_scale(width, height, 3, new_width, new_height) {
        return false;
    }
    let (a, b) = (width as u128, height as u128);
    assert(0 <= a * b <= 0xffff_ffff * 0xffff_ffff) by (nonlinear_arith)
        requires
            0 <= a <= 0xffff_ffff,
            0 <= b <= 0xffff_ffff,
    ;
    a * b * 3 <= usize::MAX as u128
}

/// Appends the values of a line.
fn push_line(batch: &mut Vec<Option<u8>>, crop: &Image, height: usize, target: usize) -> (r: Result<(), VisionError>)
    requires
        crop.wf(),
        crop@.data.len() > 0,
        height > 0,
        target > 0,
        has_place(crop@, height as int, target as int),
    ensures
        !has_bgr3(crop@) ==> fails(r, ErrorKind::Image, channels_message(crop@.channels)),
        has_bgr3(crop@) ==> r is Ok && exists|part: Seq<Option<u8>>| #[trigger]
            is_line_part(part, crop@, height as int, target as int) && final(batch)@ == old(batch)@ + part,
{
    proof {
        let _ = lemma_byte_has_place(crop@, 0);
    }
    let width = width_within(height, ratio_of(crop.width(), crop.height()), target);
    let bgr = match to_bgr3(crop) {
        Ok(bgr) => bgr,
        Err(e) => {
            return Err(e);
        },
    };
    proof {
        assert(crop@.width * crop@.height > 0) by (nonlinear_arith)
            requires
                crop@.width > 0,
                crop@.height > 0,
        ;
    }
    let resized = match resize(&bgr, width, height, Interpolation::Linear) {
        Ok(resized) => resized,
        Err(e) => {
            return Err(e);
        },
    };
    let rgb = match cvt_color(&resized, ColorConversion::Bgr2Rgb) {
        Ok(rgb) => rgb,
        Err(e) => {
            return Err(e);
        },
    };
    let px = rgb.data();
    let ghost before = batch@;
    let ghost part = line_values(rgb@, width as int, height as int, target as int);
    proof {
        rgb.lemma_size_fits();
        assert(height * target > 0) by (nonlinear_arith)
            requires
                height > 0,
                target > 0,
        ;
    }
    let plane: usize = height * target;
    let count: usize = 3 * plane;
    let mut n: usize = 0;
    assert(before =~= before + part.take(0));
    while n < count
        invariant
            n <= count,
            count == 3 * plane,
            plane == height * target,
            plane > 0,
            target > 0,
            0 < width <= target,
            rgb.wf(),
            rgb@.sized(width as int, height as int, 3),
            px@ == rgb@.data,
            px.len() <= usize::MAX,
            part == line_values(rgb@, width as int, height as int, target as int),
            batch@ == before + part.take(n as int),
        decreases count - n,
    {
        let c: usize = n / plane;
        let q: usize = n % plane;
        let y: usize = q / target;
        let x: usize = q % target;
        proof {
            vstd::arithmetic::div_mod::lemma_fundamental_div_mod(n as int, plane as int);
            vstd::arithmetic::div_mod::lemma_mod_bound(n as int, plane as int);
            assert(c < 3) by (nonlinear_arith)
                requires
                    n < 3 * plane,
                    n == plane * c + q,
                    0 <= q < plane,
            ;
            vstd::arithmetic::div_mod::lemma_fundamental_div_mod(q as int, target as int);
            vstd::arithmetic::div_mod::lemma_mod_bound(q as int, target as int);
            assert(y < height) by (nonlinear_arith)
                requires
                    q < height * target,
                    q == target * y + x,
                    0 <= x < target,
            ;
            if x < width {
                lemma_offset(rgb@, x as int, y as int, c as int);
            }
            assert(part.take(n + 1) =~= part.take(n as int).push(part[n as int]));
        }
        let value: Option<u8> = if x < width {
            Some(px[(y * width + x) * 3 + c])
        } else {
            None
        };
        assert(value == part[n as int]);
        batch.push(value);
        assert(batch@ =~= before + part.take(n + 1));
        n += 1;
    }
    proof {
        assert(part.take(n as int) =~= part);
        assert(is_line_picture(rgb@, crop@, width as int, height as int));
        assert(is_line_part(part, crop@, height as int, target as int));
    }
    Ok(())
}

// ---------------------------------------------------------------------------
// The answer
// ---------------------------------------------------------------------------

/// The frames and classes of an output for a number of lines.
pub open spec fn rec_layout(output: TensorOutput, lines: int) -> Option<(int, int)> {
    if output.shape.len() == 3 {
        Some((output.dim(1), output.dim(2)))
    } else if output.shape.len() == 2 && lines == 1 {
        Some((output.dim(0), output.dim(1)))
    } else {
        None
    }
}

/// The message on what is wrong with an output, if anything is.
pub open spec fn rec_complaint(output: TensorOutput, lines: int) -> Option<Seq<char>> {
    if !(output.data is F32) {
        Some("output tensor is not f32"@)
    } else if rec_layout(output, lines) is None {
        Some("rec 模型期望 [N,T,C] 输出，实际 shape: "@ + shape_text(output.shape@))
    } else {
        None
    }
}

/// Whether an output has all the values that its size says.
pub open spec fn holds_lines(output: TensorOutput, lines: int) -> bool {
    rec_complaint(output, lines) is None ==> lines * ((rec_layout(output, lines)->0).0 * (rec_layout(
        output,
        lines,
    )->0).1) <= output.values().len()
}

/// Whether an output has all the values that its size says.
pub fn can_read_lines(output: &TensorOutput, lines: usize) -> (r: bool)
    requires
        output.wf(),
    ensures
        r == holds_lines(*output, lines as int),
{
    let flat = match output.as_f32() {
        Ok(flat) => flat,
        Err(_) => {
            return true;
        },
    };
    let shape = &output.shape;
    let (frames, classes): (usize, usize) = if shape.len() == 3 {
        (shape[1] as usize, shape[2] as usize)
    } else if shape.len() == 2 && lines == 1 {
        (shape[0] as usize, shape[1] as usize)
    } else {
        return true;
    };
    let ghost (n, s) = (lines as int, frames * classes);
    proof {
        assert(rec_layout(*output, n) == Some((frames as int, classes as int)));
        assert(holds_lines(*output, n) == (n * s <= output.values().len()));
        assert(s >= 0) by (nonlinear_arith)
            requires
                s == frames * classes,
                frames >= 0,
                classes >= 0,
        ;
        assert((n >= 1 ==> n * s >= s) && (n == 0 ==> n * s == 0)) by (nonlinear_arith)
            requires
                s >= 0,
        ;
    }
    let stride = match frames.checked_mul(classes) {
        Some(stride) => stride,
        None => {
            assert(n * s <= flat.len() <==> n == 0);
            return lines == 0;
        },
    };
    assert(stride == s);
    let enough = match lines.checked_mul(stride) {
        Some(count) => count <= flat.len(),
        None => false,
    };
    assert(enough == (n * s <= flat.len()));
    enough
}

/// The scores of one line.
pub open spec fn line_scores(output: TensorOutput, lines: int, b: int) -> Seq<Single> {
    let (frames, classes) = rec_layout(output, lines)->0;
    output.values().subrange(b * (frames * classes), (b + 1) * (frames * classes))
}

/// Whether `line` is what the scores of its frames say: the text of the decoded classes, and
/// the mean of the best scores of the frames that are not blank.
pub open spec fn is_text_of<S: Fn(&Vec<Single>) -> Single>(
    line: TextLine,
    frames: Seq<Single>,
    classes: int,
    frame_count: int,
    table: Seq<Seq<char>>,
    mean: S,
) -> bool {
    exists|d: Decoding, values: Vec<Single>|
        #![trigger is_decoding(d, frames, classes, frame_count, 0, table), is_mean(line.score, values, mean)]
        {
            &&& is_decoding(d, frames, classes, frame_count, 0, table)
            &&& line.text@ == d.text@
            &&& values@ == marked_scores(frames, classes, d.best@, 0)
            &&& is_mean(line.score, values, mean)
        }
}

/// Whether `line` is read from the scores of one line.
pub open spec fn is_read_line<S: Fn(&Vec<Single>) -> Single>(
    line: TextLine,
    output: TensorOutput,
    lines: int,
    b: int,
    table: Seq<Seq<char>>,
    mean: S,
) -> bool {
    let (frames, classes) = rec_layout(output, lines)->0;
    is_text_of(line, line_scores(output, lines, b), classes, frames, table, mean)
}

/// What reading the answer of the model gives.
pub open spec fn are_read_lines<S: Fn(&Vec<Single>) -> Single>(
    r: Result<Vec<TextLine>, VisionError>,
    output: TensorOutput,
    lines: int,
    table: Seq<Seq<char>>,
    mean: S,
) -> bool {
    if rec_complaint(output, lines) is Some {
        fails(r, ErrorKind::Inference, rec_complaint(output, lines)->0)
    } else {
        &&& r is Ok
        &&& r->Ok_0.len() == lines
        &&& forall|b: int|
            0 <= b < lines ==> is_read_line(#[trigger] r->Ok_0@[b], output, lines, b, table, mean)
    }
}

/// Whether a reply of the recognizer is well formed and has all its values.
pub open spec fn is_good_answer(reply: Result<TensorOutput, VisionError>, lines: int) -> bool {
    reply is Ok ==> reply->Ok_0.wf() && holds_lines(reply->Ok_0, lines)
}

fn values_between(values: &Vec<Single>, start: usize, count: usize) -> (out: Vec<Single>)
    requires
        start + count <= values.len(),
    ensures
        out@ == values@.subrange(start as int, start + count),
{
    let mut out: Vec<Single> = Vec::new();
    let mut i: usize = 0;
    while i < count
        invariant
            i <= count,
            start + count <= values.len(),
            out@ == values@.subrange(start as int, start + i),
        decreases count - i,
    {
        out.push(values[start + i]);
        assert(out@ =~= values@.subrange(start as int, start + (i + 1)));
        i += 1;
    }
    out
}

/// What reading lines calls.
pub struct ReadCalls<I, S> {
    /// Runs the model on a batch with the given number of lines and the given width.
    pub infer: I,
    /// The mean of at least one value.
    pub mean: S,
}

impl<
    I: Fn(&Vec<Option<u8>>, usize, usize) -> Result<TensorOutput, VisionError>,
    S: Fn(&Vec<Single>) -> Single,
> ReadCalls<I, S> {
    /// Whether everything can be called, and the model's answers have all their values.
    pub open spec fn are_callable(self) -> bool {
        &&& forall|batch: &Vec<Option<u8>>, lines: usize, width: usize|
            call_requires(self.infer, (batch, lines, width))
        &&& forall|batch: &Vec<Option<u8>>, lines: usize, width: usize, reply: Result<TensorOutput, VisionError>|
            call_ensures(self.infer, (batch, lines, width), reply) ==> is_good_answer(reply, lines as int)
        &&& forall|values: &Vec<Single>| values.len() > 0 ==> call_requires(self.mean, (values,))
    }
}

/// Reads lines of text.
#[derive(Debug)]
pub struct OcrRecognizer {
    pub base: BaseOnnxEngine,
    /// The entries of the dictionary.
    pub dict: Vec<String>,
    /// The characters that classes stand for.
    pub char_list: Vec<String>,
    /// Whether there is a class for the space.
    pub use_space_char: bool,
    /// The height of a line.
    pub rec_image_height: usize,
    /// The greatest width of a line.
    pub rec_max_width: usize,
}

impl OcrRecognizer {
    /// Whether the characters are those of the dictionary, and the sizes are positive.
    pub open spec fn wf(self) -> bool {
        &&& texts(self.char_list@) == character_list(texts(self.dict@), self.use_space_char)
        &&& self.rec_image_height >= 1
        &&& self.rec_max_width >= 1
    }

    /// The error on a dictionary or a model that cannot be opened, if there is one.
    pub open spec fn error_of(
        model: ModelFile,
        dict_path: Seq<char>,
        dict_content: Seq<char>,
        config: OnnxRuntimeConfig,
    ) -> Option<(ErrorKind, Seq<char>)> {
        if entries_of(dict_content).len() == 0 {
            Some((ErrorKind::InvalidArgument, "OCR 字典为空: "@ + dict_path))
        } else {
            opening_error(model, config)
        }
    }

    /// Whether a recognizer is opened from a model and a dictionary.
    pub open spec fn is_opened(
        r: Result<OcrRecognizer, VisionError>,
        model: ModelFile,
        dict_path: Seq<char>,
        dict_content: Seq<char>,
        device: DeviceType,
        config: OnnxRuntimeConfig,
        env: Environment,
    ) -> bool {
        match OcrRecognizer::error_of(model, dict_path, dict_content, config) {
            Some((error, message)) => fails(r, error, message),
            None => {
                &&& r is Ok
                &&& r->Ok_0.wf()
                &&& is_base_of(r->Ok_0.base, model, device, 48, 320, config, env)
                &&& texts(r->Ok_0.dict@) == entries_of(dict_content)
                &&& r->Ok_0.use_space_char
                &&& r->Ok_0.rec_image_height == 48
                &&& r->Ok_0.rec_max_width == 320
            },
        }
    }

    /// Opens a recognizer with the dictionary that was read from `dict_path`.
    pub fn new(
        model: &ModelFile,
        dict_path: &str,
        dict_content: &str,
        device_type: DeviceType,
        env: &Environment,
    ) -> (r: Result<OcrRecognizer, VisionError>)
        requires
            limit_fits(device_type, default_config(env.limit), env.enabled),
        ensures
            OcrRecognizer::is_opened(
                r,
                *model,
                dict_path@,
                dict_content@,
                device_type,
                default_config(env.limit),
                *env,
            ),
    {
        OcrRecognizer::with_config(
            model,
            dict_path,
            dict_content,
            device_type,
            OnnxRuntimeConfig::defaults(&env.limit),
            env,
        )
    }

    /// Opens a recognizer with the dictionary that was read from `dict_path`.
    pub fn with_config(
        model: &ModelFile,
        dict_path: &str,
        dict_content: &str,
        device_type: DeviceType,
        runtime_config: OnnxRuntimeConfig,
        env: &Environment,
    ) -> (r: Result<OcrRecognizer, VisionError>)
        requires
            limit_fits(device_type, runtime_config, env.enabled),
        ensures
            OcrRecognizer::is_opened(
                r,
                *model,
                dict_path@,
                dict_content@,
                device_type,
                runtime_config,
                *env,
            ),
    {
        let dict = match load_dict(dict_path, dict_content) {
            Ok(dict) => dict,
            Err(e) => {
                return Err(e);
            },
        };
        let base = match BaseOnnxEngine::with_config(model, device_type, 48, 320, runtime_config, env) {
            Ok(base) => base,
            Err(e) => {
                return Err(e);
            },
        };
        let mut rec = OcrRecognizer {
            base,
            dict,
            char_list: Vec::new(),
            use_space_char: true,
            rec_image_height: 48,
            rec_max_width: 320,
        };
        rec.rebuild_char_list();
        Ok(rec)
    }

    /// The number of entries of the dictionary.
    pub fn dict_len(&self) -> (n: usize)
        ensures
            n == self.dict.len(),
    {
        self.dict.len()
    }

    /// The characters that classes stand for.
    pub fn char_list(&self) -> (r: &Vec<String>)
        ensures
            *r == self.char_list,
    {
        &self.char_list
    }

    /// Whether there is a class for the space.
    pub fn use_space_char(&self) -> (r: bool)
        ensures
            r == self.use_space_char,
    {
        self.use_space_char
    }

    /// Sets whether there is a class for the space.
    pub fn set_use_space_char(&mut self, use_space_char: bool)
        ensures
            texts(final(self).char_list@) == character_list(texts(old(self).dict@), use_space_char),
            *final(self) == (OcrRecognizer { use_space_char, char_list: final(self).char_list, ..*old(self) }),
            old(self).wf() ==> final(self).wf(),
    {
        self.use_space_char = use_space_char;
        self.rebuild_char_list();
    }

    /// The height of a line.
    pub fn rec_image_height(&self) -> (n: usize)
        ensures
            n == self.rec_image_height,
    {
        self.rec_image_height
    }

    /// Sets the height of a line, one at least.
    pub fn set_rec_image_height(&mut self, height: usize)
        ensures
            *final(self) == (OcrRecognizer {
                rec_image_height: if height < 1 {
                    1
                } else {
                    height
                },
                ..*old(self)
            }),
            old(self).wf() ==> final(self).wf(),
    {
        self.rec_image_height = if height < 1 {
            1
        } else {
            height
        };
    }

    /// The greatest width of a line.
    pub fn rec_max_width(&self) -> (n: usize)
        ensures
            n == self.rec_max_width,
    {
        self.rec_max_width
    }

    /// Sets the greatest width of a line, one at least.
    pub fn set_rec_max_width(&mut self, max_width: usize)
        ensures
            *final(self) == (OcrRecognizer {
                rec_max_width: if max_width < 1 {
                    1
                } else {
                    max_width
                },
                ..*old(self)
            }),
            old(self).wf() ==> final(self).wf(),
    {
        self.rec_max_width = if max_width < 1 {
            1
        } else {
            max_width
        };
    }

    /// Makes the list of characters anew.
    fn rebuild_char_list(&mut self)
        ensures
            texts(final(self).char_list@) == character_list(texts(old(self).dict@), old(self).use_space_char),
            *final(self) == (OcrRecognizer { char_list: final(self).char_list, ..*old(self) }),
    {
        let mut list: Vec<String> = Vec::new();
        list.push(String::from_str("blank"));
        let ghost entries = texts(self.dict@);
        let mut i: usize = 0;
        assert(texts(list@) =~= seq!["blank"@] + entries.take(0));
        while i < self.dict.len()
            invariant
                i <= self.dict.len(),
                entries == texts(self.dict@),
                texts(list@) == seq!["blank"@] + entries.take(i as int),
            decreases self.dict.len() - i,
        {
            let ghost before = list@;
            list.push(String::from_str(self.dict[i].as_str()));
            proof {
                assert(texts(list@) =~= texts(before).push(entries[i as int]));
                assert(texts(list@) =~= seq!["blank"@] + entries.take(i + 1));
            }
            i += 1;
        }
        assert(entries.take(i as int) =~= entries);
        if self.use_space_char {
            let ghost before = list@;
            list.push(String::from_str(" "));
            assert(texts(list@) =~= texts(before).push(" "@));
            assert(texts(list@) =~= character_list(entries, true));
        }
        self.char_list = list;
    }

    /// The width of a batch of lines.
    pub open spec fn target_width(self, crops: Seq<Image>) -> int {
        batch_width(crops, self.rec_image_height as int, self.rec_max_width as int)
    }

    /// Whether all lines are well formed and, if all have pixels, have their places in a batch.
    pub open spec fn can_take_all(self, crops: Seq<Image>) -> bool {
        &&& forall|i: int| 0 <= i < crops.len() ==> (#[trigger] crops[i]).wf()
        &&& none_empty(crops) ==> forall|i: int|
            0 <= i < crops.len() ==> has_place(
                (#[trigger] crops[i])@,
                self.rec_image_height as int,
                self.target_width(crops),
            )
    }

    /// Whether a line is well formed and, if it has pixels, has its place in a batch.
    pub open spec fn can_take(self, line: Image) -> bool {
        self.can_take_all(seq![line])
    }

    /// Whether a batch can be as wide as a line of a ratio.
    pub open spec fn can_be_wide(self, ratio: (int, int)) -> bool {
        3 * (self.rec_image_height * fitted_width(
            self.rec_image_height as int,
            ratio,
            self.rec_max_width as int,
        )) <= usize::MAX
    }

    /// Whether a line of a size has its place in a batch: alone, or with others of which the same
    /// holds. A batch is at least as wide as a square line.
    pub open spec fn can_take_size(self, width: int, height: int) -> bool {
        let ratio = size_ratio(width, height);
        &&& self.can_be_wide(float_of(1, Precision::Single))
        &&& self.can_be_wide(ratio)
        &&& size_fits(
            width,
            height,
            fitted_width(self.rec_image_height as int, ratio, self.rec_max_width as int),
            self.rec_image_height as int,
        )
    }

    fn allows_width(&self, width: usize) -> (r: bool)
        ensures
            r == (3 * (self.rec_image_height * width) <= usize::MAX),
    {
        let (h, w) = (self.rec_image_height, width);
        match h.checked_mul(w) {
            Some(area) => area <= usize::MAX / 3,
            None => false,
        }
    }

    /// Whether a line of a size has its place in a batch.
    pub fn is_readable_size(&self, width: usize, height: usize) -> (r: bool)
        requires
            self.wf(),
            height > 0,
        ensures
            r == self.can_take_size(width as int, height as int),
    {
        let square = width_within(
            self.rec_image_height,
            Magnitude::of(1, Precision::Single),
            self.rec_max_width,
        );
        let own = width_within(self.rec_image_height, ratio_of(width, height), self.rec_max_width);
        self.allows_width(square) && self.allows_width(own) && size_is_fit(width, height, own, self.rec_image_height)
    }

    /// Whether a line has its place in a batch of its own.
    pub fn is_readable(&self, line: &Image) -> (r: bool)
        requires
            self.wf(),
            line.wf(),
        ensures
            r == self.can_take(*line),
    {
        let ghost alone = seq![*line];
        assert(alone[0] == *line);
        if line.is_empty() {
            assert(!none_empty(alone));
            return true;
        }
        proof {
            let _ = lemma_byte_has_place(line@, 0);
            lemma_ratio_alone(*line);
        }
        let one = Magnitude::of(1, Precision::Single);
        let ratio = ratio_of(line.width(), line.height());
        let widest = if one.less_than(ratio) {
            ratio
        } else {
            one
        };
        let target = width_within(self.rec_image_height, widest, self.rec_max_width);
        assert(target == self.target_width(alone));
        let own = width_within(self.rec_image_height, ratio, target);
        let supported = match line.channels() {
            1 | 3 | 4 => true,
            _ => false,
        };
        self.allows_width(target) && (!supported || size_is_fit(
            line.width(),
            line.height(),
            own,
            self.rec_image_height,
        ))
    }

    /// Lines of sizes that have their places in a batch have them together.
    pub proof fn sizes_can_be_taken_together(self, crops: Seq<Image>)
        requires
            forall|i: int|
                0 <= i < crops.len() ==> (#[trigger] crops[i]).wf() && (crops[i]@.data.len() > 0
                    ==> self.can_take_size(crops[i]@.width, crops[i]@.height)),
            self.rec_max_width >= 1,
        ensures
            self.can_take_all(crops),
    {
        let (h, max) = (self.rec_image_height as int, self.rec_max_width as int);
        let target = self.target_width(crops);
        if none_empty(crops) {
            lemma_greatest_ratio(crops);
            assert forall|i: int| 0 <= i < crops.len() implies has_place((#[trigger] crops[i])@, h, target) by {
                let p = crops[i]@;
                assert(self.can_take_size(p.width, p.height));
                if greatest_ratio(crops) != float_of(1, Precision::Single) {
                    let k = choose|k: int|
                        0 <= k < crops.len() && greatest_ratio(crops) == line_ratio((#[trigger] crops[k])@);
                    assert(self.can_take_size(crops[k]@.width, crops[k]@.height));
                }
                let (wide, narrow) = (own_width(p, h, max), own_width(p, h, target));
                assert(narrow <= wide);
                assert(narrow * h <= wide * h) by (nonlinear_arith)
                    requires
                        narrow <= wide,
                        h >= 0,
                ;
            }
        }
    }

    /// The width of a batch of lines.
    fn width_of_batch(&self, crops: &Vec<Image>) -> (r: Result<usize, VisionError>)
        requires
            self.wf(),
            forall|i: int| 0 <= i < crops.len() ==> (#[trigger] crops@[i]).wf(),
        ensures
            none_empty(crops@) ==> r is Ok && r->Ok_0 == self.target_width(crops@) && 1 <= r->Ok_0
                <= self.rec_max_width,
            !none_empty(crops@) ==> fails(r, ErrorKind::Image, "识别行图像为空"@),
    {
        let mut max_ratio = Magnitude::of(1, Precision::Single);
        let mut i: usize = 0;
        assert(crops@.take(0) =~= Seq::<Image>::empty());
        while i < crops.len()
            invariant
                i <= crops.len(),
                forall|i: int| 0 <= i < crops.len() ==> (#[trigger] crops@[i]).wf(),
                forall|k: int| 0 <= k < i ==> (#[trigger] crops@[k])@.data.len() > 0,
                max_ratio@ == greatest_ratio(crops@.take(i as int)),
                is_ordinary(max_ratio@, 400),
            decreases crops.len() - i,
        {
            let crop = &crops[i];
            assert(crops@[i as int].wf());
            if crop.is_empty() {
                assert(crops@[i as int]@.data.len() == 0);
                return Err(VisionError::image(String::from_str("识别行图像为空")));
            }
            proof {
                let _ = lemma_byte_has_place(crop@, 0);
                assert(crops@.take(i + 1).drop_last() =~= crops@.take(i as int));
                assert(crops@.take(i + 1).last() == *crop);
            }
            let ratio = ratio_of(crop.width(), crop.height());
            if max_ratio.less_than(ratio) {
                max_ratio = ratio;
            }
            i += 1;
        }
        assert(crops@.take(i as int) =~= crops@);
        Ok(width_within(self.rec_image_height, max_ratio, self.rec_max_width))
    }

    /// What preparing a batch gives.
    pub open spec fn is_prepared(self, r: Result<(Vec<Option<u8>>, usize), VisionError>, crops: Seq<Image>) -> bool {
        if !none_empty(crops) {
            fails(r, ErrorKind::Image, "识别行图像为空"@)
        } else if exists|i: int| is_first_unsupported(crops, i) {
            exists|i: int| #[trigger]
                is_first_unsupported(crops, i) && fails(r, ErrorKind::Image, channels_message(crops[i]@.channels))
        } else {
            &&& r is Ok
            &&& r->Ok_0.1 == self.target_width(crops)
            &&& is_batch(r->Ok_0.0@, crops, self.rec_image_height as int, self.target_width(crops))
        }
    }

    /// Prepares a batch of lines: each line scaled to the same height, and its values
    /// followed by nothing up to the width of the batch.
    pub fn preprocess_crops(&self, crops: &Vec<Image>) -> (r: Result<(Vec<Option<u8>>, usize), VisionError>)
        requires
            self.wf(),
            self.can_take_all(crops@),
        ensures
            self.is_prepared(r, crops@),
    {
        let height = self.rec_image_height;
        let target = match self.width_of_batch(crops) {
            Ok(target) => target,
            Err(e) => {
                return Err(e);
            },
        };
        let mut batch: Vec<Option<u8>> = Vec::new();
        let ghost mut parts: Seq<Seq<Option<u8>>> = Seq::empty();
        let mut i: usize = 0;
        while i < crops.len()
            invariant
                i <= crops.len(),
                height == self.rec_image_height,
                height >= 1,
                target >= 1,
                target == self.target_width(crops@),
                self.can_take_all(crops@),
                none_empty(crops@),
                forall|k: int| 0 <= k < i ==> has_bgr3((#[trigger] crops@[k])@),
                parts.len() == i,
                are_line_parts(parts, crops@, height as int, target as int),
                batch@ == parts.flatten(),
            decreases crops.len() - i,
        {
            assert(crops@[i as int]@.data.len() > 0);
            assert(has_place(crops@[i as int]@, height as int, target as int));
            let ghost before = batch@;
            match push_line(&mut batch, &crops[i], height, target) {
                Ok(_) => {},
                Err(e) => {
                    assert(is_first_unsupported(crops@, i as int));
                    return Err(e);
                },
            }
            proof {
                let part = choose|part: Seq<Option<u8>>| #[trigger]
                    is_line_part(part, crops@[i as int]@, height as int, target as int) && batch@ == before + part;
                let longer = parts.push(part);
                longer.lemma_flatten_and_flatten_alt_are_equivalent();
                parts.lemma_flatten_and_flatten_alt_are_equivalent();
                assert(longer.drop_last() =~= parts);
                assert(longer.last() == part);
                parts = longer;
            }
            i += 1;
        }
        assert(is_batch(batch@, crops@, height as int, target as int));
        Ok((batch, target))
    }

    /// Decodes the scores of a line, frame by frame. The first class is the blank. `mean` is
    /// the mean of values.
    pub fn ctc_decode<S: Fn(&Vec<Single>) -> Single>(
        &self,
        frames: &Vec<Single>,
        frame_count: usize,
        classes: usize,
        mean: &S,
    ) -> (line: TextLine)
        requires
            frame_count * classes <= frames.len(),
            forall|values: &Vec<Single>| values.len() > 0 ==> call_requires(*mean, (values,)),
        ensures
            is_text_of(line, frames@, classes as int, frame_count as int, texts(self.char_list@), *mean),
    {
        let d = decode(frames, classes, frame_count, 0, &self.char_list);
        proof {
            assert forall|t: int| 0 <= t < d.best.len() implies #[trigger] d.best[t] == 0 || d.best[t] < classes by {
                assert(is_best(row(frames@, classes as int, t), d.best@[t] as int));
                assert((t + 1) * classes == t * classes + classes) by (nonlinear_arith);
                assert(0 <= t * classes && t * classes + classes <= frame_count * classes) by (nonlinear_arith)
                    requires
                        0 <= t < frame_count,
                        classes >= 0,
                ;
            }
        }
        let values = collect_marked(frames, classes, &d.best, 0);
        let score = mean_of_values(&values, mean);
        let line = TextLine { text: String::from_str(d.text.as_str()), score };
        assert(is_mean(line.score, values, *mean));
        line
    }

    /// Reads the answer of the model for a number of lines. `mean` is the mean of values.
    pub fn decode_lines<S: Fn(&Vec<Single>) -> Single>(
        &self,
        output: &TensorOutput,
        lines: usize,
        mean: &S,
    ) -> (r: Result<Vec<TextLine>, VisionError>)
        requires
            output.wf(),
            holds_lines(*output, lines as int),
            forall|values: &Vec<Single>| values.len() > 0 ==> call_requires(*mean, (values,)),
        ensures
            are_read_lines(r, *output, lines as int, texts(self.char_list@), *mean),
    {
        let flat = match output.as_f32() {
            Ok(flat) => flat,
            Err(e) => {
                return Err(e);
            },
        };
        let shape = &output.shape;
        let (frames, classes) = if shape.len() == 3 {
            (shape[1] as usize, shape[2] as usize)
        } else if shape.len() == 2 && lines == 1 {
            (shape[0] as usize, shape[1] as usize)
        } else {
            let mut message = String::from_str("rec 模型期望 [N,T,C] 输出，实际 shape: ");
            push_shape(&mut message, shape);
            return Err(VisionError::inference(message));
        };
        let mut result: Vec<TextLine> = Vec::new();
        let ghost table = texts(self.char_list@);
        let ghost stride = frames * classes;
        let mut b: usize = 0;
        while b < lines
            invariant
                b <= lines,
                output.data is F32,
                *flat == output.data->F32_0,
                rec_layout(*output, lines as int) == Some((frames as int, classes as int)),
                stride == frames * classes,
                lines * stride <= flat.len(),
                table == texts(self.char_list@),
                forall|values: &Vec<Single>| values.len() > 0 ==> call_requires(*mean, (values,)),
                result.len() == b,
                forall|k: int|
                    0 <= k < b ==> is_read_line(#[trigger] result@[k], *output, lines as int, k, table, *mean),
            decreases lines - b,
        {
            proof {
                assert(0 <= stride && b * stride + stride <= lines * stride && (b + 1) * stride == b * stride + stride
                    && 0 <= b * stride && stride <= lines * stride) by (nonlinear_arith)
                    requires
                        0 <= b < lines,
                        stride == frames * classes,
                        frames >= 0,
                        classes >= 0,
                ;
            }
            let count: usize = frames * classes;
            let scores = values_between(flat, b * count, count);
            assert(scores@ =~= line_scores(*output, lines as int, b as int));
            let line = self.ctc_decode(&scores, frames, classes, mean);
            assert(is_read_line(line, *output, lines as int, b as int, table, *mean));
            result.push(line);
            b += 1;
        }
        Ok(result)
    }

    /// What reading cut-out lines gives.
    pub open spec fn are_lines<
        I: Fn(&Vec<Option<u8>>, usize, usize) -> Result<TensorOutput, VisionError>,
        S: Fn(&Vec<Single>) -> Single,
    >(self, r: Result<Vec<TextLine>, VisionError>, crops: Seq<Image>, calls: ReadCalls<I, S>) -> bool {
        if crops.len() == 0 {
            r is Ok && r->Ok_0.len() == 0
        } else {
            exists|prepared: Result<(Vec<Option<u8>>, usize), VisionError>| #[trigger]
                self.is_prepared(prepared, crops) && match prepared {
                    Err(e) => r is Err && r->Err_0 == e,
                    Ok((batch, width)) => exists|reply: Result<TensorOutput, VisionError>| #[trigger]
                        call_ensures(calls.infer, (&batch, crops.len() as usize, width), reply) && match reply {
                            Err(e) => r is Err && r->Err_0 == e,
                            Ok(output) => are_read_lines(
                                r,
                                output,
                                crops.len() as int,
                                texts(self.char_list@),
                                calls.mean,
                            ),
                        },
                }
        }
    }

    /// Reads cut-out lines in one batch.
    pub fn recognize_crops<
        I: Fn(&Vec<Option<u8>>, usize, usize) -> Result<TensorOutput, VisionError>,
        S: Fn(&Vec<Single>) -> Single,
    >(&self, crops: &Vec<Image>, calls: &ReadCalls<I, S>) -> (r: Result<Vec<TextLine>, VisionError>)
        requires
            self.wf(),
            self.can_take_all(crops@),
            calls.are_callable(),
        ensures
            self.are_lines(r, crops@, *calls),
    {
        if crops.len() == 0 {
            return Ok(Vec::new());
        }
        let prepared = self.preprocess_crops(crops);
        let ghost ready = prepared;
        assert(self.is_prepared(ready, crops@));
        let (batch, width) = match prepared {
            Ok(pair) => pair,
            Err(e) => {
                return Err(e);
            },
        };
        let reply = (calls.infer)(&batch, crops.len(), width);
        let ghost answered = reply;
        assert(call_ensures(calls.infer, (&batch, crops.len(), width), answered));
        assert(ready == Ok::<(Vec<Option<u8>>, usize), VisionError>((batch, width)));
        match reply {
            Ok(output) => self.decode_lines(&output, crops.len(), &calls.mean),
            Err(e) => Err(e),
        }
    }

    /// What reading one cut-out line gives: the first of the lines read.
    pub open spec fn is_line<
        I: Fn(&Vec<Option<u8>>, usize, usize) -> Result<TensorOutput, VisionError>,
        S: Fn(&Vec<Single>) -> Single,
    >(self, r: Result<TextLine, VisionError>, line: Picture, calls: ReadCalls<I, S>) -> bool {
        exists|crops: Seq<Image>, lines: Result<Vec<TextLine>, VisionError>|
            #![trigger self.are_lines(lines, crops, calls)]
            crops.len() == 1 && crops[0]@ == line && self.are_lines(lines, crops, calls) && match lines {
                Err(e) => r is Err && r->Err_0 == e,
                Ok(lines) => r is Ok && r->Ok_0 == lines@[0],
            }
    }

    fn recognize_one<
        I: Fn(&Vec<Option<u8>>, usize, usize) -> Result<TensorOutput, VisionError>,
        S: Fn(&Vec<Single>) -> Single,
    >(&self, line: Image, calls: &ReadCalls<I, S>) -> (r: Result<TextLine, VisionError>)
        requires
            self.wf(),
            self.can_take(line),
            calls.are_callable(),
        ensures
            self.is_line(r, line@, *calls),
    {
        let ghost alone = seq![line];
        let mut crops: Vec<Image> = Vec::new();
        crops.push(line);
        assert(crops@ =~= alone);
        let read = self.recognize_crops(&crops, calls);
        let ghost lines = read;
        assert(self.are_lines(lines, crops@, *calls));
        match read {
            Ok(mut list) => {
                let first = list.remove(0);
                Ok(first)
            },
            Err(e) => Err(e),
        }
    }

    /// Reads one cut-out line.
    pub fn recognize_line<
        I: Fn(&Vec<Option<u8>>, usize, usize) -> Result<TensorOutput, VisionError>,
        S: Fn(&Vec<Single>) -> Single,
    >(&self, line: &Image, calls: &ReadCalls<I, S>) -> (r: Result<TextLine, VisionError>)
        requires
            self.wf(),
            self.can_take(*line),
            calls.are_callable(),
        ensures
            self.is_line(r, line@, *calls),
    {
        let copy = line.clone();
        proof {
            lemma_ratio_alone(*line);
            lemma_ratio_alone(copy);
            assert(seq![*line][0] == *line && seq![copy][0] == copy);
            assert(none_empty(seq![copy]) ==> none_empty(seq![*line]));
        }
        self.recognize_one(copy, calls)
    }

    /// Whether the lines that are cut out can be scaled into a batch.
    pub open spec fn can_take_lines<
        E: Fn(&TextRegion) -> LineMeasure,
        L: Fn(&TextRegion, LineSpot) -> Option<(usize, usize)>,
        B: Fn(&TextRegion, LineSpot, Surroundings) -> u8,
    >(self, lines: LineCalls<E, L, B>) -> bool {
        forall|region: &TextRegion, m: LineMeasure| #[trigger]
            call_ensures(lines.measure, (region,), m) ==> self.can_take_size(m.line_width(), m.line_height())
    }

    /// Reads one region of an image.
    pub fn recognize<
        E: Fn(&TextRegion) -> LineMeasure,
        L: Fn(&TextRegion, LineSpot) -> Option<(usize, usize)>,
        B: Fn(&TextRegion, LineSpot, Surroundings) -> u8,
        I: Fn(&Vec<Option<u8>>, usize, usize) -> Result<TensorOutput, VisionError>,
        S: Fn(&Vec<Single>) -> Single,
    >(&self, image: &Image, region: &TextRegion, lines: &LineCalls<E, L, B>, calls: &ReadCalls<I, S>) -> (r: Result<
        TextLine,
        VisionError,
    >)
        requires
            self.wf(),
            image.wf(),
            image@.channels >= 1,
            lines.are_callable(image@),
            self.can_take_lines(*lines),
            calls.are_callable(),
        ensures
            exists|cut: Image| #[trigger] is_cut_line(cut, image@, region, lines) && self.is_line(r, cut@, *calls),
    {
        let cut = crop_region(image, region, lines);
        let ghost line = cut;
        proof {
            self.sizes_can_be_taken_together(seq![cut]);
        }
        let r = self.recognize_one(cut, calls);
        assert(is_cut_line(line, image@, region, lines) && self.is_line(r, line@, *calls));
        r
    }

    /// Whether `crops` are what is cut out for the regions.
    pub open spec fn are_cut<
        E: Fn(&TextRegion) -> LineMeasure,
        L: Fn(&TextRegion, LineSpot) -> Option<(usize, usize)>,
        B: Fn(&TextRegion, LineSpot, Surroundings) -> u8,
    >(crops: Seq<Image>, image: Picture, regions: Seq<TextRegion>, lines: LineCalls<E, L, B>) -> bool {
        &&& crops.len() == regions.len()
        &&& forall|i: int|
            0 <= i < crops.len() ==> is_cut_line(#[trigger] crops[i], image, &regions[i], &lines)
    }

    /// What reading the regions of an image gives.
    pub open spec fn is_batch_reading<
        E: Fn(&TextRegion) -> LineMeasure,
        L: Fn(&TextRegion, LineSpot) -> Option<(usize, usize)>,
        B: Fn(&TextRegion, LineSpot, Surroundings) -> u8,
        I: Fn(&Vec<Option<u8>>, usize, usize) -> Result<TensorOutput, VisionError>,
        S: Fn(&Vec<Single>) -> Single,
    >(
        self,
        r: Result<Vec<TextLine>, VisionError>,
        image: Picture,
        regions: Seq<TextRegion>,
        lines: LineCalls<E, L, B>,
        calls: ReadCalls<I, S>,
    ) -> bool {
        exists|crops: Seq<Image>| #[trigger]
            OcrRecognizer::are_cut(crops, image, regions, lines) && self.are_lines(r, crops, calls)
    }

    /// Reads regions of an image in one batch.
    pub fn recognize_batch<
        E: Fn(&TextRegion) -> LineMeasure,
        L: Fn(&TextRegion, LineSpot) -> Option<(usize, usize)>,
        B: Fn(&TextRegion, LineSpot, Surroundings) -> u8,
        I: Fn(&Vec<Option<u8>>, usize, usize) -> Result<TensorOutput, VisionError>,
        S: Fn(&Vec<Single>) -> Single,
    >(&self, image: &Image, regions: &Vec<TextRegion>, lines: &LineCalls<E, L, B>, calls: &ReadCalls<I, S>) -> (r: Result<
        Vec<TextLine>,
        VisionError,
    >)
        requires
            self.wf(),
            image.wf(),
            regions.len() > 0 ==> image@.channels >= 1,
            lines.are_callable(image@),
            self.can_take_lines(*lines),
            calls.are_callable(),
        ensures
            self.is_batch_reading(r, image@, regions@, *lines, *calls),
    {
        let mut crops: Vec<Image> = Vec::new();
        let mut i: usize = 0;
        while i < regions.len()
            invariant
                image.wf(),
                regions.len() > 0 ==> image@.channels >= 1,
                lines.are_callable(image@),
                self.can_take_lines(*lines),
                i <= regions.len(),
                crops.len() == i,
                forall|k: int|
                    0 <= k < i ==> is_cut_line(#[trigger] crops@[k], image@, &regions@[k], lines) && self.can_take_size(
                        crops@[k]@.width,
                        crops@[k]@.height,
                    ),
            decreases regions.len() - i,
        {
            let cut = crop_region(image, &regions[i], lines);
            crops.push(cut);
            i += 1;
        }
        assert(OcrRecognizer::are_cut(crops@, image@, regions@, *lines));
        proof {
            self.sizes_can_be_taken_together(crops@);
        }
        self.recognize_crops(&crops, calls)
    }
}

/// A line is read from its own scores, those behind the scores of the lines before it. In each
/// frame the class with the greatest score is taken, the first of equal ones. The text is that
/// of the frames that are not blank and differ from the frame before, and the score is the mean
/// of the greatest scores of all frames that are not blank, zero if there are none. The blank is
/// the first class.
pub proof fn lines_are_read_from_their_own_scores<S: Fn(&Vec<Single>) -> Single>(
    line: TextLine,
    output: TensorOutput,
    lines: int,
    b: int,
    table: Seq<Seq<char>>,
    mean: S,
    t: int,
    c: int,
) -> (r: (Decoding, Vec<Single>, Seq<int>))
    requires
        output.wf(),
        rec_complaint(output, lines) is None,
        holds_lines(output, lines),
        0 <= b < lines,
        is_read_line(line, output, lines, b, table, mean),
        0 <= t < output.shape@[output.shape@.len() - 2],
        0 <= c < output.shape@[output.shape@.len() - 1],
    ensures
        output.shape@.len() == 3 || output.shape@.len() == 2 && lines == 1,
        ({
            let (d, averaged, at) = r;
            let n = output.shape@.len() as int;
            let (frames, classes) = (output.shape@[n - 2] as int, output.shape@[n - 1] as int);
            let scores = output.data->F32_0@;
            let first = b * (frames * classes);
            let here = scores[first + (t * classes + c)];
            let taken = scores[first + (t * classes + d.best@[t])];
            &&& d.best@.len() == frames
            &&& 0 <= d.best@[t] < classes
            &&& here.greater(Single { bits: 0xff7f_ffff }) ==> !here.greater(taken) && (c < d.best@[t]
                ==> taken.greater(here))
            &&& line.text@ == Seq::new(d.kept@.len(), |k: int| table[d.best@[d.kept@[k] as int] as int]).flatten()
            &&& d.best@[t] != 0 && d.best@[t] < table.len() && (t > 0 ==> d.best@[t - 1] != d.best@[t])
                <==> d.kept@.contains(t as usize)
            &&& forall|i: int, j: int| 0 <= i < j < d.kept.len() ==> #[trigger] d.kept@[i] < #[trigger] d.kept@[j]
            &&& averaged.len() == at.len()
            &&& forall|k: int|
                0 <= k < at.len() ==> 0 <= #[trigger] at[k] < frames && d.best@[at[k]] != 0 && averaged@[k]
                    == scores[first + (at[k] * classes + d.best@[at[k]])]
            &&& forall|i: int, j: int| 0 <= i < j < at.len() ==> #[trigger] at[i] < #[trigger] at[j]
            &&& d.best@[t] != 0 ==> at.contains(t)
            &&& if averaged.len() == 0 {
                line.score.bits == 0
            } else {
                call_ensures(mean, (&averaged,), line.score)
            }
        }),
{
    let n = output.shape@.len() as int;
    let (frames, classes) = (output.shape@[n - 2] as int, output.shape@[n - 1] as int);
    assert(rec_layout(output, lines) == Some((frames, classes)));
    let scores = output.data->F32_0@;
    let own = line_scores(output, lines, b);
    let stride = frames * classes;
    let first = b * stride;
    assert(0 <= stride && 0 <= first && (b + 1) * stride == first + stride && first + stride <= lines * stride)
        by (nonlinear_arith)
        requires
            0 <= b < lines,
            stride == frames * classes,
            frames >= 0,
            classes >= 0,
            first == b * stride,
    ;
    let (d, averaged) = choose|d: Decoding, values: Vec<Single>|
        #![trigger is_decoding(d, own, classes, frames, 0, table), is_mean(line.score, values, mean)]
        {
            &&& is_decoding(d, own, classes, frames, 0, table)
            &&& line.text@ == d.text@
            &&& values@ == marked_scores(own, classes, d.best@, 0)
            &&& is_mean(line.score, values, mean)
        };
    assert(own.len() == stride);
    taken_class_has_the_greatest_score(d, own, classes, frames, 0, table, t, c);
    text_is_that_of_new_characters(d, own, classes, frames, 0, table);
    let at = averaged_scores_are_those_of_marked_frames(own, classes, d.best@, 0);
    assert forall|u: int, k: int| 0 <= u < frames && 0 <= k < classes implies #[trigger] own[u * classes + k]
        == scores[first + (u * classes + k)] by {
        lemma_inside_line(u, k, frames, classes);
    }
    lemma_inside_line(t, c, frames, classes);
    lemma_inside_line(t, d.best@[t] as int, frames, classes);
    assert(own[t * classes + c] == scores[first + (t * classes + c)]);
    assert(own[t * classes + d.best@[t]] == scores[first + (t * classes + d.best@[t])]);
    assert forall|k: int| 0 <= k < at.len() implies 0 <= #[trigger] at[k] < frames && d.best@[at[k]] != 0
        && averaged@[k] == scores[first + (at[k] * classes + d.best@[at[k]])] by {
        taken_class_has_the_greatest_score(d, own, classes, frames, 0, table, at[k], c);
        assert(own[at[k] * classes + d.best@[at[k]] as int] == scores[first + (at[k] * classes + d.best@[at[k]] as int)]);
    }
    if d.kept@.contains(t as usize) {
        let k = choose|k: int| 0 <= k < d.kept@.len() && d.kept@[k] == t as usize;
        assert(d.kept@[k] < frames);
        assert(d.kept@[k] as int == t);
    }
    (d, averaged, at)
}

proof fn lemma_inside_line(t: int, c: int, frames: int, classes: int)
    requires
        0 <= t < frames,
        0 <= c < classes,
    ensures
        0 <= t * classes + c < frames * classes,
{
    assert(0 <= t * classes + c < frames * classes) by (nonlinear_arith)
        requires
            0 <= t < frames,
            0 <= c < classes,
    ;
}

/// The first class has no character of the dictionary; then the entries of the dictionary follow
/// in order, and a space comes last if it is wanted.
pub proof fn classes_follow_the_dictionary(dict: Seq<Seq<char>>, use_space_char: bool, i: int)
    requires
        0 <= i < dict.len(),
    ensures
        character_list(dict, use_space_char).len() == dict.len() + if use_space_char {
            2int
        } else {
            1int
        },
        character_list(dict, use_space_char)[i + 1] == dict[i],
        use_space_char ==> character_list(dict, use_space_char).last() == seq![' '],
{
    reveal_strlit(" ");
    assert(" "@ =~= seq![' ']);
}

/// The entries of a dictionary are its lines up to the last one that is not empty.
pub proof fn entries_end_with_the_last_line_that_is_not_empty(content: Seq<char>)
    ensures
        entries_of(content).len() <= lines_of(content).len(),
        entries_of(content) == lines_of(content).take(entries_of(content).len() as int),
        entries_of(content).len() > 0 ==> entries_of(content).last().len() > 0,
        forall|i: int|
            entries_of(content).len() <= i < lines_of(content).len() ==> (#[trigger] lines_of(content)[i]).len() == 0,
{
    lemma_trimmed(lines_of(content));
}

proof fn lemma_trimmed(lines: Seq<Seq<char>>)
    ensures
        trimmed(lines).len() <= lines.len(),
        trimmed(lines) == lines.take(trimmed(lines).len() as int),
        trimmed(lines).len() > 0 ==> trimmed(lines).last().len() > 0,
        forall|i: int| trimmed(lines).len() <= i < lines.len() ==> (#[trigger] lines[i]).len() == 0,
    decreases lines.len(),
{
    if lines.len() > 0 && lines.last().len() == 0 {
        let shorter = lines.drop_last();
        lemma_trimmed(shorter);
        assert(lines.take(trimmed(lines).len() as int) =~= shorter.take(trimmed(lines).len() as int));
        assert forall|i: int| trimmed(lines).len() <= i < lines.len() implies (#[trigger] lines[i]).len() == 0 by {
            if i < shorter.len() {
                assert(shorter[i] == lines[i]);
            }
        }
    } else {
        assert(lines.take(lines.len() as int) =~= lines);
    }
}

/// A batch is not narrower than any of its lines asks for, nor than a square line: its ratio is
/// not less than theirs. It is no wider than that, either: its ratio is one, or that of a line.
pub proof fn batches_are_as_wide_as_the_widest_line(crops: Seq<Image>, k: int)
    requires
        forall|i: int|
            0 <= i < crops.len() ==> 0 < (#[trigger] crops[i])@.width <= usize::MAX && 0 < crops[i]@.height
                <= usize::MAX,
        0 <= k < crops.len(),
    ensures
        !is_less(greatest_ratio(crops), line_ratio(crops[k]@)),
        !is_less(greatest_ratio(crops), float_of(1, Precision::Single)),
        greatest_ratio(crops) == float_of(1, Precision::Single) || exists|j: int|
            0 <= j < crops.len() && greatest_ratio(crops) == line_ratio((#[trigger] crops[j])@),
{
    lemma_greatest_ratio(crops);
    lemma_not_below(crops);
    assert(!is_less(greatest_ratio(crops), line_ratio(crops[k]@)));
}

/// No ratio is above the greatest one.
proof fn lemma_not_below(crops: Seq<Image>)
    requires
        forall|i: int|
            0 <= i < crops.len() ==> 0 < (#[trigger] crops[i])@.width <= usize::MAX && 0 < crops[i]@.height
                <= usize::MAX,
    ensures
        forall|i: int| 0 <= i < crops.len() ==> !is_less(greatest_ratio(crops), line_ratio((#[trigger] crops[i])@)),
        !is_less(greatest_ratio(crops), float_of(1, Precision::Single)),
        greatest_ratio(crops).1 >= -4000,
    decreases crops.len(),
{
    let one = float_of(1, Precision::Single);
    lemma_whole(1, Precision::Single);
    lemma_less_in_units(one, one);
    if crops.len() > 0 {
        let shorter = crops.drop_last();
        assert forall|i: int| 0 <= i < shorter.len() implies 0 < (#[trigger] shorter[i])@.width <= usize::MAX && 0
            < shorter[i]@.height <= usize::MAX by {
            assert(shorter[i] == crops[i]);
        }
        lemma_not_below(shorter);
        let last = crops[crops.len() - 1]@;
        let (before, ratio, all) = (greatest_ratio(shorter), line_ratio(last), greatest_ratio(crops));
        lemma_ratio_exponent(last.width, last.height);
        lemma_less_in_units(before, ratio);
        lemma_less_in_units(ratio, before);
        lemma_less_in_units(ratio, ratio);
        assert(!is_less(all, before) && !is_less(all, ratio));
        lemma_ordered(one, before, all);
        assert forall|i: int| 0 <= i < crops.len() implies !is_less(all, line_ratio((#[trigger] crops[i])@)) by {
            if i < shorter.len() {
                assert(shorter[i] == crops[i]);
                lemma_ratio_exponent(crops[i]@.width, crops[i]@.height);
                lemma_ordered(line_ratio(crops[i]@), before, all);
            }
        }
    }
}

/// The exponent of a ratio.
proof fn lemma_ratio_exponent(width: int, height: int)
    requires
        0 < width <= usize::MAX,
        0 < height <= usize::MAX,
    ensures
        size_ratio(width, height).1 >= -4000,
{
    lemma_whole(width, Precision::Single);
    lemma_whole(height, Precision::Single);
    lemma_quotient_value(float_of(width, Precision::Single), float_of(height, Precision::Single), Precision::Single);
}

/// Lines are read together: the model is asked once, with the batch of all of them, their number
/// and the width of the batch. Each cut-out line has its own text, in the order of the lines.
pub proof fn lines_are_read_in_one_batch<
    I: Fn(&Vec<Option<u8>>, usize, usize) -> Result<TensorOutput, VisionError>,
    S: Fn(&Vec<Single>) -> Single,
>(recognizer: OcrRecognizer, read: Vec<TextLine>, crops: Seq<Image>, calls: ReadCalls<I, S>) -> (r: (
    Vec<Option<u8>>,
    usize,
    TensorOutput,
))
    requires
        recognizer.are_lines(Ok(read), crops, calls),
    ensures
        read.len() == crops.len(),
        crops.len() > 0 ==> {
            let (batch, width, output) = r;
            &&& is_batch(batch@, crops, recognizer.rec_image_height as int, width as int)
            &&& width == batch_width(crops, recognizer.rec_image_height as int, recognizer.rec_max_width as int)
            &&& call_ensures(calls.infer, (&batch, crops.len() as usize, width), Ok(output))
            &&& output.data is F32
            &&& output.shape.len() == 3 || output.shape.len() == 2 && crops.len() == 1
            &&& forall|b: int|
                0 <= b < crops.len() ==> is_read_line(
                    #[trigger] read@[b],
                    output,
                    crops.len() as int,
                    b,
                    texts(recognizer.char_list@),
                    calls.mean,
                )
        },
{
    let result: Result<Vec<TextLine>, VisionError> = Ok(read);
    if crops.len() == 0 {
        (arbitrary(), 0, arbitrary())
    } else {
        let prepared = choose|prepared: Result<(Vec<Option<u8>>, usize), VisionError>| #[trigger]
            recognizer.is_prepared(prepared, crops) && match prepared {
                Err(e) => result is Err && result->Err_0 == e,
                Ok((batch, width)) => exists|reply: Result<TensorOutput, VisionError>| #[trigger]
                    call_ensures(calls.infer, (&batch, crops.len() as usize, width), reply) && match reply {
                        Err(e) => result is Err && result->Err_0 == e,
                        Ok(output) => are_read_lines(
                            result,
                            output,
                            crops.len() as int,
                            texts(recognizer.char_list@),
                            calls.mean,
                        ),
                    },
            };
        let (batch, width) = prepared->Ok_0;
        let reply = choose|reply: Result<TensorOutput, VisionError>| #[trigger]
            call_ensures(calls.infer, (&batch, crops.len() as usize, width), reply) && match reply {
                Err(e) => result is Err && result->Err_0 == e,
                Ok(output) => are_read_lines(
                    result,
                    output,
                    crops.len() as int,
                    texts(recognizer.char_list@),
                    calls.mean,
                ),
            };
        (batch, width, reply->Ok_0)
    }
}

/// A line keeps its proportions: its width in a batch is the smallest integer that is not below
/// what its size and the height of the batch ask for, up to the rounding of the ratio, unless that
/// is more than the limit or less than one.
pub proof fn lines_keep_their_proportions(p: Picture, height: int, limit: int)
    requires
        0 < p.width <= u64::MAX,
        0 < p.height <= u64::MAX,
        0 < height <= u64::MAX,
        1 <= limit < usize::MAX,
    ensures
        ({
            let (n, asked) = (fitted_width(height, line_ratio(p), limit), height * p.width);
            &&& 1 <= n <= limit
            &&& n == limit || asked * (SINGLE_PARTS - 6) <= n * p.height * SINGLE_PARTS
            &&& n == 1 || (n - 1) * p.height * SINGLE_PARTS <= asked * (SINGLE_PARTS + 6)
        }),
{
    let x = product(float_of(height, Precision::Single), line_ratio(p), Precision::Single);
    lemma_proportion(height, p.width, p.height);
    lemma_whole_in_units(x);
    lemma_unit_step(0, 0);
    let (l, o, v, n, b) = (SINGLE_PARTS as int, unit(0), value(x), ceil_of(x), p.height);
    let y = height * p.width;
    let k = b * l;
    assert(k > 0) by (nonlinear_arith)
        requires
            k == b * l,
            b > 0,
            l > 0,
    ;
    assert(v * k == v * b * l) by (nonlinear_arith)
        requires
            k == b * l,
    ;
    assert((y * (l - 6)) * o <= (n * k) * o) by {
        assert((n * o) * k >= v * k) by (nonlinear_arith)
            requires
                n * o >= v,
                k > 0,
        ;
        assert((n * o) * k == (n * k) * o) by (nonlinear_arith);
        assert(y * o * (l - 6) == (y * (l - 6)) * o) by (nonlinear_arith);
    }
    lemma_cancel(y * (l - 6), n * k, o);
    assert(((n - 1) * k) * o <= (y * (l + 6)) * o) by {
        assert(((n - 1) * o) * k <= v * k) by (nonlinear_arith)
            requires
                (n - 1) * o <= v,
                k > 0,
        ;
        assert(((n - 1) * o) * k == ((n - 1) * k) * o) by (nonlinear_arith);
        assert(y * o * (l + 6) == (y * (l + 6)) * o) by (nonlinear_arith);
    }
    lemma_cancel((n - 1) * k, y * (l + 6), o);
    let f = fitted_width(height, line_ratio(p), limit);
    assert(f * b * l == f * k) by (nonlinear_arith)
        requires
            k == b * l,
    ;
    assert((f - 1) * b * l == (f - 1) * k) by (nonlinear_arith)
        requires
            k == b * l,
    ;
    lemma_positive_value(x);
    assert(n >= 1) by (nonlinear_arith)
        requires
            n * o >= v,
            v > 0,
            o > 0,
    ;
    assert((f - 1) * k <= (n - 1) * k) by (nonlinear_arith)
        requires
            f <= n,
            k > 0,
    ;
    if f != limit {
        assert(f * k >= n * k) by (nonlinear_arith)
            requires
                f >= n,
                k > 0,
        ;
    }
}

} // verus!
