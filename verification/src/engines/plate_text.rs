//! Reading the text of a plate.

use vstd::prelude::*;

use crate::engines::ctc::{adds_character, decode, decoded_text, is_decoding, is_mean, kept_frames, lemma_kept_are_frames,
    mean_of_values, row, taken_class_has_the_greatest_score, text_is_that_of_new_characters, Decoding};
use crate::error::{fails, ErrorKind, VisionError};
use crate::ieee::Single;
use crate::runtime::tensor::TensorOutput;
use crate::text::{decimal, push_decimal, push_shape, shape_text, texts};

verus! {

/// The characters of Chinese plates: provinces, digits, letters, and a dash in the place
/// of the blank.
pub const LPR_CHARS: &'static str =
    "京沪津渝冀晋蒙辽吉黑苏浙皖闽赣鲁豫鄂湘粤桂琼川贵云藏陕甘青宁新0123456789ABCDEFGHJKLMNPQRSTUVWXYZIO-";

/// The number of classes.
pub const LPR_CLASSES: usize = 68;

/// The characters, one by one.
pub open spec fn plate_table() -> Seq<Seq<char>> {
    Seq::new(68, |i: int| seq![LPR_CHARS@[i]])
}

/// The characters, one by one.
pub fn plate_characters() -> (table: Vec<String>)
    ensures
        texts(table@) == plate_table(),
{
    proof {
        reveal_strlit(
            "京沪津渝冀晋蒙辽吉黑苏浙皖闽赣鲁豫鄂湘粤桂琼川贵云藏陕甘青宁新0123456789ABCDEFGHJKLMNPQRSTUVWXYZIO-",
        );
    }
    let mut table: Vec<String> = Vec::new();
    let mut i: usize = 0;
    while i < LPR_CLASSES
        invariant
            i <= 68,
            LPR_CHARS@.len() == 68,
            table.len() == i,
            forall|k: int| 0 <= k < i ==> #[trigger] table@[k]@ == seq![LPR_CHARS@[k]],
        decreases 68 - i,
    {
        let part = LPR_CHARS.substring_char(i, i + 1);
        assert(part@ =~= seq![LPR_CHARS@[i as int]]);
        table.push(String::from_str(part));
        i += 1;
    }
    assert(texts(table@) =~= plate_table());
    table
}

/// Decodes the scores of a plate, frame by frame. The last class is the blank.
pub fn ctc_decode(frames: &Vec<Single>, classes: usize, frame_count: usize) -> (d: Decoding)
    requires
        classes >= 1,
        frame_count * classes <= frames.len(),
    ensures
        is_decoding(d, frames@, classes as int, frame_count as int, classes - 1, plate_table()),
{
    let table = plate_characters();
    decode(frames, classes, frame_count, classes - 1, &table)
}

/// The number of frames of an output, and whether all scores of a class stand together,
/// if one of its dimensions is that of the classes.
pub open spec fn plate_layout(output: TensorOutput) -> Option<(int, bool)> {
    let n = output.shape.len();
    if n == 3 && output.dim(1) == 68 {
        Some((output.dim(2), true))
    } else if n == 3 && output.dim(2) == 68 {
        Some((output.dim(1), false))
    } else if n == 2 && output.dim(0) == 68 {
        Some((output.dim(1), true))
    } else if n == 2 && output.dim(1) == 68 {
        Some((output.dim(0), false))
    } else {
        None
    }
}

/// The scores frame by frame.
pub open spec fn frame_major(flat: Seq<Single>, frames: int, class_major: bool) -> Seq<Single> {
    if class_major {
        Seq::new((frames * 68) as nat, |n: int| flat[(n % 68) * frames + n / 68])
    } else {
        flat
    }
}

/// The message on what is wrong with the output, if anything is.
pub open spec fn plate_complaint(output: TensorOutput) -> Option<Seq<char>> {
    if !(output.data is F32) {
        Some("output tensor is not f32"@)
    } else {
        match plate_layout(output) {
            None => Some("LPRNet 期望输出含 68 类别维（如 [68,T]），实际 shape: "@ + shape_text(output.shape@)),
            Some((frames, _)) => if output.values().len() < 68 * frames {
                Some(
                    "LPRNet 输出元素数 "@ + decimal(output.values().len()) + " < 68x"@ + decimal(frames as nat),
                )
            } else {
                None
            },
        }
    }
}

/// The scores of a plate and what they say.
#[derive(Debug)]
pub struct PlateReading {
    /// The scores, frame by frame, with one value for each class.
    pub scores: Vec<Single>,
    /// The decoded characters.
    pub decoding: Decoding,
}

impl PlateReading {
    /// Whether there are scores for each frame, and the kept frames are frames.
    pub open spec fn wf(self) -> bool {
        &&& self.decoding.best.len() * 68 <= self.scores.len()
        &&& forall|k: int| 0 <= k < self.decoding.kept.len() ==> #[trigger] self.decoding.kept[k] < self.decoding.best.len()
    }
}

/// Whether a value is the probability of the best class of a frame.
pub open spec fn is_probability<P: Fn(&Vec<Single>, usize) -> Single>(
    value: Single,
    reading: PlateReading,
    t: int,
    probability: P,
) -> bool {
    exists|scores: Vec<Single>| #[trigger]
        call_ensures(probability, (&scores, reading.decoding.best@[t]), value) && scores@ == row(
            reading.scores@,
            68,
            t,
        )
}

/// Whether a score is that of a reading: the mean probability of the frames that added a
/// character, zero if there are none.
pub open spec fn is_reading_score<P: Fn(&Vec<Single>, usize) -> Single, M: Fn(&Vec<Single>) -> Single>(
    score: Single,
    reading: PlateReading,
    probability: P,
    mean: M,
) -> bool {
    exists|values: Vec<Single>| #[trigger]
        is_mean(score, values, mean) && values.len() == reading.decoding.kept.len() && forall|k: int|
            0 <= k < values.len() ==> is_probability(
                #[trigger] values@[k],
                reading,
                reading.decoding.kept@[k] as int,
                probability,
            )
}

/// The score of a reading. `probability` is that of a class among the scores of a frame, and
/// `mean` is the mean of values.
pub fn reading_score<P: Fn(&Vec<Single>, usize) -> Single, M: Fn(&Vec<Single>) -> Single>(
    reading: &PlateReading,
    probability: &P,
    mean: &M,
) -> (score: Single)
    requires
        reading.wf(),
        forall|scores: &Vec<Single>, class: usize| call_requires(*probability, (scores, class)),
        forall|values: &Vec<Single>| values.len() > 0 ==> call_requires(*mean, (values,)),
    ensures
        is_reading_score(score, *reading, *probability, *mean),
{
    let kept = &reading.decoding.kept;
    let mut values: Vec<Single> = Vec::new();
    let mut k: usize = 0;
    while k < kept.len()
        invariant
            reading.wf(),
            *kept == reading.decoding.kept,
            forall|scores: &Vec<Single>, class: usize| call_requires(*probability, (scores, class)),
            k <= kept.len(),
            values.len() == k,
            forall|j: int|
                0 <= j < k ==> is_probability(#[trigger] values@[j], *reading, kept@[j] as int, *probability),
        decreases kept.len() - k,
    {
        let t: usize = kept[k];
        let scores = frame_scores(&reading.scores, t);
        let value = probability(&scores, reading.decoding.best[t]);
        assert(call_ensures(*probability, (&scores, reading.decoding.best@[t as int]), value));
        assert(is_probability(value, *reading, t as int, *probability));
        values.push(value);
        k += 1;
    }
    let score = mean_of_values(&values, mean);
    assert(is_mean(score, values, *mean));
    score
}

/// The scores of one frame.
fn frame_scores(scores: &Vec<Single>, t: usize) -> (out: Vec<Single>)
    requires
        (t + 1) * 68 <= scores.len(),
    ensures
        out@ == row(scores@, 68, t as int),
{
    let mut out: Vec<Single> = Vec::new();
    let mut c: usize = 0;
    while c < 68
        invariant
            c <= 68,
            (t + 1) * 68 <= scores.len(),
            out@ == scores@.subrange(t * 68, t * 68 + c),
        decreases 68 - c,
    {
        out.push(scores[t * 68 + c]);
        assert(out@ =~= scores@.subrange(t * 68, t * 68 + (c + 1)));
        c += 1;
    }
    out
}

/// Whether a reading is that of an output.
pub open spec fn is_plate_reading(reading: PlateReading, output: TensorOutput) -> bool {
    let (frames, class_major) = plate_layout(output)->0;
    &&& reading.scores@ == frame_major(output.values(), frames, class_major)
    &&& is_decoding(reading.decoding, reading.scores@, 68, frames, 67, plate_table())
}

fn to_frame_major(flat: &Vec<Single>, frames: usize) -> (out: Vec<Single>)
    requires
        68 * frames <= flat.len(),
    ensures
        out@ == frame_major(flat@, frames as int, true),
{
    let mut out: Vec<Single> = Vec::new();
    let mut t: usize = 0;
    while t < frames
        invariant
            t <= frames,
            68 * frames <= flat.len(),
            out.len() == t * 68,
            forall|n: int| 0 <= n < out.len() ==> #[trigger] out@[n] == flat@[(n % 68) * frames + n / 68],
        decreases frames - t,
    {
        let mut c: usize = 0;
        while c < 68
            invariant
                c <= 68,
                t < frames,
                68 * frames <= flat.len(),
                out.len() == t * 68 + c,
                forall|n: int| 0 <= n < out.len() ==> #[trigger] out@[n] == flat@[(n % 68) * frames + n / 68],
            decreases 68 - c,
        {
            let ghost before = out@;
            assert(0 <= c * frames && c * frames + t < 68 * frames) by (nonlinear_arith)
                requires
                    0 <= c < 68,
                    0 <= t < frames,
            ;
            out.push(flat[c * frames + t]);
            proof {
                let n = t * 68 + c;
                assert(n % 68 == c && n / 68 == t);
                assert forall|k: int| 0 <= k < out.len() implies #[trigger] out@[k] == flat@[(k % 68) * frames + k
                    / 68] by {
                    if k < before.len() {
                        assert(out@[k] == before[k]);
                    }
                }
            }
            c += 1;
        }
        t += 1;
    }
    assert(out@ =~= frame_major(flat@, frames as int, true));
    out
}

/// Reads the output of the recognition model.
pub fn read_plate(output: &TensorOutput) -> (r: Result<PlateReading, VisionError>)
    requires
        output.wf(),
    ensures
        plate_complaint(*output) is Some ==> fails(r, ErrorKind::Inference, plate_complaint(*output)->0),
        plate_complaint(*output) is None ==> r is Ok && is_plate_reading(r->Ok_0, *output),
        r is Ok ==> r->Ok_0.wf(),
{
    let flat = match output.as_f32() {
        Ok(flat) => flat,
        Err(e) => {
            return Err(e);
        },
    };
    let shape = &output.shape;
    let n = shape.len();
    let (frames, class_major) = if n == 3 && shape[1] == 68 {
        (shape[2] as usize, true)
    } else if n == 3 && shape[2] == 68 {
        (shape[1] as usize, false)
    } else if n == 2 && shape[0] == 68 {
        (shape[1] as usize, true)
    } else if n == 2 && shape[1] == 68 {
        (shape[0] as usize, false)
    } else {
        let mut message = String::from_str("LPRNet 期望输出含 68 类别维（如 [68,T]），实际 shape: ");
        push_shape(&mut message, shape);
        return Err(VisionError::inference(message));
    };
    let enough = match frames.checked_mul(LPR_CLASSES) {
        Some(count) => flat.len() >= count,
        None => false,
    };
    if !enough {
        let mut message = String::from_str("LPRNet 输出元素数 ");
        push_decimal(&mut message, flat.len() as u64);
        message.append(" < 68x");
        push_decimal(&mut message, frames as u64);
        return Err(VisionError::inference(message));
    }
    let scores = if class_major {
        to_frame_major(flat, frames)
    } else {
        flat.clone()
    };
    let decoding = ctc_decode(&scores, LPR_CLASSES, frames);
    proof {
        let kept = kept_frames(decoding.best@, 67, 68);
        assert forall|k: int| 0 <= k < decoding.kept.len() implies #[trigger] decoding.kept[k] < decoding.best.len() by {
            assert(decoding.kept@.map_values(|t: usize| t as int)[k] == decoding.kept@[k] as int);
            lemma_kept_are_frames(decoding.best@, 67, 68, k);
        }
    }
    Ok(PlateReading { scores, decoding })
}

/// Of the characters only the last one is a dash.
proof fn lemma_only_last_is_dash(i: int)
    requires
        0 <= i < 67,
    ensures
        LPR_CHARS@[i] != '-',
{
    reveal_strlit(
        "京沪津渝冀晋蒙辽吉黑苏浙皖闽赣鲁豫鄂湘粤桂琼川贵云藏陕甘青宁新0123456789ABCDEFGHJKLMNPQRSTUVWXYZIO-",
    );
}

/// The dash stands for the blank: no text of a plate holds one.
pub proof fn dash_is_never_read(best: Seq<usize>)
    ensures
        !decoded_text(best, 67, plate_table()).contains('-'),
    decreases best.len(),
{
    if best.len() > 0 {
        let before = decoded_text(best.drop_last(), 67, plate_table());
        dash_is_never_read(best.drop_last());
        if adds_character(best, 67, plate_table().len() as int) {
            let added = plate_table()[best.last() as int];
            lemma_only_last_is_dash(best.last() as int);
            assert forall|k: int| 0 <= k < before.len() + added.len() implies (before + added)[k] != '-' by {
                if k < before.len() {
                    assert(before.contains(before[k]));
                }
            }
        }
    }
}

/// The two orders of scores say the same: if one output lists the scores class by class
/// and another frame by frame, and they agree on each class of each frame, then their
/// first scores, frame by frame, are the same.
pub proof fn both_orders_read_alike(by_class: Seq<Single>, by_frame: Seq<Single>, frames: int)
    requires
        frames >= 0,
        by_class.len() == 68 * frames,
        by_frame.len() == 68 * frames,
        forall|c: int, t: int|
            0 <= c < 68 && 0 <= t < frames ==> #[trigger] by_class[c * frames + t] == #[trigger] by_frame[t * 68 + c],
    ensures
        frame_major(by_class, frames, true) == frame_major(by_frame, frames, false),
{
    let a = frame_major(by_class, frames, true);
    assert forall|n: int| 0 <= n < a.len() implies a[n] == by_frame[n] by {
        let (c, t) = (n % 68, n / 68);
        assert(0 <= t < frames);
        assert(by_class[c * frames + t] == by_frame[t * 68 + c]);
        assert(t * 68 + c == n);
    }
    assert(a =~= by_frame);
}

/// The score of a class in a frame is read where the shape of the output says: behind the
/// scores of the classes before it where the classes come first, and behind those of the frames
/// before it where the frames do. There are as many frames as the other dimension says.
pub proof fn scores_are_read_where_the_shape_says(reading: PlateReading, output: TensorOutput, c: int, t: int)
    requires
        output.wf(),
        plate_complaint(output) is None,
        is_plate_reading(reading, output),
        0 <= c < 68,
        0 <= t < reading.decoding.best.len(),
    ensures
        output.data is F32,
        output.shape@.len() == 2 || output.shape@.len() == 3,
        output.shape@.len() == 2 && output.shape@[0] == 68 ==> {
            &&& reading.decoding.best.len() == output.shape@[1]
            &&& reading.scores@[t * 68 + c] == output.data->F32_0@[c * output.shape@[1] + t]
        },
        output.shape@.len() == 2 && output.shape@[0] != 68 ==> {
            &&& output.shape@[1] == 68
            &&& reading.decoding.best.len() == output.shape@[0]
            &&& reading.scores@[t * 68 + c] == output.data->F32_0@[t * 68 + c]
        },
        output.shape@.len() == 3 && output.shape@[1] == 68 ==> {
            &&& reading.decoding.best.len() == output.shape@[2]
            &&& reading.scores@[t * 68 + c] == output.data->F32_0@[c * output.shape@[2] + t]
        },
        output.shape@.len() == 3 && output.shape@[1] != 68 ==> {
            &&& output.shape@[2] == 68
            &&& reading.decoding.best.len() == output.shape@[1]
            &&& reading.scores@[t * 68 + c] == output.data->F32_0@[t * 68 + c]
        },
{
    let (frames, class_major) = plate_layout(output)->0;
    let n = t * 68 + c;
    assert(n % 68 == c && n / 68 == t);
    assert(0 <= n < frames * 68);
}

/// In each frame the class that is taken has the greatest score that the output gives for that
/// frame: class by class where the classes come first, frame by frame where the frames do.
pub proof fn taken_class_is_the_best_of_the_output(reading: PlateReading, output: TensorOutput, c: int, t: int)
    requires
        output.wf(),
        plate_complaint(output) is None,
        is_plate_reading(reading, output),
        0 <= c < 68,
        0 <= t < reading.decoding.best.len(),
    ensures
        reading.decoding.best@[t] < 68,
        ({
            let (values, best, frames) = (
                output.data->F32_0@,
                reading.decoding.best@[t] as int,
                reading.decoding.best.len() as int,
            );
            let classes_first = output.shape@[output.shape@.len() - 2] == 68;
            let (there, taken) = if classes_first {
                (values[c * frames + t], values[best * frames + t])
            } else {
                (values[t * 68 + c], values[t * 68 + best])
            };
            there.greater(Single { bits: 0xff7f_ffff }) ==> !there.greater(taken)
        }),
{
    let frames = reading.decoding.best.len() as int;
    let best = reading.decoding.best@[t] as int;
    assert(frames * 68 <= reading.scores@.len());
    taken_class_has_the_greatest_score(reading.decoding, reading.scores@, 68, frames, 67, plate_table(), t, c);
    scores_are_read_where_the_shape_says(reading, output, c, t);
    scores_are_read_where_the_shape_says(reading, output, best, t);
}

/// An output can be read if and only if it holds single-precision numbers, one of its last two
/// dimensions is that of the classes, and there is a value for each class of each frame.
pub proof fn readable_outputs_have_a_dimension_of_classes(output: TensorOutput)
    requires
        output.wf(),
    ensures
        plate_complaint(output) is None <==> {
            let (n, shape) = (output.shape@.len() as int, output.shape@);
            &&& output.data is F32
            &&& n == 2 || n == 3
            &&& shape[n - 2] == 68 || shape[n - 1] == 68
            &&& output.data->F32_0@.len() >= 68 * if shape[n - 2] == 68 {
                shape[n - 1]
            } else {
                shape[n - 2]
            }
        },
{
}

/// The characters of a plate are those of the taken classes, looked up one by one.
pub proof fn plates_are_spelled_by_their_classes(reading: PlateReading, output: TensorOutput)
    requires
        plate_complaint(output) is None,
        is_plate_reading(reading, output),
    ensures
        reading.decoding.text@.len() == reading.decoding.kept@.len(),
        forall|k: int|
            0 <= k < reading.decoding.kept@.len() ==> reading.decoding.text@[k]
                == LPR_CHARS@[reading.decoding.best@[#[trigger] reading.decoding.kept@[k] as int] as int],
{
    let d = reading.decoding;
    let frames = (plate_layout(output)->0).0;
    text_is_that_of_new_characters(d, reading.scores@, 68, frames, 67, plate_table());
    let parts = Seq::new(d.kept@.len(), |k: int| plate_table()[d.best@[d.kept@[k] as int] as int]);
    assert forall|k: int| 0 <= k < parts.len() implies #[trigger] parts[k] == seq![
        LPR_CHARS@[d.best@[d.kept@[k] as int] as int],
    ] by {
        assert(d.kept@[k] < frames);
    }
    lemma_flatten_of_single(parts, Seq::new(parts.len(), |k: int| LPR_CHARS@[d.best@[d.kept@[k] as int] as int]));
}

proof fn lemma_flatten_of_single(parts: Seq<Seq<char>>, chars: Seq<char>)
    requires
        parts.len() == chars.len(),
        forall|k: int| 0 <= k < parts.len() ==> #[trigger] parts[k] == seq![chars[k]],
    ensures
        parts.flatten() == chars,
    decreases parts.len(),
{
    parts.lemma_flatten_and_flatten_alt_are_equivalent();
    if parts.len() > 0 {
        let (shorter, rest) = (parts.drop_last(), chars.drop_last());
        lemma_flatten_of_single(shorter, rest);
        shorter.lemma_flatten_and_flatten_alt_are_equivalent();
        assert(parts.flatten() == shorter.flatten() + parts.last());
        assert(parts.flatten() =~= chars);
    } else {
        assert(parts.flatten() =~= chars);
    }
}

/// The score of a reading is the mean of one value for each frame that added a character: the
/// probability of the class that was taken in that very frame, among its sixty-eight scores. It is
/// zero if no frame added one.
pub proof fn readings_are_scored_by_kept_frames<P: Fn(&Vec<Single>, usize) -> Single, M: Fn(&Vec<Single>) -> Single>(
    score: Single,
    reading: PlateReading,
    probability: P,
    mean: M,
) -> (r: (Vec<Single>, Seq<Vec<Single>>))
    requires
        reading.wf(),
        is_reading_score(score, reading, probability, mean),
    ensures
        ({
            let (values, rows) = r;
            let kept = reading.decoding.kept@;
            &&& values@.len() == kept.len() == rows.len()
            &&& forall|k: int|
                0 <= k < kept.len() ==> {
                    &&& (#[trigger] rows[k])@.len() == 68
                    &&& forall|c: int|
                        0 <= c < 68 ==> #[trigger] rows[k]@[c] == reading.scores@[kept[k] * 68 + c]
                    &&& call_ensures(probability, (&rows[k], reading.decoding.best@[kept[k] as int]), values@[k])
                }
            &&& kept.len() == 0 ==> score.bits == 0
            &&& kept.len() > 0 ==> call_ensures(mean, (&values,), score)
        }),
{
    let values = choose|values: Vec<Single>| #[trigger]
        is_mean(score, values, mean) && values.len() == reading.decoding.kept.len() && forall|k: int|
            0 <= k < values.len() ==> is_probability(
                #[trigger] values@[k],
                reading,
                reading.decoding.kept@[k] as int,
                probability,
            );
    let kept = reading.decoding.kept@;
    let rows = Seq::new(
        kept.len(),
        |k: int|
            choose|scores: Vec<Single>| #[trigger]
                call_ensures(probability, (&scores, reading.decoding.best@[kept[k] as int]), values@[k]) && scores@
                    == row(reading.scores@, 68, kept[k] as int),
    );
    assert forall|k: int| 0 <= k < kept.len() implies {
        &&& (#[trigger] rows[k])@.len() == 68
        &&& forall|c: int| 0 <= c < 68 ==> #[trigger] rows[k]@[c] == reading.scores@[kept[k] * 68 + c]
        &&& call_ensures(probability, (&rows[k], reading.decoding.best@[kept[k] as int]), values@[k])
    } by {
        assert(is_probability(values@[k], reading, kept[k] as int, probability));
        assert(reading.decoding.kept[k] < reading.decoding.best.len());
        let t = kept[k] as int;
        assert(rows[k]@ == row(reading.scores@, 68, t));
        assert((t + 1) * 68 <= reading.scores@.len());
    }
    (values, rows)
}

} // verus!
