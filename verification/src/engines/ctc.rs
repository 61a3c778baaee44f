//! Greedy decoding of frame-wise class scores.

use vstd::prelude::*;

use crate::ieee::{Single, SINGLE_MIN, SINGLE_ZERO};
use crate::text::texts;

verus! {

/// The scores of one frame.
pub open spec fn row(frames: Seq<Single>, classes: int, t: int) -> Seq<Single> {
    frames.subrange(t * classes, (t + 1) * classes)
}

/// Whether a score is above the least finite value. No other score is ever the best.
pub open spec fn counts(v: Single) -> bool {
    v.greater(Single { bits: SINGLE_MIN })
}

/// Whether `i` is the class of a row: the first of those with the greatest score, or the
/// first class if no score counts.
pub open spec fn is_best(scores: Seq<Single>, i: int) -> bool {
    ||| {
        &&& 0 <= i < scores.len()
        &&& counts(scores[i])
        &&& forall|j: int| 0 <= j < scores.len() ==> !(#[trigger] scores[j]).greater(scores[i])
        &&& forall|j: int| 0 <= j < i && counts(#[trigger] scores[j]) ==> scores[i].greater(scores[j])
    }
    ||| {
        &&& i == 0
        &&& forall|j: int| 0 <= j < scores.len() ==> !counts(#[trigger] scores[j])
    }
}

/// Whether `best` holds the class of each frame.
pub open spec fn are_best(frames: Seq<Single>, classes: int, best: Seq<usize>) -> bool {
    forall|t: int| 0 <= t < best.len() ==> is_best(row(frames, classes, t), #[trigger] best[t] as int)
}

/// Whether the last frame adds a character: it is not blank, differs from the frame
/// before, and its class has a character.
pub open spec fn adds_character(best: Seq<usize>, blank: int, table_len: int) -> bool {
    &&& best.last() != blank
    &&& best.len() >= 2 ==> best.last() != best[best.len() - 2]
    &&& best.last() < table_len
}

/// The text of the classes of a sequence of frames.
pub open spec fn decoded_text(best: Seq<usize>, blank: int, table: Seq<Seq<char>>) -> Seq<char>
    decreases best.len(),
{
    if best.len() == 0 {
        Seq::empty()
    } else if adds_character(best, blank, table.len() as int) {
        decoded_text(best.drop_last(), blank, table) + table[best.last() as int]
    } else {
        decoded_text(best.drop_last(), blank, table)
    }
}

/// The frames that add a character, in order.
pub open spec fn kept_frames(best: Seq<usize>, blank: int, table_len: int) -> Seq<int>
    decreases best.len(),
{
    if best.len() == 0 {
        Seq::empty()
    } else if adds_character(best, blank, table_len) {
        kept_frames(best.drop_last(), blank, table_len).push(best.len() - 1)
    } else {
        kept_frames(best.drop_last(), blank, table_len)
    }
}

/// The score of the best class of each frame that is not blank, in order.
pub open spec fn marked_scores(frames: Seq<Single>, classes: int, best: Seq<usize>, blank: int) -> Seq<Single>
    decreases best.len(),
{
    if best.len() == 0 {
        Seq::empty()
    } else if best.last() == blank {
        marked_scores(frames, classes, best.drop_last(), blank)
    } else {
        marked_scores(frames, classes, best.drop_last(), blank).push(
            frames[(best.len() - 1) * classes + best.last()],
        )
    }
}

/// Whether a score is the mean of some values, as `mean` gives it; zero if there are none.
pub open spec fn is_mean<M: Fn(&Vec<Single>) -> Single>(score: Single, values: Vec<Single>, mean: M) -> bool {
    if values.len() == 0 {
        score.bits == SINGLE_ZERO
    } else {
        call_ensures(mean, (&values,), score)
    }
}

/// A decoded sequence of frames.
#[derive(Debug)]
pub struct Decoding {
    /// The class of each frame.
    pub best: Vec<usize>,
    /// The frames that added a character.
    pub kept: Vec<usize>,
    /// The characters one after the other.
    pub text: String,
}

/// Whether a decoding is that of the given scores.
pub open spec fn is_decoding(
    d: Decoding,
    frames: Seq<Single>,
    classes: int,
    count: int,
    blank: int,
    table: Seq<Seq<char>>,
) -> bool {
    &&& d.best.len() == count
    &&& are_best(frames, classes, d.best@)
    &&& d.text@ == decoded_text(d.best@, blank, table)
    &&& d.kept@.map_values(|t: usize| t as int) == kept_frames(d.best@, blank, table.len() as int)
}

/// The class of the scores from `start` on.
fn best_class(frames: &Vec<Single>, start: usize, classes: usize) -> (best: usize)
    requires
        start + classes <= frames.len(),
    ensures
        is_best(frames@.subrange(start as int, start + classes), best as int),
{
    let ghost scores = frames@.subrange(start as int, start + classes);
    let mut best: usize = 0;
    let mut top = Single { bits: SINGLE_MIN };
    let mut i: usize = 0;
    while i < classes
        invariant
            start + classes <= frames.len(),
            scores == frames@.subrange(start as int, start + classes),
            i <= classes,
            !top.not_a_number(),
            forall|j: int| 0 <= j < i ==> !(#[trigger] scores[j]).greater(top),
            top.bits == SINGLE_MIN ==> best == 0 && forall|j: int| 0 <= j < i ==> !counts(#[trigger] scores[j]),
            top.bits != SINGLE_MIN ==> best < i && scores[best as int] == top && counts(top) && forall|j: int|
                0 <= j < best && counts(#[trigger] scores[j]) ==> top.greater(scores[j]),
        decreases classes - i,
    {
        let v = frames[start + i];
        assert(v == scores[i as int]);
        if v.gt(top) {
            top = v;
            best = i;
        }
        i += 1;
    }
    best
}

/// Takes the best class of each frame, drops repetitions and blanks, and looks the rest up.
pub fn decode(frames: &Vec<Single>, classes: usize, count: usize, blank: usize, table: &Vec<String>) -> (d: Decoding)
    requires
        count * classes <= frames.len(),
    ensures
        is_decoding(d, frames@, classes as int, count as int, blank as int, texts(table@)),
{
    let mut best: Vec<usize> = Vec::new();
    let mut kept: Vec<usize> = Vec::new();
    let mut text = String::new();
    let mut last: usize = blank;
    let mut t: usize = 0;
    assert(text@ =~= Seq::<char>::empty());
    assert(kept@.map_values(|t: usize| t as int) =~= Seq::<int>::empty());
    while t < count
        invariant
            count * classes <= frames.len(),
            t <= count,
            best.len() == t,
            are_best(frames@, classes as int, best@),
            t == 0 ==> last == blank,
            t > 0 ==> last == best@.last(),
            text@ == decoded_text(best@, blank as int, texts(table@)),
            kept@.map_values(|t: usize| t as int) == kept_frames(best@, blank as int, texts(table@).len() as int),
        decreases count - t,
    {
        proof {
            assert(t * classes + classes <= count * classes && (t + 1) * classes == t * classes + classes)
                by (nonlinear_arith)
                requires
                    t < count,
            ;
            assert(t * classes >= 0) by (nonlinear_arith);
        }
        let class = best_class(frames, t * classes, classes);
        let ghost before = best@;
        let ghost kept_before = kept@;
        best.push(class);
        assert(best@.drop_last() =~= before);
        assert(is_best(row(frames@, classes as int, t as int), class as int));
        if class != last && class != blank {
            if class < table.len() {
                text.append(table[class].as_str());
                kept.push(t);
                assert(texts(table@)[class as int] == table[class as int]@);
                assert(kept@.map_values(|t: usize| t as int) =~= kept_before.map_values(|t: usize| t as int).push(
                    t as int,
                ));
            }
        }
        last = class;
        t += 1;
    }
    Decoding { best, kept, text }
}

/// The score of the best class of each frame that is not blank, in order.
pub fn collect_marked(frames: &Vec<Single>, classes: usize, best: &Vec<usize>, blank: usize) -> (values: Vec<Single>)
    requires
        best.len() * classes <= frames.len(),
        forall|t: int| 0 <= t < best.len() ==> #[trigger] best[t] == blank || best[t] < classes,
    ensures
        values@ == marked_scores(frames@, classes as int, best@, blank as int),
{
    let mut values: Vec<Single> = Vec::new();
    let mut t: usize = 0;
    assert(best@.take(0) =~= Seq::<usize>::empty());
    while t < best.len()
        invariant
            best.len() * classes <= frames.len(),
            forall|t: int| 0 <= t < best.len() ==> #[trigger] best[t] == blank || best[t] < classes,
            t <= best.len(),
            values@ == marked_scores(frames@, classes as int, best@.take(t as int), blank as int),
        decreases best.len() - t,
    {
        proof {
            assert(best@.take(t + 1).drop_last() =~= best@.take(t as int));
            let n = best.len();
            assert(0 <= t * classes && t * classes + classes <= n * classes) by (nonlinear_arith)
                requires
                    0 <= t < n,
                    classes >= 0,
            ;
        }
        if best[t] != blank {
            values.push(frames[t * classes + best[t]]);
        }
        t += 1;
    }
    assert(best@.take(t as int) =~= best@);
    values
}

/// The mean of some values, zero if there are none.
pub fn mean_of_values<M: Fn(&Vec<Single>) -> Single>(values: &Vec<Single>, mean: &M) -> (score: Single)
    requires
        forall|values: &Vec<Single>| values.len() > 0 ==> call_requires(*mean, (values,)),
    ensures
        is_mean(score, *values, *mean),
{
    if values.len() == 0 {
        Single { bits: SINGLE_ZERO }
    } else {
        mean(values)
    }
}

/// The frames that add a character are frames.
pub(crate) proof fn lemma_kept_are_frames(best: Seq<usize>, blank: int, table_len: int, i: int)
    requires
        0 <= i < kept_frames(best, blank, table_len).len(),
    ensures
        0 <= kept_frames(best, blank, table_len)[i] < best.len(),
    decreases best.len(),
{
    let shorter = best.drop_last();
    if i < kept_frames(shorter, blank, table_len).len() {
        lemma_kept_are_frames(shorter, blank, table_len, i);
    }
}

/// Repeating a frame does not change the text.
pub proof fn repeated_frame_changes_nothing(best: Seq<usize>, t: int, blank: int, table: Seq<Seq<char>>)
    requires
        0 <= t < best.len(),
    ensures
        decoded_text(best.insert(t, best[t]), blank, table) == decoded_text(best, blank, table),
    decreases best.len(),
{
    let longer = best.insert(t, best[t]);
    if t == best.len() - 1 {
        assert(longer.drop_last() =~= best);
        assert(!adds_character(longer, blank, table.len() as int));
    } else {
        let shorter = best.drop_last();
        repeated_frame_changes_nothing(shorter, t, blank, table);
        assert(longer.drop_last() =~= shorter.insert(t, shorter[t]));
        assert(longer.last() == best.last());
        assert(longer[longer.len() - 2] == best[best.len() - 2]);
    }
}

/// Frames that are all blank give no text.
pub proof fn blank_frames_give_no_text(best: Seq<usize>, blank: int, table: Seq<Seq<char>>)
    requires
        forall|t: int| 0 <= t < best.len() ==> #[trigger] best[t] == blank,
    ensures
        decoded_text(best, blank, table) == Seq::<char>::empty(),
    decreases best.len(),
{
    if best.len() > 0 {
        blank_frames_give_no_text(best.drop_last(), blank, table);
    }
}

/// The scores of a frame have one best class only.
pub proof fn best_class_is_unique(scores: Seq<Single>, i: int, j: int)
    requires
        is_best(scores, i),
        is_best(scores, j),
    ensures
        i == j,
{
    if i != j && 0 <= i < scores.len() && 0 <= j < scores.len() && counts(scores[i]) && counts(scores[j]) {
        if i < j {
            assert(!scores[j].greater(scores[i]));
        } else {
            assert(!scores[i].greater(scores[j]));
        }
    }
}

/// The scores of a frame stand together, class by class.
pub proof fn frames_stand_one_after_the_other(frames: Seq<Single>, classes: int, t: int, c: int)
    requires
        0 <= t,
        0 <= c < classes,
        (t + 1) * classes <= frames.len(),
    ensures
        row(frames, classes, t).len() == classes,
        0 <= t * classes + c < frames.len(),
        row(frames, classes, t)[c] == frames[t * classes + c],
{
    assert((t + 1) * classes == t * classes + classes && 0 <= t * classes) by (nonlinear_arith)
        requires
            0 <= t,
            0 <= classes,
    ;
}

/// In each frame no class has a greater score than the one that is taken, and none before it
/// has the same. Scores that are not above the least finite value never win.
pub proof fn taken_class_has_the_greatest_score(
    d: Decoding,
    frames: Seq<Single>,
    classes: int,
    count: int,
    blank: int,
    table: Seq<Seq<char>>,
    t: int,
    c: int,
)
    requires
        is_decoding(d, frames, classes, count, blank, table),
        0 <= t < count,
        0 <= c < classes,
        count * classes <= frames.len(),
    ensures
        d.best.len() == count,
        0 <= d.best[t] < classes,
        frames[t * classes + c].greater(Single { bits: 0xff7f_ffff }) ==> {
            &&& !frames[t * classes + c].greater(frames[t * classes + d.best[t]])
            &&& frames[t * classes + d.best[t]].greater(Single { bits: 0xff7f_ffff })
            &&& c < d.best[t] ==> frames[t * classes + d.best[t]].greater(frames[t * classes + c])
        },
{
    assert((t + 1) * classes <= count * classes) by (nonlinear_arith)
        requires
            t + 1 <= count,
            0 <= classes,
    ;
    let scores = row(frames, classes, t);
    assert(is_best(scores, d.best@[t] as int));
    frames_stand_one_after_the_other(frames, classes, t, c);
    frames_stand_one_after_the_other(frames, classes, t, d.best@[t] as int);
    assert(scores[c] == frames[t * classes + c]);
}

/// The text of parts of which one is added at the end.
proof fn lemma_flatten_push(parts: Seq<Seq<char>>, last: Seq<char>)
    ensures
        parts.push(last).flatten() == parts.flatten() + last,
{
    let longer = parts.push(last);
    longer.lemma_flatten_and_flatten_alt_are_equivalent();
    parts.lemma_flatten_and_flatten_alt_are_equivalent();
    assert(longer.drop_last() =~= parts);
    assert(longer.last() == last);
}

/// Whether a frame begins a character: it is not blank, its class has a character, and the
/// frame before has another class.
pub open spec fn begins_character(best: Seq<usize>, blank: int, table_len: int, t: int) -> bool {
    &&& 0 <= t < best.len()
    &&& best[t] != blank
    &&& best[t] < table_len
    &&& t > 0 ==> best[t - 1] != best[t]
}

proof fn lemma_kept_begin_characters(best: Seq<usize>, blank: int, table: Seq<Seq<char>>)
    ensures
        ({
            let kept = kept_frames(best, blank, table.len() as int);
            &&& forall|t: int|
                #[trigger] kept.contains(t) <==> begins_character(best, blank, table.len() as int, t)
            &&& forall|i: int, j: int| 0 <= i < j < kept.len() ==> #[trigger] kept[i] < #[trigger] kept[j]
            &&& decoded_text(best, blank, table) == Seq::new(
                kept.len(),
                |k: int| table[best[kept[k]] as int],
            ).flatten()
        }),
    decreases best.len(),
{
    let n = table.len() as int;
    let kept = kept_frames(best, blank, n);
    let parts = Seq::new(kept.len(), |k: int| table[best[kept[k]] as int]);
    if best.len() == 0 {
        parts.lemma_flatten_and_flatten_alt_are_equivalent();
        assert(parts.flatten() =~= Seq::<char>::empty());
    } else {
        let shorter = best.drop_last();
        let last = best.len() - 1;
        lemma_kept_begin_characters(shorter, blank, table);
        let before = kept_frames(shorter, blank, n);
        let before_parts = Seq::new(before.len(), |k: int| table[shorter[before[k]] as int]);
        assert forall|k: int| 0 <= k < before.len() implies 0 <= #[trigger] before[k] < last by {
            assert(before.contains(before[k]));
        }
        assert forall|t: int| #[trigger] kept.contains(t) <==> begins_character(best, blank, n, t) by {
            assert(before.contains(t) <==> begins_character(shorter, blank, n, t));
            if t < last {
                assert(begins_character(best, blank, n, t) == begins_character(shorter, blank, n, t));
            }
            if adds_character(best, blank, n) {
                assert(kept == before.push(last));
                if t == last {
                    assert(kept[before.len() as int] == t);
                } else {
                    if before.contains(t) {
                        let k = choose|k: int| 0 <= k < before.len() && before[k] == t;
                        assert(kept[k] == t);
                    }
                    if kept.contains(t) {
                        let k = choose|k: int| 0 <= k < kept.len() && kept[k] == t;
                        assert(before[k] == t);
                    }
                }
            }
        }
        if adds_character(best, blank, n) {
            assert(parts =~= before_parts.push(table[best.last() as int]));
            lemma_flatten_push(before_parts, table[best.last() as int]);
        } else {
            assert(parts =~= before_parts);
        }
    }
}

/// The text is made of the characters of those frames that are not blank, whose class has a
/// character and differs from that of the frame before, in the order of the frames; these are
/// the frames that are kept.
pub proof fn text_is_that_of_new_characters(
    d: Decoding,
    frames: Seq<Single>,
    classes: int,
    count: int,
    blank: int,
    table: Seq<Seq<char>>,
)
    requires
        is_decoding(d, frames, classes, count, blank, table),
    ensures
        d.text@ == Seq::new(d.kept@.len(), |k: int| table[d.best@[d.kept@[k] as int] as int]).flatten(),
        forall|i: int, j: int| 0 <= i < j < d.kept.len() ==> #[trigger] d.kept@[i] < #[trigger] d.kept@[j],
        forall|k: int|
            0 <= k < d.kept.len() ==> {
                &&& #[trigger] d.kept@[k] < count
                &&& d.best@[d.kept@[k] as int] != blank
                &&& d.best@[d.kept@[k] as int] < table.len()
                &&& d.kept@[k] > 0 ==> d.best@[d.kept@[k] - 1] != d.best@[d.kept@[k] as int]
            },
        forall|t: int|
            0 <= t < count && #[trigger] d.best@[t] != blank && d.best@[t] < table.len() && (t > 0 ==> d.best@[t - 1]
                != d.best@[t]) ==> d.kept@.contains(t as usize),
{
    let n = table.len() as int;
    let kept = kept_frames(d.best@, blank, n);
    let mapped = d.kept@.map_values(|t: usize| t as int);
    assert(mapped == kept);
    lemma_kept_begin_characters(d.best@, blank, table);
    assert(Seq::new(d.kept@.len(), |k: int| table[d.best@[d.kept@[k] as int] as int]) =~= Seq::new(
        kept.len(),
        |k: int| table[d.best@[kept[k]] as int],
    )) by {
        assert forall|k: int| 0 <= k < kept.len() implies kept[k] == d.kept@[k] as int by {
            assert(mapped[k] == d.kept@[k] as int);
        }
    }
    assert forall|i: int, j: int| 0 <= i < j < d.kept.len() implies #[trigger] d.kept@[i] < #[trigger] d.kept@[j] by {
        assert(mapped[i] == d.kept@[i] as int && mapped[j] == d.kept@[j] as int);
        assert(kept[i] < kept[j]);
    }
    assert forall|k: int| 0 <= k < d.kept.len() implies {
        &&& #[trigger] d.kept@[k] < count
        &&& d.best@[d.kept@[k] as int] != blank
        &&& d.best@[d.kept@[k] as int] < table.len()
        &&& d.kept@[k] > 0 ==> d.best@[d.kept@[k] - 1] != d.best@[d.kept@[k] as int]
    } by {
        assert(mapped[k] == d.kept@[k] as int);
        assert(kept.contains(kept[k]));
        assert(begins_character(d.best@, blank, n, kept[k]));
    }
    assert forall|t: int|
        0 <= t < count && #[trigger] d.best@[t] != blank && d.best@[t] < table.len() && (t > 0 ==> d.best@[t - 1]
            != d.best@[t]) implies d.kept@.contains(t as usize) by {
        assert(begins_character(d.best@, blank, n, t));
        assert(kept.contains(t));
        let k = choose|k: int| 0 <= k < kept.len() && kept[k] == t;
        assert(mapped[k] == d.kept@[k] as int);
        assert(d.kept@[k] == t as usize);
    }
}

/// The scores that are averaged are those of the taken classes of all frames that are not
/// blank, each once and in order: they stand at the frames that are returned.
pub proof fn averaged_scores_are_those_of_marked_frames(
    frames: Seq<Single>,
    classes: int,
    best: Seq<usize>,
    blank: int,
) -> (at: Seq<int>)
    ensures
        marked_scores(frames, classes, best, blank).len() == at.len(),
        forall|k: int|
            0 <= k < at.len() ==> 0 <= #[trigger] at[k] < best.len() && best[at[k]] != blank && marked_scores(
                frames,
                classes,
                best,
                blank,
            )[k] == frames[at[k] * classes + best[at[k]]],
        forall|i: int, j: int| 0 <= i < j < at.len() ==> #[trigger] at[i] < #[trigger] at[j],
        forall|t: int| 0 <= t < best.len() && #[trigger] best[t] != blank ==> at.contains(t),
    decreases best.len(),
{
    if best.len() == 0 {
        Seq::empty()
    } else {
        let shorter = best.drop_last();
        let last = best.len() - 1;
        let before = averaged_scores_are_those_of_marked_frames(frames, classes, shorter, blank);
        let at = if best.last() == blank {
            before
        } else {
            before.push(last)
        };
        assert forall|k: int| 0 <= k < at.len() implies 0 <= #[trigger] at[k] < best.len() && best[at[k]] != blank
            && marked_scores(frames, classes, best, blank)[k] == frames[at[k] * classes + best[at[k]]] by {
            if k < before.len() {
                assert(at[k] == before[k]);
                assert(shorter[before[k]] == best[before[k]]);
            }
        }
        assert forall|i: int, j: int| 0 <= i < j < at.len() implies #[trigger] at[i] < #[trigger] at[j] by {
            assert(at[i] == before[i]);
            if j < before.len() {
                assert(at[j] == before[j]);
            }
        }
        assert forall|t: int| 0 <= t < best.len() && #[trigger] best[t] != blank implies at.contains(t) by {
            if t < last {
                assert(shorter[t] == best[t]);
                assert(before.contains(t));
                let k = choose|k: int| 0 <= k < before.len() && before[k] == t;
                assert(at[k] == t);
            } else {
                assert(at[before.len() as int] == t);
            }
        }
        at
    }
}

} // verus!
