//! Plate candidates and the choice among overlapping ones.

use vstd::prelude::*;

use crate::ieee::Single;
use crate::sorting::{comes_before, is_stable_order, stable_order, stable_order_is_unique};

verus! {

/// A detected plate.
#[derive(Debug, Clone, Copy)]
pub struct PlateBox {
    /// Left, top, right and bottom in the image.
    pub xyxy: [Single; 4],
    /// The confidence of the detection.
    pub score: Single,
    /// The corners in the image: top left, top right, bottom left, bottom right.
    pub landmarks: Option<[[Single; 2]; 4]>,
}

/// The keys that order candidates from the highest score down.
pub open spec fn descending_keys(candidates: Seq<PlateBox>) -> Seq<(i64, i64)> {
    candidates.map_values(|p: PlateBox| ((-p.score.key()) as i64, 0i64))
}

/// Whether the overlap of two plates was found to be above the threshold, or not above it.
pub open spec fn is_compared<F: Fn(&PlateBox, &PlateBox) -> Single>(
    iou: F,
    iou_threshold: Single,
    a: &PlateBox,
    b: &PlateBox,
    above: bool,
) -> bool {
    exists|overlap: Single| #[trigger] call_ensures(iou, (a, b), overlap) && overlap.greater(iou_threshold) == above
}

/// Whether `out` is a plate whose columns are moved by `dx` and whose rows are moved by
/// `dy`, with `shift` adding to a coordinate.
pub open spec fn is_offset<S: Fn(Single, i32) -> Single>(out: PlateBox, plate: PlateBox, dx: i32, dy: i32, shift: S) -> bool {
    &&& forall|i: int|
        0 <= i < 4 ==> call_ensures(
            shift,
            (plate.xyxy[i], if i % 2 == 0 {
                dx
            } else {
                dy
            }),
            #[trigger] out.xyxy[i],
        )
    &&& out.score == plate.score
    &&& match (plate.landmarks, out.landmarks) {
        (Some(before), Some(after)) => forall|k: int|
            0 <= k < 4 ==> is_moved_point(#[trigger] after[k], before[k], dx, dy, shift),
        (None, None) => true,
        _ => false,
    }
}

/// Whether `after` is a point whose column is moved by `dx` and whose row is moved by `dy`.
pub open spec fn is_moved_point<S: Fn(Single, i32) -> Single>(
    after: [Single; 2],
    before: [Single; 2],
    dx: i32,
    dy: i32,
    shift: S,
) -> bool {
    call_ensures(shift, (before[0], dx), after[0]) && call_ensures(shift, (before[1], dy), after[1])
}

/// Moves a plate that was found in a tile to its place in the image. `shift` adds a number
/// of pixels to a coordinate.
pub fn offset_plate_box<S: Fn(Single, i32) -> Single>(plate: &PlateBox, dx: i32, dy: i32, shift: &S) -> (out: PlateBox)
    requires
        forall|x: Single, d: i32| call_requires(*shift, (x, d)),
    ensures
        is_offset(out, *plate, dx, dy, *shift),
{
    let b = plate.xyxy;
    let xyxy = [shift(b[0], dx), shift(b[1], dy), shift(b[2], dx), shift(b[3], dy)];
    let landmarks = match plate.landmarks {
        None => None,
        Some(c) => Some(
            [
                [shift(c[0][0], dx), shift(c[0][1], dy)],
                [shift(c[1][0], dx), shift(c[1][1], dy)],
                [shift(c[2][0], dx), shift(c[2][1], dy)],
                [shift(c[3][0], dx), shift(c[3][1], dy)],
            ],
        ),
    };
    PlateBox { xyxy, score: plate.score, landmarks }
}

/// Whether a kept candidate before position `p` was found to overlap the one at `p`.
pub open spec fn is_suppressed<F: Fn(&PlateBox, &PlateBox) -> Single>(
    candidates: Seq<PlateBox>,
    iou: F,
    iou_threshold: Single,
    order: Seq<usize>,
    kept: Seq<int>,
    p: int,
) -> bool {
    exists|i: int|
        0 <= i < kept.len() && kept[i] < p && #[trigger] is_compared(
            iou,
            iou_threshold,
            &candidates[order[kept[i]] as int],
            &candidates[order[p] as int],
            true,
        )
}

/// Whether `kept` are the positions in `order` that a greedy choice keeps: each is found
/// not to overlap any one kept before it, and each other position is found to overlap one
/// that is kept before it.
pub open spec fn is_greedy_choice<F: Fn(&PlateBox, &PlateBox) -> Single>(
    candidates: Seq<PlateBox>,
    iou: F,
    iou_threshold: Single,
    order: Seq<usize>,
    kept: Seq<int>,
    upto: int,
) -> bool {
    &&& forall|i: int| 0 <= i < kept.len() ==> 0 <= #[trigger] kept[i] < upto
    &&& forall|i: int, j: int| 0 <= i < j < kept.len() ==> #[trigger] kept[i] < #[trigger] kept[j]
    &&& forall|i: int, j: int|
        0 <= i < j < kept.len() ==> is_compared(
            iou,
            iou_threshold,
            &candidates[order[#[trigger] kept[i]] as int],
            &candidates[order[#[trigger] kept[j]] as int],
            false,
        )
    &&& forall|p: int|
        0 <= p < upto ==> kept.contains(p) || #[trigger] is_suppressed(
            candidates,
            iou,
            iou_threshold,
            order,
            kept,
            p,
        )
}

/// Whether `result` holds the candidates that a greedy choice keeps, from the highest
/// score down.
pub open spec fn is_suppression<F: Fn(&PlateBox, &PlateBox) -> Single>(
    candidates: Seq<PlateBox>,
    iou: F,
    iou_threshold: Single,
    order: Seq<usize>,
    kept: Seq<int>,
    result: Seq<PlateBox>,
) -> bool {
    &&& is_stable_order(descending_keys(candidates), order)
    &&& is_greedy_choice(candidates, iou, iou_threshold, order, kept, candidates.len() as int)
    &&& result.len() == kept.len()
    &&& forall|i: int| 0 <= i < kept.len() ==> #[trigger] result[i] == candidates[order[kept[i]] as int]
}

/// Whether `result` is what is left of the candidates.
pub open spec fn suppresses<F: Fn(&PlateBox, &PlateBox) -> Single>(
    candidates: Seq<PlateBox>,
    iou: F,
    iou_threshold: Single,
    result: Seq<PlateBox>,
) -> bool {
    exists|order: Seq<usize>, kept: Seq<int>| #[trigger] is_suppression(candidates, iou, iou_threshold, order, kept, result)
}

/// Keeps the candidates from the highest score down, without those that overlap one
/// already kept by more than the threshold. `iou` is asked with the kept candidate first.
pub fn nms_plates<F: Fn(&PlateBox, &PlateBox) -> Single>(
    candidates: Vec<PlateBox>,
    iou_threshold: Single,
    iou: &F,
) -> (keep: Vec<PlateBox>)
    requires
        forall|a: &PlateBox, b: &PlateBox| call_requires(*iou, (a, b)),
    ensures
        suppresses(candidates@, *iou, iou_threshold, keep@),
{
    let mut keys: Vec<(i64, i64)> = Vec::new();
    let mut i: usize = 0;
    while i < candidates.len()
        invariant
            i <= candidates.len(),
            keys@ == descending_keys(candidates@.take(i as int)),
        decreases candidates.len() - i,
    {
        keys.push((-candidates[i].score.order_key(), 0));
        assert(keys@ =~= descending_keys(candidates@.take(i + 1)));
        i += 1;
    }
    assert(candidates@.take(i as int) =~= candidates@);
    let order = stable_order(&keys);
    let mut keep: Vec<PlateBox> = Vec::new();
    let ghost mut kept: Seq<int> = Seq::empty();
    let mut p: usize = 0;
    while p < order.len()
        invariant
            forall|a: &PlateBox, b: &PlateBox| call_requires(*iou, (a, b)),
            is_stable_order(descending_keys(candidates@), order@),
            descending_keys(candidates@).len() == candidates.len(),
            p <= order.len(),
            keep.len() == kept.len(),
            is_greedy_choice(candidates@, *iou, iou_threshold, order@, kept, p as int),
            forall|i: int| 0 <= i < kept.len() ==> #[trigger] keep@[i] == candidates@[order@[kept[i]] as int],
        decreases order.len() - p,
    {
        let cand = candidates[order[p]];
        let mut k: usize = 0;
        let mut hit = false;
        while k < keep.len() && !hit
            invariant
                forall|a: &PlateBox, b: &PlateBox| call_requires(*iou, (a, b)),
                k <= keep.len(),
                keep.len() == kept.len(),
                p < order.len(),
                cand == candidates@[order@[p as int] as int],
                forall|i: int| 0 <= i < kept.len() ==> 0 <= #[trigger] kept[i] < p,
                forall|i: int| 0 <= i < kept.len() ==> #[trigger] keep@[i] == candidates@[order@[kept[i]] as int],
                hit ==> is_suppressed(candidates@, *iou, iou_threshold, order@, kept, p as int),
                !hit ==> forall|i: int|
                    0 <= i < k ==> #[trigger] is_compared(
                        *iou,
                        iou_threshold,
                        &candidates@[order@[kept[i]] as int],
                        &cand,
                        false,
                    ),
            decreases keep.len() - k + (if hit { 0int } else { 1int }),
        {
            let overlap = iou(&keep[k], &cand);
            let above = overlap.gt(iou_threshold);
            proof {
                assert(keep@[k as int] == candidates@[order@[kept[k as int]] as int]);
                assert(call_ensures(*iou, (&keep@[k as int], &cand), overlap));
                assert(is_compared(*iou, iou_threshold, &keep@[k as int], &cand, above));
            }
            if above {
                hit = true;
            } else {
                k += 1;
            }
        }
        let ghost before = kept;
        if !hit {
            keep.push(cand);
            proof {
                kept = kept.push(p as int);
                assert(kept.contains(p as int)) by {
                    assert(kept[before.len() as int] == p);
                }
            }
        }
        proof {
            assert forall|q: int| 0 <= q < p + 1 implies kept.contains(q) || #[trigger] is_suppressed(
                candidates@,
                *iou,
                iou_threshold,
                order@,
                kept,
                q,
            ) by {
                if q < p {
                    if before.contains(q) {
                        let i = choose|i: int| 0 <= i < before.len() && before[i] == q;
                        assert(kept[i] == q);
                    } else {
                        assert(is_suppressed(candidates@, *iou, iou_threshold, order@, before, q));
                        let i = choose|i: int|
                            0 <= i < before.len() && before[i] < q && #[trigger] is_compared(
                                *iou,
                                iou_threshold,
                                &candidates@[order@[before[i]] as int],
                                &candidates@[order@[q] as int],
                                true,
                            );
                        assert(kept[i] == before[i]);
                        assert(is_suppressed(candidates@, *iou, iou_threshold, order@, kept, q));
                    }
                }
            }
        }
        p += 1;
    }
    proof {
        assert(is_suppression(candidates@, *iou, iou_threshold, order@, kept, keep@));
    }
    keep
}

/// No kept candidate has a higher score than one kept before it, and each was found not
/// to overlap those before it.
pub proof fn kept_plates_descend_and_do_not_overlap<F: Fn(&PlateBox, &PlateBox) -> Single>(
    candidates: Seq<PlateBox>,
    iou: F,
    iou_threshold: Single,
    result: Seq<PlateBox>,
    i: int,
    j: int,
)
    requires
        suppresses(candidates, iou, iou_threshold, result),
        0 <= i < j < result.len(),
    ensures
        !result[j].score.greater(result[i].score),
        is_compared(iou, iou_threshold, &result[i], &result[j], false),
{
    let (order, kept) = choose|order: Seq<usize>, kept: Seq<int>| #[trigger]
        is_suppression(candidates, iou, iou_threshold, order, kept, result);
    let keys = descending_keys(candidates);
    assert(kept[i] < kept[j]);
    assert(comes_before(keys, order[kept[i]] as int, order[kept[j]] as int));
    assert(result[i] == candidates[order[kept[i]] as int]);
    assert(result[j] == candidates[order[kept[j]] as int]);
}

/// Where the overlap test always answers alike, only one result is left.
pub proof fn suppression_is_unique<F: Fn(&PlateBox, &PlateBox) -> Single>(
    candidates: Seq<PlateBox>,
    iou: F,
    iou_threshold: Single,
    first: Seq<PlateBox>,
    second: Seq<PlateBox>,
)
    requires
        suppresses(candidates, iou, iou_threshold, first),
        suppresses(candidates, iou, iou_threshold, second),
        forall|a: PlateBox, b: PlateBox|
            !(#[trigger] is_compared(iou, iou_threshold, &a, &b, true) && is_compared(iou, iou_threshold, &a, &b, false)),
    ensures
        first == second,
{
    let (order, kept) = choose|order: Seq<usize>, kept: Seq<int>| #[trigger]
        is_suppression(candidates, iou, iou_threshold, order, kept, first);
    let (order2, kept2) = choose|order: Seq<usize>, kept: Seq<int>| #[trigger]
        is_suppression(candidates, iou, iou_threshold, order, kept, second);
    stable_order_is_unique(descending_keys(candidates), order, order2);
    lemma_same_kept(candidates, iou, iou_threshold, order, kept, kept2, candidates.len() as int);
    lemma_increasing_is_unique(kept, kept2);
    assert(first =~= second);
}

/// The same positions are kept.
proof fn lemma_same_kept<F: Fn(&PlateBox, &PlateBox) -> Single>(
    candidates: Seq<PlateBox>,
    iou: F,
    iou_threshold: Single,
    order: Seq<usize>,
    kept: Seq<int>,
    kept2: Seq<int>,
    p: int,
)
    requires
        is_greedy_choice(candidates, iou, iou_threshold, order, kept, candidates.len() as int),
        is_greedy_choice(candidates, iou, iou_threshold, order, kept2, candidates.len() as int),
        forall|a: PlateBox, b: PlateBox|
            !(#[trigger] is_compared(iou, iou_threshold, &a, &b, true) && is_compared(iou, iou_threshold, &a, &b, false)),
        0 <= p <= candidates.len(),
    ensures
        forall|q: int| 0 <= q < p ==> (#[trigger] kept.contains(q) <==> kept2.contains(q)),
    decreases p,
{
    if p > 0 {
        lemma_same_kept(candidates, iou, iou_threshold, order, kept, kept2, p - 1);
        if kept.contains(p - 1) {
            lemma_also_kept(candidates, iou, iou_threshold, order, kept, kept2, p - 1);
        } else if kept2.contains(p - 1) {
            lemma_also_kept(candidates, iou, iou_threshold, order, kept2, kept, p - 1);
        }
    }
}

/// A position kept by one choice is kept by another that agrees before it.
proof fn lemma_also_kept<F: Fn(&PlateBox, &PlateBox) -> Single>(
    candidates: Seq<PlateBox>,
    iou: F,
    iou_threshold: Single,
    order: Seq<usize>,
    kept: Seq<int>,
    kept2: Seq<int>,
    p: int,
)
    requires
        is_greedy_choice(candidates, iou, iou_threshold, order, kept, candidates.len() as int),
        is_greedy_choice(candidates, iou, iou_threshold, order, kept2, candidates.len() as int),
        forall|a: PlateBox, b: PlateBox|
            !(#[trigger] is_compared(iou, iou_threshold, &a, &b, true) && is_compared(iou, iou_threshold, &a, &b, false)),
        0 <= p < candidates.len(),
        forall|q: int| 0 <= q < p ==> (#[trigger] kept.contains(q) <==> kept2.contains(q)),
        kept.contains(p),
    ensures
        kept2.contains(p),
{
    if kept2.contains(p) {
        return ;
    }
    assert(is_suppressed(candidates, iou, iou_threshold, order, kept2, p));
    let i = choose|i: int|
        0 <= i < kept2.len() && kept2[i] < p && #[trigger] is_compared(
            iou,
            iou_threshold,
            &candidates[order[kept2[i]] as int],
            &candidates[order[p] as int],
            true,
        );
    assert(kept2.contains(kept2[i]));
    assert(kept.contains(kept2[i]));
    let a = choose|a: int| 0 <= a < kept.len() && kept[a] == kept2[i];
    let b = choose|b: int| 0 <= b < kept.len() && kept[b] == p;
    if a > b {
        assert(kept[b] < kept[a]);
    }
    assert(a < b);
    assert(is_compared(
        iou,
        iou_threshold,
        &candidates[order[kept[a]] as int],
        &candidates[order[kept[b]] as int],
        false,
    ));
}

/// An increasing sequence is its set of values.
proof fn lemma_increasing_is_unique(a: Seq<int>, b: Seq<int>)
    requires
        forall|i: int, j: int| 0 <= i < j < a.len() ==> #[trigger] a[i] < #[trigger] a[j],
        forall|i: int, j: int| 0 <= i < j < b.len() ==> #[trigger] b[i] < #[trigger] b[j],
        forall|q: int| #[trigger] a.contains(q) <==> b.contains(q),
    ensures
        a == b,
    decreases a.len() + b.len(),
{
    if a.len() == 0 {
        if b.len() > 0 {
            assert(b.contains(b[0]));
            assert(a.contains(b[0]));
        }
        assert(a =~= b);
    } else {
        assert(a.contains(a.last()));
        assert(b.contains(a.last()));
        assert(b.contains(b.last()));
        assert(a.contains(b.last()));
        let i = choose|i: int| 0 <= i < b.len() && b[i] == a.last();
        let j = choose|j: int| 0 <= j < a.len() && a[j] == b.last();
        assert(a.last() == b.last());
        let (a2, b2) = (a.drop_last(), b.drop_last());
        assert forall|q: int| #[trigger] a2.contains(q) <==> b2.contains(q) by {
            if a2.contains(q) {
                let k = choose|k: int| 0 <= k < a2.len() && a2[k] == q;
                assert(a[k] == q && a[k] < a.last());
                assert(a.contains(q));
                let m = choose|m: int| 0 <= m < b.len() && b[m] == q;
                assert(b2[m] == q);
            }
            if b2.contains(q) {
                let k = choose|k: int| 0 <= k < b2.len() && b2[k] == q;
                assert(b[k] == q && b[k] < b.last());
                assert(b.contains(q));
                assert(a.contains(q));
                let m = choose|m: int| 0 <= m < a.len() && a[m] == q;
                assert(a2[m] == q);
            }
        }
        lemma_increasing_is_unique(a2, b2);
        assert(a =~= a2.push(a.last()));
        assert(b =~= b2.push(b.last()));
    }
}

/// Every plate that is kept is a candidate.
pub proof fn kept_plates_are_candidates<F: Fn(&PlateBox, &PlateBox) -> Single>(
    candidates: Seq<PlateBox>,
    iou: F,
    iou_threshold: Single,
    result: Seq<PlateBox>,
    i: int,
)
    requires
        suppresses(candidates, iou, iou_threshold, result),
        0 <= i < result.len(),
    ensures
        candidates.contains(result[i]),
{
    let (order, kept) = choose|order: Seq<usize>, kept: Seq<int>| #[trigger]
        is_suppression(candidates, iou, iou_threshold, order, kept, result);
    assert(result[i] == candidates[order[kept[i]] as int]);
}

/// A candidate is dropped only for a plate that is kept, is not less sure, and was found to
/// overlap it by more than the threshold.
pub proof fn dropped_plates_overlap_better_ones<F: Fn(&PlateBox, &PlateBox) -> Single>(
    candidates: Seq<PlateBox>,
    iou: F,
    iou_threshold: Single,
    result: Seq<PlateBox>,
    p: int,
)
    requires
        suppresses(candidates, iou, iou_threshold, result),
        0 <= p < candidates.len() <= usize::MAX,
    ensures
        result.contains(candidates[p]) || exists|i: int, overlap: Single|
            0 <= i < result.len() && #[trigger] call_ensures(iou, (&result[i], &candidates[p]), overlap)
                && overlap.greater(iou_threshold) && !candidates[p].score.greater(result[i].score),
{
    let (order, kept) = choose|order: Seq<usize>, kept: Seq<int>| #[trigger]
        is_suppression(candidates, iou, iou_threshold, order, kept, result);
    let keys = descending_keys(candidates);
    assert(order.contains(p as usize));
    let q = choose|q: int| 0 <= q < order.len() && order[q] == p as usize;
    if kept.contains(q) {
        let i = choose|i: int| 0 <= i < kept.len() && kept[i] == q;
        assert(result[i] == candidates[p]);
    } else {
        assert(is_suppressed(candidates, iou, iou_threshold, order, kept, q));
        let i = choose|i: int|
            0 <= i < kept.len() && kept[i] < q && #[trigger] is_compared(
                iou,
                iou_threshold,
                &candidates[order[kept[i]] as int],
                &candidates[order[q] as int],
                true,
            );
        assert(result[i] == candidates[order[kept[i]] as int]);
        assert(comes_before(keys, order[kept[i]] as int, order[q] as int));
        assert(keys[p].0 == (-candidates[p].score.key()) as i64);
        assert(keys[order[kept[i]] as int].0 == (-result[i].score.key()) as i64);
        let overlap = choose|overlap: Single| #[trigger]
            call_ensures(iou, (&result[i], &candidates[p]), overlap) && overlap.greater(iou_threshold) == true;
        assert(call_ensures(iou, (&result[i], &candidates[p]), overlap));
    }
}

/// Where there are candidates, the surest of them is kept, as the first.
pub proof fn surest_plate_comes_first<F: Fn(&PlateBox, &PlateBox) -> Single>(
    candidates: Seq<PlateBox>,
    iou: F,
    iou_threshold: Single,
    result: Seq<PlateBox>,
    p: int,
)
    requires
        suppresses(candidates, iou, iou_threshold, result),
        0 <= p < candidates.len() <= usize::MAX,
    ensures
        result.len() > 0,
        !candidates[p].score.greater(result[0].score),
{
    let (order, kept) = choose|order: Seq<usize>, kept: Seq<int>| #[trigger]
        is_suppression(candidates, iou, iou_threshold, order, kept, result);
    let keys = descending_keys(candidates);
    assert(!is_suppressed(candidates, iou, iou_threshold, order, kept, 0)) by {
        if is_suppressed(candidates, iou, iou_threshold, order, kept, 0) {
            let i = choose|i: int|
                0 <= i < kept.len() && kept[i] < 0 && #[trigger] is_compared(
                    iou,
                    iou_threshold,
                    &candidates[order[kept[i]] as int],
                    &candidates[order[0] as int],
                    true,
                );
            assert(0 <= kept[i]);
        }
    }
    assert(kept.contains(0));
    let k = choose|k: int| 0 <= k < kept.len() && kept[k] == 0;
    assert(kept[0] == 0) by {
        if k > 0 {
            assert(kept[0] < kept[k]);
        }
    }
    assert(result[0] == candidates[order[0] as int]);
    assert(order.contains(p as usize));
    let q = choose|q: int| 0 <= q < order.len() && order[q] == p as usize;
    if q > 0 {
        assert(comes_before(keys, order[0] as int, order[q] as int));
        assert(keys[p].0 == (-candidates[p].score.key()) as i64);
        assert(keys[order[0] as int].0 == (-result[0].score.key()) as i64);
    }
}

/// A plate that is moved keeps its score. Left and right are moved by the columns, top and bottom
/// by the rows, and each corner in both ways.
pub proof fn moved_plates_move_as_a_whole<S: Fn(Single, i32) -> Single>(
    out: PlateBox,
    plate: PlateBox,
    dx: i32,
    dy: i32,
    shift: S,
    k: int,
)
    requires
        is_offset(out, plate, dx, dy, shift),
        0 <= k < 4,
    ensures
        out.score == plate.score,
        call_ensures(shift, (plate.xyxy@[0], dx), out.xyxy@[0]),
        call_ensures(shift, (plate.xyxy@[1], dy), out.xyxy@[1]),
        call_ensures(shift, (plate.xyxy@[2], dx), out.xyxy@[2]),
        call_ensures(shift, (plate.xyxy@[3], dy), out.xyxy@[3]),
        plate.landmarks is Some <==> out.landmarks is Some,
        plate.landmarks is Some ==> call_ensures(shift, (plate.landmarks->0@[k]@[0], dx), out.landmarks->0@[k]@[0])
            && call_ensures(shift, (plate.landmarks->0@[k]@[1], dy), out.landmarks->0@[k]@[1]),
{
    assert(call_ensures(shift, (plate.xyxy[0], dx), out.xyxy[0]));
    assert(call_ensures(shift, (plate.xyxy[1], dy), out.xyxy[1]));
    assert(call_ensures(shift, (plate.xyxy[2], dx), out.xyxy[2]));
    assert(call_ensures(shift, (plate.xyxy[3], dy), out.xyxy[3]));
    if plate.landmarks is Some {
        assert(is_moved_point(out.landmarks->0[k], plate.landmarks->0[k], dx, dy, shift));
    }
}

} // verus!
