//! Stable sorting of positions by integer keys.

use vstd::prelude::*;

verus! {

/// Whether position `a` comes before position `b`: by the keys, then by the positions.
pub open spec fn comes_before(keys: Seq<(i64, i64)>, a: int, b: int) -> bool {
    let (x, y) = (keys[a], keys[b]);
    ||| x.0 < y.0
    ||| x.0 == y.0 && x.1 < y.1
    ||| x.0 == y.0 && x.1 == y.1 && a < b
}

/// Whether the positions of `order` come one before the other.
pub open spec fn ascending(keys: Seq<(i64, i64)>, order: Seq<usize>) -> bool {
    forall|i: int, j: int| 0 <= i < j < order.len() ==> comes_before(
        keys,
        #[trigger] order[i] as int,
        #[trigger] order[j] as int,
    )
}

/// Whether `order` lists exactly the positions from `lo` up to `hi`.
pub open spec fn covers(order: Seq<usize>, lo: int, hi: int) -> bool {
    &&& forall|i: int| 0 <= i < order.len() ==> lo <= #[trigger] order[i] < hi
    &&& forall|p: int| lo <= p < hi ==> #[trigger] order.contains(p as usize)
}

/// Whether `order` is the stable order of the keys: every position once, smaller keys
/// first, and equal keys in the order of their positions.
pub open spec fn is_stable_order(keys: Seq<(i64, i64)>, order: Seq<usize>) -> bool {
    &&& order.len() == keys.len()
    &&& covers(order, 0, keys.len() as int)
    &&& ascending(keys, order)
}

fn before(keys: &Vec<(i64, i64)>, a: usize, b: usize) -> (r: bool)
    requires
        a < keys.len(),
        b < keys.len(),
    ensures
        r == comes_before(keys@, a as int, b as int),
{
    let x = keys[a];
    let y = keys[b];
    x.0 < y.0 || (x.0 == y.0 && (x.1 < y.1 || (x.1 == y.1 && a < b)))
}

/// Merges two ascending lists of the positions on either side of `mid`.
fn merge(
    keys: &Vec<(i64, i64)>,
    left: &Vec<usize>,
    right: &Vec<usize>,
    Ghost(lo): Ghost<int>,
    Ghost(mid): Ghost<int>,
    Ghost(hi): Ghost<int>,
) -> (out: Vec<usize>)
    requires
        0 <= lo <= mid <= hi <= keys.len(),
        covers(left@, lo, mid),
        covers(right@, mid, hi),
        left.len() == mid - lo,
        right.len() == hi - mid,
        ascending(keys@, left@),
        ascending(keys@, right@),
    ensures
        covers(out@, lo, hi),
        out.len() == hi - lo,
        ascending(keys@, out@),
{
    let mut out: Vec<usize> = Vec::with_capacity(left.len());
    let mut i: usize = 0;
    let mut j: usize = 0;
    while i < left.len() || j < right.len()
        invariant
            0 <= lo <= mid <= hi <= keys.len(),
            covers(left@, lo, mid),
            covers(right@, mid, hi),
            left.len() == mid - lo,
            right.len() == hi - mid,
            ascending(keys@, left@),
            ascending(keys@, right@),
            i <= left.len(),
            j <= right.len(),
            out.len() == i + j,
            ascending(keys@, out@),
            forall|k: int| 0 <= k < out.len() ==> lo <= #[trigger] out[k] < hi,
            forall|k: int, a: int| 0 <= k < out.len() && i <= a < left.len() ==> comes_before(
                keys@,
                #[trigger] out[k] as int,
                #[trigger] left[a] as int,
            ),
            forall|k: int, b: int| 0 <= k < out.len() && j <= b < right.len() ==> comes_before(
                keys@,
                #[trigger] out[k] as int,
                #[trigger] right[b] as int,
            ),
            forall|a: int| 0 <= a < i ==> out@.contains(#[trigger] left[a]),
            forall|b: int| 0 <= b < j ==> out@.contains(#[trigger] right[b]),
        decreases left.len() - i + right.len() - j,
    {
        let ghost so_far = out@;
        let from_left = if i < left.len() {
            if j < right.len() {
                before(keys, left[i], right[j])
            } else {
                true
            }
        } else {
            false
        };
        let next = if from_left { left[i] } else { right[j] };
        out.push(next);
        proof {
            let n = so_far.len() as int;
            assert(out@[n] == next);
            assert forall|v: usize| so_far.contains(v) implies out@.contains(v) by {
                let k = choose|k: int| 0 <= k < so_far.len() && so_far[k] == v;
                assert(out@[k] == v);
            }
            assert forall|k: int, m: int| 0 <= k < m < out.len() implies comes_before(
                keys@,
                #[trigger] out[k] as int,
                #[trigger] out[m] as int,
            ) by {
                assert(out[k] == so_far[k]);
                if m < n {
                    assert(out[m] == so_far[m]);
                }
            }
            if from_left {
                assert forall|k: int, b: int| 0 <= k < out.len() && j <= b < right.len() implies comes_before(
                    keys@,
                    #[trigger] out[k] as int,
                    #[trigger] right[b] as int,
                ) by {
                    if k < n {
                        assert(out[k] == so_far[k]);
                    } else if b > j {
                        assert(comes_before(keys@, left[i as int] as int, right[j as int] as int));
                        assert(comes_before(keys@, right[j as int] as int, right[b] as int));
                    }
                }
            } else {
                assert forall|k: int, a: int| 0 <= k < out.len() && i <= a < left.len() implies comes_before(
                    keys@,
                    #[trigger] out[k] as int,
                    #[trigger] left[a] as int,
                ) by {
                    if k < n {
                        assert(out[k] == so_far[k]);
                    } else {
                        assert(left[i as int] < mid <= right[j as int]);
                        assert(comes_before(keys@, right[j as int] as int, left[i as int] as int));
                        if a > i {
                            assert(comes_before(keys@, left[i as int] as int, left[a] as int));
                        }
                    }
                }
            }
        }
        if from_left {
            i += 1;
        } else {
            j += 1;
        }
    }
    proof {
        assert forall|p: int| lo <= p < hi implies #[trigger] out@.contains(p as usize) by {
            if p < mid {
                assert(left@.contains(p as usize));
                let a = choose|a: int| 0 <= a < left.len() && left[a] == p as usize;
                assert(out@.contains(left[a]));
            } else {
                assert(right@.contains(p as usize));
                let b = choose|b: int| 0 <= b < right.len() && right[b] == p as usize;
                assert(out@.contains(right[b]));
            }
        }
    }
    out
}

/// Sorts the positions from `lo` up to `hi`.
fn sort_range(keys: &Vec<(i64, i64)>, lo: usize, hi: usize) -> (out: Vec<usize>)
    requires
        lo <= hi <= keys.len(),
    ensures
        covers(out@, lo as int, hi as int),
        out.len() == hi - lo,
        ascending(keys@, out@),
    decreases hi - lo,
{
    if hi - lo == 0 {
        Vec::new()
    } else if hi - lo == 1 {
        let mut out: Vec<usize> = Vec::new();
        out.push(lo);
        assert(out@[0] == lo);
        out
    } else {
        let mid = lo + (hi - lo) / 2;
        let left = sort_range(keys, lo, mid);
        let right = sort_range(keys, mid, hi);
        merge(keys, &left, &right, Ghost(lo as int), Ghost(mid as int), Ghost(hi as int))
    }
}

/// The positions of the keys in stable ascending order.
pub fn stable_order(keys: &Vec<(i64, i64)>) -> (order: Vec<usize>)
    ensures
        is_stable_order(keys@, order@),
{
    sort_range(keys, 0, keys.len())
}

/// A stable order lists no position twice.
pub proof fn stable_order_is_distinct(keys: Seq<(i64, i64)>, order: Seq<usize>)
    requires
        is_stable_order(keys, order),
    ensures
        order.no_duplicates(),
{
    assert forall|i: int, j: int| 0 <= i < order.len() && 0 <= j < order.len() && i != j implies order[i] != order[j] by {
        if i < j {
            assert(comes_before(keys, order[i] as int, order[j] as int));
        } else {
            assert(comes_before(keys, order[j] as int, order[i] as int));
        }
    }
}

/// The keys have one stable order only.
pub proof fn stable_order_is_unique(keys: Seq<(i64, i64)>, first: Seq<usize>, second: Seq<usize>)
    requires
        is_stable_order(keys, first),
        is_stable_order(keys, second),
    ensures
        first == second,
{
    assert forall|i: int| 0 <= i < first.len() implies first[i] == second[i] by {
        lemma_same_until(keys, first, second, i);
    }
    assert(first =~= second);
}

proof fn lemma_same_until(keys: Seq<(i64, i64)>, first: Seq<usize>, second: Seq<usize>, n: int)
    requires
        is_stable_order(keys, first),
        is_stable_order(keys, second),
        0 <= n < first.len(),
    ensures
        forall|i: int| 0 <= i <= n ==> first[i] == second[i],
    decreases n,
{
    if n > 0 {
        lemma_same_until(keys, first, second, n - 1);
    }
    if first[n] != second[n] {
        let a = first[n];
        let b = second[n];
        assert(second.contains((a as int) as usize));
        assert(first.contains((b as int) as usize));
        let i = choose|i: int| 0 <= i < second.len() && second[i] == a;
        let j = choose|j: int| 0 <= j < first.len() && first[j] == b;
        if i < n {
            assert(first[i] == a);
            assert(comes_before(keys, first[i] as int, first[n] as int));
        }
        if j < n {
            assert(second[j] == b);
            assert(comes_before(keys, second[j] as int, second[n] as int));
        }
        assert(comes_before(keys, second[n] as int, second[i] as int));
        assert(comes_before(keys, first[n] as int, first[j] as int));
    }
}

/// In the order the keys ascend, by their first part and then by their second; of equal keys the
/// one that stood first stays first.
pub proof fn keys_ascend_in_the_order(keys: Seq<(i64, i64)>, order: Seq<usize>, i: int, j: int)
    requires
        is_stable_order(keys, order),
        0 <= i < j < order.len(),
    ensures
        order[i] < keys.len(),
        order[j] < keys.len(),
        keys[order[i] as int].0 <= keys[order[j] as int].0,
        keys[order[i] as int].0 == keys[order[j] as int].0 ==> keys[order[i] as int].1 <= keys[order[j] as int].1,
        keys[order[i] as int] == keys[order[j] as int] ==> order[i] < order[j],
{
    assert(comes_before(keys, order[i] as int, order[j] as int));
}

} // verus!
