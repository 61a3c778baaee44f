//! Connected components of a binary map.
//!
//! A map of `width * height` bytes is read row by row; a non-zero byte is a
//! foreground pixel. Two pixels are adjacent when they touch by an edge, or also
//! by a corner when eight-connectivity is asked for.

use std::collections::VecDeque;
use vstd::prelude::*;
use vstd::set_lib::*;

verus! {

// ---------------------------------------------------------------------------
// Pixels and adjacency
// ---------------------------------------------------------------------------

/// Column of the pixel with linear index `p`.
pub open spec fn column(p: int, width: int) -> int {
    p % width
}

/// Row of the pixel with linear index `p`.
pub open spec fn row(p: int, width: int) -> int {
    p / width
}

/// Whether `p` is a foreground pixel of the map.
pub open spec fn foreground(bitmap: Seq<u8>, p: int) -> bool {
    0 <= p < bitmap.len() && bitmap[p] != 0
}

/// Whether the pixels `p` and `q` touch: by an edge, or by a corner if `connectivity8`.
pub open spec fn adjacent(p: int, q: int, width: int, connectivity8: bool) -> bool {
    let dx = column(q, width) - column(p, width);
    let dy = row(q, width) - row(p, width);
    &&& -1 <= dx <= 1
    &&& -1 <= dy <= 1
    &&& dx != 0 || dy != 0
    &&& connectivity8 || dx == 0 || dy == 0
}

/// Whether position `i` of `path` is reached from the position before it by one step.
pub open spec fn linked(path: Seq<int>, i: int, width: int, connectivity8: bool) -> bool {
    adjacent(path[i - 1], path[i], width, connectivity8)
}

/// Whether `path` walks over foreground pixels, each adjacent to the one before it.
pub open spec fn is_path(bitmap: Seq<u8>, path: Seq<int>, width: int, connectivity8: bool) -> bool {
    &&& path.len() > 0
    &&& forall|i: int| 0 <= i < path.len() ==> foreground(bitmap, #[trigger] path[i])
    &&& forall|i: int| 0 < i < path.len() ==> #[trigger] linked(path, i, width, connectivity8)
}

/// Whether some path leads from `p` to `q`.
pub open spec fn connected(bitmap: Seq<u8>, p: int, q: int, width: int, connectivity8: bool) -> bool {
    exists|path: Seq<int>| #[trigger] is_path(bitmap, path, width, connectivity8)
        && path[0] == p && path[path.len() - 1] == q
}

// ---------------------------------------------------------------------------
// The order in which neighbours are visited
// ---------------------------------------------------------------------------

/// Horizontal step of the `k`-th direction: left, right, up, down, then the four corners.
pub open spec fn step_x(k: int) -> int {
    if k == 0 || k == 4 || k == 6 {
        -1
    } else if k == 1 || k == 5 || k == 7 {
        1
    } else {
        0
    }
}

/// Vertical step of the `k`-th direction.
pub open spec fn step_y(k: int) -> int {
    if k == 2 || k == 4 || k == 5 {
        -1
    } else if k == 3 || k == 6 || k == 7 {
        1
    } else {
        0
    }
}

/// The place of the direction from `p` to its neighbour `q` among the eight directions.
pub open spec fn direction(p: int, q: int, width: int) -> int {
    let dx = column(q, width) - column(p, width);
    let dy = row(q, width) - row(p, width);
    if dy == 0 {
        if dx < 0 { 0 } else { 1 }
    } else if dx == 0 {
        if dy < 0 { 2 } else { 3 }
    } else if dy < 0 {
        if dx < 0 { 4 } else { 5 }
    } else {
        if dx < 0 { 6 } else { 7 }
    }
}

/// Whether the `k`-th direction may be taken, given which sides are open.
pub open spec fn open_direction(
    k: int,
    left: bool,
    right: bool,
    up: bool,
    down: bool,
    connectivity8: bool,
) -> bool {
    &&& step_x(k) == -1 ==> left
    &&& step_x(k) == 1 ==> right
    &&& step_y(k) == -1 ==> up
    &&& step_y(k) == 1 ==> down
    &&& k >= 4 ==> connectivity8
}

/// The neighbours of `idx` in the first `count` directions, in the order of the directions.
pub open spec fn neighbor_list(
    idx: int,
    width: int,
    left: bool,
    right: bool,
    up: bool,
    down: bool,
    connectivity8: bool,
    count: nat,
) -> Seq<int>
    decreases count,
{
    if count == 0 {
        Seq::empty()
    } else {
        let k = count - 1;
        let before = neighbor_list(idx, width, left, right, up, down, connectivity8, k as nat);
        if open_direction(k, left, right, up, down, connectivity8) {
            before.push(idx + step_y(k) * width + step_x(k))
        } else {
            before
        }
    }
}

/// Linear indices of the neighbours of pixel `idx` on the open sides: left, right,
/// up, down, and with `connectivity8` the corners between two open sides.
pub fn neighbors(
    idx: usize,
    width: usize,
    left: bool,
    right: bool,
    up: bool,
    down: bool,
    connectivity8: bool,
) -> (out: Vec<usize>)
    requires
        left ==> 1 <= idx,
        right ==> idx + 1 <= usize::MAX,
        up ==> width <= idx,
        down ==> idx + width <= usize::MAX,
        up && left ==> width + 1 <= idx,
        down && right ==> idx + width + 1 <= usize::MAX,
    ensures
        out@.map_values(|v: usize| v as int) == neighbor_list(
            idx as int,
            width as int,
            left,
            right,
            up,
            down,
            connectivity8,
            8,
        ),
{
    let mut out: Vec<usize> = Vec::with_capacity(if connectivity8 { 8 } else { 4 });
    let ghost as_int = |v: usize| v as int;
    let ghost list = |n: nat| neighbor_list(idx as int, width as int, left, right, up, down, connectivity8, n);
    proof {
        reveal_with_fuel(neighbor_list, 2);
    }
    if left {
        out.push(idx - 1);
    }
    assert(out@.map_values(as_int) =~= list(1));
    if right {
        out.push(idx + 1);
    }
    assert(out@.map_values(as_int) =~= list(2));
    if up {
        out.push(idx - width);
    }
    assert(out@.map_values(as_int) =~= list(3));
    if down {
        out.push(idx + width);
    }
    assert(out@.map_values(as_int) =~= list(4));
    if connectivity8 {
        if up && left {
            out.push(idx - width - 1);
        }
        assert(out@.map_values(as_int) =~= list(5));
        if up && right {
            out.push(idx - width + 1);
        }
        assert(out@.map_values(as_int) =~= list(6));
        if down && left {
            out.push(idx + width - 1);
        }
        assert(out@.map_values(as_int) =~= list(7));
        if down && right {
            out.push(idx + width + 1);
        }
        assert(out@.map_values(as_int) =~= list(8));
    } else {
        assert(list(5) =~= list(4));
        assert(list(6) =~= list(4));
        assert(list(7) =~= list(4));
        assert(list(8) =~= list(4));
    }
    out
}

/// The neighbours that pixel `idx` has on the map in the first `count` directions.
pub open spec fn map_neighbors(idx: int, width: int, height: int, connectivity8: bool, count: nat) -> Seq<int> {
    neighbor_list(
        idx,
        width,
        column(idx, width) > 0,
        column(idx, width) + 1 < width,
        row(idx, width) > 0,
        row(idx, width) + 1 < height,
        connectivity8,
        count,
    )
}

/// The pixel one step away in direction `k` has the stepped column and row.
proof fn lemma_step(idx: int, width: int, height: int, k: int)
    requires
        width > 0,
        0 <= idx < width * height,
        0 <= column(idx, width) + step_x(k) < width,
        0 <= row(idx, width) + step_y(k) < height,
    ensures
        ({
            let q = idx + step_y(k) * width + step_x(k);
            &&& 0 <= q < width * height
            &&& column(q, width) == column(idx, width) + step_x(k)
            &&& row(q, width) == row(idx, width) + step_y(k)
        }),
{
    let x = column(idx, width);
    let y = row(idx, width);
    let dx = step_x(k);
    let dy = step_y(k);
    let q = idx + dy * width + dx;
    vstd::arithmetic::div_mod::lemma_fundamental_div_mod(idx, width);
    assert(q == (y + dy) * width + (x + dx)) by (nonlinear_arith)
        requires
            idx == width * y + x,
            q == idx + dy * width + dx,
    ;
    vstd::arithmetic::div_mod::lemma_fundamental_div_mod_converse(q, width, y + dy, x + dx);
    assert(0 <= q < width * height) by (nonlinear_arith)
        requires
            q == (y + dy) * width + (x + dx),
            0 <= x + dx < width,
            0 <= y + dy < height,
    ;
}

/// A pixel of the map has its row within the height.
proof fn lemma_row(idx: int, width: int, height: int)
    requires
        width > 0,
        0 <= idx < width * height,
    ensures
        0 <= column(idx, width) < width,
        0 <= row(idx, width) < height,
        idx == row(idx, width) * width + column(idx, width),
{
    vstd::arithmetic::div_mod::lemma_fundamental_div_mod(idx, width);
    vstd::arithmetic::div_mod::lemma_mod_bound(idx, width);
    let x = column(idx, width);
    let y = row(idx, width);
    assert(0 <= y < height) by (nonlinear_arith)
        requires
            0 <= idx < width * height,
            idx == width * y + x,
            0 <= x < width,
    ;
    assert(width * y == y * width) by (nonlinear_arith);
}

/// The first `count` directions list the adjacent pixels of these directions, in order.
proof fn lemma_neighbor_list(idx: int, width: int, height: int, connectivity8: bool, count: nat)
    requires
        width > 0,
        0 <= idx < width * height,
        count <= 8,
    ensures
        ({
            let list = map_neighbors(idx, width, height, connectivity8, count);
            &&& forall|i: int| 0 <= i < list.len() ==> {
                &&& 0 <= #[trigger] list[i] < width * height
                &&& adjacent(idx, list[i], width, connectivity8)
                &&& direction(idx, list[i], width) < count
            }
            &&& forall|i: int, j: int| 0 <= i < j < list.len() ==>
                direction(idx, #[trigger] list[i], width) < direction(idx, #[trigger] list[j], width)
            &&& forall|q: int| 0 <= q < width * height && #[trigger] adjacent(idx, q, width, connectivity8)
                && direction(idx, q, width) < count ==> list.contains(q)
        }),
    decreases count,
{
    let x = column(idx, width);
    let y = row(idx, width);
    let list = map_neighbors(idx, width, height, connectivity8, count);
    lemma_row(idx, width, height);
    if count > 0 {
        let k = count - 1;
        let before = map_neighbors(idx, width, height, connectivity8, k as nat);
        let open = open_direction(k, x > 0, x + 1 < width, y > 0, y + 1 < height, connectivity8);
        lemma_neighbor_list(idx, width, height, connectivity8, k as nat);
        if open {
            let q = idx + step_y(k) * width + step_x(k);
            lemma_step(idx, width, height, k);
            assert(list == before.push(q));
            assert(direction(idx, q, width) == k);
            assert(adjacent(idx, q, width, connectivity8));
            assert forall|i: int| 0 <= i < list.len() implies {
                &&& 0 <= #[trigger] list[i] < width * height
                &&& adjacent(idx, list[i], width, connectivity8)
                &&& direction(idx, list[i], width) < count
            } by {
                if i < before.len() {
                    assert(list[i] == before[i]);
                }
            }
            assert forall|i: int, j: int| 0 <= i < j < list.len() implies direction(
                idx,
                #[trigger] list[i],
                width,
            ) < direction(idx, #[trigger] list[j], width) by {
                assert(list[i] == before[i]);
                if j < before.len() {
                    assert(list[j] == before[j]);
                }
            }
        }
        assert forall|q: int| 0 <= q < width * height && #[trigger] adjacent(idx, q, width, connectivity8)
            && direction(idx, q, width) < count implies list.contains(q) by {
            lemma_row(q, width, height);
            if direction(idx, q, width) < k {
                assert(before.contains(q));
                let i = choose|i: int| 0 <= i < before.len() && before[i] == q;
                assert(list[i] == q);
            } else {
                assert(column(q, width) == x + step_x(k));
                assert(row(q, width) == y + step_y(k));
                assert(open);
                assert(q == idx + step_y(k) * width + step_x(k)) by (nonlinear_arith)
                    requires
                        q == (y + step_y(k)) * width + (x + step_x(k)),
                        idx == y * width + x,
                ;
                assert(list[list.len() - 1] == q);
            }
        }
    }
}

// ---------------------------------------------------------------------------
// Components
// ---------------------------------------------------------------------------

/// A connected component: its pixels and their bounding box, all sides included.
#[derive(Debug)]
pub struct Component {
    /// Linear indices (`y * width + x`) of the pixels, in the order of discovery.
    pub pixels: Vec<u32>,
    pub min_x: usize,
    pub min_y: usize,
    pub max_x: usize,
    pub max_y: usize,
}

/// Linear pixel indices as integers.
pub open spec fn indices(pixels: Seq<u32>) -> Seq<int> {
    Seq::new(pixels.len(), |i: int| pixels[i] as int)
}

/// Whether `order[i]` is the first pixel of `order` that is adjacent to `order[k]`.
pub open spec fn discovered_by(order: Seq<int>, k: int, i: int, width: int, connectivity8: bool) -> bool {
    &&& 0 <= i < k < order.len()
    &&& adjacent(order[i], order[k], width, connectivity8)
    &&& forall|j: int| 0 <= j < i ==> !adjacent(#[trigger] order[j], order[k], width, connectivity8)
}

/// Whether some earlier pixel of `order` is adjacent to `order[k]`.
pub open spec fn is_discovered(order: Seq<int>, k: int, width: int, connectivity8: bool) -> bool {
    exists|i: int| #[trigger] discovered_by(order, k, i, width, connectivity8)
}

/// Whether discovery `k` at `i` comes before discovery `l` at `j`: by the position of the
/// discovering pixel, then by the direction in which it looked.
pub open spec fn discovered_before(order: Seq<int>, k: int, i: int, l: int, j: int, width: int) -> bool {
    i < j || (i == j && direction(order[i], order[k], width) < direction(order[i], order[l], width))
}

/// Whether `order` is the breadth-first order: every pixel but the first is found from the
/// earliest pixel next to it, and pixels come in the order in which they were found.
pub open spec fn breadth_first(order: Seq<int>, width: int, connectivity8: bool) -> bool {
    &&& forall|k: int| 0 < k < order.len() ==> #[trigger] is_discovered(order, k, width, connectivity8)
    &&& forall|k: int, i: int, l: int, j: int| k < l
        && #[trigger] discovered_by(order, k, i, width, connectivity8)
        && #[trigger] discovered_by(order, l, j, width, connectivity8)
        ==> discovered_before(order, k, i, l, j, width)
}

/// Whether the box is the smallest one around the pixels of `order`.
pub open spec fn bounding_box(
    order: Seq<int>,
    width: int,
    min_x: int,
    min_y: int,
    max_x: int,
    max_y: int,
) -> bool {
    &&& forall|i: int| 0 <= i < order.len() ==> {
        &&& min_x <= column(#[trigger] order[i], width) <= max_x
        &&& min_y <= row(order[i], width) <= max_y
    }
    &&& exists|i: int| 0 <= i < order.len() && column(#[trigger] order[i], width) == min_x
    &&& exists|i: int| 0 <= i < order.len() && column(#[trigger] order[i], width) == max_x
    &&& exists|i: int| 0 <= i < order.len() && row(#[trigger] order[i], width) == min_y
    &&& exists|i: int| 0 <= i < order.len() && row(#[trigger] order[i], width) == max_y
}

impl Component {
    /// The pixels as integers, in the order of discovery.
    pub open spec fn order(self) -> Seq<int> {
        indices(self.pixels@)
    }

    /// The pixel from which the component was found.
    pub open spec fn start(self) -> int {
        self.order()[0]
    }

    /// Whether the component holds pixel `p`.
    pub open spec fn has(self, p: int) -> bool {
        self.order().contains(p)
    }

    /// Whether this is the connected component of its start, the least of its pixels.
    pub open spec fn is_component_of(self, bitmap: Seq<u8>, width: int, connectivity8: bool) -> bool {
        &&& self.pixels@.len() > 0
        &&& self.order().no_duplicates()
        &&& forall|p: int| #[trigger] self.has(p) <==> connected(bitmap, self.start(), p, width, connectivity8)
        &&& forall|p: int| #[trigger] self.has(p) ==> self.start() <= p
        &&& breadth_first(self.order(), width, connectivity8)
        &&& bounding_box(
            self.order(),
            width,
            self.min_x as int,
            self.min_y as int,
            self.max_x as int,
            self.max_y as int,
        )
    }
}

/// Whether `components` are the connected components of the map, in the order of their starts.
pub open spec fn components_of(
    components: Seq<Component>,
    bitmap: Seq<u8>,
    width: int,
    connectivity8: bool,
) -> bool {
    &&& forall|i: int| 0 <= i < components.len() ==> (#[trigger] components[i]).is_component_of(
        bitmap,
        width,
        connectivity8,
    )
    &&& forall|i: int, j: int| 0 <= i < j < components.len() ==>
        (#[trigger] components[i]).start() < (#[trigger] components[j]).start()
    &&& forall|p: int| #[trigger] foreground(bitmap, p) ==> exists|i: int|
        0 <= i < components.len() && (#[trigger] components[i]).has(p)
}

/// A path may be continued to a foreground pixel next to its end.
proof fn lemma_connected_step(bitmap: Seq<u8>, p: int, q: int, r: int, width: int, connectivity8: bool)
    requires
        connected(bitmap, p, q, width, connectivity8),
        adjacent(q, r, width, connectivity8),
        foreground(bitmap, r),
    ensures
        connected(bitmap, p, r, width, connectivity8),
{
    let path = choose|path: Seq<int>| #[trigger] is_path(bitmap, path, width, connectivity8)
        && path[0] == p && path[path.len() - 1] == q;
    let longer = path.push(r);
    assert forall|i: int| 0 <= i < longer.len() implies foreground(bitmap, #[trigger] longer[i]) by {
        if i < path.len() {
            assert(longer[i] == path[i]);
        }
    }
    assert forall|i: int| 0 < i < longer.len() implies #[trigger] linked(longer, i, width, connectivity8) by {
        if i < path.len() {
            assert(linked(path, i, width, connectivity8));
            assert(longer[i] == path[i] && longer[i - 1] == path[i - 1]);
        }
    }
    assert(is_path(bitmap, longer, width, connectivity8));
}

/// A foreground pixel is connected to itself.
proof fn lemma_connected_self(bitmap: Seq<u8>, p: int, width: int, connectivity8: bool)
    requires
        foreground(bitmap, p),
    ensures
        connected(bitmap, p, p, width, connectivity8),
{
    let path = seq![p];
    assert(is_path(bitmap, path, width, connectivity8));
}

/// Whether `members` holds every foreground pixel next to one of its pixels.
pub open spec fn closed_under_steps(
    members: Set<int>,
    bitmap: Seq<u8>,
    width: int,
    connectivity8: bool,
) -> bool {
    forall|p: int, q: int| members.contains(p) && foreground(bitmap, q)
        && #[trigger] adjacent(p, q, width, connectivity8) ==> members.contains(q)
}

/// A path that starts in a set closed under steps stays in it.
proof fn lemma_path_stays(
    members: Set<int>,
    bitmap: Seq<u8>,
    path: Seq<int>,
    i: int,
    width: int,
    connectivity8: bool,
)
    requires
        closed_under_steps(members, bitmap, width, connectivity8),
        is_path(bitmap, path, width, connectivity8),
        members.contains(path[0]),
        0 <= i < path.len(),
    ensures
        members.contains(path[i]),
    decreases i,
{
    if i > 0 {
        lemma_path_stays(members, bitmap, path, i - 1, width, connectivity8);
        assert(linked(path, i, width, connectivity8));
        assert(foreground(bitmap, path[i]));
    }
}

/// What is connected to a pixel of a set closed under steps lies in the set.
proof fn lemma_connected_stays(
    members: Set<int>,
    bitmap: Seq<u8>,
    p: int,
    q: int,
    width: int,
    connectivity8: bool,
)
    requires
        closed_under_steps(members, bitmap, width, connectivity8),
        members.contains(p),
        connected(bitmap, p, q, width, connectivity8),
    ensures
        members.contains(q),
        foreground(bitmap, q),
{
    let path = choose|path: Seq<int>| #[trigger] is_path(bitmap, path, width, connectivity8)
        && path[0] == p && path[path.len() - 1] == q;
    lemma_path_stays(members, bitmap, path, path.len() - 1, width, connectivity8);
    assert(foreground(bitmap, path[path.len() - 1]));
}

/// Distinct indices below `len` are at most `len` many.
proof fn lemma_distinct_bound(order: Seq<int>, len: int)
    requires
        order.no_duplicates(),
        0 <= len,
        forall|k: int| 0 <= k < order.len() ==> 0 <= #[trigger] order[k] < len,
    ensures
        order.len() <= len,
{
    order.unique_seq_to_set();
    lemma_int_range(0, len);
    assert(order.to_set().subset_of(set_int_range(0, len)));
    lemma_len_subset(order.to_set(), set_int_range(0, len));
}

/// Whether every foreground pixel next to a marked foreground pixel is marked.
spec fn marks_closed(bitmap: Seq<u8>, marks: Seq<bool>, width: int, connectivity8: bool) -> bool {
    forall|p: int, q: int| foreground(bitmap, p) && marks[p] && foreground(bitmap, q)
        && #[trigger] adjacent(p, q, width, connectivity8) ==> marks[q]
}

/// What holds of the flood from `start` when the discovered pixels are `found`: the first
/// `done` have had all their neighbours looked at, the next one its first `looked`.
#[verifier::opaque]
spec fn flood_state(
    bitmap: Seq<u8>,
    width: int,
    height: int,
    connectivity8: bool,
    start: int,
    before: Seq<bool>,
    now: Seq<bool>,
    found: Seq<int>,
    done: int,
    looked: int,
) -> bool {
    &&& before.len() == bitmap.len()
    &&& now.len() == bitmap.len()
    &&& found.len() > 0
    &&& found[0] == start
    &&& 0 <= done <= found.len()
    &&& done == found.len() ==> looked == 0
    &&& 0 <= looked
    &&& found.no_duplicates()
    &&& forall|k: int| 0 <= k < found.len() ==> {
        &&& foreground(bitmap, #[trigger] found[k])
        &&& !before[found[k]]
        &&& connected(bitmap, start, found[k], width, connectivity8)
    }
    &&& forall|p: int| 0 <= p < bitmap.len() ==> #[trigger] now[p] == (before[p] || found.contains(p))
    &&& forall|i: int, q: int| 0 <= i < done && foreground(bitmap, q)
        && #[trigger] adjacent(found[i], q, width, connectivity8) ==> found.contains(q)
    &&& forall|s: int| 0 <= s < looked
        && foreground(bitmap, #[trigger] map_neighbors(found[done], width, height, connectivity8, 8)[s])
        ==> found.contains(map_neighbors(found[done], width, height, connectivity8, 8)[s])
    &&& breadth_first(found, width, connectivity8)
    &&& forall|k: int, i: int| #[trigger] discovered_by(found, k, i, width, connectivity8) ==> {
        ||| i < done
        ||| i == done && exists|s: int| 0 <= s < looked
            && #[trigger] map_neighbors(found[done], width, height, connectivity8, 8)[s] == found[k]
    }
}

/// Discoveries within `found` do not change when a pixel is added at its end.
proof fn lemma_discovery_kept(found: Seq<int>, q: int, width: int, connectivity8: bool)
    ensures
        forall|k: int, i: int| k < found.len() ==> (
            #[trigger] discovered_by(found.push(q), k, i, width, connectivity8)
            <==> discovered_by(found, k, i, width, connectivity8)
        ),
{
    let longer = found.push(q);
    assert forall|k: int, i: int| k < found.len() implies (
        #[trigger] discovered_by(longer, k, i, width, connectivity8)
        <==> discovered_by(found, k, i, width, connectivity8)
    ) by {
        if 0 <= i < k {
            assert(forall|j: int| 0 <= j <= k ==> longer[j] == found[j]);
        }
    }
}

/// At the outset only the start is found.
proof fn lemma_flood_init(
    bitmap: Seq<u8>,
    width: int,
    height: int,
    connectivity8: bool,
    start: int,
    before: Seq<bool>,
)
    requires
        before.len() == bitmap.len(),
        foreground(bitmap, start),
        !before[start],
    ensures
        flood_state(
            bitmap,
            width,
            height,
            connectivity8,
            start,
            before,
            before.update(start, true),
            seq![start],
            0,
            0,
        ),
{
    reveal(flood_state);
    lemma_connected_self(bitmap, start, width, connectivity8);
    assert(seq![start].contains(start)) by {
        assert(seq![start][0] == start);
    }
}

/// A foreground neighbour that was not marked is marked and added.
proof fn lemma_flood_push(
    bitmap: Seq<u8>,
    width: int,
    height: int,
    connectivity8: bool,
    start: int,
    before: Seq<bool>,
    now: Seq<bool>,
    found: Seq<int>,
    done: int,
    looked: int,
)
    requires
        width > 0,
        bitmap.len() == width * height,
        flood_state(bitmap, width, height, connectivity8, start, before, now, found, done, looked),
        done < found.len(),
        looked < map_neighbors(found[done], width, height, connectivity8, 8).len(),
        foreground(bitmap, map_neighbors(found[done], width, height, connectivity8, 8)[looked]),
        !now[map_neighbors(found[done], width, height, connectivity8, 8)[looked]],
    ensures
        ({
            let q = map_neighbors(found[done], width, height, connectivity8, 8)[looked];
            flood_state(
                bitmap,
                width,
                height,
                connectivity8,
                start,
                before,
                now.update(q, true),
                found.push(q),
                done,
                looked + 1,
            )
        }),
{
    reveal(flood_state);
    let p = found[done];
    let list = map_neighbors(p, width, height, connectivity8, 8);
    let q = list[looked];
    let longer = found.push(q);
    let marks = now.update(q, true);
    let last = found.len() as int;
    assert(foreground(bitmap, p));
    lemma_neighbor_list(p, width, height, connectivity8, 8);
    assert(adjacent(p, q, width, connectivity8));
    lemma_connected_step(bitmap, start, p, q, width, connectivity8);
    lemma_discovery_kept(found, q, width, connectivity8);
    assert(!found.contains(q));
    assert(longer[last] == q);
    assert(longer[done] == p);
    assert forall|r: int| found.contains(r) implies longer.contains(r) by {
        let k = choose|k: int| 0 <= k < found.len() && found[k] == r;
        assert(longer[k] == r);
    }
    assert(longer.no_duplicates());
    assert forall|k: int| 0 <= k < longer.len() implies {
        &&& foreground(bitmap, #[trigger] longer[k])
        &&& !before[longer[k]]
        &&& connected(bitmap, start, longer[k], width, connectivity8)
    } by {
        if k < last {
            assert(longer[k] == found[k]);
        }
    }
    assert forall|r: int| 0 <= r < bitmap.len() implies #[trigger] marks[r] == (before[r] || longer.contains(r)) by {
        if r != q {
            assert(marks[r] == now[r]);
            if longer.contains(r) {
                let k = choose|k: int| 0 <= k < longer.len() && longer[k] == r;
                assert(found[k] == r);
            }
        }
    }
    assert forall|i: int, r: int| 0 <= i < done && foreground(bitmap, r)
        && #[trigger] adjacent(longer[i], r, width, connectivity8) implies longer.contains(r) by {
        assert(longer[i] == found[i]);
        assert(adjacent(found[i], r, width, connectivity8));
    }
    assert forall|s: int| 0 <= s < looked + 1
        && foreground(bitmap, #[trigger] map_neighbors(longer[done], width, height, connectivity8, 8)[s])
        implies longer.contains(map_neighbors(longer[done], width, height, connectivity8, 8)[s]) by {
        if s < looked {
            assert(found.contains(list[s]));
        }
    }
    // The new pixel is found from `p` and from no earlier pixel.
    assert forall|i: int| #[trigger] discovered_by(longer, last, i, width, connectivity8) <==> i == done by {
        assert forall|j: int| 0 <= j < done implies !adjacent(#[trigger] longer[j], q, width, connectivity8) by {
            assert(longer[j] == found[j]);
        }
        assert(adjacent(longer[done], longer[last], width, connectivity8));
        if i == done {
            assert(discovered_by(longer, last, i, width, connectivity8));
        } else if i > done && discovered_by(longer, last, i, width, connectivity8) {
            assert(!adjacent(longer[done], longer[last], width, connectivity8));
        }
    }
    assert forall|k: int| 0 < k < longer.len() implies #[trigger] is_discovered(longer, k, width, connectivity8) by {
        if k < last {
            assert(is_discovered(found, k, width, connectivity8));
            let i = choose|i: int| #[trigger] discovered_by(found, k, i, width, connectivity8);
            assert(discovered_by(longer, k, i, width, connectivity8));
        } else {
            assert(discovered_by(longer, last, done, width, connectivity8));
        }
    }
    assert forall|k: int, i: int| #[trigger] discovered_by(longer, k, i, width, connectivity8) implies {
        ||| i < done
        ||| i == done && exists|s: int| 0 <= s < looked + 1
            && #[trigger] map_neighbors(longer[done], width, height, connectivity8, 8)[s] == longer[k]
    } by {
        if k < last {
            assert(discovered_by(found, k, i, width, connectivity8));
            assert(longer[k] == found[k]);
            if i >= done {
                let s = choose|s: int| 0 <= s < looked
                    && #[trigger] map_neighbors(found[done], width, height, connectivity8, 8)[s] == found[k];
                assert(map_neighbors(longer[done], width, height, connectivity8, 8)[s] == longer[k]);
            }
        } else {
            assert(map_neighbors(longer[done], width, height, connectivity8, 8)[looked] == longer[k]);
        }
    }
    assert forall|k: int, i: int, l: int, j: int| k < l
        && #[trigger] discovered_by(longer, k, i, width, connectivity8)
        && #[trigger] discovered_by(longer, l, j, width, connectivity8) implies discovered_before(
        longer,
        k,
        i,
        l,
        j,
        width,
    ) by {
        assert(discovered_by(found, k, i, width, connectivity8));
        assert(longer[i] == found[i] && longer[k] == found[k]);
        if l < last {
            assert(discovered_by(found, l, j, width, connectivity8));
            assert(longer[l] == found[l]);
            assert(discovered_before(found, k, i, l, j, width));
        } else {
            assert(j == done);
            if i >= done {
                let s = choose|s: int| 0 <= s < looked
                    && #[trigger] map_neighbors(found[done], width, height, connectivity8, 8)[s] == found[k];
                assert(list[s] == found[k]);
                assert(direction(p, list[s], width) < direction(p, list[looked], width));
            }
        }
    }
    assert(breadth_first(longer, width, connectivity8));
}

/// A neighbour that is no foreground pixel, or is marked already, is passed over.
proof fn lemma_flood_skip(
    bitmap: Seq<u8>,
    width: int,
    height: int,
    connectivity8: bool,
    start: int,
    before: Seq<bool>,
    now: Seq<bool>,
    found: Seq<int>,
    done: int,
    looked: int,
)
    requires
        width > 0,
        bitmap.len() == width * height,
        flood_state(bitmap, width, height, connectivity8, start, before, now, found, done, looked),
        marks_closed(bitmap, before, width, connectivity8),
        done < found.len(),
        looked < map_neighbors(found[done], width, height, connectivity8, 8).len(),
        ({
            let q = map_neighbors(found[done], width, height, connectivity8, 8)[looked];
            !foreground(bitmap, q) || now[q]
        }),
    ensures
        flood_state(bitmap, width, height, connectivity8, start, before, now, found, done, looked + 1),
{
    reveal(flood_state);
    let p = found[done];
    let list = map_neighbors(p, width, height, connectivity8, 8);
    let q = list[looked];
    assert(foreground(bitmap, p));
    lemma_neighbor_list(p, width, height, connectivity8, 8);
    assert(adjacent(p, q, width, connectivity8));
    assert(adjacent(q, p, width, connectivity8));
    assert(foreground(bitmap, q) ==> found.contains(q));
    assert forall|k: int, i: int| #[trigger] discovered_by(found, k, i, width, connectivity8) implies {
        ||| i < done
        ||| i == done && exists|s: int| 0 <= s < looked + 1
            && #[trigger] map_neighbors(found[done], width, height, connectivity8, 8)[s] == found[k]
    } by {
        if i >= done {
            let s = choose|s: int| 0 <= s < looked
                && #[trigger] map_neighbors(found[done], width, height, connectivity8, 8)[s] == found[k];
            assert(list[s] == found[k]);
        }
    }
}

/// Once all its neighbours were looked at, a pixel is done.
proof fn lemma_flood_advance(
    bitmap: Seq<u8>,
    width: int,
    height: int,
    connectivity8: bool,
    start: int,
    before: Seq<bool>,
    now: Seq<bool>,
    found: Seq<int>,
    done: int,
    looked: int,
)
    requires
        width > 0,
        bitmap.len() == width * height,
        flood_state(bitmap, width, height, connectivity8, start, before, now, found, done, looked),
        done < found.len(),
        looked == map_neighbors(found[done], width, height, connectivity8, 8).len(),
    ensures
        flood_state(bitmap, width, height, connectivity8, start, before, now, found, done + 1, 0),
{
    reveal(flood_state);
    let p = found[done];
    let list = map_neighbors(p, width, height, connectivity8, 8);
    assert(foreground(bitmap, p));
    lemma_neighbor_list(p, width, height, connectivity8, 8);
    assert forall|i: int, q: int| 0 <= i < done + 1 && foreground(bitmap, q)
        && #[trigger] adjacent(found[i], q, width, connectivity8) implies found.contains(q) by {
        if i == done {
            lemma_row(q, width, height);
            assert(direction(p, q, width) < 8);
            assert(list.contains(q));
            let s = choose|s: int| 0 <= s < list.len() && list[s] == q;
            assert(found.contains(map_neighbors(found[done], width, height, connectivity8, 8)[s]));
        }
    }
}

/// When every found pixel is done, the found pixels are the component of the start.
proof fn lemma_flood_finish(
    bitmap: Seq<u8>,
    width: int,
    height: int,
    connectivity8: bool,
    start: int,
    before: Seq<bool>,
    now: Seq<bool>,
    found: Seq<int>,
)
    requires
        flood_state(
            bitmap,
            width,
            height,
            connectivity8,
            start,
            before,
            now,
            found,
            found.len() as int,
            0,
        ),
    ensures
        found.len() > 0,
        found[0] == start,
        found.no_duplicates(),
        breadth_first(found, width, connectivity8),
        now.len() == before.len(),
        forall|p: int| #[trigger] found.contains(p) <==> connected(bitmap, start, p, width, connectivity8),
        forall|p: int| #[trigger] found.contains(p) ==> foreground(bitmap, p) && !before[p],
        forall|p: int| 0 <= p < bitmap.len() ==> #[trigger] now[p] == (before[p] || found.contains(p)),
{
    reveal(flood_state);
    let members = found.to_set();
    assert(forall|p: int| members.contains(p) <==> found.contains(p));
    assert forall|p: int, q: int| members.contains(p) && foreground(bitmap, q)
        && #[trigger] adjacent(p, q, width, connectivity8) implies members.contains(q) by {
        let i = choose|i: int| 0 <= i < found.len() && found[i] == p;
        assert(adjacent(found[i], q, width, connectivity8));
    }
    assert(found.contains(found[0]));
    assert forall|p: int| #[trigger] found.contains(p) <==> connected(bitmap, start, p, width, connectivity8) by {
        if connected(bitmap, start, p, width, connectivity8) {
            lemma_connected_stays(members, bitmap, start, p, width, connectivity8);
        }
    }
}

/// Extends the bounding box of the first `n` pixels by the pixel after them.
proof fn lemma_bounding_box_push(
    order: Seq<int>,
    p: int,
    width: int,
    old_box: (int, int, int, int),
    new_box: (int, int, int, int),
)
    requires
        order.len() > 0 ==> bounding_box(order, width, old_box.0, old_box.1, old_box.2, old_box.3),
        order.len() == 0 ==> new_box == (column(p, width), row(p, width), column(p, width), row(p, width)),
        order.len() > 0 ==> {
            &&& new_box.0 == if column(p, width) < old_box.0 { column(p, width) } else { old_box.0 }
            &&& new_box.1 == if row(p, width) < old_box.1 { row(p, width) } else { old_box.1 }
            &&& new_box.2 == if column(p, width) > old_box.2 { column(p, width) } else { old_box.2 }
            &&& new_box.3 == if row(p, width) > old_box.3 { row(p, width) } else { old_box.3 }
        },
    ensures
        bounding_box(order.push(p), width, new_box.0, new_box.1, new_box.2, new_box.3),
{
    let longer = order.push(p);
    let last = order.len() as int;
    assert(longer[last] == p);
    assert forall|i: int| 0 <= i < longer.len() implies {
        &&& new_box.0 <= column(#[trigger] longer[i], width) <= new_box.2
        &&& new_box.1 <= row(longer[i], width) <= new_box.3
    } by {
        if i < last {
            assert(longer[i] == order[i]);
        }
    }
    if last > 0 {
        let a = choose|i: int| 0 <= i < order.len() && column(#[trigger] order[i], width) == old_box.0;
        let b = choose|i: int| 0 <= i < order.len() && row(#[trigger] order[i], width) == old_box.1;
        let c = choose|i: int| 0 <= i < order.len() && column(#[trigger] order[i], width) == old_box.2;
        let d = choose|i: int| 0 <= i < order.len() && row(#[trigger] order[i], width) == old_box.3;
        assert(longer[a] == order[a] && longer[b] == order[b] && longer[c] == order[c] && longer[d] == order[d]);
    }
}

/// Collects the component of `start` and marks its pixels in `visited`.
#[verifier::spinoff_prover]
#[verifier::rlimit(40)]
fn flood(
    bitmap: &[u8],
    width: usize,
    height: usize,
    connectivity8: bool,
    start: usize,
    visited: &mut Vec<bool>,
) -> (comp: Component)
    requires
        width > 0,
        bitmap.len() == width * height,
        bitmap.len() <= 0x1_0000_0000,
        old(visited).len() == bitmap.len(),
        foreground(bitmap@, start as int),
        !old(visited)[start as int],
        marks_closed(bitmap@, old(visited)@, width as int, connectivity8),
    ensures
        final(visited).len() == bitmap.len(),
        forall|p: int| 0 <= p < bitmap.len() ==> (#[trigger] final(visited)[p]) == (old(visited)[p] || comp.has(p)),
        forall|p: int| #[trigger] comp.has(p) ==> foreground(bitmap@, p) && !old(visited)[p],
        comp.pixels@.len() > 0,
        comp.start() == start,
        comp.order().no_duplicates(),
        forall|p: int| #[trigger] comp.has(p) <==> connected(
            bitmap@,
            start as int,
            p,
            width as int,
            connectivity8,
        ),
        breadth_first(comp.order(), width as int, connectivity8),
        bounding_box(
            comp.order(),
            width as int,
            comp.min_x as int,
            comp.min_y as int,
            comp.max_x as int,
            comp.max_y as int,
        ),
{
    let ghost before = visited@;
    let ghost map = bitmap@;
    let ghost w = width as int;
    let ghost h = height as int;
    let mut queue: VecDeque<usize> = VecDeque::with_capacity(256);
    visited[start] = true;
    queue.push_back(start);
    let mut comp = Component { pixels: Vec::new(), min_x: width, min_y: height, max_x: 0, max_y: 0 };
    let ghost mut found: Seq<int> = seq![start as int];
    proof {
        lemma_flood_init(map, w, h, connectivity8, start as int, before);
    }
    while queue.len() > 0
        invariant
            width > 0,
            bitmap@ == map,
            w == width,
            h == height,
            map.len() == width * height,
            map.len() <= 0x1_0000_0000,
            visited.len() == map.len(),
            marks_closed(map, before, w, connectivity8),
            flood_state(
                map,
                w,
                h,
                connectivity8,
                start as int,
                before,
                visited@,
                found,
                comp.pixels@.len() as int,
                0,
            ),
            found.len() == comp.pixels@.len() + queue@.len(),
            comp.order() == found.take(comp.pixels@.len() as int),
            forall|k: int| 0 <= k < queue@.len() ==> #[trigger] queue@[k] as int == found[comp.pixels@.len() + k],
            comp.pixels@.len() == 0 ==> comp.min_x == width && comp.min_y == height && comp.max_x == 0
                && comp.max_y == 0,
            comp.pixels@.len() > 0 ==> bounding_box(
                comp.order(),
                w,
                comp.min_x as int,
                comp.min_y as int,
                comp.max_x as int,
                comp.max_y as int,
            ),
        decreases map.len() - comp.pixels@.len(),
    {
        let ghost done = comp.pixels@.len() as int;
        let ghost old_comp = comp;
        proof {
            reveal(flood_state);
            assert(queue@[0] as int == found[done]);
            lemma_distinct_bound(found, map.len() as int);
            lemma_row(found[done], w, h);
        }
        let idx = match queue.pop_front() {
            Some(idx) => idx,
            None => start,
        };
        assert(idx == found[done]);
        let x = idx % width;
        let y = idx / width;
        comp.pixels.push(idx as u32);
        if x < comp.min_x {
            comp.min_x = x;
        }
        if x > comp.max_x {
            comp.max_x = x;
        }
        if y < comp.min_y {
            comp.min_y = y;
        }
        if y > comp.max_y {
            comp.max_y = y;
        }
        proof {
            assert(comp.order() =~= old_comp.order().push(idx as int));
            assert(comp.order() =~= found.take(done + 1));
            lemma_bounding_box_push(
                old_comp.order(),
                idx as int,
                w,
                (old_comp.min_x as int, old_comp.min_y as int, old_comp.max_x as int, old_comp.max_y as int),
                (comp.min_x as int, comp.min_y as int, comp.max_x as int, comp.max_y as int),
            );
        }
        let left = x > 0;
        let right = x + 1 < width;
        let up = y > 0;
        let down = y + 1 < height;
        proof {
            vstd::arithmetic::div_mod::lemma_fundamental_div_mod(idx as int, w);
            assert(y > 0 ==> width <= idx && (x > 0 ==> width + 1 <= idx)) by (nonlinear_arith)
                requires
                    idx == width * y + x,
                    0 <= x,
                    0 < width,
            ;
            if up {
                lemma_step(idx as int, w, h, 2);
            }
            if down {
                lemma_step(idx as int, w, h, 3);
            }
            if up && left {
                lemma_step(idx as int, w, h, 4);
            }
            if down && right {
                lemma_step(idx as int, w, h, 7);
            }
        }
        let around = neighbors(idx, width, left, right, up, down, connectivity8);
        let ghost list = map_neighbors(idx as int, w, h, connectivity8, 8);
        proof {
            assert(around@.map_values(|v: usize| v as int) == list);
            assert(forall|s: int| 0 <= s < around@.len() ==> around@.map_values(|v: usize| v as int)[s] == around@[s] as int);
            assert(around.len() == list.len());
            assert(forall|s: int| 0 <= s < around@.len() ==> #[trigger] around@[s] as int == list[s]);
            lemma_neighbor_list(idx as int, w, h, connectivity8, 8);
        }
        let mut t: usize = 0;
        while t < around.len()
            invariant
                width > 0,
                bitmap@ == map,
                w == width,
                h == height,
                map.len() == width * height,
                map.len() <= 0x1_0000_0000,
                visited.len() == map.len(),
                marks_closed(map, before, w, connectivity8),
                0 <= done < found.len(),
                found[done] == idx,
                list == map_neighbors(idx as int, w, h, connectivity8, 8),
                around.len() == list.len(),
                forall|s: int| 0 <= s < around@.len() ==> #[trigger] around@[s] as int == list[s],
                forall|s: int| 0 <= s < list.len() ==> 0 <= #[trigger] list[s] < w * h,
                t <= around.len(),
                flood_state(
                    map,
                    w,
                    h,
                    connectivity8,
                    start as int,
                    before,
                    visited@,
                    found,
                    done,
                    t as int,
                ),
                comp.pixels@.len() == done + 1,
                comp.order() == found.take(done + 1),
                found.len() == comp.pixels@.len() + queue@.len(),
                forall|k: int| 0 <= k < queue@.len() ==> #[trigger] queue@[k] as int == found[comp.pixels@.len() + k],
            decreases around.len() - t,
        {
            let nidx = around[t];
            assert(nidx as int == list[t as int]);
            if !visited[nidx] && bitmap[nidx] != 0 {
                proof {
                    lemma_flood_push(
                        map,
                        w,
                        h,
                        connectivity8,
                        start as int,
                        before,
                        visited@,
                        found,
                        done,
                        t as int,
                    );
                }
                let ghost old_found = found;
                visited[nidx] = true;
                queue.push_back(nidx);
                proof {
                    found = found.push(nidx as int);
                    assert(found.take(done + 1) =~= old_found.take(done + 1));
                    assert forall|k: int| 0 <= k < queue@.len() implies #[trigger] queue@[k] as int
                        == found[comp.pixels@.len() + k] by {
                        if k < queue@.len() - 1 {
                            assert(found[comp.pixels@.len() + k] == old_found[comp.pixels@.len() + k]);
                        }
                    }
                }
            } else {
                proof {
                    lemma_flood_skip(
                        map,
                        w,
                        h,
                        connectivity8,
                        start as int,
                        before,
                        visited@,
                        found,
                        done,
                        t as int,
                    );
                }
            }
            t += 1;
        }
        proof {
            lemma_flood_advance(
                map,
                w,
                h,
                connectivity8,
                start as int,
                before,
                visited@,
                found,
                done,
                t as int,
            );
        }
    }
    proof {
        assert(comp.order() =~= found);
        lemma_flood_finish(map, w, h, connectivity8, start as int, before, visited@, found);
    }
    comp
}

/// Finds the connected components of the map, in the order of their first pixels; the
/// pixels of each stand in breadth-first order.
pub fn find_connected_components(
    bitmap: &[u8],
    width: usize,
    height: usize,
    connectivity8: bool,
) -> (components: Vec<Component>)
    requires
        bitmap.len() == width * height,
        bitmap.len() <= 0x1_0000_0000,
    ensures
        components_of(components@, bitmap@, width as int, connectivity8),
{
    let ghost w = width as int;
    let mut visited: Vec<bool> = vec![false; bitmap.len()];
    let mut components: Vec<Component> = Vec::new();
    let mut start: usize = 0;
    while start < bitmap.len()
        invariant
            start <= bitmap.len(),
            w == width,
            bitmap.len() == width * height,
            bitmap.len() <= 0x1_0000_0000,
            visited.len() == bitmap.len(),
            marks_closed(bitmap@, visited@, w, connectivity8),
            forall|p: int| 0 <= p < start && #[trigger] foreground(bitmap@, p) ==> visited[p],
            forall|i: int| 0 <= i < components.len() ==> (#[trigger] components[i]).is_component_of(
                bitmap@,
                w,
                connectivity8,
            ),
            forall|i: int| 0 <= i < components.len() ==> (#[trigger] components[i]).start() < start,
            forall|i: int, j: int| 0 <= i < j < components.len() ==>
                (#[trigger] components[i]).start() < (#[trigger] components[j]).start(),
            forall|p: int| 0 <= p < bitmap.len() && #[trigger] visited[p] ==> exists|i: int|
                0 <= i < components.len() && (#[trigger] components[i]).has(p),
        decreases bitmap.len() - start,
    {
        if bitmap[start] != 0 && !visited[start] {
            let ghost before = visited@;
            let ghost known = components@;
            assert(width > 0) by (nonlinear_arith)
                requires
                    width * height > 0,
                    width >= 0,
            ;
            let comp = flood(bitmap, width, height, connectivity8, start, &mut visited);
            components.push(comp);
            proof {
                let n = known.len() as int;
                let fresh = components[n];
                assert(fresh == comp);
                assert(forall|i: int| 0 <= i < n ==> components[i] == known[i]);
                assert forall|p: int| #[trigger] fresh.has(p) implies fresh.start() <= p by {
                    assert(foreground(bitmap@, p) && !before[p]);
                }
                assert(comp.has(start as int)) by {
                    assert(comp.order()[0] == start);
                }
                assert forall|p: int, q: int| foreground(bitmap@, p) && visited[p] && foreground(bitmap@, q)
                    && #[trigger] adjacent(p, q, w, connectivity8) implies visited[q] by {
                    assert(visited[p] == (before[p] || comp.has(p)));
                    assert(visited[q] == (before[q] || comp.has(q)));
                    if comp.has(p) {
                        lemma_connected_step(bitmap@, start as int, p, q, w, connectivity8);
                        assert(comp.has(q));
                    }
                }
                assert forall|p: int| 0 <= p < bitmap.len() && #[trigger] visited[p] implies exists|i: int|
                    0 <= i < components.len() && (#[trigger] components[i]).has(p) by {
                    if before[p] {
                        let i = choose|i: int| 0 <= i < known.len() && (#[trigger] known[i]).has(p);
                        assert(components[i].has(p));
                    } else {
                        assert(components[n].has(p));
                    }
                }
                assert forall|p: int| 0 <= p < start + 1 && #[trigger] foreground(bitmap@, p) implies visited[p] by {
                    if p == start {
                        assert(comp.has(p));
                    }
                }
            }
        }
        start += 1;
    }
    proof {
        assert forall|p: int| #[trigger] foreground(bitmap@, p) implies exists|i: int|
            0 <= i < components.len() && (#[trigger] components[i]).has(p) by {
            assert(visited[p]);
        }
    }
    components
}

// ---------------------------------------------------------------------------
// Laws of connectivity
// ---------------------------------------------------------------------------

/// Connectivity is symmetric: a path may be walked backwards.
pub proof fn connected_is_symmetric(bitmap: Seq<u8>, p: int, q: int, width: int, connectivity8: bool)
    requires
        connected(bitmap, p, q, width, connectivity8),
    ensures
        connected(bitmap, q, p, width, connectivity8),
{
    let path = choose|path: Seq<int>| #[trigger] is_path(bitmap, path, width, connectivity8)
        && path[0] == p && path[path.len() - 1] == q;
    let back = path.reverse();
    let n = path.len() as int;
    assert forall|i: int| 0 <= i < back.len() implies foreground(bitmap, #[trigger] back[i]) by {
        assert(foreground(bitmap, path[n - 1 - i]));
    }
    assert forall|i: int| 0 < i < back.len() implies #[trigger] linked(back, i, width, connectivity8) by {
        assert(linked(path, n - i, width, connectivity8));
        assert(back[i] == path[n - 1 - i]);
        assert(back[i - 1] == path[n - i]);
    }
    assert(is_path(bitmap, back, width, connectivity8));
}

/// Connectivity is transitive: a path may be followed by another that starts at its end.
pub proof fn connected_is_transitive(
    bitmap: Seq<u8>,
    p: int,
    q: int,
    r: int,
    width: int,
    connectivity8: bool,
)
    requires
        connected(bitmap, p, q, width, connectivity8),
        connected(bitmap, q, r, width, connectivity8),
    ensures
        connected(bitmap, p, r, width, connectivity8),
{
    let first = choose|path: Seq<int>| #[trigger] is_path(bitmap, path, width, connectivity8)
        && path[0] == p && path[path.len() - 1] == q;
    let second = choose|path: Seq<int>| #[trigger] is_path(bitmap, path, width, connectivity8)
        && path[0] == q && path[path.len() - 1] == r;
    let n = first.len() as int;
    let whole = first + second.skip(1);
    assert forall|i: int| 0 <= i < whole.len() implies foreground(bitmap, #[trigger] whole[i]) by {
        if i < n {
            assert(foreground(bitmap, first[i]));
        } else {
            assert(foreground(bitmap, second[i - n + 1]));
        }
    }
    assert forall|i: int| 0 < i < whole.len() implies #[trigger] linked(whole, i, width, connectivity8) by {
        if i < n {
            assert(linked(first, i, width, connectivity8));
            assert(whole[i] == first[i] && whole[i - 1] == first[i - 1]);
        } else {
            assert(linked(second, i - n + 1, width, connectivity8));
            assert(whole[i] == second[i - n + 1]);
            assert(whole[i - 1] == second[i - n]);
        }
    }
    assert(is_path(bitmap, whole, width, connectivity8));
    assert(whole[whole.len() - 1] == r);
}

/// Pixels connected by edges alone are connected by edges and corners.
pub proof fn connected_by_edges_is_connected(bitmap: Seq<u8>, p: int, q: int, width: int)
    requires
        connected(bitmap, p, q, width, false),
    ensures
        connected(bitmap, p, q, width, true),
{
    let path = choose|path: Seq<int>| #[trigger] is_path(bitmap, path, width, false)
        && path[0] == p && path[path.len() - 1] == q;
    assert forall|i: int| 0 < i < path.len() implies #[trigger] linked(path, i, width, true) by {
        assert(linked(path, i, width, false));
    }
    assert(is_path(bitmap, path, width, true));
}

/// No pixel lies in two components.
pub proof fn components_are_disjoint(
    components: Seq<Component>,
    bitmap: Seq<u8>,
    width: int,
    connectivity8: bool,
    i: int,
    j: int,
    p: int,
)
    requires
        components_of(components, bitmap, width, connectivity8),
        0 <= i < components.len(),
        0 <= j < components.len(),
        components[i].has(p),
        components[j].has(p),
    ensures
        i == j,
{
    let a = components[i].start();
    let b = components[j].start();
    assert(connected(bitmap, a, p, width, connectivity8));
    assert(connected(bitmap, b, p, width, connectivity8));
    connected_is_symmetric(bitmap, b, p, width, connectivity8);
    connected_is_transitive(bitmap, a, p, b, width, connectivity8);
    assert(components[i].has(b));
    connected_is_symmetric(bitmap, a, b, width, connectivity8);
    assert(components[j].has(a));
}

/// The ends of a path are foreground pixels.
proof fn lemma_connected_foreground(bitmap: Seq<u8>, p: int, q: int, width: int, connectivity8: bool)
    requires
        connected(bitmap, p, q, width, connectivity8),
    ensures
        foreground(bitmap, p),
        foreground(bitmap, q),
{
    let path = choose|path: Seq<int>| #[trigger] is_path(bitmap, path, width, connectivity8)
        && path[0] == p && path[path.len() - 1] == q;
    assert(foreground(bitmap, path[0]));
    assert(foreground(bitmap, path[path.len() - 1]));
}

/// A component of a map has pixels, and they are foreground pixels.
pub(crate) proof fn lemma_pixels_are_foreground(c: Component, bitmap: Seq<u8>, width: int, connectivity8: bool)
    requires
        c.is_component_of(bitmap, width, connectivity8),
    ensures
        c.pixels.len() > 0,
        forall|k: int| 0 <= k < c.pixels.len() ==> foreground(bitmap, #[trigger] c.pixels[k] as int),
{
    assert forall|k: int| 0 <= k < c.pixels.len() implies foreground(bitmap, #[trigger] c.pixels[k] as int) by {
        let p = c.pixels[k] as int;
        assert(c.order()[k] == p);
        assert(c.has(p));
        lemma_connected_foreground(bitmap, c.start(), p, width, connectivity8);
    }
}

/// The components cover the foreground and nothing else.
pub proof fn components_cover_foreground(
    components: Seq<Component>,
    bitmap: Seq<u8>,
    width: int,
    connectivity8: bool,
    p: int,
)
    requires
        components_of(components, bitmap, width, connectivity8),
    ensures
        foreground(bitmap, p) <==> exists|i: int| 0 <= i < components.len() && (#[trigger] components[i]).has(p),
{
    if exists|i: int| 0 <= i < components.len() && (#[trigger] components[i]).has(p) {
        let i = choose|i: int| 0 <= i < components.len() && (#[trigger] components[i]).has(p);
        assert(components[i].is_component_of(bitmap, width, connectivity8));
        lemma_connected_foreground(bitmap, components[i].start(), p, width, connectivity8);
    }
}

/// Two pixels lie in one component exactly when a path connects them.
pub proof fn components_are_connectivity_classes(
    components: Seq<Component>,
    bitmap: Seq<u8>,
    width: int,
    connectivity8: bool,
    p: int,
    q: int,
)
    requires
        components_of(components, bitmap, width, connectivity8),
    ensures
        connected(bitmap, p, q, width, connectivity8) <==> exists|i: int| 0 <= i < components.len()
            && (#[trigger] components[i]).has(p) && components[i].has(q),
{
    if connected(bitmap, p, q, width, connectivity8) {
        lemma_connected_foreground(bitmap, p, q, width, connectivity8);
        let i = choose|i: int| 0 <= i < components.len() && (#[trigger] components[i]).has(p);
        assert(components[i].is_component_of(bitmap, width, connectivity8));
        connected_is_transitive(bitmap, components[i].start(), p, q, width, connectivity8);
        assert(components[i].has(q));
    } else if exists|i: int| 0 <= i < components.len() && (#[trigger] components[i]).has(p) && components[i].has(q) {
        let i = choose|i: int| 0 <= i < components.len() && (#[trigger] components[i]).has(p)
            && components[i].has(q);
        assert(components[i].is_component_of(bitmap, width, connectivity8));
        connected_is_symmetric(bitmap, components[i].start(), p, width, connectivity8);
        connected_is_transitive(bitmap, p, components[i].start(), q, width, connectivity8);
    }
}

// ---------------------------------------------------------------------------
// Dilation
// ---------------------------------------------------------------------------

/// The value at column `x` and row `y`, or 0 outside of the map.
pub open spec fn value_at(bitmap: Seq<u8>, width: int, height: int, x: int, y: int) -> u8 {
    if 0 <= x < width && 0 <= y < height {
        bitmap[y * width + x]
    } else {
        0
    }
}

/// The larger of two bytes.
pub open spec fn larger(a: u8, b: u8) -> u8 {
    if a < b { b } else { a }
}

/// The largest value in the two by two block whose upper left pixel is (`x`, `y`).
pub open spec fn block_max(bitmap: Seq<u8>, width: int, height: int, x: int, y: int) -> u8 {
    larger(
        larger(value_at(bitmap, width, height, x, y), value_at(bitmap, width, height, x + 1, y)),
        larger(value_at(bitmap, width, height, x, y + 1), value_at(bitmap, width, height, x + 1, y + 1)),
    )
}

/// The map in which every pixel holds the largest value of its two by two block. What
/// stands behind the pixels stays as it is.
pub open spec fn dilated(bitmap: Seq<u8>, width: int, height: int) -> Seq<u8> {
    Seq::new(
        bitmap.len(),
        |i: int|
            if i < width * height {
                block_max(bitmap, width, height, column(i, width), row(i, width))
            } else {
                bitmap[i]
            },
    )
}

/// Dilates the map with a two by two kernel: every pixel takes the largest value among
/// itself, its right and its lower neighbour, and the pixel below on the right.
pub fn dilate_bitmap(bitmap: &mut Vec<u8>, width: usize, height: usize)
    requires
        old(bitmap).len() >= width * height,
    ensures
        final(bitmap)@ == dilated(old(bitmap)@, width as int, height as int),
{
    let src = bitmap.clone();
    let ghost w = width as int;
    let ghost h = height as int;
    let mut y: usize = 0;
    while y < height
        invariant
            w == width,
            h == height,
            src@ == old(bitmap)@,
            src.len() >= width * height,
            bitmap.len() == src.len(),
            y <= height,
            forall|i: int| 0 <= i < y * width ==> #[trigger] bitmap[i] == dilated(src@, w, h)[i],
            forall|i: int| width * height <= i < src.len() ==> #[trigger] bitmap[i] == src[i],
        decreases height - y,
    {
        let mut x: usize = 0;
        while x < width
            invariant
                w == width,
                h == height,
                src.len() >= width * height,
                bitmap.len() == src.len(),
                y < height,
                x <= width,
                forall|i: int| 0 <= i < y * width + x ==> #[trigger] bitmap[i] == dilated(src@, w, h)[i],
                forall|i: int| width * height <= i < src.len() ==> #[trigger] bitmap[i] == src[i],
            decreases width - x,
        {
            let ghost i = y * width + x;
            proof {
                lemma_cell(w, h, x as int, y as int);
                if x + 1 < width {
                    lemma_cell(w, h, x + 1, y as int);
                }
                if y + 1 < height {
                    lemma_cell(w, h, x as int, y + 1);
                }
                if x + 1 < width && y + 1 < height {
                    lemma_cell(w, h, x + 1, y + 1);
                }
                assert((y + 1) * width == y * width + width) by (nonlinear_arith);
            }
            let mut v: u8 = src[y * width + x];
            if x + 1 < width {
                let right = src[y * width + x + 1];
                if v < right {
                    v = right;
                }
            }
            if y + 1 < height {
                let below = src[(y + 1) * width + x];
                if v < below {
                    v = below;
                }
            }
            if x + 1 < width && y + 1 < height {
                let corner = src[(y + 1) * width + x + 1];
                if v < corner {
                    v = corner;
                }
            }
            bitmap[y * width + x] = v;
            assert(v == block_max(src@, w, h, x as int, y as int));
            x += 1;
        }
        assert((y + 1) * width == y * width + width) by (nonlinear_arith);
        y += 1;
    }
    assert(bitmap@ =~= dilated(src@, w, h)) by {
        assert(y * width == width * height) by (nonlinear_arith)
            requires
                y == height,
        ;
    }
}

/// The linear index of a pixel leads back to its column and row.
proof fn lemma_cell(width: int, height: int, x: int, y: int)
    requires
        0 <= x < width,
        0 <= y < height,
    ensures
        0 <= y * width + x < width * height,
        0 <= y * width,
        column(y * width + x, width) == x,
        row(y * width + x, width) == y,
{
    vstd::arithmetic::div_mod::lemma_fundamental_div_mod_converse(y * width + x, width, y, x);
    assert(0 <= y * width && y * width + x < width * height) by (nonlinear_arith)
        requires
            0 <= x < width,
            0 <= y < height,
    ;
}

/// Dilation keeps every foreground pixel.
pub proof fn dilation_keeps_foreground(bitmap: Seq<u8>, width: int, height: int, p: int)
    requires
        bitmap.len() >= width * height,
        0 < width,
        foreground(bitmap, p),
    ensures
        foreground(dilated(bitmap, width, height), p),
{
    if p < width * height {
        lemma_row(p, width, height);
    }
}

/// Dilation makes zeros and ones of zeros and ones.
pub proof fn dilation_keeps_bits(bitmap: Seq<u8>, width: int, height: int, p: int)
    requires
        bitmap.len() >= width * height,
        0 <= width,
        0 <= height,
        forall|i: int| 0 <= i < bitmap.len() ==> #[trigger] bitmap[i] <= 1,
        0 <= p < bitmap.len(),
    ensures
        dilated(bitmap, width, height)[p] <= 1,
{
    if p < width * height {
        let (x, y) = (column(p, width), row(p, width));
        assert forall|u: int, v: int| value_at(bitmap, width, height, u, v) <= 1 by {
            if 0 <= u < width && 0 <= v < height {
                lemma_cell(width, height, u, v);
            }
        }
    }
}

/// Where the pixel of a column and a row stands.
proof fn lemma_place_of(x: int, y: int, width: int, height: int)
    requires
        0 <= x < width,
        0 <= y < height,
    ensures
        column(y * width + x, width) == x,
        row(y * width + x, width) == y,
        0 <= y * width + x < width * height,
{
    vstd::arithmetic::div_mod::lemma_fundamental_div_mod_converse(y * width + x, width, y, x);
    assert(0 <= y * width + x < width * height) by (nonlinear_arith)
        requires
            0 <= x < width,
            0 <= y < height,
    ;
}

/// Two pixels of the foreground that touch each other belong to one component: side by side or
/// one above the other, and with eight neighbours also across a corner.
pub proof fn touching_pixels_are_of_one_component(
    components: Seq<Component>,
    bitmap: Seq<u8>,
    width: int,
    height: int,
    connectivity8: bool,
    x: int,
    y: int,
    u: int,
    v: int,
) -> (i: int)
    requires
        components_of(components, bitmap, width, connectivity8),
        bitmap.len() == width * height,
        0 <= x < width,
        0 <= y < height,
        0 <= u < width,
        0 <= v < height,
        bitmap[y * width + x] != 0,
        bitmap[v * width + u] != 0,
        -1 <= u - x <= 1,
        -1 <= v - y <= 1,
        connectivity8 || u == x || v == y,
    ensures
        0 <= i < components.len(),
        components[i].has(y * width + x),
        components[i].has(v * width + u),
{
    let (p, q) = (y * width + x, v * width + u);
    lemma_place_of(x, y, width, height);
    lemma_place_of(u, v, width, height);
    let path = if p == q {
        seq![p]
    } else {
        seq![p, q]
    };
    assert forall|k: int| 0 < k < path.len() implies #[trigger] linked(path, k, width, connectivity8) by {
        assert(path[0] == p && path[1] == q);
    }
    assert(is_path(bitmap, path, width, connectivity8));
    assert(path[0] == p && path[path.len() - 1] == q);
    assert(connected(bitmap, p, q, width, connectivity8));
    components_are_connectivity_classes(components, bitmap, width, connectivity8, p, q);
    choose|i: int| 0 <= i < components.len() && (#[trigger] components[i]).has(p) && components[i].has(q)
}

/// From any pixel of a component to any other there is a way over pixels of the foreground,
/// each of which touches the one before: by a side, or with eight neighbours by a corner too.
pub proof fn components_hang_together(
    components: Seq<Component>,
    bitmap: Seq<u8>,
    width: int,
    connectivity8: bool,
    i: int,
    p: int,
    q: int,
) -> (way: Seq<int>)
    requires
        components_of(components, bitmap, width, connectivity8),
        0 <= i < components.len(),
        components[i].has(p),
        components[i].has(q),
    ensures
        way.len() > 0,
        way[0] == p,
        way[way.len() - 1] == q,
        forall|k: int|
            0 <= k < way.len() ==> 0 <= #[trigger] way[k] < bitmap.len() && bitmap[way[k]] != 0,
        forall|k: int|
            #![trigger way[k]]
            0 < k < way.len() ==> {
                let (dx, dy) = (way[k] % width - way[k - 1] % width, way[k] / width - way[k - 1] / width);
                &&& -1 <= dx <= 1
                &&& -1 <= dy <= 1
                &&& connectivity8 || dx == 0 || dy == 0
            },
{
    components_are_connectivity_classes(components, bitmap, width, connectivity8, p, q);
    let way = choose|path: Seq<int>| #[trigger]
        is_path(bitmap, path, width, connectivity8) && path[0] == p && path[path.len() - 1] == q;
    assert forall|k: int| 0 <= k < way.len() implies 0 <= #[trigger] way[k] < bitmap.len() && bitmap[way[k]] != 0 by {
        assert(foreground(bitmap, way[k]));
    }
    assert forall|k: int|
        #![trigger way[k]]
        0 < k < way.len() implies {
        let (dx, dy) = (way[k] % width - way[k - 1] % width, way[k] / width - way[k - 1] / width);
        &&& -1 <= dx <= 1
        &&& -1 <= dy <= 1
        &&& connectivity8 || dx == 0 || dy == 0
    } by {
        assert(linked(way, k, width, connectivity8));
    }
    way
}

/// The box of a component is the least that holds all its pixels: none lies outside, and each
/// side has one on it.
pub proof fn component_boxes_are_tight(c: Component, bitmap: Seq<u8>, width: int, connectivity8: bool)
    requires
        c.is_component_of(bitmap, width, connectivity8),
    ensures
        forall|k: int|
            0 <= k < c.pixels.len() ==> c.min_x <= #[trigger] c.pixels@[k] as int % width <= c.max_x && c.min_y
                <= c.pixels@[k] as int / width <= c.max_y,
        exists|k: int| 0 <= k < c.pixels.len() && #[trigger] c.pixels@[k] as int % width == c.min_x,
        exists|k: int| 0 <= k < c.pixels.len() && #[trigger] c.pixels@[k] as int % width == c.max_x,
        exists|k: int| 0 <= k < c.pixels.len() && #[trigger] c.pixels@[k] as int / width == c.min_y,
        exists|k: int| 0 <= k < c.pixels.len() && #[trigger] c.pixels@[k] as int / width == c.max_y,
{
    let order = c.order();
    assert forall|k: int| 0 <= k < c.pixels.len() implies c.min_x <= #[trigger] c.pixels@[k] as int % width <= c.max_x
        && c.min_y <= c.pixels@[k] as int / width <= c.max_y by {
        assert(c.min_x <= column(order[k], width) <= c.max_x);
    }
    let a = choose|k: int| 0 <= k < order.len() && column(#[trigger] order[k], width) == c.min_x;
    assert(c.pixels@[a] as int % width == c.min_x);
    let b = choose|k: int| 0 <= k < order.len() && column(#[trigger] order[k], width) == c.max_x;
    assert(c.pixels@[b] as int % width == c.max_x);
    let d = choose|k: int| 0 <= k < order.len() && row(#[trigger] order[k], width) == c.min_y;
    assert(c.pixels@[d] as int / width == c.min_y);
    let e = choose|k: int| 0 <= k < order.len() && row(#[trigger] order[k], width) == c.max_y;
    assert(c.pixels@[e] as int / width == c.max_y);
}

/// After dilation a pixel belongs to the foreground if and only if it did before, or the pixel to
/// its right, the one below, or the one to the right below did.
pub proof fn dilation_spreads_left_and_up(bitmap: Seq<u8>, width: int, height: int, x: int, y: int)
    requires
        bitmap.len() >= width * height,
        0 <= x < width,
        0 <= y < height,
    ensures
        dilated(bitmap, width, height).len() == bitmap.len(),
        dilated(bitmap, width, height)[y * width + x] != 0 <==> {
            ||| bitmap[y * width + x] != 0
            ||| x + 1 < width && bitmap[y * width + (x + 1)] != 0
            ||| y + 1 < height && bitmap[(y + 1) * width + x] != 0
            ||| x + 1 < width && y + 1 < height && bitmap[(y + 1) * width + (x + 1)] != 0
        },
{
    lemma_place_of(x, y, width, height);
}

/// Components come in the order in which they begin, row by row: the first pixel of a component
/// stands before every pixel of the components behind it.
pub proof fn components_come_in_the_order_of_their_beginnings(
    components: Seq<Component>,
    bitmap: Seq<u8>,
    width: int,
    connectivity8: bool,
    i: int,
    j: int,
    k: int,
)
    requires
        components_of(components, bitmap, width, connectivity8),
        0 <= i < j < components.len(),
        0 <= k < components[j].pixels@.len(),
    ensures
        components[i].pixels@.len() > 0,
        components[i].pixels@[0] < components[j].pixels@[k],
        components[j].pixels@[0] <= components[j].pixels@[k],
{
    let (a, b) = (components[i], components[j]);
    assert(a.is_component_of(bitmap, width, connectivity8));
    assert(b.is_component_of(bitmap, width, connectivity8));
    assert(b.order()[k] == b.pixels@[k]);
    assert(b.has(b.pixels@[k] as int));
    assert(a.start() < b.start());
    assert(a.order()[0] == a.pixels@[0]);
    assert(b.order()[0] == b.pixels@[0]);
}

} // verus!
