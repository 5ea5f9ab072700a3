//! The order in which a breadth-first scan claims the cells of a region.
//!
//! A scan keeps one list: the cells discovered so far, in discovery order.
//! A cursor walks the list from the front; the cell under the cursor adds
//! those of its neighbours that hold the region's colour and are not in the
//! list yet. When the cursor reaches the end, the list is the region.

use vstd::prelude::*;
use crate::grid::{
    adjacent, all_in_bounds, color_at, in_bounds, lemma_distinct_cells_bounded, lemma_neighbors,
    neighbors, Pos,
};

verus! {

/// Every cell of the list holds `color`.
pub open spec fn same_color(grid: Seq<u8>, width: usize, cells: Seq<Pos>, color: u8) -> bool {
    forall|i: int| 0 <= i < cells.len() ==> color_at(grid, width, #[trigger] cells[i]) == color
}

/// The cell at `i` shares an edge with a cell that stands before it.
pub open spec fn touches_earlier(cells: Seq<Pos>, i: int) -> bool {
    exists|j: int| 0 <= j < i && adjacent(#[trigger] cells[j], cells[i])
}

/// Every cell but the first shares an edge with an earlier cell of the list.
pub open spec fn grows_by_adjacency(cells: Seq<Pos>) -> bool {
    forall|i: int| 0 < i < cells.len() ==> #[trigger] touches_earlier(cells, i)
}

/// Every neighbour of `p` inside the grid that holds `color` is in the list.
pub open spec fn closed_at(
    grid: Seq<u8>,
    width: usize,
    height: usize,
    color: u8,
    cells: Seq<Pos>,
    p: Pos,
) -> bool {
    forall|q: Pos|
        in_bounds(q, width, height) && #[trigger] adjacent(p, q) && color_at(grid, width, q)
            == color ==> cells.contains(q)
}

/// The first `n` cells of the list have all their `color` neighbours in it.
pub open spec fn closed_upto(
    grid: Seq<u8>,
    width: usize,
    height: usize,
    color: u8,
    cells: Seq<Pos>,
    n: int,
) -> bool {
    forall|i: int| 0 <= i < n ==> closed_at(grid, width, height, color, cells, #[trigger] cells[i])
}

/// `order` followed by those of `candidates` that hold `target` and are not
/// listed yet, each taken the first time it comes up.
pub open spec fn enqueue_fresh(
    grid: Seq<u8>,
    width: usize,
    target: u8,
    order: Seq<Pos>,
    candidates: Seq<Pos>,
) -> Seq<Pos>
    decreases candidates.len(),
{
    if candidates.len() == 0 {
        order
    } else {
        let prev = enqueue_fresh(grid, width, target, order, candidates.drop_last());
        let q = candidates.last();
        if color_at(grid, width, q) == target && !prev.contains(q) {
            prev.push(q)
        } else {
            prev
        }
    }
}

/// The list that a scan ends with when it has discovered `order` and its
/// cursor stands at `head`. A list of distinct cells never outgrows the grid,
/// which bounds the cursor.
pub open spec fn explore(
    grid: Seq<u8>,
    width: usize,
    height: usize,
    target: u8,
    order: Seq<Pos>,
    head: nat,
) -> Seq<Pos>
    decreases width * height - head,
{
    if head < order.len() && head < width * height {
        explore(
            grid,
            width,
            height,
            target,
            enqueue_fresh(grid, width, target, order, neighbors(order[head as int], width, height)),
            head + 1,
        )
    } else {
        order
    }
}

/// The cells of the region of colour `target` around `seed`, in the order in
/// which a breadth-first scan from `seed` claims them. Empty if `seed` does
/// not hold `target`.
pub open spec fn region_order(
    grid: Seq<u8>,
    width: usize,
    height: usize,
    seed: Pos,
    target: u8,
) -> Seq<Pos> {
    if color_at(grid, width, seed) == target {
        explore(grid, width, height, target, seq![seed], 0)
    } else {
        Seq::empty()
    }
}

/// What holds of a scan's list while its cursor stands at `head`.
pub open spec fn explore_inv(
    grid: Seq<u8>,
    width: usize,
    height: usize,
    target: u8,
    order: Seq<Pos>,
    head: nat,
) -> bool {
    &&& head <= order.len()
    &&& order.no_duplicates()
    &&& all_in_bounds(order, width, height)
    &&& same_color(grid, width, order, target)
    &&& grows_by_adjacency(order)
    &&& closed_upto(grid, width, height, target, order, head as int)
}

/// `cells` is a whole region of colour `color`, listed from `seed` outwards:
/// distinct cells of that colour, each after the first touching an earlier
/// one, and no cell of that colour next to them is missing.
pub open spec fn is_region(
    grid: Seq<u8>,
    width: usize,
    height: usize,
    seed: Pos,
    color: u8,
    cells: Seq<Pos>,
) -> bool {
    &&& cells.len() > 0
    &&& cells[0] == seed
    &&& cells.no_duplicates()
    &&& all_in_bounds(cells, width, height)
    &&& same_color(grid, width, cells, color)
    &&& grows_by_adjacency(cells)
    &&& closed_upto(grid, width, height, color, cells, cells.len() as int)
}

/// Adding the fresh neighbours of the cell at `from` keeps the list a list
/// of distinct, connected cells of the target colour, and leaves none of the
/// candidates of that colour out.
pub proof fn lemma_enqueue_fresh(
    grid: Seq<u8>,
    width: usize,
    height: usize,
    target: u8,
    order: Seq<Pos>,
    from: int,
    candidates: Seq<Pos>,
)
    requires
        0 <= from < order.len(),
        order.no_duplicates(),
        all_in_bounds(order, width, height),
        same_color(grid, width, order, target),
        grows_by_adjacency(order),
        forall|k: int|
            0 <= k < candidates.len() ==> in_bounds(#[trigger] candidates[k], width, height)
                && adjacent(order[from], candidates[k]),
    ensures
        ({
            let next = enqueue_fresh(grid, width, target, order, candidates);
            &&& order.is_prefix_of(next)
            &&& next.len() <= order.len() + candidates.len()
            &&& next.no_duplicates()
            &&& all_in_bounds(next, width, height)
            &&& same_color(grid, width, next, target)
            &&& grows_by_adjacency(next)
            &&& forall|q: Pos| #[trigger]
                next.contains(q) <==> order.contains(q) || (candidates.contains(q) && color_at(
                    grid,
                    width,
                    q,
                ) == target)
        }),
    decreases candidates.len(),
{
    let next = enqueue_fresh(grid, width, target, order, candidates);
    if candidates.len() > 0 {
        let shorter = candidates.drop_last();
        let prev = enqueue_fresh(grid, width, target, order, shorter);
        let q = candidates.last();
        lemma_enqueue_fresh(grid, width, height, target, order, from, shorter);
        assert forall|c: Pos| candidates.contains(c) <==> shorter.contains(c) || c == q by {
            if candidates.contains(c) {
                let k = choose|k: int| 0 <= k < candidates.len() && candidates[k] == c;
                if k < shorter.len() {
                    assert(shorter[k] == c);
                }
            }
            if shorter.contains(c) {
                let k = choose|k: int| 0 <= k < shorter.len() && shorter[k] == c;
                assert(candidates[k] == c);
            }
            if c == q {
                assert(candidates[candidates.len() - 1] == c);
            }
        }
        if color_at(grid, width, q) == target && !prev.contains(q) {
            assert(next == prev.push(q));
            assert(in_bounds(candidates[candidates.len() - 1], width, height));
            assert forall|i: int| 0 < i < next.len() implies #[trigger] touches_earlier(
                next,
                i,
            ) by {
                if i < prev.len() {
                    assert(touches_earlier(prev, i));
                    let j = choose|j: int| 0 <= j < i && adjacent(#[trigger] prev[j], prev[i]);
                    assert(adjacent(next[j], next[i]));
                } else {
                    assert(adjacent(next[from], next[i]));
                }
            }
            assert forall|c: Pos| #[trigger]
                next.contains(c) <==> order.contains(c) || (candidates.contains(c) && color_at(
                    grid,
                    width,
                    c,
                ) == target) by {
                if next.contains(c) {
                    let k = choose|k: int| 0 <= k < next.len() && next[k] == c;
                    if k < prev.len() {
                        assert(prev[k] == c);
                    }
                }
                if prev.contains(c) {
                    let k = choose|k: int| 0 <= k < prev.len() && prev[k] == c;
                    assert(next[k] == c);
                }
                if c == q {
                    assert(next[next.len() - 1] == c);
                }
            }
        } else {
            assert(next == prev);
        }
    }
}

/// One step of the cursor keeps what holds of the scan's list.
pub proof fn lemma_explore_step(
    grid: Seq<u8>,
    width: usize,
    height: usize,
    target: u8,
    order: Seq<Pos>,
    head: nat,
)
    requires
        explore_inv(grid, width, height, target, order, head),
        head < order.len(),
    ensures
        ({
            let next = enqueue_fresh(
                grid,
                width,
                target,
                order,
                neighbors(order[head as int], width, height),
            );
            &&& explore_inv(grid, width, height, target, next, head + 1)
            &&& order.is_prefix_of(next)
            &&& next.len() <= order.len() + 4
        }),
{
    let p = order[head as int];
    let around = neighbors(p, width, height);
    let next = enqueue_fresh(grid, width, target, order, around);
    lemma_neighbors(p, width, height);
    assert forall|k: int| 0 <= k < around.len() implies in_bounds(
        #[trigger] around[k],
        width,
        height,
    ) && adjacent(order[head as int], around[k]) by {
        assert(around.contains(around[k]));
    }
    lemma_enqueue_fresh(grid, width, height, target, order, head as int, around);
    assert forall|i: int| 0 <= i < head + 1 implies closed_at(
        grid,
        width,
        height,
        target,
        next,
        #[trigger] next[i],
    ) by {
        assert(next[i] == order[i]);
        if i < head {
            assert(closed_at(grid, width, height, target, order, order[i]));
        }
        assert forall|q: Pos|
            in_bounds(q, width, height) && #[trigger] adjacent(next[i], q) && color_at(
                grid,
                width,
                q,
            ) == target implies next.contains(q) by {
            if i < head {
                assert(order.contains(q));
            } else {
                assert(around.contains(q));
            }
        }
    }
}

/// From a list that a scan can hold, the scan ends with a list that extends
/// it and is closed: a whole region.
pub proof fn lemma_explore(
    grid: Seq<u8>,
    width: usize,
    height: usize,
    target: u8,
    order: Seq<Pos>,
    head: nat,
)
    requires
        explore_inv(grid, width, height, target, order, head),
    ensures
        ({
            let last = explore(grid, width, height, target, order, head);
            &&& explore_inv(grid, width, height, target, last, last.len())
            &&& order.is_prefix_of(last)
        }),
    decreases width * height - head,
{
    if head < order.len() {
        lemma_distinct_cells_bounded(order, width, height);
        let next = enqueue_fresh(
            grid,
            width,
            target,
            order,
            neighbors(order[head as int], width, height),
        );
        lemma_explore_step(grid, width, height, target, order, head);
        lemma_explore(grid, width, height, target, next, head + 1);
    }
}

/// The list that starts a scan at `seed` is one that a scan can hold.
pub proof fn lemma_explore_start(
    grid: Seq<u8>,
    width: usize,
    height: usize,
    seed: Pos,
    target: u8,
)
    requires
        in_bounds(seed, width, height),
        color_at(grid, width, seed) == target,
    ensures
        explore_inv(grid, width, height, target, seq![seed], 0),
{
}

/// A scan from a cell of the target colour yields a whole region that
/// starts at that cell.
pub proof fn lemma_region_order(
    grid: Seq<u8>,
    width: usize,
    height: usize,
    seed: Pos,
    target: u8,
)
    requires
        in_bounds(seed, width, height),
        color_at(grid, width, seed) == target,
    ensures
        is_region(grid, width, height, seed, target, region_order(grid, width, height, seed, target)),
{
    lemma_explore_start(grid, width, height, seed, target);
    lemma_explore(grid, width, height, target, seq![seed], 0);
}

} // verus!
