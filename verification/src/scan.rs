//! The two scans: one that recolours the region it walks, one that only
//! measures it. Both claim the cells of a region in the same order.

use std::collections::{HashSet, VecDeque};
use vstd::prelude::*;
use vstd::seq_lib::{lemma_seq_concat_contains_all_elements, lemma_seq_contains_after_push};
use crate::grid::{
    all_in_bounds, cell_index, color_at, in_bounds, lemma_cell_index_bounds,
    lemma_cell_index_injective, lemma_covers_cell, lemma_distinct_cells_bounded, lemma_neighbors,
    lemma_recolor_push, neighbors, neighbors_4, recolor, Pos,
};
use crate::region::{
    enqueue_fresh, explore, explore_inv, is_region, lemma_explore_start, lemma_explore_step,
    lemma_region_order, region_order, same_color,
};

verus! {

/// The scan from `seed` has discovered `order`, its cursor stands at `head`,
/// and what it will end with is the region's order.
spec fn scanning(
    grid: Seq<u8>,
    width: usize,
    height: usize,
    seed: Pos,
    target: u8,
    order: Seq<Pos>,
    head: nat,
) -> bool {
    &&& explore_inv(grid, width, height, target, order, head)
    &&& explore(grid, width, height, target, order, head) == region_order(
        grid,
        width,
        height,
        seed,
        target,
    )
}

/// The marker set holds the place of `q`.
pub open spec fn marked(visited: Set<usize>, width: usize, q: Pos) -> bool {
    visited.contains(cell_index(q, width) as usize)
}

/// Among cells of the grid, the marker set holds exactly those of the list.
spec fn marks_exactly(visited: Set<usize>, width: usize, height: usize, cells: Seq<Pos>) -> bool {
    forall|q: Pos|
        in_bounds(q, width, height) ==> (#[trigger] marked(visited, width, q) <==> cells.contains(q))
}

/// Marking the place of one more cell keeps set and list in step.
proof fn lemma_mark(visited: Set<usize>, width: usize, height: usize, cells: Seq<Pos>, q: Pos)
    requires
        marks_exactly(visited, width, height, cells),
        in_bounds(q, width, height),
        width * height <= usize::MAX,
    ensures
        marks_exactly(
            visited.insert(cell_index(q, width) as usize),
            width,
            height,
            cells.push(q),
        ),
{
    broadcast use lemma_seq_contains_after_push;

    let wider = visited.insert(cell_index(q, width) as usize);
    lemma_cell_index_bounds(q, width, height);
    assert forall|r: Pos| in_bounds(r, width, height) implies (#[trigger] marked(wider, width, r)
        <==> cells.push(q).contains(r)) by {
        lemma_cell_index_bounds(r, width, height);
        assert(marked(visited, width, r) <==> cells.contains(r));
        if cell_index(r, width) == cell_index(q, width) {
            lemma_cell_index_injective(r, q, width, height);
        }
    }
}

/// The entries of a work queue that still stand for work: those not done
/// yet, each kept where it first occurs.
spec fn pending(queue: Seq<Pos>, done: Seq<Pos>) -> Seq<Pos>
    decreases queue.len(),
{
    if queue.len() == 0 {
        Seq::empty()
    } else {
        let rest = pending(queue.drop_last(), done);
        let q = queue.last();
        if done.contains(q) || rest.contains(q) {
            rest
        } else {
            rest.push(q)
        }
    }
}

/// Dropping a front entry that is done changes nothing of the pending work.
proof fn lemma_pending_skip(queue: Seq<Pos>, done: Seq<Pos>)
    requires
        queue.len() > 0,
        done.contains(queue[0]),
    ensures
        pending(queue.drop_first(), done) == pending(queue, done),
    decreases queue.len(),
{
    let shorter = queue.drop_last();
    if queue.len() == 1 {
        assert(shorter =~= Seq::empty());
        assert(queue.drop_first() =~= Seq::empty());
    } else {
        lemma_pending_skip(shorter, done);
        assert(queue.drop_first().drop_last() =~= shorter.drop_first());
        assert(queue.drop_first().last() == queue.last());
    }
}

/// A front entry that is not done is the first pending one; doing it leaves
/// the rest of the pending work as it was.
proof fn lemma_pending_take(queue: Seq<Pos>, done: Seq<Pos>)
    requires
        queue.len() > 0,
        !done.contains(queue[0]),
    ensures
        pending(queue, done).len() > 0,
        pending(queue, done)[0] == queue[0],
        pending(queue.drop_first(), done.push(queue[0])) == pending(queue, done).drop_first(),
    decreases queue.len(),
{
    broadcast use lemma_seq_contains_after_push;

    let p = queue[0];
    let shorter = queue.drop_last();
    let x = queue.last();
    if queue.len() == 1 {
        assert(shorter =~= Seq::empty());
        assert(queue.drop_first() =~= Seq::empty());
        assert(pending(shorter, done) =~= Seq::empty());
        assert(pending(queue, done) =~= seq![p]);
        assert(pending(queue, done).drop_first() =~= Seq::empty());
    } else {
        lemma_pending_take(shorter, done);
        let r = pending(shorter, done);
        assert(shorter[0] == p);
        assert(queue.drop_first().drop_last() =~= shorter.drop_first());
        assert(queue.drop_first().last() == x);
        assert(r.contains(x) <==> x == p || r.drop_first().contains(x)) by {
            if r.contains(x) {
                let k = choose|k: int| 0 <= k < r.len() && r[k] == x;
                if k > 0 {
                    assert(r.drop_first()[k - 1] == x);
                }
            }
            if r.drop_first().contains(x) {
                let k = choose|k: int| 0 <= k < r.drop_first().len() && r.drop_first()[k] == x;
                assert(r[k + 1] == x);
            }
        }
        if !(done.contains(x) || r.contains(x)) {
            assert(r.push(x).drop_first() =~= r.drop_first().push(x));
        }
    }
}

/// Recolours the region of colour `target` around `(x, y)` to `replacement`
/// and returns its cells in the order in which they were claimed.
///
/// A cell may wait in the queue more than once; it is claimed the first time
/// it comes out, and its colour tells the later times apart.
pub fn flood_fill_with_positions(
    grid: &mut [u8],
    width: usize,
    height: usize,
    x: usize,
    y: usize,
    target: u8,
    replacement: u8,
) -> (positions: Vec<(usize, usize)>)
    requires
        old(grid)@.len() == width * height,
        x < width,
        y < height,
        target != replacement,
    ensures
        positions@ == region_order(old(grid)@, width, height, (x, y), target),
        final(grid)@ == recolor(old(grid)@, width, positions@, replacement),
        color_at(old(grid)@, width, (x, y)) == target ==> is_region(
            old(grid)@,
            width,
            height,
            (x, y),
            target,
            positions@,
        ),
        color_at(old(grid)@, width, (x, y)) != target ==> positions@.len() == 0 && final(grid)@
            == old(grid)@,
{
    let ghost before = grid@;
    let ghost seed = (x, y);
    let mut positions: Vec<(usize, usize)> = Vec::new();
    let mut queue: VecDeque<(usize, usize)> = VecDeque::new();
    queue.push_back((x, y));
    proof {
        assert(grid@ =~= recolor(before, width, positions@, replacement));
        assert(queue@ =~= seq![seed]);
        assert(grid.len() == grid@.len());
        assert(queue@.drop_last() =~= Seq::empty());
        assert(pending(queue@.drop_last(), positions@) =~= Seq::empty());
        assert(positions@ + pending(queue@, positions@) =~= seq![seed]);
        if color_at(before, width, seed) == target {
            lemma_explore_start(before, width, height, seed, target);
        }
    }
    loop
        invariant
            before.len() == width * height,
            grid@.len() == width * height,
            width * height <= usize::MAX,
            target != replacement,
            seed == (x, y),
            in_bounds(seed, width, height),
            all_in_bounds(queue@, width, height),
            all_in_bounds(positions@, width, height),
            grid@ == recolor(before, width, positions@, replacement),
            color_at(before, width, seed) != target ==> positions@.len() == 0 && (queue@.len() == 0
                || queue@ =~= seq![seed]),
            color_at(before, width, seed) == target ==> same_color(before, width, queue@, target),
            color_at(before, width, seed) == target ==> scanning(
                before,
                width,
                height,
                seed,
                target,
                positions@ + pending(queue@, positions@),
                positions@.len() as nat,
            ),
        ensures
            positions@ == region_order(before, width, height, seed, target),
            grid@ == recolor(before, width, positions@, replacement),
        decreases width * height - positions@.len(), queue@.len(),
    {
        let ghost done = positions@;
        let ghost waiting = queue@;
        let ghost order = done + pending(waiting, done);
        let ghost head = done.len();
        let front = queue.pop_front();
        if front.is_none() {
            proof {
                assert(order =~= done);
            }
            break ;
        }
        let (cx, cy) = front.unwrap();
        let ghost p = (cx, cy);
        proof {
            assert(p == waiting[0]);
            assert(queue@ == waiting.drop_first());
            lemma_cell_index_bounds(p, width, height);
            lemma_covers_cell(done, width, height, p);
        }
        let idx = cy * width + cx;
        if grid[idx] != target {
            // Claimed while it waited, or a seed of another colour.
            proof {
                if color_at(before, width, seed) == target {
                    lemma_pending_skip(waiting, done);
                }
            }
            continue ;
        }
        proof {
            lemma_pending_take(waiting, done);
            lemma_recolor_push(before, width, height, done, p, replacement);
            lemma_distinct_cells_bounded(order, width, height);
        }
        grid[idx] = replacement;
        positions.push((cx, cy));
        proof {
            assert(positions@ + pending(queue@, positions@) =~= order);
            assert(order[head as int] == p);
        }
        let nbrs = neighbors_4(cx, cy, width, height);
        let mut i: usize = 0;
        while i < nbrs.len()
            invariant
                0 <= i <= nbrs.len(),
                nbrs@ == neighbors(p, width, height),
                before.len() == width * height,
                grid@.len() == width * height,
                width * height <= usize::MAX,
                target != replacement,
                all_in_bounds(queue@, width, height),
                all_in_bounds(positions@, width, height),
                grid@ == recolor(before, width, positions@, replacement),
                same_color(before, width, queue@, target),
                positions@ + pending(queue@, positions@) == enqueue_fresh(
                    before,
                    width,
                    target,
                    order,
                    nbrs@.take(i as int),
                ),
            decreases nbrs.len() - i,
        {
            let (nx, ny) = nbrs[i];
            let ghost q = (nx, ny);
            proof {
                lemma_neighbors(p, width, height);
                assert(nbrs@.contains(nbrs@[i as int]));
                lemma_cell_index_bounds(q, width, height);
                lemma_covers_cell(positions@, width, height, q);
                lemma_seq_concat_contains_all_elements(
                    positions@,
                    pending(queue@, positions@),
                    q,
                );
                assert(nbrs@.take(i + 1).drop_last() =~= nbrs@.take(i as int));
                assert(nbrs@.take(i + 1).last() == q);
            }
            let n_idx = ny * width + nx;
            if grid[n_idx] == target {
                proof {
                    assert(queue@.push(q).drop_last() =~= queue@);
                    assert(positions@ + pending(queue@, positions@).push(q) =~= (positions@
                        + pending(queue@, positions@)).push(q));
                }
                queue.push_back((nx, ny));
            }
            i += 1;
        }
        proof {
            assert(nbrs@.take(nbrs@.len() as int) =~= nbrs@);
            lemma_explore_step(before, width, height, target, order, head);
        }
    }
    proof {
        if color_at(before, width, seed) == target {
            lemma_region_order(before, width, height, seed, target);
        } else {
            assert(grid@ =~= before);
        }
    }
    positions
}

/// Returns the cells of the region of colour `target` around `(x, y)`, in
/// the order in which a recolouring scan would claim them, and writes
/// nothing.
pub fn flood_fill_peek(
    grid: &[u8],
    width: usize,
    height: usize,
    x: usize,
    y: usize,
    target: u8,
) -> (positions: Vec<(usize, usize)>)
    requires
        grid@.len() == width * height,
        x < width,
        y < height,
    ensures
        positions@ == region_order(grid@, width, height, (x, y), target),
        color_at(grid@, width, (x, y)) == target ==> is_region(
            grid@,
            width,
            height,
            (x, y),
            target,
            positions@,
        ),
        color_at(grid@, width, (x, y)) != target ==> positions@.len() == 0,
{
    let ghost seed = (x, y);
    let mut positions: Vec<(usize, usize)> = Vec::new();
    let mut visited: HashSet<usize> = HashSet::new();
    let mut queue: VecDeque<(usize, usize)> = VecDeque::new();
    proof {
        assert(grid.len() == grid@.len());
        lemma_cell_index_bounds(seed, width, height);
        lemma_mark(visited@, width, height, positions@ + queue@, seed);
    }
    queue.push_back((x, y));
    visited.insert(y * width + x);
    proof {
        assert(positions@ + queue@ =~= seq![seed]);
        assert(positions@ + queue@ =~= Seq::<Pos>::empty().push(seed));
        if color_at(grid@, width, seed) == target {
            lemma_explore_start(grid@, width, height, seed, target);
        }
    }
    loop
        invariant
            grid@.len() == width * height,
            width * height <= usize::MAX,
            seed == (x, y),
            in_bounds(seed, width, height),
            all_in_bounds(queue@, width, height),
            color_at(grid@, width, seed) != target ==> positions@.len() == 0 && (queue@.len() == 0
                || queue@ =~= seq![seed]),
            color_at(grid@, width, seed) == target ==> scanning(
                grid@,
                width,
                height,
                seed,
                target,
                positions@ + queue@,
                positions@.len() as nat,
            ),
            color_at(grid@, width, seed) == target ==> marks_exactly(
                visited@,
                width,
                height,
                positions@ + queue@,
            ),
        ensures
            positions@ == region_order(grid@, width, height, seed, target),
        decreases width * height - positions@.len(), queue@.len(),
    {
        let ghost order = positions@ + queue@;
        let ghost head = positions@.len();
        let front = queue.pop_front();
        if front.is_none() {
            proof {
                assert(order =~= positions@);
            }
            break ;
        }
        let (cx, cy) = front.unwrap();
        let ghost p = (cx, cy);
        proof {
            assert(p == order[head as int]);
            lemma_cell_index_bounds(p, width, height);
        }
        let idx = cy * width + cx;
        if grid[idx] != target {
            continue ;
        }
        proof {
            lemma_distinct_cells_bounded(order, width, height);
        }
        positions.push((cx, cy));
        proof {
            assert(positions@ + queue@ =~= order);
        }
        let nbrs = neighbors_4(cx, cy, width, height);
        let mut i: usize = 0;
        while i < nbrs.len()
            invariant
                0 <= i <= nbrs.len(),
                nbrs@ == neighbors(p, width, height),
                grid@.len() == width * height,
                width * height <= usize::MAX,
                all_in_bounds(queue@, width, height),
                marks_exactly(visited@, width, height, positions@ + queue@),
                positions@ + queue@ == enqueue_fresh(
                    grid@,
                    width,
                    target,
                    order,
                    nbrs@.take(i as int),
                ),
            decreases nbrs.len() - i,
        {
            let (nx, ny) = nbrs[i];
            let ghost q = (nx, ny);
            proof {
                lemma_neighbors(p, width, height);
                assert(nbrs@.contains(nbrs@[i as int]));
                lemma_cell_index_bounds(q, width, height);
                assert(marked(visited@, width, q) <==> (positions@ + queue@).contains(q));
                assert(nbrs@.take(i + 1).drop_last() =~= nbrs@.take(i as int));
                assert(nbrs@.take(i + 1).last() == q);
            }
            let n_idx = ny * width + nx;
            if !visited.contains(&n_idx) && grid[n_idx] == target {
                proof {
                    lemma_mark(visited@, width, height, positions@ + queue@, q);
                    assert(positions@ + queue@.push(q) =~= (positions@ + queue@).push(q));
                }
                queue.push_back((nx, ny));
                visited.insert(n_idx);
            }
            i += 1;
        }
        proof {
            assert(nbrs@.take(nbrs@.len() as int) =~= nbrs@);
            lemma_explore_step(grid@, width, height, target, order, head);
        }
    }
    proof {
        if color_at(grid@, width, seed) == target {
            lemma_region_order(grid@, width, height, seed, target);
        }
    }
    positions
}

} // verus!
