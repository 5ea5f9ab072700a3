//! What holds of every smart fill, stated over the fill's model.

use vstd::prelude::*;
use crate::fill::interleave;
use crate::grid::{
    adjacent, all_in_bounds, cell_index, color_at, in_bounds, lemma_cell_index_bounds,
    lemma_covers_cell, lemma_distinct_cells_bounded, Pos, FILL_COLOR,
};
use crate::region::{closed_at, is_region, lemma_region_order, region_order, same_color};
use crate::rounds::{
    absorb, absorb_round, absorb_until_stable, fill_order, is_fill, lemma_absorb_round,
    lemma_absorb_until_stable, paint,
};
use crate::walk::{connected, is_path, joins, lemma_grows_connected, lemma_joined_to_first};

verus! {

/// A walk over cells of one colour that starts in a whole region of that
/// colour never leaves it.
pub proof fn lemma_region_holds_walk(
    grid: Seq<u8>,
    width: usize,
    height: usize,
    seed: Pos,
    color: u8,
    cells: Seq<Pos>,
    path: Seq<Pos>,
    k: int,
)
    requires
        is_region(grid, width, height, seed, color, cells),
        is_path(path),
        all_in_bounds(path, width, height),
        same_color(grid, width, path, color),
        path[0] == seed,
        0 <= k < path.len(),
    ensures
        cells.contains(path[k]),
    decreases k,
{
    if k == 0 {
        assert(cells[0] == path[0]);
    } else {
        lemma_region_holds_walk(grid, width, height, seed, color, cells, path, k - 1);
        let i = choose|i: int| 0 <= i < cells.len() && cells[i] == path[k - 1];
        assert(closed_at(grid, width, height, color, cells, cells[i]));
        assert(adjacent(path[k - 1], path[k]));
        assert(in_bounds(path[k], width, height));
        assert(color_at(grid, width, path[k]) == color);
    }
}

/// The region that a scan yields from a cell of the target colour is that
/// cell's connected component: it holds exactly the cells that a walk over
/// cells of the target colour reaches from the seed.
pub proof fn lemma_region_is_component(
    grid: Seq<u8>,
    width: usize,
    height: usize,
    seed: Pos,
    target: u8,
    q: Pos,
)
    requires
        in_bounds(seed, width, height),
        color_at(grid, width, seed) == target,
    ensures
        region_order(grid, width, height, seed, target).contains(q) <==> exists|path: Seq<Pos>|
            #![trigger is_path(path)]
            is_path(path) && all_in_bounds(path, width, height) && same_color(
                grid,
                width,
                path,
                target,
            ) && path[0] == seed && path.last() == q,
{
    let cells = region_order(grid, width, height, seed, target);
    lemma_region_order(grid, width, height, seed, target);
    if cells.contains(q) {
        let i = choose|i: int| 0 <= i < cells.len() && cells[i] == q;
        lemma_joined_to_first(cells, i);
        let path = choose|path: Seq<Pos>| joins(path, cells, seed, q);
        assert forall|k: int| 0 <= k < path.len() implies in_bounds(
            #[trigger] path[k],
            width,
            height,
        ) && color_at(grid, width, path[k]) == target by {
            assert(cells.contains(path[k]));
            let m = choose|m: int| 0 <= m < cells.len() && cells[m] == path[k];
            assert(in_bounds(cells[m], width, height));
            assert(color_at(grid, width, cells[m]) == target);
        }
        assert(is_path(path) && all_in_bounds(path, width, height) && same_color(
            grid,
            width,
            path,
            target,
        ) && path[0] == seed && path.last() == q);
    }
    if exists|path: Seq<Pos>|
        #![trigger is_path(path)]
        is_path(path) && all_in_bounds(path, width, height) && same_color(
            grid,
            width,
            path,
            target,
        ) && path[0] == seed && path.last() == q {
        let path = choose|path: Seq<Pos>|
            #![trigger is_path(path)]
            is_path(path) && all_in_bounds(path, width, height) && same_color(
                grid,
                width,
                path,
                target,
            ) && path[0] == seed && path.last() == q;
        lemma_region_holds_walk(grid, width, height, seed, target, cells, path, path.len() - 1);
    }
}

/// The cells that a fill claims are distinct cells of the grid, each after
/// the first sharing an edge with one claimed before it; the first region
/// opens the list, which fits in the grid and which one more round leaves
/// as it is.
pub proof fn lemma_fill_order(grid: Seq<u8>, width: usize, height: usize, start: Pos)
    requires
        grid.len() == width * height,
    ensures
        ({
            let filled = fill_order(grid, width, height, start);
            &&& is_fill(width, height, filled)
            &&& filled.len() <= width * height
            &&& filled.len() > 0 <==> in_bounds(start, width, height) && color_at(
                grid,
                width,
                start,
            ) != FILL_COLOR
            &&& filled.len() > 0 ==> {
                &&& region_order(
                    grid,
                    width,
                    height,
                    start,
                    color_at(grid, width, start),
                ).is_prefix_of(filled)
                &&& filled[0] == start
                &&& absorb_round(grid, width, height, filled) == filled
            }
        }),
{
    let filled = fill_order(grid, width, height, start);
    if in_bounds(start, width, height) && color_at(grid, width, start) != FILL_COLOR {
        let first = region_order(grid, width, height, start, color_at(grid, width, start));
        lemma_region_order(grid, width, height, start, color_at(grid, width, start));
        lemma_absorb_until_stable(grid, width, height, first);
        lemma_distinct_cells_bounded(filled, width, height);
    }
}

/// No cell is claimed twice.
pub proof fn lemma_fill_claims_each_cell_once(
    grid: Seq<u8>,
    width: usize,
    height: usize,
    start: Pos,
)
    requires
        grid.len() == width * height,
    ensures
        fill_order(grid, width, height, start).no_duplicates(),
{
    lemma_fill_order(grid, width, height, start);
}

/// On a grid whose sides fit in 32 bits, no two pairs of the flat output
/// are the same pair of coordinates.
pub proof fn lemma_flat_pairs_distinct(
    grid: Seq<u8>,
    width: usize,
    height: usize,
    start: Pos,
    i: int,
    j: int,
)
    requires
        grid.len() == width * height,
        width <= 0x1_0000_0000,
        height <= 0x1_0000_0000,
        0 <= i < j < fill_order(grid, width, height, start).len(),
    ensures
        ({
            let flat = interleave(fill_order(grid, width, height, start));
            flat[2 * i] != flat[2 * j] || flat[2 * i + 1] != flat[2 * j + 1]
        }),
{
    let filled = fill_order(grid, width, height, start);
    lemma_fill_order(grid, width, height, start);
    assert(in_bounds(filled[i], width, height));
    assert(in_bounds(filled[j], width, height));
    assert(filled[i] != filled[j]);
    assert((2 * i) / 2 == i && (2 * i + 1) / 2 == i && (2 * j) / 2 == j && (2 * j + 1) / 2 == j);
    assert((2 * i) % 2 == 0 && (2 * i + 1) % 2 == 1 && (2 * j) % 2 == 0 && (2 * j + 1) % 2 == 1);
}

/// The claimed cells form one 4-connected area.
pub proof fn lemma_fill_is_connected(grid: Seq<u8>, width: usize, height: usize, start: Pos)
    requires
        grid.len() == width * height,
    ensures
        connected(fill_order(grid, width, height, start)),
{
    lemma_fill_order(grid, width, height, start);
    lemma_grows_connected(fill_order(grid, width, height, start));
}

/// A start on a cell that already holds the fill colour claims nothing,
/// whatever the rest of the grid holds.
pub proof fn lemma_claimed_start_claims_nothing(
    grid: Seq<u8>,
    width: usize,
    height: usize,
    start: Pos,
)
    requires
        color_at(grid, width, start) == FILL_COLOR,
    ensures
        fill_order(grid, width, height, start) == Seq::<Pos>::empty(),
{
}

/// Filling again from the same start, on the grid as the first fill left
/// it, claims nothing.
pub proof fn lemma_second_fill_claims_nothing(
    grid: Seq<u8>,
    width: usize,
    height: usize,
    start: Pos,
)
    requires
        grid.len() == width * height,
    ensures
        fill_order(
            paint(grid, width, fill_order(grid, width, height, start)),
            width,
            height,
            start,
        ) == Seq::<Pos>::empty(),
{
    let filled = fill_order(grid, width, height, start);
    let painted = paint(grid, width, filled);
    if in_bounds(start, width, height) {
        lemma_fill_order(grid, width, height, start);
        lemma_cell_index_bounds(start, width, height);
        lemma_covers_cell(filled, width, height, start);
        let at = cell_index(start, width);
        if filled.len() > 0 {
            assert(filled[0] == start);
            assert(painted[at] == FILL_COLOR);
        } else {
            assert(grid[at] == FILL_COLOR);
            assert(painted[at] == FILL_COLOR);
        }
    }
}

/// A round never gives up a claimed cell: it extends the claimed area, and
/// the area stays within the grid's cell count.
pub proof fn lemma_round_only_grows(grid: Seq<u8>, width: usize, height: usize, filled: Seq<Pos>)
    requires
        grid.len() == width * height,
        is_fill(width, height, filled),
    ensures
        filled.is_prefix_of(absorb_round(grid, width, height, filled)),
        filled.len() <= absorb_round(grid, width, height, filled).len() <= width * height,
{
    lemma_absorb_round(grid, width, height, filled);
}

/// The rounds end: from any claimed area they reach one that extends it
/// and that a further round leaves as it is.
pub proof fn lemma_rounds_reach_fixed_point(
    grid: Seq<u8>,
    width: usize,
    height: usize,
    filled: Seq<Pos>,
)
    requires
        grid.len() == width * height,
        is_fill(width, height, filled),
    ensures
        filled.is_prefix_of(absorb_until_stable(grid, width, height, filled)),
        absorb_round(grid, width, height, absorb_until_stable(grid, width, height, filled))
            == absorb_until_stable(grid, width, height, filled),
{
    lemma_absorb_until_stable(grid, width, height, filled);
}

/// The absorption rule: the region offered at turn `i` is appended to the
/// claimed area if and only if it is strictly smaller than the area claimed
/// when its turn comes; otherwise the area stays as it is.
pub proof fn lemma_absorption_rule(filled: Seq<Pos>, regions: Seq<Seq<Pos>>, i: int)
    requires
        0 <= i < regions.len(),
    ensures
        ({
            let before = absorb(filled, regions.take(i));
            let after = absorb(filled, regions.take(i + 1));
            &&& regions[i].len() < before.len() ==> after == before + regions[i]
            &&& regions[i].len() >= before.len() ==> after == before
        }),
{
    assert(regions.take(i + 1).drop_last() =~= regions.take(i));
    assert(regions.take(i + 1).last() == regions[i]);
}

} // verus!
