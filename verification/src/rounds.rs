//! Absorption rounds: what the fill claims after its first region.
//!
//! A round looks at every neighbour of every claimed cell, measures each
//! unclaimed region that it meets once, and then claims, in the order of
//! discovery, each region that is strictly smaller than the area claimed so
//! far. Rounds repeat until one claims nothing.

use vstd::prelude::*;
use vstd::seq_lib::lemma_seq_concat_contains_all_elements;
use crate::grid::{
    adjacent, all_in_bounds, color_at, in_bounds, lemma_cell_index_bounds, lemma_covers_cell, lemma_distinct_cells_bounded, lemma_neighbors, neighbors, recolor, Pos,
    FILL_COLOR,
};
use crate::region::{
    closed_at, closed_upto, grows_by_adjacency, is_region, lemma_region_order, region_order,
    same_color, touches_earlier,
};

verus! {

/// The buffer as the fill sees it once it has claimed `filled`.
pub open spec fn paint(grid: Seq<u8>, width: usize, filled: Seq<Pos>) -> Seq<u8> {
    recolor(grid, width, filled, FILL_COLOR)
}

/// The neighbours of the claimed cells, cell by cell in claiming order.
pub open spec fn frontier(filled: Seq<Pos>, width: usize, height: usize) -> Seq<Pos>
    decreases filled.len(),
{
    if filled.len() == 0 {
        Seq::empty()
    } else {
        frontier(filled.drop_last(), width, height) + neighbors(filled.last(), width, height)
    }
}

/// Some region of the list holds `c`.
pub open spec fn covered(regions: Seq<Seq<Pos>>, c: Pos) -> bool {
    exists|r: int| 0 <= r < regions.len() && (#[trigger] regions[r]).contains(c)
}

/// The regions that a round discovers from `candidates`, in order: each
/// candidate that is unclaimed and in no region found before it contributes
/// the region around it.
pub open spec fn discover(
    grid: Seq<u8>,
    width: usize,
    height: usize,
    candidates: Seq<Pos>,
) -> Seq<Seq<Pos>>
    decreases candidates.len(),
{
    if candidates.len() == 0 {
        Seq::empty()
    } else {
        let found = discover(grid, width, height, candidates.drop_last());
        let c = candidates.last();
        if color_at(grid, width, c) != FILL_COLOR && !covered(found, c) {
            found.push(region_order(grid, width, height, c, color_at(grid, width, c)))
        } else {
            found
        }
    }
}

/// The claimed cells after the regions have been offered one by one: a
/// region is appended exactly if it is strictly smaller than the area
/// claimed when its turn comes.
pub open spec fn absorb(filled: Seq<Pos>, regions: Seq<Seq<Pos>>) -> Seq<Pos>
    decreases regions.len(),
{
    if regions.len() == 0 {
        filled
    } else {
        let grown = absorb(filled, regions.drop_last());
        if regions.last().len() < grown.len() {
            grown + regions.last()
        } else {
            grown
        }
    }
}

/// Some region of the list was smaller than the area claimed at its turn.
pub open spec fn absorbs_any(filled: Seq<Pos>, regions: Seq<Seq<Pos>>) -> bool
    decreases regions.len(),
{
    if regions.len() == 0 {
        false
    } else {
        absorbs_any(filled, regions.drop_last()) || regions.last().len() < absorb(
            filled,
            regions.drop_last(),
        ).len()
    }
}

/// The claimed cells after one round, where `grid` is the buffer as the
/// caller gave it.
pub open spec fn absorb_round(
    grid: Seq<u8>,
    width: usize,
    height: usize,
    filled: Seq<Pos>,
) -> Seq<Pos> {
    absorb(
        filled,
        discover(paint(grid, width, filled), width, height, frontier(filled, width, height)),
    )
}

/// The claimed cells once a round claims nothing more. Claimed cells are
/// distinct cells of the grid, so the area cannot grow beyond the grid.
pub open spec fn absorb_until_stable(
    grid: Seq<u8>,
    width: usize,
    height: usize,
    filled: Seq<Pos>,
) -> Seq<Pos>
    decreases width * height - filled.len(),
{
    let next = absorb_round(grid, width, height, filled);
    if filled.len() < next.len() <= width * height {
        absorb_until_stable(grid, width, height, next)
    } else {
        filled
    }
}

/// The cells that a smart fill from `start` claims, in claiming order: none
/// if `start` is outside the grid or already holds the fill colour;
/// otherwise the region around `start`, then whatever the rounds absorb.
pub open spec fn fill_order(grid: Seq<u8>, width: usize, height: usize, start: Pos) -> Seq<Pos> {
    if in_bounds(start, width, height) && color_at(grid, width, start) != FILL_COLOR {
        absorb_until_stable(
            grid,
            width,
            height,
            region_order(grid, width, height, start, color_at(grid, width, start)),
        )
    } else {
        Seq::empty()
    }
}

/// A claimed area: distinct cells of the grid, each after the first sharing
/// an edge with one claimed before it.
pub open spec fn is_fill(width: usize, height: usize, filled: Seq<Pos>) -> bool {
    &&& filled.no_duplicates()
    &&& all_in_bounds(filled, width, height)
    &&& grows_by_adjacency(filled)
}

/// `c` shares an edge with some cell of the list.
pub open spec fn touches(cells: Seq<Pos>, c: Pos) -> bool {
    exists|j: int| 0 <= j < cells.len() && adjacent(#[trigger] cells[j], c)
}

/// `cells` is a whole unclaimed region of the buffer, listed from its first
/// cell outwards.
pub open spec fn unclaimed_region(
    grid: Seq<u8>,
    width: usize,
    height: usize,
    cells: Seq<Pos>,
) -> bool {
    &&& cells.len() > 0
    &&& color_at(grid, width, cells[0]) != FILL_COLOR
    &&& is_region(grid, width, height, cells[0], color_at(grid, width, cells[0]), cells)
}

/// No cell lies in two regions of the list.
pub open spec fn pairwise_disjoint(regions: Seq<Seq<Pos>>) -> bool {
    forall|r1: int, r2: int, c: Pos|
        #![trigger regions[r1].contains(c), regions[r2].contains(c)]
        0 <= r1 < r2 < regions.len() && regions[r1].contains(c) ==> !regions[r2].contains(c)
}

/// What a round's discovery yields: whole unclaimed regions, each starting
/// at one of the candidates, no two sharing a cell.
pub open spec fn discovered(
    grid: Seq<u8>,
    width: usize,
    height: usize,
    candidates: Seq<Pos>,
    found: Seq<Seq<Pos>>,
) -> bool {
    &&& forall|r: int|
        0 <= r < found.len() ==> unclaimed_region(grid, width, height, #[trigger] found[r])
            && candidates.contains(found[r][0])
    &&& pairwise_disjoint(found)
}

/// Every frontier cell lies in the grid and touches a claimed cell.
pub proof fn lemma_frontier(filled: Seq<Pos>, width: usize, height: usize)
    ensures
        forall|c: Pos| #[trigger]
            frontier(filled, width, height).contains(c) ==> in_bounds(c, width, height) && touches(
                filled,
                c,
            ),
    decreases filled.len(),
{
    broadcast use lemma_seq_concat_contains_all_elements;

    if filled.len() > 0 {
        let shorter = filled.drop_last();
        lemma_frontier(shorter, width, height);
        lemma_neighbors(filled.last(), width, height);
        assert forall|c: Pos| #[trigger]
            frontier(filled, width, height).contains(c) implies in_bounds(c, width, height)
            && touches(filled, c) by {
            if frontier(shorter, width, height).contains(c) {
                let j = choose|j: int| 0 <= j < shorter.len() && adjacent(#[trigger] shorter[j], c);
                assert(adjacent(filled[j], c));
            } else {
                assert(adjacent(filled[filled.len() - 1], c));
            }
        }
    }
}

/// A closed region that holds one cell of a connected list of one colour
/// holds the list's first cell.
pub proof fn lemma_overlap_reaches_seed(
    grid: Seq<u8>,
    width: usize,
    height: usize,
    a: Seq<Pos>,
    color_a: u8,
    b: Seq<Pos>,
    color_b: u8,
    i: int,
)
    requires
        same_color(grid, width, a, color_a),
        closed_upto(grid, width, height, color_a, a, a.len() as int),
        all_in_bounds(b, width, height),
        same_color(grid, width, b, color_b),
        grows_by_adjacency(b),
        0 <= i < b.len(),
        a.contains(b[i]),
    ensures
        a.contains(b[0]),
    decreases i,
{
    if i > 0 {
        assert(touches_earlier(b, i));
        let j = choose|j: int| 0 <= j < i && adjacent(#[trigger] b[j], b[i]);
        let k = choose|k: int| 0 <= k < a.len() && a[k] == b[i];
        assert(closed_at(grid, width, height, color_a, a, a[k]));
        assert(adjacent(a[k], b[j]));
        assert(color_at(grid, width, b[j]) == color_at(grid, width, b[i]));
        assert(color_at(grid, width, a[k]) == color_a);
        lemma_overlap_reaches_seed(grid, width, height, a, color_a, b, color_b, j);
    }
}

/// Discovery yields whole unclaimed regions that start at candidates and
/// share no cell.
pub proof fn lemma_discover(grid: Seq<u8>, width: usize, height: usize, candidates: Seq<Pos>)
    requires
        all_in_bounds(candidates, width, height),
    ensures
        discovered(grid, width, height, candidates, discover(grid, width, height, candidates)),
    decreases candidates.len(),
{
    if candidates.len() > 0 {
        let shorter = candidates.drop_last();
        let found = discover(grid, width, height, shorter);
        let c = candidates.last();
        let color = color_at(grid, width, c);
        let all = discover(grid, width, height, candidates);
        lemma_discover(grid, width, height, shorter);
        assert forall|r: int| 0 <= r < found.len() implies candidates.contains(
            (#[trigger] found[r])[0],
        ) by {
            let k = choose|k: int| 0 <= k < shorter.len() && shorter[k] == found[r][0];
            assert(candidates[k] == found[r][0]);
        }
        if color != FILL_COLOR && !covered(found, c) {
            let region = region_order(grid, width, height, c, color);
            assert(in_bounds(candidates[candidates.len() - 1], width, height));
            lemma_region_order(grid, width, height, c, color);
            assert(all == found.push(region));
            assert(candidates[candidates.len() - 1] == region[0]);
            assert forall|r1: int, r2: int, d: Pos|
                #![trigger all[r1].contains(d), all[r2].contains(d)]
                0 <= r1 < r2 < all.len() && all[r1].contains(d) implies !all[r2].contains(d) by {
                if r2 == found.len() && region.contains(d) {
                    let i = choose|i: int| 0 <= i < region.len() && region[i] == d;
                    lemma_overlap_reaches_seed(
                        grid,
                        width,
                        height,
                        found[r1],
                        color_at(grid, width, found[r1][0]),
                        region,
                        color,
                        i,
                    );
                    assert(found[r1].contains(c));
                    assert(covered(found, c));
                }
            }
        }
    }
}

/// What the regions offered to a claimed area must be for the area to stay
/// a claimed area: connected lists of distinct cells of the grid, each
/// touching the area with its first cell, none sharing a cell with the area
/// or with another.
pub open spec fn absorbable(
    width: usize,
    height: usize,
    filled: Seq<Pos>,
    regions: Seq<Seq<Pos>>,
) -> bool {
    &&& forall|r: int|
        0 <= r < regions.len() ==> {
            &&& (#[trigger] regions[r]).len() > 0
            &&& is_fill(width, height, regions[r])
            &&& touches(filled, regions[r][0])
        }
    &&& forall|r: int, c: Pos|
        0 <= r < regions.len() && #[trigger] regions[r].contains(c) ==> !filled.contains(c)
    &&& pairwise_disjoint(regions)
}

/// Offering absorbable regions to a claimed area extends it to a claimed
/// area made of the old cells and cells of the regions; it grows exactly if
/// some region was taken.
pub proof fn lemma_absorb(width: usize, height: usize, filled: Seq<Pos>, regions: Seq<Seq<Pos>>)
    requires
        is_fill(width, height, filled),
        absorbable(width, height, filled, regions),
    ensures
        ({
            let next = absorb(filled, regions);
            &&& is_fill(width, height, next)
            &&& filled.is_prefix_of(next)
            &&& forall|c: Pos| #[trigger] next.contains(c) ==> filled.contains(c) || covered(regions, c)
            &&& absorbs_any(filled, regions) <==> filled.len() < next.len()
        }),
    decreases regions.len(),
{
    broadcast use lemma_seq_concat_contains_all_elements;

    if regions.len() > 0 {
        let shorter = regions.drop_last();
        let last = regions.last();
        let grown = absorb(filled, shorter);
        let next = absorb(filled, regions);
        assert forall|r: int| 0 <= r < shorter.len() implies shorter[r] == regions[r] by {}
        assert(absorbable(width, height, filled, shorter));
        lemma_absorb(width, height, filled, shorter);
        assert(last == regions[regions.len() - 1]);
        assert forall|c: Pos| covered(shorter, c) implies covered(regions, c) by {
            let r = choose|r: int| 0 <= r < shorter.len() && (#[trigger] shorter[r]).contains(c);
            assert(regions[r].contains(c));
        }
        if last.len() < grown.len() {
            assert(next == grown + last);
            assert forall|i: int, j: int| 0 <= i < j < next.len() implies next[i] != next[j] by {
                if i < grown.len() && j >= grown.len() {
                    let c = last[j - grown.len()];
                    assert(last.contains(c));
                    if next[i] == c {
                        assert(grown.contains(c));
                        if covered(shorter, c) {
                            let r = choose|r: int|
                                0 <= r < shorter.len() && (#[trigger] shorter[r]).contains(c);
                            assert(regions[r].contains(c));
                        }
                    }
                }
            }
            assert forall|i: int| 0 < i < next.len() implies #[trigger] touches_earlier(
                next,
                i,
            ) by {
                if i < grown.len() {
                    assert(touches_earlier(grown, i));
                    let j = choose|j: int| 0 <= j < i && adjacent(#[trigger] grown[j], grown[i]);
                    assert(adjacent(next[j], next[i]));
                } else if i == grown.len() {
                    let j = choose|j: int| 0 <= j < filled.len() && adjacent(#[trigger] filled[j], last[0]);
                    assert(adjacent(next[j], next[i]));
                } else {
                    let m = i - grown.len();
                    assert(touches_earlier(last, m));
                    let j = choose|j: int| 0 <= j < m && adjacent(#[trigger] last[j], last[m]);
                    assert(adjacent(next[j + grown.len()], next[i]));
                }
            }
            assert forall|c: Pos| #[trigger] next.contains(c) implies filled.contains(c) || covered(
                regions,
                c,
            ) by {
                if last.contains(c) {
                    assert(regions[regions.len() - 1].contains(c));
                }
            }
        }
    }
}

/// What a round discovers from the frontier of any list of cells are whole
/// unclaimed regions that share no cell.
pub proof fn lemma_discover_frontier(grid: Seq<u8>, width: usize, height: usize, filled: Seq<Pos>)
    ensures
        discovered(
            grid,
            width,
            height,
            frontier(filled, width, height),
            discover(grid, width, height, frontier(filled, width, height)),
        ),
{
    let candidates = frontier(filled, width, height);
    lemma_frontier(filled, width, height);
    assert forall|i: int| 0 <= i < candidates.len() implies in_bounds(
        #[trigger] candidates[i],
        width,
        height,
    ) by {
        assert(candidates.contains(candidates[i]));
    }
    lemma_discover(grid, width, height, candidates);
}

/// Against the painted buffer, what a round discovers from the frontier of
/// a claimed area is absorbable.
pub proof fn lemma_discovered_absorbable(
    grid: Seq<u8>,
    width: usize,
    height: usize,
    filled: Seq<Pos>,
)
    requires
        grid.len() == width * height,
        is_fill(width, height, filled),
    ensures
        absorbable(
            width,
            height,
            filled,
            discover(paint(grid, width, filled), width, height, frontier(filled, width, height)),
        ),
{
    let painted = paint(grid, width, filled);
    let found = discover(painted, width, height, frontier(filled, width, height));
    lemma_frontier(filled, width, height);
    lemma_discover_frontier(painted, width, height, filled);
    assert forall|r: int, c: Pos|
        0 <= r < found.len() && #[trigger] found[r].contains(c) implies !filled.contains(c) by {
        let k = choose|k: int| 0 <= k < found[r].len() && found[r][k] == c;
        assert(in_bounds(found[r][k], width, height));
        assert(color_at(painted, width, found[r][k]) != FILL_COLOR);
        lemma_cell_index_bounds(c, width, height);
        lemma_covers_cell(filled, width, height, c);
    }
}

/// A round on a claimed area yields a claimed area that extends it and fits
/// in the grid.
pub proof fn lemma_absorb_round(grid: Seq<u8>, width: usize, height: usize, filled: Seq<Pos>)
    requires
        grid.len() == width * height,
        is_fill(width, height, filled),
    ensures
        ({
            let next = absorb_round(grid, width, height, filled);
            &&& is_fill(width, height, next)
            &&& filled.is_prefix_of(next)
            &&& next.len() <= width * height
        }),
{
    let painted = paint(grid, width, filled);
    let found = discover(painted, width, height, frontier(filled, width, height));
    lemma_discovered_absorbable(grid, width, height, filled);
    lemma_absorb(width, height, filled, found);
    lemma_distinct_cells_bounded(absorb(filled, found), width, height);
}

/// Rounds on a claimed area end with a claimed area that extends it and
/// that one more round leaves as it is.
pub proof fn lemma_absorb_until_stable(
    grid: Seq<u8>,
    width: usize,
    height: usize,
    filled: Seq<Pos>,
)
    requires
        grid.len() == width * height,
        is_fill(width, height, filled),
    ensures
        ({
            let last = absorb_until_stable(grid, width, height, filled);
            &&& is_fill(width, height, last)
            &&& filled.is_prefix_of(last)
            &&& absorb_round(grid, width, height, last) == last
        }),
    decreases width * height - filled.len(),
{
    let next = absorb_round(grid, width, height, filled);
    lemma_absorb_round(grid, width, height, filled);
    if filled.len() < next.len() {
        lemma_absorb_until_stable(grid, width, height, next);
    } else {
        assert(next =~= filled);
    }
}

} // verus!
