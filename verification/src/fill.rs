//! The fill itself: the first region, the absorption rounds, and the flat
//! list of coordinates that callers receive.

use std::collections::HashSet;
use vstd::prelude::*;
use vstd::seq_lib::lemma_seq_contains_after_push;
use vstd::slice::slice_to_vec;
use crate::grid::{
    all_in_bounds, cell_index, color_at, in_bounds, lemma_cell_index_bounds,
    lemma_cell_index_injective, lemma_distinct_cells_bounded, lemma_neighbors, lemma_recolor_concat, lemma_recolor_push,
    neighbors, neighbors_4, recolor, Pos, FILL_COLOR,
};
use crate::region::lemma_region_order;
use crate::rounds::{
    absorb, absorb_round, absorb_until_stable, absorbs_any, covered, discover, discovered,
    fill_order, frontier, is_fill, lemma_absorb, lemma_absorb_round, lemma_absorb_until_stable,
    lemma_discover_frontier, lemma_discovered_absorbable, paint,
};
use crate::walk::{connected, lemma_grows_connected};
use crate::scan::{flood_fill_peek, flood_fill_with_positions, marked};

verus! {

/// The cell lists of regions that carry their colour as a tag.
pub open spec fn region_lists(regions: Seq<(u8, Vec<(usize, usize)>)>) -> Seq<Seq<Pos>> {
    Seq::new(regions.len(), |r: int| regions[r].1@)
}

/// The coordinates of the cells as 32-bit words, `x` before `y`, cell after
/// cell. A coordinate that needs more than 32 bits keeps its low 32.
pub open spec fn interleave(cells: Seq<Pos>) -> Seq<u32> {
    Seq::new(
        2 * cells.len(),
        |i: int|
            if i % 2 == 0 {
                cells[i / 2].0 as u32
            } else {
                cells[i / 2].1 as u32
            },
    )
}

/// One more region covers what the others covered and its own cells.
proof fn lemma_covered_push(regions: Seq<Seq<Pos>>, region: Seq<Pos>, q: Pos)
    ensures
        covered(regions.push(region), q) <==> covered(regions, q) || region.contains(q),
{
    let more = regions.push(region);
    if covered(regions, q) {
        let r = choose|r: int| 0 <= r < regions.len() && (#[trigger] regions[r]).contains(q);
        assert(more[r].contains(q));
    }
    if region.contains(q) {
        assert(more[regions.len() as int].contains(q));
    }
    if covered(more, q) {
        let r = choose|r: int| 0 <= r < more.len() && (#[trigger] more[r]).contains(q);
        if r < regions.len() {
            assert(regions[r].contains(q));
        }
    }
}

/// Adds the places of the region's cells to the marker set.
fn mark_region(
    visited: &mut HashSet<usize>,
    region: &Vec<(usize, usize)>,
    width: usize,
    height: usize,
)
    requires
        all_in_bounds(region@, width, height),
        width * height <= usize::MAX,
    ensures
        forall|q: Pos|
            in_bounds(q, width, height) ==> (#[trigger] marked(final(visited)@, width, q)
                <==> marked(old(visited)@, width, q) || region@.contains(q)),
{
    let mut k: usize = 0;
    while k < region.len()
        invariant
            0 <= k <= region.len(),
            all_in_bounds(region@, width, height),
            width * height <= usize::MAX,
            forall|q: Pos|
                in_bounds(q, width, height) ==> (#[trigger] marked(visited@, width, q) <==> marked(
                    old(visited)@,
                    width,
                    q,
                ) || region@.take(k as int).contains(q)),
        decreases region.len() - k,
    {
        let (x, y) = region[k];
        let ghost c = (x, y);
        let ghost before = visited@;
        proof {
            lemma_cell_index_bounds(c, width, height);
        }
        visited.insert(y * width + x);
        proof {
            broadcast use lemma_seq_contains_after_push;

            assert(region@.take(k + 1) =~= region@.take(k as int).push(c));
            assert forall|q: Pos| in_bounds(q, width, height) implies (#[trigger] marked(
                visited@,
                width,
                q,
            ) <==> marked(old(visited)@, width, q) || region@.take(k + 1).contains(q)) by {
                lemma_cell_index_bounds(q, width, height);
                assert(marked(before, width, q) <==> marked(old(visited)@, width, q)
                    || region@.take(k as int).contains(q));
                if cell_index(q, width) == cell_index(c, width) {
                    lemma_cell_index_injective(q, c, width, height);
                }
            }
        }
        k += 1;
    }
    proof {
        assert(region@.take(region@.len() as int) =~= region@);
    }
}

/// One round's discovery: walks the neighbours of the claimed cells in
/// claiming order and measures the region around each unclaimed neighbour
/// that no region found before holds. Each region comes with its colour.
pub fn discover_regions(
    grid: &[u8],
    width: usize,
    height: usize,
    filled: &Vec<(usize, usize)>,
) -> (regions: Vec<(u8, Vec<(usize, usize)>)>)
    requires
        grid@.len() == width * height,
    ensures
        region_lists(regions@) == discover(grid@, width, height, frontier(filled@, width, height)),
        discovered(
            grid@,
            width,
            height,
            frontier(filled@, width, height),
            region_lists(regions@),
        ),
        forall|r: int|
            0 <= r < regions.len() ==> (#[trigger] regions[r]).0 == color_at(
                grid@,
                width,
                regions[r].1@[0],
            ),
{
    let mut regions: Vec<(u8, Vec<(usize, usize)>)> = Vec::new();
    let mut visited: HashSet<usize> = HashSet::new();
    let mut i: usize = 0;
    proof {
        assert(grid.len() == grid@.len());
        assert(filled@.take(0) =~= Seq::empty());
        assert(region_lists(regions@) =~= Seq::empty());
    }
    while i < filled.len()
        invariant
            0 <= i <= filled.len(),
            grid@.len() == width * height,
            width * height <= usize::MAX,
            region_lists(regions@) == discover(
                grid@,
                width,
                height,
                frontier(filled@.take(i as int), width, height),
            ),
            forall|q: Pos|
                in_bounds(q, width, height) ==> (#[trigger] marked(visited@, width, q) <==> covered(
                    region_lists(regions@),
                    q,
                )),
            forall|r: int|
                0 <= r < regions.len() ==> (#[trigger] regions[r]).0 == color_at(
                    grid@,
                    width,
                    regions[r].1@[0],
                ),
        decreases filled.len() - i,
    {
        let (x, y) = filled[i];
        let ghost earlier = frontier(filled@.take(i as int), width, height);
        let nbrs = neighbors_4(x, y, width, height);
        let mut j: usize = 0;
        proof {
            assert(nbrs@.take(0) =~= Seq::empty());
            assert(earlier + nbrs@.take(0) =~= earlier);
        }
        while j < nbrs.len()
            invariant
                0 <= j <= nbrs.len(),
                nbrs@ == neighbors((x, y), width, height),
                grid@.len() == width * height,
                width * height <= usize::MAX,
                region_lists(regions@) == discover(
                    grid@,
                    width,
                    height,
                    earlier + nbrs@.take(j as int),
                ),
                forall|q: Pos|
                    in_bounds(q, width, height) ==> (#[trigger] marked(visited@, width, q)
                        <==> covered(region_lists(regions@), q)),
                forall|r: int|
                    0 <= r < regions.len() ==> (#[trigger] regions[r]).0 == color_at(
                        grid@,
                        width,
                        regions[r].1@[0],
                    ),
            decreases nbrs.len() - j,
        {
            let (nx, ny) = nbrs[j];
            let ghost c = (nx, ny);
            let ghost found = region_lists(regions@);
            proof {
                lemma_neighbors((x, y), width, height);
                assert(nbrs@.contains(nbrs@[j as int]));
                lemma_cell_index_bounds(c, width, height);
                assert((earlier + nbrs@.take(j + 1)).drop_last() =~= earlier + nbrs@.take(
                    j as int,
                ));
                assert((earlier + nbrs@.take(j + 1)).last() == c);
                assert(marked(visited@, width, c) <==> covered(found, c));
            }
            let n_idx = ny * width + nx;
            let n_color = grid[n_idx];
            if n_color != FILL_COLOR && !visited.contains(&n_idx) {
                let region = flood_fill_peek(grid, width, height, nx, ny, n_color);
                proof {
                    lemma_region_order(grid@, width, height, c, n_color);
                }
                mark_region(&mut visited, &region, width, height);
                proof {
                    assert(region_lists(regions@.push((n_color, region))) =~= found.push(region@));
                    assert forall|q: Pos| in_bounds(q, width, height) implies (#[trigger] marked(
                        visited@,
                        width,
                        q,
                    ) <==> covered(found.push(region@), q)) by {
                        lemma_covered_push(found, region@, q);
                    }
                }
                regions.push((n_color, region));
            }
            j += 1;
        }
        proof {
            assert(nbrs@.take(nbrs@.len() as int) =~= nbrs@);
            assert(filled@.take(i + 1).drop_last() =~= filled@.take(i as int));
            assert(filled@.take(i + 1).last() == (x, y));
        }
        i += 1;
    }
    proof {
        assert(filled@.take(filled@.len() as int) =~= filled@);
        lemma_discover_frontier(grid@, width, height, filled@);
    }
    regions
}

/// One round's decisions: offers the regions to the claimed area in order.
/// A region strictly smaller than the area claimed so far is recoloured
/// and appended, cell by cell; any other is left alone. Tells whether any
/// region was taken.
pub fn absorb_regions(
    grid: &mut [u8],
    width: usize,
    height: usize,
    filled: &mut Vec<(usize, usize)>,
    regions: &Vec<(u8, Vec<(usize, usize)>)>,
) -> (changed: bool)
    requires
        old(grid)@.len() == width * height,
        forall|r: int|
            0 <= r < regions.len() ==> all_in_bounds(
                #[trigger] region_lists(regions@)[r],
                width,
                height,
            ),
    ensures
        final(filled)@ == absorb(old(filled)@, region_lists(regions@)),
        old(filled)@.is_prefix_of(final(filled)@),
        final(grid)@ == recolor(
            old(grid)@,
            width,
            final(filled)@.skip(old(filled)@.len() as int),
            FILL_COLOR,
        ),
        changed == absorbs_any(old(filled)@, region_lists(regions@)),
{
    let ghost lists = region_lists(regions@);
    let ghost start = old(filled)@.len() as int;
    let mut changed = false;
    let mut r: usize = 0;
    proof {
        assert(grid.len() == grid@.len());
        assert(lists.take(0) =~= Seq::empty());
        assert(filled@.skip(start) =~= Seq::empty());
        assert(grid@ =~= recolor(old(grid)@, width, filled@.skip(start), FILL_COLOR));
    }
    while r < regions.len()
        invariant
            0 <= r <= regions.len(),
            lists == region_lists(regions@),
            start == old(filled)@.len(),
            grid@.len() == width * height,
            old(grid)@.len() == width * height,
            width * height <= usize::MAX,
            forall|r: int| 0 <= r < regions.len() ==> all_in_bounds(#[trigger] lists[r], width, height),
            filled@ == absorb(old(filled)@, lists.take(r as int)),
            old(filled)@.is_prefix_of(filled@),
            grid@ == recolor(old(grid)@, width, filled@.skip(start), FILL_COLOR),
            changed == absorbs_any(old(filled)@, lists.take(r as int)),
        decreases regions.len() - r,
    {
        let region = &regions[r].1;
        let ghost grown = filled@;
        proof {
            assert(lists.take(r + 1).drop_last() =~= lists.take(r as int));
            assert(lists.take(r + 1).last() == region@);
            assert(all_in_bounds(lists[r as int], width, height));
        }
        if region.len() < filled.len() {
            let mut k: usize = 0;
            proof {
                assert(region@.take(0) =~= Seq::empty());
                assert(grown + region@.take(0) =~= grown);
            }
            while k < region.len()
                invariant
                    0 <= k <= region.len(),
                    0 <= start <= grown.len(),
                    grid@.len() == width * height,
                    old(grid)@.len() == width * height,
                    width * height <= usize::MAX,
                    all_in_bounds(region@, width, height),
                    filled@ == grown + region@.take(k as int),
                    grid@ == recolor(old(grid)@, width, filled@.skip(start), FILL_COLOR),
                decreases region.len() - k,
            {
                let (x, y) = region[k];
                let ghost c = (x, y);
                let ghost added = filled@.skip(start);
                proof {
                    lemma_cell_index_bounds(c, width, height);
                    lemma_recolor_push(old(grid)@, width, height, added, c, FILL_COLOR);
                }
                let idx = y * width + x;
                grid[idx] = FILL_COLOR;
                filled.push((x, y));
                proof {
                    assert(filled@.skip(start) =~= added.push(c));
                    assert(grown + region@.take(k + 1) =~= (grown + region@.take(k as int)).push(c));
                }
                k += 1;
            }
            proof {
                assert(region@.take(region@.len() as int) =~= region@);
            }
            changed = true;
        }
        r += 1;
    }
    proof {
        assert(lists.take(lists.len() as int) =~= lists);
    }
    changed
}

/// The cells that a smart fill from `(start_x, start_y)` claims, in the
/// order in which it claims them. The caller's buffer is left as it is.
///
/// A start outside the grid, or on a cell that already holds the fill
/// colour, claims nothing.
pub fn smart_fill_positions(
    grid: &[u8],
    width: usize,
    height: usize,
    start_x: usize,
    start_y: usize,
) -> (filled: Vec<(usize, usize)>)
    requires
        start_x < width && start_y < height ==> grid@.len() == width * height,
    ensures
        filled@ == fill_order(grid@, width, height, (start_x, start_y)),
        is_fill(width, height, filled@),
        connected(filled@),
        filled@.len() <= width * height,
        filled@.len() > 0 <==> in_bounds((start_x, start_y), width, height) && color_at(
            grid@,
            width,
            (start_x, start_y),
        ) != FILL_COLOR,
        filled@.len() > 0 ==> filled@[0] == (start_x, start_y) && absorb_round(
            grid@,
            width,
            height,
            filled@,
        ) == filled@,
{
    proof {
        lemma_grows_connected(Seq::<Pos>::empty());
    }
    if start_x >= width || start_y >= height {
        return Vec::new();
    }
    let ghost start = (start_x, start_y);
    proof {
        assert(grid.len() == grid@.len());
        lemma_cell_index_bounds(start, width, height);
    }
    let idx = start_y * width + start_x;
    let target_color = grid[idx];
    if target_color == FILL_COLOR {
        return Vec::new();
    }
    let mut working_grid = slice_to_vec(grid);
    let mut filled = flood_fill_with_positions(
        working_grid.as_mut_slice(),
        width,
        height,
        start_x,
        start_y,
        target_color,
        FILL_COLOR,
    );
    let ghost first = filled@;
    proof {
        lemma_region_order(grid@, width, height, start, target_color);
        lemma_absorb_until_stable(grid@, width, height, first);
        lemma_distinct_cells_bounded(first, width, height);
    }
    // Rounds: measure what touches the claimed area, take what is small
    // enough, and go on while a round took something.
    let mut changed = true;
    while changed
        invariant
            grid@.len() == width * height,
            working_grid@ == paint(grid@, width, filled@),
            is_fill(width, height, filled@),
            filled@.len() <= width * height,
            absorb_until_stable(grid@, width, height, first) == if changed {
                absorb_until_stable(grid@, width, height, filled@)
            } else {
                filled@
            },
        decreases width * height - filled@.len(), if changed { 1int } else { 0int },
    {
        let ghost claimed = filled@;
        let neighbor_regions = discover_regions(working_grid.as_slice(), width, height, &filled);
        proof {
            let found = region_lists(neighbor_regions@);
            lemma_discovered_absorbable(grid@, width, height, claimed);
            lemma_absorb(width, height, claimed, found);
            lemma_absorb_round(grid@, width, height, claimed);
            assert forall|r: int| 0 <= r < neighbor_regions.len() implies all_in_bounds(
                #[trigger] found[r],
                width,
                height,
            ) by {}
        }
        changed = absorb_regions(
            working_grid.as_mut_slice(),
            width,
            height,
            &mut filled,
            &neighbor_regions,
        );
        proof {
            lemma_recolor_concat(grid@, width, claimed, filled@.skip(claimed.len() as int), FILL_COLOR);
            assert(claimed + filled@.skip(claimed.len() as int) =~= filled@);
            if !changed {
                assert(filled@ =~= claimed);
            }
        }
    }
    proof {
        lemma_grows_connected(filled@);
    }
    filled
}

/// The coordinates of the cells as one flat list: `[x0, y0, x1, y1, ...]`.
pub fn flatten_positions(positions: &Vec<(usize, usize)>) -> (flat: Vec<u32>)
    ensures
        flat@ == interleave(positions@),
{
    let mut flat: Vec<u32> = Vec::new();
    let mut i: usize = 0;
    proof {
        assert(flat@ =~= interleave(positions@.take(0)));
    }
    while i < positions.len()
        invariant
            0 <= i <= positions.len(),
            flat@ == interleave(positions@.take(i as int)),
        decreases positions.len() - i,
    {
        let (x, y) = positions[i];
        flat.push(#[verifier::truncate] (x as u32));
        flat.push(#[verifier::truncate] (y as u32));
        proof {
            assert(flat@ =~= interleave(positions@.take(i + 1)));
        }
        i += 1;
    }
    proof {
        assert(positions@.take(positions@.len() as int) =~= positions@);
    }
    flat
}

/// Smart flood fill from `(start_x, start_y)` over a row-major buffer of
/// colour codes: claims the start cell's region, then keeps absorbing each
/// adjacent region that is strictly smaller than the area claimed so far.
///
/// Returns the claimed cells in claiming order as `[x0, y0, x1, y1, ...]`;
/// the empty list if the start is outside the grid or on a cell that
/// already holds the fill colour.
pub fn compute_smart_fill(
    grid: &[u8],
    width: usize,
    height: usize,
    start_x: usize,
    start_y: usize,
) -> (flat: Vec<u32>)
    requires
        start_x < width && start_y < height ==> grid@.len() == width * height,
    ensures
        flat@ == interleave(fill_order(grid@, width, height, (start_x, start_y))),
        flat@.len() == 2 * fill_order(grid@, width, height, (start_x, start_y)).len(),
        flat@.len() > 0 <==> in_bounds((start_x, start_y), width, height) && color_at(
            grid@,
            width,
            (start_x, start_y),
        ) != FILL_COLOR,
        is_fill(width, height, fill_order(grid@, width, height, (start_x, start_y))),
        connected(fill_order(grid@, width, height, (start_x, start_y))),
{
    let filled = smart_fill_positions(grid, width, height, start_x, start_y);
    flatten_positions(&filled)
}

} // verus!
