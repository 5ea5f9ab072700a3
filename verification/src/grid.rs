//! Grid geometry: cells, bounds, row-major indices and 4-adjacency.

use vstd::prelude::*;

verus! {

/// A cell position `(x, y)`: column first, then row.
pub type Pos = (usize, usize);

/// The colour that marks a cell as claimed by the fill.
pub const FILL_COLOR: u8 = 3;

/// `p` lies inside a grid of the given size.
pub open spec fn in_bounds(p: Pos, width: usize, height: usize) -> bool {
    p.0 < width && p.1 < height
}

/// Every cell of the list lies inside the grid.
pub open spec fn all_in_bounds(cells: Seq<Pos>, width: usize, height: usize) -> bool {
    forall|i: int| 0 <= i < cells.len() ==> in_bounds(#[trigger] cells[i], width, height)
}

/// The place of `p` in a row-major buffer.
pub open spec fn cell_index(p: Pos, width: usize) -> int {
    p.1 * width + p.0
}

/// The colour that the buffer holds at `p`.
pub open spec fn color_at(grid: Seq<u8>, width: usize, p: Pos) -> u8 {
    grid[cell_index(p, width)]
}

/// `p` and `q` share an edge: they differ by one step along exactly one axis.
pub open spec fn adjacent(p: Pos, q: Pos) -> bool {
    ||| (p.1 == q.1 && (p.0 + 1 == q.0 || q.0 + 1 == p.0))
    ||| (p.0 == q.0 && (p.1 + 1 == q.1 || q.1 + 1 == p.1))
}

/// The one-cell list `[q]` if the step to `q` exists and ends inside the
/// grid, the empty list otherwise.
pub open spec fn step_inside(exists_step: bool, q: Pos, width: usize, height: usize) -> Seq<Pos> {
    if exists_step && in_bounds(q, width, height) {
        seq![q]
    } else {
        Seq::empty()
    }
}

/// The neighbours of `p` inside the grid, in the order left, right, up, down.
pub open spec fn neighbors(p: Pos, width: usize, height: usize) -> Seq<Pos> {
    step_inside(p.0 > 0, ((p.0 - 1) as usize, p.1), width, height)
        + step_inside(p.0 < usize::MAX, ((p.0 + 1) as usize, p.1), width, height)
        + step_inside(p.1 > 0, (p.0, (p.1 - 1) as usize), width, height)
        + step_inside(p.1 < usize::MAX, (p.0, (p.1 + 1) as usize), width, height)
}

/// The neighbour list holds exactly the cells inside the grid that share an
/// edge with `p`, each once.
pub proof fn lemma_neighbors(p: Pos, width: usize, height: usize)
    ensures
        neighbors(p, width, height).len() <= 4,
        neighbors(p, width, height).no_duplicates(),
        forall|q: Pos| #[trigger]
            neighbors(p, width, height).contains(q) <==> in_bounds(q, width, height) && adjacent(
                p,
                q,
            ),
{
    let a = step_inside(p.0 > 0, ((p.0 - 1) as usize, p.1), width, height);
    let b = step_inside(p.0 < usize::MAX, ((p.0 + 1) as usize, p.1), width, height);
    let c = step_inside(p.1 > 0, (p.0, (p.1 - 1) as usize), width, height);
    let d = step_inside(p.1 < usize::MAX, (p.0, (p.1 + 1) as usize), width, height);
    let n = neighbors(p, width, height);
    assert(n == a + b + c + d);
    assert forall|q: Pos| in_bounds(q, width, height) && adjacent(p, q) implies n.contains(q) by {
        if q.1 == p.1 && q.0 + 1 == p.0 {
            assert(n[0] == q);
        } else if q.1 == p.1 && p.0 + 1 == q.0 {
            assert(n[a.len() as int] == q);
        } else if q.0 == p.0 && q.1 + 1 == p.1 {
            assert(n[(a.len() + b.len()) as int] == q);
        } else {
            assert(n[(a.len() + b.len() + c.len()) as int] == q);
        }
    }
    assert forall|q: Pos| n.contains(q) implies in_bounds(q, width, height) && adjacent(p, q) by {
        let i = choose|i: int| 0 <= i < n.len() && n[i] == q;
        assert(n[i] == q);
    }
}

/// An in-bounds cell has its index inside the buffer.
pub proof fn lemma_cell_index_bounds(p: Pos, width: usize, height: usize)
    requires
        in_bounds(p, width, height),
    ensures
        0 <= cell_index(p, width) < width * height,
        p.1 * width <= cell_index(p, width),
{
    assert(p.1 * width + width <= height * width) by (nonlinear_arith)
        requires
            p.1 + 1 <= height,
    ;
    assert(0 <= p.1 * width) by (nonlinear_arith);
    assert(height * width == width * height) by (nonlinear_arith);
}

/// Two in-bounds cells with the same index are the same cell.
pub proof fn lemma_cell_index_injective(p: Pos, q: Pos, width: usize, height: usize)
    requires
        in_bounds(p, width, height),
        in_bounds(q, width, height),
        cell_index(p, width) == cell_index(q, width),
    ensures
        p == q,
{
    if p.1 < q.1 {
        assert(p.1 * width + width <= q.1 * width) by (nonlinear_arith)
            requires
                p.1 + 1 <= q.1,
        ;
    } else if q.1 < p.1 {
        assert(q.1 * width + width <= p.1 * width) by (nonlinear_arith)
            requires
                q.1 + 1 <= p.1,
        ;
    }
}

/// A list of distinct cells of the grid is no longer than the grid is large.
pub proof fn lemma_distinct_cells_bounded(cells: Seq<Pos>, width: usize, height: usize)
    requires
        cells.no_duplicates(),
        all_in_bounds(cells, width, height),
    ensures
        cells.len() <= width * height,
{
    let indices = Seq::new(cells.len(), |i: int| cell_index(cells[i], width));
    assert forall|i: int, j: int|
        0 <= i < indices.len() && 0 <= j < indices.len() && i != j implies indices[i]
        != indices[j] by {
        if indices[i] == indices[j] {
            lemma_cell_index_injective(cells[i], cells[j], width, height);
        }
    }
    indices.unique_seq_to_set();
    assert(0 <= width * height) by (nonlinear_arith);
    let all = vstd::set_lib::set_int_range(0, width * height);
    vstd::set_lib::lemma_int_range(0, width * height);
    assert forall|k: int| indices.to_set().contains(k) implies all.contains(k) by {
        let i = choose|i: int| 0 <= i < indices.len() && indices[i] == k;
        lemma_cell_index_bounds(cells[i], width, height);
    }
    vstd::set_lib::lemma_len_subset(indices.to_set(), all);
}

/// Some cell of the list sits at place `i` of the buffer.
pub open spec fn covers(cells: Seq<Pos>, width: usize, i: int) -> bool {
    exists|k: int| 0 <= k < cells.len() && cell_index(#[trigger] cells[k], width) == i
}

/// The buffer with `color` written at every cell of the list.
pub open spec fn recolor(grid: Seq<u8>, width: usize, cells: Seq<Pos>, color: u8) -> Seq<u8> {
    Seq::new(
        grid.len(),
        |i: int|
            if covers(cells, width, i) {
                color
            } else {
                grid[i]
            },
    )
}

/// Among cells of the grid, the list covers the place of `q` exactly when it
/// holds `q`.
pub proof fn lemma_covers_cell(cells: Seq<Pos>, width: usize, height: usize, q: Pos)
    requires
        all_in_bounds(cells, width, height),
        in_bounds(q, width, height),
    ensures
        covers(cells, width, cell_index(q, width)) <==> cells.contains(q),
{
    if covers(cells, width, cell_index(q, width)) {
        let k = choose|k: int|
            0 <= k < cells.len() && cell_index(#[trigger] cells[k], width) == cell_index(q, width);
        lemma_cell_index_injective(cells[k], q, width, height);
    }
    if cells.contains(q) {
        let k = choose|k: int| 0 <= k < cells.len() && cells[k] == q;
        assert(cell_index(cells[k], width) == cell_index(q, width));
    }
}

/// Recolouring one more cell is one write into the buffer.
pub proof fn lemma_recolor_push(
    grid: Seq<u8>,
    width: usize,
    height: usize,
    cells: Seq<Pos>,
    p: Pos,
    color: u8,
)
    requires
        grid.len() == width * height,
        in_bounds(p, width, height),
    ensures
        recolor(grid, width, cells.push(p), color) == recolor(grid, width, cells, color).update(
            cell_index(p, width),
            color,
        ),
{
    let more = cells.push(p);
    lemma_cell_index_bounds(p, width, height);
    assert forall|i: int|
        covers(more, width, i) <==> covers(cells, width, i) || i == cell_index(p, width) by {
        if covers(cells, width, i) {
            let k = choose|k: int| 0 <= k < cells.len() && cell_index(#[trigger] cells[k], width) == i;
            assert(cell_index(more[k], width) == i);
        }
        if i == cell_index(p, width) {
            assert(cell_index(more[cells.len() as int], width) == i);
        }
        if covers(more, width, i) {
            let k = choose|k: int| 0 <= k < more.len() && cell_index(#[trigger] more[k], width) == i;
            if k < cells.len() {
                assert(cell_index(cells[k], width) == i);
            }
        }
    }
    assert(recolor(grid, width, more, color) =~= recolor(grid, width, cells, color).update(
        cell_index(p, width),
        color,
    ));
}

/// Recolouring two lists in turn is recolouring their concatenation.
pub proof fn lemma_recolor_concat(
    grid: Seq<u8>,
    width: usize,
    first: Seq<Pos>,
    second: Seq<Pos>,
    color: u8,
)
    ensures
        recolor(recolor(grid, width, first, color), width, second, color) == recolor(
            grid,
            width,
            first + second,
            color,
        ),
{
    let both = first + second;
    assert forall|i: int| covers(both, width, i) <==> covers(first, width, i) || covers(
        second,
        width,
        i,
    ) by {
        if covers(first, width, i) {
            let k = choose|k: int| 0 <= k < first.len() && cell_index(#[trigger] first[k], width) == i;
            assert(cell_index(both[k], width) == i);
        }
        if covers(second, width, i) {
            let k = choose|k: int|
                0 <= k < second.len() && cell_index(#[trigger] second[k], width) == i;
            assert(cell_index(both[first.len() + k], width) == i);
        }
        if covers(both, width, i) {
            let k = choose|k: int| 0 <= k < both.len() && cell_index(#[trigger] both[k], width) == i;
            if k < first.len() {
                assert(cell_index(first[k], width) == i);
            } else {
                assert(cell_index(second[k - first.len()], width) == i);
            }
        }
    }
    assert(recolor(recolor(grid, width, first, color), width, second, color) =~= recolor(
        grid,
        width,
        both,
        color,
    ));
}

/// The neighbours of `(x, y)` inside a `width` by `height` grid: left, right,
/// up, down, leaving out those that fall outside.
pub fn neighbors_4(x: usize, y: usize, width: usize, height: usize) -> (result: Vec<(usize, usize)>)
    ensures
        result@ == neighbors((x, y), width, height),
{
    let mut result: Vec<(usize, usize)> = Vec::new();
    if x > 0 && x - 1 < width && y < height {
        result.push((x - 1, y));
    }
    if x < usize::MAX && x + 1 < width && y < height {
        result.push((x + 1, y));
    }
    if y > 0 && x < width && y - 1 < height {
        result.push((x, y - 1));
    }
    if y < usize::MAX && x < width && y + 1 < height {
        result.push((x, y + 1));
    }
    assert(result@ =~= neighbors((x, y), width, height));
    result
}

} // verus!
