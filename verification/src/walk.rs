//! Walks over the grid, and what it means for cells to form one area.

use vstd::prelude::*;
use crate::grid::{adjacent, Pos};
use crate::region::{grows_by_adjacency, touches_earlier};

verus! {

/// A walk over the grid: a non-empty list of cells in which each cell
/// shares an edge with the one before it.
pub open spec fn is_path(path: Seq<Pos>) -> bool {
    &&& path.len() > 0
    &&& forall|k: int| 0 < k < path.len() ==> adjacent(path[k - 1], #[trigger] path[k])
}

/// Every cell of the walk is one of `cells`.
pub open spec fn path_within(path: Seq<Pos>, cells: Seq<Pos>) -> bool {
    forall|k: int| 0 <= k < path.len() ==> cells.contains(#[trigger] path[k])
}

/// A walk from `a` to `b` that stays on `cells`.
pub open spec fn joins(path: Seq<Pos>, cells: Seq<Pos>, a: Pos, b: Pos) -> bool {
    &&& is_path(path)
    &&& path_within(path, cells)
    &&& path[0] == a
    &&& path.last() == b
}

/// Some walk over `cells` leads from `a` to `b`.
pub open spec fn joined(cells: Seq<Pos>, a: Pos, b: Pos) -> bool {
    exists|path: Seq<Pos>| joins(path, cells, a, b)
}

/// The cells form one 4-connected area: a walk over them leads from any
/// one to any other.
pub open spec fn connected(cells: Seq<Pos>) -> bool {
    forall|a: Pos, b: Pos| cells.contains(a) && cells.contains(b) ==> #[trigger] joined(cells, a, b)
}

/// In a list that grows by adjacency, a walk over the list leads from the
/// first cell to every other.
pub proof fn lemma_joined_to_first(cells: Seq<Pos>, i: int)
    requires
        grows_by_adjacency(cells),
        0 <= i < cells.len(),
    ensures
        joined(cells, cells[0], cells[i]),
    decreases i,
{
    if i == 0 {
        let path = seq![cells[0]];
        assert(cells.contains(path[0]));
        assert(joins(path, cells, cells[0], cells[0]));
    } else {
        assert(touches_earlier(cells, i));
        let j = choose|j: int| 0 <= j < i && adjacent(#[trigger] cells[j], cells[i]);
        lemma_joined_to_first(cells, j);
        let shorter = choose|path: Seq<Pos>| joins(path, cells, cells[0], cells[j]);
        let path = shorter.push(cells[i]);
        assert forall|k: int| 0 < k < path.len() implies adjacent(path[k - 1], #[trigger] path[k]) by {
            if k < shorter.len() {
                assert(adjacent(shorter[k - 1], shorter[k]));
            }
        }
        assert forall|k: int| 0 <= k < path.len() implies cells.contains(#[trigger] path[k]) by {
            if k < shorter.len() {
                assert(cells.contains(shorter[k]));
            }
        }
        assert(joins(path, cells, cells[0], cells[i]));
    }
}

/// A walk can be taken backwards.
pub proof fn lemma_joined_symmetric(cells: Seq<Pos>, a: Pos, b: Pos)
    requires
        joined(cells, a, b),
    ensures
        joined(cells, b, a),
{
    let path = choose|path: Seq<Pos>| joins(path, cells, a, b);
    let back = Seq::new(path.len(), |k: int| path[path.len() - 1 - k]);
    assert forall|k: int| 0 < k < back.len() implies adjacent(back[k - 1], #[trigger] back[k]) by {
        assert(adjacent(path[path.len() - 1 - k], path[path.len() - k]));
    }
    assert forall|k: int| 0 <= k < back.len() implies cells.contains(#[trigger] back[k]) by {
        assert(cells.contains(path[path.len() - 1 - k]));
    }
    assert(joins(back, cells, b, a));
}

/// Two walks that meet make one walk.
pub proof fn lemma_joined_transitive(cells: Seq<Pos>, a: Pos, b: Pos, c: Pos)
    requires
        joined(cells, a, b),
        joined(cells, b, c),
    ensures
        joined(cells, a, c),
{
    let first = choose|path: Seq<Pos>| joins(path, cells, a, b);
    let second = choose|path: Seq<Pos>| joins(path, cells, b, c);
    let rest = second.drop_first();
    let path = first + rest;
    assert forall|k: int| 0 < k < path.len() implies adjacent(path[k - 1], #[trigger] path[k]) by {
        if k < first.len() {
            assert(adjacent(first[k - 1], first[k]));
        } else {
            let m = k - first.len() + 1;
            assert(adjacent(second[m - 1], second[m]));
        }
    }
    assert forall|k: int| 0 <= k < path.len() implies cells.contains(#[trigger] path[k]) by {
        if k < first.len() {
            assert(cells.contains(first[k]));
        } else {
            assert(cells.contains(second[k - first.len() + 1]));
        }
    }
    assert(joins(path, cells, a, c));
}

/// A list in which every cell but the first shares an edge with an earlier
/// one is one connected area.
pub proof fn lemma_grows_connected(cells: Seq<Pos>)
    requires
        grows_by_adjacency(cells),
    ensures
        connected(cells),
{
    assert forall|a: Pos, b: Pos| cells.contains(a) && cells.contains(b) implies #[trigger] joined(
        cells,
        a,
        b,
    ) by {
        let i = choose|i: int| 0 <= i < cells.len() && cells[i] == a;
        let j = choose|j: int| 0 <= j < cells.len() && cells[j] == b;
        lemma_joined_to_first(cells, i);
        lemma_joined_to_first(cells, j);
        lemma_joined_symmetric(cells, cells[0], a);
        lemma_joined_transitive(cells, a, cells[0], b);
    }
}

} // verus!
