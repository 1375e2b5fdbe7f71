//! Reachability over floor tiles: what it means for two cells to be joined
//! by a walk through floor, and the facts the generator's proof rests on.

use vstd::prelude::*;
use crate::entity::TileType;
use crate::grid::{cell_in_grid, cell_index, greater, lesser};

verus! {

/// `(x, y)` is a cell of the grid and its tile is floor.
pub open spec fn floor_at(tiles: Seq<TileType>, width: int, height: int, x: int, y: int) -> bool {
    cell_in_grid(width, height, x, y) && tiles[cell_index(width, x, y)] == TileType::Floor
}

/// The two cells share an edge.
pub open spec fn adjacent(a: (int, int), b: (int, int)) -> bool {
    ||| a.0 == b.0 && (a.1 - b.1 == 1 || b.1 - a.1 == 1)
    ||| a.1 == b.1 && (a.0 - b.0 == 1 || b.0 - a.0 == 1)
}

/// `path` is a non-empty walk over floor cells, each step to an adjacent
/// cell.
pub open spec fn floor_path(tiles: Seq<TileType>, width: int, height: int, path: Seq<(int, int)>) -> bool {
    &&& path.len() > 0
    &&& forall|k: int|
        0 <= k < path.len() ==> floor_at(tiles, width, height, (#[trigger] path[k]).0, path[k].1)
    &&& forall|k: int| 0 <= k < path.len() - 1 ==> adjacent(#[trigger] path[k], path[k + 1])
}

/// Some walk over floor cells leads from `a` to `b`.
pub open spec fn connected(
    tiles: Seq<TileType>,
    width: int,
    height: int,
    a: (int, int),
    b: (int, int),
) -> bool {
    exists|path: Seq<(int, int)>|
        #[trigger] floor_path(tiles, width, height, path) && path[0] == a && path[path.len() - 1]
            == b
}

/// Every floor tile of `before` is a floor tile of `after`.
pub open spec fn only_opened(before: Seq<TileType>, after: Seq<TileType>) -> bool {
    &&& before.len() == after.len()
    &&& forall|i: int|
        0 <= i < before.len() && before[i] == TileType::Floor ==> #[trigger] after[i]
            == TileType::Floor
}

/// A floor cell is connected to itself.
pub proof fn lemma_connected_self(tiles: Seq<TileType>, width: int, height: int, a: (int, int))
    requires
        floor_at(tiles, width, height, a.0, a.1),
    ensures
        connected(tiles, width, height, a, a),
{
    let path = seq![a];
    assert(floor_path(tiles, width, height, path));
}

/// Connections compose: from `a` to `b` and from `b` to `c` gives from `a`
/// to `c`.
pub proof fn lemma_connected_chain(
    tiles: Seq<TileType>,
    width: int,
    height: int,
    a: (int, int),
    b: (int, int),
    c: (int, int),
)
    requires
        connected(tiles, width, height, a, b),
        connected(tiles, width, height, b, c),
    ensures
        connected(tiles, width, height, a, c),
{
    let p = choose|path: Seq<(int, int)>|
        #[trigger] floor_path(tiles, width, height, path) && path[0] == a && path[path.len() - 1]
            == b;
    let q = choose|path: Seq<(int, int)>|
        #[trigger] floor_path(tiles, width, height, path) && path[0] == b && path[path.len() - 1]
            == c;
    let r = p + q.subrange(1, q.len() as int);
    assert forall|k: int| 0 <= k < r.len() implies floor_at(
        tiles,
        width,
        height,
        (#[trigger] r[k]).0,
        r[k].1,
    ) by {
        if k < p.len() {
            assert(r[k] == p[k]);
        } else {
            assert(r[k] == q[k - p.len() + 1]);
        }
    }
    assert forall|k: int| 0 <= k < r.len() - 1 implies adjacent(#[trigger] r[k], r[k + 1]) by {
        if k < p.len() - 1 {
            assert(r[k] == p[k]);
            assert(r[k + 1] == p[k + 1]);
        } else if k == p.len() - 1 {
            assert(r[k] == p[k]);
            assert(r[k] == q[0]);
            assert(r[k + 1] == q[1]);
        } else {
            assert(r[k] == q[k - p.len() + 1]);
            assert(r[k + 1] == q[k - p.len() + 2]);
        }
    }
    assert(floor_path(tiles, width, height, r));
    assert(r[0] == p[0]);
    if q.len() == 1 {
        assert(r[r.len() - 1] == p[p.len() - 1]);
    } else {
        assert(r[r.len() - 1] == q[q.len() - 1]);
    }
}

/// Opening more tiles to floor breaks no connection.
pub proof fn lemma_connected_grows(
    before: Seq<TileType>,
    after: Seq<TileType>,
    width: int,
    height: int,
    a: (int, int),
    b: (int, int),
)
    requires
        only_opened(before, after),
        before.len() == width * height,
        connected(before, width, height, a, b),
    ensures
        connected(after, width, height, a, b),
{
    let path = choose|path: Seq<(int, int)>|
        #[trigger] floor_path(before, width, height, path) && path[0] == a && path[path.len() - 1]
            == b;
    assert forall|k: int| 0 <= k < path.len() implies floor_at(
        after,
        width,
        height,
        (#[trigger] path[k]).0,
        path[k].1,
    ) by {
        assert(floor_at(before, width, height, path[k].0, path[k].1));
        crate::grid::lemma_cell_index(width, height, path[k].0, path[k].1);
    }
    assert(floor_path(after, width, height, path));
}

/// A row segment that is all floor connects its two ends.
pub proof fn lemma_row_connected(
    tiles: Seq<TileType>,
    width: int,
    height: int,
    x1: int,
    x2: int,
    y: int,
)
    requires
        forall|x: int|
            lesser(x1, x2) <= x <= greater(x1, x2) ==> #[trigger] floor_at(
                tiles,
                width,
                height,
                x,
                y,
            ),
    ensures
        connected(tiles, width, height, (x1, y), (x2, y)),
    decreases greater(x1, x2) - lesser(x1, x2),
{
    assert(floor_at(tiles, width, height, x1, y));
    assert(floor_at(tiles, width, height, x2, y));
    if x1 == x2 {
        lemma_connected_self(tiles, width, height, (x1, y));
    } else {
        let next = if x1 < x2 {
            x1 + 1
        } else {
            x1 - 1
        };
        lemma_row_connected(tiles, width, height, next, x2, y);
        let step = seq![(x1, y), (next, y)];
        assert(floor_at(tiles, width, height, next, y));
        assert(floor_path(tiles, width, height, step));
        assert(step[0] == (x1, y) && step[step.len() - 1] == (next, y));
        lemma_connected_chain(tiles, width, height, (x1, y), (next, y), (x2, y));
    }
}

/// A column segment that is all floor connects its two ends.
pub proof fn lemma_column_connected(
    tiles: Seq<TileType>,
    width: int,
    height: int,
    y1: int,
    y2: int,
    x: int,
)
    requires
        forall|y: int|
            lesser(y1, y2) <= y <= greater(y1, y2) ==> #[trigger] floor_at(
                tiles,
                width,
                height,
                x,
                y,
            ),
    ensures
        connected(tiles, width, height, (x, y1), (x, y2)),
    decreases greater(y1, y2) - lesser(y1, y2),
{
    assert(floor_at(tiles, width, height, x, y1));
    assert(floor_at(tiles, width, height, x, y2));
    if y1 == y2 {
        lemma_connected_self(tiles, width, height, (x, y1));
    } else {
        let next = if y1 < y2 {
            y1 + 1
        } else {
            y1 - 1
        };
        lemma_column_connected(tiles, width, height, next, y2, x);
        let step = seq![(x, y1), (x, next)];
        assert(floor_at(tiles, width, height, x, next));
        assert(floor_path(tiles, width, height, step));
        assert(step[0] == (x, y1) && step[step.len() - 1] == (x, next));
        lemma_connected_chain(tiles, width, height, (x, y1), (x, next), (x, y2));
    }
}

} // verus!
