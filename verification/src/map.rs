//! The tile map: its cells, its rooms, and the carving operations that the
//! dungeon generator is built from.

use vstd::prelude::*;
use crate::entity::TileType;
use crate::grid::{cell_in_grid, cell_index, greater, lemma_cell_index, lemma_index_cell, lesser};
use crate::rect::Rect;
use crate::state::World;

verus! {

/// The longest side a map may have. It leaves room above every coordinate
/// for the arithmetic of the field-of-view engine.
pub const MAX_MAP_SIDE: i32 = 0x4000_0000;

/// A grid of tiles with the rooms that were carved into it and, per tile,
/// whether it is in view now and whether it was ever seen.
pub struct TileMap {
    pub tiles: Vec<TileType>,
    pub rooms: Vec<Rect>,
    pub width: i32,
    pub height: i32,
    pub revealed_tiles: Vec<bool>,
    pub visible_tiles: Vec<bool>,
}

/// `tiles` with the interior of `room` opened to floor.
pub open spec fn carve_room(tiles: Seq<TileType>, width: int, room: Rect) -> Seq<TileType> {
    Seq::new(
        tiles.len(),
        |i: int|
            if room.interior(i % width, i / width) {
                TileType::Floor
            } else {
                tiles[i]
            },
    )
}

/// Index `i` belongs to the horizontal run from column `x1` to column `x2`
/// (in either order, ends included) of row `y`.
pub open spec fn on_horiz_run(width: int, x1: int, x2: int, y: int, i: int) -> bool {
    exists|x: int| lesser(x1, x2) <= x <= greater(x1, x2) && i == #[trigger] cell_index(width, x, y)
}

/// Index `i` belongs to the vertical run from row `y1` to row `y2` (in either
/// order, ends included) of column `x`.
pub open spec fn on_vert_run(width: int, y1: int, y2: int, x: int, i: int) -> bool {
    exists|y: int| lesser(y1, y2) <= y <= greater(y1, y2) && i == #[trigger] cell_index(width, x, y)
}

/// `tiles` with a horizontal run opened to floor. A cell of the run is opened
/// where its linear index is inside the grid's index range.
pub open spec fn carve_horiz(tiles: Seq<TileType>, width: int, x1: int, x2: int, y: int) -> Seq<
    TileType,
> {
    Seq::new(
        tiles.len(),
        |i: int|
            if on_horiz_run(width, x1, x2, y, i) {
                TileType::Floor
            } else {
                tiles[i]
            },
    )
}

/// `tiles` with a vertical run opened to floor. A cell of the run is opened
/// where its linear index is inside the grid's index range.
pub open spec fn carve_vert(tiles: Seq<TileType>, width: int, y1: int, y2: int, x: int) -> Seq<
    TileType,
> {
    Seq::new(
        tiles.len(),
        |i: int|
            if on_vert_run(width, y1, y2, x, i) {
                TileType::Floor
            } else {
                tiles[i]
            },
    )
}

impl TileMap {
    /// The map's sides are within the limit, its vectors all have one entry
    /// per cell, and a tile in view has been seen.
    pub open spec fn wf(&self) -> bool {
        &&& 0 <= self.width <= MAX_MAP_SIDE
        &&& 0 <= self.height <= MAX_MAP_SIDE
        &&& self.tiles@.len() == self.width * self.height
        &&& self.revealed_tiles@.len() == self.width * self.height
        &&& self.visible_tiles@.len() == self.width * self.height
        &&& forall|i: int|
            0 <= i < self.visible_tiles@.len() && #[trigger] self.visible_tiles@[i]
                ==> self.revealed_tiles@[i]
    }

    /// `(x, y)` is a cell of this map.
    pub open spec fn has_cell(&self, x: int, y: int) -> bool {
        cell_in_grid(self.width as int, self.height as int, x, y)
    }

    /// The linear index of cell `(x, y)`.
    pub open spec fn index_of(&self, x: int, y: int) -> int {
        cell_index(self.width as int, x, y)
    }

    /// The tile at cell `(x, y)`.
    pub open spec fn tile_at(&self, x: int, y: int) -> TileType {
        self.tiles@[self.index_of(x, y)]
    }

    /// `(x, y)` is a cell of this map and its tile is floor.
    pub open spec fn is_floor(&self, x: int, y: int) -> bool {
        self.has_cell(x, y) && self.tile_at(x, y) == TileType::Floor
    }

    /// The interior of `room` lies inside the grid, or is empty.
    pub open spec fn holds_room(&self, room: Rect) -> bool {
        room.x1 < room.x2 && room.y1 < room.y2 ==> -1 <= room.x1 && room.x2 < self.width && -1
            <= room.y1 && room.y2 < self.height
    }

    /// A map of the given size that is all wall, with no room, nothing in
    /// view and nothing seen.
    pub fn new(width: i32, height: i32) -> (map: TileMap)
        requires
            0 <= width <= MAX_MAP_SIDE,
            0 <= height <= MAX_MAP_SIDE,
            width * height <= usize::MAX,
        ensures
            map.wf(),
            map.width == width,
            map.height == height,
            map.rooms@.len() == 0,
            forall|i: int| 0 <= i < map.tiles@.len() ==> map.tiles@[i] == TileType::Wall,
            forall|i: int| 0 <= i < map.revealed_tiles@.len() ==> !map.revealed_tiles@[i],
            forall|i: int| 0 <= i < map.visible_tiles@.len() ==> !map.visible_tiles@[i],
    {
        assert(0 <= width * height) by (nonlinear_arith)
            requires
                0 <= width,
                0 <= height,
        ;
        let cells: usize = (width as usize) * (height as usize);
        let mut tiles: Vec<TileType> = Vec::new();
        let mut revealed_tiles: Vec<bool> = Vec::new();
        let mut visible_tiles: Vec<bool> = Vec::new();
        let mut i: usize = 0;
        while i < cells
            invariant
                i <= cells,
                tiles@.len() == i,
                revealed_tiles@.len() == i,
                visible_tiles@.len() == i,
                forall|j: int| 0 <= j < i ==> tiles@[j] == TileType::Wall,
                forall|j: int| 0 <= j < i ==> !revealed_tiles@[j],
                forall|j: int| 0 <= j < i ==> !visible_tiles@[j],
            decreases cells - i,
        {
            tiles.push(TileType::Wall);
            revealed_tiles.push(false);
            visible_tiles.push(false);
            i = i + 1;
        }
        TileMap { tiles, rooms: Vec::new(), width, height, revealed_tiles, visible_tiles }
    }

    /// The linear index of cell `(x, y)`: the one index function that every
    /// part of the library goes through.
    pub fn xy_idx(&self, x: i32, y: i32) -> (idx: usize)
        requires
            self.wf(),
            self.has_cell(x as int, y as int),
        ensures
            idx == self.index_of(x as int, y as int),
            idx < self.tiles@.len(),
    {
        let cells = self.tiles.len();
        proof {
            lemma_cell_index(self.width as int, self.height as int, x as int, y as int);
            assert((y as int) * (self.width as int) <= cell_index(
                self.width as int,
                x as int,
                y as int,
            ));
            assert(0 <= (y as int) * (self.width as int)) by (nonlinear_arith)
                requires
                    0 <= y,
                    0 <= self.width,
            ;
            assert(cell_index(self.width as int, x as int, y as int) < cells);
        }
        (y as usize) * (self.width as usize) + (x as usize)
    }

    /// Opens cell `(x, y)` to floor where its linear index is inside the
    /// grid's index range; elsewhere nothing changes.
    fn open_cell(&mut self, x: i32, y: i32)
        requires
            old(self).wf(),
        ensures
            final(self).wf(),
            final(self).tiles@ == (if 0 <= old(self).index_of(x as int, y as int) < old(self).tiles@.len() {
                old(self).tiles@.update(old(self).index_of(x as int, y as int), TileType::Floor)
            } else {
                old(self).tiles@
            }),
            final(self).rooms == old(self).rooms,
            final(self).width == old(self).width,
            final(self).height == old(self).height,
            final(self).revealed_tiles == old(self).revealed_tiles,
            final(self).visible_tiles == old(self).visible_tiles,
    {
        assert(-0x4000_0000_0000_0000 <= (y as int) * (self.width as int) <= 0x4000_0000_0000_0000)
            by (nonlinear_arith)
            requires
                -0x8000_0000 <= y < 0x8000_0000,
                0 <= self.width < 0x8000_0000,
        ;
        let idx: i64 = (y as i64) * (self.width as i64) + (x as i64);
        let cells = self.tiles.len();
        if idx >= 0 && (idx as u64) < (cells as u64) {
            self.tiles.set(idx as usize, TileType::Floor);
        }
    }

    /// Opens the interior of `room` to floor: the cells right of its left
    /// edge and below its top edge, up to its right and bottom edges.
    pub fn apply_room(&mut self, room: &Rect)
        requires
            old(self).wf(),
            old(self).holds_room(*room),
        ensures
            final(self).wf(),
            final(self).tiles@ == carve_room(old(self).tiles@, old(self).width as int, *room),
            final(self).rooms == old(self).rooms,
            final(self).width == old(self).width,
            final(self).height == old(self).height,
            final(self).revealed_tiles == old(self).revealed_tiles,
            final(self).visible_tiles == old(self).visible_tiles,
    {
        if !(room.x1 < room.x2 && room.y1 < room.y2) {
            assert(self.tiles@ =~= carve_room(self.tiles@, self.width as int, *room));
            return ;
        }
        let ghost before = self.tiles@;
        let ghost w = self.width as int;
        let mut y: i32 = room.y1 + 1;
        while y <= room.y2
            invariant
                self.wf(),
                self.holds_room(*room),
                room.x1 < room.x2,
                room.y1 < y <= room.y2 + 1,
                w == self.width,
                self.rooms == old(self).rooms,
                self.width == old(self).width,
                self.height == old(self).height,
                self.revealed_tiles == old(self).revealed_tiles,
                self.visible_tiles == old(self).visible_tiles,
                self.tiles@.len() == before.len(),
                forall|i: int|
                    0 <= i < before.len() ==> #[trigger] self.tiles@[i] == (if room.interior(
                        i % w,
                        i / w,
                    ) && i / w < y {
                        TileType::Floor
                    } else {
                        before[i]
                    }),
            decreases room.y2 + 1 - y,
        {
            let mut x: i32 = room.x1 + 1;
            while x <= room.x2
                invariant
                    self.wf(),
                    self.holds_room(*room),
                    room.x1 < x <= room.x2 + 1,
                    room.y1 < y <= room.y2,
                    w == self.width,
                    self.rooms == old(self).rooms,
                    self.width == old(self).width,
                    self.height == old(self).height,
                    self.revealed_tiles == old(self).revealed_tiles,
                    self.visible_tiles == old(self).visible_tiles,
                    self.tiles@.len() == before.len(),
                    forall|i: int|
                        0 <= i < before.len() ==> #[trigger] self.tiles@[i] == (if room.interior(
                            i % w,
                            i / w,
                        ) && (i / w < y || (i / w == y && i % w < x)) {
                            TileType::Floor
                        } else {
                            before[i]
                        }),
                decreases room.x2 + 1 - x,
            {
                let idx = self.xy_idx(x, y);
                let ghost row = self.tiles@;
                self.tiles.set(idx, TileType::Floor);
                proof {
                    lemma_cell_index(w, self.height as int, x as int, y as int);
                    assert forall|i: int| 0 <= i < before.len() implies #[trigger] self.tiles@[i]
                        == (if room.interior(i % w, i / w) && (i / w < y || (i / w == y && i % w < x
                        + 1)) {
                        TileType::Floor
                    } else {
                        before[i]
                    }) by {
                        vstd::arithmetic::div_mod::lemma_fundamental_div_mod(i, w);
                        assert((i / w) * w == w * (i / w)) by (nonlinear_arith);
                        if i != idx {
                            assert(self.tiles@[i] == row[i]);
                        }
                    }
                }
                x = x + 1;
            }
            y = y + 1;
        }
        assert(self.tiles@ =~= carve_room(before, w, *room));
    }

    /// Opens the cells of row `y` from column `x1` to column `x2`, in either
    /// order and ends included, to floor. Each cell is checked against the
    /// grid's linear index range; a run whose ends coincide is a single cell.
    pub fn apply_horiz_tunnel(&mut self, x1: i32, x2: i32, y: i32)
        requires
            old(self).wf(),
        ensures
            final(self).wf(),
            final(self).tiles@ == carve_horiz(
                old(self).tiles@,
                old(self).width as int,
                x1 as int,
                x2 as int,
                y as int,
            ),
            final(self).rooms == old(self).rooms,
            final(self).width == old(self).width,
            final(self).height == old(self).height,
            final(self).revealed_tiles == old(self).revealed_tiles,
            final(self).visible_tiles == old(self).visible_tiles,
    {
        let lo: i32 = if x1 <= x2 { x1 } else { x2 };
        let hi: i32 = if x1 <= x2 { x2 } else { x1 };
        let ghost before = self.tiles@;
        let ghost w = self.width as int;
        let mut x: i32 = lo;
        let mut done: bool = false;
        while !done
            invariant
                self.wf(),
                lo <= x <= hi,
                lo == lesser(x1 as int, x2 as int),
                hi == greater(x1 as int, x2 as int),
                w == self.width,
                self.rooms == old(self).rooms,
                self.width == old(self).width,
                self.height == old(self).height,
                self.revealed_tiles == old(self).revealed_tiles,
                self.visible_tiles == old(self).visible_tiles,
                self.tiles@.len() == before.len(),
                done ==> x == hi,
                forall|i: int|
                    0 <= i < before.len() ==> #[trigger] self.tiles@[i] == (if run_before(
                        w,
                        lo as int,
                        x + (if done { 1int } else { 0int }),
                        y as int,
                        true,
                        i,
                    ) {
                        TileType::Floor
                    } else {
                        before[i]
                    }),
            decreases hi - x + (if done { 0int } else { 1int }),
        {
            self.open_cell(x, y);
            proof {
                assert forall|i: int| 0 <= i < before.len() implies #[trigger] self.tiles@[i] == (
                if run_before(w, lo as int, x + 1, y as int, true, i) {
                    TileType::Floor
                } else {
                    before[i]
                }) by {
                    lemma_run_step(w, lo as int, x as int, y as int, true, i);
                }
            }
            if x == hi {
                done = true;
            } else {
                x = x + 1;
            }
        }
        proof {
            assert forall|i: int| 0 <= i < before.len() implies (run_before(
                w,
                lo as int,
                hi + 1,
                y as int,
                true,
                i,
            ) <==> on_horiz_run(w, x1 as int, x2 as int, y as int, i)) by {
                lemma_run_whole_horiz(w, x1 as int, x2 as int, y as int, i);
            }
            assert(self.tiles@ =~= carve_horiz(before, w, x1 as int, x2 as int, y as int));
        }
    }

    /// Opens the cells of column `x` from row `y1` to row `y2`, in either
    /// order and ends included, to floor. Each cell is checked against the
    /// grid's linear index range; a run whose ends coincide is a single cell.
    pub fn apply_vert_tunnel(&mut self, y1: i32, y2: i32, x: i32)
        requires
            old(self).wf(),
        ensures
            final(self).wf(),
            final(self).tiles@ == carve_vert(
                old(self).tiles@,
                old(self).width as int,
                y1 as int,
                y2 as int,
                x as int,
            ),
            final(self).rooms == old(self).rooms,
            final(self).width == old(self).width,
            final(self).height == old(self).height,
            final(self).revealed_tiles == old(self).revealed_tiles,
            final(self).visible_tiles == old(self).visible_tiles,
    {
        let lo: i32 = if y1 <= y2 { y1 } else { y2 };
        let hi: i32 = if y1 <= y2 { y2 } else { y1 };
        let ghost before = self.tiles@;
        let ghost w = self.width as int;
        let mut y: i32 = lo;
        let mut done: bool = false;
        while !done
            invariant
                self.wf(),
                lo <= y <= hi,
                lo == lesser(y1 as int, y2 as int),
                hi == greater(y1 as int, y2 as int),
                w == self.width,
                self.rooms == old(self).rooms,
                self.width == old(self).width,
                self.height == old(self).height,
                self.revealed_tiles == old(self).revealed_tiles,
                self.visible_tiles == old(self).visible_tiles,
                self.tiles@.len() == before.len(),
                done ==> y == hi,
                forall|i: int|
                    0 <= i < before.len() ==> #[trigger] self.tiles@[i] == (if run_before(
                        w,
                        lo as int,
                        y + (if done { 1int } else { 0int }),
                        x as int,
                        false,
                        i,
                    ) {
                        TileType::Floor
                    } else {
                        before[i]
                    }),
            decreases hi - y + (if done { 0int } else { 1int }),
        {
            self.open_cell(x, y);
            proof {
                assert forall|i: int| 0 <= i < before.len() implies #[trigger] self.tiles@[i] == (
                if run_before(w, lo as int, y + 1, x as int, false, i) {
                    TileType::Floor
                } else {
                    before[i]
                }) by {
                    lemma_run_step(w, lo as int, y as int, x as int, false, i);
                }
            }
            if y == hi {
                done = true;
            } else {
                y = y + 1;
            }
        }
        proof {
            assert forall|i: int| 0 <= i < before.len() implies (run_before(
                w,
                lo as int,
                hi + 1,
                x as int,
                false,
                i,
            ) <==> on_vert_run(w, y1 as int, y2 as int, x as int, i)) by {
                lemma_run_whole_vert(w, y1 as int, y2 as int, x as int, i);
            }
            assert(self.tiles@ =~= carve_vert(before, w, y1 as int, y2 as int, x as int));
        }
    }
}

/// A run whose two ends coincide is the single cell `(x, y)`: where that cell
/// is floor already, or its index lies outside the grid's index range,
/// carving the run changes nothing.
pub proof fn lemma_degenerate_run(tiles: Seq<TileType>, width: int, x: int, y: int)
    requires
        0 <= cell_index(width, x, y) < tiles.len() ==> tiles[cell_index(width, x, y)]
            == TileType::Floor,
    ensures
        carve_horiz(tiles, width, x, x, y) == tiles,
        carve_vert(tiles, width, y, y, x) == tiles,
{
    assert forall|i: int| 0 <= i < tiles.len() implies carve_horiz(tiles, width, x, x, y)[i]
        == tiles[i] by {
        if on_horiz_run(width, x, x, y, i) {
            assert(i == cell_index(width, x, y));
        }
    }
    assert forall|i: int| 0 <= i < tiles.len() implies carve_vert(tiles, width, y, y, x)[i]
        == tiles[i] by {
        if on_vert_run(width, y, y, x, i) {
            assert(i == cell_index(width, x, y));
        }
    }
    assert(carve_horiz(tiles, width, x, x, y) =~= tiles);
    assert(carve_vert(tiles, width, y, y, x) =~= tiles);
}

/// The index of the cell `along` steps into a run: along row `fixed` when
/// `horizontal`, along column `fixed` otherwise.
spec fn run_cell(width: int, along: int, fixed: int, horizontal: bool) -> int {
    if horizontal {
        cell_index(width, along, fixed)
    } else {
        cell_index(width, fixed, along)
    }
}

/// Index `i` belongs to the part of a run from `lo` up to, not including,
/// `end`.
spec fn run_before(width: int, lo: int, end: int, fixed: int, horizontal: bool, i: int) -> bool {
    exists|a: int| lo <= a < end && i == #[trigger] run_cell(width, a, fixed, horizontal)
}

/// Extending the part of a run by the cell at `at` adds exactly that cell's
/// index.
proof fn lemma_run_step(width: int, lo: int, at: int, fixed: int, horizontal: bool, i: int)
    requires
        lo <= at,
    ensures
        run_before(width, lo, at + 1, fixed, horizontal, i) <==> (run_before(
            width,
            lo,
            at,
            fixed,
            horizontal,
            i,
        ) || i == run_cell(width, at, fixed, horizontal)),
{
    if run_before(width, lo, at + 1, fixed, horizontal, i) {
        let a = choose|a: int| lo <= a < at + 1 && i == #[trigger] run_cell(width, a, fixed, horizontal);
        if a < at {
            assert(run_before(width, lo, at, fixed, horizontal, i));
        }
    }
    if run_before(width, lo, at, fixed, horizontal, i) {
        let a = choose|a: int| lo <= a < at && i == #[trigger] run_cell(width, a, fixed, horizontal);
        assert(lo <= a < at + 1 && i == run_cell(width, a, fixed, horizontal));
    }
    if i == run_cell(width, at, fixed, horizontal) {
        assert(lo <= at < at + 1 && i == run_cell(width, at, fixed, horizontal));
    }
}

/// The whole of a horizontal run, walked from its smaller end.
proof fn lemma_run_whole_horiz(width: int, x1: int, x2: int, y: int, i: int)
    ensures
        run_before(width, lesser(x1, x2), greater(x1, x2) + 1, y, true, i) <==> on_horiz_run(
            width,
            x1,
            x2,
            y,
            i,
        ),
{
    let lo = lesser(x1, x2);
    let hi = greater(x1, x2);
    if run_before(width, lo, hi + 1, y, true, i) {
        let a = choose|a: int| lo <= a < hi + 1 && i == #[trigger] run_cell(width, a, y, true);
        assert(lo <= a <= hi && i == cell_index(width, a, y));
    }
    if on_horiz_run(width, x1, x2, y, i) {
        let a = choose|a: int| lo <= a <= hi && i == #[trigger] cell_index(width, a, y);
        assert(lo <= a < hi + 1 && i == run_cell(width, a, y, true));
    }
}

/// The whole of a vertical run, walked from its smaller end.
proof fn lemma_run_whole_vert(width: int, y1: int, y2: int, x: int, i: int)
    ensures
        run_before(width, lesser(y1, y2), greater(y1, y2) + 1, x, false, i) <==> on_vert_run(
            width,
            y1,
            y2,
            x,
            i,
        ),
{
    let lo = lesser(y1, y2);
    let hi = greater(y1, y2);
    if run_before(width, lo, hi + 1, x, false, i) {
        let a = choose|a: int| lo <= a < hi + 1 && i == #[trigger] run_cell(width, a, x, false);
        assert(lo <= a <= hi && i == cell_index(width, x, a));
    }
    if on_vert_run(width, y1, y2, x, i) {
        let a = choose|a: int| lo <= a <= hi && i == #[trigger] cell_index(width, x, a);
        assert(lo <= a < hi + 1 && i == run_cell(width, a, x, false));
    }
}

/// One tile as the renderer should show it: its cell, whether it is wall or
/// floor, and whether it is in view now or only remembered.
#[derive(Clone, Copy, Debug, PartialEq, Eq, Structural)]
pub struct DrawnTile {
    pub x: i32,
    pub y: i32,
    pub tile: TileType,
    pub visible: bool,
}

/// The tile with index `i`, as the renderer should show it.
pub open spec fn drawn_tile(map: &TileMap, i: int) -> DrawnTile {
    DrawnTile {
        x: (i % map.width as int) as i32,
        y: (i / map.width as int) as i32,
        tile: map.tiles@[i],
        visible: map.visible_tiles@[i],
    }
}

/// The tiles to draw among the first `n`, in index order: those that were
/// ever seen.
pub open spec fn drawn_tiles(map: &TileMap, n: int) -> Seq<DrawnTile>
    decreases n,
{
    if n <= 0 {
        Seq::empty()
    } else if map.revealed_tiles@[n - 1] {
        drawn_tiles(map, n - 1).push(drawn_tile(map, n - 1))
    } else {
        drawn_tiles(map, n - 1)
    }
}

/// Lists what the renderer should draw of the map, row by row: every tile
/// that was ever seen, with its kind and whether it is in view now. A tile
/// never seen is left out.
pub fn draw(ecs: &World) -> (out: Vec<DrawnTile>)
    requires
        ecs.map.wf(),
    ensures
        out@ == drawn_tiles(&ecs.map, ecs.map.tiles@.len() as int),
{
    let map = &ecs.map;
    let mut out: Vec<DrawnTile> = Vec::new();
    let n = map.tiles.len();
    let mut idx: usize = 0;
    while idx < n
        invariant
            idx <= n,
            n == map.tiles@.len(),
            map.wf(),
            out@ == drawn_tiles(map, idx as int),
        decreases n - idx,
    {
        proof {
            lemma_index_cell(map.width as int, map.height as int, idx as int);
        }
        if map.revealed_tiles[idx] {
            let width = map.width as usize;
            let x = (idx % width) as i32;
            let y = (idx / width) as i32;
            out.push(DrawnTile { x, y, tile: map.tiles[idx], visible: map.visible_tiles[idx] });
        }
        idx = idx + 1;
    }
    out
}

} // verus!
