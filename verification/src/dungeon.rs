//! The dungeon generator: rooms placed one candidate at a time, each joined
//! to the room accepted before it by an L-shaped corridor.

use vstd::prelude::*;
use crate::connect::{
    connected, floor_at, lemma_column_connected, lemma_connected_chain, lemma_connected_grows,
    lemma_connected_self, lemma_row_connected, only_opened,
};
use crate::entity::{TileType, GRID_HEIGHT, GRID_WIDTH};
use crate::grid::{
    cell_in_grid, cell_index, greater, lemma_cell_index, lemma_cell_index_injective, lesser,
};
use crate::map::{
    carve_horiz, carve_room, carve_vert, on_horiz_run, on_vert_run, TileMap, MAX_MAP_SIDE,
};
use crate::rect::Rect;
use crate::rng::{draw_range, fresh_rng, roll_dice};

verus! {

/// How many rooms the generator tries to place.
pub const MAX_ROOMS: i32 = 30;

/// Smallest side of a room.
pub const MIN_SIZE: i32 = 6;

/// Largest side of a room.
pub const MAX_SIZE: i32 = 10;

/// Every cell on the outer ring of the grid is wall.
pub open spec fn border_walled(tiles: Seq<TileType>, width: int, height: int) -> bool {
    forall|x: int, y: int|
        cell_in_grid(width, height, x, y) && (x == 0 || x == width - 1 || y == 0 || y == height
            - 1) ==> tiles[#[trigger] cell_index(width, x, y)] == TileType::Wall
}

/// `room` keeps clear of the outer ring and is at least two cells wide and
/// high, so that its midpoint is one of the cells it opens.
pub open spec fn in_margin(room: Rect, width: int, height: int) -> bool {
    &&& 0 <= room.x1
    &&& room.x1 + 2 <= room.x2 <= width - 2
    &&& 0 <= room.y1
    &&& room.y1 + 2 <= room.y2 <= height - 2
}

/// The tiles after `room` was accepted: its interior opened and, where a room
/// was accepted before it, an L-shaped corridor from that room's midpoint to
/// its own, the horizontal run first when `horizontal_first`.
pub open spec fn dig(
    tiles: Seq<TileType>,
    width: int,
    last: Option<Rect>,
    room: Rect,
    horizontal_first: bool,
) -> Seq<TileType> {
    let opened = carve_room(tiles, width, room);
    match last {
        None => opened,
        Some(prev) => {
            let (nx, ny) = room.midpoint();
            let (px, py) = prev.midpoint();
            if horizontal_first {
                carve_vert(carve_horiz(opened, width, px, nx, py), width, py, ny, nx)
            } else {
                carve_horiz(carve_vert(opened, width, py, ny, px), width, px, nx, ny)
            }
        },
    }
}

/// The grid has space for a room of `max_size` inside a one-tile margin on
/// every side, and a room may have sides of two or more, so that its midpoint
/// is one of the cells it opens.
pub open spec fn feasible(width: int, height: int, min_size: int, max_size: int) -> bool {
    &&& min_size <= max_size
    &&& 2 <= max_size
    &&& max_size + 2 <= width
    &&& max_size + 2 <= height
}

/// Both sides of `room` are between `min_size` and `max_size` long.
pub open spec fn sized(room: Rect, min_size: int, max_size: int) -> bool {
    &&& min_size <= room.x2 - room.x1 <= max_size
    &&& min_size <= room.y2 - room.y1 <= max_size
}

/// The room accepted last, if any.
pub open spec fn last_room(rooms: Seq<Rect>) -> Option<Rect> {
    if rooms.len() == 0 {
        None
    } else {
        Some(rooms[rooms.len() - 1])
    }
}

/// The tiles and rooms after one more candidate was offered: the candidate
/// is a room and whether its corridor starts with the horizontal run. A
/// candidate that overlaps or touches an accepted room leaves both as they
/// were.
pub open spec fn offer(
    state: (Seq<TileType>, Seq<Rect>),
    width: int,
    plan: (Rect, bool),
) -> (Seq<TileType>, Seq<Rect>) {
    let (tiles, rooms) = state;
    if forall|j: int| 0 <= j < rooms.len() ==> !plan.0.overlaps(#[trigger] rooms[j]) {
        (dig(tiles, width, last_room(rooms), plan.0, plan.1), rooms.push(plan.0))
    } else {
        state
    }
}

/// The tiles and rooms after the first `n` candidates of `plans` were offered
/// in order.
pub open spec fn offer_all(
    state: (Seq<TileType>, Seq<Rect>),
    width: int,
    plans: Seq<(Rect, bool)>,
    n: int,
) -> (Seq<TileType>, Seq<Rect>)
    decreases n,
{
    if n <= 0 {
        state
    } else {
        offer(offer_all(state, width, plans, n - 1), width, plans[n - 1])
    }
}

/// A grid of `cells` tiles that is all wall.
pub open spec fn solid(cells: int) -> Seq<TileType> {
    Seq::new(cells as nat, |i: int| TileType::Wall)
}

impl TileMap {
    /// The map is what offering the candidates of `plans`, in order, to an
    /// all-wall grid of its size gives, and every candidate keeps inside the
    /// margin with sides between `min_size` and `max_size`.
    pub open spec fn built_from(&self, plans: Seq<(Rect, bool)>, min_size: int, max_size: int) -> bool {
        &&& forall|i: int|
            0 <= i < plans.len() ==> in_margin(
                (#[trigger] plans[i]).0,
                self.width as int,
                self.height as int,
            ) && sized(plans[i].0, min_size, max_size)
        &&& (self.tiles@, self.rooms@) == offer_all(
            (solid(self.width * self.height), Seq::empty()),
            self.width as int,
            plans,
            plans.len() as int,
        )
    }

    /// `room` overlaps none of the rooms accepted so far.
    pub open spec fn accepts(&self, room: Rect) -> bool {
        forall|j: int| 0 <= j < self.rooms@.len() ==> !room.overlaps(#[trigger] self.rooms@[j])
    }

    /// Every accepted room keeps clear of the outer ring.
    pub open spec fn rooms_in_margin(&self) -> bool {
        forall|j: int|
            0 <= j < self.rooms@.len() ==> in_margin(
                #[trigger] self.rooms@[j],
                self.width as int,
                self.height as int,
            )
    }

    /// No two accepted rooms overlap or touch.
    pub open spec fn rooms_apart(&self) -> bool {
        forall|i: int, j: int|
            0 <= i < self.rooms@.len() && 0 <= j < self.rooms@.len() && i != j ==> !(
            #[trigger] self.rooms@[i]).overlaps(#[trigger] self.rooms@[j])
    }

    /// The outer ring of the map is wall.
    pub open spec fn walled_in(&self) -> bool {
        border_walled(self.tiles@, self.width as int, self.height as int)
    }

    /// Some walk over floor tiles leads from `a` to `b`.
    pub open spec fn reachable(&self, a: (int, int), b: (int, int)) -> bool {
        connected(self.tiles@, self.width as int, self.height as int, a, b)
    }

    /// The midpoint of every accepted room can be reached over floor tiles
    /// from the midpoint of the first.
    pub open spec fn rooms_connected(&self) -> bool {
        forall|j: int|
            0 <= j < self.rooms@.len() ==> self.reachable(
                self.rooms@[0].midpoint(),
                (#[trigger] self.rooms@[j]).midpoint(),
            )
    }

    /// Every cell inside an accepted room is floor.
    pub open spec fn rooms_opened(&self) -> bool {
        forall|j: int, x: int, y: int|
            0 <= j < self.rooms@.len() && (#[trigger] self.rooms@[j]).interior(x, y)
                ==> #[trigger] self.is_floor(x, y)
    }

    /// Nothing is in view and nothing was ever seen.
    pub open spec fn unseen(&self) -> bool {
        &&& forall|i: int| 0 <= i < self.revealed_tiles@.len() ==> !self.revealed_tiles@[i]
        &&& forall|i: int| 0 <= i < self.visible_tiles@.len() ==> !self.visible_tiles@[i]
    }

    /// Whether `room` overlaps none of the rooms accepted so far.
    pub fn can_place(&self, room: &Rect) -> (ok: bool)
        ensures
            ok == self.accepts(*room),
    {
        let mut ok = true;
        let mut j: usize = 0;
        while j < self.rooms.len()
            invariant
                j <= self.rooms@.len(),
                ok == (forall|k: int| 0 <= k < j ==> !room.overlaps(#[trigger] self.rooms@[k])),
            decreases self.rooms@.len() - j,
        {
            if room.intersects(&self.rooms[j]) {
                ok = false;
            }
            j = j + 1;
        }
        ok
    }

    /// Offers one candidate room. A candidate that overlaps or touches an
    /// accepted room is discarded and the map stays as it was. Otherwise its
    /// interior is opened, an L-shaped corridor joins its midpoint to the
    /// midpoint of the room accepted before it (the horizontal run first when
    /// `horizontal_first`), and the room is appended to the list.
    ///
    /// On a map whose rooms keep inside the margin, accepting a room inside
    /// the margin keeps the outer ring wall, keeps the rooms apart, and keeps
    /// every room's midpoint reachable from the first room's.
    pub fn place_room(&mut self, room: Rect, horizontal_first: bool) -> (accepted: bool)
        requires
            old(self).wf(),
            old(self).holds_room(room),
        ensures
            accepted == old(self).accepts(room),
            final(self).wf(),
            final(self).width == old(self).width,
            final(self).height == old(self).height,
            final(self).revealed_tiles == old(self).revealed_tiles,
            final(self).visible_tiles == old(self).visible_tiles,
            !accepted ==> final(self).tiles == old(self).tiles && final(self).rooms == old(self).rooms,
            accepted ==> final(self).rooms@ == old(self).rooms@.push(room),
            accepted ==> final(self).tiles@ == dig(
                old(self).tiles@,
                old(self).width as int,
                last_room(old(self).rooms@),
                room,
                horizontal_first,
            ),
            (final(self).tiles@, final(self).rooms@) == offer(
                (old(self).tiles@, old(self).rooms@),
                old(self).width as int,
                (room, horizontal_first),
            ),
            only_opened(old(self).tiles@, final(self).tiles@),
            old(self).rooms_opened() && room.x1 < room.x2 && room.y1 < room.y2
                ==> final(self).rooms_opened(),
            old(self).rooms_apart() ==> final(self).rooms_apart(),
            old(self).rooms_in_margin() && in_margin(
                room,
                old(self).width as int,
                old(self).height as int,
            ) ==> final(self).rooms_in_margin(),
            old(self).rooms_in_margin() && in_margin(
                room,
                old(self).width as int,
                old(self).height as int,
            ) && old(self).walled_in() ==> final(self).walled_in(),
            old(self).rooms_in_margin() && in_margin(
                room,
                old(self).width as int,
                old(self).height as int,
            ) && old(self).rooms_connected() ==> final(self).rooms_connected(),
    {
        if !self.can_place(&room) {
            return false;
        }
        let ghost before = self.tiles@;
        let ghost before_rooms = self.rooms@;
        let ghost w = self.width as int;
        let ghost h = self.height as int;
        self.apply_room(&room);
        if self.rooms.len() > 0 {
            let (new_x, new_y) = room.center();
            let (prev_x, prev_y) = self.rooms[self.rooms.len() - 1].center();
            if horizontal_first {
                self.apply_horiz_tunnel(prev_x, new_x, prev_y);
                self.apply_vert_tunnel(prev_y, new_y, new_x);
            } else {
                self.apply_vert_tunnel(prev_y, new_y, prev_x);
                self.apply_horiz_tunnel(prev_x, new_x, new_y);
            }
        }
        self.rooms.push(room);
        proof {
            let last = last_room(before_rooms);
            let after = dig(before, w, last, room, horizontal_first);
            assert(self.tiles@ == after);
            lemma_dig_opened(before, w, h, last, room, horizontal_first);
            if old(self).rooms_in_margin() && in_margin(room, w, h) {
                if old(self).walled_in() {
                    lemma_dig_keeps_border(before, w, h, last, room, horizontal_first);
                }
                if old(self).rooms_connected() {
                    lemma_dig_connects(before, w, h, last, room, horizontal_first);
                    let n = before_rooms.len() as int;
                    assert forall|j: int| 0 <= j < self.rooms@.len() implies self.reachable(
                        self.rooms@[0].midpoint(),
                        (#[trigger] self.rooms@[j]).midpoint(),
                    ) by {
                        if n == 0 {
                            lemma_connected_self(after, w, h, room.midpoint());
                        } else {
                            let first = before_rooms[0].midpoint();
                            let prev = before_rooms[n - 1];
                            assert(old(self).reachable(first, prev.midpoint()));
                            lemma_connected_grows(before, after, w, h, first, prev.midpoint());
                            if j < n {
                                assert(old(self).reachable(first, before_rooms[j].midpoint()));
                                lemma_connected_grows(
                                    before,
                                    after,
                                    w,
                                    h,
                                    first,
                                    before_rooms[j].midpoint(),
                                );
                            } else {
                                lemma_connected_chain(
                                    after,
                                    w,
                                    h,
                                    first,
                                    prev.midpoint(),
                                    room.midpoint(),
                                );
                            }
                        }
                    }
                }
            }
            if old(self).rooms_opened() && room.x1 < room.x2 && room.y1 < room.y2 {
                lemma_room_opened(before, w, h, room);
                let opened = carve_room(before, w, room);
                assert(only_opened(opened, after)) by {
                    lemma_dig_opened(before, w, h, None, room, horizontal_first);
                    if let Some(prev) = last {
                        let (nx, ny) = room.midpoint();
                        let (px, py) = prev.midpoint();
                        if horizontal_first {
                            lemma_horiz_opened(opened, w, h, px, nx, py);
                            lemma_vert_opened(carve_horiz(opened, w, px, nx, py), w, h, py, ny, nx);
                        } else {
                            lemma_vert_opened(opened, w, h, py, ny, px);
                            lemma_horiz_opened(carve_vert(opened, w, py, ny, px), w, h, px, nx, ny);
                        }
                    }
                }
                assert forall|j: int, x: int, y: int|
                    0 <= j < self.rooms@.len() && (#[trigger] self.rooms@[j]).interior(
                        x,
                        y,
                    ) implies #[trigger] self.is_floor(x, y) by {
                    if j < before_rooms.len() {
                        assert(old(self).is_floor(x, y));
                        lemma_cell_index(w, h, x, y);
                    } else {
                        assert(cell_in_grid(w, h, x, y));
                        assert(floor_at(opened, w, h, x, y));
                        lemma_cell_index(w, h, x, y);
                    }
                }
            }
            if old(self).rooms_apart() {
                assert forall|i: int, j: int|
                    0 <= i < self.rooms@.len() && 0 <= j < self.rooms@.len() && i != j implies !(
                #[trigger] self.rooms@[i]).overlaps(#[trigger] self.rooms@[j]) by {
                    let n = before_rooms.len() as int;
                    if i < n && j < n {
                        assert(!before_rooms[i].overlaps(before_rooms[j]));
                    } else if i < n {
                        assert(!room.overlaps(before_rooms[i]));
                    } else {
                        assert(!room.overlaps(before_rooms[j]));
                    }
                }
            }
        }
        true
    }

    /// Builds a dungeon of `width` by `height` tiles from up to `max_rooms`
    /// candidate rooms drawn from `rng`. Each candidate has sides between
    /// `min_size` and `max_size` and a position that leaves a one-tile margin
    /// of wall on every side of the grid; whether its corridor starts with
    /// the horizontal run is drawn too. Candidates are offered in the order
    /// drawn and a discarded one is not retried, so fewer than `max_rooms`
    /// rooms may result; the first candidate is always accepted.
    ///
    /// No side shorter than two is drawn, whatever `min_size` says: a
    /// shorter room would not open its own midpoint, where its corridor
    /// ends. Where `max_size` is below two or below `min_size`, or the grid
    /// has no space for a room of `max_size` inside the margin, no room is
    /// placed and the map stays all wall.
    pub fn generate(
        width: i32,
        height: i32,
        max_rooms: i32,
        min_size: i32,
        max_size: i32,
        rng: &mut rltk::RandomNumberGenerator,
    ) -> (map: TileMap)
        requires
            0 <= width <= MAX_MAP_SIDE,
            0 <= height <= MAX_MAP_SIDE,
            width * height <= usize::MAX,
        ensures
            map.wf(),
            map.width == width,
            map.height == height,
            map.unseen(),
            map.rooms@.len() <= greater(max_rooms as int, 0),
            feasible(width as int, height as int, min_size as int, max_size as int) && max_rooms
                >= 1 ==> map.rooms@.len() >= 1,
            !feasible(width as int, height as int, min_size as int, max_size as int)
                ==> map.rooms@.len() == 0,
            feasible(width as int, height as int, min_size as int, max_size as int)
                ==> exists|plans: Seq<(Rect, bool)>|
                #[trigger] map.built_from(plans, min_size as int, max_size as int) && plans.len()
                    == greater(max_rooms as int, 0),
            map.rooms@.len() == 0 ==> forall|i: int|
                0 <= i < map.tiles@.len() ==> map.tiles@[i] == TileType::Wall,
            forall|j: int|
                0 <= j < map.rooms@.len() ==> sized(
                    #[trigger] map.rooms@[j],
                    min_size as int,
                    max_size as int,
                ),
            map.rooms_in_margin(),
            map.rooms_opened(),
            map.walled_in(),
            map.rooms_apart(),
            map.rooms_connected(),
    {
        let mut map = TileMap::new(width, height);
        proof {
            lemma_solid_is_walled(map.tiles@, width as int, height as int);
        }
        if !(min_size <= max_size && 2 <= max_size && max_size <= width - 2 && max_size <= height
            - 2) {
            return map;
        }
        let least: i32 = if min_size < 2 { 2 } else { min_size };
        let ghost mut plans: Seq<(Rect, bool)> = Seq::empty();
        proof {
            assert(map.tiles@ =~= solid(width * height));
            assert(map.rooms@ =~= Seq::<Rect>::empty());
        }
        let mut tried: i32 = 0;
        while tried < max_rooms
            invariant
                feasible(width as int, height as int, min_size as int, max_size as int),
                least == greater(min_size as int, 2),
                plans.len() == tried,
                map.built_from(plans, min_size as int, max_size as int),
                0 <= tried <= greater(max_rooms as int, 0),
                map.wf(),
                map.width == width,
                map.height == height,
                map.unseen(),
                map.rooms@.len() <= tried,
                tried >= 1 ==> map.rooms@.len() >= 1,
                map.rooms@.len() == 0 ==> forall|i: int|
                    0 <= i < map.tiles@.len() ==> map.tiles@[i] == TileType::Wall,
                forall|j: int|
                    0 <= j < map.rooms@.len() ==> sized(
                        #[trigger] map.rooms@[j],
                        min_size as int,
                        max_size as int,
                    ),
                map.rooms_in_margin(),
                map.rooms_opened(),
                map.walled_in(),
                map.rooms_apart(),
                map.rooms_connected(),
            decreases max_rooms - tried,
        {
            let w = draw_range(rng, least, max_size + 1);
            let h = draw_range(rng, least, max_size + 1);
            let x = roll_dice(rng, 1, width - w - 1) - 1;
            let y = roll_dice(rng, 1, height - h - 1) - 1;
            let horizontal_first = draw_range(rng, 0, 2) == 1;
            let new_room = Rect::new(x, y, w, h);
            let ghost count = map.rooms@.len();
            let ghost before = (map.tiles@, map.rooms@);
            let accepted = map.place_room(new_room, horizontal_first);
            proof {
                if count == 0 {
                    assert(accepted);
                }
                let longer = plans.push((new_room, horizontal_first));
                let start = (solid(width * height), Seq::<Rect>::empty());
                lemma_offer_all_prefix(start, width as int, plans, longer, plans.len() as int);
                assert(offer_all(start, width as int, longer, longer.len() as int) == offer(
                    before,
                    width as int,
                    (new_room, horizontal_first),
                ));
                plans = longer;
            }
            tried = tried + 1;
        }
        proof {
            assert(map.built_from(plans, min_size as int, max_size as int) && plans.len()
                == greater(max_rooms as int, 0));
        }
        map
    }

    /// Builds the standard dungeon: 80 by 50 tiles, up to 30 rooms with sides
    /// of 6 to 10 tiles, drawn from a freshly seeded random source.
    pub fn new_room_corridors() -> (map: TileMap)
        ensures
            map.wf(),
            map.width == GRID_WIDTH,
            map.height == GRID_HEIGHT,
            map.unseen(),
            1 <= map.rooms@.len() <= MAX_ROOMS,
            exists|plans: Seq<(Rect, bool)>|
                #[trigger] map.built_from(plans, MIN_SIZE as int, MAX_SIZE as int) && plans.len()
                    == MAX_ROOMS,
            forall|j: int|
                0 <= j < map.rooms@.len() ==> sized(
                    #[trigger] map.rooms@[j],
                    MIN_SIZE as int,
                    MAX_SIZE as int,
                ),
            map.rooms_in_margin(),
            map.rooms_opened(),
            map.walled_in(),
            map.rooms_apart(),
            map.rooms_connected(),
    {
        let mut rng = fresh_rng();
        TileMap::generate(GRID_WIDTH, GRID_HEIGHT, MAX_ROOMS, MIN_SIZE, MAX_SIZE, &mut rng)
    }
}

/// The midpoint of a room inside the margin is one of the cells it opens,
/// and lies off the outer ring.
pub proof fn lemma_midpoint_inside(room: Rect, width: int, height: int)
    requires
        in_margin(room, width, height),
    ensures
        room.interior(room.midpoint().0, room.midpoint().1),
        1 <= room.midpoint().0 <= width - 3,
        1 <= room.midpoint().1 <= height - 3,
{
}

/// Opening a room only turns tiles to floor, and every cell of its interior
/// that lies in the grid ends up floor.
pub proof fn lemma_room_opened(tiles: Seq<TileType>, width: int, height: int, room: Rect)
    requires
        tiles.len() == width * height,
    ensures
        only_opened(tiles, carve_room(tiles, width, room)),
        forall|x: int, y: int|
            cell_in_grid(width, height, x, y) && room.interior(x, y) ==> #[trigger] floor_at(
                carve_room(tiles, width, room),
                width,
                height,
                x,
                y,
            ),
{
    let after = carve_room(tiles, width, room);
    assert forall|x: int, y: int|
        cell_in_grid(width, height, x, y) && room.interior(x, y) implies #[trigger] floor_at(
        after,
        width,
        height,
        x,
        y,
    ) by {
        lemma_cell_index(width, height, x, y);
    }
}

/// Opening a horizontal run only turns tiles to floor, and every cell of the
/// run that lies in the grid ends up floor.
pub proof fn lemma_horiz_opened(
    tiles: Seq<TileType>,
    width: int,
    height: int,
    x1: int,
    x2: int,
    y: int,
)
    requires
        tiles.len() == width * height,
    ensures
        only_opened(tiles, carve_horiz(tiles, width, x1, x2, y)),
        forall|x: int|
            lesser(x1, x2) <= x <= greater(x1, x2) && cell_in_grid(width, height, x, y)
                ==> #[trigger] floor_at(
                carve_horiz(tiles, width, x1, x2, y),
                width,
                height,
                x,
                y,
            ),
{
    let after = carve_horiz(tiles, width, x1, x2, y);
    assert forall|x: int|
        lesser(x1, x2) <= x <= greater(x1, x2) && cell_in_grid(
            width,
            height,
            x,
            y,
        ) implies #[trigger] floor_at(after, width, height, x, y) by {
        lemma_cell_index(width, height, x, y);
        assert(on_horiz_run(width, x1, x2, y, cell_index(width, x, y)));
    }
}

/// Opening a vertical run only turns tiles to floor, and every cell of the
/// run that lies in the grid ends up floor.
pub proof fn lemma_vert_opened(
    tiles: Seq<TileType>,
    width: int,
    height: int,
    y1: int,
    y2: int,
    x: int,
)
    requires
        tiles.len() == width * height,
    ensures
        only_opened(tiles, carve_vert(tiles, width, y1, y2, x)),
        forall|y: int|
            lesser(y1, y2) <= y <= greater(y1, y2) && cell_in_grid(width, height, x, y)
                ==> #[trigger] floor_at(
                carve_vert(tiles, width, y1, y2, x),
                width,
                height,
                x,
                y,
            ),
{
    let after = carve_vert(tiles, width, y1, y2, x);
    assert forall|y: int|
        lesser(y1, y2) <= y <= greater(y1, y2) && cell_in_grid(
            width,
            height,
            x,
            y,
        ) implies #[trigger] floor_at(after, width, height, x, y) by {
        lemma_cell_index(width, height, x, y);
        assert(on_vert_run(width, y1, y2, x, cell_index(width, x, y)));
    }
}

/// A room that keeps off the outer ring leaves the ring wall.
pub proof fn lemma_room_keeps_border(tiles: Seq<TileType>, width: int, height: int, room: Rect)
    requires
        tiles.len() == width * height,
        border_walled(tiles, width, height),
        0 <= room.x1,
        room.x2 <= width - 2,
        0 <= room.y1,
        room.y2 <= height - 2,
    ensures
        border_walled(carve_room(tiles, width, room), width, height),
{
    let after = carve_room(tiles, width, room);
    assert forall|x: int, y: int|
        cell_in_grid(width, height, x, y) && (x == 0 || x == width - 1 || y == 0 || y == height
            - 1) implies after[#[trigger] cell_index(width, x, y)] == TileType::Wall by {
        lemma_cell_index(width, height, x, y);
    }
}

/// A horizontal run that keeps off the outer ring leaves the ring wall.
pub proof fn lemma_horiz_keeps_border(
    tiles: Seq<TileType>,
    width: int,
    height: int,
    x1: int,
    x2: int,
    y: int,
)
    requires
        tiles.len() == width * height,
        border_walled(tiles, width, height),
        1 <= x1 <= width - 2,
        1 <= x2 <= width - 2,
        1 <= y <= height - 2,
    ensures
        border_walled(carve_horiz(tiles, width, x1, x2, y), width, height),
{
    let after = carve_horiz(tiles, width, x1, x2, y);
    assert forall|bx: int, by: int|
        cell_in_grid(width, height, bx, by) && (bx == 0 || bx == width - 1 || by == 0 || by
            == height - 1) implies after[#[trigger] cell_index(width, bx, by)]
        == TileType::Wall by {
        lemma_cell_index(width, height, bx, by);
        let i = cell_index(width, bx, by);
        if on_horiz_run(width, x1, x2, y, i) {
            let x = choose|x: int|
                lesser(x1, x2) <= x <= greater(x1, x2) && i == #[trigger] cell_index(width, x, y);
            lemma_cell_index_injective(width, bx, by, x, y);
        }
    }
}

/// A vertical run that keeps off the outer ring leaves the ring wall.
pub proof fn lemma_vert_keeps_border(
    tiles: Seq<TileType>,
    width: int,
    height: int,
    y1: int,
    y2: int,
    x: int,
)
    requires
        tiles.len() == width * height,
        border_walled(tiles, width, height),
        1 <= y1 <= height - 2,
        1 <= y2 <= height - 2,
        1 <= x <= width - 2,
    ensures
        border_walled(carve_vert(tiles, width, y1, y2, x), width, height),
{
    let after = carve_vert(tiles, width, y1, y2, x);
    assert forall|bx: int, by: int|
        cell_in_grid(width, height, bx, by) && (bx == 0 || bx == width - 1 || by == 0 || by
            == height - 1) implies after[#[trigger] cell_index(width, bx, by)]
        == TileType::Wall by {
        lemma_cell_index(width, height, bx, by);
        let i = cell_index(width, bx, by);
        if on_vert_run(width, y1, y2, x, i) {
            let y = choose|y: int|
                lesser(y1, y2) <= y <= greater(y1, y2) && i == #[trigger] cell_index(width, x, y);
            lemma_cell_index_injective(width, bx, by, x, y);
        }
    }
}

/// Accepting a room only turns tiles to floor.
pub proof fn lemma_dig_opened(
    tiles: Seq<TileType>,
    width: int,
    height: int,
    last: Option<Rect>,
    room: Rect,
    horizontal_first: bool,
)
    requires
        tiles.len() == width * height,
    ensures
        only_opened(tiles, dig(tiles, width, last, room, horizontal_first)),
{
    let opened = carve_room(tiles, width, room);
    lemma_room_opened(tiles, width, height, room);
    if let Some(prev) = last {
        let (nx, ny) = room.midpoint();
        let (px, py) = prev.midpoint();
        if horizontal_first {
            let across = carve_horiz(opened, width, px, nx, py);
            lemma_horiz_opened(opened, width, height, px, nx, py);
            lemma_vert_opened(across, width, height, py, ny, nx);
        } else {
            let down = carve_vert(opened, width, py, ny, px);
            lemma_vert_opened(opened, width, height, py, ny, px);
            lemma_horiz_opened(down, width, height, px, nx, ny);
        }
    }
}

/// Accepting a room inside the margin, after a room inside the margin,
/// leaves the outer ring wall.
pub proof fn lemma_dig_keeps_border(
    tiles: Seq<TileType>,
    width: int,
    height: int,
    last: Option<Rect>,
    room: Rect,
    horizontal_first: bool,
)
    requires
        tiles.len() == width * height,
        border_walled(tiles, width, height),
        in_margin(room, width, height),
        last matches Some(prev) ==> in_margin(prev, width, height),
    ensures
        border_walled(dig(tiles, width, last, room, horizontal_first), width, height),
{
    let opened = carve_room(tiles, width, room);
    lemma_room_keeps_border(tiles, width, height, room);
    if let Some(prev) = last {
        let (nx, ny) = room.midpoint();
        let (px, py) = prev.midpoint();
        lemma_midpoint_inside(room, width, height);
        lemma_midpoint_inside(prev, width, height);
        if horizontal_first {
            let across = carve_horiz(opened, width, px, nx, py);
            lemma_horiz_keeps_border(opened, width, height, px, nx, py);
            lemma_vert_keeps_border(across, width, height, py, ny, nx);
        } else {
            let down = carve_vert(opened, width, py, ny, px);
            lemma_vert_keeps_border(opened, width, height, py, ny, px);
            lemma_horiz_keeps_border(down, width, height, px, nx, ny);
        }
    }
}

/// After a room inside the margin is accepted its midpoint is floor, and a
/// walk over floor joins it to the midpoint of the room accepted before it.
pub proof fn lemma_dig_connects(
    tiles: Seq<TileType>,
    width: int,
    height: int,
    last: Option<Rect>,
    room: Rect,
    horizontal_first: bool,
)
    requires
        tiles.len() == width * height,
        in_margin(room, width, height),
        last matches Some(prev) ==> in_margin(prev, width, height),
    ensures
        floor_at(
            dig(tiles, width, last, room, horizontal_first),
            width,
            height,
            room.midpoint().0,
            room.midpoint().1,
        ),
        last matches Some(prev) ==> connected(
            dig(tiles, width, last, room, horizontal_first),
            width,
            height,
            prev.midpoint(),
            room.midpoint(),
        ),
{
    let after = dig(tiles, width, last, room, horizontal_first);
    let opened = carve_room(tiles, width, room);
    let (nx, ny) = room.midpoint();
    lemma_midpoint_inside(room, width, height);
    lemma_room_opened(tiles, width, height, room);
    assert(floor_at(opened, width, height, nx, ny));
    lemma_cell_index(width, height, nx, ny);
    if let Some(prev) = last {
        let (px, py) = prev.midpoint();
        lemma_midpoint_inside(prev, width, height);
        if horizontal_first {
            let across = carve_horiz(opened, width, px, nx, py);
            lemma_horiz_opened(opened, width, height, px, nx, py);
            lemma_vert_opened(across, width, height, py, ny, nx);
            assert forall|x: int| lesser(px, nx) <= x <= greater(px, nx) implies #[trigger] floor_at(
                after,
                width,
                height,
                x,
                py,
            ) by {
                lemma_cell_index(width, height, x, py);
                assert(floor_at(across, width, height, x, py));
            }
            assert forall|y: int| lesser(py, ny) <= y <= greater(py, ny) implies #[trigger] floor_at(
                after,
                width,
                height,
                nx,
                y,
            ) by {
                lemma_cell_index(width, height, nx, y);
            }
            lemma_row_connected(after, width, height, px, nx, py);
            lemma_column_connected(after, width, height, py, ny, nx);
            lemma_connected_chain(after, width, height, (px, py), (nx, py), (nx, ny));
        } else {
            let down = carve_vert(opened, width, py, ny, px);
            lemma_vert_opened(opened, width, height, py, ny, px);
            lemma_horiz_opened(down, width, height, px, nx, ny);
            assert forall|y: int| lesser(py, ny) <= y <= greater(py, ny) implies #[trigger] floor_at(
                after,
                width,
                height,
                px,
                y,
            ) by {
                lemma_cell_index(width, height, px, y);
                assert(floor_at(down, width, height, px, y));
            }
            assert forall|x: int| lesser(px, nx) <= x <= greater(px, nx) implies #[trigger] floor_at(
                after,
                width,
                height,
                x,
                ny,
            ) by {
                lemma_cell_index(width, height, x, ny);
            }
            lemma_column_connected(after, width, height, py, ny, px);
            lemma_row_connected(after, width, height, px, nx, ny);
            lemma_connected_chain(after, width, height, (px, py), (px, ny), (nx, ny));
        }
    } else {
        assert(after == opened);
    }
}

/// Offering the first `n` candidates does not depend on the candidates that
/// follow them.
pub proof fn lemma_offer_all_prefix(
    state: (Seq<TileType>, Seq<Rect>),
    width: int,
    plans: Seq<(Rect, bool)>,
    longer: Seq<(Rect, bool)>,
    n: int,
)
    requires
        n <= plans.len() <= longer.len(),
        forall|i: int| 0 <= i < plans.len() ==> plans[i] == longer[i],
    ensures
        offer_all(state, width, plans, n) == offer_all(state, width, longer, n),
    decreases n,
{
    if n > 0 {
        lemma_offer_all_prefix(state, width, plans, longer, n - 1);
    }
}

/// A grid that is all wall has a wall ring.
pub proof fn lemma_solid_is_walled(tiles: Seq<TileType>, width: int, height: int)
    requires
        tiles.len() == width * height,
        forall|i: int| 0 <= i < tiles.len() ==> tiles[i] == TileType::Wall,
    ensures
        border_walled(tiles, width, height),
{
    assert forall|x: int, y: int|
        cell_in_grid(width, height, x, y) && (x == 0 || x == width - 1 || y == 0 || y == height
            - 1) implies tiles[#[trigger] cell_index(width, x, y)] == TileType::Wall by {
        lemma_cell_index(width, height, x, y);
    }
}

} // verus!
