//! Moving the player: one step at a time, blocked by walls.

use vstd::prelude::*;
use crate::entity::TileType;
use crate::grid::cell_index;
use crate::map::TileMap;
use crate::state::{Entity, State, World};

verus! {

/// The keys the game listens to. Any other key is `Other`.
#[derive(Clone, Copy, Debug, PartialEq, Eq, Structural)]
pub enum Key {
    Left,
    Numpad4,
    H,
    Right,
    Numpad6,
    L,
    Up,
    Numpad8,
    K,
    Down,
    Numpad2,
    J,
    Other,
}

/// The step a key press asks for, as `(dx, dy)`; none for no key or a key
/// that is not bound.
pub open spec fn key_step(key: Option<Key>) -> Option<(int, int)> {
    match key {
        Some(Key::Left) | Some(Key::Numpad4) | Some(Key::H) => Some((-1, 0)),
        Some(Key::Right) | Some(Key::Numpad6) | Some(Key::L) => Some((1, 0)),
        Some(Key::Up) | Some(Key::Numpad8) | Some(Key::K) => Some((0, -1)),
        Some(Key::Down) | Some(Key::Numpad2) | Some(Key::J) => Some((0, 1)),
        _ => None,
    }
}

/// `n` brought into `lo..=hi`.
pub open spec fn clamped(n: int, lo: int, hi: int) -> int {
    if n < lo {
        lo
    } else if n > hi {
        hi
    } else {
        n
    }
}

impl Entity {
    /// The cell the entity would reach by the step `(dx, dy)`.
    pub open spec fn target(&self, dx: int, dy: int) -> (int, int) {
        (self.position.x + dx, self.position.y + dy)
    }

    /// The entity is one that a move applies to: it carries the player mark
    /// and a viewshed.
    pub open spec fn moves(&self) -> bool {
        self.is_player() && self.viewshed is Some
    }

    /// `after` is this entity once it tried the step `(dx, dy)` on `map`.
    /// Only a player with a viewshed moves. Toward a wall nothing changes at
    /// all; otherwise the entity stands on the target cell, kept inside the
    /// grid, and its viewshed is stale.
    pub open spec fn stepped_to(&self, map: &TileMap, dx: int, dy: int, after: &Entity) -> bool {
        let (tx, ty) = self.target(dx, dy);
        if self.moves() && map.tile_at(tx, ty).walkable() {
            &&& after.position.x == clamped(tx, 0, map.width - 1)
            &&& after.position.y == clamped(ty, 0, map.height - 1)
            &&& after.renderable == self.renderable
            &&& after.player == self.player
            &&& self.viewshed matches Some(was)
            &&& after.viewshed matches Some(now)
            &&& now.visible_tiles == was.visible_tiles
            &&& now.range == was.range
            &&& now.dirty
        } else {
            *after == *self
        }
    }
}

impl World {
    /// Every entity that a move applies to has the cell that the step
    /// `(dx, dy)` leads to on the map.
    pub open spec fn can_step(&self, dx: int, dy: int) -> bool {
        forall|k: int|
            0 <= k < self.entities@.len() && (#[trigger] self.entities@[k]).moves()
                ==> self.map.has_cell(
                self.entities@[k].target(dx, dy).0,
                self.entities@[k].target(dx, dy).1,
            )
    }

    /// Every entity that a move applies to stands on a floor tile.
    pub open spec fn players_on_floor(&self) -> bool {
        forall|k: int|
            0 <= k < self.entities@.len() && (#[trigger] self.entities@[k]).moves()
                ==> self.map.is_floor(
                self.entities@[k].position.x as int,
                self.entities@[k].position.y as int,
            )
    }

    /// `after` is this world once the key press `key` was acted on: the
    /// player tried the step the key asks for, or nothing changed where it
    /// asks for none.
    pub open spec fn keyed_to(&self, key: Option<Key>, after: &World) -> bool {
        match key_step(key) {
            Some(step) => self.stepped_to(step.0, step.1, after),
            None => *after == *self,
        }
    }

    /// `after` is this world once every entity that a move applies to tried
    /// the step `(dx, dy)`. The map is as before.
    pub open spec fn stepped_to(&self, dx: int, dy: int, after: &World) -> bool {
        &&& after.map == self.map
        &&& after.entities@.len() == self.entities@.len()
        &&& forall|k: int|
            0 <= k < self.entities@.len() ==> (#[trigger] self.entities@[k]).stepped_to(
                &self.map,
                dx,
                dy,
                &after.entities@[k],
            )
    }
}

/// On a map whose outer ring is wall, a player that stands on floor can take
/// any step of at most one cell in each direction without leaving the grid.
pub proof fn lemma_walled_map_keeps_steps_on_grid(ecs: &World, dx: int, dy: int)
    requires
        ecs.wf(),
        ecs.map.walled_in(),
        ecs.players_on_floor(),
        -1 <= dx <= 1,
        -1 <= dy <= 1,
    ensures
        ecs.can_step(dx, dy),
{
    assert forall|k: int|
        0 <= k < ecs.entities@.len() && (#[trigger] ecs.entities@[k]).moves() implies ecs.map.has_cell(
        ecs.entities@[k].target(dx, dy).0,
        ecs.entities@[k].target(dx, dy).1,
    ) by {
        let x = ecs.entities@[k].position.x as int;
        let y = ecs.entities@[k].position.y as int;
        assert(ecs.map.is_floor(x, y));
        assert(ecs.map.tiles@[cell_index(ecs.map.width as int, x, y)] == TileType::Floor);
    }
}

/// Lets one entity try the step `(dx, dy)`.
fn step_entity(dx: i32, dy: i32, map: &TileMap, entity: &mut Entity)
    requires
        map.wf(),
        map.has_cell(old(entity).position.x as int, old(entity).position.y as int),
        old(entity).viewshed matches Some(v) ==> v.wf(),
        old(entity).moves() ==> map.has_cell(
            old(entity).target(dx as int, dy as int).0,
            old(entity).target(dx as int, dy as int).1,
        ),
    ensures
        old(entity).stepped_to(map, dx as int, dy as int, final(entity)),
        map.has_cell(final(entity).position.x as int, final(entity).position.y as int),
        final(entity).viewshed matches Some(v) ==> v.wf(),
{
    if entity.player.is_some() {
        match &mut entity.viewshed {
            Some(viewshed) => {
                let dest_idx = map.xy_idx(entity.position.x + dx, entity.position.y + dy);
                if map.tiles[dest_idx].is_walkable() {
                    entity.position.x = entity.position.x + dx;
                    entity.position.y = entity.position.y + dy;
                    if entity.position.x < 0 {
                        entity.position.x = 0;
                    }
                    if entity.position.x > map.width - 1 {
                        entity.position.x = map.width - 1;
                    }
                    if entity.position.y < 0 {
                        entity.position.y = 0;
                    }
                    if entity.position.y > map.height - 1 {
                        entity.position.y = map.height - 1;
                    }
                    viewshed.dirty = true;
                }
            },
            None => {},
        }
    }
}

/// Lets the player try the step `(dx, dy)`. The destination tile is looked
/// up on the map: toward a wall the move is refused, and neither the position
/// nor the viewshed changes; otherwise the player moves there and its
/// viewshed is marked stale. Entities without the player mark, or without a
/// viewshed, are untouched.
pub fn try_move(dx: i32, dy: i32, ecs: &mut World)
    requires
        old(ecs).wf(),
        old(ecs).can_step(dx as int, dy as int),
    ensures
        final(ecs).wf(),
        old(ecs).stepped_to(dx as int, dy as int, final(ecs)),
        forall|k: int|
            0 <= k < old(ecs).entities@.len() && old(ecs).map.tile_at(
                (#[trigger] old(ecs).entities@[k]).target(dx as int, dy as int).0,
                old(ecs).entities@[k].target(dx as int, dy as int).1,
            ) == TileType::Wall ==> final(ecs).entities@[k] == old(ecs).entities@[k],
        old(ecs).players_on_floor() ==> final(ecs).players_on_floor(),
{
    let n = ecs.entities.len();
    let mut k: usize = 0;
    while k < n
        invariant
            k <= n,
            n == ecs.entities@.len(),
            n == old(ecs).entities@.len(),
            ecs.wf(),
            ecs.map == old(ecs).map,
            old(ecs).can_step(dx as int, dy as int),
            forall|j: int|
                0 <= j < k ==> (#[trigger] old(ecs).entities@[j]).stepped_to(
                    &old(ecs).map,
                    dx as int,
                    dy as int,
                    &ecs.entities@[j],
                ),
            forall|j: int| k <= j < n ==> #[trigger] ecs.entities@[j] == old(ecs).entities@[j],
        decreases n - k,
    {
        let ghost before = ecs.entities@;
        proof {
            assert(ecs.entities@[k as int] == old(ecs).entities@[k as int]);
        }
        step_entity(dx, dy, &ecs.map, &mut ecs.entities[k]);
        proof {
            assert forall|j: int| 0 <= j < n && j != k implies ecs.entities@[j] == before[j] by {}
        }
        k = k + 1;
    }
    proof {
        if old(ecs).players_on_floor() {
            assert forall|j: int|
                0 <= j < ecs.entities@.len()
                    && (#[trigger] ecs.entities@[j]).moves() implies ecs.map.is_floor(
                ecs.entities@[j].position.x as int,
                ecs.entities@[j].position.y as int,
            ) by {
                let was = old(ecs).entities@[j];
                assert(was.stepped_to(&old(ecs).map, dx as int, dy as int, &ecs.entities@[j]));
                assert(was.moves());
                assert(old(ecs).map.is_floor(was.position.x as int, was.position.y as int));
            }
        }
    }
}

/// The step a key press asks for.
pub fn step_for(key: Option<Key>) -> (step: Option<(i32, i32)>)
    ensures
        match step {
            Some((dx, dy)) => key_step(key) == Some((dx as int, dy as int)),
            None => key_step(key) is None,
        },
{
    match key {
        None => None,
        Some(key) => match key {
            Key::Left => Some((-1, 0)),
            Key::Numpad4 => Some((-1, 0)),
            Key::H => Some((-1, 0)),
            Key::Right => Some((1, 0)),
            Key::Numpad6 => Some((1, 0)),
            Key::L => Some((1, 0)),
            Key::Up => Some((0, -1)),
            Key::Numpad8 => Some((0, -1)),
            Key::K => Some((0, -1)),
            Key::Down => Some((0, 1)),
            Key::Numpad2 => Some((0, 1)),
            Key::J => Some((0, 1)),
            _ => None,
        },
    }
}

/// Turns a key press into a move of the player: left, right, up or down by
/// one cell for the arrow keys, the numeric pad and `H`, `L`, `K`, `J`.
/// Without a key, or with any other key, nothing changes.
pub fn input(gs: &mut State, key: Option<Key>)
    requires
        old(gs).ecs.wf(),
        key_step(key) matches Some(step) ==> old(gs).ecs.can_step(step.0, step.1),
    ensures
        final(gs).ecs.wf(),
        old(gs).ecs.keyed_to(key, &final(gs).ecs),
{
    match step_for(key) {
        Some((dx, dy)) => try_move(dx, dy, &mut gs.ecs),
        None => {},
    }
}

} // verus!
