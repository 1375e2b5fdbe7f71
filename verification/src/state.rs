//! The world the simulation steps: one map and the entities on it.

use vstd::prelude::*;
use crate::component::Viewshed;
use crate::entity::{Player, Position, Renderable};
use crate::map::{draw, drawn_tiles, DrawnTile, TileMap};
use crate::player::{input, key_step, Key};
use crate::visibility::VisibilitySystem;

verus! {

/// One entity of the world with the attributes it carries: every entity has
/// a position; a glyph, a viewshed and the player mark are each carried or
/// not.
#[derive(Debug)]
pub struct Entity {
    pub position: Position,
    pub renderable: Option<Renderable>,
    pub viewshed: Option<Viewshed>,
    pub player: Option<Player>,
}

/// The map and the entities that live on it.
pub struct World {
    pub map: TileMap,
    pub entities: Vec<Entity>,
}

/// The whole of the game's state between two ticks.
pub struct State {
    pub ecs: World,
}

impl Position {
    /// The cell this position names.
    pub open spec fn cell(self) -> (int, int) {
        (self.x as int, self.y as int)
    }
}

impl Entity {
    /// The entity carries the player mark.
    pub open spec fn is_player(&self) -> bool {
        self.player is Some
    }

    /// The entity carries a viewshed, and the viewshed is stale.
    pub open spec fn stale(&self) -> bool {
        self.viewshed matches Some(v) && v.dirty
    }
}

impl World {
    /// The map is well formed, every entity stands on a cell of it, and every
    /// viewshed has a radius the field-of-view engine takes.
    pub open spec fn wf(&self) -> bool {
        &&& self.map.wf()
        &&& forall|k: int|
            0 <= k < self.entities@.len() ==> self.map.has_cell(
                (#[trigger] self.entities@[k]).position.x as int,
                self.entities@[k].position.y as int,
            ) && (self.entities@[k].viewshed matches Some(v) ==> v.wf())
    }
}

/// One entity as the renderer should show it.
#[derive(Clone, Copy, Debug, PartialEq, Eq, Structural)]
pub struct DrawnEntity {
    pub x: i32,
    pub y: i32,
    pub renderable: Renderable,
}

/// What the renderer should draw after a tick: the map's tiles first, then
/// the entities on top.
pub struct Frame {
    pub tiles: Vec<DrawnTile>,
    pub entities: Vec<DrawnEntity>,
}

/// The entities to draw among the first `n`, in order: those that carry a
/// glyph and stand on a tile in view.
pub open spec fn drawn_entities(ecs: &World, n: int) -> Seq<DrawnEntity>
    decreases n,
{
    if n <= 0 {
        Seq::empty()
    } else {
        let e = ecs.entities@[n - 1];
        let rest = drawn_entities(ecs, n - 1);
        match e.renderable {
            Some(renderable) => if ecs.map.visible_tiles@[ecs.map.index_of(
                e.position.x as int,
                e.position.y as int,
            )] {
                rest.push(DrawnEntity { x: e.position.x, y: e.position.y, renderable })
            } else {
                rest
            },
            None => rest,
        }
    }
}

/// Lists the entities that the renderer should draw: those that carry a glyph
/// and stand on a tile in view, in order.
pub fn draw_entities(ecs: &World) -> (out: Vec<DrawnEntity>)
    requires
        ecs.wf(),
    ensures
        out@ == drawn_entities(ecs, ecs.entities@.len() as int),
{
    let mut out: Vec<DrawnEntity> = Vec::new();
    let n = ecs.entities.len();
    let mut k: usize = 0;
    while k < n
        invariant
            k <= n,
            n == ecs.entities@.len(),
            ecs.wf(),
            out@ == drawn_entities(ecs, k as int),
        decreases n - k,
    {
        let pos = ecs.entities[k].position;
        match ecs.entities[k].renderable {
            Some(renderable) => {
                let idx = ecs.map.xy_idx(pos.x, pos.y);
                if ecs.map.visible_tiles[idx] {
                    out.push(DrawnEntity { x: pos.x, y: pos.y, renderable });
                }
            },
            None => {},
        }
        k = k + 1;
    }
    out
}

impl State {
    /// One step of the simulation: the key press is acted on, every stale
    /// viewshed is brought up to date, and the frame to draw is listed from
    /// the world as it then stands.
    pub fn tick(&mut self, key: Option<Key>) -> (frame: Frame)
        requires
            old(self).ecs.wf(),
            key_step(key) matches Some(step) ==> old(self).ecs.can_step(step.0, step.1),
        ensures
            final(self).ecs.wf(),
            exists|mid: World| #[trigger]
                old(self).ecs.keyed_to(key, &mid) && mid.refreshed_to(&final(self).ecs),
            forall|i: int|
                0 <= i < old(self).ecs.map.revealed_tiles@.len()
                    && old(self).ecs.map.revealed_tiles@[i]
                    ==> #[trigger] final(self).ecs.map.revealed_tiles@[i],
            frame.tiles@ == drawn_tiles(
                &final(self).ecs.map,
                final(self).ecs.map.tiles@.len() as int,
            ),
            frame.entities@ == drawn_entities(
                &final(self).ecs,
                final(self).ecs.entities@.len() as int,
            ),
    {
        input(self, key);
        let ghost mid = self.ecs;
        let mut systems = VisibilitySystem {  };
        systems.run(&mut self.ecs);
        proof {
            assert(old(self).ecs.keyed_to(key, &mid) && mid.refreshed_to(&self.ecs));
        }
        let tiles = draw(&self.ecs);
        let entities = draw_entities(&self.ecs);
        Frame { tiles, entities }
    }
}

} // verus!
