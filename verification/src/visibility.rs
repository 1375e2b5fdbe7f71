//! The viewshed update: recomputes the field of view of every entity that
//! moved, and projects the player's onto the map.

use vstd::prelude::*;
use crate::component::{cells, Coord};
use crate::fov::compute_fov;
use crate::grid::{lemma_cell_index, lemma_index_cell};
use crate::map::TileMap;
use crate::state::{Entity, World};

verus! {

/// Recomputes stale viewsheds.
pub struct VisibilitySystem {}

/// For each cell of a `width` by `height` grid, in index order, whether
/// `seen` holds it.
pub open spec fn sight_mask(width: int, height: int, seen: Set<(int, int)>) -> Seq<bool> {
    Seq::new((width * height) as nat, |i: int| seen.contains((i % width, i / width)))
}

/// Entry by entry, whether `a` or `b` is set.
pub open spec fn either(a: Seq<bool>, b: Seq<bool>) -> Seq<bool> {
    Seq::new(a.len(), |i: int| a[i] || b[i])
}

/// One of the first `k` points of `seen` names the cell with index `i`.
spec fn marked(seen: Seq<Coord>, k: int, width: int, i: int) -> bool {
    exists|j: int| 0 <= j < k && (#[trigger] seen[j])@ == (i % width, i / width)
}

impl TileMap {
    /// Puts exactly the cells of `seen` in view, and adds them to the cells
    /// that were ever seen.
    pub fn show(&mut self, seen: &Vec<Coord>)
        requires
            old(self).wf(),
            forall|k: int|
                0 <= k < seen@.len() ==> old(self).has_cell(
                    (#[trigger] seen@[k]).x as int,
                    seen@[k].y as int,
                ),
        ensures
            final(self).wf(),
            final(self).tiles == old(self).tiles,
            final(self).rooms == old(self).rooms,
            final(self).width == old(self).width,
            final(self).height == old(self).height,
            final(self).visible_tiles@ == sight_mask(
                old(self).width as int,
                old(self).height as int,
                cells(seen@),
            ),
            final(self).revealed_tiles@ == either(
                old(self).revealed_tiles@,
                sight_mask(old(self).width as int, old(self).height as int, cells(seen@)),
            ),
    {
        let ghost w = self.width as int;
        let ghost h = self.height as int;
        let ghost known = self.revealed_tiles@;
        let n = self.visible_tiles.len();
        let mut i: usize = 0;
        while i < n
            invariant
                i <= n,
                n == self.visible_tiles@.len(),
                self.wf(),
                self.tiles == old(self).tiles,
                self.rooms == old(self).rooms,
                self.width == old(self).width,
                self.height == old(self).height,
                self.revealed_tiles == old(self).revealed_tiles,
                forall|j: int| 0 <= j < i ==> !self.visible_tiles@[j],
            decreases n - i,
        {
            self.visible_tiles.set(i, false);
            i = i + 1;
        }
        let mut k: usize = 0;
        while k < seen.len()
            invariant
                k <= seen@.len(),
                self.wf(),
                w == self.width,
                h == self.height,
                self.tiles == old(self).tiles,
                self.rooms == old(self).rooms,
                self.width == old(self).width,
                self.height == old(self).height,
                known == old(self).revealed_tiles@,
                forall|j: int|
                    0 <= j < seen@.len() ==> self.has_cell(
                        (#[trigger] seen@[j]).x as int,
                        seen@[j].y as int,
                    ),
                forall|i: int|
                    0 <= i < self.visible_tiles@.len() ==> #[trigger] self.visible_tiles@[i]
                        == marked(seen@, k as int, w, i),
                forall|i: int|
                    0 <= i < self.revealed_tiles@.len() ==> #[trigger] self.revealed_tiles@[i] == (
                    known[i] || marked(seen@, k as int, w, i)),
            decreases seen@.len() - k,
        {
            let vis = seen[k];
            let idx = self.xy_idx(vis.x, vis.y);
            let ghost lit = self.visible_tiles@;
            let ghost met = self.revealed_tiles@;
            self.revealed_tiles.set(idx, true);
            self.visible_tiles.set(idx, true);
            proof {
                lemma_cell_index(w, h, vis.x as int, vis.y as int);
                assert forall|i: int| 0 <= i < w * h implies (marked(seen@, k + 1, w, i) <==> marked(
                    seen@,
                    k as int,
                    w,
                    i,
                ) || i == idx) by {
                    lemma_index_cell(w, h, i);
                    if marked(seen@, k + 1, w, i) {
                        let j = choose|j: int|
                            0 <= j < k + 1 && (#[trigger] seen@[j])@ == (i % w, i / w);
                        if j < k {
                            assert(marked(seen@, k as int, w, i));
                        }
                    }
                    if marked(seen@, k as int, w, i) {
                        let j = choose|j: int| 0 <= j < k && (#[trigger] seen@[j])@ == (i % w, i / w);
                        assert(0 <= j < k + 1 && seen@[j]@ == (i % w, i / w));
                    }
                    if i == idx {
                        assert(seen@[k as int]@ == (i % w, i / w));
                    }
                }
                assert forall|i: int|
                    0 <= i < self.visible_tiles@.len() implies #[trigger] self.visible_tiles@[i]
                    == marked(seen@, k + 1, w, i) by {
                    if i != idx {
                        assert(self.visible_tiles@[i] == lit[i]);
                    }
                }
                assert forall|i: int|
                    0 <= i < self.revealed_tiles@.len() implies #[trigger] self.revealed_tiles@[i]
                    == (known[i] || marked(seen@, k + 1, w, i)) by {
                    if i != idx {
                        assert(self.revealed_tiles@[i] == met[i]);
                    }
                }
            }
            k = k + 1;
        }
        proof {
            let mask = sight_mask(w, h, cells(seen@));
            assert forall|i: int| 0 <= i < w * h implies mask[i] == marked(
                seen@,
                seen@.len() as int,
                w,
                i,
            ) by {
                if marked(seen@, seen@.len() as int, w, i) {
                    let j = choose|j: int|
                        0 <= j < seen@.len() && (#[trigger] seen@[j])@ == (i % w, i / w);
                    assert(cells(seen@).contains((i % w, i / w)));
                }
            }
            assert(self.visible_tiles@ =~= mask);
            assert(self.revealed_tiles@ =~= either(known, mask));
        }
    }
}

impl Entity {
    /// The entity's viewshed is stale and the entity is the player: its view
    /// is the one that the map shows.
    pub open spec fn projects(&self) -> bool {
        self.stale() && self.is_player()
    }

    /// The sight radius of the entity's viewshed; zero without one.
    pub open spec fn reach(&self) -> int {
        match self.viewshed {
            Some(v) => v.range as int,
            None => 0,
        }
    }

    /// `after` is this entity once its viewshed was brought up to date on
    /// `map`. A stale viewshed holds the field of view from the entity's
    /// position, each cell once and the entity's own cell among them where
    /// the radius is zero or more, and is no longer stale. A fresh one is
    /// untouched, and an entity without a viewshed is untouched.
    pub open spec fn refreshed_to(&self, map: &TileMap, after: &Entity) -> bool {
        &&& after.position == self.position
        &&& after.renderable == self.renderable
        &&& after.player == self.player
        &&& match self.viewshed {
            None => after.viewshed is None,
            Some(was) => {
                &&& after.viewshed matches Some(now)
                &&& now.range == was.range
                &&& !now.dirty
                &&& if was.dirty {
                    &&& now.visible_tiles@.no_duplicates()
                    &&& cells(now.visible_tiles@) == map.sight(
                        self.position.cell(),
                        was.range as int,
                    )
                    &&& was.range >= 0 ==> now.visible_tiles@.contains(
                        Coord { x: self.position.x, y: self.position.y },
                    )
                } else {
                    now.visible_tiles == was.visible_tiles
                }
            },
        }
    }
}

/// The map's in-view flags after the first `n` of `entities` were brought up
/// to date in order: those of the last among them that projects, or the
/// map's own where none does.
pub open spec fn shown_after(map: &TileMap, entities: Seq<Entity>, n: int) -> Seq<bool>
    decreases n,
{
    if n <= 0 {
        map.visible_tiles@
    } else if entities[n - 1].projects() {
        sight_mask(
            map.width as int,
            map.height as int,
            map.sight(entities[n - 1].position.cell(), entities[n - 1].reach()),
        )
    } else {
        shown_after(map, entities, n - 1)
    }
}

/// The map's ever-seen flags after the first `n` of `entities` were brought
/// up to date: the map's own, joined with the view of each among them that
/// projects.
pub open spec fn known_after(map: &TileMap, entities: Seq<Entity>, n: int) -> Seq<bool>
    decreases n,
{
    if n <= 0 {
        map.revealed_tiles@
    } else if entities[n - 1].projects() {
        either(
            known_after(map, entities, n - 1),
            sight_mask(
                map.width as int,
                map.height as int,
                map.sight(entities[n - 1].position.cell(), entities[n - 1].reach()),
            ),
        )
    } else {
        known_after(map, entities, n - 1)
    }
}

/// The ever-seen flags only grow: a tile the map had seen stays seen, and
/// there is one flag per tile throughout.
pub proof fn lemma_known_grows(map: &TileMap, entities: Seq<Entity>, n: int)
    ensures
        known_after(map, entities, n).len() == map.revealed_tiles@.len(),
        forall|i: int|
            0 <= i < map.revealed_tiles@.len() && map.revealed_tiles@[i] ==> #[trigger] known_after(
                map,
                entities,
                n,
            )[i],
    decreases n,
{
    if n > 0 {
        lemma_known_grows(map, entities, n - 1);
    }
}

impl World {
    /// `after` is this world once every viewshed was brought up to date, the
    /// entities taken in order. The tiles, the rooms and the entities' other
    /// attributes are as before.
    pub open spec fn refreshed_to(&self, after: &World) -> bool {
        &&& after.map.tiles == self.map.tiles
        &&& after.map.rooms == self.map.rooms
        &&& after.map.width == self.map.width
        &&& after.map.height == self.map.height
        &&& after.entities@.len() == self.entities@.len()
        &&& forall|k: int|
            0 <= k < self.entities@.len() ==> (#[trigger] self.entities@[k]).refreshed_to(
                &self.map,
                &after.entities@[k],
            )
        &&& after.map.visible_tiles@ == shown_after(
            &self.map,
            self.entities@,
            self.entities@.len() as int,
        )
        &&& after.map.revealed_tiles@ == known_after(
            &self.map,
            self.entities@,
            self.entities@.len() as int,
        )
    }
}

impl VisibilitySystem {
    /// Brings one entity's viewshed up to date. An entity without a
    /// viewshed, or with one that is not stale, is skipped and nothing
    /// changes. A stale viewshed is recomputed from the entity's position and
    /// marked fresh; where the entity is the player, the map then shows
    /// exactly that view and remembers it.
    pub fn refresh(map: &mut TileMap, entity: &mut Entity)
        requires
            old(map).wf(),
            old(map).has_cell(old(entity).position.x as int, old(entity).position.y as int),
            old(entity).viewshed matches Some(v) ==> v.wf(),
        ensures
            final(map).wf(),
            final(entity).viewshed matches Some(v) ==> v.wf(),
            final(map).tiles == old(map).tiles,
            final(map).rooms == old(map).rooms,
            final(map).width == old(map).width,
            final(map).height == old(map).height,
            old(entity).refreshed_to(old(map), final(entity)),
            !old(entity).stale() ==> *final(entity) == *old(entity) && *final(map) == *old(map),
            final(map).visible_tiles@ == (if old(entity).projects() {
                sight_mask(
                    old(map).width as int,
                    old(map).height as int,
                    old(map).sight(old(entity).position.cell(), old(entity).reach()),
                )
            } else {
                old(map).visible_tiles@
            }),
            final(map).revealed_tiles@ == (if old(entity).projects() {
                either(
                    old(map).revealed_tiles@,
                    sight_mask(
                        old(map).width as int,
                        old(map).height as int,
                        old(map).sight(old(entity).position.cell(), old(entity).reach()),
                    ),
                )
            } else {
                old(map).revealed_tiles@
            }),
    {
        let origin = Coord { x: entity.position.x, y: entity.position.y };
        let player = entity.player.is_some();
        match &mut entity.viewshed {
            Some(viewshed) => {
                if viewshed.dirty {
                    viewshed.dirty = false;
                    viewshed.visible_tiles = compute_fov(map, origin, viewshed.range);
                    if player {
                        map.show(&viewshed.visible_tiles);
                    }
                }
            },
            None => {},
        }
    }

    /// Runs the update over every entity of the world, in order. Entities
    /// without a viewshed, or whose viewshed is not stale, are left exactly as
    /// they were; a tile the map had seen stays seen.
    pub fn run(&mut self, ecs: &mut World)
        requires
            old(ecs).wf(),
        ensures
            final(ecs).wf(),
            old(ecs).refreshed_to(final(ecs)),
            forall|k: int|
                0 <= k < old(ecs).entities@.len() && !(#[trigger] old(ecs).entities@[k]).stale()
                    ==> final(ecs).entities@[k] == old(ecs).entities@[k],
            forall|i: int|
                0 <= i < old(ecs).map.revealed_tiles@.len() && old(ecs).map.revealed_tiles@[i]
                    ==> #[trigger] final(ecs).map.revealed_tiles@[i],
    {
        let n = ecs.entities.len();
        let mut k: usize = 0;
        while k < n
            invariant
                k <= n,
                n == ecs.entities@.len(),
                n == old(ecs).entities@.len(),
                ecs.wf(),
                ecs.map.tiles == old(ecs).map.tiles,
                ecs.map.rooms == old(ecs).map.rooms,
                ecs.map.width == old(ecs).map.width,
                ecs.map.height == old(ecs).map.height,
                forall|j: int|
                    0 <= j < k ==> (#[trigger] old(ecs).entities@[j]).refreshed_to(
                        &old(ecs).map,
                        &ecs.entities@[j],
                    ),
                forall|j: int|
                    0 <= j < k && !(#[trigger] old(ecs).entities@[j]).stale()
                        ==> ecs.entities@[j] == old(ecs).entities@[j],
                forall|j: int| k <= j < n ==> #[trigger] ecs.entities@[j] == old(ecs).entities@[j],
                ecs.map.visible_tiles@ == shown_after(&old(ecs).map, old(ecs).entities@, k as int),
                ecs.map.revealed_tiles@ == known_after(&old(ecs).map, old(ecs).entities@, k as int),
            decreases n - k,
        {
            let ghost before = ecs.entities@;
            proof {
                assert(ecs.map.opacity() =~= old(ecs).map.opacity());
                assert(ecs.entities@[k as int] == old(ecs).entities@[k as int]);
            }
            VisibilitySystem::refresh(&mut ecs.map, &mut ecs.entities[k]);
            proof {
                assert forall|j: int| 0 <= j < n && j != k implies ecs.entities@[j]
                    == before[j] by {}
            }
            k = k + 1;
        }
        proof {
            lemma_known_grows(&old(ecs).map, old(ecs).entities@, n as int);
        }
    }
}

} // verus!
