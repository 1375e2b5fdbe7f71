use mortal_wombat::component::Viewshed;
use mortal_wombat::entity::{Color, Player, Position, Renderable, TileType};
use mortal_wombat::map::{draw, DrawnTile, TileMap};
use mortal_wombat::player::Key;
use mortal_wombat::rect::Rect;
use mortal_wombat::state::{draw_entities, DrawnEntity, Entity, State, World};

fn glyph(code: u8) -> Renderable {
    Renderable { glyph: code, fg: Color { r: 255, g: 0, b: 0 }, bg: Color { r: 0, g: 0, b: 0 } }
}

fn entity(x: i32, y: i32, code: u8, player: bool) -> Entity {
    Entity {
        position: Position { x, y },
        renderable: Some(glyph(code)),
        viewshed: Some(Viewshed::new(8)),
        player: if player { Some(Player {}) } else { None },
    }
}

fn view(e: &Entity) -> &Viewshed {
    e.viewshed.as_ref().unwrap()
}

fn world() -> World {
    let mut map = TileMap::new(80, 50);
    assert!(map.place_room(Rect::new(10, 10, 6, 6), true));
    assert!(map.place_room(Rect::new(40, 30, 6, 6), true));
    World {
        map,
        entities: vec![entity(13, 13, 64, true), entity(12, 12, 103, false), entity(43, 33, 103, false)],
    }
}

#[test]
fn draw_of_an_unseen_map_is_empty() {
    let ecs = world();
    assert!(draw(&ecs).is_empty());
}

#[test]
fn draw_lists_seen_tiles_row_by_row() {
    let mut ecs = World { map: TileMap::new(4, 3), entities: Vec::new() };
    ecs.map.tiles[5] = TileType::Floor;
    ecs.map.revealed_tiles[1] = true;
    ecs.map.revealed_tiles[5] = true;
    ecs.map.revealed_tiles[11] = true;
    ecs.map.visible_tiles[5] = true;
    assert_eq!(
        draw(&ecs),
        vec![
            DrawnTile { x: 1, y: 0, tile: TileType::Wall, visible: false },
            DrawnTile { x: 1, y: 1, tile: TileType::Floor, visible: true },
            DrawnTile { x: 3, y: 2, tile: TileType::Wall, visible: false },
        ]
    );
}

#[test]
fn draw_entities_lists_those_in_view() {
    let mut ecs = world();
    let here = ecs.map.xy_idx(12, 12);
    ecs.map.visible_tiles[here] = true;
    ecs.map.revealed_tiles[here] = true;
    assert_eq!(draw_entities(&ecs), vec![DrawnEntity { x: 12, y: 12, renderable: glyph(103) }]);
}

#[test]
fn tick_reveals_the_players_room() {
    let mut gs = State { ecs: world() };
    let frame = gs.tick(None);
    assert!(!view(&gs.ecs.entities[0]).dirty);
    assert!(frame.tiles.contains(&DrawnTile { x: 13, y: 13, tile: TileType::Floor, visible: true }));
    assert!(frame.tiles.contains(&DrawnTile { x: 10, y: 13, tile: TileType::Wall, visible: true }));
    assert!(frame.tiles.iter().all(|t| t.visible));
    assert!(frame.tiles.iter().all(|t| t.x != 43));
    assert_eq!(
        frame.entities,
        vec![
            DrawnEntity { x: 13, y: 13, renderable: glyph(64) },
            DrawnEntity { x: 12, y: 12, renderable: glyph(103) },
        ]
    );
}

#[test]
fn tick_moves_then_looks() {
    let mut gs = State { ecs: world() };
    gs.tick(None);
    let frame = gs.tick(Some(Key::Right));
    assert_eq!(gs.ecs.entities[0].position, Position { x: 14, y: 13 });
    assert!(!view(&gs.ecs.entities[0]).dirty);
    assert!(frame.entities.contains(&DrawnEntity { x: 14, y: 13, renderable: glyph(64) }));
    assert!(gs.ecs.map.visible_tiles[gs.ecs.map.xy_idx(14, 13)]);
}

#[test]
fn tick_against_a_wall_keeps_the_view() {
    let mut gs = State { ecs: world() };
    gs.ecs.entities[0].position = Position { x: 11, y: 13 };
    gs.tick(None);
    let seen = view(&gs.ecs.entities[0]).visible_tiles.clone();
    let before = gs.ecs.map.visible_tiles.clone();
    gs.tick(Some(Key::Left));
    assert_eq!(gs.ecs.entities[0].position, Position { x: 11, y: 13 });
    assert_eq!(view(&gs.ecs.entities[0]).visible_tiles, seen);
    assert_eq!(gs.ecs.map.visible_tiles, before);
}

#[test]
fn tick_remembers_what_went_out_of_view() {
    let mut gs = State { ecs: world() };
    gs.tick(None);
    gs.ecs.entities[0].position = Position { x: 43, y: 33 };
    gs.ecs.entities[0].viewshed.as_mut().unwrap().dirty = true;
    let frame = gs.tick(None);
    assert!(frame.tiles.contains(&DrawnTile { x: 13, y: 13, tile: TileType::Floor, visible: false }));
    assert!(frame.tiles.contains(&DrawnTile { x: 43, y: 33, tile: TileType::Floor, visible: true }));
}

#[test]
fn a_long_walk_stays_on_the_floor() {
    let mut rng = rltk::RandomNumberGenerator::seeded(99);
    let map = TileMap::generate(80, 50, 30, 6, 10, &mut rng);
    let (x, y) = map.rooms[0].center();
    let mut gs = State { ecs: World { map, entities: vec![entity(x, y, 64, true)] } };
    let keys = [Key::Left, Key::Right, Key::Up, Key::Down, Key::H, Key::J, Key::K, Key::L, Key::Other];
    let mut known = gs.ecs.map.revealed_tiles.clone();
    for _ in 0..600 {
        let key = keys[rng.range(0, keys.len() as i32) as usize];
        gs.tick(Some(key));
        let pos = gs.ecs.entities[0].position;
        assert!(pos.x >= 1 && pos.x <= 78 && pos.y >= 1 && pos.y <= 48);
        let here = gs.ecs.map.xy_idx(pos.x, pos.y);
        assert_eq!(gs.ecs.map.tiles[here], TileType::Floor);
        assert!(gs.ecs.map.visible_tiles[here]);
        assert!(!view(&gs.ecs.entities[0]).dirty);
        for i in 0..known.len() {
            assert!(!known[i] || gs.ecs.map.revealed_tiles[i]);
            assert!(!gs.ecs.map.visible_tiles[i] || gs.ecs.map.revealed_tiles[i]);
        }
        known = gs.ecs.map.revealed_tiles.clone();
    }
}

#[test]
fn draw_entities_needs_a_glyph() {
    let mut ecs = world();
    let here = ecs.map.xy_idx(12, 12);
    ecs.map.visible_tiles[here] = true;
    ecs.map.revealed_tiles[here] = true;
    ecs.entities[1].renderable = None;
    assert!(draw_entities(&ecs).is_empty());
}

#[test]
fn tick_draws_entities_without_a_viewshed() {
    let mut gs = State { ecs: world() };
    gs.ecs.entities[1].viewshed = None;
    let frame = gs.tick(None);
    assert!(gs.ecs.entities[1].viewshed.is_none());
    assert!(frame.entities.contains(&DrawnEntity { x: 12, y: 12, renderable: glyph(103) }));
}
