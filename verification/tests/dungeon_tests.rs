use mortal_wombat::dungeon::{MAX_ROOMS, MAX_SIZE, MIN_SIZE};
use mortal_wombat::entity::TileType;
use mortal_wombat::map::TileMap;
use mortal_wombat::rect::Rect;

fn is_floor(map: &TileMap, x: i32, y: i32) -> bool {
    map.tiles[map.xy_idx(x, y)] == TileType::Floor
}

fn floor_count(map: &TileMap) -> usize {
    map.tiles.iter().filter(|t| **t == TileType::Floor).count()
}

fn reachable_from(map: &TileMap, start: (i32, i32)) -> Vec<bool> {
    let mut seen = vec![false; map.tiles.len()];
    if !is_floor(map, start.0, start.1) {
        return seen;
    }
    let mut stack = vec![start];
    seen[map.xy_idx(start.0, start.1)] = true;
    while let Some((x, y)) = stack.pop() {
        for (dx, dy) in [(1, 0), (-1, 0), (0, 1), (0, -1)] {
            let (nx, ny) = (x + dx, y + dy);
            if nx < 0 || ny < 0 || nx >= map.width || ny >= map.height {
                continue;
            }
            let idx = map.xy_idx(nx, ny);
            if !seen[idx] && map.tiles[idx] == TileType::Floor {
                seen[idx] = true;
                stack.push((nx, ny));
            }
        }
    }
    seen
}

fn check_generated(map: &TileMap, max_rooms: usize, min_size: i32, max_size: i32) {
    for x in 0..map.width {
        assert_eq!(map.tiles[map.xy_idx(x, 0)], TileType::Wall);
        assert_eq!(map.tiles[map.xy_idx(x, map.height - 1)], TileType::Wall);
    }
    for y in 0..map.height {
        assert_eq!(map.tiles[map.xy_idx(0, y)], TileType::Wall);
        assert_eq!(map.tiles[map.xy_idx(map.width - 1, y)], TileType::Wall);
    }
    assert!(map.rooms.len() >= 1);
    assert!(map.rooms.len() <= max_rooms);
    for (i, a) in map.rooms.iter().enumerate() {
        assert!(a.x2 - a.x1 >= min_size && a.x2 - a.x1 <= max_size);
        assert!(a.y2 - a.y1 >= min_size && a.y2 - a.y1 <= max_size);
        assert!(a.x1 >= 0 && a.x2 <= map.width - 2);
        assert!(a.y1 >= 0 && a.y2 <= map.height - 2);
        for (j, b) in map.rooms.iter().enumerate() {
            if i != j {
                assert!(!a.intersects(b));
            }
        }
        for y in a.y1 + 1..=a.y2 {
            for x in a.x1 + 1..=a.x2 {
                assert!(is_floor(map, x, y));
            }
        }
    }
    let seen = reachable_from(map, map.rooms[0].center());
    for room in map.rooms.iter() {
        let (cx, cy) = room.center();
        assert!(seen[map.xy_idx(cx, cy)]);
    }
    assert!(map.visible_tiles.iter().all(|b| !*b));
    assert!(map.revealed_tiles.iter().all(|b| !*b));
}

#[test]
fn generator_constants() {
    assert_eq!(MAX_ROOMS, 30);
    assert_eq!(MIN_SIZE, 6);
    assert_eq!(MAX_SIZE, 10);
}

#[test]
fn can_place_on_an_empty_map() {
    let map = TileMap::new(40, 40);
    assert!(map.can_place(&Rect::new(1, 1, 5, 5)));
}

#[test]
fn first_room_is_accepted_and_opened() {
    let mut map = TileMap::new(80, 50);
    let room = Rect::new(10, 10, 6, 6);
    assert!(map.place_room(room, true));
    assert_eq!(map.rooms, vec![room]);
    assert_eq!(floor_count(&map), 36);
    assert!(is_floor(&map, 13, 13));
}

#[test]
fn overlapping_room_is_discarded() {
    let mut map = TileMap::new(80, 50);
    assert!(map.place_room(Rect::new(10, 10, 6, 6), true));
    let tiles = map.tiles.clone();
    assert!(!map.can_place(&Rect::new(14, 14, 6, 6)));
    assert!(!map.place_room(Rect::new(14, 14, 6, 6), true));
    assert_eq!(map.rooms.len(), 1);
    assert_eq!(map.tiles, tiles);
}

#[test]
fn touching_room_is_discarded() {
    let mut map = TileMap::new(80, 50);
    assert!(map.place_room(Rect::new(10, 10, 6, 6), true));
    assert!(!map.place_room(Rect::new(16, 10, 6, 6), false));
    assert!(map.place_room(Rect::new(17, 10, 6, 6), false));
    assert_eq!(map.rooms.len(), 2);
}

#[test]
fn corridor_goes_horizontal_first() {
    let mut map = TileMap::new(80, 50);
    assert!(map.place_room(Rect::new(2, 2, 4, 4), true));
    assert!(map.place_room(Rect::new(20, 20, 4, 4), true));
    for x in 4..=22 {
        assert!(is_floor(&map, x, 4));
    }
    for y in 4..=22 {
        assert!(is_floor(&map, 22, y));
    }
    assert!(!is_floor(&map, 4, 10));
    assert_eq!(floor_count(&map), 16 + 16 + 16 + 16);
}

#[test]
fn corridor_goes_vertical_first() {
    let mut map = TileMap::new(80, 50);
    assert!(map.place_room(Rect::new(2, 2, 4, 4), false));
    assert!(map.place_room(Rect::new(20, 20, 4, 4), false));
    for y in 4..=22 {
        assert!(is_floor(&map, 4, y));
    }
    for x in 4..=22 {
        assert!(is_floor(&map, x, 22));
    }
    assert!(!is_floor(&map, 22, 10));
    assert_eq!(floor_count(&map), 16 + 16 + 16 + 16);
}

#[test]
fn corridor_links_to_the_room_before() {
    let mut map = TileMap::new(80, 50);
    assert!(map.place_room(Rect::new(2, 2, 4, 4), true));
    assert!(map.place_room(Rect::new(60, 2, 4, 4), true));
    assert!(map.place_room(Rect::new(60, 30, 4, 4), true));
    assert!(!is_floor(&map, 30, 20));
    for y in 4..=32 {
        assert!(is_floor(&map, 62, y));
    }
    let seen = reachable_from(&map, (4, 4));
    assert!(seen[map.xy_idx(62, 32)]);
}

#[test]
fn generate_keeps_its_promises() {
    for seed in 0..40u64 {
        let mut rng = rltk::RandomNumberGenerator::seeded(seed);
        let map = TileMap::generate(80, 50, 30, 6, 10, &mut rng);
        assert_eq!(map.width, 80);
        assert_eq!(map.height, 50);
        check_generated(&map, 30, 6, 10);
    }
}

#[test]
fn generate_on_other_sizes() {
    for seed in 0..20u64 {
        let mut rng = rltk::RandomNumberGenerator::seeded(seed);
        let map = TileMap::generate(30, 20, 12, 2, 5, &mut rng);
        check_generated(&map, 12, 2, 5);
    }
}

#[test]
fn generate_is_reproducible() {
    let mut a = rltk::RandomNumberGenerator::seeded(1234);
    let mut b = rltk::RandomNumberGenerator::seeded(1234);
    let first = TileMap::generate(80, 50, 30, 6, 10, &mut a);
    let second = TileMap::generate(80, 50, 30, 6, 10, &mut b);
    assert_eq!(first.tiles, second.tiles);
    assert_eq!(first.rooms, second.rooms);
}

#[test]
fn generate_draws_sizes_and_places() {
    let mut rng = rltk::RandomNumberGenerator::seeded(7);
    let map = TileMap::generate(80, 50, 30, 6, 10, &mut rng);
    assert!(map.rooms.len() >= 2);
    let first = map.rooms[0];
    assert!(map.rooms.iter().any(|r| r.x2 - r.x1 != first.x2 - first.x1));
    assert!(map.rooms.iter().any(|r| r.x1 != first.x1));
    assert!(map.rooms.iter().any(|r| r.y1 != first.y1));
    assert!(map.rooms.iter().any(|r| r.x2 - r.x1 > 6));
    assert!(map.rooms.iter().any(|r| r.x1 > 0));
    assert!(map.rooms.iter().any(|r| r.x1 + (r.x2 - r.x1) < 78));
}

#[test]
fn generate_with_one_attempt_places_one_room() {
    let mut rng = rltk::RandomNumberGenerator::seeded(3);
    let map = TileMap::generate(80, 50, 1, 6, 10, &mut rng);
    assert_eq!(map.rooms.len(), 1);
}

#[test]
fn generate_without_attempts_stays_solid() {
    let mut rng = rltk::RandomNumberGenerator::seeded(3);
    let map = TileMap::generate(80, 50, 0, 6, 10, &mut rng);
    assert!(map.rooms.is_empty());
    assert_eq!(floor_count(&map), 0);
    let mut again = rltk::RandomNumberGenerator::seeded(3);
    let negative = TileMap::generate(80, 50, -4, 6, 10, &mut again);
    assert!(negative.rooms.is_empty());
}

#[test]
fn generate_without_space_stays_solid() {
    let mut rng = rltk::RandomNumberGenerator::seeded(3);
    let map = TileMap::generate(8, 8, 30, 6, 10, &mut rng);
    assert!(map.rooms.is_empty());
    assert_eq!(floor_count(&map), 0);
    let crossed = TileMap::generate(80, 50, 30, 9, 6, &mut rng);
    assert!(crossed.rooms.is_empty());
    let flat = TileMap::generate(80, 50, 30, 1, 1, &mut rng);
    assert!(flat.rooms.is_empty());
    assert_eq!(floor_count(&flat), 0);
    let none = TileMap::generate(80, 50, 30, -5, 0, &mut rng);
    assert!(none.rooms.is_empty());
}

#[test]
fn generate_draws_no_side_below_two() {
    for seed in 0..20u64 {
        let mut rng = rltk::RandomNumberGenerator::seeded(seed);
        let map = TileMap::generate(40, 30, 20, 1, 4, &mut rng);
        check_generated(&map, 20, 2, 4);
        let mut other = rltk::RandomNumberGenerator::seeded(seed);
        let low = TileMap::generate(40, 30, 20, -7, 3, &mut other);
        check_generated(&low, 20, 2, 3);
    }
    let mut rng = rltk::RandomNumberGenerator::seeded(5);
    let pinned = TileMap::generate(40, 30, 20, 0, 2, &mut rng);
    assert!(pinned.rooms.len() >= 1);
    assert!(pinned.rooms.iter().all(|r| r.x2 - r.x1 == 2 && r.y2 - r.y1 == 2));
}

#[test]
fn generate_fits_the_tightest_grid() {
    let mut rng = rltk::RandomNumberGenerator::seeded(11);
    let map = TileMap::generate(6, 6, 5, 4, 4, &mut rng);
    assert_eq!(map.rooms, vec![Rect::new(0, 0, 4, 4)]);
    check_generated(&map, 5, 4, 4);
}

#[test]
fn new_room_corridors_builds_the_standard_dungeon() {
    let map = TileMap::new_room_corridors();
    assert_eq!(map.width, 80);
    assert_eq!(map.height, 50);
    check_generated(&map, 30, 6, 10);
}
