use mortal_wombat::entity::TileType;
use mortal_wombat::map::TileMap;
use mortal_wombat::rect::Rect;

fn floor_cells(map: &TileMap) -> Vec<(i32, i32)> {
    let mut out = Vec::new();
    for y in 0..map.height {
        for x in 0..map.width {
            if map.tiles[map.xy_idx(x, y)] == TileType::Floor {
                out.push((x, y));
            }
        }
    }
    out
}

#[test]
fn new_map_is_all_wall_and_unseen() {
    let map = TileMap::new(80, 50);
    assert_eq!(map.width, 80);
    assert_eq!(map.height, 50);
    assert_eq!(map.tiles.len(), 4000);
    assert_eq!(map.revealed_tiles.len(), 4000);
    assert_eq!(map.visible_tiles.len(), 4000);
    assert!(map.rooms.is_empty());
    assert!(map.tiles.iter().all(|t| *t == TileType::Wall));
    assert!(map.revealed_tiles.iter().all(|b| !*b));
    assert!(map.visible_tiles.iter().all(|b| !*b));
}

#[test]
fn new_map_may_be_empty() {
    let map = TileMap::new(0, 7);
    assert_eq!(map.tiles.len(), 0);
}

#[test]
fn xy_idx_is_row_major() {
    let map = TileMap::new(80, 50);
    assert_eq!(map.xy_idx(0, 0), 0);
    assert_eq!(map.xy_idx(3, 2), 163);
    assert_eq!(map.xy_idx(79, 49), 3999);
}

#[test]
fn xy_idx_follows_the_width() {
    let map = TileMap::new(10, 4);
    assert_eq!(map.xy_idx(3, 2), 23);
    assert_eq!(map.xy_idx(9, 3), 39);
}

#[test]
fn apply_room_opens_the_interior() {
    let mut map = TileMap::new(80, 50);
    map.apply_room(&Rect::new(10, 10, 6, 6));
    let floors = floor_cells(&map);
    assert_eq!(floors.len(), 36);
    for y in 11..=16 {
        for x in 11..=16 {
            assert!(floors.contains(&(x, y)));
        }
    }
    assert_eq!(map.tiles[map.xy_idx(10, 10)], TileType::Wall);
    assert_eq!(map.tiles[map.xy_idx(10, 13)], TileType::Wall);
    assert_eq!(map.tiles[map.xy_idx(17, 13)], TileType::Wall);
    assert!(map.rooms.is_empty());
}

#[test]
fn apply_room_with_empty_interior_changes_nothing() {
    let mut map = TileMap::new(20, 20);
    map.apply_room(&Rect::new(5, 5, 0, 4));
    map.apply_room(&Rect::new(500, 500, -3, -3));
    assert!(floor_cells(&map).is_empty());
}

#[test]
fn horiz_tunnel_covers_both_ends() {
    let mut map = TileMap::new(80, 50);
    map.apply_horiz_tunnel(5, 9, 3);
    assert_eq!(floor_cells(&map), vec![(5, 3), (6, 3), (7, 3), (8, 3), (9, 3)]);
}

#[test]
fn horiz_tunnel_takes_ends_in_either_order() {
    let mut a = TileMap::new(80, 50);
    let mut b = TileMap::new(80, 50);
    a.apply_horiz_tunnel(5, 9, 3);
    b.apply_horiz_tunnel(9, 5, 3);
    assert_eq!(a.tiles, b.tiles);
}

#[test]
fn vert_tunnel_covers_both_ends() {
    let mut map = TileMap::new(80, 50);
    map.apply_vert_tunnel(7, 4, 12);
    assert_eq!(floor_cells(&map), vec![(12, 4), (12, 5), (12, 6), (12, 7)]);
}

#[test]
fn degenerate_tunnel_is_a_single_cell() {
    let mut map = TileMap::new(80, 50);
    map.apply_horiz_tunnel(6, 6, 6);
    assert_eq!(floor_cells(&map), vec![(6, 6)]);
    let before = map.tiles.clone();
    map.apply_horiz_tunnel(6, 6, 6);
    map.apply_vert_tunnel(6, 6, 6);
    assert_eq!(map.tiles, before);
}

#[test]
fn tunnel_opens_index_zero() {
    let mut map = TileMap::new(10, 10);
    map.apply_horiz_tunnel(0, 2, 0);
    assert_eq!(floor_cells(&map), vec![(0, 0), (1, 0), (2, 0)]);
    let mut other = TileMap::new(10, 10);
    other.apply_vert_tunnel(0, 2, 0);
    assert_eq!(floor_cells(&other), vec![(0, 0), (0, 1), (0, 2)]);
    let mut single = TileMap::new(10, 10);
    single.apply_horiz_tunnel(0, 0, 0);
    assert_eq!(floor_cells(&single), vec![(0, 0)]);
    let mut leaving = TileMap::new(10, 10);
    leaving.apply_horiz_tunnel(-3, 1, 0);
    assert_eq!(floor_cells(&leaving), vec![(0, 0), (1, 0)]);
}

#[test]
fn tunnel_is_checked_against_the_index_range() {
    let mut map = TileMap::new(10, 10);
    map.apply_vert_tunnel(8, 12, 4);
    assert_eq!(floor_cells(&map), vec![(4, 8), (4, 9)]);
    let mut low = TileMap::new(10, 10);
    low.apply_vert_tunnel(-3, 1, 4);
    assert_eq!(floor_cells(&low), vec![(4, 0), (4, 1)]);
    let mut far = TileMap::new(10, 10);
    far.apply_horiz_tunnel(-50, -40, -2);
    far.apply_horiz_tunnel(0, 5, 10);
    assert!(floor_cells(&far).is_empty());
}

#[test]
fn tunnel_past_the_row_end_runs_into_the_next_row() {
    let mut map = TileMap::new(10, 10);
    map.apply_horiz_tunnel(8, 11, 2);
    assert_eq!(floor_cells(&map), vec![(8, 2), (9, 2), (0, 3), (1, 3)]);
}

#[test]
fn carving_leaves_visibility_alone() {
    let mut map = TileMap::new(20, 20);
    map.revealed_tiles[5] = true;
    map.apply_room(&Rect::new(2, 2, 4, 4));
    map.apply_horiz_tunnel(1, 8, 9);
    map.apply_vert_tunnel(1, 8, 9);
    assert!(map.revealed_tiles[5]);
    assert_eq!(map.revealed_tiles.iter().filter(|b| **b).count(), 1);
    assert!(map.visible_tiles.iter().all(|b| !*b));
}
