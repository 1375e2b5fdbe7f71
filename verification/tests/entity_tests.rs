use mortal_wombat::entity::{LeftWalker, Position, TileType, GRID_HEIGHT, GRID_WIDTH};

#[test]
fn tile_predicates() {
    assert!(TileType::Wall.is_opaque());
    assert!(!TileType::Floor.is_opaque());
    assert!(TileType::Floor.is_walkable());
    assert!(!TileType::Wall.is_walkable());
}

#[test]
fn grid_constants() {
    assert_eq!(GRID_WIDTH, 80);
    assert_eq!(GRID_HEIGHT, 50);
}

#[test]
fn drift_moves_right_and_up() {
    let mut p = Position { x: 10, y: 10 };
    p.drift();
    assert_eq!(p, Position { x: 11, y: 9 });
}

#[test]
fn drift_wraps_at_the_edges() {
    let mut p = Position { x: 79, y: 0 };
    p.drift();
    assert_eq!(p, Position { x: 0, y: 49 });
    let mut q = Position { x: -5, y: 60 };
    q.drift();
    assert_eq!(q, Position { x: 79, y: 0 });
}

#[test]
fn left_walker_steps_every_position() {
    let mut positions = vec![
        Position { x: 0, y: 0 },
        Position { x: 40, y: 25 },
        Position { x: 79, y: 49 },
    ];
    let mut walker = LeftWalker {};
    walker.run(&mut positions);
    assert_eq!(
        positions,
        vec![
            Position { x: 1, y: 49 },
            Position { x: 41, y: 24 },
            Position { x: 0, y: 48 },
        ]
    );
}

#[test]
fn left_walker_on_nothing() {
    let mut positions: Vec<Position> = Vec::new();
    let mut walker = LeftWalker {};
    walker.run(&mut positions);
    assert!(positions.is_empty());
}
