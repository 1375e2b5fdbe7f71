//! The plain attributes an entity can carry, and the tile classification.

use vstd::prelude::*;

verus! {

/// Width of the playing field, and of the standard dungeon, in cells.
pub const GRID_WIDTH: i32 = 80;

/// Height of the playing field, and of the standard dungeon, in cells.
pub const GRID_HEIGHT: i32 = 50;

/// Marks the one entity whose view is projected onto the shared map.
#[derive(Clone, Copy, Debug, PartialEq, Eq, Structural)]
pub struct Player {}

/// Where an entity stands, in grid coordinates.
#[derive(Clone, Copy, Debug, PartialEq, Eq, Structural)]
pub struct Position {
    pub x: i32,
    pub y: i32,
}

/// A colour as red, green and blue bytes.
#[derive(Clone, Copy, Debug, PartialEq, Eq, Structural)]
pub struct Color {
    pub r: u8,
    pub g: u8,
    pub b: u8,
}

/// How an entity is shown: a code-page-437 glyph with its foreground and
/// background colours.
#[derive(Clone, Copy, Debug, PartialEq, Eq, Structural)]
pub struct Renderable {
    pub glyph: u8,
    pub fg: Color,
    pub bg: Color,
}

/// Classification of a single grid cell.
#[derive(Clone, Copy, Debug, PartialEq, Eq, Structural)]
pub enum TileType {
    Wall,
    Floor,
}

impl TileType {
    /// A cell that blocks sight.
    pub open spec fn opaque(self) -> bool {
        self == TileType::Wall
    }

    /// A cell that can be walked onto.
    pub open spec fn walkable(self) -> bool {
        self != TileType::Wall
    }

    /// Whether the cell blocks sight.
    pub fn is_opaque(self) -> (b: bool)
        ensures
            b == self.opaque(),
    {
        self == TileType::Wall
    }

    /// Whether the cell can be walked onto.
    pub fn is_walkable(self) -> (b: bool)
        ensures
            b == self.walkable(),
    {
        self != TileType::Wall
    }
}

/// Marks an entity that drifts across the field on its own.
#[derive(Clone, Copy, Debug, PartialEq, Eq, Structural)]
pub struct LeftMover {}

/// Moves every drifting entity one step per run, wrapping at the field's
/// edges.
pub struct LeftWalker {}

impl Position {
    /// The position one drift step later: one cell right and one cell up,
    /// re-entering from the opposite edge when it leaves the field.
    pub open spec fn drifted(self) -> Position {
        let x = self.x + 1;
        let y = self.y - 1;
        Position {
            x: if x < 0 {
                (GRID_WIDTH - 1) as i32
            } else if x > GRID_WIDTH - 1 {
                0
            } else {
                x as i32
            },
            y: if y < 0 {
                (GRID_HEIGHT - 1) as i32
            } else if y > GRID_HEIGHT - 1 {
                0
            } else {
                y as i32
            },
        }
    }

    /// Takes one drift step.
    pub fn drift(&mut self)
        requires
            old(self).x < i32::MAX,
            old(self).y > i32::MIN,
        ensures
            *final(self) == old(self).drifted(),
    {
        self.x = self.x + 1;
        self.y = self.y - 1;
        if self.x < 0 {
            self.x = GRID_WIDTH - 1;
        }
        if self.x > GRID_WIDTH - 1 {
            self.x = 0;
        }
        if self.y < 0 {
            self.y = GRID_HEIGHT - 1;
        }
        if self.y > GRID_HEIGHT - 1 {
            self.y = 0;
        }
    }
}

impl LeftWalker {
    /// Lets every position in `positions` take one drift step. `positions`
    /// holds the position of each entity that carries the drifting mark.
    pub fn run(&mut self, positions: &mut Vec<Position>)
        requires
            forall|i: int|
                0 <= i < old(positions)@.len() ==> (#[trigger] old(positions)@[i]).x < i32::MAX
                    && old(positions)@[i].y > i32::MIN,
        ensures
            final(positions)@.len() == old(positions)@.len(),
            forall|i: int|
                0 <= i < old(positions)@.len() ==> #[trigger] final(positions)@[i]
                    == old(positions)@[i].drifted(),
    {
        let n = positions.len();
        let mut i: usize = 0;
        while i < n
            invariant
                i <= n,
                positions@.len() == n,
                n == old(positions)@.len(),
                forall|j: int| 0 <= j < i ==> #[trigger] positions@[j] == old(positions)@[j].drifted(),
                forall|j: int| i <= j < n ==> #[trigger] positions@[j] == old(positions)@[j],
                forall|j: int|
                    0 <= j < n ==> (#[trigger] old(positions)@[j]).x < i32::MAX
                        && old(positions)@[j].y > i32::MIN,
            decreases n - i,
        {
            let mut p = positions[i];
            p.drift();
            positions.set(i, p);
            i = i + 1;
        }
    }
}

} // verus!
