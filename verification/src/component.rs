//! The viewshed: an entity's cached field of view.

use vstd::prelude::*;

verus! {

/// The largest sight radius a viewshed may have. Before it looks at the map
/// the field-of-view engine reserves a table of `(2 * range)^2` points, about
/// four million at this limit; a larger radius would ask for more memory
/// than a sight radius is worth, long before the `i32` arithmetic of the
/// engine gives out at 23170.
pub const MAX_VIEW_RANGE: i32 = 1024;

/// A cell of the grid, by column and row.
#[derive(Clone, Copy, Debug, PartialEq, Eq, Structural)]
pub struct Coord {
    pub x: i32,
    pub y: i32,
}

impl View for Coord {
    type V = (int, int);

    open spec fn view(&self) -> (int, int) {
        (self.x as int, self.y as int)
    }
}

/// The cells that the points of `points` name.
pub open spec fn cells(points: Seq<Coord>) -> Set<(int, int)> {
    Set::new(|c: (int, int)| exists|k: int| 0 <= k < points.len() && (#[trigger] points[k])@ == c)
}

/// What an entity sees: the cells in view when the viewshed was last
/// recomputed, the sight radius, and whether the cells are stale.
#[derive(Debug)]
pub struct Viewshed {
    pub visible_tiles: Vec<Coord>,
    pub range: i32,
    pub dirty: bool,
}

impl Viewshed {
    /// The sight radius is one the field-of-view engine takes.
    pub open spec fn wf(&self) -> bool {
        self.range <= MAX_VIEW_RANGE
    }

    /// A viewshed of the given radius that has seen nothing yet and is due
    /// for its first computation.
    pub fn new(range: i32) -> (v: Viewshed)
        requires
            range <= MAX_VIEW_RANGE,
        ensures
            v.wf(),
            v.range == range,
            v.dirty,
            v.visible_tiles@.len() == 0,
    {
        Viewshed { visible_tiles: Vec::new(), range, dirty: true }
    }
}

} // verus!
