//! The field-of-view engine: which cells can be seen from a cell of the map.
//!
//! Occlusion is decided by the shadow-casting of `rltk::field_of_view`, which
//! reads the map through `rltk`'s map traits. What it returns is then cut to
//! the grid and to the Euclidean sight radius.

use vstd::prelude::*;
use crate::component::{cells, Coord, MAX_VIEW_RANGE};
use crate::grid::cell_in_grid;
use crate::map::TileMap;

verus! {

/// `rltk`'s point: two public `i32` fields, `x` and `y`.
#[verifier::external_type_specification]
pub struct ExPoint(rltk::Point);

/// The cells that `rltk::field_of_view` reports from `(x, y)` with the given
/// range, on a grid of the given size whose cell `i` blocks sight where
/// `opaque[i]`.
pub uninterp spec fn shadowcast(
    opaque: Seq<bool>,
    width: int,
    height: int,
    x: int,
    y: int,
    range: int,
) -> Set<(int, int)>;

/// Cell `c` is no farther than `range` from `origin`, by Euclidean distance.
pub open spec fn within_radius(origin: (int, int), c: (int, int), range: int) -> bool {
    range >= 0 && (c.0 - origin.0) * (c.0 - origin.0) + (c.1 - origin.1) * (c.1 - origin.1)
        <= range * range
}

/// Cell `c` lies in the grid and within `range` of `origin`.
pub open spec fn in_view(width: int, height: int, origin: (int, int), range: int, c: (int, int)) -> bool {
    cell_in_grid(width, height, c.0, c.1) && within_radius(origin, c, range)
}

/// The field of view from `origin`: the cells that the shadow-casting
/// reports, as far as they lie in the grid and within `range` of `origin`.
pub open spec fn field_of_view(
    opaque: Seq<bool>,
    width: int,
    height: int,
    origin: (int, int),
    range: int,
) -> Set<(int, int)> {
    Set::new(
        |c: (int, int)|
            shadowcast(opaque, width, height, origin.0, origin.1, range).contains(c) && in_view(
                width,
                height,
                origin,
                range,
                c,
            ),
    )
}

impl TileMap {
    /// For each tile, whether it blocks sight.
    pub open spec fn opacity(&self) -> Seq<bool> {
        Seq::new(self.tiles@.len(), |i: int| self.tiles@[i].opaque())
    }

    /// The cells in view from `origin` with sight radius `range`.
    pub open spec fn sight(&self, origin: (int, int), range: int) -> Set<(int, int)> {
        field_of_view(self.opacity(), self.width as int, self.height as int, origin, range)
    }
}

impl rltk::BaseMap for TileMap {
    /// Whether the tile at `idx` blocks sight: a wall does, floor does not.
    /// An index outside the map is a fault of the caller.
    fn is_opaque(&self, idx: usize) -> (b: bool)
        requires
            idx < self.tiles@.len(),
        ensures
            b == self.tiles@[idx as int].opaque(),
            b == self.opacity()[idx as int],
    {
        self.tiles[idx].is_opaque()
    }
}

impl rltk::Algorithm2D for TileMap {
    /// The index of the cell at `pt`, by the map's one index function; zero
    /// for a point outside the map.
    fn point2d_to_index(&self, pt: rltk::Point) -> (idx: usize)
        ensures
            self.wf() && self.has_cell(pt.x as int, pt.y as int) ==> idx == self.index_of(
                pt.x as int,
                pt.y as int,
            ),
    {
        proof {
            if self.wf() && self.has_cell(pt.x as int, pt.y as int) {
                crate::grid::lemma_cell_index(
                    self.width as int,
                    self.height as int,
                    pt.x as int,
                    pt.y as int,
                );
            }
        }
        if pt.x >= 0 && pt.x < self.width && pt.y >= 0 && pt.y < self.height {
            assert(0 <= (pt.y as int) * (self.width as int) <= 0x4000_0000_0000_0000)
                by (nonlinear_arith)
                requires
                    0 <= pt.y < 0x8000_0000,
                    0 <= self.width < 0x8000_0000,
            ;
            let wide: u64 = (pt.y as u64) * (self.width as u64) + (pt.x as u64);
            if wide < self.tiles.len() as u64 {
                wide as usize
            } else {
                0
            }
        } else {
            0
        }
    }

    /// The cell that index `idx` stands for; the origin on a map without
    /// columns.
    fn index_to_point2d(&self, idx: usize) -> (pt: rltk::Point)
        ensures
            self.wf() && idx < self.tiles@.len() ==> pt.x == idx as int % self.width as int && pt.y
                == idx as int / self.width as int,
    {
        if self.width > 0 {
            let w: u64 = self.width as u64;
            let col: u64 = (idx as u64) % w;
            let row: u64 = (idx as u64) / w;
            proof {
                if self.wf() && idx < self.tiles@.len() {
                    crate::grid::lemma_index_cell(
                        self.width as int,
                        self.height as int,
                        idx as int,
                    );
                }
            }
            if row <= 0x7fff_ffff {
                rltk::Point { x: col as i32, y: row as i32 }
            } else {
                rltk::Point { x: 0, y: 0 }
            }
        } else {
            rltk::Point { x: 0, y: 0 }
        }
    }

    /// The map's width and height.
    fn dimensions(&self) -> (size: rltk::Point)
        ensures
            size.x == self.width,
            size.y == self.height,
    {
        rltk::Point { x: self.width, y: self.height }
    }

    /// Whether `pos` is a cell of the map.
    fn in_bounds(&self, pos: rltk::Point) -> (b: bool)
        ensures
            b == self.has_cell(pos.x as int, pos.y as int),
    {
        pos.x >= 0 && pos.x < self.width && pos.y >= 0 && pos.y < self.height
    }
}

/// `rltk::field_of_view` from `(x, y)` on `map`. The result is named, not
/// described: it is `shadowcast` of the map's opacity and size, the origin
/// and the range. The outside function collects the points in a hash set, so
/// none comes twice and their order is left open; it puts the origin in
/// first and at the end keeps every point that the map counts as in bounds,
/// so an origin on the map is among them. The outside function squares twice
/// the range in `i32`, reserves that many points before it starts, and adds
/// offsets of up to the range and two to the origin's coordinates: the limits
/// on the range and on the map's sides keep all of that in range. It asks
/// for the opacity of a cell only with the index that the map gave for a
/// point the map counts as in bounds, so the lookup's index is always one of
/// the map's.
#[verifier::external_body]
pub(crate) fn cast_shadows(map: &TileMap, x: i32, y: i32, range: i32) -> (seen: Vec<Coord>)
    requires
        map.wf(),
        map.has_cell(x as int, y as int),
        0 <= range <= MAX_VIEW_RANGE,
    ensures
        seen@.no_duplicates(),
        cells(seen@) == shadowcast(
            map.opacity(),
            map.width as int,
            map.height as int,
            x as int,
            y as int,
            range as int,
        ),
        seen@.contains(Coord { x, y }),
{
    rltk::field_of_view(rltk::Point { x, y }, range, map)
        .into_iter()
        .map(|p| Coord { x: p.x, y: p.y })
        .collect()
}

/// The test that cuts a shadow-casting result to the grid and the radius.
pub open spec fn keeps(width: int, height: int, origin: (int, int), range: int) -> spec_fn(
    Coord,
) -> bool {
    |p: Coord| in_view(width, height, origin, range, p@)
}

/// What a filtered sequence holds: the items of the sequence that pass the
/// test, none twice where the sequence had none twice.
pub proof fn lemma_filter_members<A>(s: Seq<A>, pred: spec_fn(A) -> bool)
    ensures
        forall|a: A| #[trigger] s.filter(pred).contains(a) <==> s.contains(a) && pred(a),
        s.no_duplicates() ==> s.filter(pred).no_duplicates(),
    decreases s.len(),
{
    reveal(Seq::filter);
    if s.len() > 0 {
        let front = s.drop_last();
        let last = s.last();
        lemma_filter_members(front, pred);
        let sub = front.filter(pred);
        assert forall|a: A| #[trigger] s.filter(pred).contains(a) <==> s.contains(a) && pred(
            a,
        ) by {
            if s.filter(pred).contains(a) {
                let k = choose|k: int| 0 <= k < s.filter(pred).len() && s.filter(pred)[k] == a;
                if pred(last) && k == sub.len() {
                    assert(s[s.len() - 1] == a);
                } else {
                    assert(sub[k] == a);
                    assert(sub.contains(a));
                    let j = choose|j: int| 0 <= j < front.len() && front[j] == a;
                    assert(s[j] == a);
                }
            }
            if s.contains(a) && pred(a) {
                let j = choose|j: int| 0 <= j < s.len() && s[j] == a;
                if j == s.len() - 1 {
                    assert(s.filter(pred)[sub.len() as int] == a);
                } else {
                    assert(front[j] == a);
                    assert(front.contains(a));
                    assert(sub.contains(a));
                    let k = choose|k: int| 0 <= k < sub.len() && sub[k] == a;
                    assert(s.filter(pred)[k] == a);
                }
            }
        }
        if s.no_duplicates() {
            assert forall|i: int, j: int| 0 <= i < front.len() && 0 <= j < front.len() && i
                != j implies front[i] != front[j] by {
                assert(s[i] != s[j]);
            }
            if pred(last) {
                if sub.contains(last) {
                    let j = choose|j: int| 0 <= j < front.len() && front[j] == last;
                    assert(s[j] == s[s.len() - 1]);
                }
                assert forall|i: int, j: int|
                    0 <= i < s.filter(pred).len() && 0 <= j < s.filter(pred).len() && i
                        != j implies s.filter(pred)[i] != s.filter(pred)[j] by {
                    if i < sub.len() && j < sub.len() {
                        assert(sub[i] != sub[j]);
                    } else if i < sub.len() {
                        assert(sub.contains(sub[i]));
                    } else {
                        assert(sub.contains(sub[j]));
                    }
                }
            }
        }
    }
}

/// Cuts the points of `raw` to those that lie in a `width` by `height` grid
/// and no farther than `range` from `origin`, keeping their order.
pub fn clip_to_view(raw: &Vec<Coord>, width: i32, height: i32, origin: Coord, range: i32) -> (seen:
    Vec<Coord>)
    ensures
        seen@ == raw@.filter(keeps(width as int, height as int, origin@, range as int)),
        forall|p: Coord|
            #[trigger] seen@.contains(p) <==> raw@.contains(p) && in_view(
                width as int,
                height as int,
                origin@,
                range as int,
                p@,
            ),
        raw@.no_duplicates() ==> seen@.no_duplicates(),
{
    let ghost pred = keeps(width as int, height as int, origin@, range as int);
    let mut seen: Vec<Coord> = Vec::new();
    let mut i: usize = 0;
    proof {
        reveal(Seq::filter);
        assert(raw@.take(0) =~= Seq::<Coord>::empty());
    }
    while i < raw.len()
        invariant
            i <= raw@.len(),
            pred == keeps(width as int, height as int, origin@, range as int),
            seen@ == raw@.take(i as int).filter(pred),
        decreases raw@.len() - i,
    {
        let p = raw[i];
        let keep = in_grid(width, height, p) && in_radius(origin, p, range);
        proof {
            reveal(Seq::filter);
            assert(raw@.take(i + 1).drop_last() =~= raw@.take(i as int));
            assert(raw@.take(i + 1).last() == p);
            assert(keep == pred(p));
        }
        if keep {
            seen.push(p);
        }
        i = i + 1;
    }
    proof {
        assert(raw@.take(raw@.len() as int) =~= raw@);
        lemma_filter_members(raw@, pred);
    }
    seen
}

/// Whether `p` is a cell of a `width` by `height` grid.
pub fn in_grid(width: i32, height: i32, p: Coord) -> (b: bool)
    ensures
        b == cell_in_grid(width as int, height as int, p.x as int, p.y as int),
{
    p.x >= 0 && p.x < width && p.y >= 0 && p.y < height
}

/// Whether `p` is no farther than `range` from `origin`, by Euclidean
/// distance.
pub fn in_radius(origin: Coord, p: Coord, range: i32) -> (b: bool)
    ensures
        b == within_radius(origin@, p@, range as int),
{
    if range < 0 {
        return false;
    }
    let dx: i128 = p.x as i128 - origin.x as i128;
    let dy: i128 = p.y as i128 - origin.y as i128;
    let r: i128 = range as i128;
    assert(0 <= dx * dx <= 0x1_0000_0000_0000_0000) by (nonlinear_arith)
        requires
            -0x1_0000_0000 <= dx <= 0x1_0000_0000,
    ;
    assert(0 <= dy * dy <= 0x1_0000_0000_0000_0000) by (nonlinear_arith)
        requires
            -0x1_0000_0000 <= dy <= 0x1_0000_0000,
    ;
    assert(0 <= r * r <= 0x1_0000_0000_0000_0000) by (nonlinear_arith)
        requires
            0 <= r <= 0x1_0000_0000,
    ;
    dx * dx + dy * dy <= r * r
}

/// The field of view from `origin` on `map` with sight radius `range`: the
/// cells that the shadow-casting reports, cut to the map and to the radius.
/// Each cell comes once; their order is left open. With a radius of zero or
/// more the origin is among them; with a negative radius nothing is seen.
pub fn compute_fov(map: &TileMap, origin: Coord, range: i32) -> (seen: Vec<Coord>)
    requires
        map.wf(),
        map.has_cell(origin.x as int, origin.y as int),
        range <= MAX_VIEW_RANGE,
    ensures
        seen@.no_duplicates(),
        cells(seen@) == map.sight(origin@, range as int),
        range >= 0 ==> seen@.contains(origin),
        range < 0 ==> seen@.len() == 0,
        forall|k: int|
            0 <= k < seen@.len() ==> map.has_cell(
                (#[trigger] seen@[k]).x as int,
                seen@[k].y as int,
            ) && within_radius(origin@, seen@[k]@, range as int),
{
    if range < 0 {
        let seen: Vec<Coord> = Vec::new();
        assert(cells(seen@) =~= map.sight(origin@, range as int));
        return seen;
    }
    let raw = cast_shadows(map, origin.x, origin.y, range);
    let seen = clip_to_view(&raw, map.width, map.height, origin, range);
    proof {
        let w = map.width as int;
        let h = map.height as int;
        assert(within_radius(origin@, origin@, range as int)) by (nonlinear_arith)
            requires
                range >= 0,
        ;
        assert forall|c: (int, int)| cells(seen@).contains(c) <==> map.sight(
            origin@,
            range as int,
        ).contains(c) by {
            if cells(seen@).contains(c) {
                let k = choose|k: int| 0 <= k < seen@.len() && (#[trigger] seen@[k])@ == c;
                assert(seen@.contains(seen@[k]));
                let j = choose|j: int| 0 <= j < raw@.len() && raw@[j] == seen@[k];
                assert(raw@[j]@ == c);
                assert(cells(raw@).contains(c));
            }
            if map.sight(origin@, range as int).contains(c) {
                assert(cells(raw@).contains(c));
                let j = choose|j: int| 0 <= j < raw@.len() && (#[trigger] raw@[j])@ == c;
                assert(raw@.contains(raw@[j]));
                assert(seen@.contains(raw@[j]));
                let k = choose|k: int| 0 <= k < seen@.len() && seen@[k] == raw@[j];
                assert(seen@[k]@ == c);
            }
        }
        assert(cells(seen@) =~= map.sight(origin@, range as int));
        assert forall|k: int| 0 <= k < seen@.len() implies map.has_cell(
            (#[trigger] seen@[k]).x as int,
            seen@[k].y as int,
        ) && within_radius(origin@, seen@[k]@, range as int) by {
            assert(seen@.contains(seen@[k]));
        }
    }
    seen
}

} // verus!
