//! The tile grid: a square map of terrain/elevation cells with
//! bounds-checked access, neighbor queries, a slope-limited elevation
//! cascade, area flattening over selections, and the byte encoding of
//! the whole grid.
//!
//! The central invariant of the terrain engine: after any sequence of
//! `elevate` / `flatten_to` / `flatten` calls on a smooth grid, every
//! pair of grid-adjacent in-range tiles differs in elevation by at
//! most one.

use vstd::prelude::*;

use crate::bytes::{le4, push_u32_le};
use crate::selection::{Coordinate, Selection, sel_coords, sel_fits};

verus! {

/// One cell of the map grid: a terrain code and an elevation level.
#[derive(Clone, Copy, Debug, PartialEq, Eq, Structural)]
pub struct MapTile {
    pub terrain: u8,
    pub elevation: u8,
}

impl MapTile {
    pub fn new(terrain: u8, elevation: u8) -> (t: MapTile)
        ensures
            t == (MapTile { terrain, elevation }),
    {
        MapTile { terrain, elevation }
    }

    /// The same tile with the terrain code replaced.
    pub fn with_terrain(&self, terrain: u8) -> (t: MapTile)
        ensures
            t == (MapTile { terrain, elevation: self.elevation }),
    {
        MapTile { terrain, elevation: self.elevation }
    }

    /// The same tile with the elevation replaced.
    pub fn with_elevation(&self, elevation: u8) -> (t: MapTile)
        ensures
            t == (MapTile { terrain: self.terrain, elevation }),
    {
        MapTile { terrain: self.terrain, elevation }
    }

    /// The fixed three-byte record of one tile: terrain, elevation,
    /// and a reserved zero byte.
    pub fn to_bytes(&self) -> (r: [u8; 3])
        ensures
            r@ == tile_bytes(*self),
    {
        let r = [self.terrain, self.elevation, 0u8];
        proof {
            assert(r@ =~= tile_bytes(*self));
        }
        r
    }
}

/// The three bytes a tile encodes as.
pub open spec fn tile_bytes(t: MapTile) -> Seq<u8> {
    seq![t.terrain, t.elevation, 0u8]
}

/// The mathematical model of a map: a side length and the flat tile
/// sequence, addressed by `index = size * y + x`.
#[verifier::ext_equal]
pub struct GridView {
    pub size: int,
    pub tiles: Seq<MapTile>,
}

/// Grid-adjacency of two cells: distinct, and within one step in both
/// axes (the eight surrounding cells).
pub open spec fn adj(x1: int, y1: int, x2: int, y2: int) -> bool {
    &&& -1 <= x1 - x2 <= 1
    &&& -1 <= y1 - y2 <= 1
    &&& !(x1 == x2 && y1 == y2)
}

/// The absolute value of an integer.
pub open spec fn iabs(a: int) -> int {
    if a >= 0 {
        a
    } else {
        -a
    }
}

/// Chebyshev distance: the number of grid steps (king moves) between
/// two cells.
pub open spec fn cheb(x1: int, y1: int, x2: int, y2: int) -> int {
    if iabs(x1 - x2) >= iabs(y1 - y2) {
        iabs(x1 - x2)
    } else {
        iabs(y1 - y2)
    }
}

/// The larger of two integers.
pub open spec fn imax(a: int, b: int) -> int {
    if a >= b {
        a
    } else {
        b
    }
}

/// The smaller of two integers.
pub open spec fn imin(a: int, b: int) -> int {
    if a <= b {
        a
    } else {
        b
    }
}

impl GridView {
    /// The grid holds exactly `size * size` tiles.
    pub open spec fn wf(self) -> bool {
        self.tiles.len() == self.size * self.size
    }

    pub open spec fn in_range(self, x: int, y: int) -> bool {
        0 <= x < self.size && 0 <= y < self.size
    }

    pub open spec fn idx(self, x: int, y: int) -> int {
        self.size * y + x
    }

    pub open spec fn tile(self, x: int, y: int) -> MapTile {
        self.tiles[self.idx(x, y)]
    }

    pub open spec fn elev(self, x: int, y: int) -> int {
        self.tile(x, y).elevation as int
    }

    /// Every pair of adjacent in-range tiles differs in elevation by
    /// at most one.
    pub open spec fn smooth(self) -> bool {
        forall|x1: int, y1: int, x2: int, y2: int|
            self.in_range(x1, y1) && self.in_range(x2, y2) && adj(x1, y1, x2, y2)
                ==> #[trigger] self.elev(x1, y1) - #[trigger] self.elev(x2, y2) <= 1
    }

    /// Like `smooth`, but pairs with the given cell on either side are
    /// exempt: the state right after one cell was overwritten.
    pub open spec fn smooth_except(self, x: int, y: int) -> bool {
        forall|x1: int, y1: int, x2: int, y2: int|
            self.in_range(x1, y1) && self.in_range(x2, y2) && adj(x1, y1, x2, y2) && !(x1 == x
                && y1 == y) && !(x2 == x && y2 == y) ==> #[trigger] self.elev(x1, y1)
                - #[trigger] self.elev(x2, y2) <= 1
    }

    /// The grid with one tile's elevation replaced.
    pub open spec fn with_elev(self, x: int, y: int, e: u8) -> GridView {
        GridView {
            size: self.size,
            tiles: self.tiles.update(self.idx(x, y), self.tile(x, y).with_elevation_spec(e)),
        }
    }

    /// Two grids of equal shape whose terrain codes agree everywhere;
    /// the elevation-only operations relate old and new states so.
    pub open spec fn same_shape(self, other: GridView) -> bool {
        &&& other.size == self.size
        &&& other.tiles.len() == self.tiles.len()
        &&& forall|i: int|
            0 <= i < self.tiles.len() ==> #[trigger] other.tiles[i].terrain == self.tiles[i].terrain
    }
}

impl MapTile {
    pub open spec fn with_elevation_spec(self, e: u8) -> MapTile {
        MapTile { terrain: self.terrain, elevation: e }
    }
}

/// The square map: a side length fixed at construction and the flat
/// tile storage, addressed by `index = size * y + x`.
pub struct TileMap {
    pub size: u32,
    pub tiles: Vec<MapTile>,
}

impl View for TileMap {
    type V = GridView;

    open spec fn view(&self) -> GridView {
        GridView { size: self.size as int, tiles: self.tiles@ }
    }
}

impl TileMap {
    /// Allocates a `size` by `size` grid, every tile starting as
    /// terrain zero at elevation zero.
    pub fn new(size: u32) -> (m: TileMap)
        requires
            size * size <= usize::MAX,
        ensures
            m@.wf(),
            m@.size == size,
            m@.tiles == Seq::new((size * size) as nat, |i: int| MapTile { terrain: 0, elevation: 0 }),
    {
        let n: usize = (size as usize) * (size as usize);
        let mut tiles: Vec<MapTile> = Vec::new();
        let mut i: usize = 0;
        while i < n
            invariant
                i <= n,
                tiles@ == Seq::new(i as nat, |k: int| MapTile { terrain: 0, elevation: 0 }),
            decreases n - i,
        {
            tiles.push(MapTile { terrain: 0, elevation: 0 });
            assert(tiles@ =~= Seq::new((i + 1) as nat, |k: int| MapTile { terrain: 0, elevation: 0 }));
            i = i + 1;
        }
        TileMap { size, tiles }
    }

    /// The flat index of an in-range coordinate.
    fn index_of(&self, x: u32, y: u32) -> (i: usize)
        requires
            self@.wf(),
            self@.in_range(x as int, y as int),
        ensures
            i == self@.idx(x as int, y as int),
            i < self.tiles.len(),
    {
        let n = self.tiles.len();
        proof {
            let sz = self.size as int;
            let xi = x as int;
            let yi = y as int;
            assert(sz * yi + xi < sz * sz) by (nonlinear_arith)
                requires
                    0 <= xi < sz,
                    0 <= yi < sz,
            ;
            assert(n == sz * sz);
        }
        (self.size as usize) * (y as usize) + (x as usize)
    }

    /// Bounds-checked read: the tile at `(x, y)`, or nothing if the
    /// coordinate lies outside `[0, size)` in either axis.
    pub fn tile_at(&self, x: u32, y: u32) -> (r: Option<MapTile>)
        requires
            self@.wf(),
        ensures
            self@.in_range(x as int, y as int) ==> r == Some(self@.tile(x as int, y as int)),
            !self@.in_range(x as int, y as int) ==> r is None,
    {
        if x < self.size && y < self.size {
            let i = self.index_of(x, y);
            Some(self.tiles[i])
        } else {
            None
        }
    }

    /// Bounds-checked write: replaces the tile at `(x, y)`, silently
    /// ignored when the coordinate is out of range.
    pub fn put_tile(&mut self, x: u32, y: u32, tile: MapTile)
        requires
            old(self)@.wf(),
        ensures
            final(self)@.wf(),
            final(self)@.size == old(self)@.size,
            old(self)@.in_range(x as int, y as int) ==> final(self)@.tiles == old(self)@.tiles.update(
                old(self)@.idx(x as int, y as int),
                tile,
            ),
            !old(self)@.in_range(x as int, y as int) ==> final(self)@ == old(self)@,
    {
        if x < self.size && y < self.size {
            let i = self.index_of(x, y);
            self.tiles[i] = tile;
        }
    }

    /// The elevation at `(x, y)`, or nothing when out of range.
    pub fn elevation_at(&self, x: u32, y: u32) -> (r: Option<u8>)
        requires
            self@.wf(),
        ensures
            self@.in_range(x as int, y as int) ==> r == Some(
                self@.tile(x as int, y as int).elevation,
            ),
            !self@.in_range(x as int, y as int) ==> r is None,
    {
        match self.tile_at(x, y) {
            Some(tile) => Some(tile.elevation),
            None => None,
        }
    }

    /// Sets the elevation at `(x, y)` without any cascade; out-of-range
    /// coordinates are ignored.
    pub fn elevate_raw(&mut self, x: u32, y: u32, elevation: u8)
        requires
            old(self)@.wf(),
        ensures
            final(self)@.wf(),
            old(self)@.in_range(x as int, y as int) ==> final(self)@ == old(self)@.with_elev(
                x as int,
                y as int,
                elevation,
            ),
            !old(self)@.in_range(x as int, y as int) ==> final(self)@ == old(self)@,
    {
        match self.tile_at(x, y) {
            Some(tile) => {
                let t = tile.with_elevation(elevation);
                self.put_tile(x, y, t);
                assert(final(self)@ =~= old(self)@.with_elev(x as int, y as int, elevation));
            },
            None => (),
        }
    }
}

/// A candidate neighbor cell: a one-element sequence when in range,
/// else empty.
pub open spec fn cand(size: int, x: int, y: int) -> Seq<(u32, u32)> {
    if 0 <= x < size && 0 <= y < size {
        seq![(x as u32, y as u32)]
    } else {
        Seq::empty()
    }
}

/// The in-range neighbors of `(x, y)`, in the fixed enumeration order
/// of the eight surrounding cells.
pub open spec fn neighbours_of(size: int, x: int, y: int) -> Seq<(u32, u32)> {
    cand(size, x - 1, y - 1) + cand(size, x - 1, y) + cand(size, x - 1, y + 1) + cand(
        size,
        x,
        y - 1,
    ) + cand(size, x, y + 1) + cand(size, x + 1, y - 1) + cand(size, x + 1, y) + cand(
        size,
        x + 1,
        y + 1,
    )
}

/// Every listed neighbor is in range and adjacent to `(x, y)`.
pub proof fn lemma_neighbours_sound(size: int, x: int, y: int)
    requires
        0 <= size <= u32::MAX,
        0 <= x <= u32::MAX,
        0 <= y <= u32::MAX,
    ensures
        forall|k: int|
            0 <= k < neighbours_of(size, x, y).len() ==> {
                let c = #[trigger] neighbours_of(size, x, y)[k];
                &&& 0 <= c.0 < size
                &&& 0 <= c.1 < size
                &&& adj(c.0 as int, c.1 as int, x, y)
            },
{
    let s = neighbours_of(size, x, y);
    let p1 = cand(size, x - 1, y - 1);
    let p2 = p1 + cand(size, x - 1, y);
    let p3 = p2 + cand(size, x - 1, y + 1);
    let p4 = p3 + cand(size, x, y - 1);
    let p5 = p4 + cand(size, x, y + 1);
    let p6 = p5 + cand(size, x + 1, y - 1);
    let p7 = p6 + cand(size, x + 1, y);
    assert forall|k: int| 0 <= k < s.len() implies {
        let c = #[trigger] s[k];
        &&& 0 <= c.0 < size
        &&& 0 <= c.1 < size
        &&& adj(c.0 as int, c.1 as int, x, y)
    } by {
        if k < p1.len() {
            assert(s[k] == cand(size, x - 1, y - 1)[0]);
        } else if k < p2.len() {
            assert(s[k] == cand(size, x - 1, y)[0]);
        } else if k < p3.len() {
            assert(s[k] == cand(size, x - 1, y + 1)[0]);
        } else if k < p4.len() {
            assert(s[k] == cand(size, x, y - 1)[0]);
        } else if k < p5.len() {
            assert(s[k] == cand(size, x, y + 1)[0]);
        } else if k < p6.len() {
            assert(s[k] == cand(size, x + 1, y - 1)[0]);
        } else if k < p7.len() {
            assert(s[k] == cand(size, x + 1, y)[0]);
        } else {
            assert(s[k] == cand(size, x + 1, y + 1)[0]);
        }
    }
}

/// Every in-range cell adjacent to `(x, y)` is listed.
pub proof fn lemma_neighbours_complete(size: int, x: int, y: int, nx: int, ny: int)
    requires
        0 <= nx < size,
        0 <= ny < size,
        adj(nx, ny, x, y),
    ensures
        neighbours_of(size, x, y).contains((nx as u32, ny as u32)),
{
    let s = neighbours_of(size, x, y);
    if nx == x - 1 && ny == y - 1 {
        assert(s[0] == (nx as u32, ny as u32));
    } else {
        let c = (nx as u32, ny as u32);
        assert(exists|k: int| 0 <= k < s.len() && s[k] == c) by {
            if nx == x - 1 && ny == y {
                assert(s[cand(size, x - 1, y - 1).len() as int] == c);
            } else if nx == x - 1 && ny == y + 1 {
                assert(s[(cand(size, x - 1, y - 1) + cand(size, x - 1, y)).len() as int] == c);
            } else {
                let p3 = cand(size, x - 1, y - 1) + cand(size, x - 1, y) + cand(size, x - 1, y + 1);
                if nx == x && ny == y - 1 {
                    assert(s[p3.len() as int] == c);
                } else if nx == x && ny == y + 1 {
                    assert(s[(p3 + cand(size, x, y - 1)).len() as int] == c);
                } else {
                    let p5 = p3 + cand(size, x, y - 1) + cand(size, x, y + 1);
                    if nx == x + 1 && ny == y - 1 {
                        assert(s[p5.len() as int] == c);
                    } else if nx == x + 1 && ny == y {
                        assert(s[(p5 + cand(size, x + 1, y - 1)).len() as int] == c);
                    } else {
                        assert(nx == x + 1 && ny == y + 1);
                        assert(s[(p5 + cand(size, x + 1, y - 1) + cand(size, x + 1, y)).len() as int]
                            == c);
                    }
                }
            }
        }
    }
}

impl TileMap {
    /// The up-to-eight grid-adjacent cells of `(x, y)` that fall
    /// inside `[0, size)` in both axes.
    pub fn tile_neighbours(&self, x: u32, y: u32) -> (r: Vec<(u32, u32)>)
        ensures
            r@ == neighbours_of(self@.size, x as int, y as int),
    {
        let size = self.size;
        let mut r: Vec<(u32, u32)> = Vec::new();
        if x >= 1 {
            if y >= 1 && x - 1 < size && y - 1 < size {
                r.push((x - 1, y - 1));
            }
            if x - 1 < size && y < size {
                r.push((x - 1, y));
            }
            if x - 1 < size && y < u32::MAX && y + 1 < size {
                r.push((x - 1, y + 1));
            }
        }
        if y >= 1 && x < size && y - 1 < size {
            r.push((x, y - 1));
        }
        if x < size && y < u32::MAX && y + 1 < size {
            r.push((x, y + 1));
        }
        if x < u32::MAX && x + 1 < size {
            if y >= 1 && y - 1 < size {
                r.push((x + 1, y - 1));
            }
            if y < size {
                r.push((x + 1, y));
            }
            if y < u32::MAX && y + 1 < size {
                r.push((x + 1, y + 1));
            }
        }
        proof {
            assert(r@ =~= neighbours_of(self@.size, x as int, y as int));
        }
        r
    }
}

} // verus!

verus! {

/// The sum of all elevations in a tile sequence; the raise wave
/// strictly increases it and the lower wave strictly decreases it,
/// which bounds the cascade's work.
pub open spec fn sum_elev(s: Seq<MapTile>) -> int
    decreases s.len(),
{
    if s.len() == 0 {
        0
    } else {
        sum_elev(s.drop_last()) + s.last().elevation
    }
}

proof fn lemma_sum_elev_bounds(s: Seq<MapTile>)
    ensures
        0 <= sum_elev(s) <= 255 * s.len(),
    decreases s.len(),
{
    if s.len() > 0 {
        lemma_sum_elev_bounds(s.drop_last());
    }
}

proof fn lemma_sum_elev_update(s: Seq<MapTile>, i: int, t: MapTile)
    requires
        0 <= i < s.len(),
    ensures
        sum_elev(s.update(i, t)) == sum_elev(s) + t.elevation - s[i].elevation,
    decreases s.len(),
{
    let u = s.update(i, t);
    if i == s.len() - 1 {
        assert(u.drop_last() =~= s.drop_last());
    } else {
        assert(u.drop_last() =~= s.drop_last().update(i, t));
        assert(u.last() == s.last());
        lemma_sum_elev_update(s.drop_last(), i, t);
    }
}

/// Distinct in-range coordinates have distinct flat indices.
proof fn lemma_idx_inj(g: GridView, x1: int, y1: int, x2: int, y2: int)
    requires
        g.in_range(x1, y1),
        g.in_range(x2, y2),
        g.idx(x1, y1) == g.idx(x2, y2),
    ensures
        x1 == x2 && y1 == y2,
{
    assert(y1 == y2 && x1 == x2) by (nonlinear_arith)
        requires
            0 <= x1 < g.size,
            0 <= x2 < g.size,
            0 <= y1,
            0 <= y2,
            g.size * y1 + x1 == g.size * y2 + x2,
    ;
}

/// Replacing one elevation changes exactly that cell.
proof fn lemma_with_elev(g: GridView, x: int, y: int, e: u8)
    requires
        g.wf(),
        g.in_range(x, y),
    ensures
        g.with_elev(x, y, e).wf(),
        g.same_shape(g.with_elev(x, y, e)),
        g.with_elev(x, y, e).size == g.size,
        g.with_elev(x, y, e).elev(x, y) == e,
        forall|cx: int, cy: int|
            g.in_range(cx, cy) && !(cx == x && cy == y) ==> #[trigger] g.with_elev(
                x,
                y,
                e,
            ).elev(cx, cy) == g.elev(cx, cy),
{
    let h = g.with_elev(x, y, e);
    assert(g.size * y + x < g.size * g.size) by (nonlinear_arith)
        requires
            0 <= x < g.size,
            0 <= y < g.size,
    ;
    assert forall|cx: int, cy: int|
        g.in_range(cx, cy) && !(cx == x && cy == y) implies #[trigger] h.elev(cx, cy) == g.elev(
        cx,
        cy,
    ) by {
        assert(0 <= g.size * cy + cx < g.size * g.size) by (nonlinear_arith)
            requires
                0 <= cx < g.size,
                0 <= cy < g.size,
        ;
        if g.idx(cx, cy) == g.idx(x, y) {
            lemma_idx_inj(g, cx, cy, x, y);
        }
    }
}

/// Chebyshev distance moves by at most one along an adjacency step.
proof fn lemma_cheb_adj(rx: int, ry: int, ax: int, ay: int, bx: int, by: int)
    requires
        adj(ax, ay, bx, by),
    ensures
        cheb(rx, ry, ax, ay) <= cheb(rx, ry, bx, by) + 1,
        cheb(rx, ry, bx, by) <= cheb(rx, ry, ax, ay) + 1,
{
}

/// On a smooth grid an elevation can fall by at most one per grid
/// step: every cell is at least the given cell's elevation minus the
/// Chebyshev distance to it.
pub proof fn lemma_smooth_cone(g: GridView, rx: int, ry: int, tx: int, ty: int)
    requires
        g.wf(),
        g.smooth(),
        g.in_range(rx, ry),
        g.in_range(tx, ty),
    ensures
        g.elev(tx, ty) >= g.elev(rx, ry) - cheb(rx, ry, tx, ty),
    decreases cheb(rx, ry, tx, ty),
{
    let d = cheb(rx, ry, tx, ty);
    if d > 0 {
        let sx: int = if tx < rx {
            tx + 1
        } else if tx > rx {
            tx - 1
        } else {
            tx
        };
        let sy: int = if ty < ry {
            ty + 1
        } else if ty > ry {
            ty - 1
        } else {
            ty
        };
        assert(g.in_range(sx, sy));
        assert(cheb(rx, ry, sx, sy) == d - 1);
        assert(adj(sx, sy, tx, ty));
        lemma_smooth_cone(g, rx, ry, sx, sy);
        assert(g.elev(sx, sy) - g.elev(tx, ty) <= 1);
    }
}

impl GridView {
    /// The grid after an upward cascade toward elevation `e` at
    /// `(x, y)`: every cell rises to at least `e` minus its Chebyshev
    /// distance from `(x, y)`, and nothing else changes.
    pub open spec fn raised(self, x: int, y: int, e: u8) -> GridView {
        GridView {
            size: self.size,
            tiles: Seq::new(
                self.tiles.len(),
                |i: int|
                    MapTile {
                        terrain: self.tiles[i].terrain,
                        elevation: imax(
                            self.tiles[i].elevation as int,
                            e - cheb(x, y, i % self.size, i / self.size),
                        ) as u8,
                    },
            ),
        }
    }

    /// The grid after a downward cascade toward elevation `e` at
    /// `(x, y)`: every cell drops to at most `e` plus its Chebyshev
    /// distance from `(x, y)`.
    pub open spec fn lowered(self, x: int, y: int, e: u8) -> GridView {
        GridView {
            size: self.size,
            tiles: Seq::new(
                self.tiles.len(),
                |i: int|
                    MapTile {
                        terrain: self.tiles[i].terrain,
                        elevation: imin(
                            self.tiles[i].elevation as int,
                            e + cheb(x, y, i % self.size, i / self.size),
                        ) as u8,
                    },
            ),
        }
    }

    /// The exact effect of `elevate(x, y, e)` on a smooth grid: the
    /// cell itself takes `e`, and the cascade pulls the surroundings
    /// up (or pushes them down) just enough to keep every adjacent
    /// pair within one elevation step.
    pub open spec fn cone_applied(self, x: int, y: int, e: u8) -> GridView {
        if e >= self.elev(x, y) {
            self.raised(x, y, e)
        } else {
            self.lowered(x, y, e)
        }
    }
}

/// Every flat index below `size * size` is the index of exactly one
/// in-range cell.
proof fn lemma_flat_coords(g: GridView, i: int)
    requires
        g.wf(),
        g.size >= 0,
        0 <= i < g.tiles.len(),
    ensures
        g.in_range(i % g.size, i / g.size),
        g.idx(i % g.size, i / g.size) == i,
{
    if g.size == 0 {
        assert(g.size * g.size == 0);
    }
    assert(0 <= i % g.size < g.size && 0 <= i / g.size < g.size && g.size * (i / g.size) + i
        % g.size == i) by (nonlinear_arith)
        requires
            g.size > 0,
            0 <= i < g.size * g.size,
    ;
}

/// The flat index of an in-range cell maps back to its coordinates.
proof fn lemma_idx_roundtrip(g: GridView, x: int, y: int)
    requires
        g.wf(),
        g.in_range(x, y),
    ensures
        g.idx(x, y) % g.size == x,
        g.idx(x, y) / g.size == y,
        0 <= g.idx(x, y) < g.tiles.len(),
{
    assert((g.size * y + x) % g.size == x && (g.size * y + x) / g.size == y && g.size * y + x
        < g.size * g.size) by (nonlinear_arith)
        requires
            0 <= x < g.size,
            0 <= y < g.size,
    ;
}

} // verus!

verus! {

/// Every violating adjacent pair has its higher side on the worklist:
/// what a raise wave maintains until the worklist drains.
pub open spec fn raise_covered(g: GridView, work: Seq<(u32, u32)>) -> bool {
    forall|x1: int, y1: int, x2: int, y2: int|
        g.in_range(x1, y1) && g.in_range(x2, y2) && adj(x1, y1, x2, y2) ==> #[trigger] g.elev(
            x1,
            y1,
        ) - #[trigger] g.elev(x2, y2) <= 1 || work.contains((x1 as u32, y1 as u32))
}

/// Every violating adjacent pair has its lower side on the worklist:
/// what a lower wave maintains until the worklist drains.
pub open spec fn lower_covered(g: GridView, work: Seq<(u32, u32)>) -> bool {
    forall|x1: int, y1: int, x2: int, y2: int|
        g.in_range(x1, y1) && g.in_range(x2, y2) && adj(x1, y1, x2, y2) ==> #[trigger] g.elev(
            x1,
            y1,
        ) - #[trigger] g.elev(x2, y2) <= 1 || work.contains((x2 as u32, y2 as u32))
}

/// The state a raise wave starts from: the grid is smooth except at
/// the rewritten cell, and that cell was only moved up, so nothing
/// around it exceeds its new elevation by more than one.
pub open spec fn raise_ok(g: GridView, x: int, y: int, e: u8) -> bool {
    &&& g.smooth_except(x, y)
    &&& forall|qx: int, qy: int|
        g.in_range(qx, qy) && adj(qx, qy, x, y) ==> #[trigger] g.elev(qx, qy) <= e + 1
}

/// The state a lower wave starts from: smooth except at the rewritten
/// cell, which was only moved down, so nothing around it sits more
/// than one below it.
pub open spec fn lower_ok(g: GridView, x: int, y: int, e: u8) -> bool {
    &&& g.smooth_except(x, y)
    &&& forall|qx: int, qy: int|
        g.in_range(qx, qy) && adj(qx, qy, x, y) ==> #[trigger] g.elev(qx, qy) >= e - 1
}

impl TileMap {
    /// The upward half of the cascade. On entry the cell `(x, y)`
    /// already holds `e`; the wave raises every too-low cell around it
    /// until no adjacent pair differs by more than one anywhere the
    /// wave reached. Raising is monotone: no elevation ever drops.
    #[verifier::rlimit(100)]
    fn raise_cascade(&mut self, x: u32, y: u32, e: u8)
        requires
            old(self)@.wf(),
            old(self)@.in_range(x as int, y as int),
            old(self)@.elev(x as int, y as int) == e,
        ensures
            final(self)@.wf(),
            old(self)@.same_shape(final(self)@),
            final(self)@.elev(x as int, y as int) == e,
            forall|cx: int, cy: int|
                final(self)@.in_range(cx, cy) ==> old(self)@.elev(cx, cy) <= #[trigger] final(self)@.elev(cx, cy),
            forall|cx: int, cy: int|
                final(self)@.in_range(cx, cy) ==> #[trigger] final(self)@.elev(cx, cy) == old(self)@.elev(cx, cy) || final(self)@.elev(cx, cy) <= e - 1,
            raise_ok(old(self)@, x as int, y as int, e) ==> final(self)@.smooth(),
            raise_ok(old(self)@, x as int, y as int, e) ==> forall|cx: int, cy: int|
                final(self)@.in_range(cx, cy) ==> #[trigger] final(self)@.elev(cx, cy) == imax(
                    old(self)@.elev(cx, cy),
                    e - cheb(x as int, y as int, cx, cy),
                ),
    {
        let ghost g1 = old(self)@;
        let ghost se = raise_ok(g1, x as int, y as int, e);
        let rx = x;
        let ry = y;
        let mut work: Vec<(u32, u32)> = Vec::new();
        work.push((rx, ry));
        proof {
            assert(se ==> raise_covered(self@, work@)) by {
                if se {
                    assert forall|x1: int, y1: int, x2: int, y2: int|
                        self@.in_range(x1, y1) && self@.in_range(x2, y2) && adj(x1, y1, x2, y2)
                            implies #[trigger] self@.elev(x1, y1) - #[trigger] self@.elev(x2, y2)
                        <= 1 || work@.contains((x1 as u32, y1 as u32)) by {
                        if x1 == rx as int && y1 == ry as int {
                            assert(work@[0] == (rx, ry));
                            assert(work@.contains((rx, ry)));
                        } else if x2 == rx as int && y2 == ry as int {
                            assert(self@.elev(x1, y1) <= e + 1);
                        }
                    }
                }
            }
        }
        while work.len() > 0
            invariant
                self@.wf(),
                g1.same_shape(self@),
                self@.size == g1.size,
                g1.wf(),
                g1.in_range(rx as int, ry as int),
                se == raise_ok(g1, rx as int, ry as int, e),
                self@.elev(rx as int, ry as int) == e,
                forall|k: int|
                    0 <= k < work@.len() ==> self@.in_range(
                        #[trigger] work@[k].0 as int,
                        work@[k].1 as int,
                    ),
                forall|k: int|
                    0 <= k < work@.len() ==> #[trigger] self@.elev(
                        work@[k].0 as int,
                        work@[k].1 as int,
                    ) <= e,
                forall|cx: int, cy: int|
                    self@.in_range(cx, cy) ==> g1.elev(cx, cy) <= #[trigger] self@.elev(cx, cy),
                forall|cx: int, cy: int|
                    self@.in_range(cx, cy) ==> #[trigger] self@.elev(cx, cy) == g1.elev(cx, cy)
                        || self@.elev(cx, cy) <= e - 1,
                se ==> forall|cx: int, cy: int|
                    self@.in_range(cx, cy) ==> #[trigger] self@.elev(cx, cy) <= imax(
                        g1.elev(cx, cy),
                        e - cheb(rx as int, ry as int, cx, cy),
                    ),
                se ==> raise_covered(self@, work@),
            decreases 255 * self@.tiles.len() - sum_elev(self@.tiles), work@.len(),
        {
            proof {
                lemma_sum_elev_bounds(self@.tiles);
            }
            let ghost work_pre = work@;
            let ghost sum0 = sum_elev(self@.tiles);
            let c = work.pop().unwrap();
            let cx = c.0;
            let cy = c.1;
            proof {
                assert(work_pre[work_pre.len() - 1] == c);
                assert(self@.elev(work_pre[work_pre.len() - 1].0 as int, work_pre[work_pre.len()
                    - 1].1 as int) <= e);
            }
            let v = self.tiles[self.index_of(cx, cy)].elevation;
            let ns = self.tile_neighbours(cx, cy);
            proof {
                lemma_neighbours_sound(self@.size, cx as int, cy as int);
                // the popped entry covers only pairs whose high side is
                // (cx, cy); those are now owed to the unexamined-neighbor
                // disjunct of the inner invariant
                if se {
                    assert forall|x1: int, y1: int, x2: int, y2: int|
                        self@.in_range(x1, y1) && self@.in_range(x2, y2) && adj(x1, y1, x2, y2)
                            implies #[trigger] self@.elev(x1, y1) - #[trigger] self@.elev(x2, y2)
                        <= 1 || work@.contains((x1 as u32, y1 as u32)) || ((x1 == cx as int && y1
                        == cy as int) && exists|k: int|
                        0 <= k < ns@.len() && ns@[k] == (x2 as u32, y2 as u32)) by {
                        if self@.elev(x1, y1) - self@.elev(x2, y2) > 1 {
                            assert(work_pre.contains((x1 as u32, y1 as u32)));
                            let k = choose|k: int|
                                0 <= k < work_pre.len() && work_pre[k] == (x1 as u32, y1 as u32);
                            if k < work_pre.len() - 1 {
                                assert(work@[k] == (x1 as u32, y1 as u32));
                                assert(work@.contains((x1 as u32, y1 as u32)));
                            } else {
                                assert(x1 == cx as int && y1 == cy as int);
                                lemma_neighbours_complete(
                                    self@.size,
                                    cx as int,
                                    cy as int,
                                    x2,
                                    y2,
                                );
                                let k2 = choose|k2: int|
                                    0 <= k2 < ns@.len() && ns@[k2] == (x2 as u32, y2 as u32);
                                assert(0 <= k2 < ns@.len() && ns@[k2] == (x2 as u32, y2 as u32));
                            }
                        }
                    }
                }
            }
            let mut j: usize = 0;
            while j < ns.len()
                invariant
                    j <= ns@.len(),
                    self@.wf(),
                    g1.same_shape(self@),
                    self@.size == g1.size,
                    g1.wf(),
                    g1.in_range(rx as int, ry as int),
                    se == raise_ok(g1, rx as int, ry as int, e),
                    self@.elev(rx as int, ry as int) == e,
                    ns@ == neighbours_of(self@.size, cx as int, cy as int),
                    self@.in_range(cx as int, cy as int),
                    self@.elev(cx as int, cy as int) == v,
                    v <= e,
                    sum_elev(self@.tiles) - sum0 >= work@.len() - work_pre.len() + 1,
                    sum_elev(self@.tiles) >= sum0,
                    work@.len() >= work_pre.len() - 1,
                    forall|k: int|
                        0 <= k < work@.len() ==> self@.in_range(
                            #[trigger] work@[k].0 as int,
                            work@[k].1 as int,
                        ),
                    forall|k: int|
                        0 <= k < work@.len() ==> #[trigger] self@.elev(
                            work@[k].0 as int,
                            work@[k].1 as int,
                        ) <= e,
                    forall|k: int|
                        0 <= k < j ==> #[trigger] self@.elev(
                            ns@[k].0 as int,
                            ns@[k].1 as int,
                        ) >= v - 1,
                    forall|cx2: int, cy2: int|
                        self@.in_range(cx2, cy2) ==> g1.elev(cx2, cy2) <= #[trigger] self@.elev(
                            cx2,
                            cy2,
                        ),
                    forall|cx2: int, cy2: int|
                        self@.in_range(cx2, cy2) ==> #[trigger] self@.elev(cx2, cy2) == g1.elev(
                            cx2,
                            cy2,
                        ) || self@.elev(cx2, cy2) <= e - 1,
                    se ==> forall|cx2: int, cy2: int|
                        self@.in_range(cx2, cy2) ==> #[trigger] self@.elev(cx2, cy2) <= imax(
                            g1.elev(cx2, cy2),
                            e - cheb(rx as int, ry as int, cx2, cy2),
                        ),
                    se ==> forall|x1: int, y1: int, x2: int, y2: int|
                        self@.in_range(x1, y1) && self@.in_range(x2, y2) && adj(x1, y1, x2, y2)
                            ==> #[trigger] self@.elev(x1, y1) - #[trigger] self@.elev(x2, y2) <= 1
                            || work@.contains((x1 as u32, y1 as u32)) || ((x1 == cx as int && y1
                            == cy as int) && exists|k: int|
                            j <= k < ns@.len() && ns@[k] == (x2 as u32, y2 as u32)),
                decreases 255 * self@.tiles.len() - sum_elev(self@.tiles), ns@.len() - j,
            {
                proof {
                    lemma_sum_elev_bounds(self@.tiles);
                    lemma_neighbours_sound(self@.size, cx as int, cy as int);
                }
                let n = ns[j];
                let nx = n.0;
                let ny = n.1;
                let ni = self.index_of(nx, ny);
                let w = self.tiles[ni].elevation;
                let ghost mid = self@;
                let ghost work_mid = work@;
                if (w as u16) + 1 < (v as u16) {
                    let t = self.tiles[ni];
                    self.tiles[ni] = t.with_elevation(v - 1);
                    work.push((nx, ny));
                    proof {
                        assert forall|p: (u32, u32)| work_mid.contains(p) implies work@.contains(
                            p,
                        ) by {
                            let k = choose|k: int|
                                0 <= k < work_mid.len() && work_mid[k] == p;
                            assert(work@[k] == p);
                        }
                        assert(self@ =~= mid.with_elev(nx as int, ny as int, (v - 1) as u8));
                        lemma_with_elev(mid, nx as int, ny as int, (v - 1) as u8);
                        lemma_sum_elev_update(
                            mid.tiles,
                            mid.idx(nx as int, ny as int),
                            mid.tile(nx as int, ny as int).with_elevation_spec((v - 1) as u8),
                        );
                        lemma_idx_roundtrip(mid, nx as int, ny as int);
                        assert(mid.elev(nx as int, ny as int) == w);
                        assert(self@.elev(nx as int, ny as int) == v - 1);
                        // the raised cell is not the root: the root sits at e,
                        // the raised cell sat below v - 1 <= e - 1
                        assert(!(nx as int == rx as int && ny as int == ry as int));
                        // cap: the new value stays under the cone bound
                        if se {
                            assert forall|cx2: int, cy2: int|
                                self@.in_range(cx2, cy2) implies #[trigger] self@.elev(cx2, cy2)
                                <= imax(
                                g1.elev(cx2, cy2),
                                e - cheb(rx as int, ry as int, cx2, cy2),
                            ) by {
                                if cx2 == nx as int && cy2 == ny as int {
                                    lemma_cheb_adj(
                                        rx as int,
                                        ry as int,
                                        nx as int,
                                        ny as int,
                                        cx as int,
                                        cy as int,
                                    );
                                    if cx as int == rx as int && cy as int == ry as int {
                                        assert(v <= e);
                                    } else {
                                        if v > e - cheb(rx as int, ry as int, cx as int, cy as int) {
                                            // then v <= g1.elev(cx, cy); the old grid is
                                            // smooth away from the root, so the neighbor
                                            // was already within one of it
                                            assert(g1.elev(cx as int, cy as int) - g1.elev(
                                                nx as int,
                                                ny as int,
                                            ) <= 1);
                                        }
                                    }
                                }
                            }
                        }
                        // covering: the pair just fixed is within one; new
                        // violations around the raised cell are covered
                        if se {
                            assert forall|x1: int, y1: int, x2: int, y2: int|
                                self@.in_range(x1, y1) && self@.in_range(x2, y2) && adj(
                                x1,
                                y1,
                                x2,
                                y2,
                            ) implies #[trigger] self@.elev(x1, y1) - #[trigger] self@.elev(
                                x2,
                                y2,
                            ) <= 1 || work@.contains((x1 as u32, y1 as u32)) || ((x1 == cx as int
                                && y1 == cy as int) && exists|k: int|
                                j + 1 <= k < ns@.len() && ns@[k] == (x2 as u32, y2 as u32)) by {
                                if self@.elev(x1, y1) - self@.elev(x2, y2) > 1 {
                                    if x1 == nx as int && y1 == ny as int {
                                        assert(work@[work@.len() - 1] == (nx, ny));
                                        assert(work@.contains((x1 as u32, y1 as u32)));
                                    } else if x2 == nx as int && y2 == ny as int {
                                        // the raised side only went up, so this violation
                                        // already existed against the old value and its
                                        // high side was already on the worklist
                                        assert(mid.elev(x1, y1) - mid.elev(x2, y2) > 1);
                                        assert(!(x1 == cx as int && y1 == cy as int));
                                        assert(work_mid.contains((x1 as u32, y1 as u32)));
                                        let k = choose|k: int|
                                            0 <= k < work_mid.len() && work_mid[k] == (
                                            x1 as u32,
                                            y1 as u32,
                                            );
                                        assert(work@[k] == (x1 as u32, y1 as u32));
                                        assert(work@.contains((x1 as u32, y1 as u32)));
                                    } else {
                                        // untouched pair: its earlier cover carries over
                                        assert(mid.elev(x1, y1) == self@.elev(x1, y1));
                                        assert(mid.elev(x2, y2) == self@.elev(x2, y2));
                                        if !work_mid.contains((x1 as u32, y1 as u32)) {
                                            assert(x1 == cx as int && y1 == cy as int);
                                            let k = choose|k: int|
                                                j <= k < ns@.len() && ns@[k] == (
                                                x2 as u32,
                                                y2 as u32,
                                                );
                                            assert(ns@[j as int] == (nx, ny));
                                            assert(k != j);
                                            assert(j + 1 <= k < ns@.len() && ns@[k] == (
                                            x2 as u32,
                                            y2 as u32,
                                            ));
                                        }
                                    }
                                }
                            }
                        }
                    }
                } else {
                    proof {
                        if se {
                            assert forall|x1: int, y1: int, x2: int, y2: int|
                                self@.in_range(x1, y1) && self@.in_range(x2, y2) && adj(
                                x1,
                                y1,
                                x2,
                                y2,
                            ) implies #[trigger] self@.elev(x1, y1) - #[trigger] self@.elev(
                                x2,
                                y2,
                            ) <= 1 || work@.contains((x1 as u32, y1 as u32)) || ((x1 == cx as int
                                && y1 == cy as int) && exists|k: int|
                                j + 1 <= k < ns@.len() && ns@[k] == (x2 as u32, y2 as u32)) by {
                                if self@.elev(x1, y1) - self@.elev(x2, y2) > 1 && x1 == cx as int
                                    && y1 == cy as int && !work@.contains((x1 as u32, y1 as u32)) {
                                    let k = choose|k: int|
                                        j <= k < ns@.len() && ns@[k] == (x2 as u32, y2 as u32);
                                    if k == j {
                                        assert(ns@[j as int] == (nx, ny));
                                        assert(self@.elev(x2, y2) == w);
                                        assert(false);
                                    } else {
                                        assert(j + 1 <= k < ns@.len() && ns@[k] == (
                                        x2 as u32,
                                        y2 as u32,
                                        ));
                                    }
                                }
                            }
                        }
                    }
                }
                proof {
                    lemma_sum_elev_bounds(self@.tiles);
                }
                j = j + 1;
            }
            proof {
                lemma_sum_elev_bounds(self@.tiles);
                // restore the outer covering: every neighbor of (cx, cy)
                // now sits at v - 1 or higher, so no violation keeps
                // (cx, cy) as its high side
                if se {
                    assert forall|x1: int, y1: int, x2: int, y2: int|
                        self@.in_range(x1, y1) && self@.in_range(x2, y2) && adj(x1, y1, x2, y2)
                            implies #[trigger] self@.elev(x1, y1) - #[trigger] self@.elev(x2, y2)
                        <= 1 || work@.contains((x1 as u32, y1 as u32)) by {
                        if self@.elev(x1, y1) - self@.elev(x2, y2) > 1 && x1 == cx as int && y1
                            == cy as int {
                            lemma_neighbours_complete(self@.size, cx as int, cy as int, x2, y2);
                            let k = choose|k: int|
                                0 <= k < ns@.len() && ns@[k] == (x2 as u32, y2 as u32);
                            assert(self@.elev(x2, y2) >= v - 1);
                        }
                    }
                }
            }
        }
        proof {
            if se {
                assert(raise_covered(self@, work@));
                assert(self@.smooth()) by {
                    assert forall|x1: int, y1: int, x2: int, y2: int|
                        self@.in_range(x1, y1) && self@.in_range(x2, y2) && adj(x1, y1, x2, y2)
                            implies #[trigger] self@.elev(x1, y1) - #[trigger] self@.elev(x2, y2)
                        <= 1 by {
                        assert(!work@.contains((x1 as u32, y1 as u32)));
                    }
                }
                assert forall|cx: int, cy: int|
                    self@.in_range(cx, cy) implies #[trigger] self@.elev(cx, cy) == imax(
                    g1.elev(cx, cy),
                    e - cheb(rx as int, ry as int, cx, cy),
                ) by {
                    lemma_smooth_cone(self@, rx as int, ry as int, cx, cy);
                }
            }
        }
    }

    /// The downward half of the cascade. On entry the cell `(x, y)`
    /// already holds `e`; the wave lowers every too-high cell around
    /// it until no adjacent pair differs by more than one anywhere the
    /// wave reached. Lowering is monotone: no elevation ever rises.
    #[verifier::rlimit(100)]
    fn lower_cascade(&mut self, x: u32, y: u32, e: u8)
        requires
            old(self)@.wf(),
            old(self)@.in_range(x as int, y as int),
            old(self)@.elev(x as int, y as int) == e,
        ensures
            final(self)@.wf(),
            old(self)@.same_shape(final(self)@),
            final(self)@.elev(x as int, y as int) == e,
            forall|cx: int, cy: int|
                final(self)@.in_range(cx, cy) ==> #[trigger] final(self)@.elev(cx, cy) <= old(self)@.elev(cx, cy),
            forall|cx: int, cy: int|
                final(self)@.in_range(cx, cy) ==> #[trigger] final(self)@.elev(cx, cy) == old(self)@.elev(cx, cy) || final(self)@.elev(cx, cy) >= e + 1,
            lower_ok(old(self)@, x as int, y as int, e) ==> final(self)@.smooth(),
            lower_ok(old(self)@, x as int, y as int, e) ==> forall|cx: int, cy: int|
                final(self)@.in_range(cx, cy) ==> #[trigger] final(self)@.elev(cx, cy) == imin(
                    old(self)@.elev(cx, cy),
                    e + cheb(x as int, y as int, cx, cy),
                ),
    {
        let ghost g1 = old(self)@;
        let ghost se = lower_ok(g1, x as int, y as int, e);
        let rx = x;
        let ry = y;
        let mut work: Vec<(u32, u32)> = Vec::new();
        work.push((rx, ry));
        proof {
            assert(se ==> lower_covered(self@, work@)) by {
                if se {
                    assert forall|x1: int, y1: int, x2: int, y2: int|
                        self@.in_range(x1, y1) && self@.in_range(x2, y2) && adj(x1, y1, x2, y2)
                            implies #[trigger] self@.elev(x1, y1) - #[trigger] self@.elev(x2, y2)
                        <= 1 || work@.contains((x2 as u32, y2 as u32)) by {
                        if x2 == rx as int && y2 == ry as int {
                            assert(work@[0] == (rx, ry));
                            assert(work@.contains((rx, ry)));
                        } else if x1 == rx as int && y1 == ry as int {
                            assert(self@.elev(x2, y2) >= e - 1);
                        }
                    }
                }
            }
        }
        while work.len() > 0
            invariant
                self@.wf(),
                g1.same_shape(self@),
                self@.size == g1.size,
                g1.wf(),
                g1.in_range(rx as int, ry as int),
                se == lower_ok(g1, rx as int, ry as int, e),
                self@.elev(rx as int, ry as int) == e,
                forall|k: int|
                    0 <= k < work@.len() ==> self@.in_range(
                        #[trigger] work@[k].0 as int,
                        work@[k].1 as int,
                    ),
                forall|k: int|
                    0 <= k < work@.len() ==> #[trigger] self@.elev(
                        work@[k].0 as int,
                        work@[k].1 as int,
                    ) >= e,
                forall|cx: int, cy: int|
                    self@.in_range(cx, cy) ==> #[trigger] self@.elev(cx, cy) <= g1.elev(cx, cy),
                forall|cx: int, cy: int|
                    self@.in_range(cx, cy) ==> #[trigger] self@.elev(cx, cy) == g1.elev(cx, cy)
                        || self@.elev(cx, cy) >= e + 1,
                se ==> forall|cx: int, cy: int|
                    self@.in_range(cx, cy) ==> #[trigger] self@.elev(cx, cy) >= imin(
                        g1.elev(cx, cy),
                        e + cheb(rx as int, ry as int, cx, cy),
                    ),
                se ==> lower_covered(self@, work@),
            decreases sum_elev(self@.tiles), work@.len(),
        {
            proof {
                lemma_sum_elev_bounds(self@.tiles);
            }
            let ghost work_pre = work@;
            let ghost sum0 = sum_elev(self@.tiles);
            let c = work.pop().unwrap();
            let cx = c.0;
            let cy = c.1;
            proof {
                assert(work_pre[work_pre.len() - 1] == c);
                assert(self@.elev(work_pre[work_pre.len() - 1].0 as int, work_pre[work_pre.len()
                    - 1].1 as int) >= e);
            }
            let v = self.tiles[self.index_of(cx, cy)].elevation;
            let ns = self.tile_neighbours(cx, cy);
            proof {
                lemma_neighbours_sound(self@.size, cx as int, cy as int);
                // the popped entry covers only pairs whose low side is
                // (cx, cy); those are now owed to the unexamined-neighbor
                // disjunct of the inner invariant
                if se {
                    assert forall|x1: int, y1: int, x2: int, y2: int|
                        self@.in_range(x1, y1) && self@.in_range(x2, y2) && adj(x1, y1, x2, y2)
                            implies #[trigger] self@.elev(x1, y1) - #[trigger] self@.elev(x2, y2)
                        <= 1 || work@.contains((x2 as u32, y2 as u32)) || ((x2 == cx as int && y2
                        == cy as int) && exists|k: int|
                        0 <= k < ns@.len() && ns@[k] == (x1 as u32, y1 as u32)) by {
                        if self@.elev(x1, y1) - self@.elev(x2, y2) > 1 {
                            assert(work_pre.contains((x2 as u32, y2 as u32)));
                            let k = choose|k: int|
                                0 <= k < work_pre.len() && work_pre[k] == (x2 as u32, y2 as u32);
                            if k < work_pre.len() - 1 {
                                assert(work@[k] == (x2 as u32, y2 as u32));
                                assert(work@.contains((x2 as u32, y2 as u32)));
                            } else {
                                assert(x2 == cx as int && y2 == cy as int);
                                lemma_neighbours_complete(
                                    self@.size,
                                    cx as int,
                                    cy as int,
                                    x1,
                                    y1,
                                );
                                let k2 = choose|k2: int|
                                    0 <= k2 < ns@.len() && ns@[k2] == (x1 as u32, y1 as u32);
                                assert(0 <= k2 < ns@.len() && ns@[k2] == (x1 as u32, y1 as u32));
                            }
                        }
                    }
                }
            }
            let mut j: usize = 0;
            while j < ns.len()
                invariant
                    j <= ns@.len(),
                    self@.wf(),
                    g1.same_shape(self@),
                    self@.size == g1.size,
                    g1.wf(),
                    g1.in_range(rx as int, ry as int),
                    se == lower_ok(g1, rx as int, ry as int, e),
                    self@.elev(rx as int, ry as int) == e,
                    ns@ == neighbours_of(self@.size, cx as int, cy as int),
                    self@.in_range(cx as int, cy as int),
                    self@.elev(cx as int, cy as int) == v,
                    v >= e,
                    sum0 - sum_elev(self@.tiles) >= work@.len() - work_pre.len() + 1,
                    sum_elev(self@.tiles) <= sum0,
                    work@.len() >= work_pre.len() - 1,
                    forall|k: int|
                        0 <= k < work@.len() ==> self@.in_range(
                            #[trigger] work@[k].0 as int,
                            work@[k].1 as int,
                        ),
                    forall|k: int|
                        0 <= k < work@.len() ==> #[trigger] self@.elev(
                            work@[k].0 as int,
                            work@[k].1 as int,
                        ) >= e,
                    forall|k: int|
                        0 <= k < j ==> #[trigger] self@.elev(
                            ns@[k].0 as int,
                            ns@[k].1 as int,
                        ) <= v + 1,
                    forall|cx2: int, cy2: int|
                        self@.in_range(cx2, cy2) ==> #[trigger] self@.elev(cx2, cy2) <= g1.elev(
                            cx2,
                            cy2,
                        ),
                    forall|cx2: int, cy2: int|
                        self@.in_range(cx2, cy2) ==> #[trigger] self@.elev(cx2, cy2) == g1.elev(
                            cx2,
                            cy2,
                        ) || self@.elev(cx2, cy2) >= e + 1,
                    se ==> forall|cx2: int, cy2: int|
                        self@.in_range(cx2, cy2) ==> #[trigger] self@.elev(cx2, cy2) >= imin(
                            g1.elev(cx2, cy2),
                            e + cheb(rx as int, ry as int, cx2, cy2),
                        ),
                    se ==> forall|x1: int, y1: int, x2: int, y2: int|
                        self@.in_range(x1, y1) && self@.in_range(x2, y2) && adj(x1, y1, x2, y2)
                            ==> #[trigger] self@.elev(x1, y1) - #[trigger] self@.elev(x2, y2) <= 1
                            || work@.contains((x2 as u32, y2 as u32)) || ((x2 == cx as int && y2
                            == cy as int) && exists|k: int|
                            j <= k < ns@.len() && ns@[k] == (x1 as u32, y1 as u32)),
                decreases sum_elev(self@.tiles), ns@.len() - j,
            {
                proof {
                    lemma_sum_elev_bounds(self@.tiles);
                    lemma_neighbours_sound(self@.size, cx as int, cy as int);
                }
                let n = ns[j];
                let nx = n.0;
                let ny = n.1;
                let ni = self.index_of(nx, ny);
                let w = self.tiles[ni].elevation;
                let ghost mid = self@;
                let ghost work_mid = work@;
                if (w as u16) > (v as u16) + 1 {
                    let t = self.tiles[ni];
                    self.tiles[ni] = t.with_elevation(v + 1);
                    work.push((nx, ny));
                    proof {
                        assert forall|p: (u32, u32)| work_mid.contains(p) implies work@.contains(
                            p,
                        ) by {
                            let k = choose|k: int|
                                0 <= k < work_mid.len() && work_mid[k] == p;
                            assert(work@[k] == p);
                        }
                        assert(self@ =~= mid.with_elev(nx as int, ny as int, (v + 1) as u8));
                        lemma_with_elev(mid, nx as int, ny as int, (v + 1) as u8);
                        lemma_sum_elev_update(
                            mid.tiles,
                            mid.idx(nx as int, ny as int),
                            mid.tile(nx as int, ny as int).with_elevation_spec((v + 1) as u8),
                        );
                        lemma_idx_roundtrip(mid, nx as int, ny as int);
                        assert(mid.elev(nx as int, ny as int) == w);
                        assert(self@.elev(nx as int, ny as int) == v + 1);
                        // the lowered cell is not the root: the root sits at e,
                        // the lowered cell sat above v + 1 >= e + 1
                        assert(!(nx as int == rx as int && ny as int == ry as int));
                        // cap: the new value stays above the cone bound
                        if se {
                            assert forall|cx2: int, cy2: int|
                                self@.in_range(cx2, cy2) implies #[trigger] self@.elev(cx2, cy2)
                                >= imin(
                                g1.elev(cx2, cy2),
                                e + cheb(rx as int, ry as int, cx2, cy2),
                            ) by {
                                if cx2 == nx as int && cy2 == ny as int {
                                    lemma_cheb_adj(
                                        rx as int,
                                        ry as int,
                                        nx as int,
                                        ny as int,
                                        cx as int,
                                        cy as int,
                                    );
                                    if cx as int == rx as int && cy as int == ry as int {
                                        assert(v >= e);
                                    } else {
                                        if v < e + cheb(rx as int, ry as int, cx as int, cy as int) {
                                            // then v >= g1.elev(cx, cy); the old grid is
                                            // smooth away from the root, so the neighbor
                                            // was already within one of it
                                            assert(g1.elev(nx as int, ny as int) - g1.elev(
                                                cx as int,
                                                cy as int,
                                            ) <= 1);
                                        }
                                    }
                                }
                            }
                        }
                        // covering: the pair just fixed is within one; new
                        // violations around the lowered cell are covered
                        if se {
                            assert forall|x1: int, y1: int, x2: int, y2: int|
                                self@.in_range(x1, y1) && self@.in_range(x2, y2) && adj(
                                x1,
                                y1,
                                x2,
                                y2,
                            ) implies #[trigger] self@.elev(x1, y1) - #[trigger] self@.elev(
                                x2,
                                y2,
                            ) <= 1 || work@.contains((x2 as u32, y2 as u32)) || ((x2 == cx as int
                                && y2 == cy as int) && exists|k: int|
                                j + 1 <= k < ns@.len() && ns@[k] == (x1 as u32, y1 as u32)) by {
                                if self@.elev(x1, y1) - self@.elev(x2, y2) > 1 {
                                    if x2 == nx as int && y2 == ny as int {
                                        assert(work@[work@.len() - 1] == (nx, ny));
                                        assert(work@.contains((x2 as u32, y2 as u32)));
                                    } else if x1 == nx as int && y1 == ny as int {
                                        // the lowered side only went down, so this
                                        // violation already existed against the old value
                                        // and its low side was already on the worklist
                                        assert(mid.elev(x1, y1) - mid.elev(x2, y2) > 1);
                                        assert(!(x2 == cx as int && y2 == cy as int));
                                        assert(work_mid.contains((x2 as u32, y2 as u32)));
                                        let k = choose|k: int|
                                            0 <= k < work_mid.len() && work_mid[k] == (
                                            x2 as u32,
                                            y2 as u32,
                                            );
                                        assert(work@[k] == (x2 as u32, y2 as u32));
                                        assert(work@.contains((x2 as u32, y2 as u32)));
                                    } else {
                                        // untouched pair: its earlier cover carries over
                                        assert(mid.elev(x1, y1) == self@.elev(x1, y1));
                                        assert(mid.elev(x2, y2) == self@.elev(x2, y2));
                                        if !work_mid.contains((x2 as u32, y2 as u32)) {
                                            assert(x2 == cx as int && y2 == cy as int);
                                            let k = choose|k: int|
                                                j <= k < ns@.len() && ns@[k] == (
                                                x1 as u32,
                                                y1 as u32,
                                                );
                                            assert(ns@[j as int] == (nx, ny));
                                            assert(k != j);
                                            assert(j + 1 <= k < ns@.len() && ns@[k] == (
                                            x1 as u32,
                                            y1 as u32,
                                            ));
                                        }
                                    }
                                }
                            }
                        }
                    }
                } else {
                    proof {
                        if se {
                            assert forall|x1: int, y1: int, x2: int, y2: int|
                                self@.in_range(x1, y1) && self@.in_range(x2, y2) && adj(
                                x1,
                                y1,
                                x2,
                                y2,
                            ) implies #[trigger] self@.elev(x1, y1) - #[trigger] self@.elev(
                                x2,
                                y2,
                            ) <= 1 || work@.contains((x2 as u32, y2 as u32)) || ((x2 == cx as int
                                && y2 == cy as int) && exists|k: int|
                                j + 1 <= k < ns@.len() && ns@[k] == (x1 as u32, y1 as u32)) by {
                                if self@.elev(x1, y1) - self@.elev(x2, y2) > 1 && x2 == cx as int
                                    && y2 == cy as int && !work@.contains((x2 as u32, y2 as u32)) {
                                    let k = choose|k: int|
                                        j <= k < ns@.len() && ns@[k] == (x1 as u32, y1 as u32);
                                    if k == j {
                                        assert(ns@[j as int] == (nx, ny));
                                        assert(self@.elev(x1, y1) == w);
                                        assert(false);
                                    } else {
                                        assert(j + 1 <= k < ns@.len() && ns@[k] == (
                                        x1 as u32,
                                        y1 as u32,
                                        ));
                                    }
                                }
                            }
                        }
                    }
                }
                proof {
                    lemma_sum_elev_bounds(self@.tiles);
                }
                j = j + 1;
            }
            proof {
                lemma_sum_elev_bounds(self@.tiles);
                // restore the outer covering: every neighbor of (cx, cy)
                // now sits at v + 1 or lower, so no violation keeps
                // (cx, cy) as its low side
                if se {
                    assert forall|x1: int, y1: int, x2: int, y2: int|
                        self@.in_range(x1, y1) && self@.in_range(x2, y2) && adj(x1, y1, x2, y2)
                            implies #[trigger] self@.elev(x1, y1) - #[trigger] self@.elev(x2, y2)
                        <= 1 || work@.contains((x2 as u32, y2 as u32)) by {
                        if self@.elev(x1, y1) - self@.elev(x2, y2) > 1 && x2 == cx as int && y2
                            == cy as int {
                            lemma_neighbours_complete(self@.size, cx as int, cy as int, x1, y1);
                            let k = choose|k: int|
                                0 <= k < ns@.len() && ns@[k] == (x1 as u32, y1 as u32);
                            assert(self@.elev(x1, y1) <= v + 1);
                        }
                    }
                }
            }
        }
        proof {
            if se {
                assert(lower_covered(self@, work@));
                assert(self@.smooth()) by {
                    assert forall|x1: int, y1: int, x2: int, y2: int|
                        self@.in_range(x1, y1) && self@.in_range(x2, y2) && adj(x1, y1, x2, y2)
                            implies #[trigger] self@.elev(x1, y1) - #[trigger] self@.elev(x2, y2)
                        <= 1 by {
                        assert(!work@.contains((x2 as u32, y2 as u32)));
                    }
                }
                assert forall|cx: int, cy: int|
                    self@.in_range(cx, cy) implies #[trigger] self@.elev(cx, cy) == imin(
                    g1.elev(cx, cy),
                    e + cheb(rx as int, ry as int, cx, cy),
                ) by {
                    lemma_smooth_cone(self@, cx, cy, rx as int, ry as int);
                    assert(cheb(cx, cy, rx as int, ry as int) == cheb(rx as int, ry as int, cx, cy));
                }
            }
        }
    }

    /// Sets the elevation at `(x, y)` to `elevation`, then cascades:
    /// every neighbor left more than one step away from its adjacent
    /// cells is re-elevated toward the changed value, one step at a
    /// time, until the whole grid is smooth again. On a smooth grid
    /// the result is exactly `cone_applied`: the changed cell takes
    /// `elevation`, and each other cell moves just as far as the
    /// one-step-per-tile slope limit forces it to. Out-of-range
    /// coordinates are ignored.
    pub fn elevate(&mut self, x: u32, y: u32, elevation: u8)
        requires
            old(self)@.wf(),
        ensures
            final(self)@.wf(),
            old(self)@.same_shape(final(self)@),
            !old(self)@.in_range(x as int, y as int) ==> final(self)@ == old(self)@,
            old(self)@.in_range(x as int, y as int) ==> final(self)@.elev(x as int, y as int)
                == elevation,
            old(self)@.in_range(x as int, y as int) && old(self)@.smooth() ==> final(self)@
                == old(self)@.cone_applied(x as int, y as int, elevation),
            old(self)@.smooth() ==> final(self)@.smooth(),
            old(self)@.in_range(x as int, y as int) && elevation >= old(self)@.elev(
                x as int,
                y as int,
            ) ==> forall|cx: int, cy: int|
                final(self)@.in_range(cx, cy) && !(cx == x as int && cy == y as int)
                    ==> old(self)@.elev(cx, cy) <= #[trigger] final(self)@.elev(cx, cy),
            old(self)@.in_range(x as int, y as int) && elevation < old(self)@.elev(
                x as int,
                y as int,
            ) ==> forall|cx: int, cy: int|
                final(self)@.in_range(cx, cy) && !(cx == x as int && cy == y as int)
                    ==> #[trigger] final(self)@.elev(cx, cy) <= old(self)@.elev(cx, cy),
            old(self)@.in_range(x as int, y as int) && elevation >= old(self)@.elev(
                x as int,
                y as int,
            ) ==> forall|cx: int, cy: int|
                final(self)@.in_range(cx, cy) && !(cx == x as int && cy == y as int) ==> (
                #[trigger] final(self)@.elev(cx, cy) == old(self)@.elev(cx, cy)
                    || final(self)@.elev(cx, cy) <= elevation - 1),
            old(self)@.in_range(x as int, y as int) && elevation < old(self)@.elev(
                x as int,
                y as int,
            ) ==> forall|cx: int, cy: int|
                final(self)@.in_range(cx, cy) && !(cx == x as int && cy == y as int) ==> (
                #[trigger] final(self)@.elev(cx, cy) == old(self)@.elev(cx, cy)
                    || final(self)@.elev(cx, cy) >= elevation + 1),
    {
        if !(x < self.size && y < self.size) {
            return ;
        }
        let ghost g0 = self@;
        let i0 = self.index_of(x, y);
        let t0 = self.tiles[i0];
        let old_e = t0.elevation;
        self.tiles[i0] = t0.with_elevation(elevation);
        proof {
            assert(self@ =~= g0.with_elev(x as int, y as int, elevation));
            lemma_with_elev(g0, x as int, y as int, elevation);
        }
        let ghost g1 = self@;
        if elevation >= old_e {
            proof {
                if g0.smooth() {
                    assert(raise_ok(g1, x as int, y as int, elevation)) by {
                        assert forall|qx: int, qy: int|
                            g1.in_range(qx, qy) && adj(qx, qy, x as int, y as int)
                                implies #[trigger] g1.elev(qx, qy) <= elevation + 1 by {
                            assert(g1.elev(qx, qy) == g0.elev(qx, qy));
                            assert(g0.elev(qx, qy) - g0.elev(x as int, y as int) <= 1);
                        }
                    }
                }
            }
            self.raise_cascade(x, y, elevation);
            proof {
                if g0.smooth() {
                    let r = g0.raised(x as int, y as int, elevation);
                    assert forall|i: int| 0 <= i < self@.tiles.len() implies self@.tiles[i]
                        == r.tiles[i] by {
                        lemma_flat_coords(g0, i);
                        let cx = i % g0.size;
                        let cy = i / g0.size;
                        assert(self@.elev(cx, cy) == imax(
                            g1.elev(cx, cy),
                            elevation - cheb(x as int, y as int, cx, cy),
                        ));
                        if cx == x as int && cy == y as int {
                            assert(g1.elev(cx, cy) == elevation);
                        } else {
                            assert(g1.elev(cx, cy) == g0.elev(cx, cy));
                        }
                        assert(self@.tiles[i].elevation as int == imax(
                            g0.elev(cx, cy),
                            elevation - cheb(x as int, y as int, cx, cy),
                        ));
                        assert(r.tiles[i].elevation as int == imax(
                            g0.elev(cx, cy),
                            elevation - cheb(x as int, y as int, cx, cy),
                        ));
                        assert(self@.tiles[i].terrain == g1.tiles[i].terrain);
                        assert(g1.tiles[i].terrain == g0.tiles[i].terrain);
                    }
                    assert(self@ =~= r);
                }
            }
        } else {
            proof {
                if g0.smooth() {
                    assert(lower_ok(g1, x as int, y as int, elevation)) by {
                        assert forall|qx: int, qy: int|
                            g1.in_range(qx, qy) && adj(qx, qy, x as int, y as int)
                                implies #[trigger] g1.elev(qx, qy) >= elevation - 1 by {
                            assert(g1.elev(qx, qy) == g0.elev(qx, qy));
                            assert(g0.elev(x as int, y as int) - g0.elev(qx, qy) <= 1);
                        }
                    }
                }
            }
            self.lower_cascade(x, y, elevation);
            proof {
                if g0.smooth() {
                    let r = g0.lowered(x as int, y as int, elevation);
                    assert forall|i: int| 0 <= i < self@.tiles.len() implies self@.tiles[i]
                        == r.tiles[i] by {
                        lemma_flat_coords(g0, i);
                        let cx = i % g0.size;
                        let cy = i / g0.size;
                        assert(self@.elev(cx, cy) == imin(
                            g1.elev(cx, cy),
                            elevation + cheb(x as int, y as int, cx, cy),
                        ));
                        if cx == x as int && cy == y as int {
                            assert(g1.elev(cx, cy) == elevation);
                        } else {
                            assert(g1.elev(cx, cy) == g0.elev(cx, cy));
                        }
                        assert(self@.tiles[i].elevation as int == imin(
                            g0.elev(cx, cy),
                            elevation + cheb(x as int, y as int, cx, cy),
                        ));
                        assert(r.tiles[i].elevation as int == imin(
                            g0.elev(cx, cy),
                            elevation + cheb(x as int, y as int, cx, cy),
                        ));
                        assert(self@.tiles[i].terrain == g1.tiles[i].terrain);
                        assert(g1.tiles[i].terrain == g0.tiles[i].terrain);
                    }
                    assert(self@ =~= r);
                }
            }
        }
    }

    /// Calls `elevate(x, y, elevation)` for every coordinate the
    /// selection yields, in the selection's own order. Order matters:
    /// each call can perturb previously flattened neighbors through
    /// its cascade. On a smooth grid the result is exactly
    /// `flatten_applied`.
    pub fn flatten_to(&mut self, selection: &Selection, elevation: u8)
        requires
            old(self)@.wf(),
            sel_fits(*selection),
        ensures
            final(self)@.wf(),
            old(self)@.same_shape(final(self)@),
            old(self)@.smooth() ==> final(self)@.smooth(),
            old(self)@.smooth() ==> final(self)@ == flatten_applied(
                old(self)@,
                sel_coords(*selection),
                elevation,
            ),
            old(self)@.smooth() ==> forall|k: int|
                0 <= k < sel_coords(*selection).len() && old(self)@.in_range(
                    #[trigger] sel_coords(*selection)[k].x as int,
                    sel_coords(*selection)[k].y as int,
                ) ==> final(self)@.elev(
                    sel_coords(*selection)[k].x as int,
                    sel_coords(*selection)[k].y as int,
                ) == elevation,
    {
        let coords = selection.coordinates();
        let ghost g0 = self@;
        let mut i: usize = 0;
        while i < coords.len()
            invariant
                i <= coords@.len(),
                coords@ == sel_coords(*selection),
                self@.wf(),
                g0.same_shape(self@),
                g0.smooth() ==> self@.smooth(),
                g0.smooth() ==> self@ == flatten_applied(g0, coords@.take(i as int), elevation),
            decreases coords@.len() - i,
        {
            let c = coords[i];
            let ghost pre = self@;
            self.elevate(c.x, c.y, elevation);
            proof {
                if g0.smooth() {
                    let t1 = coords@.take(i + 1 as int);
                    assert(t1.drop_last() =~= coords@.take(i as int));
                    assert(t1.last() == coords@[i as int]);
                    if pre.in_range(c.x as int, c.y as int) {
                        assert(self@ == pre.cone_applied(c.x as int, c.y as int, elevation));
                    } else {
                        assert(self@ == pre);
                    }
                }
            }
            i = i + 1;
        }
        proof {
            assert(coords@.take(coords@.len() as int) =~= coords@);
            if g0.smooth() {
                lemma_flatten_applied_props(g0, coords@, elevation);
            }
        }
    }

    /// Computes the truncated mean elevation over the selection's
    /// in-range coordinates (duplicates counted as often as they
    /// appear), then flattens the selection to that elevation.
    pub fn flatten(&mut self, selection: &Selection)
        requires
            old(self)@.wf(),
            sel_fits(*selection),
            count_in_range(old(self)@, sel_coords(*selection)) > 0,
        ensures
            final(self)@.wf(),
            old(self)@.same_shape(final(self)@),
            old(self)@.smooth() ==> final(self)@.smooth(),
            old(self)@.smooth() ==> final(self)@ == flatten_applied(
                old(self)@,
                sel_coords(*selection),
                mean_elev(old(self)@, sel_coords(*selection)) as u8,
            ),
    {
        let coords = selection.coordinates();
        let ghost g0 = self@;
        let mut weighted_elevation: u128 = 0;
        let mut tiles: u64 = 0;
        let mut i: usize = 0;
        while i < coords.len()
            invariant
                i <= coords@.len(),
                coords@ == sel_coords(*selection),
                self@.wf(),
                self@ == g0,
                weighted_elevation == sum_sel_elev(g0, coords@.take(i as int)),
                tiles == count_in_range(g0, coords@.take(i as int)),
                tiles <= i,
                weighted_elevation <= 255 * (tiles as int),
            decreases coords@.len() - i,
        {
            let c = coords[i];
            proof {
                let t1 = coords@.take(i + 1 as int);
                assert(t1.drop_last() =~= coords@.take(i as int));
                assert(t1.last() == coords@[i as int]);
            }
            match self.tile_at(c.x, c.y) {
                Some(tile) => {
                    tiles = tiles + 1;
                    weighted_elevation = weighted_elevation + (tile.elevation as u128);
                },
                None => (),
            }
            i = i + 1;
        }
        proof {
            assert(coords@.take(coords@.len() as int) =~= coords@);
        }
        let mean: u8 = (weighted_elevation / (tiles as u128)) as u8;
        proof {
            let su = sum_sel_elev(g0, coords@);
            let ct = count_in_range(g0, coords@);
            assert(su / ct <= 255 && su / ct >= 0) by (nonlinear_arith)
                requires
                    ct > 0,
                    0 <= su <= 255 * ct,
            ;
            assert(mean == mean_elev(g0, coords@));
        }
        self.flatten_to(selection, mean);
    }

    /// Encodes the grid: the side length twice as little-endian
    /// 32-bit values, then every tile as its fixed three-byte record,
    /// in `x` outer, `y` inner order.
    pub fn to_bytes(&self) -> (r: Vec<u8>)
        requires
            self@.wf(),
        ensures
            r@ == map_bytes(self@),
    {
        let mut buf: Vec<u8> = Vec::new();
        push_u32_le(&mut buf, self.size);
        push_u32_le(&mut buf, self.size);
        let ghost g = self@;
        let mut x: u32 = 0;
        while x < self.size
            invariant
                x <= self.size,
                self@ == g,
                self@.wf(),
                buf@ == le4(g.size) + le4(g.size) + map_tiles_enc(g, (x * g.size) as nat),
            decreases self.size - x,
        {
            let mut y: u32 = 0;
            while y < self.size
                invariant
                    x < self.size,
                    y <= self.size,
                    self@ == g,
                    self@.wf(),
                    buf@ == le4(g.size) + le4(g.size) + map_tiles_enc(
                        g,
                        (x * g.size + y) as nat,
                    ),
                decreases self.size - y,
            {
                proof {
                    let sz = g.size;
                    assert(x * sz + y < sz * sz && (x * sz + y) / sz == x && (x * sz + y) % sz
                        == y) by (nonlinear_arith)
                        requires
                            0 <= x < sz,
                            0 <= y < sz,
                    ;
                }
                let i = self.index_of(x, y);
                let t = self.tiles[i];
                buf.push(t.terrain);
                buf.push(t.elevation);
                buf.push(0);
                proof {
                    let k = (x * g.size + y) as nat;
                    assert(map_tiles_enc(g, (k + 1) as nat) == map_tiles_enc(g, k) + tile_bytes(
                        g.tile((k as int) / g.size, (k as int) % g.size),
                    ));
                    assert(buf@ =~= le4(g.size) + le4(g.size) + map_tiles_enc(g, (k + 1) as nat));
                }
                y = y + 1;
            }
            proof {
                assert((x + 1) * g.size == x * g.size + g.size) by (nonlinear_arith);
            }
            x = x + 1;
        }
        proof {
            assert(g.size * g.size == (g.size * g.size) as nat);
        }
        buf
    }
}

} // verus!

verus! {

/// The grid after flattening a coordinate list to elevation `e`:
/// each in-range coordinate is elevated in order, each application
/// being the exact cascade effect on a smooth grid; out-of-range
/// coordinates do nothing.
pub open spec fn flatten_applied(g: GridView, coords: Seq<Coordinate>, e: u8) -> GridView
    decreases coords.len(),
{
    if coords.len() == 0 {
        g
    } else {
        let h = flatten_applied(g, coords.drop_last(), e);
        let c = coords.last();
        if h.in_range(c.x as int, c.y as int) {
            h.cone_applied(c.x as int, c.y as int, e)
        } else {
            h
        }
    }
}

/// How many of the listed coordinates are in range, duplicates
/// counted as often as they appear.
pub open spec fn count_in_range(g: GridView, coords: Seq<Coordinate>) -> int
    decreases coords.len(),
{
    if coords.len() == 0 {
        0
    } else {
        count_in_range(g, coords.drop_last()) + if g.in_range(
            coords.last().x as int,
            coords.last().y as int,
        ) {
            1int
        } else {
            0int
        }
    }
}

/// The elevation total over the listed in-range coordinates,
/// duplicates counted as often as they appear.
pub open spec fn sum_sel_elev(g: GridView, coords: Seq<Coordinate>) -> int
    decreases coords.len(),
{
    if coords.len() == 0 {
        0
    } else {
        sum_sel_elev(g, coords.drop_last()) + if g.in_range(
            coords.last().x as int,
            coords.last().y as int,
        ) {
            g.elev(coords.last().x as int, coords.last().y as int)
        } else {
            0int
        }
    }
}

/// The truncated mean elevation over the selection's in-range
/// coordinates.
pub open spec fn mean_elev(g: GridView, coords: Seq<Coordinate>) -> int {
    sum_sel_elev(g, coords) / count_in_range(g, coords)
}

} // verus!

verus! {

/// The concatenated three-byte records of the first `n` tiles in
/// encode order (`x` outer, `y` inner): chunk `k` is the tile at
/// `(k / size, k % size)`.
pub open spec fn map_tiles_enc(g: GridView, n: nat) -> Seq<u8>
    decreases n,
{
    if n == 0 {
        Seq::empty()
    } else {
        map_tiles_enc(g, (n - 1) as nat) + tile_bytes(
            g.tile(((n - 1) as int) / g.size, ((n - 1) as int) % g.size),
        )
    }
}

/// The full byte encoding of a grid: the size twice, little-endian,
/// then every tile record.
pub open spec fn map_bytes(g: GridView) -> Seq<u8> {
    le4(g.size) + le4(g.size) + map_tiles_enc(g, (g.size * g.size) as nat)
}

} // verus!

verus! {

/// What one cascade does to a smooth grid: the result is smooth
/// again, the changed cell holds exactly `e`, the shape and terrain
/// are untouched, and any cell that already sat at `e` still does.
pub proof fn lemma_cone_props(g: GridView, x: int, y: int, e: u8)
    requires
        g.wf(),
        g.smooth(),
        g.size >= 0,
        g.in_range(x, y),
    ensures
        g.cone_applied(x, y, e).wf(),
        g.same_shape(g.cone_applied(x, y, e)),
        g.cone_applied(x, y, e).size == g.size,
        g.cone_applied(x, y, e).smooth(),
        g.cone_applied(x, y, e).elev(x, y) == e,
        forall|cx: int, cy: int|
            g.in_range(cx, cy) ==> #[trigger] g.cone_applied(x, y, e).elev(cx, cy) == if e
                >= g.elev(x, y) {
                imax(g.elev(cx, cy), e - cheb(x, y, cx, cy))
            } else {
                imin(g.elev(cx, cy), e + cheb(x, y, cx, cy))
            },
{
    let c = g.cone_applied(x, y, e);
    assert forall|cx: int, cy: int| g.in_range(cx, cy) implies #[trigger] c.elev(cx, cy) == if e
        >= g.elev(x, y) {
        imax(g.elev(cx, cy), e - cheb(x, y, cx, cy))
    } else {
        imin(g.elev(cx, cy), e + cheb(x, y, cx, cy))
    } by {
        lemma_idx_roundtrip(g, cx, cy);
    }
    assert(c.elev(x, y) == e) by {
        lemma_idx_roundtrip(g, x, y);
        assert(cheb(x, y, x, y) == 0);
    }
    assert forall|x1: int, y1: int, x2: int, y2: int|
        c.in_range(x1, y1) && c.in_range(x2, y2) && adj(x1, y1, x2, y2) implies #[trigger] c.elev(
        x1,
        y1,
    ) - #[trigger] c.elev(x2, y2) <= 1 by {
        lemma_idx_roundtrip(g, x1, y1);
        lemma_idx_roundtrip(g, x2, y2);
        lemma_cheb_adj(x, y, x1, y1, x2, y2);
        assert(g.elev(x1, y1) - g.elev(x2, y2) <= 1);
    }
}

/// Re-elevating a cell to the value it already holds changes nothing
/// on a smooth grid: the cascade finds no violation to fix.
pub proof fn lemma_cone_noop(g: GridView, x: int, y: int, e: u8)
    requires
        g.wf(),
        g.smooth(),
        g.size >= 0,
        g.in_range(x, y),
        g.elev(x, y) == e,
    ensures
        g.cone_applied(x, y, e) == g,
{
    let c = g.cone_applied(x, y, e);
    assert forall|i: int| 0 <= i < g.tiles.len() implies c.tiles[i] == g.tiles[i] by {
        lemma_flat_coords(g, i);
        let cx = i % g.size;
        let cy = i / g.size;
        lemma_smooth_cone(g, x, y, cx, cy);
        lemma_smooth_cone(g, cx, cy, x, y);
        assert(cheb(cx, cy, x, y) == cheb(x, y, cx, cy));
    }
    assert(c =~= g);
}

/// Flattening leaves a smooth grid smooth, keeps its shape and
/// terrain, and pins every in-range coordinate of the selection at
/// exactly the target elevation.
pub proof fn lemma_flatten_applied_props(g: GridView, coords: Seq<Coordinate>, e: u8)
    requires
        g.wf(),
        g.smooth(),
        g.size >= 0,
    ensures
        flatten_applied(g, coords, e).wf(),
        flatten_applied(g, coords, e).size == g.size,
        g.same_shape(flatten_applied(g, coords, e)),
        flatten_applied(g, coords, e).smooth(),
        forall|k: int|
            0 <= k < coords.len() && g.in_range(
                #[trigger] coords[k].x as int,
                coords[k].y as int,
            ) ==> flatten_applied(g, coords, e).elev(coords[k].x as int, coords[k].y as int) == e,
    decreases coords.len(),
{
    if coords.len() > 0 {
        lemma_flatten_applied_props(g, coords.drop_last(), e);
        let h = flatten_applied(g, coords.drop_last(), e);
        let c = coords.last();
        let f = flatten_applied(g, coords, e);
        if h.in_range(c.x as int, c.y as int) {
            lemma_cone_props(h, c.x as int, c.y as int, e);
            assert forall|k: int|
                0 <= k < coords.len() && g.in_range(
                    #[trigger] coords[k].x as int,
                    coords[k].y as int,
                ) implies f.elev(coords[k].x as int, coords[k].y as int) == e by {
                if k < coords.len() - 1 {
                    assert(coords.drop_last()[k] == coords[k]);
                    assert(h.elev(coords[k].x as int, coords[k].y as int) == e);
                    if e >= h.elev(c.x as int, c.y as int) {
                        assert(imax(e as int, e - cheb(c.x as int, c.y as int, coords[k].x as int, coords[k].y as int)) == e);
                    } else {
                        assert(imin(e as int, e + cheb(c.x as int, c.y as int, coords[k].x as int, coords[k].y as int)) == e);
                    }
                } else {
                    assert(coords[k] == c);
                }
            }
        } else {
            assert forall|k: int|
                0 <= k < coords.len() && g.in_range(
                    #[trigger] coords[k].x as int,
                    coords[k].y as int,
                ) implies f.elev(coords[k].x as int, coords[k].y as int) == e by {
                assert(k < coords.len() - 1);
                assert(coords.drop_last()[k] == coords[k]);
            }
        }
    }
}

/// Flattening a grid whose selected coordinates already all hold the
/// target elevation changes nothing.
proof fn lemma_flatten_applied_noop(g: GridView, coords: Seq<Coordinate>, e: u8)
    requires
        g.wf(),
        g.smooth(),
        g.size >= 0,
        forall|k: int|
            0 <= k < coords.len() && g.in_range(
                #[trigger] coords[k].x as int,
                coords[k].y as int,
            ) ==> g.elev(coords[k].x as int, coords[k].y as int) == e,
    ensures
        flatten_applied(g, coords, e) == g,
    decreases coords.len(),
{
    if coords.len() > 0 {
        assert forall|k: int|
            0 <= k < coords.drop_last().len() && g.in_range(
                #[trigger] coords.drop_last()[k].x as int,
                coords.drop_last()[k].y as int,
            ) implies g.elev(coords.drop_last()[k].x as int, coords.drop_last()[k].y as int)
            == e by {
            assert(coords.drop_last()[k] == coords[k]);
        }
        lemma_flatten_applied_noop(g, coords.drop_last(), e);
        let c = coords.last();
        if g.in_range(c.x as int, c.y as int) {
            lemma_cone_noop(g, c.x as int, c.y as int, e);
        }
    }
}

/// Flattening is idempotent: flattening a smooth grid to an elevation
/// twice, with the same coordinates, yields the same grid as doing it
/// once.
pub proof fn lemma_flatten_idempotent(g: GridView, coords: Seq<Coordinate>, e: u8)
    requires
        g.wf(),
        g.smooth(),
        g.size >= 0,
    ensures
        flatten_applied(flatten_applied(g, coords, e), coords, e) == flatten_applied(g, coords, e),
{
    lemma_flatten_applied_props(g, coords, e);
    let f = flatten_applied(g, coords, e);
    assert forall|k: int|
        0 <= k < coords.len() && f.in_range(#[trigger] coords[k].x as int, coords[k].y as int)
        implies f.elev(coords[k].x as int, coords[k].y as int) == e by {
        assert(g.in_range(coords[k].x as int, coords[k].y as int));
    }
    lemma_flatten_applied_noop(f, coords, e);
}

proof fn lemma_tiles_enc_len(g: GridView, n: nat)
    ensures
        map_tiles_enc(g, n).len() == 3 * n,
    decreases n,
{
    if n > 0 {
        lemma_tiles_enc_len(g, (n - 1) as nat);
    }
}

proof fn lemma_tiles_enc_at(g: GridView, n: nat, k: int)
    requires
        0 <= k < n,
    ensures
        map_tiles_enc(g, n).len() == 3 * n,
        map_tiles_enc(g, n)[3 * k] == g.tile(k / g.size, k % g.size).terrain,
        map_tiles_enc(g, n)[3 * k + 1] == g.tile(k / g.size, k % g.size).elevation,
        map_tiles_enc(g, n)[3 * k + 2] == 0u8,
    decreases n,
{
    lemma_tiles_enc_len(g, n);
    lemma_tiles_enc_len(g, (n - 1) as nat);
    if k < n - 1 {
        lemma_tiles_enc_at(g, (n - 1) as nat, k);
    }
}

/// The byte encoding of a full grid can be read back: the record of
/// the tile at `(x, y)` starts at offset `8 + 3 * (x * size + y)`,
/// with its terrain first, its elevation second, and a zero third,
/// after the two little-endian copies of the size.
pub proof fn lemma_map_bytes_decode(g: GridView, x: int, y: int)
    requires
        g.wf(),
        g.size >= 0,
        g.in_range(x, y),
    ensures
        map_bytes(g).len() == 8 + 3 * (g.size * g.size),
        map_bytes(g).subrange(0, 4) == le4(g.size),
        map_bytes(g).subrange(4, 8) == le4(g.size),
        map_bytes(g)[8 + 3 * (x * g.size + y)] == g.tile(x, y).terrain,
        map_bytes(g)[8 + 3 * (x * g.size + y) + 1] == g.tile(x, y).elevation,
        map_bytes(g)[8 + 3 * (x * g.size + y) + 2] == 0u8,
{
    let n = (g.size * g.size) as nat;
    let k = x * g.size + y;
    assert(0 <= k < g.size * g.size && k / g.size == x && k % g.size == y) by (nonlinear_arith)
        requires
            0 <= x < g.size,
            0 <= y < g.size,
            k == x * g.size + y,
    ;
    lemma_tiles_enc_at(g, n, k);
    assert(map_bytes(g).subrange(0, 4) =~= le4(g.size));
    assert(map_bytes(g).subrange(4, 8) =~= le4(g.size));
}

} // verus!
