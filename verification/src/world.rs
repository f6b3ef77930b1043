//! The demo world generator: builds a map with a base terrain, two
//! terrain bands, a flattened region described by a selection union,
//! and one elevated spot.

use vstd::prelude::*;

use crate::map::{flatten_applied, GridView, MapTile, TileMap};
use crate::selection::{rect_coords, sel_coords, sel_fits, Rectangle, Selection};

verus! {

/// Terrain code of grass, the default base terrain.
pub const TERRAIN_GRASS: u8 = 0;

/// Terrain code of dirt, drawn as a column of the addressed grid.
pub const TERRAIN_DIRT: u8 = 3;

/// Terrain code of snow, drawn as a row of the addressed grid.
pub const TERRAIN_SNOW: u8 = 32;

/// The side length of the smallest standard map.
pub const MAP_SIZE_TINY: u32 = 120;

/// A world description: the base terrain and elevation the map is
/// filled with, and its side length.
pub struct World {
    pub base_terrain: u8,
    pub base_elevation: u8,
    pub map_size: u32,
}

/// The tile the generator lays down at flat index `k` before any
/// elevation work: under the grid's `size * y + x` addressing, a
/// snow band along the row `y == 20` (snow wins where the bands
/// cross), a dirt band along the column `x == 20`, and the base
/// terrain elsewhere, all at the base elevation.
pub open spec fn world_tile(w: World, k: int) -> MapTile {
    MapTile {
        terrain: if k / (w.map_size as int) == 20 {
            TERRAIN_SNOW
        } else if k % (w.map_size as int) == 20 {
            TERRAIN_DIRT
        } else {
            w.base_terrain
        },
        elevation: w.base_elevation,
    }
}

/// The grid the generator paints before elevation work.
pub open spec fn world_base_grid(w: World) -> GridView {
    GridView {
        size: w.map_size as int,
        tiles: Seq::new((w.map_size * w.map_size) as nat, |k: int| world_tile(w, k)),
    }
}

/// The coordinates the generator flattens: a union of two
/// rectangles, duplicates kept.
pub open spec fn world_flatten_coords() -> Seq<crate::selection::Coordinate> {
    rect_coords(Rectangle { x: 20, y: 20, width: 20, height: 20 }) + rect_coords(
        Rectangle { x: 5, y: 5, width: 5, height: 5 },
    )
}

/// The grid the generator returns: the painted base grid, flattened
/// to elevation 4 over the selection, then elevated to 2 at
/// `(30, 30)`.
pub open spec fn world_grid(w: World) -> GridView {
    let g1 = flatten_applied(world_base_grid(w), world_flatten_coords(), 4);
    if g1.in_range(30, 30) {
        g1.cone_applied(30, 30, 2)
    } else {
        g1
    }
}

impl World {
    /// A world of grass at elevation zero, at the smallest standard
    /// size.
    pub fn new() -> (w: World)
        ensures
            w == (World {
                base_terrain: TERRAIN_GRASS,
                base_elevation: 0,
                map_size: MAP_SIZE_TINY,
            }),
    {
        World { base_terrain: TERRAIN_GRASS, base_elevation: 0, map_size: MAP_SIZE_TINY }
    }

    /// Builds the world's map: paints the terrain pattern at the
    /// base elevation, flattens the selected region to elevation 4,
    /// and raises `(30, 30)` to elevation 2.
    pub fn generate_map(&self) -> (m: TileMap)
        requires
            self.map_size * self.map_size <= usize::MAX,
        ensures
            m@.wf(),
            m@.size == self.map_size,
            m@.smooth(),
            m@ == world_grid(*self),
    {
        let size = self.map_size;
        let n: usize = (size as usize) * (size as usize);
        let mut tiles: Vec<MapTile> = Vec::new();
        let mut i: usize = 0;
        while i < n
            invariant
                i <= n,
                n == size * size,
                tiles@ == Seq::new(i as nat, |k: int| world_tile(*self, k)),
                size == self.map_size,
            decreases n - i,
        {
            let terrain: u8 = if size > 0 && i / (size as usize) == 20 {
                TERRAIN_SNOW
            } else if size > 0 && i % (size as usize) == 20 {
                TERRAIN_DIRT
            } else {
                self.base_terrain
            };
            proof {
                if size == 0 {
                    assert(size * size == 0) by (nonlinear_arith)
                        requires
                            size == 0,
                    ;
                    assert(false);
                }
            }
            tiles.push(MapTile { terrain, elevation: self.base_elevation });
            assert(tiles@ =~= Seq::new((i + 1) as nat, |k: int| world_tile(*self, k)));
            i = i + 1;
        }
        let mut map = TileMap { size, tiles };
        proof {
            assert(map@ =~= world_base_grid(*self));
            assert(map@.smooth()) by {
                assert forall|x1: int, y1: int, x2: int, y2: int|
                    map@.in_range(x1, y1) && map@.in_range(x2, y2) && crate::map::adj(
                        x1,
                        y1,
                        x2,
                        y2,
                    ) implies #[trigger] map@.elev(x1, y1) - #[trigger] map@.elev(x2, y2)
                    <= 1 by {
                    let sz = map@.size;
                    assert(0 <= sz * y1 + x1 < sz * sz && 0 <= sz * y2 + x2 < sz * sz)
                        by (nonlinear_arith)
                        requires
                            0 <= x1 < sz,
                            0 <= y1 < sz,
                            0 <= x2 < sz,
                            0 <= y2 < sz,
                    ;
                }
            }
        }
        let ra = Selection::Rect(Rectangle::new(20, 20, 20, 20));
        let rb = Selection::Rect(Rectangle::new(5, 5, 5, 5));
        proof {
            assert(sel_coords(ra).len() == 400);
            assert(sel_coords(rb).len() == 25);
            assert(sel_fits(ra));
            assert(sel_fits(rb));
        }
        let selection = ra.and(rb);
        proof {
            assert(sel_coords(selection) =~= world_flatten_coords());
            assert(sel_fits(selection));
        }
        map.flatten_to(&selection, 4);
        map.elevate(30, 30, 2);
        map
    }
}

} // verus!
