use scx::map::{MapTile, TileMap};
use scx::selection::{Coordinate, Rectangle, Selection};

fn max_adjacent_step(m: &TileMap) -> u8 {
    let size = m.size;
    let mut worst: u8 = 0;
    for x in 0..size {
        for y in 0..size {
            let e = m.elevation_at(x, y).unwrap();
            for c in m.tile_neighbours(x, y) {
                let ne = m.elevation_at(c.0, c.1).unwrap();
                let d = if e > ne { e - ne } else { ne - e };
                if d > worst {
                    worst = d;
                }
            }
        }
    }
    worst
}

fn elevations(m: &TileMap) -> Vec<u8> {
    let mut out = Vec::new();
    for y in 0..m.size {
        for x in 0..m.size {
            out.push(m.elevation_at(x, y).unwrap());
        }
    }
    out
}

#[test]
fn new_map_is_filled_with_zero_tiles() {
    let m = TileMap::new(4);
    assert_eq!(m.size, 4);
    assert_eq!(m.tiles.len(), 16);
    let t = m.tile_at(3, 3).unwrap();
    assert_eq!(t.terrain, 0);
    assert_eq!(t.elevation, 0);
}

#[test]
fn tile_accessors_and_record() {
    let t = MapTile::new(2, 1);
    assert_eq!(t.to_bytes(), [2, 1, 0]);
    let t2 = t.with_terrain(9);
    assert_eq!(t2.to_bytes(), [9, 1, 0]);
    let t3 = t.with_elevation(7);
    assert_eq!(t3.to_bytes(), [2, 7, 0]);
}

#[test]
fn tile_at_rejects_out_of_range() {
    let m = TileMap::new(3);
    assert!(m.tile_at(3, 0).is_none());
    assert!(m.tile_at(0, 3).is_none());
    assert!(m.tile_at(2, 2).is_some());
}

#[test]
fn put_tile_ignores_out_of_range() {
    let mut m = TileMap::new(3);
    m.put_tile(7, 7, MapTile::new(5, 5));
    for x in 0..3 {
        for y in 0..3 {
            assert_eq!(m.tile_at(x, y).unwrap().terrain, 0);
        }
    }
    m.put_tile(1, 2, MapTile::new(5, 0));
    assert_eq!(m.tile_at(1, 2).unwrap().terrain, 5);
}

#[test]
fn neighbours_of_corner_and_center() {
    let m = TileMap::new(3);
    let corner = m.tile_neighbours(0, 0);
    assert_eq!(corner, vec![(0, 1), (1, 0), (1, 1)]);
    let center = m.tile_neighbours(1, 1);
    assert_eq!(
        center,
        vec![(0, 0), (0, 1), (0, 2), (1, 0), (1, 2), (2, 0), (2, 1), (2, 2)]
    );
}

#[test]
fn elevate_on_single_tile_grid_terminates_and_sets() {
    let mut m = TileMap::new(1);
    m.elevate(0, 0, 5);
    assert_eq!(m.elevation_at(0, 0), Some(5));
}

#[test]
fn elevate_out_of_range_is_a_no_op() {
    let mut m = TileMap::new(2);
    m.elevate(2, 0, 9);
    assert_eq!(elevations(&m), vec![0, 0, 0, 0]);
}

#[test]
fn elevate_raises_a_cone_around_the_cell() {
    let mut m = TileMap::new(5);
    m.elevate(2, 2, 3);
    for x in 0..5u32 {
        for y in 0..5u32 {
            let dx = if x > 2 { x - 2 } else { 2 - x };
            let dy = if y > 2 { y - 2 } else { 2 - y };
            let d = if dx > dy { dx } else { dy };
            let expected = if d >= 3 { 0 } else { 3 - d as u8 };
            assert_eq!(m.elevation_at(x, y), Some(expected), "at {} {}", x, y);
        }
    }
    assert_eq!(max_adjacent_step(&m), 1);
}

#[test]
fn elevate_lowers_back_down() {
    let mut m = TileMap::new(5);
    m.elevate(2, 2, 4);
    m.elevate(2, 2, 0);
    // the downward cascade pulls the cone back: cell 0, ring one 1...
    assert_eq!(m.elevation_at(2, 2), Some(0));
    assert_eq!(m.elevation_at(3, 3), Some(1));
    assert!(max_adjacent_step(&m) <= 1);
}

#[test]
fn elevation_invariant_holds_after_call_sequences() {
    let mut m = TileMap::new(8);
    let calls = [
        (0u32, 0u32, 6u8),
        (7, 7, 3),
        (3, 4, 9),
        (3, 4, 1),
        (0, 7, 12),
        (4, 4, 0),
        (1, 1, 5),
    ];
    for (x, y, e) in calls {
        m.elevate(x, y, e);
        assert!(max_adjacent_step(&m) <= 1, "violated after ({}, {}, {})", x, y, e);
    }
    let sel = Selection::Rect(Rectangle::new(1, 1, 4, 4));
    m.flatten_to(&sel, 7);
    assert!(max_adjacent_step(&m) <= 1);
}

#[test]
fn flatten_to_pins_selection_and_is_idempotent() {
    let mut m = TileMap::new(6);
    m.elevate(1, 1, 4);
    m.elevate(5, 5, 2);
    let sel = Selection::Rect(Rectangle::new(0, 0, 3, 3))
        .and(Selection::Point(Coordinate::new(4, 4)));
    m.flatten_to(&sel, 3);
    for c in Selection::Rect(Rectangle::new(0, 0, 3, 3))
        .and(Selection::Point(Coordinate::new(4, 4)))
        .coordinates()
    {
        assert_eq!(m.elevation_at(c.x, c.y), Some(3));
    }
    let once = elevations(&m);
    let sel2 = Selection::Rect(Rectangle::new(0, 0, 3, 3))
        .and(Selection::Point(Coordinate::new(4, 4)));
    m.flatten_to(&sel2, 3);
    assert_eq!(elevations(&m), once);
}

#[test]
fn flatten_moves_to_truncated_mean() {
    let mut m = TileMap::new(2);
    // a smooth grid with elevations 1, 1, 0, 0: mean 2 / 4 = 0
    m.put_tile(0, 0, MapTile::new(0, 1));
    m.put_tile(1, 0, MapTile::new(0, 1));
    let sel = Selection::Rect(Rectangle::new(0, 0, 2, 2));
    m.flatten(&sel);
    assert_eq!(elevations(&m), vec![0, 0, 0, 0]);
}

#[test]
fn flatten_counts_only_in_range_coordinates() {
    let mut m = TileMap::new(2);
    // all tiles at 2; a selection reaching far outside still averages 2
    for x in 0..2 {
        for y in 0..2 {
            m.put_tile(x, y, MapTile::new(0, 2));
        }
    }
    let sel = Selection::Rect(Rectangle::new(0, 0, 10, 10));
    m.flatten(&sel);
    assert_eq!(elevations(&m), vec![2, 2, 2, 2]);
}

#[test]
fn elevate_raw_skips_the_cascade() {
    let mut m = TileMap::new(3);
    m.elevate_raw(1, 1, 9);
    assert_eq!(m.elevation_at(1, 1), Some(9));
    assert_eq!(m.elevation_at(0, 0), Some(0));
    m.elevate_raw(5, 5, 9);
    assert_eq!(elevations(&m), vec![0, 0, 0, 0, 9, 0, 0, 0, 0]);
}

#[test]
fn map_encode_round_trips_at_documented_offsets() {
    let mut m = TileMap::new(4);
    for x in 0..4 {
        for y in 0..4 {
            m.put_tile(x, y, MapTile::new(2, 1));
        }
    }
    let bytes = m.to_bytes();
    assert_eq!(bytes.len(), 8 + 3 * 16);
    assert_eq!(&bytes[0..4], &[4, 0, 0, 0]);
    assert_eq!(&bytes[4..8], &[4, 0, 0, 0]);
    for x in 0..4usize {
        for y in 0..4usize {
            let off = 8 + 3 * (x * 4 + y);
            assert_eq!(bytes[off], 2, "terrain at {} {}", x, y);
            assert_eq!(bytes[off + 1], 1, "elevation at {} {}", x, y);
            assert_eq!(bytes[off + 2], 0, "reserved at {} {}", x, y);
        }
    }
}

#[test]
fn map_encode_orders_x_outer_y_inner() {
    let mut m = TileMap::new(2);
    m.put_tile(0, 0, MapTile::new(10, 0));
    m.put_tile(0, 1, MapTile::new(11, 0));
    m.put_tile(1, 0, MapTile::new(12, 0));
    m.put_tile(1, 1, MapTile::new(13, 0));
    let bytes = m.to_bytes();
    // records: (0,0), (0,1), (1,0), (1,1)
    assert_eq!(bytes[8], 10);
    assert_eq!(bytes[11], 11);
    assert_eq!(bytes[14], 12);
    assert_eq!(bytes[17], 13);
}
