use hexes::consts::{MAX_BRICK_HEIGHT, MAX_FLOOR_HEIGHT};
use hexes::hex::Axial;
use hexes::hexmap::HexChunk;
use hexes::map::{GameMap, HexTileData, Terrain, TerrainError};

fn tile(ground: u8, wall: u8) -> HexTileData {
    HexTileData { ground_height: ground, wall_height: wall }
}

/// A chunk at (cq, cr) whose 256 slots all hold tiles of one height.
fn flat_chunk(cq: i32, cr: i32, height: u8) -> HexChunk<HexTileData> {
    let mut tiles: Vec<Option<HexTileData>> = Vec::new();
    for _ in 0..256 {
        tiles.push(Some(HexTileData::new(height)));
    }
    HexChunk::new(tiles, cq, cr)
}

#[test]
fn tile_data_new_and_height() {
    let t = HexTileData::new(2);
    assert_eq!(t.ground_height, 2);
    assert_eq!(t.wall_height, 2);
    assert_eq!(t.get_height(), 2);
    let raised = tile(2, 3);
    assert_eq!(raised.get_height(), 3);
}

#[test]
fn empty_terrain_has_no_tiles() {
    let t = Terrain::new();
    assert!(t.get_tile(Axial::new(0, 0)).is_none());
    assert_eq!(t.tallest_height(), 0);
}

#[test]
fn get_and_set_inside_a_generated_chunk() {
    let mut t = Terrain::new();
    t.insert_chunk(flat_chunk(0, 0, 1));
    let a = Axial::new(3, 4);  // col 5, row 4: inside chunk (0,0)
    let got = t.get_tile(a).unwrap();
    assert_eq!(got.ground_height, 1);
    assert_eq!(got.wall_height, 1);
    assert!(t.set_tile(a, tile(1, 2)).is_ok());
    let got = t.get_tile(a).unwrap();
    assert_eq!(got.wall_height, 2);
    // a hex in a never-generated chunk
    assert!(t.get_tile(Axial::new(40, 0)).is_none());
}

#[test]
fn set_tile_outside_generated_chunks_is_an_error() {
    let mut t = Terrain::new();
    t.insert_chunk(flat_chunk(0, 0, 0));
    let outside = Axial::new(40, 0);
    let r = t.set_tile(outside, tile(0, 1));
    assert_eq!(r, Err(TerrainError::UngeneratedChunk));
    assert!(t.get_tile(outside).is_none());
}

#[test]
fn tallest_rises_with_writes_and_never_falls() {
    let mut t = Terrain::new();
    t.insert_chunk(flat_chunk(0, 0, 1));
    assert_eq!(t.tallest_height(), 1);
    let a = Axial::new(2, 2);
    t.set_tile(a, tile(1, 3)).unwrap();
    assert_eq!(t.tallest_height(), 3);
    // lowering the same tile leaves the bound in place
    t.set_tile(a, tile(1, 1)).unwrap();
    assert_eq!(t.tallest_height(), 3);
}

#[test]
fn lower_tile_follows_the_edit_rules() {
    let mut t = Terrain::new();
    t.insert_chunk(flat_chunk(0, 0, 2));
    let a = Axial::new(1, 1);
    // ground == wall > 0: both sink together
    let r = t.lower_tile(a).unwrap();
    assert_eq!((r.ground_height, r.wall_height), (1, 1));
    // wall above ground sinks alone
    t.set_tile(a, tile(1, 3)).unwrap();
    let r = t.lower_tile(a).unwrap();
    assert_eq!((r.ground_height, r.wall_height), (1, 2));
    // ground ledge above the wall sinks alone
    t.set_tile(a, tile(2, 0)).unwrap();
    let r = t.lower_tile(a).unwrap();
    assert_eq!((r.ground_height, r.wall_height), (1, 0));
    // level zero cannot sink
    t.set_tile(a, tile(0, 0)).unwrap();
    assert!(t.lower_tile(a).is_none());
    // absent tile: nothing to lower
    assert!(t.lower_tile(Axial::new(40, 0)).is_none());
}

#[test]
fn raise_tile_follows_the_edit_rules() {
    let mut t = Terrain::new();
    t.insert_chunk(flat_chunk(0, 0, 1));
    let a = Axial::new(1, 1);
    // wall grows by one
    let r = t.raise_tile(a).unwrap();
    assert_eq!((r.ground_height, r.wall_height), (1, 2));
    let r = t.raise_tile(a).unwrap();
    assert_eq!((r.ground_height, r.wall_height), (1, 3));
    // at the configured maximum nothing grows
    assert_eq!(r.wall_height, MAX_BRICK_HEIGHT);
    assert!(t.raise_tile(a).is_none());
    // a wall below a ground ledge snaps to one above it
    t.set_tile(a, tile(2, 0)).unwrap();
    let r = t.raise_tile(a).unwrap();
    assert_eq!((r.ground_height, r.wall_height), (2, 3));
}

#[test]
fn generated_map_covers_its_region_with_bounded_heights() {
    let m = GameMap::new();
    // the generated block spans offset columns and rows -16..16
    for &(q, r) in &[(0, 0), (10, 5), (-16, 0), (7, 15), (-8, -16), (23, -16)] {
        let t = m.terrain.get_tile(Axial::new(q, r)).unwrap();
        assert!(t.wall_height <= MAX_FLOOR_HEIGHT);
        assert_eq!(t.ground_height, t.wall_height);
    }
    // outside the region nothing is generated
    assert!(m.terrain.get_tile(Axial::new(40, 0)).is_none());
    assert!(m.terrain.get_tile(Axial::new(0, 16)).is_none());
    assert!(m.terrain.get_tile(Axial::new(0, -17)).is_none());
    assert!(m.terrain.tallest_height() <= MAX_FLOOR_HEIGHT);
}

#[test]
fn generated_map_is_deterministic_for_one_seed() {
    let m1 = GameMap::new();
    let m2 = GameMap::new();
    for q in -20..20 {
        for r in -20..20 {
            let a = Axial::new(q, r);
            let t1 = m1.terrain.get_tile(a).map(|t| (t.ground_height, t.wall_height));
            let t2 = m2.terrain.get_tile(a).map(|t| (t.ground_height, t.wall_height));
            assert_eq!(t1, t2);
        }
    }
}

#[test]
fn flatten_tile_levels_ground_and_wall() {
    let mut m = GameMap::new();
    let a = Axial::new(10, 5);
    m.flatten_tile(a, 2).unwrap();
    let t = m.terrain.get_tile(a).unwrap();
    assert_eq!((t.ground_height, t.wall_height), (2, 2));
    // outside the generated chunks the error is reported
    assert_eq!(m.flatten_tile(Axial::new(40, 0), 2), Err(TerrainError::UngeneratedChunk));
}
