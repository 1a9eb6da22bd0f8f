use hexes::flow::build_flow_field;
use hexes::hex::Axial;
use hexes::hexmap::HexChunk;
use hexes::map::{GameMap, HexPathNode, HexTileData, Terrain, update_dijkstra_hexmap};

/// A terrain holding exactly the given offset-coordinate tiles (all
/// within chunk (0,0): columns and rows 0..16), at the given heights.
fn terrain_of(tiles: &[(usize, usize, u8)]) -> Terrain {
    let mut slots: Vec<Option<HexTileData>> = Vec::new();
    for _ in 0..256 {
        slots.push(None);
    }
    for &(col, row, h) in tiles {
        slots[row * 16 + col] = Some(HexTileData::new(h));
    }
    let mut t = Terrain::new();
    t.insert_chunk(HexChunk::new(slots, 0, 0));
    t
}

/// The axial coordinate of an offset-coordinate tile in rows 0..16.
fn at(col: i32, row: i32) -> Axial {
    Axial::new(col - row.div_euclid(2), row)
}

fn flat3x3() -> Terrain {
    let mut tiles = Vec::new();
    for col in 0..3 {
        for row in 0..3 {
            tiles.push((col, row, 0u8));
        }
    }
    terrain_of(&tiles)
}

#[test]
fn flat_grid_path_walks_to_the_goal() {
    // flat 3x3 terrain, goal at offset (0,0), path read from offset (2,2)
    let terrain = flat3x3();
    let goals = vec![at(0, 0)];
    let field = build_flow_field(&terrain, &goals);
    assert_eq!(field.get_label(at(0, 0)), Some(HexPathNode::Goal));
    let path = field.get_path(at(2, 2)).unwrap();
    // offset (2,2) lies three hex hops from the goal
    assert_eq!(path.len(), 3);
    assert_eq!(*path.last().unwrap(), at(0, 0));
    // the hop before the goal is adjacent to it
    assert_eq!(path[path.len() - 2], Axial::new(1, 0));
    assert_eq!(path[0], Axial::new(1, 1));
    // every tile on the path is distinct
    assert_ne!(path[0], path[1]);
    assert_ne!(path[1], path[2]);
    assert_ne!(path[0], path[2]);
}

#[test]
fn start_at_goal_gives_empty_path() {
    let terrain = flat3x3();
    let goals = vec![at(0, 0)];
    let field = build_flow_field(&terrain, &goals);
    assert_eq!(field.get_path(at(0, 0)), Some(vec![]));
}

#[test]
fn unreached_tile_has_no_path() {
    let terrain = flat3x3();
    let goals = vec![at(0, 0)];
    let field = build_flow_field(&terrain, &goals);
    assert!(field.get_path(Axial::new(12, 12)).is_none());
    assert!(field.get_label(Axial::new(12, 12)).is_none());
}

#[test]
fn empty_goal_set_yields_empty_field() {
    let terrain = flat3x3();
    let field = build_flow_field(&terrain, &vec![]);
    for col in 0..3 {
        for row in 0..3 {
            assert!(field.get_label(at(col, row)).is_none());
        }
    }
}

#[test]
fn goal_outside_terrain_is_marked_but_does_not_propagate() {
    let terrain = flat3x3();
    let lonely = Axial::new(12, 12);
    let field = build_flow_field(&terrain, &vec![lonely]);
    assert_eq!(field.get_label(lonely), Some(HexPathNode::Goal));
    for col in 0..3 {
        for row in 0..3 {
            assert!(field.get_label(at(col, row)).is_none());
        }
    }
}

#[test]
fn raising_a_wall_cuts_the_tile_off() {
    // two tiles: the goal and its only neighbor, both height 1
    let terrain0 = terrain_of(&[(0, 0, 1), (1, 0, 1)]);
    let goals = vec![at(0, 0)];
    let field = build_flow_field(&terrain0, &goals);
    assert_eq!(field.get_label(at(1, 0)), Some(HexPathNode::Left));

    // raise the neighbor's wall from 1 to 3: the height difference of 2
    // breaks connectivity, and a rebuild leaves the tile unlabeled
    let mut terrain = terrain0;
    terrain
        .set_tile(at(1, 0), HexTileData { ground_height: 1, wall_height: 3 })
        .unwrap();
    let field = build_flow_field(&terrain, &goals);
    assert_eq!(field.get_label(at(0, 0)), Some(HexPathNode::Goal));
    assert!(field.get_label(at(1, 0)).is_none());
}

#[test]
fn steps_of_height_one_stay_traversable() {
    // a staircase 0,1,2 is walkable end to end
    let terrain = terrain_of(&[(0, 0, 0), (1, 0, 1), (2, 0, 2)]);
    let goals = vec![at(0, 0)];
    let field = build_flow_field(&terrain, &goals);
    let path = field.get_path(at(2, 0)).unwrap();
    assert_eq!(path.len(), 2);
    assert_eq!(*path.last().unwrap(), at(0, 0));
}

#[test]
fn two_goals_label_by_round_order_and_paths_end_at_a_goal() {
    let terrain = flat3x3();
    let g1 = Axial::new(0, 1);
    let g2 = Axial::new(1, 1);
    let goals = vec![g1, g2];
    let field = build_flow_field(&terrain, &goals);
    assert_eq!(field.get_label(g1), Some(HexPathNode::Goal));
    assert_eq!(field.get_label(g2), Some(HexPathNode::Goal));
    // (1,0) is one hop from either goal; the first goal expands first
    // and reaches it through its second neighbor direction
    assert_eq!(field.get_label(Axial::new(1, 0)), Some(HexPathNode::BottomLeft));
    let path = field.get_path(Axial::new(1, 0)).unwrap();
    assert_eq!(path, vec![g1]);
    // the reader reaches a goal tile from everywhere that is labeled
    for col in 0..3 {
        for row in 0..3 {
            if let Some(path) = field.get_path(at(col, row)) {
                if let Some(last) = path.last() {
                    assert_eq!(field.get_label(*last), Some(HexPathNode::Goal));
                }
            }
        }
    }
}

#[test]
fn path_takes_the_shortest_open_route() {
    // the direct neighbor of the goal is a wall; the way around through
    // (0,1) is open, so the path from (1,1) has two hops, and the wall
    // tile is never labeled
    let terrain = terrain_of(&[(0, 0, 0), (1, 0, 3), (0, 1, 0), (1, 1, 0)]);
    let goals = vec![at(0, 0)];
    let field = build_flow_field(&terrain, &goals);
    assert!(field.get_label(at(1, 0)).is_none());
    assert!(field.get_path(at(1, 0)).is_none());
    let path = field.get_path(at(1, 1)).unwrap();
    assert_eq!(path.len(), 2);
    assert_eq!(path[0], at(0, 1));
    assert_eq!(path[1], at(0, 0));
}

#[test]
fn every_labeled_tile_points_at_a_traversable_labeled_neighbor() {
    let terrain = terrain_of(&[
        (0, 0, 0),
        (1, 0, 1),
        (2, 0, 2),
        (0, 1, 0),
        (1, 1, 1),
        (2, 1, 1),
        (0, 2, 0),
        (1, 2, 0),
        (2, 2, 1),
    ]);
    let goals = vec![at(0, 0)];
    let field = build_flow_field(&terrain, &goals);
    for col in 0..3 {
        for row in 0..3 {
            let tile = at(col, row);
            let tag = match field.get_label(tile) {
                Some(tag) => tag,
                None => continue,
            };
            if tag == HexPathNode::Goal {
                assert_eq!(tile, at(0, 0));
                continue;
            }
            let d = tag.to_hexes();
            let target = Axial::new(tile.q + d.q, tile.r + d.r);
            assert!(field.get_label(target).is_some());
            let h_here = terrain.get_tile(tile).unwrap().get_height() as i32;
            let h_there = terrain.get_tile(target).unwrap().get_height() as i32;
            assert!((h_here - h_there).abs() <= 1);
        }
    }
}

#[test]
fn tile_ringed_by_cliffs_is_never_labeled() {
    // a 7x7 field at height 1, a ring of height-2 walls, and a height-0
    // pit in the middle: the ring is walkable from outside (difference 1)
    // but the pit differs from every ring tile by 2 and stays unlabeled
    let center = Axial::new(2, 3);
    let ring_offsets = [(3, 2), (4, 2), (4, 3), (4, 4), (3, 4), (2, 3)];
    let mut tiles = Vec::new();
    for col in 0..7 {
        for row in 0..7 {
            let h = if (col, row) == (3, 3) {
                0
            } else if ring_offsets.contains(&(col, row)) {
                2
            } else {
                1
            };
            tiles.push((col as usize, row as usize, h));
        }
    }
    let terrain = terrain_of(&tiles);
    assert_eq!(at(3, 3), center);
    let field = build_flow_field(&terrain, &vec![at(0, 0)]);
    assert!(field.get_label(center).is_none());
    // the surrounding ring itself is reached
    for (col, row) in ring_offsets {
        assert!(field.get_label(at(col, row)).is_some());
    }
}

#[test]
fn rebuilding_twice_yields_identical_labels() {
    // the build is a pure function of terrain and goal set
    let terrain = flat3x3();
    let goals = vec![at(0, 0), Axial::new(2, 1)];
    let f1 = build_flow_field(&terrain, &goals);
    let f2 = build_flow_field(&terrain, &goals);
    for q in -5..5 {
        for r in -5..5 {
            let a = Axial::new(q, r);
            assert_eq!(f1.get_label(a), f2.get_label(a));
        }
    }
}

#[test]
fn update_dijkstra_hexmap_replaces_the_field() {
    let terrain = flat3x3();
    let mut field = build_flow_field(&terrain, &vec![at(0, 0)]);
    update_dijkstra_hexmap(&terrain, &mut field, &vec![at(2, 2)]);
    assert_eq!(field.get_label(at(2, 2)), Some(HexPathNode::Goal));
    assert!(field.get_path(at(0, 0)).is_some());
}

#[test]
fn generated_map_paths_reach_the_base() {
    let mut m = GameMap::new();
    let base = Axial::new(10, 5);
    // the initial field targets the base tile itself
    assert_eq!(m.dijkstra.get_label(base), Some(HexPathNode::Goal));
    // re-target the two tiles south of the base, as base placement does
    let goals = vec![Axial::new(10, 6), Axial::new(11, 6)];
    m.update_dijkstra(&goals);
    assert_eq!(m.dijkstra.get_label(Axial::new(10, 6)), Some(HexPathNode::Goal));
    assert_eq!(m.dijkstra.get_label(Axial::new(11, 6)), Some(HexPathNode::Goal));
    if let Some(path) = m.get_path(Axial::new(8, 4)) {
        let last = *path.last().unwrap();
        assert!(last == Axial::new(10, 6) || last == Axial::new(11, 6));
    }
}
