use dungeon_map::map::{MapError, TileMap};
use dungeon_map::map_builder::{place_exit, MapBuilder, MAP_SIZE_HEIGHT, MAP_SIZE_WIDTH};
use dungeon_map::path::distances_from;
use dungeon_map::rng::RandomSource;
use dungeon_map::TileType;

fn build_reference(seed: u64) -> MapBuilder {
    let mut rng = RandomSource::new(seed);
    MapBuilder::build(&mut rng, MAP_SIZE_WIDTH, MAP_SIZE_HEIGHT)
        .expect("a 14 x 21 build should succeed within the retry budget")
}

fn exit_indices(map: &TileMap) -> Vec<usize> {
    let mut found = Vec::new();
    for (idx, tile) in map.tiles.iter().enumerate() {
        if *tile == TileType::Exit {
            found.push(idx);
        }
    }
    found
}

#[test]
fn round_trip_all_coords() {
    let m = TileMap::new(14, 21);
    for y in 0..21usize {
        for x in 0..14usize {
            let idx = m.point_to_index(x, y);
            assert_eq!(m.index_to_point(idx), (x, y));
        }
    }
}

#[test]
fn round_trip_all_indices() {
    let m = TileMap::new(5, 4);
    for idx in 0..20usize {
        let (x, y) = m.index_to_point(idx);
        assert_eq!(m.point_to_index(x, y), idx);
    }
}

#[test]
fn fresh_grid_all_wall() {
    let m = TileMap::new(14, 21);
    for y in 0..21usize {
        for x in 0..14usize {
            assert_eq!(m.tile_at(x, y), TileType::Wall);
        }
    }
}

#[test]
fn dimension_getters_and_bounds() {
    let m = TileMap::new(14, 21);
    assert_eq!(m.width(), 14);
    assert_eq!(m.height(), 21);
    assert!(m.in_bounds(13, 20));
    assert!(!m.in_bounds(14, 0));
    assert!(!m.in_bounds(0, 21));
}

#[test]
fn zero_dimension_is_invalid() {
    assert_eq!(TileMap::try_new(0, 21).err(), Some(MapError::InvalidDimensions));
    assert_eq!(TileMap::try_new(14, 0).err(), Some(MapError::InvalidDimensions));
    assert!(TileMap::try_new(14, 21).is_ok());
}

#[test]
fn tile_lookup_out_of_bounds() {
    let m = TileMap::new(3, 3);
    assert_eq!(m.try_tile_at(3, 0).err(), Some(MapError::OutOfBounds));
    assert_eq!(m.try_tile_at(0, 3).err(), Some(MapError::OutOfBounds));
    assert_eq!(m.try_tile_at(2, 2).ok(), Some(TileType::Wall));
}

#[test]
fn set_tile_round_trip() {
    let mut m = TileMap::new(4, 4);
    m.set_tile(2, 3, TileType::Floor);
    assert_eq!(m.tile_at(2, 3), TileType::Floor);
    assert_eq!(m.tile_at(3, 2), TileType::Wall);
}

#[test]
fn neighbors_of_open_cross() {
    // 3 x 3 grid, floors in a cross around the centre.
    let mut m = TileMap::new(3, 3);
    for (x, y) in [(1, 0), (0, 1), (1, 1), (2, 1), (1, 2)] {
        m.set_tile(x, y, TileType::Floor);
    }
    let center = m.point_to_index(1, 1);
    let mut nbrs = m.traversable_neighbors(center);
    nbrs.sort();
    assert_eq!(nbrs, vec![1, 3, 5, 7]);
    // A corner touches two wall tiles and two floor tiles.
    let corner = m.point_to_index(0, 0);
    let mut corner_nbrs = m.traversable_neighbors(corner);
    corner_nbrs.sort();
    assert_eq!(corner_nbrs, vec![1, 3]);
}

#[test]
fn flood_fill_on_corridor() {
    // A single open row: distances grow by one per cell.
    let mut m = TileMap::new(5, 1);
    for x in 0..5usize {
        m.set_tile(x, 0, TileType::Floor);
    }
    let dist = distances_from(&m, 0);
    assert_eq!(dist, vec![0, 1, 2, 3, 4]);
}

#[test]
fn flood_fill_marks_unreachable() {
    // Two floor cells separated by a wall.
    let mut m = TileMap::new(3, 1);
    m.set_tile(0, 0, TileType::Floor);
    m.set_tile(2, 0, TileType::Floor);
    let dist = distances_from(&m, 0);
    assert_eq!(dist[0], 0);
    assert_eq!(dist[1], usize::MAX);
    assert_eq!(dist[2], usize::MAX);
}

#[test]
fn build_deterministic_same_seed() {
    let a = build_reference(0xD1CE);
    let b = build_reference(0xD1CE);
    assert_eq!(a.map.tiles, b.map.tiles);
    assert_eq!((a.start_x, a.start_y), (b.start_x, b.start_y));
    assert_eq!(exit_indices(&a.map), exit_indices(&b.map));
}

#[test]
fn build_has_single_reachable_exit() {
    let b = build_reference(7);
    let exits = exit_indices(&b.map);
    assert_eq!(exits.len(), 1);
    let start = b.map.point_to_index(b.start_x, b.start_y);
    let dist = distances_from(&b.map, start);
    assert_ne!(dist[exits[0]], usize::MAX);
}

#[test]
fn exit_is_farthest_with_lowest_index() {
    let b = build_reference(99);
    let exits = exit_indices(&b.map);
    assert_eq!(exits.len(), 1);
    let exit = exits[0];
    let start = b.map.point_to_index(b.start_x, b.start_y);
    let dist = distances_from(&b.map, start);
    for (idx, tile) in b.map.tiles.iter().enumerate() {
        if *tile == TileType::Floor && dist[idx] != usize::MAX {
            assert!(dist[idx] <= dist[exit]);
            if idx < exit {
                assert_ne!(dist[idx], dist[exit]);
            }
        }
    }
}

#[test]
fn scenario_reference_build() {
    // The reference configuration: the start is the centre of the
    // 14 x 21 grid, at least one floor tile exists, and the exit can
    // be walked to from the start.
    let b = build_reference(42);
    assert_eq!((b.start_x, b.start_y), (7, 10));
    assert_eq!(b.map.tile_at(7, 10), TileType::Floor);
    let floors = b.map.tiles.iter().filter(|t| **t == TileType::Floor).count();
    assert!(floors >= 1);
    let start = b.map.point_to_index(7, 10);
    let dist = distances_from(&b.map, start);
    let exits = exit_indices(&b.map);
    assert_eq!(exits.len(), 1);
    assert_ne!(dist[exits[0]], usize::MAX);
}

#[test]
fn degenerate_carve_exhausts_retries() {
    // A 1 x 1 grid can never carve a floor tile beyond the start, so
    // every attempt is rejected and the budget runs out.
    let mut rng = RandomSource::new(5);
    let r = MapBuilder::build(&mut rng, 1, 1);
    assert_eq!(r.err(), Some(MapError::MapGenerationFailed));
}

#[test]
fn build_rejects_zero_dimensions() {
    let mut rng = RandomSource::new(5);
    let r = MapBuilder::build(&mut rng, 0, 9);
    assert_eq!(r.err(), Some(MapError::InvalidDimensions));
}

#[test]
fn disconnected_map_is_reported() {
    // Only the start tile is floored: no candidate exit exists.
    let mut m = TileMap::new(3, 3);
    m.set_tile(1, 1, TileType::Floor);
    assert_eq!(place_exit(&mut m, 1, 1).err(), Some(MapError::DisconnectedMap));
    // The map is left untouched.
    assert_eq!(m.tile_at(1, 1), TileType::Floor);
    assert!(exit_indices(&m).is_empty());
}

#[test]
fn place_exit_picks_far_end_of_corridor() {
    let mut m = TileMap::new(5, 1);
    for x in 0..5usize {
        m.set_tile(x, 0, TileType::Floor);
    }
    let e = place_exit(&mut m, 0, 0).expect("the corridor has candidates");
    assert_eq!(e, 4);
    assert_eq!(m.tile_at(4, 0), TileType::Exit);
}

#[test]
fn place_exit_breaks_ties_by_lowest_index() {
    // Four floor tiles around the centre, all at distance one: the
    // lowest linear index wins.
    let mut m = TileMap::new(3, 3);
    for (x, y) in [(1, 0), (0, 1), (1, 1), (2, 1), (1, 2)] {
        m.set_tile(x, y, TileType::Floor);
    }
    let e = place_exit(&mut m, 1, 1).expect("the cross has candidates");
    assert_eq!(e, 1);
}

#[test]
fn random_source_replays_per_seed() {
    let mut a = RandomSource::new(123);
    let mut b = RandomSource::new(123);
    for _ in 0..8 {
        assert_eq!(a.next_value(), b.next_value());
    }
}

#[test]
fn random_source_advances() {
    // The drawn value is not the seed handed in, and the stream moves.
    let mut rng = RandomSource::new(0);
    let first = rng.next_value();
    assert_ne!(first, 0);
    let second = rng.next_value();
    assert_ne!(first, second);
}

#[test]
fn random_source_seeds_differ() {
    let mut a = RandomSource::new(1);
    let mut b = RandomSource::new(2);
    let draws_a: Vec<u64> = (0..4).map(|_| a.next_value()).collect();
    let draws_b: Vec<u64> = (0..4).map(|_| b.next_value()).collect();
    assert_ne!(draws_a, draws_b);
}

#[test]
fn builder_new_uses_reference_dimensions() {
    let mut rng = RandomSource::new(9);
    let b = MapBuilder::new(&mut rng).expect("the reference build should succeed");
    assert_eq!(b.map.width(), MAP_SIZE_WIDTH);
    assert_eq!(b.map.height(), MAP_SIZE_HEIGHT);
    assert_eq!((b.start_x, b.start_y), (MAP_SIZE_WIDTH / 2, MAP_SIZE_HEIGHT / 2));
    assert_eq!(exit_indices(&b.map).len(), 1);
}
