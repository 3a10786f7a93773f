use screeps_sim_core::constants::{FATIGUE_RATE_PLAIN, FATIGUE_RATE_ROAD, FATIGUE_RATE_SWAMP};
use screeps_sim_core::terrain::SimTerrain;
use screeps_sim_core::tiles::TileSet;

#[test]
fn road_overrides_swamp_and_plain() {
    let mut t = SimTerrain::default();
    assert_eq!(t.fatigue_rate(10, 10), FATIGUE_RATE_PLAIN, "bare tile is plain");
    t.swamps.insert((10, 10));
    assert_eq!(t.fatigue_rate(10, 10), FATIGUE_RATE_SWAMP, "swamp raises the rate");
    t.roads.insert((10, 10)); // a road on the swamp
    assert_eq!(t.fatigue_rate(10, 10), FATIGUE_RATE_ROAD, "a road on a swamp lowers it to 1");
}

#[test]
fn rates_are_one_two_and_ten() {
    assert_eq!((FATIGUE_RATE_ROAD, FATIGUE_RATE_PLAIN, FATIGUE_RATE_SWAMP), (1, 2, 10));
}

#[test]
fn a_wall_blocks_even_under_a_road() {
    let mut t = SimTerrain::default();
    assert!(!t.is_wall(3, 4));
    t.walls.insert((3, 4));
    t.roads.insert((3, 4));
    assert!(t.is_wall(3, 4));
    assert!(!t.is_wall(4, 3));
    let copy = t.clone();
    assert_eq!(copy.walls, t.walls);
    assert_eq!(copy.roads, t.roads);
    assert_eq!(copy.swamps, t.swamps);
}

#[test]
fn tile_sets_hold_tiles_once() {
    let mut tiles = TileSet::new();
    assert_eq!(tiles.len(), 0);
    assert!(tiles.insert((0, 255)));
    assert!(tiles.insert((255, 0)));
    assert!(!tiles.insert((0, 255)));
    assert_eq!(tiles.len(), 2);
    assert!(tiles.contains(&(255, 0)) && !tiles.contains(&(0, 0)));
    assert!(tiles.remove(&(255, 0)));
    assert!(!tiles.remove(&(255, 0)));
    assert_eq!(tiles.len(), 1);
    tiles.insert((7, 9));
    let mut listed = tiles.to_vec();
    listed.sort();
    assert_eq!(listed, vec![(0, 255), (7, 9)]);
    assert!(TileSet::new().to_vec().is_empty());
    assert_ne!(tiles, TileSet::default());
    assert_eq!(tiles, tiles.clone());
}
