use screeps_sim_core::position::{Position, RoomName};
use screeps_sim_core::terrain::SimTerrain;
use screeps_sim_core::terrain_gen::{
    connected_open, generate_terrain, generate_terrain_for_room, generate_with_edges, seam_range,
    seam_range_between, EdgeDir, Exits, TerrainGenParams, EXIT_MID,
};
use std::collections::HashSet;

fn room(name: &str) -> RoomName {
    let room: screeps::RoomName = name.parse().unwrap();
    RoomName::from_packed(room.packed_repr())
}

/// Flood-fill the walkable region from the centre; return the reached tiles.
fn reachable_from_centre(t: &SimTerrain) -> HashSet<(u8, u8)> {
    let mut seen = HashSet::new();
    let mut stack = vec![(EXIT_MID, EXIT_MID)];
    while let Some((x, y)) = stack.pop() {
        if t.walls.contains(&(x, y)) || !seen.insert((x, y)) {
            continue;
        }
        for (dx, dy) in
            [(1i32, 0), (-1, 0), (0, 1), (0, -1), (1, 1), (1, -1), (-1, 1), (-1, -1)]
        {
            let (nx, ny) = (x as i32 + dx, y as i32 + dy);
            if (0..50).contains(&nx) && (0..50).contains(&ny) {
                stack.push((nx as u8, ny as u8));
            }
        }
    }
    seen
}

/// Deterministic in the seed; has real clustered walls (not open, not fully walled); every
/// requested exit is open AND connected to the centre.
#[test]
fn generates_connected_exits_and_real_walls() {
    let p = TerrainGenParams { exits: Exits::horizontal(), ..Default::default() };
    let t = generate_terrain(7, &p);
    let t2 = generate_terrain(7, &p);
    assert_eq!(t.walls, t2.walls, "deterministic in seed");
    assert_eq!(t.swamps, t2.swamps);
    // Real terrain: a substantial-but-not-total wall count (interior has cave structure).
    assert!(
        t.walls.len() > 200 && t.walls.len() < 2200,
        "clustered walls, not open/solid: {}",
        t.walls.len()
    );
    // The horizontal exits are open and both reachable from the centre.
    assert!(!t.walls.contains(&(0, EXIT_MID)), "left exit open");
    assert!(!t.walls.contains(&(49, EXIT_MID)), "right exit open");
    let reach = reachable_from_centre(&t);
    assert!(reach.contains(&(0, EXIT_MID)), "left exit connects to centre");
    assert!(reach.contains(&(49, EXIT_MID)), "right exit connects to centre");
    // A non-requested edge stays sealed (no top exit).
    assert!(t.walls.contains(&(EXIT_MID, 0)), "unrequested top edge stays walled");
}

/// Different seeds give different rooms (variety).
#[test]
fn seeds_vary() {
    let p = TerrainGenParams::default();
    assert_ne!(generate_terrain(1, &p).walls, generate_terrain(2, &p).walls);
}

/// The alignment invariant: two horizontally adjacent rooms, each generated on its own, have
/// identical open tiles on their shared seam.
#[test]
fn adjacent_rooms_share_a_matching_seam() {
    let a = room("E20N20");
    let b = Position::new(49, 25, a).unwrap().checked_add((1, 0)).unwrap().room;
    let p = TerrainGenParams::default();
    let ta = generate_terrain_for_room(a, 42, Exits::all(), &p);
    let tb = generate_terrain_for_room(b, 42, Exits::all(), &p);
    let mut open_seam = 0;
    for y in 0..50u8 {
        let a_east_open = !ta.walls.contains(&(49, y));
        let b_west_open = !tb.walls.contains(&(0, y));
        assert_eq!(
            a_east_open, b_west_open,
            "seam tile y={y}: A.east={a_east_open} B.west={b_west_open}"
        );
        if a_east_open {
            open_seam += 1;
        }
    }
    assert!(open_seam >= 3, "the seam has a real (≥3-wide) shared exit, not a sealed edge");
}

#[test]
fn seams_have_exact_ranges() {
    assert_eq!(seam_range(1, 2), (34, 36));
    assert_eq!(seam_range(2, 1), (34, 36));
    assert_eq!(seam_range(0, 0), (7, 9));
    assert_eq!(seam_range(123456, 654321), (30, 34));
    for id in 0..500u32 {
        let (lo, hi) = seam_range(id, id.wrapping_mul(2_654_435_761));
        assert!(5 <= lo && hi <= 44 && (2..=6).contains(&(hi - lo)));
    }
    assert_eq!(seam_range_between(room("E20N20"), room("E21N20")), (9, 13));
    assert_eq!(seam_range_between(room("E21N20"), room("E20N20")), (9, 13));
    assert_eq!(seam_range_between(room("E20N20"), room("E19N20")), (32, 36));
    assert_eq!(seam_range_between(room("E20N20"), room("E20N21")), (23, 27));
    assert_eq!(seam_range_between(room("E20N20"), room("E20N19")), (15, 21));
}

#[test]
fn generation_is_pinned_by_the_seed() {
    let p = TerrainGenParams { exits: Exits::horizontal(), ..Default::default() };
    let t = generate_terrain(7, &p);
    assert_eq!((t.walls.len(), t.swamps.len(), t.roads.len()), (402, 241, 0));
    assert!(!t.walls.contains(&(10, 10)));
    assert!(t.swamps.contains(&(0, 26)) && t.swamps.contains(&(1, 39)));
    let all = TerrainGenParams::default();
    assert_eq!(generate_terrain(1, &all).walls.len(), 408);
    assert_eq!(generate_terrain(2, &all).walls.len(), 392);
    let own = generate_terrain_for_room(room("E20N20"), 42, Exits::all(), &all);
    assert_eq!((own.walls.len(), own.swamps.len()), (376, 268));
}

#[test]
fn the_border_is_open_exactly_in_the_requested_bands() {
    let p = TerrainGenParams {
        exits: Exits { top: true, right: true, ..Default::default() },
        ..Default::default()
    };
    let t = generate_terrain(11, &p);
    for i in 0..50u8 {
        let band = (24..=26).contains(&i);
        assert_eq!(!t.walls.contains(&(i, 0)), band);
        assert_eq!(!t.walls.contains(&(49, i)), band);
        assert!(t.walls.contains(&(0, i)));
        assert!(t.walls.contains(&(i, 49)));
    }
    let reach = reachable_from_centre(&t);
    for i in 24..=26u8 {
        assert!(reach.contains(&(i, 0)) && reach.contains(&(49, i)));
    }
}

#[test]
fn a_solid_room_has_a_centre_and_straight_exits() {
    let p = TerrainGenParams {
        wall_fill_permille: 1001,
        smooth_iters: 0,
        swamp_fill_permille: 1001,
        exits: Exits { left: true, ..Default::default() },
    };
    let t = generate_terrain(3, &p);
    // The centre block and the three rows from the left edge to it: 9 + 3 × 24 tiles, all swamp.
    assert_eq!(t.walls.len(), 2500 - 81);
    assert_eq!(t.swamps.len(), 81);
    for x in 0..=26u8 {
        assert!(t.swamps.contains(&(x, 24)) && !t.walls.contains(&(x, 26)));
    }
    assert!(t.walls.contains(&(27, 25)));
}

#[test]
fn an_empty_fill_leaves_only_the_border() {
    let p = TerrainGenParams {
        wall_fill_permille: 0,
        smooth_iters: 0,
        swamp_fill_permille: 0,
        exits: Exits::default(),
    };
    let t = generate_terrain(3, &p);
    assert_eq!(t.walls.len(), 196);
    assert_eq!(t.swamps.len(), 0);
}

#[test]
fn walls_and_swamps_are_disjoint() {
    let t = generate_terrain(5, &TerrainGenParams::default());
    for x in 0..=255u8 {
        for y in 0..=255u8 {
            let wall = t.walls.contains(&(x, y));
            let swamp = t.swamps.contains(&(x, y));
            assert!(!(wall && swamp));
            assert!(!(wall || swamp) || x < 50 && y < 50);
        }
    }
}

/// Walls everywhere but the centre block.
fn solid() -> TerrainGenParams {
    TerrainGenParams {
        wall_fill_permille: 1001,
        smooth_iters: 0,
        swamp_fill_permille: 0,
        exits: Exits::default(),
    }
}

#[test]
fn an_exit_that_meets_no_cave_turns_to_the_centre() {
    let t = generate_with_edges(0, &solid(), &[(EdgeDir::Left, 5, 5)]);
    assert!(connected_open(&t, (25, 25)).contains(&(0, 5)));
    assert!(t.walls.contains(&(49, 5)), "the far border stays shut");
    // The centre block, the row to the middle line and that line down to the block.
    assert_eq!(t.walls.len(), 2500 - 9 - 26 - 18);
    assert!(!t.walls.contains(&(25, 5)) && t.walls.contains(&(26, 5)));
    assert!(!t.walls.contains(&(25, 23)) && t.walls.contains(&(24, 23)));
    let open = [(EdgeDir::Right, 40), (EdgeDir::Top, 3), (EdgeDir::Bottom, 47), (EdgeDir::Left, 49)];
    for (dir, b) in open {
        let t = generate_with_edges(0, &solid(), &[(dir, b, b)]);
        let exit = match dir {
            EdgeDir::Left => (0, b),
            EdgeDir::Right => (49, b),
            EdgeDir::Top => (b, 0),
            EdgeDir::Bottom => (b, 49),
        };
        assert!(connected_open(&t, exit).contains(&(25, 25)));
    }
}

#[test]
fn adjacent_solid_rooms_match_along_their_seam_alone() {
    let (a, b) = (room("E20N20"), room("E21N20"));
    let ta = generate_terrain_for_room(a, 42, Exits::all(), &solid());
    let tb = generate_terrain_for_room(b, 42, Exits::all(), &solid());
    let (lo, hi) = seam_range_between(a, b);
    assert_eq!((lo, hi), (9, 13));
    let (from_a, from_b) = (connected_open(&ta, (25, 25)), connected_open(&tb, (25, 25)));
    for y in 0..50u8 {
        let seam = lo <= y && y <= hi;
        assert_eq!(!ta.walls.contains(&(49, y)), seam);
        assert_eq!(!tb.walls.contains(&(0, y)), seam);
        assert_eq!(from_a.contains(&(49, y)), seam);
        assert_eq!(from_b.contains(&(0, y)), seam);
    }
    // An edge without an exit stays shut, whatever the opposite one does.
    let west = Exits { left: true, ..Default::default() };
    let shut = generate_terrain_for_room(a, 42, west, &solid());
    for y in 0..50u8 {
        assert!(shut.walls.contains(&(49, y)));
    }
}

#[test]
fn exit_lists_join() {
    let p = TerrainGenParams::default();
    let (first, second) = ((EdgeDir::Left, 5, 7), (EdgeDir::Top, 30, 33));
    let one = generate_with_edges(6, &p, &[first]);
    let two = generate_with_edges(6, &p, &[second]);
    let both = generate_with_edges(6, &p, &[first, second]);
    let swapped = generate_with_edges(6, &p, &[second, first]);
    assert_eq!(both.walls, swapped.walls);
    for x in 0..50u8 {
        for y in 0..50u8 {
            assert_eq!(
                both.walls.contains(&(x, y)),
                one.walls.contains(&(x, y)) && two.walls.contains(&(x, y))
            );
        }
    }
    let none = generate_with_edges(6, &p, &[]);
    assert!(none.walls.len() > both.walls.len());
    assert_eq!(generate_with_edges(6, &p, &[(EdgeDir::Left, 9, 8)]).walls, none.walls);
}

#[test]
fn a_room_at_the_end_of_the_map_has_no_exit_there() {
    let p = TerrainGenParams::default();
    let t = generate_terrain_for_room(room("W127N127"), 1, Exits::all(), &p);
    for i in 0..50u8 {
        assert!(t.walls.contains(&(0, i)), "nothing lies to the west");
        assert!(t.walls.contains(&(i, 0)), "nothing lies to the north");
    }
    let (lo, hi) = seam_range_between(room("W127N127"), room("W126N127"));
    assert!(!t.walls.contains(&(49, lo)) && !t.walls.contains(&(49, hi)));
}

#[test]
fn unconnected_edges_stay_walled() {
    let p = TerrainGenParams::default();
    let t = generate_terrain_for_room(room("E5S5"), 9, Exits::horizontal(), &p);
    for i in 0..50u8 {
        assert!(t.walls.contains(&(i, 0)) && t.walls.contains(&(i, 49)));
    }
}

#[test]
fn connected_open_is_the_region_of_its_start() {
    let t = generate_terrain(7, &TerrainGenParams::default());
    let region = connected_open(&t, (EXIT_MID, EXIT_MID));
    let reach = reachable_from_centre(&t);
    assert_eq!(region.len(), reach.len());
    for tile in &reach {
        assert!(region.contains(tile));
    }
    let other = reach.iter().copied().next().unwrap();
    assert_eq!(connected_open(&t, other), region, "every tile of a region has the same region");
}

#[test]
fn connected_open_of_a_wall_is_empty() {
    let t = generate_terrain(7, &TerrainGenParams::default());
    assert_eq!(connected_open(&t, (0, 0)).len(), 0);
    let mut sealed = SimTerrain::default();
    for x in 0..3u8 {
        for y in 0..3u8 {
            if (x, y) != (0, 0) && (x, y) != (1, 1) {
                sealed.walls.insert((x, y));
            }
        }
    }
    let pocket = connected_open(&sealed, (0, 0));
    assert_eq!(pocket.len(), 2);
    assert!(pocket.contains(&(1, 1)));
    assert_eq!(connected_open(&SimTerrain::default(), (25, 25)).len(), 2500);
}

#[test]
fn exits_name_their_edges() {
    assert_eq!(Exits::all(), Exits { top: true, bottom: true, left: true, right: true });
    assert_eq!(Exits::horizontal(), Exits { top: false, bottom: false, left: true, right: true });
    assert_eq!(Exits::default(), Exits { top: false, bottom: false, left: false, right: false });
    let p = TerrainGenParams::default();
    assert_eq!((p.wall_fill_permille, p.smooth_iters, p.swamp_fill_permille), (450, 4, 120));
    assert_eq!(p.exits, Exits::all());
}

#[test]
fn rooms_with_fixed_bands_chain_into_a_corridor() {
    let p = TerrainGenParams { exits: Exits::horizontal(), ..Default::default() };
    let near = connected_open(&generate_terrain(21, &p), (EXIT_MID, EXIT_MID));
    let far = connected_open(&generate_terrain(22, &p), (EXIT_MID, EXIT_MID));
    for y in 24..=26u8 {
        let from = Position::new(49, y, room("E3S3")).unwrap();
        let to = from.checked_add((1, 0)).unwrap();
        assert_eq!((to.x, to.y, to.room), (0, y, room("E4S3")));
        assert!(near.contains(&(from.x, from.y)) && far.contains(&(to.x, to.y)));
    }
}

#[test]
fn seam_exits_reach_the_centre() {
    let p = TerrainGenParams::default();
    for name in ["E20N20", "W3S7", "E0N0"] {
        let own = room(name);
        let t = generate_terrain_for_room(own, 42, Exits::all(), &p);
        let region = connected_open(&t, (EXIT_MID, EXIT_MID));
        let east = Position::new(49, 25, own).unwrap().checked_add((1, 0)).unwrap().room;
        let (lo, hi) = seam_range_between(own, east);
        for y in lo..=hi {
            assert!(region.contains(&(49, y)), "{name}: exit tile {y} is cut off");
        }
    }
}
