use screeps_sim_core::body::{BodyPartDef, Part, SimBody};
use screeps_sim_core::movement::{is_edge, resolve_moves, resolve_moves_with_pulls, step};
use screeps_sim_core::position::{Direction, Position, RoomName};
use screeps_sim_core::world::{CreepId, MovementState, SimCreep};
use std::collections::HashMap;

fn room(name: &str) -> RoomName {
    let room: screeps::RoomName = name.parse().unwrap();
    RoomName::from_packed(room.packed_repr())
}

fn pos_in(name: &str, x: u8, y: u8) -> Position {
    Position::new(x, y, room(name)).unwrap()
}

fn pos(x: u8, y: u8) -> Position {
    pos_in("W1N1", x, y)
}

fn creep(id: CreepId, x: u8, y: u8, parts: &[(Part, u32)], fatigue: u32) -> SimCreep {
    let body: Vec<BodyPartDef> = parts
        .iter()
        .flat_map(|&(p, n)| std::iter::repeat(BodyPartDef::new(p)).take(n as usize))
        .collect();
    SimCreep { id, owner: 0, pos: pos(x, y), body: SimBody::new(body), fatigue, carry_used: 0 }
}

fn moves(pairs: &[(CreepId, Direction)]) -> HashMap<CreepId, Direction> {
    pairs.iter().copied().collect()
}

#[test]
fn simple_move_to_empty_tile() {
    let world = MovementState {
        creeps: vec![creep(1, 25, 25, &[(Part::Move, 1)], 0)],
        ..Default::default()
    };
    let r = resolve_moves(&world, &moves(&[(1, Direction::Right)]));
    assert_eq!(r.get(&1), Some(&pos(26, 25)));
}

#[test]
fn wall_blocks_the_move() {
    let mut world = MovementState {
        creeps: vec![creep(1, 25, 25, &[(Part::Move, 1)], 0)],
        ..Default::default()
    };
    world.terrain.walls.insert((26, 25));
    assert!(resolve_moves(&world, &moves(&[(1, Direction::Right)])).is_empty());
}

#[test]
fn fatigued_or_moveless_cannot_move() {
    let world = MovementState {
        creeps: vec![
            creep(1, 10, 10, &[(Part::Attack, 1), (Part::Move, 1)], 5), // fatigued
            creep(2, 20, 20, &[(Part::Attack, 1)], 0),                  // no MOVE part
        ],
        ..Default::default()
    };
    let r = resolve_moves(
        &world,
        &moves(&[(1, Direction::Right), (2, Direction::Right)]),
    );
    assert!(r.is_empty());
}

#[test]
fn two_creeps_contest_one_tile_only_one_moves() {
    // Both want (25,25); higher move/weight ratio wins. C1 is all-MOVE (rate4 high), C2 carries
    // dead weight (lower rate4) → C1 wins, C2 stays.
    let world = MovementState {
        creeps: vec![
            creep(1, 24, 25, &[(Part::Move, 2)], 0),
            creep(2, 26, 25, &[(Part::Attack, 4), (Part::Move, 1)], 0),
        ],
        ..Default::default()
    };
    let r = resolve_moves(
        &world,
        &moves(&[(1, Direction::Right), (2, Direction::Left)]),
    );
    assert_eq!(r.len(), 1);
    assert_eq!(r.get(&1), Some(&pos(25, 25)));
    assert!(!r.contains_key(&2));
}

#[test]
fn adjacent_creeps_swap() {
    // C1 at (25,25)→(26,25); C2 at (26,25)→(25,25). Mutual swap: both move.
    let world = MovementState {
        creeps: vec![
            creep(1, 25, 25, &[(Part::Move, 1)], 0),
            creep(2, 26, 25, &[(Part::Move, 1)], 0),
        ],
        ..Default::default()
    };
    let r = resolve_moves(
        &world,
        &moves(&[(1, Direction::Right), (2, Direction::Left)]),
    );
    assert_eq!(r.get(&1), Some(&pos(26, 25)));
    assert_eq!(r.get(&2), Some(&pos(25, 25)));
}

#[test]
fn blocked_front_stops_the_column() {
    // A column: C1(24,25)→(25,25); C2(23,25)→(24,25). A wall at (25,25) blocks C1; C2 wanted
    // C1's tile, so the chain-block stops C2 too.
    let mut world = MovementState {
        creeps: vec![
            creep(1, 24, 25, &[(Part::Move, 1)], 0),
            creep(2, 23, 25, &[(Part::Move, 1)], 0),
        ],
        ..Default::default()
    };
    world.terrain.walls.insert((25, 25));
    let r = resolve_moves(
        &world,
        &moves(&[(1, Direction::Right), (2, Direction::Right)]),
    );
    assert!(
        r.is_empty(),
        "blocked front must stop the follower (cohesion)"
    );
}

#[test]
fn column_advances_when_front_is_clear() {
    // Same column, no wall: C1 moves into the empty tile, C2 follows into C1's vacated tile.
    let world = MovementState {
        creeps: vec![
            creep(1, 24, 25, &[(Part::Move, 1)], 0),
            creep(2, 23, 25, &[(Part::Move, 1)], 0),
        ],
        ..Default::default()
    };
    let r = resolve_moves(
        &world,
        &moves(&[(1, Direction::Right), (2, Direction::Right)]),
    );
    assert_eq!(r.get(&1), Some(&pos(25, 25)));
    assert_eq!(r.get(&2), Some(&pos(24, 25)));
}

fn pulls(pairs: &[(CreepId, CreepId)]) -> HashMap<CreepId, CreepId> {
    pairs.iter().copied().collect()
}

#[test]
fn pull_drags_a_zero_move_creep() {
    // Puller (MOVE) at (25,25)→(26,25) drags a no-MOVE creep at (24,25) into its vacated tile.
    let world = MovementState {
        creeps: vec![
            creep(1, 25, 25, &[(Part::Move, 1)], 0),
            creep(2, 24, 25, &[(Part::Attack, 5)], 0), // no MOVE part
        ],
        ..Default::default()
    };
    let r =
        resolve_moves_with_pulls(&world, &moves(&[(1, Direction::Right)]), &pulls(&[(1, 2)]));
    assert_eq!(r.get(&1), Some(&pos(26, 25)), "puller advances");
    assert_eq!(
        r.get(&2),
        Some(&pos(25, 25)),
        "pulled creep follows into vacated tile"
    );
}

#[test]
fn zero_move_creep_cannot_move_unpulled() {
    // Same no-MOVE creep, given a direct move intent but NOT pulled → it cannot move.
    let world = MovementState {
        creeps: vec![creep(2, 24, 25, &[(Part::Attack, 5)], 0)],
        ..Default::default()
    };
    let r = resolve_moves(&world, &moves(&[(2, Direction::Right)]));
    assert!(r.is_empty(), "a no-MOVE creep is immobile without a pull");
}

#[test]
fn pulled_creep_moves_despite_fatigue() {
    // The dragged creep has MOVE parts but nonzero fatigue (would normally be stuck). The
    // pull bypasses both fatigue and the MOVE requirement, so it still follows.
    let world = MovementState {
        creeps: vec![
            creep(1, 25, 25, &[(Part::Move, 1)], 0),
            creep(2, 24, 25, &[(Part::Move, 1), (Part::Attack, 4)], 8), // fatigued
        ],
        ..Default::default()
    };
    let r =
        resolve_moves_with_pulls(&world, &moves(&[(1, Direction::Right)]), &pulls(&[(1, 2)]));
    assert_eq!(r.get(&1), Some(&pos(26, 25)));
    assert_eq!(
        r.get(&2),
        Some(&pos(25, 25)),
        "fatigue does not stop a pulled creep"
    );
}

#[test]
fn pull_does_nothing_when_puller_is_blocked() {
    // Puller blocked by a wall → it stays, so the pulled creep has nothing to follow into.
    let mut world = MovementState {
        creeps: vec![
            creep(1, 25, 25, &[(Part::Move, 1)], 0),
            creep(2, 24, 25, &[(Part::Attack, 5)], 0),
        ],
        ..Default::default()
    };
    world.terrain.walls.insert((26, 25));
    let r =
        resolve_moves_with_pulls(&world, &moves(&[(1, Direction::Right)]), &pulls(&[(1, 2)]));
    assert!(r.is_empty(), "a blocked puller drags no one");
}

#[test]
fn step_does_not_cross_room_boundaries() {
    // A within-room step works; a step off the room edge returns None (crossing is not a move: the
    // edge-exit relocation of the tick does that).
    assert_eq!(
        step(pos_in("W1N1", 48, 25), Direction::Right),
        Some(pos_in("W1N1", 49, 25)),
        "an in-room step advances"
    );
    assert_eq!(
        step(pos_in("W1N1", 49, 25), Direction::Right),
        None,
        "a step off the east edge is rejected (no within-room cross)"
    );
    assert_eq!(step(pos_in("W1N1", 0, 25), Direction::Left), None, "off the west edge: rejected");
    assert_eq!(step(pos_in("W1N1", 25, 0), Direction::Top), None, "off the north edge: rejected");
    assert_eq!(step(pos_in("W1N1", 25, 49), Direction::Bottom), None, "off the south edge: rejected");
}

#[test]
fn resolve_moves_does_not_carry_a_creep_off_an_edge() {
    // A creep on the east edge moving Right does NOT move within the room (the cross is the
    // edge-exit relocation of the tick, not a movement-phase step).
    let world = MovementState {
        creeps: vec![creep(1, 49, 25, &[(Part::Move, 1)], 0)],
        ..Default::default()
    };
    let r = resolve_moves(&world, &moves(&[(1, Direction::Right)]));
    assert!(r.is_empty(), "an off-edge move yields no within-room movement");
}

#[test]
fn wall_check_reads_the_creeps_own_room_terrain() {
    // Movement in a NON-default room reads that room's terrain override: a
    // creep in W3N1 moving within W3N1 is blocked by a wall placed in W3N1's override, and the
    // default terrain (a different room) is not consulted.
    let mk = |wall: bool| {
        let mut w = MovementState {
            creeps: vec![SimCreep {
                id: 1,
                owner: 0,
                pos: pos_in("W3N1", 24, 25),
                body: SimBody::new(vec![BodyPartDef::new(Part::Move)]),
                fatigue: 0,
                carry_used: 0,
            }],
            ..Default::default()
        };
        w.terrain_mut(room("W1N1")).walls.insert((25, 25)); // a DIFFERENT room's wall — must be ignored
        if wall {
            w.terrain_mut(room("W3N1")).walls.insert((25, 25));
        }
        w
    };
    assert_eq!(
        resolve_moves(&mk(false), &moves(&[(1, Direction::Right)])).get(&1),
        Some(&pos_in("W3N1", 25, 25)),
        "a wall in a different room (W1N1) is ignored → the creep advances in W3N1"
    );
    assert!(
        resolve_moves(&mk(true), &moves(&[(1, Direction::Right)])).is_empty(),
        "a wall in the creep's own room (W3N1) blocks it"
    );
}

#[test]
fn creeps_in_different_rooms_do_not_contend_for_the_same_xy() {
    // Two creeps, one in each of two rooms, each stepping Right toward (25,25) in ITS OWN room.
    // (x,y)-keyed contention would make them fight over a single tile so only one
    // moves; Position-keyed contention lets both advance.
    let mk = |id: CreepId, name: &str| SimCreep {
        id,
        owner: 0,
        pos: pos_in(name, 24, 25),
        body: SimBody::new(vec![BodyPartDef::new(Part::Move)]),
        fatigue: 0,
        carry_used: 0,
    };
    let world = MovementState {
        creeps: vec![mk(1, "W1N1"), mk(2, "W3N1")],
        ..Default::default()
    };
    let r = resolve_moves(&world, &moves(&[(1, Direction::Right), (2, Direction::Right)]));
    assert_eq!(r.get(&1), Some(&pos_in("W1N1", 25, 25)), "creep in room 1 advances");
    assert_eq!(
        r.get(&2),
        Some(&pos_in("W3N1", 25, 25)),
        "creep in room 2 advances too — no cross-room (x,y) contention"
    );
}

#[test]
fn stacked_tile_obstacle_is_order_independent() {
    // Cross-room entry is occupancy-blind, so two creeps may share a Position until they walk apart.
    // The obstacle decision over such a stack must NOT depend on `world.creeps` Vec order. Here A@(0,25) is
    // a mover vacating (Top), B@(0,25) is a NON-MOVER staying, C@(1,25) moves Left toward (0,25). B
    // stays on (0,25), so C must ALWAYS be blocked.
    let mk = |order: &[u8; 3]| -> MovementState {
        let by_id = |id: u8| match id {
            1 => creep(1, 0, 25, &[(Part::Move, 1)], 0),   // A: mover, will move Top (vacates 0,25)
            2 => creep(2, 0, 25, &[(Part::Attack, 1)], 0), // B: no MOVE part → non-mover, stays on 0,25
            _ => creep(3, 1, 25, &[(Part::Move, 1)], 0),   // C: mover, will move Left toward (0,25)
        };
        MovementState { creeps: order.iter().map(|&id| by_id(id)).collect(), ..Default::default() }
    };
    let mvs = moves(&[(1, Direction::Top), (3, Direction::Left)]);
    let perms: [[u8; 3]; 6] = [[1, 2, 3], [1, 3, 2], [2, 1, 3], [2, 3, 1], [3, 1, 2], [3, 2, 1]];
    let results: Vec<Option<Position>> = perms.iter().map(|p| resolve_moves(&mk(p), &mvs).get(&3).copied()).collect();
    assert!(results.iter().all(|r| *r == results[0]), "C's resolved move must be order-independent over a stacked tile, got {results:?}");
    assert_eq!(results[0], None, "C must be blocked by the staying B on (0,25) (B does not vacate)");
}

#[test]
fn edges_are_the_outer_tiles() {
    assert!(is_edge(0, 25) && is_edge(49, 25) && is_edge(25, 0) && is_edge(25, 49));
    assert!(!is_edge(1, 25) && !is_edge(48, 48) && !is_edge(25, 1));
}

#[test]
fn every_direction_steps_to_its_neighbour() {
    let cases = [
        (Direction::Top, 25, 24),
        (Direction::TopRight, 26, 24),
        (Direction::Right, 26, 25),
        (Direction::BottomRight, 26, 26),
        (Direction::Bottom, 25, 26),
        (Direction::BottomLeft, 24, 26),
        (Direction::Left, 24, 25),
        (Direction::TopLeft, 24, 24),
    ];
    for (dir, x, y) in cases {
        assert_eq!(step(pos(25, 25), dir), Some(pos(x, y)));
    }
    assert_eq!(step(pos(0, 0), Direction::TopRight), None);
}

#[test]
fn of_equal_rivals_the_first_wins() {
    let world = MovementState {
        creeps: vec![
            creep(8, 24, 25, &[(Part::Move, 1)], 0),
            creep(3, 26, 25, &[(Part::Move, 1)], 0),
        ],
        ..Default::default()
    };
    let r = resolve_moves(&world, &moves(&[(8, Direction::Right), (3, Direction::Left)]));
    assert_eq!(r.get(&8), Some(&pos(25, 25)));
    assert_eq!(r.len(), 1);
}

#[test]
fn a_load_counts_in_contention() {
    // Same bodies; the first carries 100, so its weight is 2 against 1.
    let mut loaded = creep(1, 24, 25, &[(Part::Carry, 2), (Part::Move, 1)], 0);
    loaded.carry_used = 100;
    let empty = creep(2, 26, 25, &[(Part::Carry, 2), (Part::Move, 1)], 0);
    let world = MovementState { creeps: vec![loaded, empty], ..Default::default() };
    let r = resolve_moves(&world, &moves(&[(1, Direction::Right), (2, Direction::Left)]));
    assert_eq!(r.get(&2), Some(&pos(25, 25)));
    assert_eq!(r.len(), 1);
}

#[test]
fn a_wanted_tile_gives_precedence() {
    // Creeps 1 and 2 want (25,25). Creep 3 wants the tile of creep 2, so creep 2 goes first although
    // creep 1 is faster.
    let world = MovementState {
        creeps: vec![
            creep(1, 24, 25, &[(Part::Move, 5)], 0),
            creep(2, 26, 25, &[(Part::Attack, 2), (Part::Move, 1)], 0),
            creep(3, 27, 25, &[(Part::Move, 1)], 0),
        ],
        ..Default::default()
    };
    let r = resolve_moves(
        &world,
        &moves(&[(1, Direction::Right), (2, Direction::Left), (3, Direction::Left)]),
    );
    assert_eq!(r.get(&2), Some(&pos(25, 25)));
    assert_eq!(r.get(&3), Some(&pos(26, 25)));
    assert!(!r.contains_key(&1));
}

#[test]
fn a_swap_beats_a_faster_rival() {
    let world = MovementState {
        creeps: vec![
            creep(1, 25, 24, &[(Part::Move, 5)], 0),
            creep(2, 25, 25, &[(Part::Attack, 4), (Part::Move, 1)], 0),
            creep(3, 26, 25, &[(Part::Attack, 4), (Part::Move, 1)], 0),
        ],
        ..Default::default()
    };
    let r = resolve_moves(
        &world,
        &moves(&[(1, Direction::Bottom), (2, Direction::Right), (3, Direction::Left)]),
    );
    assert_eq!(r.get(&2), Some(&pos(26, 25)));
    assert_eq!(r.get(&3), Some(&pos(25, 25)));
    assert_eq!(r.len(), 2);
}

#[test]
fn a_ring_of_creeps_turns() {
    let world = MovementState {
        creeps: vec![
            creep(1, 10, 10, &[(Part::Move, 1)], 0),
            creep(2, 11, 10, &[(Part::Move, 1)], 0),
            creep(3, 10, 11, &[(Part::Move, 1)], 0),
        ],
        ..Default::default()
    };
    let r = resolve_moves(
        &world,
        &moves(&[(1, Direction::Right), (2, Direction::BottomLeft), (3, Direction::Top)]),
    );
    assert_eq!(r.get(&1), Some(&pos(11, 10)));
    assert_eq!(r.get(&2), Some(&pos(10, 11)));
    assert_eq!(r.get(&3), Some(&pos(10, 10)));
}

#[test]
fn the_dead_neither_move_nor_block() {
    let mut dead = creep(2, 26, 25, &[(Part::Move, 1)], 0);
    dead.body.hits = 0;
    let world = MovementState {
        creeps: vec![creep(1, 25, 25, &[(Part::Move, 1)], 0), dead],
        ..Default::default()
    };
    let r = resolve_moves(&world, &moves(&[(1, Direction::Right), (2, Direction::Right)]));
    assert_eq!(r.get(&1), Some(&pos(26, 25)));
    assert!(!r.contains_key(&2));
}

#[test]
fn a_standing_creep_blocks() {
    let world = MovementState {
        creeps: vec![
            creep(1, 25, 25, &[(Part::Move, 1)], 0),
            creep(2, 26, 25, &[(Part::Move, 1)], 0),
        ],
        ..Default::default()
    };
    assert!(resolve_moves(&world, &moves(&[(1, Direction::Right)])).is_empty());
}

#[test]
fn of_two_pullers_the_lower_id_drags() {
    let world = MovementState {
        creeps: vec![
            creep(5, 24, 24, &[(Part::Move, 1)], 0),
            creep(4, 24, 26, &[(Part::Move, 1)], 0),
            creep(9, 25, 25, &[(Part::Tough, 1)], 0),
        ],
        ..Default::default()
    };
    let r = resolve_moves_with_pulls(
        &world,
        &moves(&[(5, Direction::Left), (4, Direction::Left)]),
        &pulls(&[(5, 9), (4, 9)]),
    );
    assert_eq!(r.get(&9), Some(&pos(24, 26)));
    assert_eq!(r.len(), 3);
}

#[test]
fn a_pull_needs_an_adjacent_moving_puller() {
    let world = MovementState {
        creeps: vec![
            creep(1, 25, 25, &[(Part::Move, 1)], 0),
            creep(2, 23, 25, &[(Part::Tough, 1)], 0),
            creep(3, 25, 26, &[(Part::Tough, 1)], 0),
        ],
        ..Default::default()
    };
    let far = resolve_moves_with_pulls(&world, &moves(&[(1, Direction::Right)]), &pulls(&[(1, 2)]));
    assert_eq!(far.len(), 1, "two tiles away is too far");
    let idle = resolve_moves_with_pulls(&world, &moves(&[]), &pulls(&[(1, 3)]));
    assert!(idle.is_empty(), "a puller without a move drags no one");
}

#[test]
fn a_pull_reaches_across_a_room_border() {
    // W1N1 (49,25) and W0N1 (0,25) are adjacent tiles of different rooms.
    let mut puller = creep(1, 0, 25, &[(Part::Move, 1)], 0);
    puller.pos = pos_in("W0N1", 0, 25);
    let pulled = creep(2, 49, 25, &[(Part::Tough, 1)], 0);
    let world = MovementState { creeps: vec![puller, pulled], ..Default::default() };
    let r = resolve_moves_with_pulls(&world, &moves(&[(1, Direction::Right)]), &pulls(&[(1, 2)]));
    assert_eq!(r.get(&1), Some(&pos_in("W0N1", 1, 25)));
    assert_eq!(r.get(&2), Some(&pos_in("W0N1", 0, 25)));
}

#[test]
fn no_two_creeps_end_on_one_tile() {
    // A full 5×5 block in which everyone wants some step: whatever is resolved, tiles stay distinct
    // and nobody enters the wall row.
    let dirs = [
        Direction::Top,
        Direction::TopRight,
        Direction::Right,
        Direction::BottomRight,
        Direction::Bottom,
        Direction::BottomLeft,
        Direction::Left,
        Direction::TopLeft,
    ];
    for salt in 0..40u32 {
        let mut creeps = Vec::new();
        let mut wanted = HashMap::new();
        for i in 0..25u32 {
            creeps.push(creep(i, 10 + (i % 5) as u8, 10 + (i / 5) as u8, &[(Part::Move, 1)], 0));
            wanted.insert(i, dirs[((i * 7 + salt * 13 + i * salt) % 8) as usize]);
        }
        let mut world = MovementState { creeps, ..Default::default() };
        for x in 8..18u8 {
            world.terrain.walls.insert((x, 9));
        }
        let r = resolve_moves(&world, &wanted);
        let mut seen = std::collections::HashSet::new();
        for c in &world.creeps {
            let at = r.get(&c.id).copied().unwrap_or(c.pos);
            assert!(seen.insert(at), "two creeps on {at:?}");
            assert!(!world.terrain.is_wall(at.x, at.y));
            if let Some(to) = r.get(&c.id) {
                assert_eq!(step(c.pos, wanted[&c.id]), Some(*to));
            }
        }
    }
}
