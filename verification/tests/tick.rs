use screeps_sim_core::body::{BodyPartDef, Part, SimBody};
use screeps_sim_core::intents::MoveIntents;
use screeps_sim_core::position::{Direction, Position, RoomName};
use screeps_sim_core::sim::{MovementSim, Simulation};
use screeps_sim_core::tick::{resolve_movement, MovementReport};
use screeps_sim_core::world::{MovementState, SimCreep};

fn pos_in(name: &str, x: u8, y: u8) -> Position {
    let room: screeps::RoomName = name.parse().unwrap();
    Position::new(x, y, RoomName::from_packed(room.packed_repr())).unwrap()
}

fn pos(x: u8, y: u8) -> Position {
    pos_in("W1N1", x, y)
}

fn creep(body: &[Part], carry_used: u32) -> SimCreep {
    SimCreep {
        id: 1,
        owner: 0,
        pos: pos(25, 25),
        body: SimBody::new(body.iter().map(|&p| BodyPartDef::new(p)).collect()),
        fatigue: 0,
        carry_used,
    }
}

fn step_right(mut world: MovementState) -> u32 {
    let mut mv = MoveIntents::new();
    mv.set_move(1, Direction::Right);
    resolve_movement(&mut world, &mv);
    world.creeps[0].fatigue
}

#[test]
fn road_step_accrues_less_fatigue_than_plain() {
    // Weight-2 body (2×ATTACK + 1×MOVE): plain rate 2 → +4, regen 2 → net 2.
    let plain = step_right(MovementState {
        creeps: vec![creep(&[Part::Attack, Part::Attack, Part::Move], 0)],
        ..Default::default()
    });
    assert_eq!(plain, 2, "plain step: 2×2 − 2 = 2");

    // Same body over a road at the destination (26,25): rate 1 → +2, regen 2 → net 0.
    let mut roaded = MovementState {
        creeps: vec![creep(&[Part::Attack, Part::Attack, Part::Move], 0)],
        ..Default::default()
    };
    roaded.terrain.roads.insert((26, 25));
    assert_eq!(step_right(roaded), 0, "road step: 2×1 − 2 = 0 (roads reduce fatigue)");
}

#[test]
fn loaded_carry_accrues_fatigue_an_empty_hauler_does_not() {
    // Hauler [2×CARRY, 1×MOVE]: structural weight 0. Empty → 0 fatigue even after a plain step.
    let empty = step_right(MovementState {
        creeps: vec![creep(&[Part::Carry, Part::Carry, Part::Move], 0)],
        ..Default::default()
    });
    assert_eq!(empty, 0, "an empty hauler accrues no move-fatigue");

    // Loaded with 100 (2 CARRY units): weight 2, plain rate 2 → +4, regen 2 → net 2.
    let loaded = step_right(MovementState {
        creeps: vec![creep(&[Part::Carry, Part::Carry, Part::Move], 100)],
        ..Default::default()
    });
    assert_eq!(loaded, 2, "a fully loaded hauler accrues fatigue (2×2 − 2 = 2)");
}

#[test]
fn swamp_costs_ten_per_weight() {
    let mut world = MovementState {
        creeps: vec![creep(&[Part::Attack, Part::Attack, Part::Move], 0)],
        ..Default::default()
    };
    world.terrain.swamps.insert((26, 25));
    assert_eq!(step_right(world), 18);
}

#[test]
fn the_destination_room_sets_the_rate() {
    let mut world = MovementState {
        creeps: vec![creep(&[Part::Attack, Part::Attack, Part::Move], 0)],
        ..Default::default()
    };
    world.terrain.swamps.insert((26, 25));
    world.terrain_mut(pos(0, 0).room).roads.insert((26, 25));
    assert_eq!(step_right(world), 0, "the room's own terrain overrides the default");
}

#[test]
fn resting_clears_fatigue() {
    let mut c = creep(&[Part::Attack, Part::Move, Part::Move], 0);
    c.fatigue = 7;
    let mut world = MovementState { creeps: vec![c], ..Default::default() };
    let intents = MoveIntents::new();
    let mut left = Vec::new();
    for _ in 0..3 {
        resolve_movement(&mut world, &intents);
        left.push(world.creeps[0].fatigue);
    }
    assert_eq!(left, vec![3, 0, 0]);
    assert_eq!(world.tick, 3);
}

#[test]
fn the_report_names_the_movers_of_the_tick() {
    let mut world =
        MovementState { tick: 41, creeps: vec![creep(&[Part::Move], 0)], ..Default::default() };
    let mut mv = MoveIntents::default();
    mv.set_move(1, Direction::BottomRight).set_reason(1, "flee".to_string());
    assert_eq!(mv.reasons.get(&1).map(|r| r.as_str()), Some("flee"));
    let report = MovementSim::step(&mut world, &mv);
    assert_eq!(report.tick, 41);
    assert_eq!(world.tick, 42);
    assert_eq!(report.moved.get(&1), Some(&pos(26, 26)));
    assert_eq!(report.moved.len(), 1);
    let none = MovementReport::default();
    assert!(none.tick == 0 && none.moved.is_empty());
}

fn stand_at(at: Position) -> MovementState {
    let mut c = creep(&[Part::Move], 0);
    c.pos = at;
    MovementState { creeps: vec![c], ..Default::default() }
}

fn after_tick(mut world: MovementState) -> Position {
    resolve_movement(&mut world, &MoveIntents::new());
    world.creeps[0].pos
}

#[test]
fn an_edge_creep_exits_to_the_mirror_tile() {
    assert_eq!(after_tick(stand_at(pos_in("W1N1", 0, 25))), pos_in("W2N1", 49, 25));
    assert_eq!(after_tick(stand_at(pos_in("W1N1", 49, 7))), pos_in("W0N1", 0, 7));
    assert_eq!(after_tick(stand_at(pos_in("W1N1", 13, 0))), pos_in("W1N2", 13, 49));
    assert_eq!(after_tick(stand_at(pos_in("W1N1", 13, 49))), pos_in("W1N0", 13, 0));
    assert_eq!(after_tick(stand_at(pos_in("W0N0", 49, 25))), pos_in("E0N0", 0, 25));
    assert_eq!(after_tick(stand_at(pos_in("W1N1", 1, 25))), pos_in("W1N1", 1, 25));
}

#[test]
fn a_corner_exits_west_or_east_before_north_or_south() {
    assert_eq!(after_tick(stand_at(pos_in("W1N1", 0, 0))), pos_in("W2N1", 49, 0));
    assert_eq!(after_tick(stand_at(pos_in("W1N1", 49, 0))), pos_in("W1N2", 49, 49));
    assert_eq!(after_tick(stand_at(pos_in("W1N1", 49, 49))), pos_in("W0N1", 0, 49));
}

#[test]
fn a_second_exit_undoes_the_first() {
    let there = after_tick(stand_at(pos_in("W5S3", 0, 30)));
    assert_eq!(after_tick(stand_at(there)), pos_in("W5S3", 0, 30));
}

#[test]
fn the_map_ends_at_its_edge() {
    assert_eq!(after_tick(stand_at(pos_in("W127N127", 0, 25))), pos_in("W127N127", 0, 25));
    assert_eq!(after_tick(stand_at(pos_in("E127S127", 25, 49))), pos_in("E127S127", 25, 49));
}

#[test]
fn npc_owners_do_not_exit() {
    let mut world = stand_at(pos_in("W1N1", 0, 25));
    world.npc_owners.insert(0);
    assert_eq!(after_tick(world.clone()), pos_in("W1N1", 0, 25));
    assert_eq!(world.clone().npc_owners, world.npc_owners);
    world.npc_owners.insert(9);
    world.npc_owners.remove(&0);
    assert_eq!(after_tick(world), pos_in("W2N1", 49, 25));
}

#[test]
fn stepping_onto_an_edge_costs_nothing_and_exits_the_same_tick() {
    let mut c = creep(&[Part::Attack, Part::Attack, Part::Attack, Part::Move], 0);
    c.pos = pos(48, 25);
    let mut world = MovementState { creeps: vec![c], ..Default::default() };
    let mut mv = MoveIntents::new();
    mv.set_move(1, Direction::Right);
    let report = resolve_movement(&mut world, &mv);
    assert_eq!(report.moved.get(&1), Some(&pos(49, 25)));
    assert_eq!(world.creeps[0].pos, pos_in("W0N1", 0, 25));
    assert_eq!(world.creeps[0].fatigue, 0);
}

#[test]
fn a_pulled_creep_is_charged_for_its_step() {
    let mut puller = creep(&[Part::Move], 0);
    puller.pos = pos(26, 25);
    let mut pulled = creep(&[Part::Attack, Part::Attack], 0);
    pulled.id = 2;
    let mut world = MovementState { creeps: vec![puller, pulled], ..Default::default() };
    let mut mv = MoveIntents::new();
    mv.set_move(1, Direction::Right).set_pull(1, 2);
    resolve_movement(&mut world, &mv);
    assert_eq!(world.creeps[1].pos, pos(26, 25));
    assert_eq!(world.creeps[1].fatigue, 4);
}

#[test]
fn entering_an_edge_resets_fatigue() {
    let mut puller = creep(&[Part::Move], 0);
    puller.pos = pos(0, 25);
    puller.owner = 7;
    let mut pulled = creep(&[Part::Attack, Part::Move], 0);
    pulled.id = 2;
    pulled.pos = pos(1, 25);
    pulled.fatigue = 8;
    let mut world = MovementState { creeps: vec![puller, pulled], ..Default::default() };
    world.npc_owners.insert(7);
    let mut mv = MoveIntents::new();
    mv.set_move(1, Direction::Top).set_pull(1, 2);
    let report = resolve_movement(&mut world, &mv);
    assert_eq!(report.moved.get(&2), Some(&pos(0, 25)));
    assert_eq!(world.creeps[1].fatigue, 0);
}

#[test]
fn the_same_tick_twice_gives_the_same_world() {
    let mut a = stand_at(pos(48, 25));
    let mut b = a.clone();
    let mut mv = MoveIntents::new();
    mv.set_move(1, Direction::Right);
    let ra = resolve_movement(&mut a, &mv.clone());
    let rb = resolve_movement(&mut b, &mv);
    assert_eq!(a.creeps[0].pos, b.creeps[0].pos);
    assert_eq!(a.creeps[0].fatigue, b.creeps[0].fatigue);
    assert_eq!(ra.moved, rb.moved);
}

#[test]
fn living_creeps_and_terrain_lookup() {
    let mut dead = creep(&[Part::Move], 0);
    dead.id = 2;
    dead.body.hits = 0;
    let mut world =
        MovementState { creeps: vec![creep(&[Part::Move], 0), dead], ..Default::default() };
    let ids: Vec<u32> = world.living_creeps().iter().map(|c| c.id).collect();
    assert_eq!(ids, vec![1]);
    let room = pos(0, 0).room;
    world.terrain.walls.insert((1, 1));
    assert!(world.terrain_for(room).is_wall(1, 1));
    world.terrain_mut(room);
    assert!(!world.terrain_for(room).is_wall(1, 1), "an override starts out plain");
    let loaded = creep(&[Part::Work, Part::Carry, Part::Move], 1);
    assert_eq!(loaded.fatigue_weight(), 2);
    assert!(loaded.is_alive() && loaded.clone().carry_used == 1);
}

#[test]
fn a_balanced_body_keeps_moving() {
    let mut world = MovementState {
        creeps: vec![creep(&[Part::Attack, Part::Move], 0)],
        ..Default::default()
    };
    let mut mv = MoveIntents::new();
    mv.set_move(1, Direction::Right);
    for x in 26..30u8 {
        resolve_movement(&mut world, &mv);
        assert_eq!(world.creeps[0].pos, pos(x, 25));
        assert_eq!(world.creeps[0].fatigue, 0);
    }
}
