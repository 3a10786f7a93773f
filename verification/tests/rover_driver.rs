use screeps_sim_core::body::{Part, SimBody};
use screeps_sim_core::position::{Position, RoomName};
use screeps_sim_core::rover_driver::{
    idle_positions, idle_registration, living_creep, living_position, order_for, orders_for,
    MovementPriority, MoverConfig, OrderGoal, SimMoveGoal, SimMoveRequest, DEFAULT_SHOVE_DEPTH,
};
use screeps_sim_core::world::{CreepId, MovementState, PlayerId, SimCreep};

fn pos(x: u8, y: u8) -> Position {
    Position::new(x, y, RoomName::from_packed(0x7E7E)).unwrap()
}

fn creep(id: CreepId, owner: PlayerId, x: u8, y: u8) -> SimCreep {
    SimCreep {
        id,
        owner,
        pos: pos(x, y),
        body: SimBody::unboosted(&[Part::Move]),
        fatigue: 0,
        carry_used: 0,
    }
}

fn request(id: CreepId) -> SimMoveRequest<u8> {
    SimMoveRequest::move_to(id, pos(20, 25), 1)
}

#[test]
fn a_request_starts_with_the_defaults() {
    let r = request(7);
    assert_eq!(r.creep, 7);
    assert!(matches!(r.goal, SimMoveGoal::To { range: 1, .. }));
    assert_eq!(r.priority, MovementPriority::Normal);
    assert_eq!(r.priority_value, None);
    assert!(r.shove);
    assert_eq!(r.anchor, None);
    assert_eq!(r.stuck_thresholds, None);
}

#[test]
fn builders_set_one_field_each() {
    let r = request(7)
        .with_priority(MovementPriority::High)
        .with_priority_value(-5)
        .with_stuck_thresholds(8)
        .with_shove(false)
        .with_anchor(pos(1, 2), 3);
    assert_eq!(r.creep, 7);
    assert_eq!(r.priority, MovementPriority::High);
    assert_eq!(r.priority_value, Some(-5));
    assert_eq!(r.stuck_thresholds, Some(8));
    assert!(!r.shove);
    assert_eq!(r.anchor, Some((pos(1, 2), 3)));
}

#[test]
fn the_standard_config() {
    let c = MoverConfig::standard(5, 9u8);
    assert_eq!(c.max_shove_depth, DEFAULT_SHOVE_DEPTH);
    assert_eq!(DEFAULT_SHOVE_DEPTH, 3);
    assert_eq!(c.reuse_path_length, 20);
    assert_eq!(c.pathfinding_ops_budget, 20_000);
    assert_eq!(c.friendly_creep_distance, 5);
    assert_eq!(c.stuck_thresholds, 9);
    assert!(c.register_idle_creeps);
}

#[test]
fn parked_mates_of_the_requesters_are_registered() {
    let mut dead = creep(4, 0, 12, 25);
    dead.body.hits = 0;
    let world = MovementState {
        creeps: vec![
            creep(1, 0, 10, 25),
            creep(2, 0, 15, 25), // parked
            creep(3, 1, 16, 25), // an opponent
            dead,
        ],
        ..Default::default()
    };
    let idle = idle_positions(&world, &[request(1)]);
    assert_eq!(idle.len(), 1);
    assert_eq!(idle.get(&pos(15, 25).packed_repr()), Some(&2));
    let none: [SimMoveRequest<u8>; 0] = [];
    assert!(idle_positions(&world, &none).is_empty(), "no requests, no requesters");
    let both = idle_positions(&world, &[request(1), request(3)]);
    assert_eq!(both.len(), 1);
}

#[test]
fn the_lowest_id_counts_on_a_stacked_tile() {
    for order in [[5, 3, 4], [3, 4, 5], [4, 5, 3]] {
        let mut creeps = vec![creep(1, 0, 10, 25)];
        for id in order {
            creeps.push(creep(id, 0, 15, 25));
        }
        let world = MovementState { creeps, ..Default::default() };
        let idle = idle_positions(&world, &[request(1)]);
        assert_eq!(idle.len(), 1);
        assert_eq!(idle.get(&pos(15, 25).packed_repr()), Some(&3));
    }
}

#[test]
fn registration_can_be_switched_off() {
    let world = MovementState {
        creeps: vec![creep(1, 0, 10, 25), creep(2, 0, 15, 25)],
        ..Default::default()
    };
    let mut config = MoverConfig::standard(5, 0u8);
    assert_eq!(idle_registration(&world, &[request(1)], &config).map(|m| m.len()), Some(1));
    config.register_idle_creeps = false;
    assert!(idle_registration(&world, &[request(1)], &config).is_none());
}

#[test]
fn orders_carry_the_requests_out() {
    let flee = SimMoveRequest {
        goal: SimMoveGoal::Flee { threats: vec![pos(1, 1), pos(2, 2)], range: 5 },
        ..request(2).with_shove(false).with_stuck_thresholds(8).with_anchor(pos(3, 3), 4)
    };
    let requests = [request(1).with_priority_value(12), flee];
    let orders = orders_for(&requests);
    assert_eq!(orders.len(), 2);
    assert_eq!((orders[0].creep, orders[1].creep), (1, 2));
    match &orders[0].goal {
        OrderGoal::MoveTo { target, range } => assert_eq!((*target, *range), (pos(20, 25), 1)),
        OrderGoal::Flee { .. } => panic!("not a flee order"),
    }
    match &orders[1].goal {
        OrderGoal::Flee { targets } => assert_eq!(targets, &vec![(pos(1, 1), 5), (pos(2, 2), 5)]),
        OrderGoal::MoveTo { .. } => panic!("not a move order"),
    }
    assert!(orders[0].allow_shove && orders[0].allow_swap);
    assert!(!orders[1].allow_shove && !orders[1].allow_swap);
    assert_eq!(orders[0].priority_value, Some(12));
    assert_eq!(orders[1].stuck_thresholds, Some(&8));
    assert_eq!(orders[1].anchor, Some((pos(3, 3), 4)));
    assert_eq!(order_for(&requests[0]).priority, MovementPriority::Normal);
    assert_eq!(order_for(&requests[0]).stuck_thresholds, None);
}

#[test]
fn an_id_means_the_first_living_creep() {
    let mut dead = creep(1, 0, 9, 9);
    dead.body.hits = 0;
    let world = MovementState {
        creeps: vec![dead, creep(1, 0, 10, 10), creep(1, 0, 11, 11)],
        ..Default::default()
    };
    assert_eq!(living_creep(&world, 1).map(|c| c.pos), Some(pos(10, 10)));
    assert_eq!(living_position(&world, 1), Some(pos(10, 10)));
    assert!(living_creep(&world, 2).is_none());
    assert_eq!(living_position(&world, 2), None);
}
