use screeps_sim_core::position::{Position, RoomName};

fn room(name: &str) -> RoomName {
    let room: screeps::RoomName = name.parse().unwrap();
    RoomName::from_packed(room.packed_repr())
}

fn at(name: &str, x: u8, y: u8) -> Position {
    Position::new(x, y, room(name)).unwrap()
}

#[test]
fn positions_lie_inside_their_room() {
    assert!(Position::new(49, 49, room("W0N0")).is_some());
    assert_eq!(Position::new(50, 0, room("W0N0")), None);
    assert_eq!(Position::new(0, 50, room("W0N0")), None);
}

#[test]
fn packing_puts_the_room_above_the_tile() {
    // E0S0 has map coordinates (0, 0), packed (128, 128).
    assert_eq!(room("E0S0").packed_repr(), 0x8080);
    assert_eq!(at("E0S0", 1, 2).packed_repr(), 0x8080_0102);
    assert_eq!(at("W1N1", 49, 7).packed_repr(), 0x7E7E_3107);
}

#[test]
fn range_is_chebyshev_across_rooms() {
    assert_eq!(at("W1N1", 10, 10).get_range_to(at("W1N1", 14, 12)), 4);
    assert_eq!(at("W1N1", 10, 10).get_range_to(at("W1N1", 12, 3)), 7);
    assert_eq!(at("W1N1", 49, 25).get_range_to(at("W0N1", 0, 25)), 1);
    assert_eq!(at("W0N0", 49, 49).get_range_to(at("E0S0", 0, 0)), 1);
    assert_eq!(at("W1N1", 0, 0).get_range_to(at("W1N1", 0, 0)), 0);
    assert_eq!(at("W127N127", 0, 0).get_range_to(at("E127S127", 49, 49)), 12799);
}

#[test]
fn offsets_cross_rooms_and_end_with_the_map() {
    assert_eq!(at("W1N1", 10, 10).checked_add((3, -4)), Some(at("W1N1", 13, 6)));
    assert_eq!(at("W1N1", 49, 25).checked_add((1, 0)), Some(at("W0N1", 0, 25)));
    assert_eq!(at("W1N1", 25, 0).checked_add((0, -1)), Some(at("W1N2", 25, 49)));
    assert_eq!(at("W0N0", 49, 49).checked_add((1, 1)), Some(at("E0S0", 0, 0)));
    assert_eq!(at("W1N1", 10, 10).checked_add((100, 0)), Some(at("E0N1", 10, 10)));
    assert_eq!(at("W127N127", 0, 25).checked_add((-1, 0)), None);
    assert_eq!(at("E127S127", 25, 49).checked_add((0, 1)), None);
    assert_eq!(at("E127S127", 49, 49).checked_add((-12799, -12799)), Some(at("W127N127", 0, 0)));
    assert_eq!(at("E127S127", 49, 49).checked_add((-12800, 0)), None);
}
