//! Rooms, room-qualified tile positions and step directions.
//!
//! A [`Position`] holds what the game keeps in one packed word: the room, and the tile's in-room
//! coordinates. Work that spans rooms (ranges, offsets across a room border) is done by the
//! `screeps` crate on packed words, behind three private functions.

use vstd::prelude::*;

verus! {

/// Tiles along one side of a room.
pub const ROOM_SIZE: u8 = 50;

/// A room, as the packed pair of its map coordinates: the high byte is the horizontal coordinate
/// plus 128 (west is negative), the low byte the vertical coordinate plus 128 (north is negative).
#[derive(Clone, Copy, Debug, PartialEq, Eq, Hash, Structural)]
pub struct RoomName {
    pub packed: u16,
}

impl RoomName {
    /// Horizontal map coordinate of the room, negative to the west.
    pub open spec fn x_coord(self) -> int {
        self.packed / 256 - 128
    }

    /// Vertical map coordinate of the room, negative to the north.
    pub open spec fn y_coord(self) -> int {
        self.packed % 256 - 128
    }

    /// The room with the given packed coordinates.
    pub fn from_packed(packed: u16) -> (room: RoomName)
        ensures
            room.packed == packed,
    {
        RoomName { packed }
    }

    /// The packed coordinates of the room.
    pub fn packed_repr(self) -> (packed: u16)
        ensures
            packed == self.packed,
    {
        self.packed
    }
}

/// A tile of a room. Valid positions have both in-room coordinates below [`ROOM_SIZE`].
#[derive(Clone, Copy, Debug, PartialEq, Eq, Hash, Structural)]
pub struct Position {
    pub x: u8,
    pub y: u8,
    pub room: RoomName,
}

/// Distance between two coordinates on one axis.
pub open spec fn distance(a: int, b: int) -> int {
    if a >= b {
        a - b
    } else {
        b - a
    }
}

/// The greater of two distances.
pub open spec fn greater(a: int, b: int) -> int {
    if a >= b {
        a
    } else {
        b
    }
}

/// Whether a world coordinate lies on the map.
pub open spec fn on_map(coord: int) -> bool {
    -6400 <= coord < 6400
}

impl Position {
    /// Both in-room coordinates lie inside the room.
    pub open spec fn valid(self) -> bool {
        &&& self.x < ROOM_SIZE
        &&& self.y < ROOM_SIZE
    }

    /// Horizontal world coordinate: in-room coordinates extended across the map.
    pub open spec fn world_x(self) -> int {
        50 * self.room.x_coord() + self.x
    }

    /// Vertical world coordinate.
    pub open spec fn world_y(self) -> int {
        50 * self.room.y_coord() + self.y
    }

    /// Chebyshev distance in world coordinates.
    pub open spec fn range_to(self, target: Position) -> int {
        greater(
            distance(self.world_x(), target.world_x()),
            distance(self.world_y(), target.world_y()),
        )
    }

    /// `to` is the tile `(dx, dy)` away from this one in world coordinates.
    pub open spec fn offset_is(self, dx: int, dy: int, to: Position) -> bool {
        &&& to.valid()
        &&& to.world_x() == self.world_x() + dx
        &&& to.world_y() == self.world_y() + dy
    }

    /// The position as one number: room, then `x`, then `y`, from the highest byte down.
    pub open spec fn packed(self) -> int {
        self.room.packed * 65536 + self.x * 256 + self.y
    }

    /// The tile `(x, y)` of `room`; `None` if that lies outside the room.
    pub fn new(x: u8, y: u8, room: RoomName) -> (pos: Option<Position>)
        ensures
            x < ROOM_SIZE && y < ROOM_SIZE ==> pos == Some(Position { x, y, room }),
            !(x < ROOM_SIZE && y < ROOM_SIZE) ==> pos is None,
    {
        if x < ROOM_SIZE && y < ROOM_SIZE {
            Some(Position { x, y, room })
        } else {
            None
        }
    }

    /// The packed word of this position.
    pub fn packed_repr(self) -> (packed: u32)
        requires
            self.valid(),
        ensures
            packed == self.packed(),
    {
        packed_position(self.x, self.y, self.room.packed)
    }

    /// The valid position that a packed word stands for.
    fn unpacked(packed: u32) -> (pos: Position)
        requires
            packed_valid(packed),
        ensures
            pos.valid(),
            pos.packed() == packed,
            pos.world_x() == packed_world_x(packed),
            pos.world_y() == packed_world_y(packed),
    {
        let room: u16 = (packed / 65536) as u16;
        let x: u8 = (packed / 256 % 256) as u8;
        let y: u8 = (packed % 256) as u8;
        Position { x, y, room: RoomName { packed: room } }
    }

    /// Chebyshev distance to `target`, also across rooms.
    pub fn get_range_to(self, target: Position) -> (range: u32)
        requires
            self.valid(),
            target.valid(),
        ensures
            range == self.range_to(target),
    {
        let a: u32 = self.packed_repr();
        let b: u32 = target.packed_repr();
        proof {
            lemma_packed_coords(self, a);
            lemma_packed_coords(target, b);
        }
        packed_range(a, b)
    }

    /// The tile `offset` away in world coordinates, changing rooms if necessary; `None` if that is
    /// off the map.
    pub fn checked_add(self, offset: (i32, i32)) -> (moved: Option<Position>)
        requires
            self.valid(),
            i32::MIN + 6400 <= offset.0 <= i32::MAX - 6399,
            i32::MIN + 6400 <= offset.1 <= i32::MAX - 6399,
        ensures
            moved is Some <==> (on_map(self.world_x() + offset.0) && on_map(self.world_y() + offset.1)),
            moved matches Some(to) ==> self.offset_is(offset.0 as int, offset.1 as int, to),
    {
        let from: u32 = self.packed_repr();
        proof {
            lemma_packed_coords(self, from);
        }
        match packed_offset(from, offset.0, offset.1) {
            Some(packed) => Some(Position::unpacked(packed)),
            None => None,
        }
    }
}

/// A packed word whose in-room coordinates lie inside the room.
pub open spec fn packed_valid(packed: u32) -> bool {
    &&& packed / 256 % 256 < 50
    &&& packed % 256 < 50
}

/// Horizontal world coordinate of a packed position.
pub open spec fn packed_world_x(packed: u32) -> int {
    50 * (packed / 0x100_0000 - 128) + packed / 256 % 256
}

/// Vertical world coordinate of a packed position.
pub open spec fn packed_world_y(packed: u32) -> int {
    50 * (packed / 0x1_0000 % 256 - 128) + packed % 256
}

/// The packed word of a valid position carries the position's world coordinates.
proof fn lemma_packed_coords(pos: Position, packed: u32)
    requires
        pos.valid(),
        packed == pos.packed(),
    ensures
        packed_valid(packed),
        packed_world_x(packed) == pos.world_x(),
        packed_world_y(packed) == pos.world_y(),
{
    assert(packed % 256 == pos.y);
    assert(packed / 256 == pos.room.packed * 256 + pos.x);
    assert(packed / 256 % 256 == pos.x);
    assert(packed / 0x1_0000 == pos.room.packed);
    assert(packed / 0x100_0000 == pos.room.packed / 256);
}

/// Two valid positions with the same world coordinates are the same tile.
pub proof fn lemma_world_coords_identify(a: Position, b: Position)
    requires
        a.valid(),
        b.valid(),
        a.world_x() == b.world_x(),
        a.world_y() == b.world_y(),
    ensures
        a == b,
{
}

/// `screeps::Position::new` and `packed_repr`: the packed word of tile `(x, y)` of a packed room
/// holds the room above `x` above `y`. Coordinates outside a room are not `RoomCoordinate`s.
#[verifier::external_body]
fn packed_position(x: u8, y: u8, room: u16) -> (packed: u32)
    requires
        x < 50,
        y < 50,
    ensures
        packed == room * 65536 + x * 256 + y,
{
    screeps::Position::new(
        screeps::RoomCoordinate::new(x).unwrap(),
        screeps::RoomCoordinate::new(y).unwrap(),
        screeps::RoomName::from_packed(room),
    ).packed_repr()
}

/// `screeps::Position::get_range_to`: the greater of the two world-coordinate distances.
/// `from_packed` panics on a word whose in-room coordinates lie outside the room.
#[verifier::external_body]
fn packed_range(a: u32, b: u32) -> (range: u32)
    requires
        packed_valid(a),
        packed_valid(b),
    ensures
        range == greater(
            distance(packed_world_x(a), packed_world_x(b)),
            distance(packed_world_y(a), packed_world_y(b)),
        ),
{
    screeps::Position::from_packed(a).get_range_to(screeps::Position::from_packed(b))
}

/// `screeps::Position::checked_add`: adds the offset to the world coordinates; fails exactly where
/// a sum leaves the map. The bounds on the offset keep its `i32` sums from overflowing.
#[verifier::external_body]
fn packed_offset(packed: u32, dx: i32, dy: i32) -> (moved: Option<u32>)
    requires
        packed_valid(packed),
        i32::MIN + 6400 <= dx <= i32::MAX - 6399,
        i32::MIN + 6400 <= dy <= i32::MAX - 6399,
    ensures
        moved is Some <==> (on_map(packed_world_x(packed) + dx) && on_map(packed_world_y(packed) + dy)),
        moved is Some ==> packed_valid(moved->0),
        moved is Some ==> packed_world_x(moved->0) == packed_world_x(packed) + dx,
        moved is Some ==> packed_world_y(moved->0) == packed_world_y(packed) + dy,
{
    screeps::Position::from_packed(packed).checked_add((dx, dy)).ok().map(|to| to.packed_repr())
}

/// One of the eight steps to a neighbouring tile.
#[derive(Clone, Copy, Debug, PartialEq, Eq, Hash, Structural)]
pub enum Direction {
    Top,
    TopRight,
    Right,
    BottomRight,
    Bottom,
    BottomLeft,
    Left,
    TopLeft,
}

impl Direction {
    /// `(dx, dy)` of the step; `y` grows downward, so `Top` is `-y`.
    pub open spec fn delta(self) -> (int, int) {
        match self {
            Direction::Top => (0, -1),
            Direction::TopRight => (1, -1),
            Direction::Right => (1, 0),
            Direction::BottomRight => (1, 1),
            Direction::Bottom => (0, 1),
            Direction::BottomLeft => (-1, 1),
            Direction::Left => (-1, 0),
            Direction::TopLeft => (-1, -1),
        }
    }
}

/// The range between two tiles is the least number that bounds how far they lie apart on either axis
/// of the map, where a room is 50 tiles wide.
pub proof fn lemma_range_bounds(a: Position, b: Position, d: int)
    ensures
        ({
            let dx = 50 * (a.room.packed as int / 256 - b.room.packed as int / 256) + (a.x - b.x);
            let dy = 50 * (a.room.packed as int % 256 - b.room.packed as int % 256) + (a.y - b.y);
            a.range_to(b) <= d <==> -d <= dx <= d && -d <= dy <= d
        }),
        a.range_to(b) == b.range_to(a),
        a.room == b.room && a.x - b.x == d && d >= 0 && -d <= a.y - b.y <= d ==> a.range_to(b) == d,
{
}

/// Ranges obey the triangle inequality, and only a tile itself is at range 0.
pub proof fn lemma_range_is_a_distance(a: Position, b: Position, c: Position)
    requires
        a.valid(),
        b.valid(),
    ensures
        a.range_to(c) <= a.range_to(b) + b.range_to(c),
        a.range_to(b) == 0 <==> a == b,
{
    if a.range_to(b) == 0 {
        lemma_world_coords_identify(a, b);
    }
}

/// An offset leads to one tile of the map at most, and there by as much as it says on each axis; the
/// opposite offset leads back.
pub proof fn lemma_offset_moves(from: Position, dx: int, dy: int, to: Position)
    requires
        from.valid(),
        from.offset_is(dx, dy, to),
    ensures
        to.valid(),
        50 * (to.room.packed as int / 256 - from.room.packed as int / 256) + (to.x - from.x) == dx,
        50 * (to.room.packed as int % 256 - from.room.packed as int % 256) + (to.y - from.y) == dy,
        to.offset_is(-dx, -dy, from),
        forall|other: Position| #[trigger] from.offset_is(dx, dy, other) ==> other == to,
{
    assert forall|other: Position| #[trigger] from.offset_is(dx, dy, other) implies other == to by {
        lemma_world_coords_identify(other, to);
    }
}

/// The map is 256 rooms wide and high: a coordinate lies on it exactly if some room holds it.
pub proof fn lemma_map_extent(coord: int)
    ensures
        on_map(coord) <==> exists|r: int, c: int|
            -128 <= r <= 127 && 0 <= c <= 49 && #[trigger] (50 * r + c) == coord,
{
    if on_map(coord) {
        let (r, c) = (coord / 50, coord % 50);
        assert(50 * r + c == coord);
    }
}

/// The packed word tells a tile from every other, byte by byte: room, then `x`, then `y`.
pub proof fn lemma_packed_identifies(a: Position, b: Position)
    ensures
        a.packed() == b.packed() <==> a == b,
        a.packed() / 65536 == a.room.packed,
        a.packed() / 256 % 256 == a.x,
        a.packed() % 256 == a.y,
{
}

} // verus!
