//! What the region of a tile is: the least set of open tiles that holds the tile and is closed under
//! the eight steps of a creep.

use crate::flood::{
    in_room, is_walk, lemma_reach_start, lemma_reach_step, lemma_reached_open, reachable,
};
use crate::movement::step_to;
use crate::position::{Direction, Position, RoomName};
use crate::terrain::SimTerrain;
use crate::terrain_gen::passable;
use vstd::prelude::*;

verus! {

/// One of the eight steps leads from one tile of the room to another exactly if they differ and
/// neither coordinate changes by more than 1. It stays in the room it is taken in.
pub proof fn lemma_steps_are_neighbours(a: (u8, u8), b: (u8, u8), room: RoomName)
    requires
        a.0 < 50,
        a.1 < 50,
    ensures
        (exists|dir: Direction| #[trigger]
            step_to(Position { x: a.0, y: a.1, room }, dir) == Some(
                Position { x: b.0, y: b.1, room },
            )) <==> a != b && b.0 < 50 && b.1 < 50 && -1 <= a.0 - b.0 <= 1 && -1 <= a.1 - b.1 <= 1,
{
    let from = Position { x: a.0, y: a.1, room };
    let to = Some(Position { x: b.0, y: b.1, room });
    let (dx, dy) = (b.0 - a.0, b.1 - a.1);
    if a != b && b.0 < 50 && b.1 < 50 && -1 <= a.0 - b.0 <= 1 && -1 <= a.1 - b.1 <= 1 {
        let dir = if dx == 0 {
            if dy == -1 {
                Direction::Top
            } else {
                Direction::Bottom
            }
        } else if dx == 1 {
            if dy == -1 {
                Direction::TopRight
            } else if dy == 0 {
                Direction::Right
            } else {
                Direction::BottomRight
            }
        } else if dy == -1 {
            Direction::TopLeft
        } else if dy == 0 {
            Direction::Left
        } else {
            Direction::BottomLeft
        };
        assert(step_to(from, dir) == to);
    }
}

/// The direction back.
pub open spec fn reversed(dir: Direction) -> Direction {
    match dir {
        Direction::Top => Direction::Bottom,
        Direction::TopRight => Direction::BottomLeft,
        Direction::Right => Direction::Left,
        Direction::BottomRight => Direction::TopLeft,
        Direction::Bottom => Direction::Top,
        Direction::BottomLeft => Direction::TopRight,
        Direction::Left => Direction::Right,
        Direction::TopLeft => Direction::BottomRight,
    }
}

/// The step back undoes a step, different directions lead to different tiles, and only a step that
/// leaves the room leads nowhere.
pub proof fn lemma_step_back(from: Position, dir: Direction, other: Direction)
    requires
        from.x < 50,
        from.y < 50,
    ensures
        step_to(from, dir) matches Some(to) ==> step_to(to, reversed(dir)) == Some(from),
        step_to(from, dir) is Some && step_to(from, dir) == step_to(from, other) ==> dir == other,
        0 < from.x < 49 && 0 < from.y < 49 ==> step_to(from, dir) is Some,
        from.y == 0 && dir == Direction::Top ==> step_to(from, dir) is None,
        from.y == 49 && dir == Direction::Bottom ==> step_to(from, dir) is None,
        from.x == 0 && dir == Direction::Left ==> step_to(from, dir) is None,
        from.x == 49 && dir == Direction::Right ==> step_to(from, dir) is None,
        from.y > 0 && dir == Direction::Top ==> step_to(from, dir) == Some(
            Position { x: from.x, y: (from.y - 1) as u8, room: from.room },
        ),
        from.x < 49 && dir == Direction::Right ==> step_to(from, dir) == Some(
            Position { x: (from.x + 1) as u8, y: from.y, room: from.room },
        ),
        from.x < 49 && from.y > 0 && dir == Direction::TopRight ==> step_to(from, dir) == Some(
            Position { x: (from.x + 1) as u8, y: (from.y - 1) as u8, room: from.room },
        ),
        from.x > 0 && from.y > 0 && dir == Direction::TopLeft ==> step_to(from, dir) == Some(
            Position { x: (from.x - 1) as u8, y: (from.y - 1) as u8, room: from.room },
        ),
{
}

/// The region holds its start unless that is a wall, and nothing if it is; every tile of it is open,
/// and all but the start lie inside the room.
pub proof fn lemma_region_holds_start(terrain: SimTerrain, start: (u8, u8), tile: (u8, u8))
    ensures
        reachable(passable(terrain), start, start) <==> !terrain.walls@.contains(start),
        reachable(passable(terrain), start, tile) ==> !terrain.walls@.contains(start)
            && !terrain.walls@.contains(tile) && (tile == start || tile.0 < 50 && tile.1 < 50),
{
    if !terrain.walls@.contains(start) {
        lemma_reach_start(passable(terrain), start);
    }
    if reachable(passable(terrain), start, start) {
        lemma_reached_open(passable(terrain), start, start);
    }
    if reachable(passable(terrain), start, tile) {
        lemma_reached_open(passable(terrain), start, tile);
    }
}

/// The region spreads to every open tile of the room beside one that it holds, diagonals included.
pub proof fn lemma_region_spreads(
    terrain: SimTerrain,
    start: (u8, u8),
    a: (u8, u8),
    b: (u8, u8),
)
    requires
        reachable(passable(terrain), start, a),
        -1 <= a.0 - b.0 <= 1,
        -1 <= a.1 - b.1 <= 1,
        b.0 < 50,
        b.1 < 50,
        !terrain.walls@.contains(b),
    ensures
        reachable(passable(terrain), start, b),
{
    if a != b {
        lemma_reach_step(passable(terrain), start, a, b);
    }
}

/// The region is closed under creep movement: whatever tile one of the eight steps leads to from a
/// tile of it is in it too, unless that is a wall.
pub proof fn lemma_region_closed(
    terrain: SimTerrain,
    start: (u8, u8),
    tile: (u8, u8),
    room: RoomName,
    dir: Direction,
)
    requires
        reachable(passable(terrain), start, tile),
        tile.0 < 50,
        tile.1 < 50,
    ensures
        step_to(Position { x: tile.0, y: tile.1, room }, dir) matches Some(to)
            ==> terrain.walls@.contains((to.x, to.y)) || reachable(
            passable(terrain),
            start,
            (to.x, to.y),
        ),
{
    let to = step_to(Position { x: tile.0, y: tile.1, room }, dir);
    if to is Some && !terrain.walls@.contains((to->0.x, to->0.y)) {
        lemma_steps_are_neighbours(tile, (to->0.x, to->0.y), room);
        lemma_region_spreads(terrain, start, tile, (to->0.x, to->0.y));
    }
}

/// The region is the least such set: any set that holds the start, and with each of its tiles every
/// open tile of the room beside it, holds the region.
pub proof fn lemma_region_least(
    terrain: SimTerrain,
    start: (u8, u8),
    tile: (u8, u8),
    tiles: Set<(u8, u8)>,
)
    requires
        reachable(passable(terrain), start, tile),
        tiles.contains(start),
        forall|a: (u8, u8), b: (u8, u8)|
            #![trigger tiles.contains(a), tiles.contains(b)]
            tiles.contains(a) && -1 <= a.0 - b.0 <= 1 && -1 <= a.1 - b.1 <= 1 && b.0 < 50 && b.1
                < 50 && !terrain.walls@.contains(b) ==> tiles.contains(b),
    ensures
        tiles.contains(tile),
{
    let open = passable(terrain);
    let walk = choose|walk: Seq<(u8, u8)>|
        #[trigger] is_walk(open, walk) && walk[0] == start && walk.last() == tile;
    lemma_walk_held(terrain, walk, tiles, walk.len() - 1);
}

proof fn lemma_walk_held(
    terrain: SimTerrain,
    walk: Seq<(u8, u8)>,
    tiles: Set<(u8, u8)>,
    i: int,
)
    requires
        is_walk(passable(terrain), walk),
        tiles.contains(walk[0]),
        forall|a: (u8, u8), b: (u8, u8)|
            #![trigger tiles.contains(a), tiles.contains(b)]
            tiles.contains(a) && -1 <= a.0 - b.0 <= 1 && -1 <= a.1 - b.1 <= 1 && b.0 < 50 && b.1
                < 50 && !terrain.walls@.contains(b) ==> tiles.contains(b),
        0 <= i < walk.len(),
    ensures
        tiles.contains(walk[i]),
    decreases i,
{
    if i > 0 {
        lemma_walk_held(terrain, walk, tiles, i - 1);
        assert(passable(terrain)(walk[i]));
        let (a, b) = (walk[i - 1], walk[i]);
        assert(in_room(b) && -1 <= a.0 - b.0 <= 1 && -1 <= a.1 - b.1 <= 1);
    }
}

} // verus!
