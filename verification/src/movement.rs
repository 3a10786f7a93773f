//! Same-tile movement-conflict resolution.
//!
//! - **Eligibility**: a creep moves by itself only if it has a working MOVE part and its fatigue was
//!   0 at tick start.
//! - **Same-tile contention**: when several creeps target a tile, the winner is chosen by, in order,
//!   a mutual swap (or else how many movers want the creep's current tile), being pulled, pulling,
//!   and the ratio of move rate to weight; losers stay.
//! - **Pull**: a creep dragged by an adjacent, moving puller follows into the puller's vacated tile
//!   and is eligible even with no MOVE part or nonzero fatigue.
//! - **Obstacle and chain-block**: a mover stays if its destination is a wall or holds a creep that
//!   stays; a creep that stays blocks every mover that wanted its current tile, so a blocked front
//!   stops the whole column.
//!
//! A step off the room edge is not a move; crossing the border is the edge-exit relocation of
//! [`crate::tick::resolve_movement`].

use crate::position::{Direction, Position, ROOM_SIZE};
use crate::world::{CreepId, MovementState, SimCreep};
use std::collections::HashMap;
use vstd::prelude::*;

verus! {

broadcast use vstd::std_specs::hash::group_hash_axioms;

/// The tile one step from `pos` in `dir`, if that is inside the room.
pub open spec fn step_to(pos: Position, dir: Direction) -> Option<Position> {
    let x = pos.x + dir.delta().0;
    let y = pos.y + dir.delta().1;
    if 0 <= x < ROOM_SIZE && 0 <= y < ROOM_SIZE {
        Some(Position { x: x as u8, y: y as u8, room: pos.room })
    } else {
        None
    }
}

/// `(dx, dy)` for a direction.
fn dir_delta(dir: Direction) -> (delta: (i32, i32))
    ensures
        delta.0 == dir.delta().0,
        delta.1 == dir.delta().1,
{
    match dir {
        Direction::Top => (0, -1),
        Direction::TopRight => (1, -1),
        Direction::Right => (1, 0),
        Direction::BottomRight => (1, 1),
        Direction::Bottom => (0, 1),
        Direction::BottomLeft => (-1, 1),
        Direction::Left => (-1, 0),
        Direction::TopLeft => (-1, -1),
    }
}

/// One step from `pos` in `dir` within the room, or `None` if it would leave the room.
pub fn step(pos: Position, dir: Direction) -> (to: Option<Position>)
    ensures
        to == step_to(pos, dir),
{
    let (dx, dy): (i32, i32) = dir_delta(dir);
    let x: i32 = pos.x as i32 + dx;
    let y: i32 = pos.y as i32 + dy;
    if x < 0 || x >= ROOM_SIZE as i32 || y < 0 || y >= ROOM_SIZE as i32 {
        return None;
    }
    Some(Position { x: x as u8, y: y as u8, room: pos.room })
}

/// Room-edge tile (fatigue resets to 0 on entering one).
pub fn is_edge(x: u8, y: u8) -> (edge: bool)
    ensures
        edge == (x == 0 || x == 49 || y == 0 || y == 49),
{
    x == 0 || x == 49 || y == 0 || y == 49
}

/// A creep that takes part in a tick's contention.
#[derive(Clone, Copy, Debug)]
pub struct Mover {
    pub id: CreepId,
    pub current_pos: Position,
    pub dest_pos: Position,
    /// Boost-weighted working MOVE parts.
    pub move_rate: u32,
    /// Fatigue weight, at least 1.
    pub weight: u32,
    /// Being dragged: eligible regardless of its own MOVE parts and fatigue.
    pub pulled: bool,
    /// Dragging another creep.
    pub pulling: bool,
}

/// The index of the last living creep with the given id.
pub open spec fn living_index(creeps: Seq<SimCreep>, id: CreepId) -> Option<int>
    decreases creeps.len(),
{
    if creeps.len() == 0 {
        None
    } else if creeps.last().alive() && creeps.last().id == id {
        Some(creeps.len() - 1)
    } else {
        living_index(creeps.drop_last(), id)
    }
}

/// The index of the last mover with the given id.
pub open spec fn mover_index(movers: Seq<Mover>, id: CreepId) -> Option<int>
    decreases movers.len(),
{
    if movers.len() == 0 {
        None
    } else if movers.last().id == id {
        Some(movers.len() - 1)
    } else {
        mover_index(movers.drop_last(), id)
    }
}

/// How many movers want `tile`.
pub open spec fn want_count(movers: Seq<Mover>, tile: Position) -> int
    decreases movers.len(),
{
    if movers.len() == 0 {
        0
    } else {
        want_count(movers.drop_last(), tile) + if movers.last().dest_pos == tile {
            1int
        } else {
            0int
        }
    }
}

/// Some mover stands on the destination of mover `i` and wants its tile.
pub open spec fn swaps(movers: Seq<Mover>, i: int) -> bool {
    exists|k: int|
        0 <= k < movers.len() && (#[trigger] movers[k]).current_pos == movers[i].dest_pos
            && movers[k].dest_pos == movers[i].current_pos
}

/// First rank of mover `i`: a mutual swap counts 100, else how many movers want its current tile.
pub open spec fn affected(movers: Seq<Mover>, i: int) -> int {
    if swaps(movers, i) {
        100
    } else {
        want_count(movers, movers[i].current_pos)
    }
}

/// Mover `i` takes precedence over mover `j`: by first rank, then being pulled, then pulling, then
/// the greater ratio of move rate to weight.
pub open spec fn outranks(movers: Seq<Mover>, i: int, j: int) -> bool {
    let a = movers[i];
    let b = movers[j];
    if affected(movers, i) != affected(movers, j) {
        affected(movers, i) > affected(movers, j)
    } else if a.pulled != b.pulled {
        a.pulled
    } else if a.pulling != b.pulling {
        a.pulling
    } else {
        a.move_rate * b.weight > b.move_rate * a.weight
    }
}

/// Mover `i` wins its destination: no rival takes precedence over it, and of equals it is the first.
pub open spec fn wins(movers: Seq<Mover>, i: int) -> bool {
    forall|j: int|
        0 <= j < movers.len() && j != i && (#[trigger] movers[j]).dest_pos == movers[i].dest_pos
            ==> !outranks(movers, j, i) && (j < i ==> outranks(movers, i, j))
}

/// A tick's movement problem: the world, the wanted steps and the pull pairings.
pub struct Scene {
    pub world: MovementState,
    pub moves: Map<CreepId, Direction>,
    pub pulls: Map<CreepId, CreepId>,
}

impl Scene {
    /// The creep that an id stands for in pull pairings: the last living one that bears it.
    pub open spec fn living(self, id: CreepId) -> Option<int> {
        living_index(self.world.creeps@, id)
    }

    /// `puller` may drag `target`: both live, they are adjacent, and the puller wants to move.
    pub open spec fn may_pull(self, puller: CreepId, target: CreepId) -> bool {
        &&& self.pulls.contains_key(puller)
        &&& self.pulls[puller] == target
        &&& self.moves.contains_key(puller)
        &&& self.living(puller) is Some
        &&& self.living(target) is Some
        &&& self.world.creeps[self.living(puller)->0].pos.range_to(
            self.world.creeps[self.living(target)->0].pos,
        ) <= 1
    }

    /// `puller` drags `target`: of several that may, the one with the lowest id.
    pub open spec fn drags(self, puller: CreepId, target: CreepId) -> bool {
        &&& self.may_pull(puller, target)
        &&& forall|other: CreepId| #[trigger] self.may_pull(other, target) ==> puller <= other
    }

    /// Some creep drags `target`.
    pub open spec fn is_dragged(self, target: CreepId) -> bool {
        exists|puller: CreepId| self.drags(puller, target)
    }

    /// The creep that drags `target`.
    pub open spec fn puller_of(self, target: CreepId) -> CreepId {
        choose|puller: CreepId| self.drags(puller, target)
    }

    /// Some creep is dragged by `puller`.
    pub open spec fn is_pulling(self, puller: CreepId) -> bool {
        exists|target: CreepId| self.drags(puller, target)
    }

    /// Creep `i` moves by itself: alive, not dragged, rested, with a working MOVE part, and its
    /// wanted step stays inside the room.
    pub open spec fn walks(self, i: int) -> bool {
        let c = self.world.creeps[i];
        &&& 0 <= i < self.world.creeps.len()
        &&& c.alive()
        &&& !self.is_dragged(c.id)
        &&& self.moves.contains_key(c.id)
        &&& c.fatigue == 0
        &&& c.body.mobile()
        &&& step_to(c.pos, self.moves[c.id]) is Some
    }

    /// A creep with the given id moves by itself.
    pub open spec fn id_walks(self, id: CreepId) -> bool {
        exists|i: int| #[trigger] self.walks(i) && self.world.creeps[i].id == id
    }

    /// Creep `i` follows a puller that moves by itself.
    pub open spec fn follows(self, i: int) -> bool {
        let c = self.world.creeps[i];
        &&& 0 <= i < self.world.creeps.len()
        &&& self.living(c.id) == Some(i)
        &&& self.is_dragged(c.id)
        &&& self.id_walks(self.puller_of(c.id))
    }

    /// The mover of a creep that moves by itself.
    pub open spec fn walker(self, i: int) -> Mover {
        let c = self.world.creeps[i];
        Mover {
            id: c.id,
            current_pos: c.pos,
            dest_pos: step_to(c.pos, self.moves[c.id])->0,
            move_rate: c.body.mobility() as u32,
            weight: contention_weight(c),
            pulled: false,
            pulling: self.is_pulling(c.id),
        }
    }

    /// The mover of a creep that is dragged into its puller's tile.
    pub open spec fn follower(self, i: int) -> Mover {
        let c = self.world.creeps[i];
        Mover {
            id: c.id,
            current_pos: c.pos,
            dest_pos: self.world.creeps[self.living(self.puller_of(c.id))->0].pos,
            move_rate: c.body.mobility() as u32,
            weight: contention_weight(c),
            pulled: true,
            pulling: false,
        }
    }

    /// The movers among the first `n` creeps that move by themselves.
    pub open spec fn walkers(self, n: int) -> Seq<Mover>
        decreases n,
    {
        if n <= 0 {
            Seq::empty()
        } else if self.walks(n - 1) {
            self.walkers(n - 1).push(self.walker(n - 1))
        } else {
            self.walkers(n - 1)
        }
    }

    /// The movers among the first `n` creeps that are dragged.
    pub open spec fn followers(self, n: int) -> Seq<Mover>
        decreases n,
    {
        if n <= 0 {
            Seq::empty()
        } else if self.follows(n - 1) {
            self.followers(n - 1).push(self.follower(n - 1))
        } else {
            self.followers(n - 1)
        }
    }

    /// All movers of the tick: those that move by themselves, then those that are dragged.
    pub open spec fn movers(self) -> Seq<Mover> {
        self.walkers(self.world.creeps.len() as int) + self.followers(
            self.world.creeps.len() as int,
        )
    }

    /// Creep `i` lives and will not leave its tile, contention alone considered: it is no mover, or
    /// its mover lost its destination.
    pub open spec fn remains(self, i: int) -> bool {
        let c = self.world.creeps[i];
        &&& 0 <= i < self.world.creeps.len()
        &&& c.alive()
        &&& match mover_index(self.movers(), c.id) {
            Some(j) => !wins(self.movers(), j),
            None => true,
        }
    }

    /// Some creep on `tile` will not leave it.
    pub open spec fn occupied(self, tile: Position) -> bool {
        exists|i: int| #[trigger] self.remains(i) && self.world.creeps[i].pos == tile
    }

    /// `tile` is a wall of its room.
    pub open spec fn walled(self, tile: Position) -> bool {
        self.world.terrain_at(tile.room).walls@.contains((tile.x, tile.y))
    }

    /// Mover `j` cannot leave by itself: it lost its destination, or that is a wall or occupied.
    pub open spec fn halted(self, j: int) -> bool {
        ||| !wins(self.movers(), j)
        ||| self.walled(self.movers()[j].dest_pos)
        ||| self.occupied(self.movers()[j].dest_pos)
    }

    /// Mover `j` is blocked by a chain of at most `n` movers, each wanting the tile of the next, the
    /// last of which is halted.
    pub open spec fn blocked_within(self, n: nat, j: int) -> bool
        decreases n,
    {
        ||| self.halted(j)
        ||| n > 0 && exists|i: int|
            0 <= i < self.movers().len() && self.movers()[j].dest_pos == (
            #[trigger] self.movers()[i]).current_pos && self.blocked_within((n - 1) as nat, i)
    }

    /// Mover `j` is blocked, at once or through a chain of movers.
    pub open spec fn blocked(self, j: int) -> bool {
        exists|n: nat| self.blocked_within(n, j)
    }

    /// The new positions that the first `n` movers bring: each that is not blocked reaches its
    /// destination.
    pub open spec fn moved_by(self, n: int) -> Map<CreepId, Position>
        decreases n,
    {
        if n <= 0 {
            Map::empty()
        } else if self.blocked(n - 1) {
            self.moved_by(n - 1)
        } else {
            self.moved_by(n - 1).insert(self.movers()[n - 1].id, self.movers()[n - 1].dest_pos)
        }
    }

    /// The outcome of the tick's contention: each creep that moves, with its new position.
    pub open spec fn resolved(self) -> Map<CreepId, Position> {
        self.moved_by(self.movers().len() as int)
    }
}

/// The weight that counts in contention: the full fatigue weight, at least 1.
pub open spec fn contention_weight(c: SimCreep) -> u32 {
    if c.weight() < 1 {
        1
    } else {
        c.weight() as u32
    }
}

/// The last living creep of each id.
fn index_living(creeps: &Vec<SimCreep>) -> (by_id: HashMap<CreepId, usize>)
    ensures
        forall|id: CreepId| #[trigger]
            by_id@.contains_key(id) <==> living_index(creeps@, id) is Some,
        forall|id: CreepId| #[trigger]
            by_id@.contains_key(id) ==> living_index(creeps@, id) == Some(by_id@[id] as int),
{
    let mut by_id: HashMap<CreepId, usize> = HashMap::new();
    for i in 0..creeps.len()
        invariant
            forall|id: CreepId| #[trigger]
                by_id@.contains_key(id) <==> living_index(creeps@.take(i as int), id) is Some,
            forall|id: CreepId| #[trigger]
                by_id@.contains_key(id) ==> living_index(creeps@.take(i as int), id) == Some(
                    by_id@[id] as int,
                ),
    {
        assert(creeps@.take(i + 1).drop_last() =~= creeps@.take(i as int));
        if creeps[i].is_alive() {
            by_id.insert(creeps[i].id, i);
        }
    }
    assert(creeps@.take(creeps.len() as int) =~= creeps@);
    by_id
}

/// A living creep's index points at a living creep with the id.
pub proof fn lemma_living_index(creeps: Seq<SimCreep>, id: CreepId)
    ensures
        living_index(creeps, id) matches Some(i) ==> 0 <= i < creeps.len() && creeps[i].alive()
            && creeps[i].id == id,
        living_index(creeps, id) is None ==> forall|i: int|
            0 <= i < creeps.len() && (#[trigger] creeps[i]).alive() ==> creeps[i].id != id,
    decreases creeps.len(),
{
    if creeps.len() > 0 {
        lemma_living_index(creeps.drop_last(), id);
        assert forall|i: int|
            living_index(creeps, id) is None && 0 <= i < creeps.len() && (
            #[trigger] creeps[i]).alive() implies creeps[i].id != id by {
            if i < creeps.len() - 1 {
                assert(creeps.drop_last()[i] == creeps[i]);
            }
        }
    }
}

/// Who drags whom.
fn pair_pulls(
    world: &MovementState,
    moves: &HashMap<CreepId, Direction>,
    pulls: &HashMap<CreepId, CreepId>,
    by_id: &HashMap<CreepId, usize>,
) -> (pulled_by: HashMap<CreepId, CreepId>)
    requires
        world.valid(),
        forall|id: CreepId| #[trigger]
            by_id@.contains_key(id) <==> living_index(world.creeps@, id) is Some,
        forall|id: CreepId| #[trigger]
            by_id@.contains_key(id) ==> living_index(world.creeps@, id) == Some(by_id@[id] as int),
    ensures
        ({
            let scene = Scene { world: *world, moves: moves@, pulls: pulls@ };
            &&& forall|t: CreepId| #[trigger] pulled_by@.contains_key(t) <==> scene.is_dragged(t)
            &&& forall|t: CreepId| #[trigger]
                pulled_by@.contains_key(t) ==> scene.drags(pulled_by@[t], t)
        }),
{
    let ghost scene = Scene { world: *world, moves: moves@, pulls: pulls@ };
    let mut pulled_by: HashMap<CreepId, CreepId> = HashMap::new();
    for i in 0..world.creeps.len()
        invariant
            scene == (Scene { world: *world, moves: moves@, pulls: pulls@ }),
            world.valid(),
            forall|id: CreepId| #[trigger]
                by_id@.contains_key(id) <==> living_index(world.creeps@, id) is Some,
            forall|id: CreepId| #[trigger]
                by_id@.contains_key(id) ==> living_index(world.creeps@, id) == Some(
                    by_id@[id] as int,
                ),
            forall|t: CreepId| #[trigger]
                pulled_by@.contains_key(t) ==> scene.may_pull(pulled_by@[t], t),
            forall|j: int, t: CreepId|
                #![trigger world.creeps[j], scene.pulls[world.creeps[j].id], pulled_by@.contains_key(t)]
                0 <= j < i && scene.may_pull(world.creeps[j].id, t) ==> pulled_by@.contains_key(t)
                    && pulled_by@[t] <= world.creeps[j].id,
    {
        let puller: CreepId = world.creeps[i].id;
        let ghost before = pulled_by@;
        if let Some(target) = pulls.get(&puller) {
            let target: CreepId = *target;
            if let (Some(p), Some(t)) = (by_id.get(&puller), by_id.get(&target)) {
                let p: usize = *p;
                let t: usize = *t;
                proof {
                    lemma_living_index(world.creeps@, puller);
                    lemma_living_index(world.creeps@, target);
                }
                if moves.contains_key(&puller) && world.creeps[p].pos.get_range_to(
                    world.creeps[t].pos,
                ) <= 1 {
                    let lower: bool = match pulled_by.get(&target) {
                        Some(other) => puller < *other,
                        None => true,
                    };
                    if lower {
                        pulled_by.insert(target, puller);
                    }
                }
            }
        }
        assert forall|j: int, t: CreepId| 0 <= j < i + 1 && scene.may_pull(world.creeps[j].id, t)
            implies pulled_by@.contains_key(t) && pulled_by@[t] <= world.creeps[j].id by {
            if j < i {
                assert(before.contains_key(t));
            }
        }
    }
    proof {
        assert forall|p: CreepId, t: CreepId| scene.may_pull(p, t) implies pulled_by@.contains_key(
            t,
        ) && pulled_by@[t] <= p by {
            lemma_living_index(world.creeps@, p);
            let j = scene.living(p)->0;
            assert(world.creeps[j].id == p);
            assert(scene.pulls[world.creeps[j].id] == t);
        }
        assert forall|t: CreepId| #[trigger] pulled_by@.contains_key(t) implies scene.drags(
            pulled_by@[t],
            t,
        ) by {
            assert(scene.may_pull(pulled_by@[t], t));
        }
    }
    pulled_by
}

/// The contention weight of a creep: its full fatigue weight, at least 1.
fn weight_in_contention(c: &SimCreep) -> (weight: u32)
    ensures
        weight == contention_weight(*c),
        weight >= 1,
{
    let weight: u32 = c.fatigue_weight();
    if weight < 1 {
        1
    } else {
        weight
    }
}

/// The movers of the tick, those that move by themselves before those that are dragged.
fn gather_movers(
    world: &MovementState,
    moves: &HashMap<CreepId, Direction>,
    pulls: &HashMap<CreepId, CreepId>,
) -> (movers: Vec<Mover>)
    requires
        world.valid(),
    ensures
        movers@ == (Scene { world: *world, moves: moves@, pulls: pulls@ }).movers(),
{
    let ghost scene = Scene { world: *world, moves: moves@, pulls: pulls@ };
    let by_id = index_living(&world.creeps);
    let pulled_by = pair_pulls(world, moves, pulls, &by_id);
    // Ids that drag some creep.
    let mut pullers: HashMap<CreepId, bool> = HashMap::new();
    for i in 0..world.creeps.len()
        invariant
            scene == (Scene { world: *world, moves: moves@, pulls: pulls@ }),
            forall|t: CreepId| #[trigger] pulled_by@.contains_key(t) <==> scene.is_dragged(t),
            forall|t: CreepId| #[trigger]
                pulled_by@.contains_key(t) ==> scene.drags(pulled_by@[t], t),
            forall|p: CreepId| #[trigger] pullers@.contains_key(p) ==> scene.is_pulling(p),
            forall|j: int|
                0 <= j < i && pulled_by@.contains_key((#[trigger] world.creeps[j]).id)
                    ==> pullers@.contains_key(pulled_by@[world.creeps[j].id]),
    {
        if let Some(puller) = pulled_by.get(&world.creeps[i].id) {
            assert(scene.drags(*puller, world.creeps[i as int].id));
            pullers.insert(*puller, true);
        }
    }
    proof {
        assert forall|p: CreepId| scene.is_pulling(p) implies #[trigger] pullers@.contains_key(
            p,
        ) by {
            let t = choose|t: CreepId| scene.drags(p, t);
            lemma_living_index(world.creeps@, t);
            let j = scene.living(t)->0;
            assert(scene.is_dragged(t));
            assert(pulled_by@.contains_key(t));
            assert(world.creeps[j].id == t);
            lemma_one_puller(scene, p, pulled_by@[t], t);
        }
    }
    let mut movers: Vec<Mover> = Vec::new();
    // Ids that move by themselves.
    let mut walking: HashMap<CreepId, bool> = HashMap::new();
    for i in 0..world.creeps.len()
        invariant
            scene == (Scene { world: *world, moves: moves@, pulls: pulls@ }),
            forall|t: CreepId| #[trigger] pulled_by@.contains_key(t) <==> scene.is_dragged(t),
            forall|p: CreepId| #[trigger] pullers@.contains_key(p) <==> scene.is_pulling(p),
            movers@ == scene.walkers(i as int),
            forall|id: CreepId| #[trigger]
                walking@.contains_key(id) <==> exists|j: int|
                    0 <= j < i && #[trigger] scene.walks(j) && world.creeps[j].id == id,
    {
        let c: &SimCreep = &world.creeps[i];
        let ghost before = walking@;
        if c.is_alive() && !pulled_by.contains_key(&c.id) && c.fatigue == 0 && c.body.can_move() {
            if let Some(dir) = moves.get(&c.id) {
                if let Some(dest_pos) = step(c.pos, *dir) {
                    assert(scene.walks(i as int));
                    movers.push(
                        Mover {
                            id: c.id,
                            current_pos: c.pos,
                            dest_pos,
                            move_rate: c.body.move_rate(),
                            weight: weight_in_contention(c),
                            pulled: false,
                            pulling: pullers.contains_key(&c.id),
                        },
                    );
                    walking.insert(c.id, true);
                }
            }
        }
        assert(movers@ =~= scene.walkers(i + 1));
        assert forall|id: CreepId| #[trigger] walking@.contains_key(id) implies exists|j: int|
            0 <= j < i + 1 && #[trigger] scene.walks(j) && world.creeps[j].id == id by {
            if before.contains_key(id) {
            } else {
                assert(scene.walks(i as int));
            }
        }
    }
    let ghost walkers = movers@;
    for i in 0..world.creeps.len()
        invariant
            scene == (Scene { world: *world, moves: moves@, pulls: pulls@ }),
            forall|id: CreepId| #[trigger]
                by_id@.contains_key(id) <==> living_index(world.creeps@, id) is Some,
            forall|id: CreepId| #[trigger]
                by_id@.contains_key(id) ==> living_index(world.creeps@, id) == Some(
                    by_id@[id] as int,
                ),
            forall|t: CreepId| #[trigger] pulled_by@.contains_key(t) <==> scene.is_dragged(t),
            forall|t: CreepId| #[trigger]
                pulled_by@.contains_key(t) ==> scene.drags(pulled_by@[t], t),
            forall|id: CreepId| #[trigger] walking@.contains_key(id) <==> scene.id_walks(id),
            movers@ == walkers + scene.followers(i as int),
    {
        let c: &SimCreep = &world.creeps[i];
        if let Some(puller) = pulled_by.get(&c.id) {
            let puller: CreepId = *puller;
            proof {
                assert(scene.drags(puller, c.id));
                lemma_one_puller(scene, puller, scene.puller_of(c.id), c.id);
                lemma_living_index(world.creeps@, c.id);
                lemma_living_index(world.creeps@, puller);
            }
            if let (Some(own), Some(p)) = (by_id.get(&c.id), by_id.get(&puller)) {
                if *own == i && walking.contains_key(&puller) {
                    assert(scene.follows(i as int));
                    movers.push(
                        Mover {
                            id: c.id,
                            current_pos: c.pos,
                            dest_pos: world.creeps[*p].pos,
                            move_rate: c.body.move_rate(),
                            weight: weight_in_contention(c),
                            pulled: true,
                            pulling: false,
                        },
                    );
                }
            }
        }
        assert(movers@ =~= walkers + scene.followers(i + 1));
    }
    movers
}

/// No creep is dragged by two.
pub proof fn lemma_one_puller(scene: Scene, a: CreepId, b: CreepId, target: CreepId)
    requires
        scene.drags(a, target),
        scene.drags(b, target),
    ensures
        a == b,
{
}

/// The first rank of mover `i`.
fn rate1(movers: &Vec<Mover>, i: usize) -> (rate: usize)
    requires
        i < movers.len(),
    ensures
        rate == affected(movers@, i as int),
{
    let from: Position = movers[i].current_pos;
    let to: Position = movers[i].dest_pos;
    let mut wanted: usize = 0;
    for k in 0..movers.len()
        invariant
            i < movers.len(),
            from == movers[i as int].current_pos,
            to == movers[i as int].dest_pos,
            wanted <= k,
            wanted == want_count(movers@.take(k as int), from),
            forall|j: int|
                0 <= j < k ==> !((#[trigger] movers[j]).current_pos == to && movers[j].dest_pos
                    == from),
    {
        assert(movers@.take(k + 1).drop_last() =~= movers@.take(k as int));
        if movers[k].current_pos == to && movers[k].dest_pos == from {
            assert(swaps(movers@, i as int));
            return 100;
        }
        if movers[k].dest_pos == from {
            wanted = wanted + 1;
        }
    }
    assert(movers@.take(movers.len() as int) =~= movers@);
    wanted
}

/// Whether mover `i` takes precedence over mover `j`, given every mover's first rank.
fn precedes(movers: &Vec<Mover>, ranks: &Vec<usize>, i: usize, j: usize) -> (first: bool)
    requires
        i < movers.len(),
        j < movers.len(),
        ranks.len() == movers.len(),
        forall|k: int| 0 <= k < ranks.len() ==> #[trigger] ranks[k] == affected(movers@, k),
    ensures
        first == outranks(movers@, i as int, j as int),
{
    let a: Mover = movers[i];
    let b: Mover = movers[j];
    assert(a.move_rate * b.weight <= 0xFFFF_FFFF * 0xFFFF_FFFF) by (nonlinear_arith)
        requires
            a.move_rate <= 0xFFFF_FFFF,
            b.weight <= 0xFFFF_FFFF,
    ;
    assert(b.move_rate * a.weight <= 0xFFFF_FFFF * 0xFFFF_FFFF) by (nonlinear_arith)
        requires
            b.move_rate <= 0xFFFF_FFFF,
            a.weight <= 0xFFFF_FFFF,
    ;
    if ranks[i] != ranks[j] {
        ranks[i] > ranks[j]
    } else if a.pulled != b.pulled {
        a.pulled
    } else if a.pulling != b.pulling {
        a.pulling
    } else {
        a.move_rate as u64 * b.weight as u64 > b.move_rate as u64 * a.weight as u64
    }
}

/// One winner per contested tile: which movers win their destination.
fn contend(movers: &Vec<Mover>) -> (winning: Vec<bool>)
    ensures
        winning.len() == movers.len(),
        forall|i: int| 0 <= i < movers.len() ==> #[trigger] winning[i] == wins(movers@, i),
{
    let mut ranks: Vec<usize> = Vec::new();
    for i in 0..movers.len()
        invariant
            ranks.len() == i,
            forall|k: int| 0 <= k < i ==> #[trigger] ranks[k] == affected(movers@, k),
    {
        ranks.push(rate1(movers, i));
    }
    let mut winning: Vec<bool> = Vec::new();
    for i in 0..movers.len()
        invariant
            ranks.len() == movers.len(),
            forall|k: int| 0 <= k < ranks.len() ==> #[trigger] ranks[k] == affected(movers@, k),
            winning.len() == i,
            forall|k: int| 0 <= k < i ==> #[trigger] winning[k] == wins(movers@, k),
    {
        let mut best: bool = true;
        for j in 0..movers.len()
            invariant
                i < movers.len(),
                ranks.len() == movers.len(),
                forall|k: int| 0 <= k < ranks.len() ==> #[trigger] ranks[k] == affected(movers@, k),
                best ==> forall|k: int|
                    0 <= k < j && k != i && (#[trigger] movers@[k]).dest_pos
                        == movers@[i as int].dest_pos ==> !outranks(movers@, k, i as int) && (k < i
                        ==> outranks(movers@, i as int, k)),
                !best ==> !wins(movers@, i as int),
        {
            if j != i && movers[j].dest_pos == movers[i].dest_pos {
                if precedes(movers, &ranks, j, i) || (j < i && !precedes(movers, &ranks, i, j)) {
                    assert(movers@[j as int].dest_pos == movers@[i as int].dest_pos);
                    best = false;
                }
            }
        }
        winning.push(best);
    }
    winning
}

/// The last mover of each id.
fn index_movers(movers: &Vec<Mover>) -> (by_id: HashMap<CreepId, usize>)
    ensures
        forall|id: CreepId| #[trigger]
            by_id@.contains_key(id) <==> mover_index(movers@, id) is Some,
        forall|id: CreepId| #[trigger]
            by_id@.contains_key(id) ==> mover_index(movers@, id) == Some(by_id@[id] as int)
                && by_id@[id] < movers.len(),
{
    let mut by_id: HashMap<CreepId, usize> = HashMap::new();
    for i in 0..movers.len()
        invariant
            forall|id: CreepId| #[trigger]
                by_id@.contains_key(id) <==> mover_index(movers@.take(i as int), id) is Some,
            forall|id: CreepId| #[trigger]
                by_id@.contains_key(id) ==> mover_index(movers@.take(i as int), id) == Some(
                    by_id@[id] as int,
                ) && by_id@[id] < i,
    {
        assert(movers@.take(i + 1).drop_last() =~= movers@.take(i as int));
        by_id.insert(movers[i].id, i);
    }
    assert(movers@.take(movers.len() as int) =~= movers@);
    by_id
}

/// Which creeps will not leave their tile, contention alone considered.
fn find_remaining(world: &MovementState, movers: &Vec<Mover>, winning: &Vec<bool>, Ghost(
    scene,
): Ghost<Scene>) -> (remaining: Vec<bool>)
    requires
        scene.world == *world,
        movers@ == scene.movers(),
        winning.len() == movers.len(),
        forall|i: int| 0 <= i < movers.len() ==> #[trigger] winning[i] == wins(movers@, i),
    ensures
        remaining.len() == world.creeps.len(),
        forall|i: int| 0 <= i < remaining.len() ==> #[trigger] remaining[i] == scene.remains(i),
{
    let by_id = index_movers(movers);
    let mut remaining: Vec<bool> = Vec::new();
    for i in 0..world.creeps.len()
        invariant
            scene.world == *world,
            movers@ == scene.movers(),
            winning.len() == movers.len(),
            forall|i: int| 0 <= i < movers.len() ==> #[trigger] winning[i] == wins(movers@, i),
            forall|id: CreepId| #[trigger]
                by_id@.contains_key(id) <==> mover_index(movers@, id) is Some,
            forall|id: CreepId| #[trigger]
                by_id@.contains_key(id) ==> mover_index(movers@, id) == Some(by_id@[id] as int)
                    && by_id@[id] < movers.len(),
            remaining.len() == i,
            forall|k: int| 0 <= k < i ==> #[trigger] remaining[k] == scene.remains(k),
    {
        let c: &SimCreep = &world.creeps[i];
        let stays: bool = match by_id.get(&c.id) {
            Some(j) => !winning[*j],
            None => true,
        };
        remaining.push(c.is_alive() && stays);
    }
    remaining
}

/// Which movers cannot leave by themselves.
fn find_halted(world: &MovementState, movers: &Vec<Mover>, winning: &Vec<bool>, Ghost(
    scene,
): Ghost<Scene>) -> (halted: Vec<bool>)
    requires
        scene.world == *world,
        movers@ == scene.movers(),
        winning.len() == movers.len(),
        forall|i: int| 0 <= i < movers.len() ==> #[trigger] winning[i] == wins(movers@, i),
    ensures
        halted.len() == movers.len(),
        forall|j: int| 0 <= j < halted.len() ==> #[trigger] halted[j] == scene.halted(j),
{
    let remaining = find_remaining(world, movers, winning, Ghost(scene));
    let mut halted: Vec<bool> = Vec::new();
    for j in 0..movers.len()
        invariant
            scene.world == *world,
            movers@ == scene.movers(),
            winning.len() == movers.len(),
            forall|i: int| 0 <= i < movers.len() ==> #[trigger] winning[i] == wins(movers@, i),
            remaining.len() == world.creeps.len(),
            forall|i: int| 0 <= i < remaining.len() ==> #[trigger] remaining[i] == scene.remains(i),
            halted.len() == j,
            forall|k: int| 0 <= k < j ==> #[trigger] halted[k] == scene.halted(k),
    {
        let dest: Position = movers[j].dest_pos;
        let wall: bool = world.terrain_for(dest.room).is_wall(dest.x, dest.y);
        let mut occupied: bool = false;
        for i in 0..world.creeps.len()
            invariant
                scene.world == *world,
                remaining.len() == world.creeps.len(),
                forall|i: int|
                    0 <= i < remaining.len() ==> #[trigger] remaining[i] == scene.remains(i),
                occupied ==> scene.occupied(dest),
                !occupied ==> forall|k: int|
                    0 <= k < i && #[trigger] scene.remains(k) ==> world.creeps[k].pos != dest,
        {
            if remaining[i] && world.creeps[i].pos == dest {
                assert(scene.remains(i as int));
                occupied = true;
            }
        }
        halted.push(!winning[j] || wall || occupied);
    }
    halted
}

/// How many entries are set.
spec fn set_count(flags: Seq<bool>) -> nat
    decreases flags.len(),
{
    if flags.len() == 0 {
        0
    } else {
        set_count(flags.drop_last()) + if flags.last() {
            1nat
        } else {
            0nat
        }
    }
}

proof fn lemma_set_count_clear(flags: Seq<bool>, i: int)
    requires
        0 <= i < flags.len(),
        flags[i],
    ensures
        set_count(flags.update(i, false)) + 1 == set_count(flags),
    decreases flags.len(),
{
    let after = flags.update(i, false);
    if i == flags.len() - 1 {
        assert(after.drop_last() =~= flags.drop_last());
    } else {
        assert(after.drop_last() =~= flags.drop_last().update(i, false));
        lemma_set_count_clear(flags.drop_last(), i);
    }
}

/// Which movers reach their destination: a mover that stays blocks every mover that wanted its
/// tile.
fn spread_blocks(movers: &Vec<Mover>, halted: Vec<bool>, Ghost(scene): Ghost<Scene>) -> (moving:
    Vec<bool>)
    requires
        movers@ == scene.movers(),
        halted.len() == movers.len(),
        forall|j: int| 0 <= j < halted.len() ==> #[trigger] halted[j] == scene.halted(j),
    ensures
        moving.len() == movers.len(),
        forall|j: int| 0 <= j < moving.len() ==> #[trigger] moving[j] == !scene.blocked(j),
{
    let mut moving: Vec<bool> = Vec::new();
    let mut stack: Vec<usize> = Vec::new();
    for j in 0..movers.len()
        invariant
            halted.len() == movers.len(),
            moving.len() == j,
            forall|k: int| 0 <= k < j ==> #[trigger] moving[k] == !halted[k],
            forall|k: int|
                0 <= k < stack.len() ==> #[trigger] stack[k] < j && halted[stack[k] as int],
            forall|k: int| 0 <= k < j && #[trigger] halted[k] ==> stack@.contains(k as usize),
    {
        let ghost before = stack@;
        moving.push(!halted[j]);
        if halted[j] {
            stack.push(j);
            assert(stack@.last() == j);
        }
        assert forall|k: int| 0 <= k < j + 1 && #[trigger] halted[k] implies stack@.contains(
            k as usize,
        ) by {
            if k < j {
                let at = choose|at: int| 0 <= at < before.len() && before[at] == k as usize;
                assert(stack@[at] == k as usize);
            }
        }
    }
    assert forall|k: int| 0 <= k < moving.len() && !#[trigger] moving[k] implies scene.blocked(k) by {
        assert(scene.blocked_within(0, k));
    }
    loop
        invariant_except_break
            forall|i: int, j: int|
                #![trigger moving[i], moving[j]]
                0 <= i < moving.len() && 0 <= j < moving.len() && !moving[i] && moving[j]
                    && movers[j].dest_pos == movers[i].current_pos ==> stack@.contains(i as usize),
        invariant
            movers@ == scene.movers(),
            halted.len() == movers.len(),
            forall|j: int| 0 <= j < halted.len() ==> #[trigger] halted[j] == scene.halted(j),
            moving.len() == movers.len(),
            forall|k: int| 0 <= k < moving.len() && !#[trigger] moving[k] ==> scene.blocked(k),
            forall|k: int| 0 <= k < moving.len() && halted[k] ==> !#[trigger] moving[k],
            forall|k: int| 0 <= k < stack.len() ==> #[trigger] stack[k] < moving.len(),
            forall|k: int| 0 <= k < stack.len() ==> !moving[#[trigger] stack[k] as int],
        ensures
            forall|i: int, j: int|
                #![trigger moving[i], moving[j]]
                0 <= i < moving.len() && 0 <= j < moving.len() && !moving[i] && moving[j]
                    ==> movers[j].dest_pos != movers[i].current_pos,
        decreases set_count(moving@), stack.len(),
    {
        let ghost stack0 = stack@;
        let ghost moving0 = moving@;
        let i: usize = match stack.pop() {
            Some(i) => i,
            None => {
                break;
            },
        };
        let ghost popped = stack@;
        assert(stack0[stack0.len() - 1] == i);
        assert(!moving[i as int]);
        assert forall|k: usize| k != i && stack0.contains(k) implies #[trigger] popped.contains(
            k,
        ) by {
            let at = choose|at: int| 0 <= at < stack0.len() && stack0[at] == k;
            assert(popped[at] == k);
        }
        for j in 0..movers.len()
            invariant
                i < moving.len(),
                !moving[i as int],
                movers@ == scene.movers(),
                halted.len() == movers.len(),
                moving.len() == movers.len(),
                moving0.len() == moving.len(),
                forall|k: int| 0 <= k < moving.len() && !#[trigger] moving[k] ==> scene.blocked(k),
                forall|k: int| 0 <= k < moving.len() && halted[k] ==> !#[trigger] moving[k],
                forall|k: int| 0 <= k < stack.len() ==> #[trigger] stack[k] < moving.len(),
                forall|k: int| 0 <= k < stack.len() ==> !moving[#[trigger] stack[k] as int],
                forall|a: int, b: int|
                    #![trigger moving[a], moving[b]]
                    0 <= a < moving.len() && a != i && 0 <= b < moving.len() && !moving[a]
                        && moving[b] && movers[b].dest_pos == movers[a].current_pos
                        ==> stack@.contains(a as usize),
                forall|b: int|
                    0 <= b < j && #[trigger] moving[b] ==> movers[b].dest_pos
                        != movers[i as int].current_pos,
                set_count(moving@) <= set_count(moving0),
                set_count(moving@) == set_count(moving0) ==> stack@ == popped,
        {
            if moving[j] && movers[j].dest_pos == movers[i].current_pos {
                let ghost stack1 = stack@;
                proof {
                    assert(scene.blocked(i as int));
                    let n = choose|n: nat| scene.blocked_within(n, i as int);
                    assert(movers@[i as int] == scene.movers()[i as int]);
                    assert(scene.blocked_within((n + 1) as nat, j as int));
                    lemma_set_count_clear(moving@, j as int);
                }
                moving.set(j, false);
                stack.push(j);
                assert(stack@.last() == j);
                assert forall|k: usize| stack1.contains(k) implies stack@.contains(k) by {
                    let at = choose|at: int| 0 <= at < stack1.len() && stack1[at] == k;
                    assert(stack@[at] == k);
                }
                assert(stack@.contains(j));
            }
        }
    }
    proof {
        assert forall|j: int| 0 <= j < moving.len() implies #[trigger] moving[j] == !scene.blocked(
            j,
        ) by {
            if scene.blocked(j) {
                let n = choose|n: nat| scene.blocked_within(n, j);
                lemma_closed_blocks(scene, moving@, n, j);
            }
        }
    }
    moving
}

/// Flags that are clear wherever a mover is halted, and wherever one follows a mover whose flag is
/// clear, are clear wherever a mover is blocked.
proof fn lemma_closed_blocks(scene: Scene, moving: Seq<bool>, n: nat, j: int)
    requires
        moving.len() == scene.movers().len(),
        forall|k: int| 0 <= k < moving.len() && scene.halted(k) ==> !#[trigger] moving[k],
        forall|i: int, k: int|
            #![trigger moving[i], moving[k]]
            0 <= i < moving.len() && 0 <= k < moving.len() && !moving[i] && moving[k]
                ==> scene.movers()[k].dest_pos != scene.movers()[i].current_pos,
        0 <= j < moving.len(),
        scene.blocked_within(n, j),
    ensures
        !moving[j],
    decreases n,
{
    if scene.halted(j) {
    } else {
        let i = choose|i: int|
            0 <= i < scene.movers().len() && scene.movers()[j].dest_pos == (
            #[trigger] scene.movers()[i]).current_pos && scene.blocked_within((n - 1) as nat, i);
        lemma_closed_blocks(scene, moving, (n - 1) as nat, i);
    }
}

/// Resolve move and pull intents for a tick. `pulls` maps a puller to the creep it drags: a pulled
/// creep follows the puller into its vacated tile and is eligible even with no MOVE part or nonzero
/// fatigue. Where several creeps pull one, the one with the lowest id drags it. Returns the creeps
/// that move, each with its new position.
pub fn resolve_moves_with_pulls(
    world: &MovementState,
    moves: &HashMap<CreepId, Direction>,
    pulls: &HashMap<CreepId, CreepId>,
) -> (moved: HashMap<CreepId, Position>)
    requires
        world.valid(),
    ensures
        moved@ == (Scene { world: *world, moves: moves@, pulls: pulls@ }).resolved(),
{
    let ghost scene = Scene { world: *world, moves: moves@, pulls: pulls@ };
    let movers = gather_movers(world, moves, pulls);
    let winning = contend(&movers);
    let halted = find_halted(world, &movers, &winning, Ghost(scene));
    let moving = spread_blocks(&movers, halted, Ghost(scene));
    let mut moved: HashMap<CreepId, Position> = HashMap::new();
    for j in 0..movers.len()
        invariant
            movers@ == scene.movers(),
            moving.len() == movers.len(),
            forall|j: int| 0 <= j < moving.len() ==> #[trigger] moving[j] == !scene.blocked(j),
            moved@ == scene.moved_by(j as int),
    {
        if moving[j] {
            moved.insert(movers[j].id, movers[j].dest_pos);
        }
    }
    moved
}

/// Resolve move intents with no pulls (the common case).
pub fn resolve_moves(world: &MovementState, moves: &HashMap<CreepId, Direction>) -> (moved: HashMap<
    CreepId,
    Position,
>)
    requires
        world.valid(),
    ensures
        moved@ == (Scene { world: *world, moves: moves@, pulls: Map::empty() }).resolved(),
{
    let pulls: HashMap<CreepId, CreepId> = HashMap::new();
    resolve_moves_with_pulls(world, moves, &pulls)
}

/// Walkers step to valid tiles.
proof fn lemma_walkers_valid(scene: Scene, n: int)
    requires
        n <= scene.world.creeps.len(),
    ensures
        forall|j: int|
            0 <= j < scene.walkers(n).len() ==> (#[trigger] scene.walkers(n)[j]).dest_pos.valid(),
    decreases n,
{
    if n > 0 {
        lemma_walkers_valid(scene, n - 1);
        assert forall|j: int| 0 <= j < scene.walkers(n).len() implies (
        #[trigger] scene.walkers(n)[j]).dest_pos.valid() by {
            if j < scene.walkers(n - 1).len() {
                assert(scene.walkers(n)[j] == scene.walkers(n - 1)[j]);
            }
        }
    }
}

/// Followers are dragged to valid tiles.
proof fn lemma_followers_valid(scene: Scene, n: int)
    requires
        scene.world.valid(),
        n <= scene.world.creeps.len(),
    ensures
        forall|j: int|
            0 <= j < scene.followers(n).len() ==> (
            #[trigger] scene.followers(n)[j]).dest_pos.valid(),
    decreases n,
{
    if n > 0 {
        lemma_followers_valid(scene, n - 1);
        if scene.follows(n - 1) {
            let puller = scene.puller_of(scene.world.creeps[n - 1].id);
            assert(scene.drags(puller, scene.world.creeps[n - 1].id));
            lemma_living_index(scene.world.creeps@, puller);
        }
        assert forall|j: int| 0 <= j < scene.followers(n).len() implies (
        #[trigger] scene.followers(n)[j]).dest_pos.valid() by {
            if j < scene.followers(n - 1).len() {
                assert(scene.followers(n)[j] == scene.followers(n - 1)[j]);
            }
        }
    }
}

/// Every new position is a tile of its room.
pub proof fn lemma_moved_by_valid(scene: Scene, n: int)
    requires
        scene.world.valid(),
        n <= scene.movers().len(),
    ensures
        forall|id: CreepId| #[trigger]
            scene.moved_by(n).contains_key(id) ==> scene.moved_by(n)[id].valid(),
    decreases n,
{
    if n > 0 {
        lemma_moved_by_valid(scene, n - 1);
        let len = scene.world.creeps.len() as int;
        lemma_walkers_valid(scene, len);
        lemma_followers_valid(scene, len);
        assert(scene.movers()[n - 1].dest_pos.valid()) by {
            if n - 1 < scene.walkers(len).len() {
                assert(scene.movers()[n - 1] == scene.walkers(len)[n - 1]);
            } else {
                assert(scene.movers()[n - 1] == scene.followers(len)[n - 1 - scene.walkers(
                    len,
                ).len()]);
            }
        }
        assert forall|id: CreepId| #[trigger] scene.moved_by(n).contains_key(
            id,
        ) implies scene.moved_by(n)[id].valid() by {
            if !scene.blocked(n - 1) && id == scene.movers()[n - 1].id {
            } else {
                assert(scene.moved_by(n - 1).contains_key(id));
            }
        }
    }
}

} // verus!
