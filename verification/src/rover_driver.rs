//! The decisions of the offline rover driver: what each creep is asked to do, which tiles its parked
//! mates hold, and how requests become orders of the movement system.
//!
//! The driver is generic over `T`, the movement system's stuck-escalation ladder, which is carried
//! through untouched. Running the movement system itself is the caller's part.

use crate::position::Position;
use crate::world::{CreepId, MovementState, PlayerId, SimCreep};
use std::collections::{HashMap, HashSet};
use vstd::prelude::*;

verus! {

broadcast use vstd::std_specs::hash::group_hash_axioms;

/// Default shove-chain depth for the sim mover.
pub const DEFAULT_SHOVE_DEPTH: u32 = 3;

/// Ticks a cached path is followed before an expiry repath, by default.
pub const DEFAULT_REUSE_PATH_LENGTH: u32 = 20;

/// Per-tick pathfinding ops budget, by default.
pub const DEFAULT_PATHFINDING_OPS_BUDGET: u32 = 20_000;

/// The tunables one driver run is configured with.
#[derive(Clone, Debug)]
pub struct MoverConfig<T> {
    /// Resolver shove-chain depth.
    pub max_shove_depth: u32,
    /// Ticks a cached path is followed before an expiry repath.
    pub reuse_path_length: u32,
    /// Per-tick pathfinding ops budget.
    pub pathfinding_ops_budget: u32,
    /// Chebyshev radius for tier-1 friendly-avoid escalation (0 = all friendlies).
    pub friendly_creep_distance: u32,
    /// The stuck-escalation ladder.
    pub stuck_thresholds: T,
    /// Register unrequested same-side creeps as stationary occupants.
    pub register_idle_creeps: bool,
}

impl<T> MoverConfig<T> {
    /// The defaults, around the movement system's own friendly distance and ladder.
    pub fn standard(friendly_creep_distance: u32, stuck_thresholds: T) -> (config: MoverConfig<T>)
        ensures
            config == (MoverConfig {
                max_shove_depth: 3,
                reuse_path_length: 20,
                pathfinding_ops_budget: 20_000,
                friendly_creep_distance,
                stuck_thresholds,
                register_idle_creeps: true,
            }),
    {
        MoverConfig {
            max_shove_depth: DEFAULT_SHOVE_DEPTH,
            reuse_path_length: DEFAULT_REUSE_PATH_LENGTH,
            pathfinding_ops_budget: DEFAULT_PATHFINDING_OPS_BUDGET,
            friendly_creep_distance,
            stuck_thresholds,
            register_idle_creeps: true,
        }
    }
}

/// Who wins a contested tile.
#[derive(Clone, Copy, Debug, PartialEq, Eq, Structural)]
pub enum MovementPriority {
    Low,
    Normal,
    High,
}

/// A movement goal.
#[derive(Debug)]
pub enum SimMoveGoal {
    /// Reach `target` within `range`.
    To { target: Position, range: u32 },
    /// Flee to outside `range` of every threat.
    Flee { threats: Vec<Position>, range: u32 },
}

/// A per-creep movement request.
#[derive(Debug)]
pub struct SimMoveRequest<T> {
    pub creep: CreepId,
    pub goal: SimMoveGoal,
    /// Decides who wins a contested tile, before any tie-break.
    pub priority: MovementPriority,
    /// Optional numeric priority, between the enum tiers. `None` is the enum's own value.
    pub priority_value: Option<i64>,
    /// Allow the resolver to shove and swap others to reach the tile.
    pub shove: bool,
    /// Optional anchor: confines the resolver's shoves and swaps of this creep to a range around a
    /// centre.
    pub anchor: Option<(Position, u32)>,
    /// Stuck-escalation ladder of this request alone. `None` is that of the run.
    pub stuck_thresholds: Option<T>,
}

impl<T> SimMoveRequest<T> {
    /// Reach `target` within `range`, with default priority and shoving on.
    pub fn move_to(creep: CreepId, target: Position, range: u32) -> (request: SimMoveRequest<T>)
        ensures
            request == (SimMoveRequest::<T> {
                creep,
                goal: SimMoveGoal::To { target, range },
                priority: MovementPriority::Normal,
                priority_value: None,
                shove: true,
                anchor: None,
                stuck_thresholds: None,
            }),
    {
        SimMoveRequest {
            creep,
            goal: SimMoveGoal::To { target, range },
            priority: MovementPriority::Normal,
            priority_value: None,
            shove: true,
            anchor: None,
            stuck_thresholds: None,
        }
    }

    /// Sets the contention priority.
    pub fn with_priority(self, priority: MovementPriority) -> (request: SimMoveRequest<T>)
        ensures
            request == (SimMoveRequest { priority, ..self }),
    {
        SimMoveRequest { priority, ..self }
    }

    /// Sets a numeric priority.
    pub fn with_priority_value(self, value: i64) -> (request: SimMoveRequest<T>)
        ensures
            request == (SimMoveRequest { priority_value: Some(value), ..self }),
    {
        SimMoveRequest { priority_value: Some(value), ..self }
    }

    /// Overrides the stuck-escalation ladder for this request only.
    pub fn with_stuck_thresholds(self, thresholds: T) -> (request: SimMoveRequest<T>)
        ensures
            request == (SimMoveRequest { stuck_thresholds: Some(thresholds), ..self }),
    {
        SimMoveRequest { stuck_thresholds: Some(thresholds), ..self }
    }

    /// Enables or disables shoving for this request.
    pub fn with_shove(self, shove: bool) -> (request: SimMoveRequest<T>)
        ensures
            request == (SimMoveRequest { shove, ..self }),
    {
        SimMoveRequest { shove, ..self }
    }

    /// Confines this creep's shoves and swaps to within `range` of `center`.
    pub fn with_anchor(self, center: Position, range: u32) -> (request: SimMoveRequest<T>)
        ensures
            request == (SimMoveRequest { anchor: Some((center, range)), ..self }),
    {
        SimMoveRequest { anchor: Some((center, range)), ..self }
    }
}

/// Some request moves the creep.
pub open spec fn requested<T>(requests: Seq<SimMoveRequest<T>>, creep: CreepId) -> bool {
    exists|i: int| 0 <= i < requests.len() && (#[trigger] requests[i]).creep == creep
}

/// The owner has a creep, dead or alive, that some request moves.
pub open spec fn requests_by<T>(
    creeps: Seq<SimCreep>,
    requests: Seq<SimMoveRequest<T>>,
    owner: PlayerId,
) -> bool {
    exists|j: int|
        0 <= j < creeps.len() && (#[trigger] creeps[j]).owner == owner && requested(
            requests,
            creeps[j].id,
        )
}

/// Creep `j` is parked: alive, moved by no request, and of an owner who has requests.
pub open spec fn parked<T>(
    creeps: Seq<SimCreep>,
    requests: Seq<SimMoveRequest<T>>,
    j: int,
) -> bool {
    &&& 0 <= j < creeps.len()
    &&& creeps[j].alive()
    &&& !requested(requests, creeps[j].id)
    &&& requests_by(creeps, requests, creeps[j].owner)
}

/// The map holds, by packed position, the lowest id among the first `n` creeps parked there.
pub open spec fn registers<T>(
    idle: Map<u32, CreepId>,
    creeps: Seq<SimCreep>,
    requests: Seq<SimMoveRequest<T>>,
    n: int,
) -> bool {
    &&& forall|tile: u32| #[trigger]
        idle.contains_key(tile) ==> exists|j: int|
            j < n && #[trigger] parked(creeps, requests, j) && creeps[j].pos.packed() == tile
                && creeps[j].id == idle[tile]
    &&& forall|j: int|
        j < n && #[trigger] parked(creeps, requests, j) ==> idle.contains_key(
            creeps[j].pos.packed() as u32,
        ) && idle[creeps[j].pos.packed() as u32] <= creeps[j].id
}

/// The occupants registered for a world and a set of requests are determined by them.
pub proof fn lemma_registration_deterministic<T>(
    a: Map<u32, CreepId>,
    b: Map<u32, CreepId>,
    creeps: Seq<SimCreep>,
    requests: Seq<SimMoveRequest<T>>,
)
    requires
        registers(a, creeps, requests, creeps.len() as int),
        registers(b, creeps, requests, creeps.len() as int),
    ensures
        a == b,
{
    assert forall|tile: u32| a.contains_key(tile) implies b.contains_key(tile) && a[tile] >= b[tile] by {
        let j = choose|j: int|
            j < creeps.len() && #[trigger] parked(creeps, requests, j) && creeps[j].pos.packed()
                == tile && creeps[j].id == a[tile];
        assert(b.contains_key(creeps[j].pos.packed() as u32));
    }
    assert forall|tile: u32| b.contains_key(tile) implies a.contains_key(tile) && b[tile] >= a[tile] by {
        let j = choose|j: int|
            j < creeps.len() && #[trigger] parked(creeps, requests, j) && creeps[j].pos.packed()
                == tile && creeps[j].id == b[tile];
        assert(a.contains_key(creeps[j].pos.packed() as u32));
    }
    assert(a =~= b);
}

/// The ids that some request moves.
fn requested_ids<T>(requests: &[SimMoveRequest<T>]) -> (ids: HashSet<CreepId>)
    ensures
        forall|id: CreepId| #[trigger] ids@.contains(id) <==> requested(requests@, id),
{
    let mut ids: HashSet<CreepId> = HashSet::new();
    for i in 0..requests.len()
        invariant
            forall|id: CreepId| #[trigger]
                ids@.contains(id) <==> exists|k: int|
                    0 <= k < i && (#[trigger] requests@[k]).creep == id,
    {
        ids.insert(requests[i].creep);
    }
    ids
}

/// The owners of the creeps with the given ids.
fn requesting_owners<T>(
    creeps: &Vec<SimCreep>,
    ids: &HashSet<CreepId>,
    Ghost(requests): Ghost<Seq<SimMoveRequest<T>>>,
) -> (owners: HashSet<PlayerId>)
    requires
        forall|id: CreepId| #[trigger] ids@.contains(id) <==> requested(requests, id),
    ensures
        forall|owner: PlayerId| #[trigger]
            owners@.contains(owner) <==> requests_by(creeps@, requests, owner),
{
    let mut owners: HashSet<PlayerId> = HashSet::new();
    for j in 0..creeps.len()
        invariant
            forall|id: CreepId| #[trigger] ids@.contains(id) <==> requested(requests, id),
            forall|owner: PlayerId| #[trigger]
                owners@.contains(owner) <==> exists|k: int|
                    0 <= k < j && (#[trigger] creeps@[k]).owner == owner && requested(
                        requests,
                        creeps@[k].id,
                    ),
    {
        if ids.contains(&creeps[j].id) {
            owners.insert(creeps[j].owner);
        }
    }
    owners
}

/// The parked creeps as stationary occupants, by packed position: every living creep without a
/// request this tick, of an owner who has requests. Of several creeps on a tile the lowest id
/// counts.
pub fn idle_positions<T>(
    movement: &MovementState,
    requests: &[SimMoveRequest<T>],
) -> (idle: HashMap<u32, CreepId>)
    requires
        movement.valid(),
    ensures
        registers(idle@, movement.creeps@, requests@, movement.creeps.len() as int),
{
    let ids = requested_ids(requests);
    let owners = requesting_owners::<T>(&movement.creeps, &ids, Ghost(requests@));
    let ghost creeps = movement.creeps@;
    let mut idle: HashMap<u32, CreepId> = HashMap::new();
    for j in 0..movement.creeps.len()
        invariant
            movement.valid(),
            creeps == movement.creeps@,
            forall|id: CreepId| #[trigger] ids@.contains(id) <==> requested(requests@, id),
            forall|owner: PlayerId| #[trigger]
                owners@.contains(owner) <==> requests_by(creeps, requests@, owner),
            registers(idle@, creeps, requests@, j as int),
    {
        let c = &movement.creeps[j];
        let ghost before = idle@;
        if c.is_alive() && !ids.contains(&c.id) && owners.contains(&c.owner) {
            assert(parked(creeps, requests@, j as int));
            let tile: u32 = c.pos.packed_repr();
            let lower: bool = match idle.get(&tile) {
                Some(id) => c.id < *id,
                None => true,
            };
            if lower {
                idle.insert(tile, c.id);
            }
            assert forall|t: u32| #[trigger] idle@.contains_key(t) implies exists|k: int|
                k < j + 1 && #[trigger] parked(creeps, requests@, k) && creeps[k].pos.packed() == t
                    && creeps[k].id == idle@[t] by {
                if t == tile && lower {
                    assert(parked(creeps, requests@, j as int));
                } else {
                    assert(before.contains_key(t));
                }
            }
        } else {
            assert(!parked(creeps, requests@, j as int));
        }
    }
    idle
}

/// The occupants to register for a run: those of [`idle_positions`], unless the run opts out.
pub fn idle_registration<T>(
    movement: &MovementState,
    requests: &[SimMoveRequest<T>],
    config: &MoverConfig<T>,
) -> (idle: Option<HashMap<u32, CreepId>>)
    requires
        movement.valid(),
    ensures
        idle is Some <==> config.register_idle_creeps,
        idle matches Some(map) ==> registers(
            map@,
            movement.creeps@,
            requests@,
            movement.creeps.len() as int,
        ),
{
    if config.register_idle_creeps {
        Some(idle_positions(movement, requests))
    } else {
        None
    }
}

/// What the movement system is told to aim for.
#[derive(Debug)]
pub enum OrderGoal {
    /// Reach a tile within a range.
    MoveTo { target: Position, range: u32 },
    /// Stay away from each tile by its own range.
    Flee { targets: Vec<(Position, u32)> },
}

/// One order to the movement system.
#[derive(Debug)]
pub struct MoveOrder<'a, T> {
    pub creep: CreepId,
    pub goal: OrderGoal,
    pub allow_shove: bool,
    pub allow_swap: bool,
    pub priority: MovementPriority,
    pub priority_value: Option<i64>,
    pub stuck_thresholds: Option<&'a T>,
    pub anchor: Option<(Position, u32)>,
}

/// The order's goal is that of the request; fleeing keeps the one range from each threat.
pub open spec fn aims_at(goal: OrderGoal, wanted: SimMoveGoal) -> bool {
    match wanted {
        SimMoveGoal::To { target, range } => goal == (OrderGoal::MoveTo { target, range }),
        SimMoveGoal::Flee { threats, range } => {
            &&& goal is Flee
            &&& goal->Flee_targets@ == threats@.map_values(|threat: Position| (threat, range))
        },
    }
}

/// The order carries out the request: shoving and swapping are allowed or denied together, and the
/// rest is passed on.
pub open spec fn carries_out<T>(order: MoveOrder<'_, T>, request: SimMoveRequest<T>) -> bool {
    &&& order.creep == request.creep
    &&& aims_at(order.goal, request.goal)
    &&& order.allow_shove == request.shove
    &&& order.allow_swap == request.shove
    &&& order.priority == request.priority
    &&& order.priority_value == request.priority_value
    &&& order.anchor == request.anchor
    &&& match request.stuck_thresholds {
        Some(thresholds) => order.stuck_thresholds == Some(&thresholds),
        None => order.stuck_thresholds is None,
    }
}

/// The order that carries out a request.
pub fn order_for<'a, T>(request: &'a SimMoveRequest<T>) -> (order: MoveOrder<'a, T>)
    ensures
        carries_out(order, *request),
{
    let goal = match &request.goal {
        SimMoveGoal::To { target, range } => OrderGoal::MoveTo { target: *target, range: *range },
        SimMoveGoal::Flee { threats, range } => {
            let mut targets: Vec<(Position, u32)> = Vec::new();
            for i in 0..threats.len()
                invariant
                    targets@ =~= threats@.take(i as int).map_values(
                        |threat: Position| (threat, *range),
                    ),
            {
                targets.push((threats[i], *range));
            }
            assert(threats@.take(threats.len() as int) =~= threats@);
            OrderGoal::Flee { targets }
        },
    };
    MoveOrder {
        creep: request.creep,
        goal,
        allow_shove: request.shove,
        allow_swap: request.shove,
        priority: request.priority,
        priority_value: request.priority_value,
        stuck_thresholds: request.stuck_thresholds.as_ref(),
        anchor: request.anchor,
    }
}

/// The orders that carry out the requests, in their order.
pub fn orders_for<'a, T>(requests: &'a [SimMoveRequest<T>]) -> (orders: Vec<MoveOrder<'a, T>>)
    ensures
        orders.len() == requests.len(),
        forall|i: int|
            0 <= i < requests.len() ==> carries_out(#[trigger] orders[i], requests[i]),
{
    let mut orders: Vec<MoveOrder<'a, T>> = Vec::new();
    for i in 0..requests.len()
        invariant
            orders.len() == i,
            forall|k: int| 0 <= k < i ==> carries_out(#[trigger] orders[k], requests[k]),
    {
        orders.push(order_for(&requests[i]));
    }
    orders
}

/// Creep `j` is the first living creep with the id.
pub open spec fn first_living(creeps: Seq<SimCreep>, id: CreepId, j: int) -> bool {
    &&& 0 <= j < creeps.len()
    &&& creeps[j].id == id
    &&& creeps[j].alive()
    &&& forall|k: int| 0 <= k < j ==> !((#[trigger] creeps[k]).id == id && creeps[k].alive())
}

/// The living creep that the movement system means by an id; `None` if there is none.
pub fn living_creep(movement: &MovementState, id: CreepId) -> (found: Option<&SimCreep>)
    ensures
        found is Some <==> exists|j: int| first_living(movement.creeps@, id, j),
        found matches Some(c) ==> exists|j: int|
            #[trigger] first_living(movement.creeps@, id, j) && movement.creeps@[j] == *c,
{
    for j in 0..movement.creeps.len()
        invariant
            forall|k: int|
                0 <= k < j ==> !((#[trigger] movement.creeps@[k]).id == id
                    && movement.creeps@[k].alive()),
    {
        let c = &movement.creeps[j];
        if c.id == id && c.is_alive() {
            assert(first_living(movement.creeps@, id, j as int));
            return Some(c);
        }
    }
    None
}

/// The tile of the living creep with the id; `None` if there is none.
pub fn living_position(movement: &MovementState, id: CreepId) -> (pos: Option<Position>)
    ensures
        pos is Some <==> exists|j: int| first_living(movement.creeps@, id, j),
        pos matches Some(p) ==> exists|j: int|
            #[trigger] first_living(movement.creeps@, id, j) && movement.creeps@[j].pos == p,
{
    match living_creep(movement, id) {
        Some(c) => Some(c.pos),
        None => None,
    }
}

} // verus!
