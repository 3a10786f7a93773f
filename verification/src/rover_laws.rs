//! What the offline mover is handed, told from the world and the requests.

use crate::position::Position;
use crate::rover_driver::{
    carries_out, first_living, parked, registers, requested, requests_by, MoveOrder, OrderGoal,
    SimMoveGoal, SimMoveRequest,
};
use crate::world::{CreepId, SimCreep};
use vstd::prelude::*;

verus! {

/// The number of a tile: room, then `x`, then `y`.
pub open spec fn tile_number(pos: Position) -> u32 {
    (pos.room.packed * 65536 + pos.x * 256 + pos.y) as u32
}

/// Creep `j` is registered: it lives, no request names it, and some request names a creep of its
/// owner. Nothing else about it matters.
proof fn lemma_parked<T>(creeps: Seq<SimCreep>, requests: Seq<SimMoveRequest<T>>, j: int)
    requires
        0 <= j < creeps.len(),
    ensures
        parked(creeps, requests, j) <==> {
            &&& creeps[j].body.hits > 0
            &&& forall|r: int|
                0 <= r < requests.len() ==> (#[trigger] requests[r]).creep != creeps[j].id
            &&& exists|k: int, r: int|
                #![trigger creeps[k], requests[r]]
                0 <= k < creeps.len() && 0 <= r < requests.len() && creeps[k].owner
                    == creeps[j].owner && requests[r].creep == creeps[k].id
        },
{
    if requests_by(creeps, requests, creeps[j].owner) {
        let k = choose|k: int|
            0 <= k < creeps.len() && (#[trigger] creeps[k]).owner == creeps[j].owner && requested(
                requests,
                creeps[k].id,
            );
        let r = choose|r: int|
            0 <= r < requests.len() && (#[trigger] requests[r]).creep == creeps[k].id;
        assert(creeps[k].owner == creeps[j].owner && requests[r].creep == creeps[k].id);
    }
    if exists|k: int, r: int|
        #![trigger creeps[k], requests[r]]
        0 <= k < creeps.len() && 0 <= r < requests.len() && creeps[k].owner == creeps[j].owner
            && requests[r].creep == creeps[k].id {
        let (k, r) = choose|k: int, r: int|
            #![trigger creeps[k], requests[r]]
            0 <= k < creeps.len() && 0 <= r < requests.len() && creeps[k].owner
                == creeps[j].owner && requests[r].creep == creeps[k].id;
        assert(requested(requests, creeps[k].id));
        assert(requests_by(creeps, requests, creeps[j].owner));
    }
}

/// Every living creep that no request names, of an owner of whom a request names a creep, has its
/// tile registered, under its own id or a lower one; whatever its fatigue, body and load.
pub proof fn lemma_every_parked_creep_registered<T>(
    idle: Map<u32, CreepId>,
    creeps: Seq<SimCreep>,
    requests: Seq<SimMoveRequest<T>>,
    j: int,
    mate: int,
    request: int,
)
    requires
        registers(idle, creeps, requests, creeps.len() as int),
        0 <= j < creeps.len(),
        creeps[j].pos.x < 50,
        creeps[j].pos.y < 50,
        creeps[j].body.hits > 0,
        forall|r: int| 0 <= r < requests.len() ==> (#[trigger] requests[r]).creep != creeps[j].id,
        0 <= mate < creeps.len(),
        0 <= request < requests.len(),
        creeps[mate].owner == creeps[j].owner,
        requests[request].creep == creeps[mate].id,
    ensures
        idle.contains_key(tile_number(creeps[j].pos)),
        idle[tile_number(creeps[j].pos)] <= creeps[j].id,
{
    lemma_parked(creeps, requests, j);
    assert(creeps[mate].owner == creeps[j].owner && requests[request].creep == creeps[mate].id);
    assert(parked(creeps, requests, j));
}

/// Nothing else is registered: each entry is the id and tile of such a creep.
pub proof fn lemma_only_parked_creeps_registered<T>(
    idle: Map<u32, CreepId>,
    creeps: Seq<SimCreep>,
    requests: Seq<SimMoveRequest<T>>,
    tile: u32,
) -> (j: int)
    requires
        registers(idle, creeps, requests, creeps.len() as int),
        idle.contains_key(tile),
        forall|i: int|
            0 <= i < creeps.len() ==> (#[trigger] creeps[i]).pos.x < 50 && creeps[i].pos.y < 50,
    ensures
        0 <= j < creeps.len(),
        tile == tile_number(creeps[j].pos),
        idle[tile] == creeps[j].id,
        creeps[j].body.hits > 0,
        forall|r: int| 0 <= r < requests.len() ==> (#[trigger] requests[r]).creep != creeps[j].id,
        exists|k: int, r: int|
            #![trigger creeps[k], requests[r]]
            0 <= k < creeps.len() && 0 <= r < requests.len() && creeps[k].owner == creeps[j].owner
                && requests[r].creep == creeps[k].id,
{
    let j = choose|j: int|
        j < creeps.len() && #[trigger] parked(creeps, requests, j) && creeps[j].pos.packed() == tile
            && creeps[j].id == idle[tile];
    lemma_parked(creeps, requests, j);
    j
}

/// The registration does not look at fatigue, load or body beyond whether a creep lives: two worlds
/// that differ in nothing else register the same.
pub proof fn lemma_registration_ignores_fatigue<T>(
    a: Map<u32, CreepId>,
    b: Map<u32, CreepId>,
    creeps: Seq<SimCreep>,
    others: Seq<SimCreep>,
    requests: Seq<SimMoveRequest<T>>,
)
    requires
        registers(a, creeps, requests, creeps.len() as int),
        registers(b, others, requests, others.len() as int),
        creeps.len() == others.len(),
        forall|i: int|
            0 <= i < creeps.len() ==> {
                &&& (#[trigger] creeps[i]).id == others[i].id
                &&& creeps[i].owner == others[i].owner
                &&& creeps[i].pos == others[i].pos
                &&& creeps[i].pos.x < 50 && creeps[i].pos.y < 50
                &&& creeps[i].body.hits > 0 <==> others[i].body.hits > 0
            },
    ensures
        a == b,
{
    assert forall|i: int| 0 <= i < others.len() implies {
        &&& (#[trigger] others[i]).id == creeps[i].id
        &&& others[i].owner == creeps[i].owner
        &&& others[i].pos == creeps[i].pos
        &&& others[i].pos.x < 50 && others[i].pos.y < 50
        &&& others[i].body.hits > 0 <==> creeps[i].body.hits > 0
    } by {
        let c = creeps[i];
    }
    assert forall|tile: u32| a.contains_key(tile) implies b.contains_key(tile) && b[tile]
        <= a[tile] by {
        lemma_carried_over(a, b, creeps, others, requests, tile);
    }
    assert forall|tile: u32| b.contains_key(tile) implies a.contains_key(tile) && a[tile]
        <= b[tile] by {
        lemma_carried_over(b, a, others, creeps, requests, tile);
    }
    assert(a =~= b);
}

proof fn lemma_carried_over<T>(
    a: Map<u32, CreepId>,
    b: Map<u32, CreepId>,
    creeps: Seq<SimCreep>,
    others: Seq<SimCreep>,
    requests: Seq<SimMoveRequest<T>>,
    tile: u32,
)
    requires
        registers(a, creeps, requests, creeps.len() as int),
        registers(b, others, requests, others.len() as int),
        creeps.len() == others.len(),
        forall|i: int|
            0 <= i < creeps.len() ==> {
                &&& (#[trigger] creeps[i]).id == others[i].id
                &&& creeps[i].owner == others[i].owner
                &&& creeps[i].pos == others[i].pos
                &&& creeps[i].pos.x < 50 && creeps[i].pos.y < 50
                &&& creeps[i].body.hits > 0 <==> others[i].body.hits > 0
            },
        a.contains_key(tile),
    ensures
        b.contains_key(tile),
        b[tile] <= a[tile],
{
    let j = lemma_only_parked_creeps_registered(a, creeps, requests, tile);
    let (k, r) = choose|k: int, r: int|
        #![trigger creeps[k], requests[r]]
        0 <= k < creeps.len() && 0 <= r < requests.len() && creeps[k].owner == creeps[j].owner
            && requests[r].creep == creeps[k].id;
    let (cj, ck) = (creeps[j], creeps[k]);
    lemma_every_parked_creep_registered(b, others, requests, j, k, r);
}

/// An order aims where its request does: at the same tile within the same range, or away from each
/// threat in turn by the one range. It may shove exactly if it may swap, as the request says, and
/// carries the request's creep, priorities, anchor and ladder.
pub proof fn lemma_order_says_the_request<T>(order: MoveOrder<'_, T>, request: SimMoveRequest<T>)
    requires
        carries_out(order, request),
    ensures
        order.creep == request.creep,
        order.allow_shove == request.shove,
        order.allow_swap == request.shove,
        order.priority == request.priority,
        order.priority_value == request.priority_value,
        order.anchor == request.anchor,
        request.stuck_thresholds is Some <==> order.stuck_thresholds is Some,
        request.stuck_thresholds matches Some(ladder) ==> *(order.stuck_thresholds->0) == ladder,
        request.goal matches SimMoveGoal::To { target, range } ==> order.goal == (
        OrderGoal::MoveTo { target, range }),
        request.goal matches SimMoveGoal::Flee { threats, range } ==> {
            &&& order.goal is Flee
            &&& order.goal->Flee_targets@.len() == threats@.len()
            &&& forall|i: int|
                0 <= i < threats@.len() ==> #[trigger] order.goal->Flee_targets@[i] == (
                    threats@[i],
                    range,
                )
        },
{
}

/// The creep that an id means lives, bears the id, and no living creep before it does.
pub proof fn lemma_first_living_is_first(creeps: Seq<SimCreep>, id: CreepId, j: int, other: int)
    requires
        0 <= j < creeps.len(),
        0 <= other < creeps.len(),
    ensures
        first_living(creeps, id, j) ==> creeps[j].body.hits > 0 && creeps[j].id == id,
        first_living(creeps, id, j) && creeps[other].body.hits > 0 && creeps[other].id == id ==> j
            <= other,
        creeps[other].body.hits > 0 && creeps[other].id == id ==> exists|k: int|
            first_living(creeps, id, k),
    decreases other,
{
    if creeps[other].body.hits > 0 && creeps[other].id == id && !first_living(creeps, id, other) {
        let earlier = choose|k: int|
            0 <= k < other && (#[trigger] creeps[k]).id == id && creeps[k].alive();
        lemma_first_living_is_first(creeps, id, j, earlier);
    }
}

} // verus!
