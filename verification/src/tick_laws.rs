//! What a movement tick does to each creep, told from the world before and after it.

use crate::body::{lemma_mobility_bounds, Part, SimBody};
use crate::body_laws::lemma_weight_of;
use crate::intents::MoveIntents;
use crate::movement::Scene;
use crate::position::Position;
use crate::terrain::SimTerrain;
use crate::tick::{
    creep_ticked, exits_to, lemma_exit_mirrors, lemma_exit_taken, lemma_resolved_valid,
    lemma_step_fatigue_bounds, ticked, MovementReport,
};
use crate::world::MovementState;
use vstd::prelude::*;

verus! {

/// A tile on the border of its room.
pub open spec fn at_border(pos: Position) -> bool {
    pos.x == 0 || pos.y == 0 || pos.x == 49 || pos.y == 49
}

/// The terrain that holds in the room of a tile.
pub open spec fn ground(world: MovementState, pos: Position) -> SimTerrain {
    if world.rooms@.contains_key(pos.room.packed) {
        world.rooms@[pos.room.packed]
    } else {
        world.terrain
    }
}

/// What a step onto a tile costs a creep of the given weight: as much on a road, ten times that on
/// bare swamp, twice on bare plain.
pub open spec fn toll(world: MovementState, pos: Position, weight: int) -> int {
    let tile = (pos.x, pos.y);
    if ground(world, pos).roads@.contains(tile) {
        weight
    } else if ground(world, pos).swamps@.contains(tile) {
        10 * weight
    } else {
        2 * weight
    }
}

proof fn lemma_creep_ticked(
    before: MovementState,
    intents: MoveIntents,
    after: MovementState,
    report: MovementReport,
    i: int,
)
    requires
        ticked(before, intents, after, report),
        0 <= i < before.creeps.len(),
    ensures
        after.creeps.len() == before.creeps.len(),
        creep_ticked(before, report.moved@, before.creeps[i], after.creeps[i]),
{
}

/// A step off the room edge adds its toll to the fatigue a creep carried, of which its MOVE parts
/// then clear twice their rate: no more, and no less while any is left.
pub proof fn lemma_step_charges(
    before: MovementState,
    intents: MoveIntents,
    after: MovementState,
    report: MovementReport,
    i: int,
)
    requires
        ticked(before, intents, after, report),
        0 <= i < before.creeps.len(),
        report.moved@.contains_key(before.creeps[i].id),
        !at_border(report.moved@[before.creeps[i].id]),
    ensures
        ({
            let c = before.creeps[i];
            let due = c.fatigue + toll(before, report.moved@[c.id], c.weight());
            &&& after.creeps[i].fatigue + 2 * c.body.mobility() >= due
            &&& after.creeps[i].fatigue > 0 ==> after.creeps[i].fatigue + 2 * c.body.mobility()
                == due
        }),
{
    let c = before.creeps[i];
    lemma_creep_ticked(before, intents, after, report, i);
    lemma_mobility_bounds(c.body);
    let to = report.moved@[c.id];
    let rate = before.terrain_at(to.room).rate(to.x, to.y);
    assert(c.weight() * rate == toll(before, to, c.weight())) by {
        assert(c.weight() * 1 == c.weight());
        assert(c.weight() * 2 == 2 * c.weight());
        assert(c.weight() * 10 == 10 * c.weight());
    }
}

/// A creep without a working MOVE part that is dragged off the room edge keeps its fatigue and adds
/// the toll of the step.
pub proof fn lemma_drag_adds_up(
    before: MovementState,
    intents: MoveIntents,
    after: MovementState,
    report: MovementReport,
    i: int,
)
    requires
        ticked(before, intents, after, report),
        0 <= i < before.creeps.len(),
        report.moved@.contains_key(before.creeps[i].id),
        !at_border(report.moved@[before.creeps[i].id]),
        forall|k: int|
            0 <= k < before.creeps[i].body.parts.len() && (
            #[trigger] before.creeps[i].body.parts[k]).part == Part::Move
                ==> before.creeps[i].body.hits_at(k) == 0,
    ensures
        after.creeps[i].fatigue == before.creeps[i].fatigue + toll(
            before,
            report.moved@[before.creeps[i].id],
            before.creeps[i].weight(),
        ),
{
    let c = before.creeps[i];
    lemma_step_charges(before, intents, after, report, i);
    lemma_no_move_no_rate(c.body, c.body.parts.len() as int);
    lemma_creep_ticked(before, intents, after, report, i);
    lemma_step_fatigue_bounds(before, c, report.moved@[c.id]);
    let w = c.weight();
    lemma_weight_of(c);
    assert(after.creeps[i].fatigue == 0 ==> toll(before, report.moved@[c.id], w) <= 0);
    assert(toll(before, report.moved@[c.id], w) >= 0);
}

proof fn lemma_no_move_no_rate(body: SimBody, n: int)
    requires
        0 <= n <= body.parts.len(),
        forall|k: int|
            0 <= k < body.parts.len() && (#[trigger] body.parts[k]).part == Part::Move
                ==> body.hits_at(k) == 0,
    ensures
        body.boosted_count(Part::Move, n) == 0,
    decreases n,
{
    if n > 0 {
        lemma_no_move_no_rate(body, n - 1);
        let last = body.parts[n - 1];
    }
}

/// A creep that does not move keeps its fatigue but for what its MOVE parts clear: twice their rate,
/// or all of it if that is less.
pub proof fn lemma_rest_exact(
    before: MovementState,
    intents: MoveIntents,
    after: MovementState,
    report: MovementReport,
    i: int,
)
    requires
        ticked(before, intents, after, report),
        0 <= i < before.creeps.len(),
        !report.moved@.contains_key(before.creeps[i].id),
    ensures
        ({
            let c = before.creeps[i];
            &&& after.creeps[i].fatigue <= c.fatigue
            &&& after.creeps[i].fatigue + 2 * c.body.mobility() >= c.fatigue
            &&& after.creeps[i].fatigue > 0 ==> after.creeps[i].fatigue + 2 * c.body.mobility()
                == c.fatigue
        }),
{
    lemma_creep_ticked(before, intents, after, report, i);
    lemma_mobility_bounds(before.creeps[i].body);
}

/// A creep that steps onto the border ends the tick without fatigue.
pub proof fn lemma_border_step_resets(
    before: MovementState,
    intents: MoveIntents,
    after: MovementState,
    report: MovementReport,
    i: int,
)
    requires
        ticked(before, intents, after, report),
        0 <= i < before.creeps.len(),
        report.moved@.contains_key(before.creeps[i].id),
        at_border(report.moved@[before.creeps[i].id]),
    ensures
        after.creeps[i].fatigue == 0,
{
    lemma_creep_ticked(before, intents, after, report, i);
    lemma_mobility_bounds(before.creeps[i].body);
}

/// What a tick leaves alone: who the creeps are and what they carry, the ground, the exempt owners.
/// The clock goes on by one, and the report is for the tick it left.
pub proof fn lemma_tick_keeps(
    before: MovementState,
    intents: MoveIntents,
    after: MovementState,
    report: MovementReport,
    i: int,
)
    requires
        ticked(before, intents, after, report),
        0 <= i < before.creeps.len(),
    ensures
        after.creeps.len() == before.creeps.len(),
        after.creeps[i].id == before.creeps[i].id,
        after.creeps[i].owner == before.creeps[i].owner,
        after.creeps[i].body == before.creeps[i].body,
        after.creeps[i].carry_used == before.creeps[i].carry_used,
        after.terrain == before.terrain,
        after.rooms == before.rooms,
        after.npc_owners == before.npc_owners,
        after.tick == before.tick + 1,
        report.tick == before.tick,
        report.moved@ == (Scene {
            world: before,
            moves: intents.moves@,
            pulls: intents.pulls@,
        }).resolved(),
{
    lemma_creep_ticked(before, intents, after, report, i);
}

/// A creep ends the tick where the report says it moved, or where it stood, if that is off the
/// border or its owner is exempt from exits.
pub proof fn lemma_tick_places(
    before: MovementState,
    intents: MoveIntents,
    after: MovementState,
    report: MovementReport,
    i: int,
    at: Position,
)
    requires
        ticked(before, intents, after, report),
        0 <= i < before.creeps.len(),
        report.moved@.contains_key(before.creeps[i].id) ==> at
            == report.moved@[before.creeps[i].id],
        !report.moved@.contains_key(before.creeps[i].id) ==> at == before.creeps[i].pos,
        !at_border(at) || before.npc_owners@.contains(before.creeps[i].owner),
    ensures
        after.creeps[i].pos == at,
{
    lemma_creep_ticked(before, intents, after, report, i);
}

/// A creep on the border whose owner is not exempt leaves its room in the same tick: over the west
/// edge if it is on that, else the north, else the east, else the south, to the facing tile of the
/// next room. Where the map ends it stays.
pub proof fn lemma_tick_exits(
    before: MovementState,
    intents: MoveIntents,
    after: MovementState,
    report: MovementReport,
    i: int,
    at: Position,
)
    requires
        ticked(before, intents, after, report),
        before.valid(),
        0 <= i < before.creeps.len(),
        report.moved@.contains_key(before.creeps[i].id) ==> at
            == report.moved@[before.creeps[i].id],
        !report.moved@.contains_key(before.creeps[i].id) ==> at == before.creeps[i].pos,
        at_border(at),
        !before.npc_owners@.contains(before.creeps[i].owner),
    ensures
        ({
            let to = after.creeps[i].pos;
            let (rx, ry) = (at.room.packed as int / 256, at.room.packed as int % 256);
            let (tx, ty) = (to.room.packed as int / 256, to.room.packed as int % 256);
            if at.x == 0 {
                if rx == 0 {
                    to == at
                } else {
                    to.x == 49 && to.y == at.y && tx == rx - 1 && ty == ry
                }
            } else if at.y == 0 {
                if ry == 0 {
                    to == at
                } else {
                    to.x == at.x && to.y == 49 && tx == rx && ty == ry - 1
                }
            } else if at.x == 49 {
                if rx == 255 {
                    to == at
                } else {
                    to.x == 0 && to.y == at.y && tx == rx + 1 && ty == ry
                }
            } else {
                if ry == 255 {
                    to == at
                } else {
                    to.x == at.x && to.y == 0 && tx == rx && ty == ry + 1
                }
            }
        }),
{
    lemma_creep_ticked(before, intents, after, report, i);
    let scene = Scene { world: before, moves: intents.moves@, pulls: intents.pulls@ };
    lemma_resolved_valid(scene);
    assert(at.valid());
    let to = after.creeps[i].pos;
    assert(exits_to(at, to));
    lemma_exit_taken(at, to);
    if to != at {
        lemma_exit_mirrors(at, to);
    }
}

} // verus!
