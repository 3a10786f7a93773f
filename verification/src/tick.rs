//! The movement tick: resolve contested moves, apply positions and fatigue, relocate edge-crossers,
//! advance the clock.

use crate::body::{lemma_mobile_has_rate, lemma_mobility_bounds, lemma_weight_bounds};
use crate::constants::FATIGUE_CLEAR_PER_MOVE;
use crate::intents::MoveIntents;
use crate::movement::{is_edge, lemma_moved_by_valid, resolve_moves_with_pulls, Scene};
use crate::position::{lemma_world_coords_identify, on_map, Position};
use crate::world::{CreepId, MovementState, SimCreep};
use std::collections::HashMap;
use vstd::prelude::*;

verus! {

broadcast use vstd::std_specs::hash::group_hash_axioms;

/// Outcome of a movement tick.
#[derive(Clone, Debug)]
pub struct MovementReport {
    /// The tick this report is for (pre-increment).
    pub tick: u32,
    /// Creeps that moved this tick, with their new (post-contention, pre-edge-exit) position.
    pub moved: HashMap<CreepId, Position>,
}

impl Default for MovementReport {
    fn default() -> (report: MovementReport)
        ensures
            report.tick == 0,
            report.moved@ == Map::<CreepId, Position>::empty(),
    {
        MovementReport { tick: 0, moved: HashMap::new() }
    }
}

/// The tile lies on the room's edge.
pub open spec fn on_edge(pos: Position) -> bool {
    pos.x == 0 || pos.x == 49 || pos.y == 0 || pos.y == 49
}

/// Fatigue that a creep gains by stepping onto `to`, off the room edge: its weight times the rate of
/// the destination room's terrain.
pub open spec fn step_fatigue(world: MovementState, c: SimCreep, to: Position) -> int {
    c.weight() * world.terrain_at(to.room).rate(to.x, to.y)
}

/// Where a creep stands once the moves are applied.
pub open spec fn moved_pos(moved: Map<CreepId, Position>, c: SimCreep) -> Position {
    if moved.contains_key(c.id) {
        moved[c.id]
    } else {
        c.pos
    }
}

/// A creep's fatigue once its step is charged, before it rests: a step onto a room edge resets it.
pub open spec fn charged(world: MovementState, moved: Map<CreepId, Position>, c: SimCreep) -> int {
    if !moved.contains_key(c.id) {
        c.fatigue as int
    } else if on_edge(moved[c.id]) {
        0
    } else {
        c.fatigue + step_fatigue(world, c, moved[c.id])
    }
}

/// A creep's fatigue at the end of the tick.
pub open spec fn rested(world: MovementState, moved: Map<CreepId, Position>, c: SimCreep) -> int {
    let left = charged(world, moved, c) - FATIGUE_CLEAR_PER_MOVE * c.body.mobility();
    if left < 0 {
        0
    } else {
        left
    }
}

/// The step across the edge that a tile lies on: west, north, east, south, in this order.
pub open spec fn exit_step(pos: Position) -> Option<(int, int)> {
    if pos.x == 0 {
        Some((-1int, 0int))
    } else if pos.y == 0 {
        Some((0int, -1int))
    } else if pos.x == 49 {
        Some((1int, 0int))
    } else if pos.y == 49 {
        Some((0int, 1int))
    } else {
        None
    }
}

/// A creep that exits from `from` ends on `to`: the tile across the edge, if there is one on the
/// map.
pub open spec fn exits_to(from: Position, to: Position) -> bool {
    match exit_step(from) {
        Some((dx, dy)) => if on_map(from.world_x() + dx) && on_map(from.world_y() + dy) {
            from.offset_is(dx, dy, to)
        } else {
            to == from
        },
        None => to == from,
    }
}

/// The tick can be resolved: positions are valid, and neither the clock nor the fatigue of a creep
/// that moves overflows.
pub open spec fn tick_ready(world: MovementState, intents: MoveIntents) -> bool {
    let moved = (Scene { world, moves: intents.moves@, pulls: intents.pulls@ }).resolved();
    &&& world.valid()
    &&& world.tick < u32::MAX
    &&& forall|i: int|
        0 <= i < world.creeps.len() ==> charged(world, moved, #[trigger] world.creeps[i])
            <= u32::MAX
}

/// What a movement tick does to a creep.
pub open spec fn creep_ticked(
    world: MovementState,
    moved: Map<CreepId, Position>,
    before: SimCreep,
    after: SimCreep,
) -> bool {
    &&& after.id == before.id
    &&& after.owner == before.owner
    &&& after.body == before.body
    &&& after.carry_used == before.carry_used
    &&& after.fatigue == rested(world, moved, before)
    &&& if world.npc_owners@.contains(before.owner) {
        after.pos == moved_pos(moved, before)
    } else {
        exits_to(moved_pos(moved, before), after.pos)
    }
}

/// What a movement tick does: contested moves are resolved, every creep is moved, charged, rested
/// and relocated, and the clock advances.
pub open spec fn ticked(
    before: MovementState,
    intents: MoveIntents,
    after: MovementState,
    report: MovementReport,
) -> bool {
    let moved = (Scene { world: before, moves: intents.moves@, pulls: intents.pulls@ }).resolved();
    &&& report.tick == before.tick
    &&& report.moved@ == moved
    &&& after.tick == before.tick + 1
    &&& after.terrain == before.terrain
    &&& after.rooms == before.rooms
    &&& after.npc_owners == before.npc_owners
    &&& after.creeps.len() == before.creeps.len()
    &&& forall|i: int|
        0 <= i < before.creeps.len() ==> creep_ticked(
            before,
            moved,
            before.creeps[i],
            #[trigger] after.creeps[i],
        )
}

/// The exit step of a creep's tile.
fn exit_offset(pos: Position) -> (offset: Option<(i32, i32)>)
    ensures
        offset is Some <==> exit_step(pos) is Some,
        offset matches Some(step) ==> exit_step(pos) == Some((step.0 as int, step.1 as int)),
{
    if pos.x == 0 {
        Some((-1, 0))
    } else if pos.y == 0 {
        Some((0, -1))
    } else if pos.x == 49 {
        Some((1, 0))
    } else if pos.y == 49 {
        Some((0, 1))
    } else {
        None
    }
}

/// Resolve one movement tick over `world`: contention, then moves and fatigue, then edge-exit, then
/// the clock.
pub fn resolve_movement(world: &mut MovementState, intents: &MoveIntents) -> (report: MovementReport)
    requires
        tick_ready(*old(world), *intents),
    ensures
        ticked(*old(world), *intents, *final(world), report),
        final(world).valid(),
{
    let report_tick: u32 = world.tick;
    let moved = resolve_moves_with_pulls(world, &intents.moves, &intents.pulls);
    proof {
        let scene = Scene { world: *world, moves: intents.moves@, pulls: intents.pulls@ };
        lemma_resolved_valid(scene);
    }
    let ghost start = *world;
    let count: usize = world.creeps.len();

    // Apply movement and fatigue: move, add move-fatigue (or reset it on a room edge), then
    // regenerate.
    for i in 0..count
        invariant
            count == world.creeps.len(),
            start.creeps.len() == count,
            start.valid(),
            forall|id: CreepId| #[trigger] moved@.contains_key(id) ==> moved@[id].valid(),
            forall|k: int|
                0 <= k < start.creeps.len() ==> charged(start, moved@, #[trigger] start.creeps[k])
                    <= u32::MAX,
            world.tick == start.tick,
            world.terrain == start.terrain,
            world.rooms == start.rooms,
            world.npc_owners == start.npc_owners,
            forall|k: int| i <= k < world.creeps.len() ==> #[trigger] world.creeps[k]
                == start.creeps[k],
            forall|k: int|
                0 <= k < i ==> {
                    let c = start.creeps[k];
                    (#[trigger] world.creeps[k]) == (SimCreep {
                        pos: moved_pos(moved@, c),
                        fatigue: rested(start, moved@, c) as u32,
                        ..c
                    })
                },
    {
        let ghost c = start.creeps[i as int];
        let mut pos: Position = world.creeps[i].pos;
        let mut fatigue: u32 = world.creeps[i].fatigue;
        if let Some(to) = moved.get(&world.creeps[i].id) {
            pos = *to;
            if is_edge(pos.x, pos.y) {
                fatigue = 0;
            } else {
                let weight: u32 = world.creeps[i].fatigue_weight();
                let rate: u32 = world.terrain_for(pos.room).fatigue_rate(pos.x, pos.y);
                assert(weight * rate <= 10 * weight) by (nonlinear_arith)
                    requires
                        rate <= 10,
                ;
                fatigue = fatigue + weight * rate;
            }
        }
        fatigue = fatigue.saturating_sub(world.creeps[i].body.fatigue_clear());
        world.creeps[i].pos = pos;
        world.creeps[i].fatigue = fatigue;
    }
    let ghost walked = *world;

    // Edge-exit relocation: a non-NPC creep on an exit tile crosses to the adjacent room's mirror
    // tile. Occupancy-blind and same-tick.
    for i in 0..count
        invariant
            count == world.creeps.len(),
            start.creeps.len() == count,
            walked.creeps.len() == world.creeps.len(),
            start.valid(),
            forall|id: CreepId| #[trigger] moved@.contains_key(id) ==> moved@[id].valid(),
            world.tick == start.tick,
            world.terrain == start.terrain,
            world.rooms == start.rooms,
            world.npc_owners == start.npc_owners,
            forall|k: int|
                0 <= k < walked.creeps.len() ==> {
                    let c = start.creeps[k];
                    (#[trigger] walked.creeps[k]) == (SimCreep {
                        pos: moved_pos(moved@, c),
                        fatigue: rested(start, moved@, c) as u32,
                        ..c
                    })
                },
            forall|k: int|
                0 <= k < start.creeps.len() ==> charged(start, moved@, #[trigger] start.creeps[k])
                    <= u32::MAX,
            forall|k: int| i <= k < world.creeps.len() ==> #[trigger] world.creeps[k]
                == walked.creeps[k],
            forall|k: int|
                0 <= k < i ==> creep_ticked(
                    start,
                    moved@,
                    start.creeps[k],
                    #[trigger] world.creeps[k],
                ) && world.creeps[k].pos.valid(),
    {
        let c: &SimCreep = &world.creeps[i];
        let pos: Position = c.pos;
        assert(walked.creeps[i as int] == *c);
        assert(start.creeps[i as int].pos.valid());
        proof {
            lemma_rested_bounds(start, moved@, start.creeps[i as int]);
        }
        if !world.npc_owners.contains(&c.owner) {
            if let Some(offset) = exit_offset(pos) {
                if let Some(to) = pos.checked_add(offset) {
                    world.creeps[i].pos = to;
                }
            }
        }
    }
    world.tick = world.tick + 1;
    MovementReport { tick: report_tick, moved }
}

/// End-of-tick fatigue is a fatigue.
proof fn lemma_rested_bounds(world: MovementState, moved: Map<CreepId, Position>, c: SimCreep)
    requires
        charged(world, moved, c) <= u32::MAX,
    ensures
        0 <= rested(world, moved, c) <= u32::MAX,
{
    let cleared = c.body.mobility();
    assert(cleared >= 0) by {
        lemma_mobility_bounds(c.body);
    }
}

/// Every new position is a tile of its room.
pub proof fn lemma_resolved_valid(scene: Scene)
    requires
        scene.world.valid(),
    ensures
        forall|id: CreepId| #[trigger]
            scene.resolved().contains_key(id) ==> scene.resolved()[id].valid(),
{
    lemma_moved_by_valid(scene, scene.movers().len() as int);
}

/// A valid world whose clock and fatigues leave room for one tick is ready, whatever the intents.
pub proof fn lemma_tick_ready(world: MovementState, intents: MoveIntents)
    requires
        world.valid(),
        world.tick < u32::MAX,
        forall|i: int|
            0 <= i < world.creeps.len() ==> (#[trigger] world.creeps[i]).fatigue <= 0x7FFF_FFFF,
    ensures
        tick_ready(world, intents),
{
    let moved = (Scene { world, moves: intents.moves@, pulls: intents.pulls@ }).resolved();
    assert forall|i: int| 0 <= i < world.creeps.len() implies charged(
        world,
        moved,
        #[trigger] world.creeps[i],
    ) <= u32::MAX by {
        lemma_step_fatigue_bounds(world, world.creeps[i], moved[world.creeps[i].id]);
    }
}

/// A step costs at least nothing, and at most ten times the weight.
pub proof fn lemma_step_fatigue_bounds(world: MovementState, c: SimCreep, to: Position)
    ensures
        0 <= step_fatigue(world, c, to) <= 10 * c.weight(),
        c.weight() <= 0x0600_0000,
{
    lemma_weight_bounds(c.body, c.carry_used as int);
    let rate = world.terrain_at(to.room).rate(to.x, to.y);
    assert(0 <= c.weight() * rate <= 10 * c.weight()) by (nonlinear_arith)
        requires
            0 <= rate <= 10,
            0 <= c.weight(),
    ;
}

/// A creep that does not move gains no fatigue, and one with a working MOVE part loses some until
/// none is left.
pub proof fn lemma_rest_clears(world: MovementState, moved: Map<CreepId, Position>, c: SimCreep)
    requires
        !moved.contains_key(c.id),
    ensures
        rested(world, moved, c) <= c.fatigue,
        c.body.mobile() && c.fatigue > 0 ==> rested(world, moved, c) < c.fatigue,
{
    lemma_mobility_bounds(c.body);
    lemma_mobile_has_rate(c.body);
}

/// A creep that steps onto a room edge ends the tick without fatigue.
pub proof fn lemma_edge_resets(world: MovementState, moved: Map<CreepId, Position>, c: SimCreep)
    requires
        moved.contains_key(c.id),
        on_edge(moved[c.id]),
    ensures
        rested(world, moved, c) == 0,
{
    lemma_mobility_bounds(c.body);
}

/// A rested creep whose MOVE parts clear what a step costs is rested again after the step.
pub proof fn lemma_balanced_body_keeps_moving(
    world: MovementState,
    moved: Map<CreepId, Position>,
    c: SimCreep,
)
    requires
        c.fatigue == 0,
        moved.contains_key(c.id) && !on_edge(moved[c.id]) ==> step_fatigue(world, c, moved[c.id])
            <= FATIGUE_CLEAR_PER_MOVE * c.body.mobility(),
    ensures
        rested(world, moved, c) == 0,
{
    lemma_mobility_bounds(c.body);
}

/// The exit relocation mirrors a tile across its edge: the west edge leads to the east edge of the
/// room to the west, and so on, at the same height or width. Tiles off the edge stay put.
pub proof fn lemma_exit_mirrors(from: Position, to: Position)
    requires
        from.valid(),
        exits_to(from, to),
        to != from,
    ensures
        from.x == 0 ==> to.x == 49 && to.y == from.y && to.room.x_coord() == from.room.x_coord()
            - 1 && to.room.y_coord() == from.room.y_coord(),
        from.x == 49 && from.y != 0 ==> to.x == 0 && to.y == from.y && to.room.x_coord()
            == from.room.x_coord() + 1 && to.room.y_coord() == from.room.y_coord(),
        from.x != 0 && from.y == 0 ==> to.x == from.x && to.y == 49 && to.room.x_coord()
            == from.room.x_coord() && to.room.y_coord() == from.room.y_coord() - 1,
        from.x != 0 && from.x != 49 && from.y == 49 ==> to.x == from.x && to.y == 0
            && to.room.x_coord() == from.room.x_coord() && to.room.y_coord()
            == from.room.y_coord() + 1,
        on_edge(from),
{
}

/// A creep leaves an exit tile unless the map ends there.
pub proof fn lemma_exit_taken(from: Position, to: Position)
    requires
        from.valid(),
        exits_to(from, to),
        on_edge(from),
    ensures
        to == from <==> match exit_step(from) {
            Some((dx, dy)) => !(on_map(from.world_x() + dx) && on_map(from.world_y() + dy)),
            None => true,
        },
{
}

/// A second exit undoes the first, except from a corner.
pub proof fn lemma_exit_returns(from: Position, to: Position, back: Position)
    requires
        from.valid(),
        !((from.x == 0 || from.x == 49) && (from.y == 0 || from.y == 49)),
        exits_to(from, to),
        exits_to(to, back),
    ensures
        back == from,
{
    if to != from {
        lemma_exit_mirrors(from, to);
        lemma_world_coords_identify(back, from);
    }
}

/// The tick is deterministic: the same world and intents give the same creeps and report.
pub proof fn lemma_tick_deterministic(
    before: MovementState,
    intents: MoveIntents,
    a: MovementState,
    report_a: MovementReport,
    b: MovementState,
    report_b: MovementReport,
)
    requires
        before.valid(),
        ticked(before, intents, a, report_a),
        ticked(before, intents, b, report_b),
    ensures
        a.creeps@ == b.creeps@,
        a.tick == b.tick,
        report_a.moved@ == report_b.moved@,
{
    let scene = Scene { world: before, moves: intents.moves@, pulls: intents.pulls@ };
    lemma_resolved_valid(scene);
    assert forall|i: int| 0 <= i < before.creeps.len() implies a.creeps@[i] == #[trigger] b.creeps@[i] by {
        let c = before.creeps[i];
        let from = moved_pos(scene.resolved(), c);
        assert(from.valid());
        assert(creep_ticked(before, scene.resolved(), c, a.creeps[i]));
        assert(creep_ticked(before, scene.resolved(), c, b.creeps[i]));
        if !before.npc_owners@.contains(c.owner) {
            lemma_exit_deterministic(from, a.creeps[i].pos, b.creeps[i].pos);
        }
    }
}

/// A tile has one exit.
pub proof fn lemma_exit_deterministic(from: Position, a: Position, b: Position)
    requires
        from.valid(),
        exits_to(from, a),
        exits_to(from, b),
    ensures
        a == b,
{
    if a != from || b != from {
        lemma_world_coords_identify(a, b);
    }
}

} // verus!
