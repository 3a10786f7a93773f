//! The per-tick movement world: terrain, creeps and edge-exit exemptions.

use crate::body::SimBody;
use crate::position::{Position, RoomName};
use crate::terrain::SimTerrain;
use std::collections::{HashMap, HashSet};
use vstd::prelude::*;

verus! {

broadcast use vstd::std_specs::hash::group_hash_axioms;

/// A faction identity (self-play: side 0 vs side 1; NPCs get their own ids).
pub type PlayerId = u8;

/// Stable per-engagement creep id.
pub type CreepId = u32;

/// Stable per-engagement structure id.
pub type StructureId = u32;

/// A creep in the sim.
#[derive(Debug)]
pub struct SimCreep {
    pub id: CreepId,
    pub owner: PlayerId,
    pub pos: Position,
    pub body: SimBody,
    /// Fatigue carried into this tick; the creep may move by itself only when it is 0.
    pub fatigue: u32,
    /// Total resources aboard. Raises move-fatigue via the loaded-CARRY weight.
    pub carry_used: u32,
}

impl Clone for SimCreep {
    fn clone(&self) -> (creep: SimCreep)
        ensures
            creep.same_as(*self),
    {
        SimCreep {
            id: self.id,
            owner: self.owner,
            pos: self.pos,
            body: self.body.clone(),
            fatigue: self.fatigue,
            carry_used: self.carry_used,
        }
    }
}

impl SimCreep {
    /// The creep has the same id, owner, tile, body, fatigue and load as another.
    pub open spec fn same_as(self, other: SimCreep) -> bool {
        &&& self.id == other.id
        &&& self.owner == other.owner
        &&& self.pos == other.pos
        &&& self.body.parts@ == other.body.parts@
        &&& self.body.hits == other.body.hits
        &&& self.fatigue == other.fatigue
        &&& self.carry_used == other.carry_used
    }

    pub open spec fn alive(self) -> bool {
        self.body.alive()
    }

    /// The full move-fatigue weight: structural parts plus loaded-CARRY units.
    pub open spec fn weight(self) -> int {
        let n = self.body.parts.len() as int;
        self.body.structural_count(n) + self.body.loaded_count(self.carry_used as int, n)
    }

    pub fn is_alive(&self) -> (alive: bool)
        ensures
            alive == self.alive(),
    {
        self.body.is_alive()
    }

    /// The full move-fatigue weight: structural non-MOVE/non-CARRY parts plus the loaded-CARRY units
    /// for the resources aboard. It multiplies the terrain fatigue rate per step and (at least 1) is
    /// the denominator of the contention tiebreak.
    pub fn fatigue_weight(&self) -> (weight: u32)
        ensures
            weight == self.weight(),
            weight <= 0x1FFF_FFFE,
    {
        self.body.fatigue_weight() + self.body.carry_weight(self.carry_used)
    }
}

/// The movement state of a tick: the default terrain plus per-room overrides, the creeps, and the
/// NPC edge-exit exemption set.
#[derive(Debug)]
pub struct MovementState {
    pub tick: u32,
    /// The default room terrain, also the terrain of a single-room scenario.
    pub terrain: SimTerrain,
    /// Per-room terrain overrides, by [`RoomName::packed`].
    pub rooms: HashMap<u16, SimTerrain>,
    pub creeps: Vec<SimCreep>,
    /// Owners that do not auto-exit at a room edge. Default empty: every creep auto-exits.
    pub npc_owners: HashSet<PlayerId>,
}

impl Default for MovementState {
    fn default() -> (state: MovementState)
        ensures
            state.tick == 0,
            state.terrain.is_plain(),
            state.rooms@ == Map::<u16, SimTerrain>::empty(),
            state.creeps@ == Seq::<SimCreep>::empty(),
            state.npc_owners@ == Set::<PlayerId>::empty(),
    {
        MovementState {
            tick: 0,
            terrain: SimTerrain::default(),
            rooms: HashMap::new(),
            creeps: Vec::new(),
            npc_owners: HashSet::new(),
        }
    }
}

impl Clone for MovementState {
    fn clone(&self) -> (state: MovementState)
        ensures
            state.tick == self.tick,
            state.terrain.walls@ == self.terrain.walls@,
            state.terrain.swamps@ == self.terrain.swamps@,
            state.terrain.roads@ == self.terrain.roads@,
            state.rooms@ == self.rooms@,
            state.creeps.len() == self.creeps.len(),
            forall|i: int|
                0 <= i < self.creeps.len() ==> (#[trigger] state.creeps[i]).same_as(self.creeps[i]),
            state.npc_owners@ == self.npc_owners@,
    {
        let mut creeps: Vec<SimCreep> = Vec::new();
        for i in 0..self.creeps.len()
            invariant
                creeps.len() == i,
                forall|k: int| 0 <= k < i ==> (#[trigger] creeps[k]).same_as(self.creeps[k]),
        {
            creeps.push(self.creeps[i].clone());
        }
        let mut npc_owners: HashSet<PlayerId> = HashSet::new();
        for owner in it: self.npc_owners.iter()
            invariant
                it.seq().unref().to_set() == self.npc_owners@,
                forall|o: PlayerId|
                    npc_owners@.contains(o) <==> exists|j: int|
                        0 <= j < it.index() && #[trigger] it.seq().unref()[j] == o,
        {
            assert(it.seq().unref()[it.index()] == *owner);
            npc_owners.insert(*owner);
        }
        assert(npc_owners@ =~= self.npc_owners@);
        MovementState {
            tick: self.tick,
            terrain: self.terrain.clone(),
            rooms: self.rooms.clone(),
            creeps,
            npc_owners,
        }
    }
}

impl MovementState {
    /// Every creep stands on a tile of its room.
    pub open spec fn valid(self) -> bool {
        forall|i: int| 0 <= i < self.creeps.len() ==> (#[trigger] self.creeps[i]).pos.valid()
    }

    /// Terrain of `room`: the override if there is one, else the default.
    pub open spec fn terrain_at(self, room: RoomName) -> SimTerrain {
        if self.rooms@.contains_key(room.packed) {
            self.rooms@[room.packed]
        } else {
            self.terrain
        }
    }

    /// The living creeps, in order.
    pub fn living_creeps(&self) -> (living: Vec<&SimCreep>)
        ensures
            living@.unref() == self.creeps@.filter(|c: SimCreep| c.alive()),
    {
        let mut living: Vec<&SimCreep> = Vec::new();
        let ghost p = |c: SimCreep| c.alive();
        for i in 0..self.creeps.len()
            invariant
                p == (|c: SimCreep| c.alive()),
                living@.unref() == self.creeps@.take(i as int).filter(p),
        {
            reveal(Seq::filter);
            assert(self.creeps@.take(i + 1).drop_last() =~= self.creeps@.take(i as int));
            let ghost before = living@;
            if self.creeps[i].is_alive() {
                living.push(&self.creeps[i]);
                assert(living@.unref() =~= before.unref().push(self.creeps@[i as int]));
            }
        }
        assert(self.creeps@.take(self.creeps.len() as int) =~= self.creeps@);
        living
    }

    /// Terrain for `room`: the per-room override if one exists, else the default terrain. All
    /// movement, fatigue and wall checks go through this.
    pub fn terrain_for(&self, room: RoomName) -> (terrain: &SimTerrain)
        ensures
            *terrain == self.terrain_at(room),
    {
        match self.rooms.get(&room.packed) {
            Some(terrain) => terrain,
            None => &self.terrain,
        }
    }

    /// Mutable per-room terrain override for `room`, creating an empty one if absent.
    pub fn terrain_mut(&mut self, room: RoomName) -> (terrain: &mut SimTerrain)
        ensures
            old(self).rooms@.contains_key(room.packed) ==> *terrain == old(
                self,
            ).rooms@[room.packed],
            !old(self).rooms@.contains_key(room.packed) ==> terrain.is_plain(),
            final(self).rooms@ == old(self).rooms@.insert(room.packed, *final(terrain)),
            final(self).tick == old(self).tick,
            final(self).terrain == old(self).terrain,
            final(self).creeps == old(self).creeps,
            final(self).npc_owners == old(self).npc_owners,
    {
        self.rooms.entry(room.packed).or_insert(SimTerrain::default())
    }
}

} // verus!
