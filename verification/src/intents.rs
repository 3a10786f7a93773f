//! Movement intents: the base action vocabulary every sim layer embeds.

use crate::position::Direction;
use crate::world::CreepId;
use std::collections::HashMap;
use vstd::prelude::*;

verus! {

broadcast use vstd::std_specs::hash::group_hash_axioms;

/// Per-tick movement intents: each creep's desired step and optional pull pairing.
#[derive(Clone, Debug)]
pub struct MoveIntents {
    /// Per-creep desired direction.
    pub moves: HashMap<CreepId, Direction>,
    /// Pull pairings: puller to the creep it drags.
    pub pulls: HashMap<CreepId, CreepId>,
    /// Optional per-creep "why" tag for introspection and replay.
    pub reasons: HashMap<CreepId, String>,
}

impl Default for MoveIntents {
    fn default() -> (intents: MoveIntents)
        ensures
            intents.moves@ == Map::<CreepId, Direction>::empty(),
            intents.pulls@ == Map::<CreepId, CreepId>::empty(),
            intents.reasons@ == Map::<CreepId, String>::empty(),
    {
        MoveIntents { moves: HashMap::new(), pulls: HashMap::new(), reasons: HashMap::new() }
    }
}

impl MoveIntents {
    /// No intents.
    pub fn new() -> (intents: MoveIntents)
        ensures
            intents.moves@ == Map::<CreepId, Direction>::empty(),
            intents.pulls@ == Map::<CreepId, CreepId>::empty(),
            intents.reasons@ == Map::<CreepId, String>::empty(),
    {
        MoveIntents::default()
    }

    /// Sets the step a creep wants to take.
    pub fn set_move(&mut self, creep: CreepId, dir: Direction) -> (intents: &mut MoveIntents)
        ensures
            intents.moves@ == old(self).moves@.insert(creep, dir),
            intents.pulls == old(self).pulls,
            intents.reasons == old(self).reasons,
            *final(self) == *final(intents),
    {
        self.moves.insert(creep, dir);
        self
    }

    /// Has `puller` drag `target`.
    pub fn set_pull(&mut self, puller: CreepId, target: CreepId) -> (intents: &mut MoveIntents)
        ensures
            intents.moves == old(self).moves,
            intents.pulls@ == old(self).pulls@.insert(puller, target),
            intents.reasons == old(self).reasons,
            *final(self) == *final(intents),
    {
        self.pulls.insert(puller, target);
        self
    }

    /// Tags a creep's intent with a reason.
    pub fn set_reason(&mut self, creep: CreepId, reason: String) -> (intents: &mut MoveIntents)
        ensures
            intents.moves == old(self).moves,
            intents.pulls == old(self).pulls,
            intents.reasons@ == old(self).reasons@.insert(creep, reason),
            *final(self) == *final(intents),
    {
        self.reasons.insert(creep, reason);
        self
    }
}

} // verus!
