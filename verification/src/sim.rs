//! The sim-layer contract. A [`Simulation`] binds a world, an intent vocabulary, and how a tick
//! resolves. Movement is the base layer; other layers add their own world and intents and
//! orchestrate around the shared movement tick.

use crate::intents::MoveIntents;
use crate::tick::{resolve_movement, tick_ready, ticked, MovementReport};
use crate::world::MovementState;
use vstd::prelude::*;

verus! {

/// A simulation layer: a (world, intents, report) triple with a tick resolver.
pub trait Simulation {
    /// The world this layer resolves over. Contains a [`MovementState`]; higher layers add their own
    /// state alongside it.
    type World;

    /// The per-tick action vocabulary this layer resolves.
    type Intents;

    /// The per-tick outcome.
    type Report;

    /// The layer can resolve these intents over this world.
    spec fn ready(world: Self::World, intents: Self::Intents) -> bool;

    /// What a tick of this layer does.
    spec fn stepped(
        before: Self::World,
        intents: Self::Intents,
        after: Self::World,
        report: Self::Report,
    ) -> bool;

    /// Resolve one tick.
    fn step(world: &mut Self::World, intents: &Self::Intents) -> (report: Self::Report)
        requires
            Self::ready(*old(world), *intents),
        ensures
            Self::stepped(*old(world), *intents, *final(world), report),
    ;
}

/// The base layer: pure movement. Its intents are exactly [`MoveIntents`].
pub struct MovementSim;

impl Simulation for MovementSim {
    type World = MovementState;

    type Intents = MoveIntents;

    type Report = MovementReport;

    open spec fn ready(world: MovementState, intents: MoveIntents) -> bool {
        tick_ready(world, intents)
    }

    open spec fn stepped(
        before: MovementState,
        intents: MoveIntents,
        after: MovementState,
        report: MovementReport,
    ) -> bool {
        &&& ticked(before, intents, after, report)
        &&& after.valid()
    }

    fn step(world: &mut MovementState, intents: &MoveIntents) -> (report: MovementReport) {
        resolve_movement(world, intents)
    }
}

/// A step of the base layer is a movement tick.
pub proof fn lemma_base_layer_ticks(
    before: MovementState,
    intents: MoveIntents,
    after: MovementState,
    report: MovementReport,
)
    ensures
        MovementSim::stepped(before, intents, after, report) ==> ticked(
            before,
            intents,
            after,
            report,
        ) && after.valid(),
        MovementSim::ready(before, intents) <==> tick_ready(before, intents),
{
}

} // verus!
