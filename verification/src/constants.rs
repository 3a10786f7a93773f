//! Body and movement constants.

use vstd::prelude::*;

verus! {

/// Hit points per body part.
pub const BODYPART_HITS: u32 = 100;

/// Resources held by one unboosted CARRY part.
pub const CARRY_CAPACITY: u32 = 50;

/// Creep lifetime.
pub const CREEP_LIFE_TIME: u32 = 1500;

/// Lifetime of a creep with a CLAIM part.
pub const CREEP_CLAIM_LIFE_TIME: u32 = 600;

/// ATTACK, melee, range 1 (unboosted, per part).
pub const ATTACK_POWER: u32 = 30;

/// RANGED_ATTACK, range 3.
pub const RANGED_ATTACK_POWER: u32 = 10;

/// HEAL adjacent, range 1.
pub const HEAL_POWER: u32 = 12;

/// HEAL at range, range 3.
pub const RANGED_HEAL_POWER: u32 = 4;

/// WORK dismantle, range 1.
pub const DISMANTLE_POWER: u32 = 50;

/// Fatigue added per weight unit for a step onto a road.
pub const FATIGUE_RATE_ROAD: u32 = 1;

/// Fatigue added per weight unit for a step onto plain terrain.
pub const FATIGUE_RATE_PLAIN: u32 = 2;

/// Fatigue added per weight unit for a step onto swamp.
pub const FATIGUE_RATE_SWAMP: u32 = 10;

/// Fatigue cleared per (unboosted) MOVE part per tick.
pub const FATIGUE_CLEAR_PER_MOVE: u32 = 2;

/// What a part is worth: a HEAL part mends 12 hits beside it and a third of that at range, an ATTACK
/// part deals three times what a RANGED_ATTACK part does, a WORK part dismantles half a part's hits,
/// and a CARRY part holds half as many resources as a part has hits. A step costs 1, 2 or 10 per
/// weight unit on road, plain or swamp, and a MOVE part clears what a plain step costs one unit. A
/// creep lives 1500 ticks, or 600 with a CLAIM part.
pub proof fn lemma_part_worth()
    ensures
        BODYPART_HITS == 100,
        HEAL_POWER == 12,
        HEAL_POWER == 3 * RANGED_HEAL_POWER,
        RANGED_ATTACK_POWER == 10,
        ATTACK_POWER == 3 * RANGED_ATTACK_POWER,
        2 * DISMANTLE_POWER == BODYPART_HITS,
        2 * CARRY_CAPACITY == BODYPART_HITS,
        FATIGUE_RATE_ROAD == 1,
        FATIGUE_RATE_PLAIN == 2 * FATIGUE_RATE_ROAD,
        FATIGUE_RATE_SWAMP == 10 * FATIGUE_RATE_ROAD,
        FATIGUE_CLEAR_PER_MOVE == FATIGUE_RATE_PLAIN,
        CREEP_LIFE_TIME == 1500,
        CREEP_CLAIM_LIFE_TIME == 600,
{
}

} // verus!
