//! Room terrain: walls block movement, swamp raises move fatigue, roads lower it.

use crate::constants::{FATIGUE_RATE_PLAIN, FATIGUE_RATE_ROAD, FATIGUE_RATE_SWAMP};
use crate::tiles::TileSet;
use vstd::prelude::*;

verus! {

/// Room terrain; defaults to all-plain, no roads.
#[derive(Debug)]
pub struct SimTerrain {
    pub walls: TileSet,
    pub swamps: TileSet,
    /// Road tiles. A road overrides the underlying terrain's fatigue rate.
    pub roads: TileSet,
}

impl Default for SimTerrain {
    fn default() -> (terrain: SimTerrain)
        ensures
            terrain.is_plain(),
    {
        SimTerrain { walls: TileSet::new(), swamps: TileSet::new(), roads: TileSet::new() }
    }
}

impl Clone for SimTerrain {
    fn clone(&self) -> (terrain: SimTerrain)
        ensures
            terrain.walls@ == self.walls@,
            terrain.swamps@ == self.swamps@,
            terrain.roads@ == self.roads@,
    {
        SimTerrain {
            walls: self.walls.clone(),
            swamps: self.swamps.clone(),
            roads: self.roads.clone(),
        }
    }
}

impl SimTerrain {
    /// No walls, no swamp, no roads.
    pub open spec fn is_plain(self) -> bool {
        &&& self.walls@ == Set::<(u8, u8)>::empty()
        &&& self.swamps@ == Set::<(u8, u8)>::empty()
        &&& self.roads@ == Set::<(u8, u8)>::empty()
    }

    /// Fatigue per weight unit for a step onto the tile: road, else swamp, else plain.
    pub open spec fn rate(self, x: u8, y: u8) -> u32 {
        if self.roads@.contains((x, y)) {
            FATIGUE_RATE_ROAD
        } else if self.swamps@.contains((x, y)) {
            FATIGUE_RATE_SWAMP
        } else {
            FATIGUE_RATE_PLAIN
        }
    }

    /// Whether movement is blocked at `(x, y)`: a wall always blocks, with or without a road on it.
    pub fn is_wall(&self, x: u8, y: u8) -> (wall: bool)
        ensures
            wall == self.walls@.contains((x, y)),
    {
        self.walls.contains(&(x, y))
    }

    /// Fatigue added per structural part and per loaded-CARRY unit for a step onto this tile: road 1,
    /// else swamp 10, else plain 2.
    pub fn fatigue_rate(&self, x: u8, y: u8) -> (rate: u32)
        ensures
            rate == self.rate(x, y),
    {
        if self.roads.contains(&(x, y)) {
            FATIGUE_RATE_ROAD
        } else if self.swamps.contains(&(x, y)) {
            FATIGUE_RATE_SWAMP
        } else {
            FATIGUE_RATE_PLAIN
        }
    }
}

/// A road makes a tile cheapest whatever lies under it, and swamp makes it dearest.
pub proof fn lemma_rates(terrain: SimTerrain, x: u8, y: u8)
    ensures
        FATIGUE_RATE_ROAD <= terrain.rate(x, y) <= FATIGUE_RATE_SWAMP,
        terrain.roads@.contains((x, y)) <==> terrain.rate(x, y) == FATIGUE_RATE_ROAD,
        FATIGUE_RATE_ROAD < FATIGUE_RATE_PLAIN < FATIGUE_RATE_SWAMP,
        terrain.is_plain() ==> terrain.rate(x, y) == FATIGUE_RATE_PLAIN,
{
}

} // verus!
