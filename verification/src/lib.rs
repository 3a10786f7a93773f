//! The shared, combat-agnostic movement/world simulation kernel for Screeps: terrain, the creep body
//! model, the same-tile contention resolver, fatigue, edge-exit, the per-tick movement world, the
//! `Simulation` layering contract, the seeded generator of room terrain, and the decisions of the
//! offline mover.

pub mod body;
pub mod body_laws;
pub mod constants;
pub mod contention_laws;
pub mod flood;
pub mod generation_laws;
pub mod grid;
pub mod intents;
pub mod movement;
pub mod movement_laws;
pub mod position;
pub mod region_laws;
pub mod rng;
pub mod rover_driver;
pub mod rover_laws;
pub mod sim;
pub mod terrain;
pub mod terrain_gen;
pub mod terrain_laws;
pub mod tick;
pub mod tick_laws;
pub mod tiles;
pub mod world;

pub use body::{BodyPartDef, BoostTier, Part, SimBody};
pub use intents::MoveIntents;
pub use movement::{is_edge, resolve_moves, resolve_moves_with_pulls, step};
pub use position::{Direction, Position, RoomName};
pub use sim::{MovementSim, Simulation};
pub use terrain::SimTerrain;
pub use tick::{resolve_movement, MovementReport};
pub use tiles::TileSet;
pub use world::{CreepId, MovementState, PlayerId, SimCreep, StructureId};
