# screeps_sim_core

The shared movement kernel of the Screeps simulators, written and proved in Verus: terrain, the creep
body model, same-tile contention, fatigue, edge exits, the per-tick movement world, the seeded room
generator and the decisions of the offline mover.

| module | contents |
| --- | --- |
| `position` | rooms, tiles and directions; ranges and offsets through the `screeps` crate |
| `body`, `constants` | the creep body: part hits, boosts, move rate, fatigue weights |
| `terrain`, `tiles` | room terrain over sets of tiles |
| `world`, `intents` | the state of a tick and what the creeps want |
| `movement`, `movement_laws` | contention, pulls and chain blocks, and what they guarantee |
| `tick`, `sim` | the movement tick and the layering trait |
| `rng` | the seeded generator |
| `flood`, `grid`, `terrain_gen`, `terrain_laws` | room generation, reachability, and what they guarantee |
| `rover_driver` | requests, orders and parked-creep registration for the offline mover |

Contracts are stated over spec functions: `Scene` in `movement` is the model of a tick's conflict
resolution, `ticked` in `tick` that of a tick, `generated` in `terrain_gen` that of a room. The
public proof functions state what holds of the library as a whole.

`app/` holds what cannot be verified: conversions to the game's types, floating-point boost
multipliers, and the driver that runs the rover movement system.
