//! Procedural room-terrain generation: a shared generator that replaces trivial open rooms with
//! clustered walls, swamp patches and guaranteed connected exits.
//!
//! Cellular-automata (cave) walls give organic clustering; a fully walled border with a carved
//! channel from each requested exit to the region around the room centre guarantees that every exit
//! and that region are one. The channel runs straight inward to the region's first tile; where
//! nothing of the region lies that way, it runs to the middle line of the room and along it towards
//! the centre. Deterministic in the seed.

use crate::flood::{
    flooding, in_room, lemma_flood_begin, lemma_flood_done, lemma_flood_skip, lemma_flood_visit,
    lemma_reach_grows, lemma_reached_open, push_neighbours, reachable,
};
use crate::grid::{inside, Grid, SIDE};
use crate::position::{on_map, Position, RoomName};
use crate::rng::{draw, scaled, seed_state, state_after, Rng};
use crate::terrain::SimTerrain;
use crate::tiles::{lemma_tiles_finite, TileSet};
use vstd::prelude::*;

verus! {

/// Exits of the fixed band sit around the centre of each edge, so adjacent rooms' exits align.
pub const EXIT_MID: u8 = 25;

/// Which room edges carry an open exit: a gap in the border wall and a channel carved from it to the
/// region around the room centre.
#[derive(Clone, Copy, Debug, PartialEq, Eq, Structural)]
pub struct Exits {
    pub top: bool,
    pub bottom: bool,
    pub left: bool,
    pub right: bool,
}

impl Default for Exits {
    fn default() -> (exits: Exits)
        ensures
            exits == (Exits { top: false, bottom: false, left: false, right: false }),
    {
        Exits { top: false, bottom: false, left: false, right: false }
    }
}

impl Exits {
    /// An exit on every edge.
    pub fn all() -> (exits: Exits)
        ensures
            exits == (Exits { top: true, bottom: true, left: true, right: true }),
    {
        Exits { top: true, bottom: true, left: true, right: true }
    }

    /// A straight-through corridor room (left to right).
    pub fn horizontal() -> (exits: Exits)
        ensures
            exits == (Exits { top: false, bottom: false, left: true, right: true }),
    {
        Exits { top: false, bottom: false, left: true, right: true }
    }
}

/// Terrain-generation parameters.
#[derive(Clone, Copy, Debug)]
pub struct TerrainGenParams {
    /// Initial random wall fill (per-mille) before smoothing.
    pub wall_fill_permille: u32,
    /// Cellular-automata smoothing passes (a tile becomes wall iff at least 5 of its 8 neighbours
    /// are wall).
    pub smooth_iters: u32,
    /// Swamp fill (per-mille of the non-wall tiles).
    pub swamp_fill_permille: u32,
    /// Which edges have a connected exit.
    pub exits: Exits,
}

impl Default for TerrainGenParams {
    fn default() -> (params: TerrainGenParams)
        ensures
            params == (TerrainGenParams {
                wall_fill_permille: 450,
                smooth_iters: 4,
                swamp_fill_permille: 120,
                exits: Exits { top: true, bottom: true, left: true, right: true },
            }),
    {
        TerrainGenParams {
            wall_fill_permille: 450,
            smooth_iters: 4,
            swamp_fill_permille: 120,
            exits: Exits::all(),
        }
    }
}

/// A room edge.
#[derive(Clone, Copy, Debug, PartialEq, Eq, Structural)]
pub enum EdgeDir {
    Left,
    Right,
    Top,
    Bottom,
}

/// Tile `(x, y)` lies on the room border.
pub open spec fn on_border(x: int, y: int) -> bool {
    x == 0 || y == 0 || x == 49 || y == 49
}

/// The random fill: the border is wall; the tiles inside take one draw each, row by row.
pub open spec fn filled(state: u64, permille: u32) -> spec_fn(int, int) -> bool {
    |x: int, y: int|
        on_border(x, y) || scaled(draw(state, (48 * (y - 1) + (x - 1)) as nat), 0, 1000) < permille
}

/// 1 if the flag is set.
pub open spec fn one_if(flag: bool) -> int {
    if flag {
        1
    } else {
        0
    }
}

/// How many of the 8 neighbours of a tile are set.
pub open spec fn neighbours(plan: spec_fn(int, int) -> bool, x: int, y: int) -> int {
    one_if(plan(x - 1, y - 1)) + one_if(plan(x, y - 1)) + one_if(plan(x + 1, y - 1)) + one_if(
        plan(x - 1, y),
    ) + one_if(plan(x + 1, y)) + one_if(plan(x - 1, y + 1)) + one_if(plan(x, y + 1)) + one_if(
        plan(x + 1, y + 1),
    )
}

/// One smoothing pass: inside the border, a tile is wall iff at least 5 of its neighbours were.
pub open spec fn smoothed_once(plan: spec_fn(int, int) -> bool) -> spec_fn(int, int) -> bool {
    |x: int, y: int|
        if on_border(x, y) {
            plan(x, y)
        } else {
            neighbours(plan, x, y) >= 5
        }
}

/// `n` smoothing passes.
pub open spec fn smoothed(plan: spec_fn(int, int) -> bool, n: nat) -> spec_fn(int, int) -> bool
    decreases n,
{
    if n == 0 {
        plan
    } else {
        smoothed_once(smoothed(plan, (n - 1) as nat))
    }
}

/// The plan with the room centre opened.
pub open spec fn centre_opened(plan: spec_fn(int, int) -> bool) -> spec_fn(int, int) -> bool {
    |x: int, y: int| plan(x, y) && !(24 <= x <= 26 && 24 <= y <= 26)
}

/// The natural cave of a room, before exits are carved.
pub open spec fn cave(seed: u32, params: TerrainGenParams) -> spec_fn(int, int) -> bool {
    centre_opened(
        smoothed(
            filled(seed_state(seed), params.wall_fill_permille),
            params.smooth_iters as nat,
        ),
    )
}

/// The open tiles of a plan.
pub open spec fn open_in(plan: spec_fn(int, int) -> bool) -> spec_fn((u8, u8)) -> bool {
    |tile: (u8, u8)| in_room(tile) && !plan(tile.0 as int, tile.1 as int)
}

/// The region around the room centre.
pub open spec fn main_region(plan: spec_fn(int, int) -> bool) -> spec_fn(int, int) -> bool {
    |x: int, y: int| inside(x, y) && reachable(open_in(plan), (25, 25), (x as u8, y as u8))
}

/// The tile `depth` steps inward from tile `along` of an edge.
pub open spec fn inward(dir: EdgeDir, along: int, depth: int) -> (int, int) {
    match dir {
        EdgeDir::Left => (depth, along),
        EdgeDir::Right => (49 - depth, along),
        EdgeDir::Top => (along, depth),
        EdgeDir::Bottom => (along, 49 - depth),
    }
}

/// How far along an edge a tile lies.
pub open spec fn along(dir: EdgeDir, x: int, y: int) -> int {
    match dir {
        EdgeDir::Left => y,
        EdgeDir::Right => y,
        EdgeDir::Top => x,
        EdgeDir::Bottom => x,
    }
}

/// How far inward from an edge a tile lies.
pub open spec fn depth(dir: EdgeDir, x: int, y: int) -> int {
    match dir {
        EdgeDir::Left => x,
        EdgeDir::Right => 49 - x,
        EdgeDir::Top => y,
        EdgeDir::Bottom => 49 - y,
    }
}

/// The way inward from tile `b` of an edge meets no tile of the region in its first `deep` steps.
pub open spec fn clear_way(
    region: spec_fn(int, int) -> bool,
    dir: EdgeDir,
    b: int,
    deep: int,
) -> bool {
    forall|k: int|
        1 <= k <= deep ==> !region((#[trigger] inward(dir, b, k)).0, inward(dir, b, k).1)
}

/// The way inward from tile `b` of an edge meets the region.
pub open spec fn meets(region: spec_fn(int, int) -> bool, dir: EdgeDir, b: int) -> bool {
    exists|k: int|
        1 <= k <= 49 && region((#[trigger] inward(dir, b, k)).0, inward(dir, b, k).1)
}

/// Place `a` of an edge lies from place `b` towards the middle of the edge.
pub open spec fn towards_middle(b: int, a: int) -> bool {
    b <= a <= 25 || 25 <= a <= b
}

/// The middle line, 25 steps inward from the edge, meets no tile of the region from place `b` to
/// place `a`.
pub open spec fn clear_turn(
    region: spec_fn(int, int) -> bool,
    dir: EdgeDir,
    b: int,
    a: int,
) -> bool {
    forall|c: int|
        b <= c <= a || a <= c <= b ==> !region(
            (#[trigger] inward(dir, c, 25)).0,
            inward(dir, c, 25).1,
        )
}

/// The channel from tile `b` of an edge opens the tile. Where the way inward meets the region, the
/// channel is that way up to the region; else it leads to the middle line, and along it towards the
/// middle up to the region.
pub open spec fn carves(
    region: spec_fn(int, int) -> bool,
    dir: EdgeDir,
    b: int,
    x: int,
    y: int,
) -> bool {
    let a = along(dir, x, y);
    let deep = depth(dir, x, y);
    if meets(region, dir, b) {
        a == b && clear_way(region, dir, b, deep)
    } else {
        a == b && deep <= 25 || deep == 25 && towards_middle(b, a) && clear_turn(region, dir, b, a)
    }
}

/// The channel from some tile of the exit range `lo..=hi` of an edge opens the tile.
pub open spec fn carved(
    region: spec_fn(int, int) -> bool,
    edge: (EdgeDir, u8, u8),
    x: int,
    y: int,
) -> bool {
    exists|b: int| edge.1 <= b <= edge.2 && #[trigger] carves(region, edge.0, b, x, y)
}

/// Some of the exit ranges opens the tile.
pub open spec fn carved_by_any(
    region: spec_fn(int, int) -> bool,
    edges: Seq<(EdgeDir, u8, u8)>,
    x: int,
    y: int,
) -> bool {
    exists|i: int| 0 <= i < edges.len() && carved(region, #[trigger] edges[i], x, y)
}

/// The walls of a room: its cave, less what its exits carve.
pub open spec fn walls_of(
    seed: u32,
    params: TerrainGenParams,
    edges: Seq<(EdgeDir, u8, u8)>,
) -> spec_fn(int, int) -> bool {
    |x: int, y: int|
        cave(seed, params)(x, y) && !carved_by_any(
            main_region(cave(seed, params)),
            edges,
            x,
            y,
        )
}

/// How many of the first `n` tiles, row by row, are open.
pub open spec fn open_before(plan: spec_fn(int, int) -> bool, n: int) -> nat
    decreases n,
{
    if n <= 0 {
        0
    } else {
        open_before(plan, n - 1) + if plan((n - 1) % 50, (n - 1) / 50) {
            0nat
        } else {
            1nat
        }
    }
}

/// The swamps among the open tiles of a plan: each open tile takes one draw, row by row.
pub open spec fn swamp_plan(
    plan: spec_fn(int, int) -> bool,
    state: u64,
    permille: u32,
) -> spec_fn(int, int) -> bool {
    |x: int, y: int|
        !plan(x, y) && scaled(draw(state, open_before(plan, 50 * y + x)), 0, 1000) < permille
}

/// The swamps of a room, drawn after the 48 × 48 tiles of the fill.
pub open spec fn swamps_of(
    seed: u32,
    params: TerrainGenParams,
    edges: Seq<(EdgeDir, u8, u8)>,
) -> spec_fn(int, int) -> bool {
    swamp_plan(
        walls_of(seed, params, edges),
        state_after(seed_state(seed), 2304),
        params.swamp_fill_permille,
    )
}

/// The tiles of a room on which a plan is set.
pub open spec fn tiles_of(plan: spec_fn(int, int) -> bool) -> Set<(u8, u8)> {
    Set::new(|tile: (u8, u8)| in_room(tile) && plan(tile.0 as int, tile.1 as int))
}

/// Every exit range that is not empty lies inside the edge.
pub open spec fn ranges_inside(edges: Seq<(EdgeDir, u8, u8)>) -> bool {
    forall|i: int|
        0 <= i < edges.len() && (#[trigger] edges[i]).1 <= edges[i].2 ==> edges[i].2 < SIDE
}

/// The terrain generated from a seed, parameters and exit ranges.
pub open spec fn generated(
    terrain: SimTerrain,
    seed: u32,
    params: TerrainGenParams,
    edges: Seq<(EdgeDir, u8, u8)>,
) -> bool {
    &&& terrain.walls@ == tiles_of(walls_of(seed, params, edges))
    &&& terrain.swamps@ == tiles_of(swamps_of(seed, params, edges))
    &&& terrain.roads@ == Set::<(u8, u8)>::empty()
}

/// Fills the room at random; the border is wall.
fn random_fill(rng: &mut Rng, permille: u32) -> (wall: Grid)
    ensures
        wall.shows(filled(old(rng).state(), permille)),
        final(rng).state() == state_after(old(rng).state(), 2304),
{
    let mut wall = Grid::new();
    let ghost state = rng.state();
    let ghost mut n: nat = 0;
    for y in 0..SIDE
        invariant
            wall.valid(),
            n == if y == 0 {
                0
            } else if y <= 49 {
                48 * (y - 1)
            } else {
                2304
            },
            state == old(rng).state(),
            rng.state() == state_after(state, n),
            forall|a: int, b: int|
                inside(a, b) && b < y ==> #[trigger] wall.at(a, b) == filled(state, permille)(a, b),
    {
        for x in 0..SIDE
            invariant
                wall.valid(),
                y < SIDE,
                n == if y == 0 {
                    0
                } else if y == 49 {
                    2304
                } else if x == 0 {
                    48 * (y - 1)
                } else if x <= 49 {
                    48 * (y - 1) + (x - 1)
                } else {
                    48 * y as int
                },
                rng.state() == state_after(state, n),
                forall|a: int, b: int|
                    inside(a, b) && (b < y || b == y && a < x) ==> #[trigger] wall.at(a, b)
                        == filled(state, permille)(a, b),
        {
            let edge = x == 0 || y == 0 || x == SIDE - 1 || y == SIDE - 1;
            let mut flag = edge;
            if !edge {
                flag = rng.range(0, 1000) < permille;
                proof {
                    n = n + 1;
                }
            }
            wall.set(x, y, flag);
        }
    }
    wall
}

/// How many of the 8 neighbours of a tile inside the border are set.
fn count_neighbours(wall: &Grid, x: usize, y: usize) -> (count: u32)
    requires
        wall.valid(),
        1 <= x < 49,
        1 <= y < 49,
    ensures
        count == neighbours(wall.plan(), x as int, y as int),
{
    let mut count: u32 = 0;
    if wall.get(x - 1, y - 1) {
        count = count + 1;
    }
    if wall.get(x, y - 1) {
        count = count + 1;
    }
    if wall.get(x + 1, y - 1) {
        count = count + 1;
    }
    if wall.get(x - 1, y) {
        count = count + 1;
    }
    if wall.get(x + 1, y) {
        count = count + 1;
    }
    if wall.get(x - 1, y + 1) {
        count = count + 1;
    }
    if wall.get(x, y + 1) {
        count = count + 1;
    }
    if wall.get(x + 1, y + 1) {
        count = count + 1;
    }
    count
}

/// One smoothing pass.
fn smooth(wall: &Grid) -> (next: Grid)
    requires
        wall.valid(),
    ensures
        next.shows(smoothed_once(wall.plan())),
{
    let mut next = wall.copy();
    for y in 1..SIDE - 1
        invariant
            wall.valid(),
            next.valid(),
            forall|a: int, b: int|
                inside(a, b) ==> #[trigger] next.at(a, b) == if b < y {
                    smoothed_once(wall.plan())(a, b)
                } else {
                    wall.at(a, b)
                },
    {
        for x in 1..SIDE - 1
            invariant
                wall.valid(),
                next.valid(),
                1 <= y < 49,
                forall|a: int, b: int|
                    inside(a, b) ==> #[trigger] next.at(a, b) == if b < y || b == y && a < x {
                        smoothed_once(wall.plan())(a, b)
                    } else {
                        wall.at(a, b)
                    },
        {
            next.set(x, y, count_neighbours(wall, x, y) >= 5);
        }
    }
    next
}

/// The tiles reachable from `start` over open tiles, diagonals allowed as in creep movement.
fn flood_open(wall: &Grid, start: (u8, u8)) -> (region: Grid)
    requires
        wall.valid(),
        in_room(start),
    ensures
        region.valid(),
        forall|x: int, y: int|
            inside(x, y) ==> #[trigger] region.at(x, y) == reachable(
                open_in(wall.plan()),
                start,
                (x as u8, y as u8),
            ),
{
    let mut region = Grid::new();
    let mut stack: Vec<(u8, u8)> = Vec::new();
    stack.push(start);
    let ghost open = open_in(wall.plan());
    let ghost mut reached: Set<(u8, u8)> = Set::empty();
    proof {
        lemma_flood_begin(open, start);
        assert(stack@ =~= seq![start]);
        lemma_tiles_finite(reached);
    }
    while stack.len() > 0
        invariant
            wall.valid(),
            region.valid(),
            open == open_in(wall.plan()),
            flooding(open, start, reached, stack@),
            reached.finite(),
            forall|i: int| 0 <= i < stack.len() ==> in_room(#[trigger] stack[i]),
            forall|t: (u8, u8)| #[trigger] reached.contains(t) ==> in_room(t),
            forall|x: int, y: int|
                inside(x, y) ==> #[trigger] region.at(x, y) == reached.contains((x as u8, y as u8)),
        decreases 65536 - reached.len(), stack.len(),
    {
        let ghost before = stack@;
        let top = stack.pop();
        if let Some(tile) = top {
            proof {
                assert(before.last() == tile);
                assert(stack@ =~= before.drop_last());
                assert(in_room(before[before.len() - 1]));
            }
            let x: usize = tile.0 as usize;
            let y: usize = tile.1 as usize;
            if wall.get(x, y) || region.get(x, y) {
                proof {
                    lemma_flood_skip(open, start, reached, before);
                }
            } else {
                region.set(x, y, true);
                let added = push_neighbours(&mut stack, tile);
                proof {
                    lemma_flood_visit(open, start, reached, before, added@);
                    lemma_tiles_finite(reached.insert(tile));
                    reached = reached.insert(tile);
                }
            }
        }
    }
    proof {
        assert(stack@ =~= Seq::empty());
        lemma_flood_done(open, start, reached);
    }
    region
}

/// The tile `d` steps inward from tile `b` of an edge.
fn inward_tile(dir: EdgeDir, b: usize, d: usize) -> (tile: (usize, usize))
    requires
        b < SIDE,
        d < SIDE,
    ensures
        tile.0 == inward(dir, b as int, d as int).0,
        tile.1 == inward(dir, b as int, d as int).1,
{
    match dir {
        EdgeDir::Left => (d, b),
        EdgeDir::Right => (SIDE - 1 - d, b),
        EdgeDir::Top => (b, d),
        EdgeDir::Bottom => (b, SIDE - 1 - d),
    }
}

/// Whether the way inward from tile `b` of an edge meets the region.
fn meets_region(region: &Grid, dir: EdgeDir, b: u8) -> (met: bool)
    requires
        region.valid(),
        b < SIDE,
    ensures
        met == meets(region.plan(), dir, b as int),
{
    for k in 1..SIDE
        invariant
            region.valid(),
            b < SIDE,
            clear_way(region.plan(), dir, b as int, k - 1),
    {
        let (x, y): (usize, usize) = inward_tile(dir, b as usize, k);
        if region.get(x, y) {
            assert(region.plan()(
                inward(dir, b as int, k as int).0,
                inward(dir, b as int, k as int).1,
            ));
            return true;
        }
    }
    false
}

/// Opens the way inward from tile `b` of an edge, up to the first tile of the region.
fn carve_straight(wall: &mut Grid, region: &Grid, dir: EdgeDir, b: u8)
    requires
        old(wall).valid(),
        region.valid(),
        b < SIDE,
    ensures
        final(wall).valid(),
        forall|x: int, y: int|
            inside(x, y) ==> #[trigger] final(wall).at(x, y) == (old(wall).at(x, y) && !(along(
                dir,
                x,
                y,
            ) == b && clear_way(region.plan(), dir, b as int, depth(dir, x, y)))),
{
    let side: usize = b as usize;
    let mut d: usize = 0;
    let mut going = true;
    while d < SIDE && going
        invariant
            wall.valid(),
            region.valid(),
            side == b < SIDE,
            d <= SIDE,
            going ==> clear_way(region.plan(), dir, b as int, d as int) || d == SIDE,
            !going ==> !clear_way(region.plan(), dir, b as int, d as int),
            forall|x: int, y: int|
                inside(x, y) ==> #[trigger] wall.at(x, y) == (old(wall).at(x, y) && !(along(
                    dir,
                    x,
                    y,
                ) == b && depth(dir, x, y) < d)),
            forall|k: int|
                0 <= k < d ==> #[trigger] clear_way(region.plan(), dir, b as int, k),
        decreases SIDE - d,
    {
        let (x, y): (usize, usize) = inward_tile(dir, side, d);
        wall.set(x, y, false);
        d = d + 1;
        if d < SIDE {
            let (nx, ny): (usize, usize) = inward_tile(dir, side, d);
            going = !region.get(nx, ny);
        }
    }
}

/// How many steps along the middle line place `a` lies from place `b`.
spec fn steps_between(b: int, a: int) -> int {
    if a >= b {
        a - b
    } else {
        b - a
    }
}

/// The place `n` steps from place `b` towards the middle.
spec fn place_after(b: int, n: int) -> int {
    if b <= 25 {
        b + n
    } else {
        b - n
    }
}

/// Opens the way inward from tile `b` of an edge to the middle line, and along that towards the
/// middle, up to the first tile of the region.
fn carve_bent(wall: &mut Grid, region: &Grid, dir: EdgeDir, b: u8)
    requires
        old(wall).valid(),
        region.valid(),
        b < SIDE,
        !meets(region.plan(), dir, b as int),
    ensures
        final(wall).valid(),
        forall|x: int, y: int|
            inside(x, y) ==> #[trigger] final(wall).at(x, y) == (old(wall).at(x, y) && !carves(
                region.plan(),
                dir,
                b as int,
                x,
                y,
            )),
{
    let side: usize = b as usize;
    let middle: usize = EXIT_MID as usize;
    for d in 0..middle + 1
        invariant
            wall.valid(),
            side == b < SIDE,
            middle == 25,
            forall|x: int, y: int|
                inside(x, y) ==> #[trigger] wall.at(x, y) == (old(wall).at(x, y) && !(along(
                    dir,
                    x,
                    y,
                ) == b && depth(dir, x, y) < d)),
    {
        let (x, y): (usize, usize) = inward_tile(dir, side, d);
        wall.set(x, y, false);
    }
    let count: usize = if side <= middle {
        middle - side
    } else {
        side - middle
    };
    let mut n: usize = 0;
    let mut going = true;
    assert(!region.plan()(inward(dir, b as int, 25).0, inward(dir, b as int, 25).1));
    while n <= count && going
        invariant
            wall.valid(),
            region.valid(),
            side == b < SIDE,
            middle == 25,
            count == steps_between(b as int, 25),
            n <= count + 1,
            going && n <= count ==> clear_turn(
                region.plan(),
                dir,
                b as int,
                place_after(b as int, n as int),
            ),
            !going ==> !clear_turn(
                region.plan(),
                dir,
                b as int,
                place_after(b as int, n as int),
            ),
            forall|x: int, y: int|
                inside(x, y) ==> #[trigger] wall.at(x, y) == (old(wall).at(x, y) && !(along(
                    dir,
                    x,
                    y,
                ) == b && depth(dir, x, y) <= 25 || depth(dir, x, y) == 25 && towards_middle(
                    b as int,
                    along(dir, x, y),
                ) && steps_between(b as int, along(dir, x, y)) < n)),
            forall|k: int|
                0 <= k < n ==> clear_turn(
                    region.plan(),
                    dir,
                    b as int,
                    #[trigger] place_after(b as int, k),
                ),
        decreases count + 1 - n,
    {
        let at: usize = if side <= middle {
            side + n
        } else {
            side - n
        };
        let (x, y): (usize, usize) = inward_tile(dir, at, middle);
        wall.set(x, y, false);
        n = n + 1;
        if n <= count {
            let next: usize = if side <= middle {
                side + n
            } else {
                side - n
            };
            let (nx, ny): (usize, usize) = inward_tile(dir, next, middle);
            going = !region.get(nx, ny);
            proof {
                let (from, to) = (b as int, place_after(b as int, n as int));
                let last = place_after(b as int, n - 1);
                assert(clear_turn(region.plan(), dir, from, last));
                assert(to == next);
                assert(region.plan()(inward(dir, to, 25).0, inward(dir, to, 25).1) == !going);
            }
        }
    }
    proof {
        assert forall|x: int, y: int| inside(x, y) implies #[trigger] wall.at(x, y) == (old(wall).at(
            x,
            y,
        ) && !carves(region.plan(), dir, b as int, x, y)) by {
            let a = along(dir, x, y);
            if towards_middle(b as int, a) {
                let k = steps_between(b as int, a);
                assert(a == place_after(b as int, k));
            }
        }
    }
}

/// Opens the channel from tile `b` of an edge to the region.
fn carve(wall: &mut Grid, region: &Grid, dir: EdgeDir, b: u8)
    requires
        old(wall).valid(),
        region.valid(),
        b < SIDE,
    ensures
        final(wall).valid(),
        forall|x: int, y: int|
            inside(x, y) ==> #[trigger] final(wall).at(x, y) == (old(wall).at(x, y) && !carves(
                region.plan(),
                dir,
                b as int,
                x,
                y,
            )),
{
    if meets_region(region, dir, b) {
        carve_straight(wall, region, dir, b);
    } else {
        carve_bent(wall, region, dir, b);
    }
}

/// Opens the exit range `lo..=hi` of an edge.
fn carve_range(wall: &mut Grid, region: &Grid, edge: (EdgeDir, u8, u8))
    requires
        old(wall).valid(),
        region.valid(),
        edge.1 <= edge.2 ==> edge.2 < SIDE,
    ensures
        final(wall).valid(),
        forall|x: int, y: int|
            inside(x, y) ==> #[trigger] final(wall).at(x, y) == (old(wall).at(x, y) && !carved(
                region.plan(),
                edge,
                x,
                y,
            )),
{
    let (dir, lo, hi) = edge;
    let mut b: u8 = lo;
    while b <= hi
        invariant
            wall.valid(),
            region.valid(),
            edge == (dir, lo, hi),
            lo <= b,
            lo <= hi ==> hi < SIDE && b <= hi + 1,
            lo > hi ==> b == lo,
            forall|x: int, y: int|
                inside(x, y) ==> #[trigger] wall.at(x, y) == (old(wall).at(x, y) && !(exists|c: int|
                    lo <= c < b && #[trigger] carves(region.plan(), dir, c, x, y))),
        decreases hi + 1 - b,
    {
        let ghost before = *wall;
        carve(wall, region, dir, b);
        proof {
            assert forall|x: int, y: int| inside(x, y) implies #[trigger] wall.at(x, y) == (old(
                wall,
            ).at(x, y) && !(exists|c: int|
                lo <= c < b + 1 && #[trigger] carves(region.plan(), dir, c, x, y))) by {
                assert(wall.at(x, y) == (before.at(x, y) && !carves(
                    region.plan(),
                    dir,
                    b as int,
                    x,
                    y,
                )));
            }
        }
        b = b + 1;
    }
}

/// A grid that shows a plan has the neighbour counts of the plan.
proof fn lemma_neighbours_agree(
    grid: Grid,
    plan: spec_fn(int, int) -> bool,
    x: int,
    y: int,
)
    requires
        grid.shows(plan),
        inside(x, y),
        !on_border(x, y),
    ensures
        neighbours(grid.plan(), x, y) == neighbours(plan, x, y),
{
    assert(grid.at(x - 1, y - 1) == plan(x - 1, y - 1));
    assert(grid.at(x, y - 1) == plan(x, y - 1));
    assert(grid.at(x + 1, y - 1) == plan(x + 1, y - 1));
    assert(grid.at(x - 1, y) == plan(x - 1, y));
    assert(grid.at(x + 1, y) == plan(x + 1, y));
    assert(grid.at(x - 1, y + 1) == plan(x - 1, y + 1));
    assert(grid.at(x, y + 1) == plan(x, y + 1));
    assert(grid.at(x + 1, y + 1) == plan(x + 1, y + 1));
}

/// A grid that shows a region has the channels of the region.
proof fn lemma_channel_agrees(
    grid: Grid,
    region: spec_fn(int, int) -> bool,
    dir: EdgeDir,
    b: int,
    x: int,
    y: int,
)
    requires
        grid.shows(region),
        0 <= b < 50,
        inside(x, y),
    ensures
        carves(grid.plan(), dir, b, x, y) == carves(region, dir, b, x, y),
{
    assert forall|c: int, k: int| 0 <= c < 50 && 0 <= k < 50 implies grid.plan()(
        (#[trigger] inward(dir, c, k)).0,
        inward(dir, c, k).1,
    ) == region(inward(dir, c, k).0, inward(dir, c, k).1) by {
        assert(grid.at(inward(dir, c, k).0, inward(dir, c, k).1) == region(
            inward(dir, c, k).0,
            inward(dir, c, k).1,
        ));
    }
    let deep = depth(dir, x, y);
    let a = along(dir, x, y);
    assert(clear_way(grid.plan(), dir, b, deep) == clear_way(region, dir, b, deep));
    assert(clear_way(grid.plan(), dir, b, 49) == clear_way(region, dir, b, 49));
    assert(meets(grid.plan(), dir, b) == !clear_way(grid.plan(), dir, b, 49));
    assert(meets(region, dir, b) == !clear_way(region, dir, b, 49));
    assert(clear_turn(grid.plan(), dir, b, a) == clear_turn(region, dir, b, a));
}

/// A grid that shows a region carves what the region carves.
proof fn lemma_carving_agrees(
    grid: Grid,
    region: spec_fn(int, int) -> bool,
    edges: Seq<(EdgeDir, u8, u8)>,
)
    requires
        grid.shows(region),
        ranges_inside(edges),
    ensures
        forall|x: int, y: int|
            inside(x, y) ==> #[trigger] carved_by_any(grid.plan(), edges, x, y) == carved_by_any(
                region,
                edges,
                x,
                y,
            ),
{
    assert forall|i: int, x: int, y: int|
        0 <= i < edges.len() && inside(x, y) implies #[trigger] carved(
        grid.plan(),
        edges[i],
        x,
        y,
    ) == carved(region, edges[i], x, y) by {
        let edge = edges[i];
        assert forall|b: int| edge.1 <= b <= edge.2 implies carves(grid.plan(), edge.0, b, x, y)
            == #[trigger] carves(region, edge.0, b, x, y) by {
            lemma_channel_agrees(grid, region, edge.0, b, x, y);
        }
        if carved(grid.plan(), edge, x, y) {
            let b = choose|b: int|
                edge.1 <= b <= edge.2 && #[trigger] carves(grid.plan(), edge.0, b, x, y);
            assert(carves(region, edge.0, b, x, y));
        }
    }
    assert forall|x: int, y: int| inside(x, y) implies #[trigger] carved_by_any(
        grid.plan(),
        edges,
        x,
        y,
    ) == carved_by_any(region, edges, x, y) by {
        if carved_by_any(grid.plan(), edges, x, y) {
            let i = choose|i: int|
                0 <= i < edges.len() && carved(grid.plan(), #[trigger] edges[i], x, y);
            assert(carved(region, edges[i], x, y));
        }
        if carved_by_any(region, edges, x, y) {
            let i = choose|i: int| 0 <= i < edges.len() && carved(region, #[trigger] edges[i], x, y);
            assert(carved(grid.plan(), edges[i], x, y));
        }
    }
}

/// Opens every exit range.
fn carve_all(wall: &mut Grid, region: &Grid, edges: &[(EdgeDir, u8, u8)])
    requires
        old(wall).valid(),
        region.valid(),
        ranges_inside(edges@),
    ensures
        final(wall).valid(),
        forall|x: int, y: int|
            inside(x, y) ==> #[trigger] final(wall).at(x, y) == (old(wall).at(x, y)
                && !carved_by_any(region.plan(), edges@, x, y)),
{
    for i in 0..edges.len()
        invariant
            wall.valid(),
            region.valid(),
            ranges_inside(edges@),
            forall|x: int, y: int|
                inside(x, y) ==> #[trigger] wall.at(x, y) == (old(wall).at(x, y) && !carved_by_any(
                    region.plan(),
                    edges@.take(i as int),
                    x,
                    y,
                )),
    {
        let ghost before = *wall;
        carve_range(wall, region, edges[i]);
        proof {
            let short = edges@.take(i as int);
            let long = edges@.take(i + 1);
            let seen = region.plan();
            assert forall|x: int, y: int| inside(x, y) implies #[trigger] wall.at(x, y) == (old(
                wall,
            ).at(x, y) && !carved_by_any(seen, long, x, y)) by {
                assert(wall.at(x, y) == (before.at(x, y) && !carved(seen, edges@[i as int], x, y)));
                if carved_by_any(seen, short, x, y) {
                    let j = choose|j: int|
                        0 <= j < short.len() && carved(seen, #[trigger] short[j], x, y);
                    assert(carved(seen, long[j], x, y));
                }
                if carved(seen, edges@[i as int], x, y) {
                    assert(carved(seen, long[i as int], x, y));
                }
                if carved_by_any(seen, long, x, y) {
                    let j = choose|j: int|
                        0 <= j < long.len() && carved(seen, #[trigger] long[j], x, y);
                    if j < i {
                        assert(carved(seen, short[j], x, y));
                    }
                }
            }
        }
    }
    assert(edges@.take(edges.len() as int) =~= edges@);
}

/// A grid that shows a plan has as many open tiles.
proof fn lemma_open_agrees(grid: Grid, plan: spec_fn(int, int) -> bool, n: int)
    requires
        grid.shows(plan),
        n <= 2500,
    ensures
        open_before(grid.plan(), n) == open_before(plan, n),
    decreases n,
{
    if n > 0 {
        lemma_open_agrees(grid, plan, n - 1);
        assert(inside((n - 1) % 50, (n - 1) / 50));
        assert(grid.at((n - 1) % 50, (n - 1) / 50) == plan((n - 1) % 50, (n - 1) / 50));
    }
}

/// A grid that shows a plan has the walls and swamps of the plan.
proof fn lemma_tiles_agree(
    grid: Grid,
    plan: spec_fn(int, int) -> bool,
    state: u64,
    permille: u32,
)
    requires
        grid.shows(plan),
    ensures
        tiles_of(grid.plan()) == tiles_of(plan),
        tiles_of(swamp_plan(grid.plan(), state, permille)) == tiles_of(
            swamp_plan(plan, state, permille),
        ),
{
    assert forall|x: int, y: int| inside(x, y) implies #[trigger] swamp_plan(
        grid.plan(),
        state,
        permille,
    )(x, y) == swamp_plan(plan, state, permille)(x, y) by {
        lemma_open_agrees(grid, plan, 50 * y + x);
        assert(grid.at(x, y) == plan(x, y));
    }
    assert(tiles_of(grid.plan()) =~= tiles_of(plan)) by {
        assert forall|t: (u8, u8)| in_room(t) implies grid.plan()(t.0 as int, t.1 as int)
            == #[trigger] plan(t.0 as int, t.1 as int) by {
            assert(grid.at(t.0 as int, t.1 as int) == plan(t.0 as int, t.1 as int));
        }
    }
    assert(tiles_of(swamp_plan(grid.plan(), state, permille)) =~= tiles_of(
        swamp_plan(plan, state, permille),
    ));
}

/// Lists the walls, and swamps the open tiles at random.
fn materialise(rng: &mut Rng, wall: &Grid, permille: u32) -> (terrain: SimTerrain)
    requires
        wall.valid(),
    ensures
        terrain.walls@ == tiles_of(wall.plan()),
        terrain.swamps@ == tiles_of(swamp_plan(wall.plan(), old(rng).state(), permille)),
        terrain.roads@ == Set::<(u8, u8)>::empty(),
{
    let mut terrain = SimTerrain::default();
    let ghost state = rng.state();
    let ghost plan = wall.plan();
    let ghost swamps = swamp_plan(plan, state, permille);
    for y in 0..SIDE
        invariant
            wall.valid(),
            plan == wall.plan(),
            swamps == swamp_plan(plan, state, permille),
            rng.state() == state_after(state, open_before(plan, 50 * y)),
            terrain.roads@ == Set::<(u8, u8)>::empty(),
            forall|t: (u8, u8)| #[trigger]
                terrain.walls@.contains(t) <==> in_room(t) && t.1 < y && plan(
                    t.0 as int,
                    t.1 as int,
                ),
            forall|t: (u8, u8)| #[trigger]
                terrain.swamps@.contains(t) <==> in_room(t) && t.1 < y && swamps(
                    t.0 as int,
                    t.1 as int,
                ),
    {
        for x in 0..SIDE
            invariant
                wall.valid(),
                y < SIDE,
                plan == wall.plan(),
                swamps == swamp_plan(plan, state, permille),
                rng.state() == state_after(state, open_before(plan, 50 * y + x)),
                terrain.roads@ == Set::<(u8, u8)>::empty(),
                forall|t: (u8, u8)| #[trigger]
                    terrain.walls@.contains(t) <==> in_room(t) && (t.1 < y || t.1 == y && t.0 < x)
                        && plan(t.0 as int, t.1 as int),
                forall|t: (u8, u8)| #[trigger]
                    terrain.swamps@.contains(t) <==> in_room(t) && (t.1 < y || t.1 == y && t.0 < x)
                        && swamps(t.0 as int, t.1 as int),
        {
            let tile: (u8, u8) = (x as u8, y as u8);
            assert((50 * y + x) % 50 == x && (50 * y + x) / 50 == y);
            if wall.get(x, y) {
                terrain.walls.insert(tile);
            } else if rng.range(0, 1000) < permille {
                terrain.swamps.insert(tile);
            }
        }
    }
    terrain
}

/// Generates a room: a cave, with the given exit ranges opened and connected to its main region.
pub fn generate_with_edges(
    cave_seed: u32,
    params: &TerrainGenParams,
    edges: &[(EdgeDir, u8, u8)],
) -> (terrain: SimTerrain)
    requires
        ranges_inside(edges@),
    ensures
        generated(terrain, cave_seed, *params, edges@),
{
    let mut rng = Rng::seeded(cave_seed);
    let ghost start = filled(seed_state(cave_seed), params.wall_fill_permille);
    let mut wall = random_fill(&mut rng, params.wall_fill_permille);
    for i in 0..params.smooth_iters
        invariant
            wall.shows(smoothed(start, i as nat)),
    {
        let next = smooth(&wall);
        proof {
            let plan = smoothed(start, i as nat);
            assert forall|x: int, y: int| inside(x, y) implies #[trigger] next.at(x, y)
                == smoothed_once(plan)(x, y) by {
                assert(next.at(x, y) == smoothed_once(wall.plan())(x, y));
                assert(wall.at(x, y) == plan(x, y));
                if !on_border(x, y) {
                    lemma_neighbours_agree(wall, plan, x, y);
                }
            }
        }
        wall = next;
    }
    for y in 24..27usize
        invariant
            wall.valid(),
            forall|a: int, b: int|
                inside(a, b) ==> #[trigger] wall.at(a, b) == (smoothed(
                    start,
                    params.smooth_iters as nat,
                )(a, b) && !(24 <= a <= 26 && 24 <= b < y)),
    {
        wall.set(24, y, false);
        wall.set(25, y, false);
        wall.set(26, y, false);
    }
    let ghost hollow = cave(cave_seed, *params);
    assert(wall.shows(hollow));
    let region = flood_open(&wall, (25, 25));
    proof {
        assert(open_in(wall.plan()) =~= open_in(hollow));
    }
    carve_all(&mut wall, &region, edges);
    proof {
        lemma_carving_agrees(region, main_region(hollow), edges@);
    }
    assert(wall.shows(walls_of(cave_seed, *params, edges@)));
    proof {
        lemma_tiles_agree(
            wall,
            walls_of(cave_seed, *params, edges@),
            rng.state(),
            params.swamp_fill_permille,
        );
    }
    materialise(&mut rng, &wall, params.swamp_fill_permille)
}

/// The open tiles of a terrain.
pub open spec fn passable(terrain: SimTerrain) -> spec_fn((u8, u8)) -> bool {
    |tile: (u8, u8)| !terrain.walls@.contains(tile)
}

/// Filling over a plan and filling over the terrain with the plan's walls agree: from a tile of the
/// room, both reach the same tiles, and none if that tile is a wall.
pub proof fn lemma_fills_agree(
    plan: spec_fn(int, int) -> bool,
    terrain: SimTerrain,
    start: (u8, u8),
    tile: (u8, u8),
)
    requires
        in_room(start),
        terrain.walls@ == tiles_of(plan),
    ensures
        reachable(open_in(plan), start, tile) <==> reachable(passable(terrain), start, tile),
        plan(start.0 as int, start.1 as int) ==> !reachable(open_in(plan), start, tile),
{
    let (a, b) = (open_in(plan), passable(terrain));
    if reachable(a, start, tile) {
        lemma_reach_grows(a, b, start, tile);
        lemma_reached_open(a, start, tile);
    }
    if reachable(b, start, tile) {
        lemma_reach_grows(b, a, start, tile);
    }
}

/// The set of open tiles 8-connected to `start`: the creep-reachable region that holds it. Swamps
/// count as open. Empty if `start` is itself a wall.
pub fn connected_open(terrain: &SimTerrain, start: (u8, u8)) -> (region: TileSet)
    ensures
        forall|tile: (u8, u8)| #[trigger]
            region@.contains(tile) <==> reachable(passable(*terrain), start, tile),
        terrain.walls@.contains(start) ==> region@ == Set::<(u8, u8)>::empty(),
{
    let mut region = TileSet::new();
    let ghost open = passable(*terrain);
    let mut stack: Vec<(u8, u8)> = Vec::new();
    stack.push(start);
    proof {
        lemma_flood_begin(open, start);
        assert(stack@ =~= seq![start]);
    }
    while stack.len() > 0
        invariant
            open == passable(*terrain),
            flooding(open, start, region@, stack@),
        decreases 65536 - region@.len(), stack.len(),
    {
        let ghost before = stack@;
        let ghost reached = region@;
        let top = stack.pop();
        if let Some(tile) = top {
            proof {
                assert(before.last() == tile);
                assert(stack@ =~= before.drop_last());
                lemma_tiles_finite(reached);
                lemma_tiles_finite(reached.insert(tile));
            }
            if terrain.walls.contains(&tile) || !region.insert(tile) {
                proof {
                    assert(region@ =~= reached);
                    lemma_flood_skip(open, start, reached, before);
                }
            } else {
                let added = push_neighbours(&mut stack, tile);
                proof {
                    lemma_flood_visit(open, start, reached, before, added@);
                }
            }
        }
    }
    proof {
        assert(stack@ =~= Seq::empty());
        lemma_flood_done(open, start, region@);
        if terrain.walls@.contains(start) {
            assert forall|tile: (u8, u8)| !region@.contains(tile) by {
                if region@.contains(tile) {
                    lemma_reached_open(open, start, tile);
                }
            }
            assert(region@ =~= Set::empty());
        }
    }
    region
}

/// The id of a room: the packed word of its centre tile.
pub open spec fn room_number(room: RoomName) -> u32 {
    (Position { x: 25, y: 25, room }).packed() as u32
}

/// A stable per-room id: its centre tile's packed word, unique per room.
fn room_id(room: RoomName) -> (id: u32)
    ensures
        id == room_number(room),
{
    Position { x: EXIT_MID, y: EXIT_MID, room }.packed_repr()
}

/// The room that holds a world coordinate on one axis.
pub open spec fn holds(coord: int, world: int) -> bool {
    50 * coord <= world < 50 * coord + 50
}

/// The room of the tile `off` away from tile `tile` of a room, if that is on the map.
fn neighbour(room: RoomName, tile: (u8, u8), off: (i32, i32)) -> (other: Option<RoomName>)
    requires
        in_room(tile),
        -50 <= off.0 <= 50,
        -50 <= off.1 <= 50,
    ensures
        other is Some <==> on_map(50 * room.x_coord() + tile.0 + off.0) && on_map(
            50 * room.y_coord() + tile.1 + off.1,
        ),
        other matches Some(to) ==> holds(to.x_coord(), 50 * room.x_coord() + tile.0 + off.0)
            && holds(to.y_coord(), 50 * room.y_coord() + tile.1 + off.1),
{
    match (Position { x: tile.0, y: tile.1, room }).checked_add(off) {
        Some(to) => Some(to.room),
        None => None,
    }
}

/// The lesser of two ids.
pub open spec fn lesser_id(a: u32, b: u32) -> u32 {
    if a <= b {
        a
    } else {
        b
    }
}

/// The greater of two ids.
pub open spec fn greater_id(a: u32, b: u32) -> u32 {
    if a >= b {
        a
    } else {
        b
    }
}

/// The hash of a seam between two rooms.
pub open spec fn seam_hash(id_a: u32, id_b: u32) -> u64 {
    let low = (lesser_id(id_a, id_b) as u64).wrapping_mul(0x9E37_79B9_7F4A_7C15);
    let high = (greater_id(id_a, id_b) as u64).wrapping_mul(0xC2B2_AE3D_27D4_EB4F);
    let s = low ^ high;
    s ^ (s >> 31)
}

/// The exit range of a seam between two rooms: a centre from 8 to 41, and 1 to 3 tiles each way.
pub open spec fn seam(id_a: u32, id_b: u32) -> (u8, u8) {
    let s = seam_hash(id_a, id_b);
    let centre = 8 + s % 34;
    let half = 1 + (s >> 20) % 3;
    ((centre - half) as u8, (centre + half) as u8)
}

/// The shared exit range for the seam between two rooms. It does not depend on the order of the
/// ids, so both rooms compute the same `(lo, hi)` for their shared edge, and their exits align. It
/// stays clear of the corners.
pub fn seam_range(id_a: u32, id_b: u32) -> (range: (u8, u8))
    ensures
        range == seam(id_a, id_b),
        5 <= range.0,
        range.1 <= 44,
        2 <= range.1 - range.0 <= 6,
{
    let (lo, hi): (u64, u64) = if id_a <= id_b {
        (id_a as u64, id_b as u64)
    } else {
        (id_b as u64, id_a as u64)
    };
    let mut s: u64 = lo.wrapping_mul(0x9E37_79B9_7F4A_7C15) ^ hi.wrapping_mul(0xC2B2_AE3D_27D4_EB4F);
    s = s ^ (s >> 31);
    let centre: u8 = 8 + (s % 34) as u8;
    let half: u8 = 1 + ((s >> 20) % 3) as u8;
    (centre - half, centre + half)
}

/// The shared exit range for the seam between two adjacent rooms: the range both rooms open on
/// their shared edge.
pub fn seam_range_between(a: RoomName, b: RoomName) -> (range: (u8, u8))
    ensures
        range == seam(room_number(a), room_number(b)),
{
    seam_range(room_id(a), room_id(b))
}

/// A list with an exit range at its end, if there is one.
pub open spec fn with_exit(
    edges: Seq<(EdgeDir, u8, u8)>,
    exit: Option<(EdgeDir, u8, u8)>,
) -> Seq<(EdgeDir, u8, u8)> {
    match exit {
        Some(range) => edges.push(range),
        None => edges,
    }
}

/// The exit ranges of four edges, in the order in which they are opened.
pub open spec fn exit_list(
    left: Option<(EdgeDir, u8, u8)>,
    right: Option<(EdgeDir, u8, u8)>,
    top: Option<(EdgeDir, u8, u8)>,
    bottom: Option<(EdgeDir, u8, u8)>,
) -> Seq<(EdgeDir, u8, u8)> {
    with_exit(with_exit(with_exit(with_exit(Seq::empty(), left), right), top), bottom)
}

/// The fixed band of an edge: the three tiles around its middle.
pub open spec fn band(on: bool, dir: EdgeDir) -> Option<(EdgeDir, u8, u8)> {
    if on {
        Some((dir, 24, 26))
    } else {
        None
    }
}

/// The fixed bands of the edges that have an exit.
pub open spec fn bands(exits: Exits) -> Seq<(EdgeDir, u8, u8)> {
    exit_list(
        band(exits.left, EdgeDir::Left),
        band(exits.right, EdgeDir::Right),
        band(exits.top, EdgeDir::Top),
        band(exits.bottom, EdgeDir::Bottom),
    )
}

/// Every requested edge opens the fixed band around its middle: for a single room or a corridor.
/// For a map of several rooms see [`generate_terrain_for_room`].
pub fn generate_terrain(seed: u32, params: &TerrainGenParams) -> (terrain: SimTerrain)
    ensures
        generated(terrain, seed, *params, bands(params.exits)),
{
    let mut edges: Vec<(EdgeDir, u8, u8)> = Vec::new();
    if params.exits.left {
        edges.push((EdgeDir::Left, EXIT_MID - 1, EXIT_MID + 1));
    }
    if params.exits.right {
        edges.push((EdgeDir::Right, EXIT_MID - 1, EXIT_MID + 1));
    }
    if params.exits.top {
        edges.push((EdgeDir::Top, EXIT_MID - 1, EXIT_MID + 1));
    }
    if params.exits.bottom {
        edges.push((EdgeDir::Bottom, EXIT_MID - 1, EXIT_MID + 1));
    }
    assert(edges@ =~= bands(params.exits));
    generate_with_edges(seed, params, edges.as_slice())
}

/// The room across an edge, if that is on the map.
pub open spec fn across(room: RoomName, dir: EdgeDir) -> Option<RoomName> {
    match dir {
        EdgeDir::Left => if room.packed / 256 == 0 {
            None
        } else {
            Some(RoomName { packed: (room.packed - 256) as u16 })
        },
        EdgeDir::Right => if room.packed / 256 == 255 {
            None
        } else {
            Some(RoomName { packed: (room.packed + 256) as u16 })
        },
        EdgeDir::Top => if room.packed % 256 == 0 {
            None
        } else {
            Some(RoomName { packed: (room.packed - 1) as u16 })
        },
        EdgeDir::Bottom => if room.packed % 256 == 255 {
            None
        } else {
            Some(RoomName { packed: (room.packed + 1) as u16 })
        },
    }
}

/// The exit range of a connected edge: that of its seam, if there is a room across it.
pub open spec fn mouth(room: RoomName, on: bool, dir: EdgeDir) -> Option<(EdgeDir, u8, u8)> {
    match across(room, dir) {
        Some(other) => if on {
            let range = seam(room_number(room), room_number(other));
            Some((dir, range.0, range.1))
        } else {
            None
        },
        None => None,
    }
}

/// The exit ranges of the connected edges of a room.
pub open spec fn mouths(room: RoomName, connect: Exits) -> Seq<(EdgeDir, u8, u8)> {
    exit_list(
        mouth(room, connect.left, EdgeDir::Left),
        mouth(room, connect.right, EdgeDir::Right),
        mouth(room, connect.top, EdgeDir::Top),
        mouth(room, connect.bottom, EdgeDir::Bottom),
    )
}

/// Adds the exit range of an edge, if it is connected and a room lies across it.
fn add_mouth(
    edges: &mut Vec<(EdgeDir, u8, u8)>,
    room: RoomName,
    on: bool,
    dir: EdgeDir,
    tile: (u8, u8),
    off: (i32, i32),
)
    requires
        match dir {
            EdgeDir::Left => tile == (0u8, 25u8) && off == (-1i32, 0i32),
            EdgeDir::Right => tile == (49u8, 25u8) && off == (1i32, 0i32),
            EdgeDir::Top => tile == (25u8, 0u8) && off == (0i32, -1i32),
            EdgeDir::Bottom => tile == (25u8, 49u8) && off == (0i32, 1i32),
        },
        ranges_inside(old(edges)@),
    ensures
        final(edges)@ == with_exit(old(edges)@, mouth(room, on, dir)),
        ranges_inside(final(edges)@),
{
    if on {
        if let Some(other) = neighbour(room, tile, off) {
            let (lo, hi): (u8, u8) = seam_range(room_id(room), room_id(other));
            assert(across(room, dir) == Some(other));
            edges.push((dir, lo, hi));
        }
    }
}

/// Room-aware generation. Each connected edge takes its exit range from the seam shared with the
/// neighbour, so adjacent rooms match by construction; the other edges get no exit. The cave is
/// seeded from the room identity.
pub fn generate_terrain_for_room(
    room: RoomName,
    world_seed: u32,
    connect: Exits,
    params: &TerrainGenParams,
) -> (terrain: SimTerrain)
    ensures
        generated(terrain, world_seed ^ room_number(room), *params, mouths(room, connect)),
{
    let self_id: u32 = room_id(room);
    let mut edges: Vec<(EdgeDir, u8, u8)> = Vec::new();
    add_mouth(&mut edges, room, connect.left, EdgeDir::Left, (0, EXIT_MID), (-1, 0));
    add_mouth(&mut edges, room, connect.right, EdgeDir::Right, (49, EXIT_MID), (1, 0));
    add_mouth(&mut edges, room, connect.top, EdgeDir::Top, (EXIT_MID, 0), (0, -1));
    add_mouth(&mut edges, room, connect.bottom, EdgeDir::Bottom, (EXIT_MID, 49), (0, 1));
    generate_with_edges(world_seed ^ self_id, params, edges.as_slice())
}

} // verus!
