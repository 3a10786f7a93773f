//! How a generated room comes about, told from the draws of its seed and from the rooms that differ
//! from it in one step: one pass less of smoothing, or no exits.

use crate::flood::{in_room, reachable};
use crate::grid::inside;
use crate::position::RoomName;
use crate::rng::{draw, lemma_stream_resumes, scaled, seed_state};
use crate::terrain::SimTerrain;
use crate::terrain_gen::{
    across, along, carved, carved_by_any, carves, cave, clear_turn, clear_way, depth, filled,
    generated, inward, lemma_fills_agree, main_region, meets, neighbours, one_if, open_before,
    passable, room_number, seam, smoothed, smoothed_once, tiles_of, walls_of, EdgeDir,
    TerrainGenParams,
};
use vstd::prelude::*;

verus! {

/// No exits.
pub open spec fn no_exits() -> Seq<(EdgeDir, u8, u8)> {
    Seq::empty()
}

proof fn lemma_bare(seed: u32, params: TerrainGenParams, x: int, y: int)
    ensures
        walls_of(seed, params, no_exits())(x, y) == cave(seed, params)(x, y),
{
    assert(!carved_by_any(main_region(cave(seed, params)), no_exits(), x, y));
}

/// Before smoothing, each tile inside the border and off the centre takes one draw of the seed's
/// stream, row by row, and is wall if that falls below the fill.
pub proof fn lemma_fill_takes_draws(
    terrain: SimTerrain,
    seed: u32,
    params: TerrainGenParams,
    tile: (u8, u8),
)
    requires
        generated(terrain, seed, params, no_exits()),
        params.smooth_iters == 0,
        1 <= tile.0 <= 48,
        1 <= tile.1 <= 48,
        !(24 <= tile.0 <= 26 && 24 <= tile.1 <= 26),
    ensures
        terrain.walls@.contains(tile) <==> scaled(
            draw(seed_state(seed), (48 * (tile.1 - 1) + (tile.0 - 1)) as nat),
            0,
            1000,
        ) < params.wall_fill_permille,
{
    lemma_bare(seed, params, tile.0 as int, tile.1 as int);
}

/// The tiles around a tile that are wall.
pub open spec fn walls_around(terrain: SimTerrain, tile: (u8, u8)) -> Set<(u8, u8)> {
    Set::new(
        |t: (u8, u8)|
            t != tile && -1 <= t.0 - tile.0 <= 1 && -1 <= t.1 - tile.1 <= 1
                && terrain.walls@.contains(t),
    )
}

spec fn add_if(tiles: Set<(u8, u8)>, flag: bool, tile: (u8, u8)) -> Set<(u8, u8)> {
    if flag {
        tiles.insert(tile)
    } else {
        tiles
    }
}

proof fn lemma_add_if(tiles: Set<(u8, u8)>, flag: bool, tile: (u8, u8))
    requires
        tiles.finite(),
        !tiles.contains(tile),
    ensures
        add_if(tiles, flag, tile).finite(),
        add_if(tiles, flag, tile).len() == tiles.len() + one_if(flag),
{
}

proof fn lemma_walls_around(
    terrain: SimTerrain,
    plan: spec_fn(int, int) -> bool,
    tile: (u8, u8),
)
    requires
        terrain.walls@ == tiles_of(plan),
        1 <= tile.0 <= 48,
        1 <= tile.1 <= 48,
    ensures
        walls_around(terrain, tile).len() == neighbours(plan, tile.0 as int, tile.1 as int),
{
    let (x, y) = (tile.0 as int, tile.1 as int);
    let at = |dx: int, dy: int| ((x + dx) as u8, (y + dy) as u8);
    let s0 = Set::<(u8, u8)>::empty();
    let s1 = add_if(s0, plan(x - 1, y - 1), at(-1, -1));
    let s2 = add_if(s1, plan(x, y - 1), at(0, -1));
    let s3 = add_if(s2, plan(x + 1, y - 1), at(1, -1));
    let s4 = add_if(s3, plan(x - 1, y), at(-1, 0));
    let s5 = add_if(s4, plan(x + 1, y), at(1, 0));
    let s6 = add_if(s5, plan(x - 1, y + 1), at(-1, 1));
    let s7 = add_if(s6, plan(x, y + 1), at(0, 1));
    let s8 = add_if(s7, plan(x + 1, y + 1), at(1, 1));
    lemma_add_if(s0, plan(x - 1, y - 1), at(-1, -1));
    lemma_add_if(s1, plan(x, y - 1), at(0, -1));
    lemma_add_if(s2, plan(x + 1, y - 1), at(1, -1));
    lemma_add_if(s3, plan(x - 1, y), at(-1, 0));
    lemma_add_if(s4, plan(x + 1, y), at(1, 0));
    lemma_add_if(s5, plan(x - 1, y + 1), at(-1, 1));
    lemma_add_if(s6, plan(x, y + 1), at(0, 1));
    lemma_add_if(s7, plan(x + 1, y + 1), at(1, 1));
    assert forall|t: (u8, u8)| walls_around(terrain, tile).contains(t) <==> s8.contains(t) by {
        let (dx, dy) = (t.0 - x, t.1 - y);
        if -1 <= dx <= 1 && -1 <= dy <= 1 {
            assert(t == at(dx, dy));
            assert(terrain.walls@.contains(t) <==> plan(x + dx, y + dy));
        }
    }
    assert(walls_around(terrain, tile) =~= s8);
}

/// One more pass of smoothing makes a tile inside the border wall exactly if at least 5 of the 8
/// tiles around it were wall before; told of the tiles that the opened centre does not touch.
pub proof fn lemma_smoothing_step(
    before: SimTerrain,
    after: SimTerrain,
    seed: u32,
    params: TerrainGenParams,
    more: TerrainGenParams,
    tile: (u8, u8),
)
    requires
        generated(before, seed, params, no_exits()),
        generated(after, seed, more, no_exits()),
        more.wall_fill_permille == params.wall_fill_permille,
        more.smooth_iters == params.smooth_iters + 1,
        1 <= tile.0 <= 48,
        1 <= tile.1 <= 48,
        !(23 <= tile.0 <= 27 && 23 <= tile.1 <= 27),
    ensures
        after.walls@.contains(tile) <==> walls_around(before, tile).len() >= 5,
{
    let (x, y) = (tile.0 as int, tile.1 as int);
    let start = filled(seed_state(seed), params.wall_fill_permille);
    let plan = smoothed(start, params.smooth_iters as nat);
    let walls = walls_of(seed, params, no_exits());
    lemma_bare(seed, more, x, y);
    assert(smoothed(start, more.smooth_iters as nat) == smoothed_once(plan));
    assert forall|a: int, b: int|
        !(24 <= a <= 26 && 24 <= b <= 26) implies #[trigger] walls(a, b) == plan(a, b) by {
        lemma_bare(seed, params, a, b);
    }
    lemma_walls_around(before, walls, tile);
    assert(neighbours(walls, x, y) == neighbours(plan, x, y));
}

/// The places around a place at which a plan has walls.
pub open spec fn set_around(plan: spec_fn(int, int) -> bool, x: int, y: int) -> Set<(int, int)> {
    Set::new(
        |p: (int, int)|
            p != (x, y) && -1 <= p.0 - x <= 1 && -1 <= p.1 - y <= 1 && plan(p.0, p.1),
    )
}

proof fn lemma_set_around(plan: spec_fn(int, int) -> bool, x: int, y: int)
    ensures
        set_around(plan, x, y).finite(),
        set_around(plan, x, y).len() == neighbours(plan, x, y),
{
    let s0 = Set::<(int, int)>::empty();
    let s1 = put_if(s0, plan(x - 1, y - 1), (x - 1, y - 1));
    let s2 = put_if(s1, plan(x, y - 1), (x, y - 1));
    let s3 = put_if(s2, plan(x + 1, y - 1), (x + 1, y - 1));
    let s4 = put_if(s3, plan(x - 1, y), (x - 1, y));
    let s5 = put_if(s4, plan(x + 1, y), (x + 1, y));
    let s6 = put_if(s5, plan(x - 1, y + 1), (x - 1, y + 1));
    let s7 = put_if(s6, plan(x, y + 1), (x, y + 1));
    let s8 = put_if(s7, plan(x + 1, y + 1), (x + 1, y + 1));
    lemma_put_if(s0, plan(x - 1, y - 1), (x - 1, y - 1));
    lemma_put_if(s1, plan(x, y - 1), (x, y - 1));
    lemma_put_if(s2, plan(x + 1, y - 1), (x + 1, y - 1));
    lemma_put_if(s3, plan(x - 1, y), (x - 1, y));
    lemma_put_if(s4, plan(x + 1, y), (x + 1, y));
    lemma_put_if(s5, plan(x - 1, y + 1), (x - 1, y + 1));
    lemma_put_if(s6, plan(x, y + 1), (x, y + 1));
    lemma_put_if(s7, plan(x + 1, y + 1), (x + 1, y + 1));
    assert forall|p: (int, int)| set_around(plan, x, y).contains(p) <==> s8.contains(p) by {
        let (dx, dy) = (p.0 - x, p.1 - y);
        if -1 <= dx <= 1 && -1 <= dy <= 1 {
            assert(p == (x + dx, y + dy));
        }
    }
    assert(set_around(plan, x, y) =~= s8);
}

spec fn put_if(places: Set<(int, int)>, flag: bool, place: (int, int)) -> Set<(int, int)> {
    if flag {
        places.insert(place)
    } else {
        places
    }
}

proof fn lemma_put_if(places: Set<(int, int)>, flag: bool, place: (int, int))
    requires
        places.finite(),
        !places.contains(place),
    ensures
        put_if(places, flag, place).finite(),
        put_if(places, flag, place).len() == places.len() + one_if(flag),
{
}

/// A pass of smoothing keeps the border, and inside it makes wall of every place with at least 5
/// walls around it and of no other; passes follow one another.
pub proof fn lemma_smoothing_pass(plan: spec_fn(int, int) -> bool, n: nat, x: int, y: int)
    requires
        inside(x, y),
    ensures
        1 <= x <= 48 && 1 <= y <= 48 ==> (smoothed(plan, n + 1)(x, y) <==> set_around(
            smoothed(plan, n),
            x,
            y,
        ).len() >= 5),
        !(1 <= x <= 48 && 1 <= y <= 48) ==> smoothed(plan, n + 1)(x, y) == plan(x, y),
        smoothed(plan, 0)(x, y) == plan(x, y),
    decreases n,
{
    lemma_set_around(smoothed(plan, n), x, y);
    assert(smoothed(plan, n + 1) == smoothed_once(smoothed(plan, n)));
    if n > 0 {
        lemma_smoothing_pass(plan, (n - 1) as nat, x, y);
    }
}

/// A room without exits is its fill, smoothed as often as asked, with the nine centre tiles opened.
pub proof fn lemma_bare_room(
    bare: SimTerrain,
    seed: u32,
    params: TerrainGenParams,
    tile: (u8, u8),
)
    requires
        generated(bare, seed, params, no_exits()),
    ensures
        bare.walls@.contains(tile) <==> tile.0 < 50 && tile.1 < 50 && !(24 <= tile.0 <= 26 && 24
            <= tile.1 <= 26) && smoothed(
            filled(seed_state(seed), params.wall_fill_permille),
            params.smooth_iters as nat,
        )(tile.0 as int, tile.1 as int),
{
    lemma_bare(seed, params, tile.0 as int, tile.1 as int);
}

/// The fill is wall on the border, and inside takes one draw per place, row by row.
pub proof fn lemma_fill(state: u64, permille: u32, x: int, y: int)
    requires
        inside(x, y),
    ensures
        filled(state, permille)(x, y) <==> !(1 <= x <= 48 && 1 <= y <= 48) || scaled(
            draw(state, (48 * (y - 1) + (x - 1)) as nat),
            0,
            1000,
        ) < permille,
{
}

/// The tile `k` steps straight in from place `b` of an edge.
pub open spec fn from_edge(dir: EdgeDir, b: int, k: int) -> (u8, u8) {
    match dir {
        EdgeDir::Left => (k as u8, b as u8),
        EdgeDir::Right => ((49 - k) as u8, b as u8),
        EdgeDir::Top => (b as u8, k as u8),
        EdgeDir::Bottom => (b as u8, (49 - k) as u8),
    }
}

/// In the room without exits, the tile is connected to the centre.
pub open spec fn joined(bare: SimTerrain, tile: (u8, u8)) -> bool {
    reachable(passable(bare), (25, 25), tile)
}

/// The channel from place `b` of an edge runs over the tile: straight in to the first tile that is
/// connected to the centre without it, or, where there is none that way, 25 steps in and then
/// towards the middle to the first such tile.
pub open spec fn on_channel(bare: SimTerrain, dir: EdgeDir, b: int, tile: (u8, u8)) -> bool {
    if exists|k: int| 1 <= k <= 49 && joined(bare, #[trigger] from_edge(dir, b, k)) {
        exists|d: int|
            0 <= d <= 49 && tile == #[trigger] from_edge(dir, b, d) && (forall|k: int|
                1 <= k <= d ==> !joined(bare, #[trigger] from_edge(dir, b, k)))
    } else {
        ||| exists|d: int| 0 <= d <= 25 && tile == #[trigger] from_edge(dir, b, d)
        ||| exists|c: int|
            (b <= c <= 25 || 25 <= c <= b) && tile == #[trigger] from_edge(dir, c, 25) && (
            forall|m: int|
                b <= m <= c || c <= m <= b ==> !joined(bare, #[trigger] from_edge(dir, m, 25)))
    }
}

proof fn lemma_joined(bare: SimTerrain, seed: u32, params: TerrainGenParams, x: int, y: int)
    requires
        generated(bare, seed, params, no_exits()),
        inside(x, y),
    ensures
        joined(bare, (x as u8, y as u8)) == main_region(cave(seed, params))(x, y),
{
    let (walls, hollow) = (walls_of(seed, params, no_exits()), cave(seed, params));
    assert forall|a: int, b: int| #[trigger] walls(a, b) == hollow(a, b) by {
        lemma_bare(seed, params, a, b);
    }
    assert(tiles_of(walls) =~= tiles_of(hollow));
    lemma_fills_agree(cave(seed, params), bare, (25, 25), (x as u8, y as u8));
}

proof fn lemma_on_channel(
    bare: SimTerrain,
    seed: u32,
    params: TerrainGenParams,
    dir: EdgeDir,
    b: int,
    tile: (u8, u8),
)
    requires
        generated(bare, seed, params, no_exits()),
        0 <= b < 50,
        in_room(tile),
    ensures
        on_channel(bare, dir, b, tile) == carves(
            main_region(cave(seed, params)),
            dir,
            b,
            tile.0 as int,
            tile.1 as int,
        ),
{
    let region = main_region(cave(seed, params));
    let (x, y) = (tile.0 as int, tile.1 as int);
    let (a, deep) = (along(dir, x, y), depth(dir, x, y));
    assert forall|c: int, k: int| 0 <= c < 50 && 0 <= k < 50 implies joined(
        bare,
        #[trigger] from_edge(dir, c, k),
    ) == region(inward(dir, c, k).0, inward(dir, c, k).1) by {
        lemma_joined(bare, seed, params, inward(dir, c, k).0, inward(dir, c, k).1);
    }
    assert(tile == from_edge(dir, a, deep));
    assert forall|k: int| 0 <= k < 50 implies joined(bare, from_edge(dir, b, k)) == region(
        (#[trigger] inward(dir, b, k)).0,
        inward(dir, b, k).1,
    ) by {
        let t = from_edge(dir, b, k);
    }
    assert forall|c: int| 0 <= c < 50 implies joined(bare, from_edge(dir, c, 25)) == region(
        (#[trigger] inward(dir, c, 25)).0,
        inward(dir, c, 25).1,
    ) by {
        let t = from_edge(dir, c, 25);
    }
    if meets(region, dir, b) {
        let k = choose|k: int|
            1 <= k <= 49 && region((#[trigger] inward(dir, b, k)).0, inward(dir, b, k).1);
        assert(joined(bare, from_edge(dir, b, k)));
    }
    if exists|k: int| 1 <= k <= 49 && joined(bare, #[trigger] from_edge(dir, b, k)) {
        let k = choose|k: int| 1 <= k <= 49 && joined(bare, #[trigger] from_edge(dir, b, k));
        let t = inward(dir, b, k);
        assert(meets(region, dir, b));
        if a == b && clear_way(region, dir, b, deep) {
            assert forall|j: int| 1 <= j <= deep implies !joined(
                bare,
                #[trigger] from_edge(dir, b, j),
            ) by {
                let t = inward(dir, b, j);
            }
        }
        if on_channel(bare, dir, b, tile) {
            let d = choose|d: int|
                0 <= d <= 49 && tile == #[trigger] from_edge(dir, b, d) && (forall|k: int|
                    1 <= k <= d ==> !joined(bare, #[trigger] from_edge(dir, b, k)));
            assert(d == deep && a == b);
            assert forall|j: int| 1 <= j <= deep implies !region(
                (#[trigger] inward(dir, b, j)).0,
                inward(dir, b, j).1,
            ) by {
                let t = from_edge(dir, b, j);
            }
        }
    } else {
        if deep == 25 && (b <= a <= 25 || 25 <= a <= b) && clear_turn(region, dir, b, a) {
            assert forall|m: int| b <= m <= a || a <= m <= b implies !joined(
                bare,
                #[trigger] from_edge(dir, m, 25),
            ) by {
                let t = inward(dir, m, 25);
            }
            assert(tile == from_edge(dir, a, 25));
        }
        if a == b && deep <= 25 {
            assert(tile == from_edge(dir, b, deep));
        }
        if exists|c: int|
            (b <= c <= 25 || 25 <= c <= b) && tile == #[trigger] from_edge(dir, c, 25) && (
            forall|m: int|
                b <= m <= c || c <= m <= b ==> !joined(bare, #[trigger] from_edge(dir, m, 25))) {
            let c = choose|c: int|
                (b <= c <= 25 || 25 <= c <= b) && tile == #[trigger] from_edge(dir, c, 25) && (
                forall|m: int|
                    b <= m <= c || c <= m <= b ==> !joined(bare, #[trigger] from_edge(dir, m, 25)));
            assert(c == a && deep == 25);
            assert forall|m: int| b <= m <= a || a <= m <= b implies !region(
                (#[trigger] inward(dir, m, 25)).0,
                inward(dir, m, 25).1,
            ) by {
                let t = from_edge(dir, m, 25);
            }
        }
    }
}

/// Exits open what their channels run over, and nothing else: a tile of the room is open exactly if
/// it is open without exits, or some tile of some exit range has its channel run over it.
pub proof fn lemma_exits_open_channels(
    terrain: SimTerrain,
    bare: SimTerrain,
    seed: u32,
    params: TerrainGenParams,
    edges: Seq<(EdgeDir, u8, u8)>,
    tile: (u8, u8),
)
    requires
        generated(terrain, seed, params, edges),
        generated(bare, seed, params, no_exits()),
        forall|i: int| 0 <= i < edges.len() ==> (#[trigger] edges[i]).2 < 50,
        in_room(tile),
    ensures
        !terrain.walls@.contains(tile) <==> !bare.walls@.contains(tile) || exists|i: int, b: int|
            0 <= i < edges.len() && edges[i].1 <= b <= edges[i].2 && #[trigger] on_channel(
                bare,
                (#[trigger] edges[i]).0,
                b,
                tile,
            ),
{
    let region = main_region(cave(seed, params));
    let (x, y) = (tile.0 as int, tile.1 as int);
    lemma_bare(seed, params, x, y);
    if carved_by_any(region, edges, x, y) {
        let i = choose|i: int| 0 <= i < edges.len() && carved(region, #[trigger] edges[i], x, y);
        let b = choose|b: int|
            edges[i].1 <= b <= edges[i].2 && #[trigger] carves(region, edges[i].0, b, x, y);
        lemma_on_channel(bare, seed, params, edges[i].0, b, tile);
        assert(on_channel(bare, edges[i].0, b, tile));
    }
    if exists|i: int, b: int|
        0 <= i < edges.len() && edges[i].1 <= b <= edges[i].2 && #[trigger] on_channel(
            bare,
            (#[trigger] edges[i]).0,
            b,
            tile,
        ) {
        let (i, b) = choose|i: int, b: int|
            0 <= i < edges.len() && edges[i].1 <= b <= edges[i].2 && #[trigger] on_channel(
                bare,
                (#[trigger] edges[i]).0,
                b,
                tile,
            );
        lemma_on_channel(bare, seed, params, edges[i].0, b, tile);
        assert(carves(region, edges[i].0, b, x, y));
        assert(carved(region, edges[i], x, y));
    }
}

/// The open tiles of a room that come before a tile, row by row.
pub open spec fn open_tiles_before(terrain: SimTerrain, tile: (u8, u8)) -> Set<(u8, u8)> {
    Set::new(
        |t: (u8, u8)|
            t.0 < 50 && t.1 < 50 && !terrain.walls@.contains(t) && (t.1 < tile.1 || t.1 == tile.1
                && t.0 < tile.0),
    )
}

spec fn open_below(plan: spec_fn(int, int) -> bool, n: int) -> Set<(u8, u8)> {
    Set::new(
        |t: (u8, u8)|
            in_room(t) && !plan(t.0 as int, t.1 as int) && 50 * t.1 + t.0 < n,
    )
}

proof fn lemma_open_below(plan: spec_fn(int, int) -> bool, n: int)
    requires
        0 <= n <= 2500,
    ensures
        open_below(plan, n).finite(),
        open_below(plan, n).len() == open_before(plan, n),
    decreases n,
{
    if n == 0 {
        assert(open_below(plan, 0) =~= Set::empty());
    } else {
        lemma_open_below(plan, n - 1);
        let (x, y) = ((n - 1) % 50, (n - 1) / 50);
        let tile = (x as u8, y as u8);
        assert(50 * y + x == n - 1 && 0 <= x < 50 && 0 <= y < 50);
        if plan(x, y) {
            assert(open_below(plan, n) =~= open_below(plan, n - 1));
        } else {
            assert(open_below(plan, n) =~= open_below(plan, n - 1).insert(tile));
        }
    }
}

/// After the 48 × 48 draws of the fill, each open tile takes one draw, row by row, and is swamp if
/// that falls below the swamp fill.
pub proof fn lemma_swamps_take_draws(
    terrain: SimTerrain,
    seed: u32,
    params: TerrainGenParams,
    edges: Seq<(EdgeDir, u8, u8)>,
    tile: (u8, u8),
)
    requires
        generated(terrain, seed, params, edges),
        in_room(tile),
    ensures
        terrain.swamps@.contains(tile) <==> !terrain.walls@.contains(tile) && scaled(
            draw(seed_state(seed), 2304 + open_tiles_before(terrain, tile).len()),
            0,
            1000,
        ) < params.swamp_fill_permille,
{
    let plan = walls_of(seed, params, edges);
    let n = 50 * tile.1 + tile.0;
    lemma_open_below(plan, n);
    assert(open_below(plan, n) =~= open_tiles_before(terrain, tile));
    lemma_stream_resumes(seed_state(seed), 2304, open_before(plan, n));
}

/// The seam of two rooms has its middle at 8 to 41, by the hash of their ids modulo 34, and reaches
/// 1 to 3 tiles each way, by the hash shifted by 20 modulo 3.
pub proof fn lemma_seam_from_hash(low: u32, high: u32)
    requires
        low <= high,
    ensures
        ({
            let s = (low as u64).wrapping_mul(0x9E37_79B9_7F4A_7C15) ^ (high as u64).wrapping_mul(
                0xC2B2_AE3D_27D4_EB4F,
            );
            let h = s ^ (s >> 31);
            &&& seam(low, high) == seam(high, low)
            &&& seam(low, high).0 + seam(low, high).1 == 2 * (8 + h % 34)
            &&& seam(low, high).1 - seam(low, high).0 == 2 * (1 + (h >> 20) % 3)
        }),
{
}

/// The room across an edge is the next one on the map that way; where the map ends there is none.
pub proof fn lemma_across_is_next(room: RoomName, dir: EdgeDir)
    ensures
        ({
            let (x, y) = (room.packed as int / 256, room.packed as int % 256);
            match dir {
                EdgeDir::Left => if x == 0 {
                    across(room, dir) is None
                } else {
                    across(room, dir) is Some && across(room, dir)->0.packed == 256 * (x - 1) + y
                },
                EdgeDir::Right => if x == 255 {
                    across(room, dir) is None
                } else {
                    across(room, dir) is Some && across(room, dir)->0.packed == 256 * (x + 1) + y
                },
                EdgeDir::Top => if y == 0 {
                    across(room, dir) is None
                } else {
                    across(room, dir) is Some && across(room, dir)->0.packed == 256 * x + y - 1
                },
                EdgeDir::Bottom => if y == 255 {
                    across(room, dir) is None
                } else {
                    across(room, dir) is Some && across(room, dir)->0.packed == 256 * x + y + 1
                },
            }
        }),
        room_number(room) == room.packed * 65536 + 25 * 256 + 25,
{
}

} // verus!
