//! What generated terrain guarantees: sealed borders, exits that are open and connected to the
//! centre, and exits of adjacent rooms that meet.

use crate::flood::{
    in_room, lemma_reach_grows, lemma_reach_start, lemma_reach_step, reachable, touching,
};
use crate::grid::inside;
use crate::position::{Position, RoomName};
use crate::rng::seed_state;
use crate::terrain::SimTerrain;
use crate::terrain_gen::{
    across, along, band, bands, carved, carved_by_any, carves, cave, clear_turn, clear_way, depth,
    exit_list, filled, generated, inward, main_region, meets, mouth, mouths, on_border, open_in,
    passable, room_number, seam, smoothed, tiles_of, towards_middle, walls_of, with_exit, EdgeDir,
    Exits, TerrainGenParams,
};
use crate::tick::exits_to;
use vstd::prelude::*;

verus! {

/// The tile at the given coordinates.
pub open spec fn tile_at(at: (int, int)) -> (u8, u8) {
    (at.0 as u8, at.1 as u8)
}

/// No exit range takes in a corner.
pub open spec fn clear_of_corners(edges: Seq<(EdgeDir, u8, u8)>) -> bool {
    forall|i: int|
        0 <= i < edges.len() && (#[trigger] edges[i]).1 <= edges[i].2 ==> 1 <= edges[i].1
            && edges[i].2 <= 48
}

/// The tile lies on the edge itself, within the exit range.
pub open spec fn in_range(edge: (EdgeDir, u8, u8), x: int, y: int) -> bool {
    edge.1 <= along(edge.0, x, y) <= edge.2 && depth(edge.0, x, y) == 0
}

/// Walls and swamps are disjoint and inside the room, and no road is laid.
pub proof fn lemma_layers_apart(
    terrain: SimTerrain,
    seed: u32,
    params: TerrainGenParams,
    edges: Seq<(EdgeDir, u8, u8)>,
    tile: (u8, u8),
)
    requires
        generated(terrain, seed, params, edges),
    ensures
        terrain.walls@.contains(tile) ==> in_room(tile) && !terrain.swamps@.contains(tile),
        terrain.swamps@.contains(tile) ==> in_room(tile),
        !terrain.roads@.contains(tile),
{
}

/// Terrain is determined by the seed, the parameters and the exit ranges.
pub proof fn lemma_generation_deterministic(
    a: SimTerrain,
    b: SimTerrain,
    seed: u32,
    params: TerrainGenParams,
    edges: Seq<(EdgeDir, u8, u8)>,
)
    requires
        generated(a, seed, params, edges),
        generated(b, seed, params, edges),
    ensures
        a.walls@ == b.walls@,
        a.swamps@ == b.swamps@,
        a.roads@ == b.roads@,
{
}

/// The nine tiles around the room centre belong to the main region.
proof fn lemma_centre_region(seed: u32, params: TerrainGenParams, x: int, y: int)
    requires
        24 <= x <= 26,
        24 <= y <= 26,
    ensures
        main_region(cave(seed, params))(x, y),
{
    let open = open_in(cave(seed, params));
    let centre = (25u8, 25u8);
    let tile = (x as u8, y as u8);
    lemma_reach_start(open, centre);
    if tile != centre {
        lemma_reach_step(open, centre, centre, tile);
    }
}

/// The nine tiles around the room centre are open.
pub proof fn lemma_centre_open(
    terrain: SimTerrain,
    seed: u32,
    params: TerrainGenParams,
    edges: Seq<(EdgeDir, u8, u8)>,
    tile: (u8, u8),
)
    requires
        generated(terrain, seed, params, edges),
        24 <= tile.0 <= 26,
        24 <= tile.1 <= 26,
    ensures
        !terrain.walls@.contains(tile),
{
}

proof fn lemma_border_filled(state: u64, permille: u32, n: nat, x: int, y: int)
    requires
        on_border(x, y),
    ensures
        smoothed(filled(state, permille), n)(x, y),
    decreases n,
{
    if n > 0 {
        lemma_border_filled(state, permille, (n - 1) as nat, x, y);
    }
}

/// The border is wall but for the exits: a border tile is open exactly if it lies in an exit range
/// of its edge.
pub proof fn lemma_border_openings(
    terrain: SimTerrain,
    seed: u32,
    params: TerrainGenParams,
    edges: Seq<(EdgeDir, u8, u8)>,
    tile: (u8, u8),
)
    requires
        generated(terrain, seed, params, edges),
        clear_of_corners(edges),
        in_room(tile),
        on_border(tile.0 as int, tile.1 as int),
    ensures
        !terrain.walls@.contains(tile) <==> exists|i: int|
            0 <= i < edges.len() && in_range(
                #[trigger] edges[i],
                tile.0 as int,
                tile.1 as int,
            ),
{
    let (x, y) = (tile.0 as int, tile.1 as int);
    let region = main_region(cave(seed, params));
    lemma_border_filled(
        seed_state(seed),
        params.wall_fill_permille,
        params.smooth_iters as nat,
        x,
        y,
    );
    assert(terrain.walls@.contains(tile) <==> !carved_by_any(region, edges, x, y));
    assert forall|i: int| 0 <= i < edges.len() implies carved(region, #[trigger] edges[i], x, y)
        == in_range(edges[i], x, y) by {
        let edge = edges[i];
        let (a, deep) = (along(edge.0, x, y), depth(edge.0, x, y));
        if carved(region, edge, x, y) {
            let b = choose|b: int|
                edge.1 <= b <= edge.2 && #[trigger] carves(region, edge.0, b, x, y);
            assert(meets(region, edge.0, b) == !clear_way(region, edge.0, b, 49));
        }
        if in_range(edge, x, y) {
            assert(carves(region, edge.0, a, x, y));
        }
    }
    if carved_by_any(region, edges, x, y) {
        let i = choose|i: int| 0 <= i < edges.len() && carved(region, #[trigger] edges[i], x, y);
        assert(in_range(edges[i], x, y));
    }
    if exists|i: int| 0 <= i < edges.len() && in_range(#[trigger] edges[i], x, y) {
        let i = choose|i: int| 0 <= i < edges.len() && in_range(#[trigger] edges[i], x, y);
        assert(carved(region, edges[i], x, y));
    }
}

/// A tile of a channel is open.
proof fn lemma_channel_open(
    terrain: SimTerrain,
    seed: u32,
    params: TerrainGenParams,
    edges: Seq<(EdgeDir, u8, u8)>,
    i: int,
    b: int,
    at: (int, int),
)
    requires
        generated(terrain, seed, params, edges),
        0 <= i < edges.len(),
        edges[i].1 <= b <= edges[i].2,
        inside(at.0, at.1),
        carves(main_region(cave(seed, params)), edges[i].0, b, at.0, at.1),
    ensures
        !terrain.walls@.contains(tile_at(at)),
{
    assert(carved(main_region(cave(seed, params)), edges[i], at.0, at.1));
    assert(carved_by_any(main_region(cave(seed, params)), edges, at.0, at.1));
    assert(!walls_of(seed, params, edges)(at.0, at.1));
}

/// Every tile of an exit range is open.
pub proof fn lemma_exit_open(
    terrain: SimTerrain,
    seed: u32,
    params: TerrainGenParams,
    edges: Seq<(EdgeDir, u8, u8)>,
    i: int,
    b: int,
)
    requires
        generated(terrain, seed, params, edges),
        0 <= i < edges.len(),
        edges[i].2 < 50,
        edges[i].1 <= b <= edges[i].2,
    ensures
        !terrain.walls@.contains(tile_at(inward(edges[i].0, b, 0))),
{
    lemma_channel_open(terrain, seed, params, edges, i, b, inward(edges[i].0, b, 0));
}

/// Where the way inward meets the region, it does so for the first time somewhere.
proof fn lemma_first_meeting(
    region: spec_fn(int, int) -> bool,
    dir: EdgeDir,
    b: int,
    k: int,
) -> (first: int)
    requires
        1 <= k <= 49,
        region(inward(dir, b, k).0, inward(dir, b, k).1),
    ensures
        1 <= first <= k,
        region(inward(dir, b, first).0, inward(dir, b, first).1),
        clear_way(region, dir, b, first - 1),
    decreases k,
{
    if clear_way(region, dir, b, k - 1) {
        k
    } else {
        let earlier = choose|j: int|
            1 <= j <= k - 1 && region((#[trigger] inward(dir, b, j)).0, inward(dir, b, j).1);
        lemma_first_meeting(region, dir, b, earlier)
    }
}

/// The centre reaches the main region over the open tiles of the finished room.
proof fn lemma_region_reached(
    terrain: SimTerrain,
    seed: u32,
    params: TerrainGenParams,
    edges: Seq<(EdgeDir, u8, u8)>,
    at: (int, int),
)
    requires
        generated(terrain, seed, params, edges),
        main_region(cave(seed, params))(at.0, at.1),
    ensures
        reachable(passable(terrain), (25, 25), tile_at(at)),
{
    let open = open_in(cave(seed, params));
    assert forall|t: (u8, u8)| in_room(t) && #[trigger] open(t) implies passable(terrain)(t) by {}
    lemma_reach_grows(open, passable(terrain), (25, 25), tile_at(at));
}

/// What reaches a tile on the straight part of a channel reaches the exit tile.
proof fn lemma_straight_back(
    terrain: SimTerrain,
    seed: u32,
    params: TerrainGenParams,
    edges: Seq<(EdgeDir, u8, u8)>,
    i: int,
    b: int,
    deep: int,
)
    requires
        generated(terrain, seed, params, edges),
        0 <= i < edges.len(),
        edges[i].2 < 50,
        edges[i].1 <= b <= edges[i].2,
        0 <= deep <= 49,
        deep > 25 ==> meets(main_region(cave(seed, params)), edges[i].0, b),
        clear_way(main_region(cave(seed, params)), edges[i].0, b, deep - 1),
        reachable(passable(terrain), (25, 25), tile_at(inward(edges[i].0, b, deep))),
    ensures
        reachable(passable(terrain), (25, 25), tile_at(inward(edges[i].0, b, 0))),
    decreases deep,
{
    if deep > 0 {
        let dir = edges[i].0;
        let (from, next) = (tile_at(inward(dir, b, deep)), tile_at(inward(dir, b, deep - 1)));
        lemma_channel_open(terrain, seed, params, edges, i, b, inward(dir, b, deep - 1));
        assert(touching(from, next));
        lemma_reach_step(passable(terrain), (25, 25), from, next);
        lemma_straight_back(terrain, seed, params, edges, i, b, deep - 1);
    }
}

/// What reaches a tile on the bent part of a channel reaches its corner.
proof fn lemma_turn_back(
    terrain: SimTerrain,
    seed: u32,
    params: TerrainGenParams,
    edges: Seq<(EdgeDir, u8, u8)>,
    i: int,
    b: int,
    a: int,
)
    requires
        generated(terrain, seed, params, edges),
        0 <= i < edges.len(),
        edges[i].2 < 50,
        edges[i].1 <= b <= edges[i].2,
        !meets(main_region(cave(seed, params)), edges[i].0, b),
        towards_middle(b, a),
        a == b || clear_turn(
            main_region(cave(seed, params)),
            edges[i].0,
            b,
            if a > b {
                a - 1
            } else {
                a + 1
            },
        ),
        reachable(passable(terrain), (25, 25), tile_at(inward(edges[i].0, a, 25))),
    ensures
        reachable(passable(terrain), (25, 25), tile_at(inward(edges[i].0, b, 25))),
    decreases
            if a > b {
                a - b
            } else {
                b - a
            },
{
    if a != b {
        let dir = edges[i].0;
        let nearer = if a > b {
            a - 1
        } else {
            a + 1
        };
        let (from, next) = (tile_at(inward(dir, a, 25)), tile_at(inward(dir, nearer, 25)));
        lemma_channel_open(terrain, seed, params, edges, i, b, inward(dir, nearer, 25));
        assert(touching(from, next));
        lemma_reach_step(passable(terrain), (25, 25), from, next);
        lemma_turn_back(terrain, seed, params, edges, i, b, nearer);
    }
}

/// The middle line meets the region for the first time somewhere on its way to the middle.
proof fn lemma_first_on_turn(
    region: spec_fn(int, int) -> bool,
    dir: EdgeDir,
    b: int,
    a: int,
) -> (first: int)
    requires
        towards_middle(b, a),
        a != b,
        !region(inward(dir, b, 25).0, inward(dir, b, 25).1),
        region(inward(dir, a, 25).0, inward(dir, a, 25).1),
    ensures
        towards_middle(b, first),
        first != b,
        region(inward(dir, first, 25).0, inward(dir, first, 25).1),
        clear_turn(
            region,
            dir,
            b,
            if first > b {
                first - 1
            } else {
                first + 1
            },
        ),
    decreases
            if a > b {
                a - b
            } else {
                b - a
            },
{
    let nearer = if a > b {
        a - 1
    } else {
        a + 1
    };
    if clear_turn(region, dir, b, nearer) {
        a
    } else {
        let c = choose|c: int|
            (b <= c <= nearer || nearer <= c <= b) && region(
                (#[trigger] inward(dir, c, 25)).0,
                inward(dir, c, 25).1,
            );
        lemma_first_on_turn(region, dir, b, c)
    }
}

/// Every exit is connected to the room centre.
pub proof fn lemma_exit_connected(
    terrain: SimTerrain,
    seed: u32,
    params: TerrainGenParams,
    edges: Seq<(EdgeDir, u8, u8)>,
    i: int,
    b: int,
)
    requires
        generated(terrain, seed, params, edges),
        0 <= i < edges.len(),
        edges[i].2 < 50,
        edges[i].1 <= b <= edges[i].2,
    ensures
        reachable(passable(terrain), (25, 25), tile_at(inward(edges[i].0, b, 0))),
{
    let dir = edges[i].0;
    let region = main_region(cave(seed, params));
    if meets(region, dir, b) {
        let k = choose|k: int|
            1 <= k <= 49 && region((#[trigger] inward(dir, b, k)).0, inward(dir, b, k).1);
        let first = lemma_first_meeting(region, dir, b, k);
        lemma_region_reached(terrain, seed, params, edges, inward(dir, b, first));
        lemma_straight_back(terrain, seed, params, edges, i, b, first);
    } else {
        let middle = inward(dir, 25, 25);
        lemma_centre_region(seed, params, middle.0, middle.1);
        assert(!region(inward(dir, b, 25).0, inward(dir, b, 25).1));
        let first = lemma_first_on_turn(region, dir, b, 25);
        lemma_region_reached(terrain, seed, params, edges, inward(dir, first, 25));
        lemma_turn_back(terrain, seed, params, edges, i, b, first);
        lemma_straight_back(terrain, seed, params, edges, i, b, 25);
    }
}

/// Exit lists join: a room with the exits of two lists has the walls that both rooms would have.
/// More exits only open tiles, and their order does not matter.
pub proof fn lemma_exits_join(
    seed: u32,
    params: TerrainGenParams,
    e1: Seq<(EdgeDir, u8, u8)>,
    e2: Seq<(EdgeDir, u8, u8)>,
)
    ensures
        forall|x: int, y: int| #[trigger]
            walls_of(seed, params, e1 + e2)(x, y) == (walls_of(seed, params, e1)(x, y) && walls_of(
                seed,
                params,
                e2,
            )(x, y)),
        tiles_of(walls_of(seed, params, e1 + e2)) == tiles_of(
            walls_of(seed, params, e1),
        ).intersect(tiles_of(walls_of(seed, params, e2))),
        tiles_of(walls_of(seed, params, e1 + e2)) == tiles_of(walls_of(seed, params, e2 + e1)),
{
    let region = main_region(cave(seed, params));
    assert forall|x: int, y: int| #[trigger] carved_by_any(region, e1 + e2, x, y) == (
    carved_by_any(region, e1, x, y) || carved_by_any(region, e2, x, y)) by {
        lemma_carving_joins(region, e1, e2, x, y);
    }
    assert forall|x: int, y: int| #[trigger] carved_by_any(region, e2 + e1, x, y) == (
    carved_by_any(region, e1, x, y) || carved_by_any(region, e2, x, y)) by {
        lemma_carving_joins(region, e2, e1, x, y);
    }
    assert(tiles_of(walls_of(seed, params, e1 + e2)) =~= tiles_of(
        walls_of(seed, params, e1),
    ).intersect(tiles_of(walls_of(seed, params, e2))));
    assert(tiles_of(walls_of(seed, params, e1 + e2)) =~= tiles_of(
        walls_of(seed, params, e2 + e1),
    ));
}

proof fn lemma_carving_joins(
    region: spec_fn(int, int) -> bool,
    e1: Seq<(EdgeDir, u8, u8)>,
    e2: Seq<(EdgeDir, u8, u8)>,
    x: int,
    y: int,
)
    ensures
        carved_by_any(region, e1 + e2, x, y) == (carved_by_any(region, e1, x, y) || carved_by_any(
            region,
            e2,
            x,
            y,
        )),
{
    let both = e1 + e2;
    if carved_by_any(region, both, x, y) {
        let i = choose|i: int| 0 <= i < both.len() && carved(region, #[trigger] both[i], x, y);
        if i < e1.len() {
            assert(carved(region, e1[i], x, y));
        } else {
            assert(carved(region, e2[i - e1.len()], x, y));
        }
    }
    if carved_by_any(region, e1, x, y) {
        let i = choose|i: int| 0 <= i < e1.len() && carved(region, #[trigger] e1[i], x, y);
        assert(carved(region, both[i], x, y));
    }
    if carved_by_any(region, e2, x, y) {
        let i = choose|i: int| 0 <= i < e2.len() && carved(region, #[trigger] e2[i], x, y);
        assert(carved(region, both[e1.len() + i], x, y));
    }
}

/// The list holds what was asked to be in it.
proof fn lemma_exit_list(
    left: Option<(EdgeDir, u8, u8)>,
    right: Option<(EdgeDir, u8, u8)>,
    top: Option<(EdgeDir, u8, u8)>,
    bottom: Option<(EdgeDir, u8, u8)>,
    edge: (EdgeDir, u8, u8),
)
    ensures
        exit_list(left, right, top, bottom).contains(edge) <==> left == Some(edge) || right == Some(
            edge,
        ) || top == Some(edge) || bottom == Some(edge),
{
    let none = Seq::<(EdgeDir, u8, u8)>::empty();
    let one = with_exit(none, left);
    let two = with_exit(one, right);
    let three = with_exit(two, top);
    lemma_with_exit(none, left, edge);
    lemma_with_exit(one, right, edge);
    lemma_with_exit(two, top, edge);
    lemma_with_exit(three, bottom, edge);
}

proof fn lemma_with_exit(
    edges: Seq<(EdgeDir, u8, u8)>,
    exit: Option<(EdgeDir, u8, u8)>,
    edge: (EdgeDir, u8, u8),
)
    ensures
        with_exit(edges, exit).contains(edge) <==> edges.contains(edge) || exit == Some(edge),
{
    let longer = with_exit(edges, exit);
    if edges.contains(edge) {
        let i = choose|i: int| 0 <= i < edges.len() && edges[i] == edge;
        assert(longer[i] == edge);
    }
    if exit == Some(edge) {
        assert(longer[edges.len() as int] == edge);
    }
}

/// Which edges have an exit.
pub open spec fn enabled(exits: Exits, dir: EdgeDir) -> bool {
    match dir {
        EdgeDir::Left => exits.left,
        EdgeDir::Right => exits.right,
        EdgeDir::Top => exits.top,
        EdgeDir::Bottom => exits.bottom,
    }
}

/// The fixed bands are the tiles 24 to 26 of each requested edge.
pub proof fn lemma_bands(exits: Exits, edge: (EdgeDir, u8, u8))
    ensures
        bands(exits).contains(edge) <==> enabled(exits, edge.0) && edge.1 == 24 && edge.2 == 26,
{
    lemma_exit_list(
        band(exits.left, EdgeDir::Left),
        band(exits.right, EdgeDir::Right),
        band(exits.top, EdgeDir::Top),
        band(exits.bottom, EdgeDir::Bottom),
        edge,
    );
}

/// The exits of a room are the seams of its connected edges.
pub proof fn lemma_mouths(room: RoomName, connect: Exits, edge: (EdgeDir, u8, u8))
    ensures
        mouths(room, connect).contains(edge) <==> mouth(room, enabled(connect, edge.0), edge.0)
            == Some(edge),
        mouths(room, connect).contains(edge) <==> enabled(connect, edge.0) && across(room, edge.0)
            is Some && seam(room_number(room), room_number(across(room, edge.0)->0)) == (
            edge.1,
            edge.2,
        ),
{
    lemma_exit_list(
        mouth(room, connect.left, EdgeDir::Left),
        mouth(room, connect.right, EdgeDir::Right),
        mouth(room, connect.top, EdgeDir::Top),
        mouth(room, connect.bottom, EdgeDir::Bottom),
        edge,
    );
}

/// With fixed bands, every exit tile of a requested edge is connected to the room centre.
pub proof fn lemma_bands_connected(
    terrain: SimTerrain,
    seed: u32,
    params: TerrainGenParams,
    dir: EdgeDir,
    b: int,
)
    requires
        generated(terrain, seed, params, bands(params.exits)),
        enabled(params.exits, dir),
        24 <= b <= 26,
    ensures
        reachable(passable(terrain), (25, 25), tile_at(inward(dir, b, 0))),
{
    let edges = bands(params.exits);
    lemma_bands(params.exits, (dir, 24, 26));
    let i = choose|i: int| 0 <= i < edges.len() && edges[i] == (dir, 24u8, 26u8);
    lemma_exit_connected(terrain, seed, params, edges, i, b);
}

/// With fixed bands, a border tile is open exactly if it lies in the band of a requested edge: an
/// edge that was not requested is sealed.
pub proof fn lemma_bands_exact(
    terrain: SimTerrain,
    seed: u32,
    params: TerrainGenParams,
    tile: (u8, u8),
)
    requires
        generated(terrain, seed, params, bands(params.exits)),
        in_room(tile),
        on_border(tile.0 as int, tile.1 as int),
    ensures
        !terrain.walls@.contains(tile) <==> exists|dir: EdgeDir|
            #[trigger] enabled(params.exits, dir) && 24 <= along(dir, tile.0 as int, tile.1 as int)
                <= 26 && depth(dir, tile.0 as int, tile.1 as int) == 0,
{
    let (x, y) = (tile.0 as int, tile.1 as int);
    let edges = bands(params.exits);
    assert forall|i: int| 0 <= i < edges.len() implies enabled(
        params.exits,
        (#[trigger] edges[i]).0,
    ) && edges[i].1 == 24 && edges[i].2 == 26 by {
        lemma_bands(params.exits, edges[i]);
    }
    lemma_border_openings(terrain, seed, params, edges, tile);
    if !terrain.walls@.contains(tile) {
        let i = choose|i: int| 0 <= i < edges.len() && in_range(#[trigger] edges[i], x, y);
        assert(enabled(params.exits, edges[i].0));
    }
    if exists|dir: EdgeDir|
        #[trigger] enabled(params.exits, dir) && 24 <= along(dir, x, y) <= 26 && depth(dir, x, y)
            == 0 {
        let dir = choose|dir: EdgeDir|
            #[trigger] enabled(params.exits, dir) && 24 <= along(dir, x, y) <= 26 && depth(
                dir,
                x,
                y,
            ) == 0;
        lemma_bands(params.exits, (dir, 24, 26));
        let i = choose|i: int| 0 <= i < edges.len() && edges[i] == (dir, 24u8, 26u8);
        assert(in_range(edges[i], x, y));
    }
}

/// The edge across the room.
pub open spec fn opposite(dir: EdgeDir) -> EdgeDir {
    match dir {
        EdgeDir::Left => EdgeDir::Right,
        EdgeDir::Right => EdgeDir::Left,
        EdgeDir::Top => EdgeDir::Bottom,
        EdgeDir::Bottom => EdgeDir::Top,
    }
}

/// The seam of two rooms does not depend on their order.
pub proof fn lemma_seam_symmetric(id_a: u32, id_b: u32)
    ensures
        seam(id_a, id_b) == seam(id_b, id_a),
{
}

/// The seam of two rooms is 3 to 7 tiles wide and clear of the corners.
pub proof fn lemma_seam_clear(id_a: u32, id_b: u32)
    ensures
        5 <= seam(id_a, id_b).0,
        seam(id_a, id_b).1 <= 44,
        3 <= seam(id_a, id_b).1 - seam(id_a, id_b).0 + 1 <= 7,
{
}

/// The room across an edge has this room across its opposite edge.
pub proof fn lemma_across_back(room: RoomName, other: RoomName, dir: EdgeDir)
    requires
        across(room, dir) == Some(other),
    ensures
        across(other, opposite(dir)) == Some(room),
{
}

/// Different rooms have different ids.
pub proof fn lemma_room_ids_differ(a: RoomName, b: RoomName)
    requires
        a != b,
    ensures
        room_number(a) != room_number(b),
{
}

/// Rooms that connect across an edge both open the whole of their shared seam.
pub proof fn lemma_seams_align(
    near: SimTerrain,
    near_seed: u32,
    near_params: TerrainGenParams,
    near_exits: Exits,
    far: SimTerrain,
    far_seed: u32,
    far_params: TerrainGenParams,
    far_exits: Exits,
    room: RoomName,
    other: RoomName,
    dir: EdgeDir,
    b: int,
)
    requires
        across(room, dir) == Some(other),
        generated(near, near_seed, near_params, mouths(room, near_exits)),
        generated(far, far_seed, far_params, mouths(other, far_exits)),
        enabled(near_exits, dir),
        enabled(far_exits, opposite(dir)),
        in_seam(room, other, b),
    ensures
        !near.walls@.contains(tile_at(inward(dir, b, 0))),
        !far.walls@.contains(tile_at(inward(opposite(dir), b, 0))),
{
    lemma_mouth_open(near, near_seed, near_params, near_exits, room, other, dir, b);
    lemma_across_back(room, other, dir);
    lemma_seam_symmetric(room_number(room), room_number(other));
    lemma_mouth_open(far, far_seed, far_params, far_exits, other, room, opposite(dir), b);
}

/// A connected edge is open along the whole of its seam.
proof fn lemma_mouth_open(
    terrain: SimTerrain,
    seed: u32,
    params: TerrainGenParams,
    connect: Exits,
    room: RoomName,
    other: RoomName,
    dir: EdgeDir,
    b: int,
)
    requires
        across(room, dir) == Some(other),
        generated(terrain, seed, params, mouths(room, connect)),
        enabled(connect, dir),
        in_seam(room, other, b),
    ensures
        !terrain.walls@.contains(tile_at(inward(dir, b, 0))),
{
    let edges = mouths(room, connect);
    let range = seam(room_number(room), room_number(other));
    lemma_seam_clear(room_number(room), room_number(other));
    lemma_mouths(room, connect, (dir, range.0, range.1));
    let i = choose|i: int| 0 <= i < edges.len() && edges[i] == (dir, range.0, range.1);
    lemma_exit_open(terrain, seed, params, edges, i, b);
}

/// The exits of a room are clear of its corners.
proof fn lemma_mouths_clear(room: RoomName, connect: Exits)
    ensures
        clear_of_corners(mouths(room, connect)),
{
    let edges = mouths(room, connect);
    assert forall|i: int| 0 <= i < edges.len() implies 1 <= (#[trigger] edges[i]).1 && edges[i].2
        <= 48 by {
        let edge = edges[i];
        lemma_mouths(room, connect, edge);
        let other = across(room, edge.0)->0;
        lemma_seam_clear(room_number(room), room_number(other));
    }
}

/// Tile `b` lies in the seam of two rooms.
pub open spec fn in_seam(room: RoomName, other: RoomName, b: int) -> bool {
    seam(room_number(room), room_number(other)).0 <= b <= seam(
        room_number(room),
        room_number(other),
    ).1
}

/// A connected edge is open exactly along its seam.
pub proof fn lemma_edge_openings(
    terrain: SimTerrain,
    seed: u32,
    params: TerrainGenParams,
    connect: Exits,
    room: RoomName,
    other: RoomName,
    dir: EdgeDir,
    b: int,
)
    requires
        across(room, dir) == Some(other),
        generated(terrain, seed, params, mouths(room, connect)),
        enabled(connect, dir),
        0 <= b < 50,
    ensures
        !terrain.walls@.contains(tile_at(inward(dir, b, 0))) <==> in_seam(room, other, b),
{
    let edges = mouths(room, connect);
    let tile = tile_at(inward(dir, b, 0));
    let (x, y) = (tile.0 as int, tile.1 as int);
    lemma_mouths_clear(room, connect);
    lemma_border_openings(terrain, seed, params, edges, tile);
    if !terrain.walls@.contains(tile) {
        let i = choose|i: int| 0 <= i < edges.len() && in_range(#[trigger] edges[i], x, y);
        lemma_mouths(room, connect, edges[i]);
        assert(edges[i].0 == dir);
    }
    if in_seam(room, other, b) {
        lemma_mouth_open(terrain, seed, params, connect, room, other, dir, b);
    }
}

/// An edge that is not connected, or that the map ends at, has no exit.
pub proof fn lemma_edge_sealed(
    terrain: SimTerrain,
    seed: u32,
    params: TerrainGenParams,
    connect: Exits,
    room: RoomName,
    dir: EdgeDir,
    b: int,
)
    requires
        generated(terrain, seed, params, mouths(room, connect)),
        !enabled(connect, dir) || across(room, dir) is None,
        0 <= b < 50,
    ensures
        terrain.walls@.contains(tile_at(inward(dir, b, 0))),
{
    let edges = mouths(room, connect);
    let tile = tile_at(inward(dir, b, 0));
    let (x, y) = (tile.0 as int, tile.1 as int);
    lemma_mouths_clear(room, connect);
    lemma_border_openings(terrain, seed, params, edges, tile);
    if !terrain.walls@.contains(tile) {
        let i = choose|i: int| 0 <= i < edges.len() && in_range(#[trigger] edges[i], x, y);
        lemma_mouths(room, connect, edges[i]);
        assert(edges[i].0 == dir);
    }
}

/// Rooms that connect across an edge are open at exactly the same tiles of it: those of their seam.
pub proof fn lemma_seams_identical(
    near: SimTerrain,
    near_seed: u32,
    near_params: TerrainGenParams,
    near_exits: Exits,
    far: SimTerrain,
    far_seed: u32,
    far_params: TerrainGenParams,
    far_exits: Exits,
    room: RoomName,
    other: RoomName,
    dir: EdgeDir,
    b: int,
)
    requires
        across(room, dir) == Some(other),
        generated(near, near_seed, near_params, mouths(room, near_exits)),
        generated(far, far_seed, far_params, mouths(other, far_exits)),
        enabled(near_exits, dir),
        enabled(far_exits, opposite(dir)),
        0 <= b < 50,
    ensures
        !near.walls@.contains(tile_at(inward(dir, b, 0))) <==> in_seam(room, other, b),
        !far.walls@.contains(tile_at(inward(opposite(dir), b, 0))) <==> in_seam(room, other, b),
{
    lemma_edge_openings(near, near_seed, near_params, near_exits, room, other, dir, b);
    lemma_across_back(room, other, dir);
    lemma_seam_symmetric(room_number(room), room_number(other));
    lemma_edge_openings(far, far_seed, far_params, far_exits, other, room, opposite(dir), b);
}

/// A creep that exits a generated room through a connected edge lands on open ground.
pub proof fn lemma_exit_lands_open(
    near: SimTerrain,
    near_seed: u32,
    near_params: TerrainGenParams,
    near_exits: Exits,
    far: SimTerrain,
    far_seed: u32,
    far_params: TerrainGenParams,
    far_exits: Exits,
    room: RoomName,
    other: RoomName,
    dir: EdgeDir,
    b: int,
    to: Position,
)
    requires
        across(room, dir) == Some(other),
        generated(near, near_seed, near_params, mouths(room, near_exits)),
        generated(far, far_seed, far_params, mouths(other, far_exits)),
        enabled(near_exits, dir),
        enabled(far_exits, opposite(dir)),
        0 <= b < 50,
        !near.walls@.contains(tile_at(inward(dir, b, 0))),
        ({
            let from = tile_at(inward(dir, b, 0));
            exits_to(Position { x: from.0, y: from.1, room }, to)
        }),
    ensures
        to.room == other,
        !far.walls@.contains((to.x, to.y)),
{
    lemma_edge_openings(near, near_seed, near_params, near_exits, room, other, dir, b);
    lemma_seam_clear(room_number(room), room_number(other));
    lemma_seams_align(
        near,
        near_seed,
        near_params,
        near_exits,
        far,
        far_seed,
        far_params,
        far_exits,
        room,
        other,
        dir,
        b,
    );
    lemma_exit_crosses(room, other, dir, b, to);
}

/// The exit relocation carries a creep from an edge tile to the facing tile of the room across.
proof fn lemma_exit_crosses(room: RoomName, other: RoomName, dir: EdgeDir, b: int, to: Position)
    requires
        across(room, dir) == Some(other),
        1 <= b <= 48,
        ({
            let from = tile_at(inward(dir, b, 0));
            exits_to(Position { x: from.0, y: from.1, room }, to)
        }),
    ensures
        to.room == other,
        (to.x, to.y) == tile_at(inward(opposite(dir), b, 0)),
{
}

/// Rooms with fixed bands chain into a corridor: a creep that leaves one through a band it shares
/// with the next comes from that room's centre and lands within reach of the next one's.
pub proof fn lemma_bands_chain(
    near: SimTerrain,
    near_seed: u32,
    near_params: TerrainGenParams,
    far: SimTerrain,
    far_seed: u32,
    far_params: TerrainGenParams,
    room: RoomName,
    other: RoomName,
    dir: EdgeDir,
    b: int,
    to: Position,
)
    requires
        across(room, dir) == Some(other),
        generated(near, near_seed, near_params, bands(near_params.exits)),
        generated(far, far_seed, far_params, bands(far_params.exits)),
        enabled(near_params.exits, dir),
        enabled(far_params.exits, opposite(dir)),
        24 <= b <= 26,
        ({
            let from = tile_at(inward(dir, b, 0));
            exits_to(Position { x: from.0, y: from.1, room }, to)
        }),
    ensures
        reachable(passable(near), (25, 25), tile_at(inward(dir, b, 0))),
        to.room == other,
        reachable(passable(far), (25, 25), (to.x, to.y)),
{
    lemma_bands_connected(near, near_seed, near_params, dir, b);
    lemma_bands_connected(far, far_seed, far_params, opposite(dir), b);
    lemma_exit_crosses(room, other, dir, b, to);
}

} // verus!
