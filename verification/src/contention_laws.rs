//! Who gets a contested tile and who moves at all, told from the creeps, their wishes and the
//! ground.

use crate::body::{lemma_mobility_bounds, lemma_weight_bounds, Part};
use crate::body_laws::lemma_mobility_is_size;
use crate::movement::{
    affected, lemma_living_index, lemma_one_puller, living_index, mover_index, outranks, step_to,
    swaps, want_count, wins, Scene,
};
use crate::movement_laws::{
    ids_differ, lemma_drag_exists, lemma_losers_stay, lemma_moved_as, lemma_mover_index,
    lemma_mover_made, lemma_not_halted, lemma_occupants_leave, lemma_own_mover, lemma_place,
    lemma_reaches, makes, place,
};
use crate::position::Position;
use crate::tick_laws::ground;
use crate::world::{CreepId, SimCreep};
use vstd::prelude::*;

verus! {

/// Two tiles of the map are one, or touch, across room borders too.
pub open spec fn beside(a: Position, b: Position) -> bool {
    let dx = (50 * (a.room.packed as int / 256) + a.x) - (50 * (b.room.packed as int / 256) + b.x);
    let dy = (50 * (a.room.packed as int % 256) + a.y) - (50 * (b.room.packed as int % 256) + b.y);
    -1 <= dx <= 1 && -1 <= dy <= 1
}

/// Creep `i` is there and alive.
pub open spec fn lives(scene: Scene, i: int) -> bool {
    0 <= i < scene.world.creeps.len() && scene.world.creeps[i].body.hits > 0
}

/// Creep `p` may drag creep `t`: it says so, both live, it asks to move, and they are beside each
/// other.
pub open spec fn can_drag(scene: Scene, p: int, t: int) -> bool {
    let (a, b) = (scene.world.creeps[p], scene.world.creeps[t]);
    &&& lives(scene, p)
    &&& lives(scene, t)
    &&& scene.pulls.contains_key(a.id)
    &&& scene.pulls[a.id] == b.id
    &&& scene.moves.contains_key(a.id)
    &&& beside(a.pos, b.pos)
}

/// Creep `p` drags creep `t`: of those that may, it has the lowest id.
pub open spec fn hauls(scene: Scene, p: int, t: int) -> bool {
    &&& can_drag(scene, p, t)
    &&& forall|q: int| #[trigger]
        can_drag(scene, q, t) ==> scene.world.creeps[p].id <= scene.world.creeps[q].id
}

/// Creep `t` is dragged.
pub open spec fn hauled(scene: Scene, t: int) -> bool {
    exists|p: int| can_drag(scene, p, t)
}

/// Creep `p` drags someone.
pub open spec fn hauling(scene: Scene, p: int) -> bool {
    exists|t: int| hauls(scene, p, t)
}

/// Some MOVE part of the creep works.
pub open spec fn has_legs(c: SimCreep) -> bool {
    exists|k: int|
        0 <= k < c.body.parts.len() && (#[trigger] c.body.parts[k]).part == Part::Move
            && c.body.hits_at(k) > 0
}

/// Creep `i` can walk to the tile: it lives, is not dragged, is rested, has a working MOVE part, and
/// the tile is one step away in the direction it asked for.
pub open spec fn walks_to(scene: Scene, i: int, tile: Position) -> bool {
    let c = scene.world.creeps[i];
    &&& lives(scene, i)
    &&& !hauled(scene, i)
    &&& c.fatigue == 0
    &&& has_legs(c)
    &&& scene.moves.contains_key(c.id)
    &&& step_to(c.pos, scene.moves[c.id]) == Some(tile)
}

/// Creep `t` can follow onto the tile: the creep that drags it stands there and can walk.
pub open spec fn hauled_to(scene: Scene, t: int, tile: Position) -> bool {
    exists|p: int, to: Position|
        #![trigger hauls(scene, p, t), walks_to(scene, p, to)]
        hauls(scene, p, t) && walks_to(scene, p, to) && scene.world.creeps[p].pos == tile
}

/// Creep `i` wants the tile, on its own or dragged.
pub open spec fn wants(scene: Scene, i: int, tile: Position) -> bool {
    walks_to(scene, i, tile) || hauled_to(scene, i, tile)
}

/// The creeps that want a tile.
pub open spec fn crowd(scene: Scene, tile: Position) -> Set<int> {
    Set::new(|i: int| wants(scene, i, tile))
}

/// Creep `i`, which wants the tile, would swap places with a creep there.
pub open spec fn swapping(scene: Scene, i: int, tile: Position) -> bool {
    exists|k: int|
        lives(scene, k) && scene.world.creeps[k].pos == tile && #[trigger] wants(
            scene,
            k,
            scene.world.creeps[i].pos,
        )
}

/// How pressing it is that creep `i` leaves for the tile: 100 in a swap, else the size of the crowd
/// that wants the tile it stands on.
pub open spec fn urgency(scene: Scene, i: int, tile: Position) -> int {
    if swapping(scene, i, tile) {
        100
    } else {
        crowd(scene, scene.world.creeps[i].pos).len() as int
    }
}

/// The weight that slows a creep in contention.
pub open spec fn burden(c: SimCreep) -> int {
    if c.weight() >= 1 {
        c.weight()
    } else {
        1
    }
}

/// Nothing about the ground keeps a creep off the tile.
pub open spec fn free_ground(scene: Scene, tile: Position) -> bool {
    !ground(scene.world, tile).walls@.contains((tile.x, tile.y))
}

proof fn lemma_index_of(scene: Scene, i: int)
    requires
        ids_differ(scene.world.creeps@),
        lives(scene, i),
    ensures
        scene.living(scene.world.creeps[i].id) == Some(i),
{
    let creeps = scene.world.creeps@;
    let id = creeps[i].id;
    lemma_living_index(creeps, id);
    assert(creeps[i].alive());
    let k = scene.living(id)->0;
    if k < i {
        assert(creeps[k].id != creeps[i].id);
    } else if i < k {
        assert(creeps[i].id != creeps[k].id);
    }
}

proof fn lemma_can_drag(scene: Scene, p: int, t: int)
    requires
        ids_differ(scene.world.creeps@),
        lives(scene, p),
        lives(scene, t),
    ensures
        can_drag(scene, p, t) <==> scene.may_pull(
            scene.world.creeps[p].id,
            scene.world.creeps[t].id,
        ),
{
    lemma_index_of(scene, p);
    lemma_index_of(scene, t);
}

/// A pull between ids is one between living creeps.
proof fn lemma_pull_ends(scene: Scene, puller: CreepId, target: CreepId) -> (ends: (int, int))
    requires
        ids_differ(scene.world.creeps@),
        scene.may_pull(puller, target),
    ensures
        can_drag(scene, ends.0, ends.1),
        scene.world.creeps[ends.0].id == puller,
        scene.world.creeps[ends.1].id == target,
        scene.living(puller) == Some(ends.0),
        scene.living(target) == Some(ends.1),
{
    lemma_living_index(scene.world.creeps@, puller);
    lemma_living_index(scene.world.creeps@, target);
    let (p, t) = (scene.living(puller)->0, scene.living(target)->0);
    lemma_can_drag(scene, p, t);
    (p, t)
}

proof fn lemma_hauls(scene: Scene, p: int, t: int)
    requires
        ids_differ(scene.world.creeps@),
        lives(scene, p),
        lives(scene, t),
    ensures
        hauls(scene, p, t) <==> scene.drags(scene.world.creeps[p].id, scene.world.creeps[t].id),
{
    let (a, b) = (scene.world.creeps[p].id, scene.world.creeps[t].id);
    lemma_can_drag(scene, p, t);
    if hauls(scene, p, t) {
        assert forall|other: CreepId| #[trigger] scene.may_pull(other, b) implies a <= other by {
            let ends = lemma_pull_ends(scene, other, b);
            lemma_index_of(scene, t);
            assert(can_drag(scene, ends.0, t));
        }
    }
    if scene.drags(a, b) {
        assert forall|q: int| #[trigger] can_drag(scene, q, t) implies a
            <= scene.world.creeps[q].id by {
            lemma_can_drag(scene, q, t);
        }
    }
}

/// A creep is dragged exactly if some creep may drag it, and then one of those does.
proof fn lemma_hauled(scene: Scene, t: int)
    requires
        ids_differ(scene.world.creeps@),
        lives(scene, t),
    ensures
        hauled(scene, t) <==> scene.is_dragged(scene.world.creeps[t].id),
        hauled(scene, t) ==> exists|p: int|
            hauls(scene, p, t) && scene.world.creeps[p].id == scene.puller_of(
                scene.world.creeps[t].id,
            ) && scene.living(scene.puller_of(scene.world.creeps[t].id)) == Some(p),
{
    let id = scene.world.creeps[t].id;
    if hauled(scene, t) {
        let q = choose|q: int| can_drag(scene, q, t);
        lemma_can_drag(scene, q, t);
        lemma_drag_exists(scene, scene.world.creeps[q].id, id);
    }
    if scene.is_dragged(id) {
        let puller = scene.puller_of(id);
        assert(scene.drags(puller, id));
        let ends = lemma_pull_ends(scene, puller, id);
        lemma_index_of(scene, t);
        lemma_hauls(scene, ends.0, t);
        assert(hauls(scene, ends.0, t));
    }
}

proof fn lemma_walks(scene: Scene, i: int, tile: Position)
    requires
        ids_differ(scene.world.creeps@),
    ensures
        walks_to(scene, i, tile) <==> scene.walks(i) && scene.walker(i).dest_pos == tile,
{
    if 0 <= i < scene.world.creeps.len() && scene.world.creeps[i].body.hits > 0 {
        lemma_hauled(scene, i);
        lemma_mobility_is_size(scene.world.creeps[i].body);
    }
}

proof fn lemma_follows(scene: Scene, i: int, tile: Position)
    requires
        ids_differ(scene.world.creeps@),
    ensures
        hauled_to(scene, i, tile) <==> scene.follows(i) && scene.follower(i).dest_pos == tile,
{
    let id = scene.world.creeps[i].id;
    if hauled_to(scene, i, tile) {
        let (p, to) = choose|p: int, to: Position|
            #![trigger hauls(scene, p, i), walks_to(scene, p, to)]
            hauls(scene, p, i) && walks_to(scene, p, to) && scene.world.creeps[p].pos == tile;
        lemma_index_of(scene, i);
        lemma_index_of(scene, p);
        lemma_hauls(scene, p, i);
        lemma_hauled(scene, i);
        lemma_one_puller(scene, scene.world.creeps[p].id, scene.puller_of(id), id);
        lemma_walks(scene, p, to);
        assert(scene.id_walks(scene.puller_of(id)));
    }
    if scene.follows(i) {
        lemma_living_index(scene.world.creeps@, id);
        lemma_hauled(scene, i);
        let p = choose|p: int|
            hauls(scene, p, i) && scene.world.creeps[p].id == scene.puller_of(id) && scene.living(
                scene.puller_of(id),
            ) == Some(p);
        let k = choose|k: int|
            #[trigger] scene.walks(k) && scene.world.creeps[k].id == scene.puller_of(id);
        lemma_index_of(scene, k);
        assert(k == p);
        lemma_walks(scene, p, scene.walker(p).dest_pos);
        if scene.follower(i).dest_pos == tile {
            assert(hauls(scene, p, i) && walks_to(scene, p, scene.walker(p).dest_pos));
        }
    }
}

/// A creep wants a tile exactly if it makes a mover for it.
proof fn lemma_wants(scene: Scene, i: int, tile: Position)
    requires
        ids_differ(scene.world.creeps@),
    ensures
        wants(scene, i, tile) <==> (scene.walks(i) || scene.follows(i))
            && scene.movers()[place(scene, i)].dest_pos == tile,
        wants(scene, i, tile) ==> lives(scene, i) && 0 <= place(scene, i) < scene.movers().len()
            && makes(scene, i, scene.movers()[place(scene, i)]) && scene.movers()[place(
            scene,
            i,
        )].current_pos == scene.world.creeps[i].pos && scene.movers()[place(scene, i)].id
            == scene.world.creeps[i].id && scene.movers()[place(scene, i)].pulled == hauled(scene, i)
            && scene.movers()[place(scene, i)].pulling == (!hauled(scene, i) && hauling(scene, i))
            && scene.movers()[place(scene, i)].move_rate == scene.world.creeps[i].body.mobility()
            && scene.movers()[place(scene, i)].weight == burden(scene.world.creeps[i]),
{
    lemma_walks(scene, i, tile);
    lemma_follows(scene, i, tile);
    if scene.walks(i) || scene.follows(i) {
        let c = scene.world.creeps[i];
        lemma_place(scene, i);
        lemma_living_index(scene.world.creeps@, c.id);
        lemma_hauled(scene, i);
        lemma_mobility_bounds(c.body);
        lemma_weight_bounds(c.body, c.carry_used as int);
        if scene.walks(i) {
            if hauling(scene, i) {
                let t = choose|t: int| hauls(scene, i, t);
                lemma_hauls(scene, i, t);
                assert(scene.is_pulling(c.id));
            }
            if scene.is_pulling(c.id) {
                let target = choose|target: CreepId| scene.drags(c.id, target);
                let ends = lemma_pull_ends(scene, c.id, target);
                lemma_index_of(scene, i);
                lemma_hauls(scene, i, ends.1);
                assert(hauls(scene, i, ends.1));
            }
        }
    }
}

/// The creeps that make the first `n` movers, and want the tile.
spec fn makers(scene: Scene, tile: Position, n: int) -> Set<int> {
    Set::new(|i: int| wants(scene, i, tile) && place(scene, i) < n)
}

proof fn lemma_makers(scene: Scene, tile: Position, n: int)
    requires
        ids_differ(scene.world.creeps@),
        0 <= n <= scene.movers().len(),
    ensures
        makers(scene, tile, n).finite(),
        makers(scene, tile, n).len() == want_count(scene.movers().take(n), tile),
    decreases n,
{
    let movers = scene.movers();
    if n == 0 {
        assert forall|i: int| !makers(scene, tile, 0).contains(i) by {
            lemma_wants(scene, i, tile);
        }
        assert(makers(scene, tile, 0) =~= Set::empty());
    } else {
        lemma_makers(scene, tile, n - 1);
        assert(movers.take(n).drop_last() =~= movers.take(n - 1));
        assert(movers.take(n).last() == movers[n - 1]);
        let maker = lemma_mover_made(scene, n - 1);
        lemma_wants(scene, maker, tile);
        let fewer = makers(scene, tile, n - 1);
        assert forall|i: int| wants(scene, i, tile) && place(scene, i) == n - 1 implies i
            == maker by {
            lemma_wants(scene, i, tile);
            lemma_index_of(scene, i);
            lemma_index_of(scene, maker);
        }
        if movers[n - 1].dest_pos == tile {
            assert(makers(scene, tile, n) =~= fewer.insert(maker));
        } else {
            assert(makers(scene, tile, n) =~= fewer);
        }
    }
}

/// The crowd of a tile is as large as the number of movers that want it.
proof fn lemma_crowd(scene: Scene, tile: Position)
    requires
        ids_differ(scene.world.creeps@),
    ensures
        crowd(scene, tile).finite(),
        crowd(scene, tile).len() == want_count(scene.movers(), tile),
{
    let n = scene.movers().len() as int;
    lemma_makers(scene, tile, n);
    assert(scene.movers().take(n) =~= scene.movers());
    assert forall|i: int| wants(scene, i, tile) implies place(scene, i) < n by {
        lemma_wants(scene, i, tile);
    }
    assert(makers(scene, tile, n) =~= crowd(scene, tile));
}

proof fn lemma_urgency(scene: Scene, i: int, tile: Position)
    requires
        ids_differ(scene.world.creeps@),
        wants(scene, i, tile),
    ensures
        urgency(scene, i, tile) == affected(scene.movers(), place(scene, i)),
{
    let movers = scene.movers();
    let at = place(scene, i);
    let home = scene.world.creeps[i].pos;
    lemma_wants(scene, i, tile);
    lemma_crowd(scene, home);
    if swapping(scene, i, tile) {
        let k = choose|k: int|
            lives(scene, k) && scene.world.creeps[k].pos == tile && #[trigger] wants(
                scene,
                k,
                home,
            );
        lemma_wants(scene, k, home);
        assert(movers[place(scene, k)].current_pos == movers[at].dest_pos);
        assert(swaps(movers, at));
    }
    if swaps(movers, at) {
        let m = choose|m: int|
            0 <= m < movers.len() && (#[trigger] movers[m]).current_pos == movers[at].dest_pos
                && movers[m].dest_pos == movers[at].current_pos;
        let k = lemma_mover_made(scene, m);
        lemma_wants(scene, k, home);
        assert(wants(scene, k, home));
    }
}

/// A creep that ranks behind another for a tile stays.
proof fn lemma_outranked_stays(scene: Scene, i: int, j: int, tile: Position)
    requires
        ids_differ(scene.world.creeps@),
        i != j,
        wants(scene, i, tile),
        wants(scene, j, tile),
        outranks(scene.movers(), place(scene, i), place(scene, j)) || !outranks(
            scene.movers(),
            place(scene, j),
            place(scene, i),
        ) && place(scene, i) < place(scene, j),
    ensures
        !scene.resolved().contains_key(scene.world.creeps[j].id),
{
    lemma_wants(scene, i, tile);
    lemma_wants(scene, j, tile);
    let (a, b) = (place(scene, i), place(scene, j));
    if a == b {
        lemma_index_of(scene, i);
        lemma_index_of(scene, j);
    }
    assert(scene.movers()[a].dest_pos == scene.movers()[b].dest_pos);
    assert(!wins(scene.movers(), b));
    lemma_losers_stay(scene, b);
}

/// Of two creeps that want a tile, the less urgent stays: a swap counts 100, else the crowd that
/// wants the creep's own tile counts.
pub proof fn lemma_urgent_goes_first(scene: Scene, i: int, j: int, tile: Position)
    requires
        ids_differ(scene.world.creeps@),
        i != j,
        wants(scene, i, tile),
        wants(scene, j, tile),
        urgency(scene, i, tile) > urgency(scene, j, tile),
    ensures
        !scene.resolved().contains_key(scene.world.creeps[j].id),
{
    lemma_urgency(scene, i, tile);
    lemma_urgency(scene, j, tile);
    lemma_outranked_stays(scene, i, j, tile);
}

/// Of two creeps that want a tile, one of which would swap with a creep there, the other stays,
/// unless a hundred or more want the tile it stands on.
pub proof fn lemma_swap_goes_first(scene: Scene, i: int, j: int, k: int, tile: Position)
    requires
        ids_differ(scene.world.creeps@),
        i != j,
        wants(scene, i, tile),
        wants(scene, j, tile),
        lives(scene, k),
        scene.world.creeps[k].pos == tile,
        wants(scene, k, scene.world.creeps[i].pos),
        forall|m: int|
            lives(scene, m) && scene.world.creeps[m].pos == tile ==> !#[trigger] wants(
                scene,
                m,
                scene.world.creeps[j].pos,
            ),
        crowd(scene, scene.world.creeps[j].pos).len() < 100,
    ensures
        !scene.resolved().contains_key(scene.world.creeps[j].id),
{
    assert(swapping(scene, i, tile));
    assert(!swapping(scene, j, tile));
    lemma_urgent_goes_first(scene, i, j, tile);
}

/// Of two equally urgent creeps that want a tile, the one that is not dragged stays if the other is.
pub proof fn lemma_dragged_goes_first(scene: Scene, i: int, j: int, tile: Position)
    requires
        ids_differ(scene.world.creeps@),
        wants(scene, i, tile),
        wants(scene, j, tile),
        urgency(scene, i, tile) == urgency(scene, j, tile),
        hauled(scene, i),
        !hauled(scene, j),
    ensures
        !scene.resolved().contains_key(scene.world.creeps[j].id),
{
    lemma_urgency(scene, i, tile);
    lemma_urgency(scene, j, tile);
    lemma_wants(scene, i, tile);
    lemma_wants(scene, j, tile);
    lemma_outranked_stays(scene, i, j, tile);
}

/// Of two equally urgent creeps that walk to a tile, the one that drags no one stays if the other
/// does.
pub proof fn lemma_dragger_goes_first(scene: Scene, i: int, j: int, tile: Position)
    requires
        ids_differ(scene.world.creeps@),
        walks_to(scene, i, tile),
        walks_to(scene, j, tile),
        urgency(scene, i, tile) == urgency(scene, j, tile),
        hauling(scene, i),
        !hauling(scene, j),
    ensures
        !scene.resolved().contains_key(scene.world.creeps[j].id),
{
    lemma_urgency(scene, i, tile);
    lemma_urgency(scene, j, tile);
    lemma_wants(scene, i, tile);
    lemma_wants(scene, j, tile);
    lemma_outranked_stays(scene, i, j, tile);
}

/// Two creeps stand alike in all but speed: equally urgent, both dragged, or both walking and both
/// or neither dragging.
pub open spec fn alike(scene: Scene, i: int, j: int, tile: Position) -> bool {
    &&& urgency(scene, i, tile) == urgency(scene, j, tile)
    &&& hauled(scene, i) == hauled(scene, j)
    &&& hauled(scene, i) || hauling(scene, i) == hauling(scene, j)
}

/// Of two creeps alike in the rest, the one with the lower ratio of move rate to weight stays.
pub proof fn lemma_faster_goes_first(scene: Scene, i: int, j: int, tile: Position)
    requires
        ids_differ(scene.world.creeps@),
        wants(scene, i, tile),
        wants(scene, j, tile),
        alike(scene, i, j, tile),
        scene.world.creeps[i].body.mobility() * burden(scene.world.creeps[j])
            > scene.world.creeps[j].body.mobility() * burden(scene.world.creeps[i]),
    ensures
        !scene.resolved().contains_key(scene.world.creeps[j].id),
{
    lemma_urgency(scene, i, tile);
    lemma_urgency(scene, j, tile);
    lemma_wants(scene, i, tile);
    lemma_wants(scene, j, tile);
    lemma_outranked_stays(scene, i, j, tile);
}

/// Of two creeps alike in everything, the later listed stays.
pub proof fn lemma_earlier_goes_first(scene: Scene, i: int, j: int, tile: Position)
    requires
        ids_differ(scene.world.creeps@),
        i < j,
        wants(scene, i, tile),
        wants(scene, j, tile),
        alike(scene, i, j, tile),
        scene.world.creeps[i].body.mobility() * burden(scene.world.creeps[j])
            == scene.world.creeps[j].body.mobility() * burden(scene.world.creeps[i]),
    ensures
        !scene.resolved().contains_key(scene.world.creeps[j].id),
{
    lemma_urgency(scene, i, tile);
    lemma_urgency(scene, j, tile);
    lemma_wants(scene, i, tile);
    lemma_wants(scene, j, tile);
    lemma_places_ordered(scene, i, j);
    lemma_outranked_stays(scene, i, j, tile);
}

/// Creeps of one sort make movers in the order in which they are listed.
proof fn lemma_places_ordered(scene: Scene, i: int, j: int)
    requires
        ids_differ(scene.world.creeps@),
        i < j,
        scene.walks(i) && scene.walks(j) || scene.follows(i) && scene.follows(j) && !scene.walks(i)
            && !scene.walks(j),
    ensures
        place(scene, i) < place(scene, j),
{
    lemma_walkers_grow(scene, i + 1, j);
    lemma_followers_grow(scene, i + 1, j);
}

proof fn lemma_walkers_grow(scene: Scene, a: int, b: int)
    requires
        0 <= a <= b,
    ensures
        scene.walkers(a).len() <= scene.walkers(b).len(),
    decreases b,
{
    if a < b {
        lemma_walkers_grow(scene, a, b - 1);
    }
}

proof fn lemma_followers_grow(scene: Scene, a: int, b: int)
    requires
        0 <= a <= b,
    ensures
        scene.followers(a).len() <= scene.followers(b).len(),
    decreases b,
{
    if a < b {
        lemma_followers_grow(scene, a, b - 1);
    }
}

/// Creep `i` goes before creep `j`, which wants the same tile.
pub open spec fn goes_before(scene: Scene, i: int, j: int, tile: Position) -> bool {
    let (a, b) = (scene.world.creeps[i], scene.world.creeps[j]);
    ||| urgency(scene, i, tile) > urgency(scene, j, tile)
    ||| urgency(scene, i, tile) == urgency(scene, j, tile) && hauled(scene, i) && !hauled(scene, j)
    ||| urgency(scene, i, tile) == urgency(scene, j, tile) && !hauled(scene, i) && !hauled(scene, j)
        && hauling(scene, i) && !hauling(scene, j)
    ||| alike(scene, i, j, tile) && a.body.mobility() * burden(b) > b.body.mobility() * burden(a)
    ||| alike(scene, i, j, tile) && a.body.mobility() * burden(b) == b.body.mobility() * burden(a)
        && i < j
}

/// A creep that goes before every other that wants its tile wins that tile.
proof fn lemma_foremost_wins(scene: Scene, i: int, tile: Position)
    requires
        ids_differ(scene.world.creeps@),
        wants(scene, i, tile),
        forall|j: int|
            j != i && #[trigger] wants(scene, j, tile) ==> goes_before(scene, i, j, tile),
    ensures
        wins(scene.movers(), place(scene, i)),
{
    let movers = scene.movers();
    let at = place(scene, i);
    lemma_wants(scene, i, tile);
    lemma_urgency(scene, i, tile);
    assert forall|m: int|
        0 <= m < movers.len() && m != at && (#[trigger] movers[m]).dest_pos
            == movers[at].dest_pos implies !outranks(movers, m, at) && (m < at ==> outranks(
        movers,
        at,
        m,
    )) by {
        let j = lemma_mover_made(scene, m);
        lemma_wants(scene, j, tile);
        assert(wants(scene, j, tile));
        lemma_urgency(scene, j, tile);
        if scene.walks(i) && scene.walks(j) || scene.follows(i) && scene.follows(j)
            && !scene.walks(i) && !scene.walks(j) {
            if i < j {
                lemma_places_ordered(scene, i, j);
            } else {
                lemma_places_ordered(scene, j, i);
            }
        }
    }
}

/// A creep moves onto a tile it wants if it goes before every other that wants it, the tile is no
/// wall, and every creep that stands there moves away.
pub proof fn lemma_foremost_moves(scene: Scene, i: int, tile: Position)
    requires
        ids_differ(scene.world.creeps@),
        wants(scene, i, tile),
        forall|j: int|
            j != i && #[trigger] wants(scene, j, tile) ==> goes_before(scene, i, j, tile),
        free_ground(scene, tile),
        forall|k: int|
            #![trigger scene.world.creeps[k]]
            lives(scene, k) && scene.world.creeps[k].pos == tile ==> scene.resolved().contains_key(
                scene.world.creeps[k].id,
            ),
    ensures
        scene.resolved().contains_key(scene.world.creeps[i].id),
        scene.resolved()[scene.world.creeps[i].id] == tile,
{
    let at = place(scene, i);
    lemma_wants(scene, i, tile);
    lemma_foremost_wins(scene, i, tile);
    if scene.occupied(tile) {
        let k = choose|k: int| #[trigger] scene.remains(k) && scene.world.creeps[k].pos == tile;
        let id = scene.world.creeps[k].id;
        assert(lives(scene, k));
        let m = lemma_moved_as(scene, id);
        lemma_own_mover(scene, k, m);
        lemma_not_halted(scene, m);
        lemma_mover_index(scene.movers(), id);
        lemma_own_mover(scene, k, mover_index(scene.movers(), id)->0);
    }
    assert(!scene.halted(at));
    assert forall|n: nat| !scene.blocked_within(n, at) by {
        if scene.blocked_within(n, at) {
            let m = choose|m: int|
                0 <= m < scene.movers().len() && scene.movers()[at].dest_pos == (
                #[trigger] scene.movers()[m]).current_pos && scene.blocked_within(
                    (n - 1) as nat,
                    m,
                );
            let k = lemma_mover_made(scene, m);
            assert(lives(scene, k));
            assert(scene.blocked(m));
            lemma_losers_stay(scene, m);
        }
    }
    lemma_reaches(scene, i);
}

/// Creeps that make room for each other all move: each wants its tile and goes before every other
/// that wants it, no tile is a wall, and whoever stands on one of the tiles belongs to them.
pub proof fn lemma_group_moves(scene: Scene, group: Map<int, Position>, i: int)
    requires
        ids_differ(scene.world.creeps@),
        forall|k: int| #[trigger]
            group.contains_key(k) ==> wants(scene, k, group[k]) && free_ground(scene, group[k]),
        forall|k: int, j: int|
            #![trigger group.contains_key(k), wants(scene, j, group[k])]
            group.contains_key(k) && j != k && wants(scene, j, group[k]) ==> goes_before(
                scene,
                k,
                j,
                group[k],
            ),
        forall|k: int, m: int|
            #![trigger group.contains_key(k), scene.world.creeps[m]]
            group.contains_key(k) && lives(scene, m) && scene.world.creeps[m].pos == group[k]
                ==> group.contains_key(m),
        group.contains_key(i),
    ensures
        scene.resolved().contains_key(scene.world.creeps[i].id),
        scene.resolved()[scene.world.creeps[i].id] == group[i],
{
    assert forall|k: int| #[trigger] group.contains_key(k) implies !scene.halted(
        place(scene, k),
    ) by {
        lemma_group_not_halted(scene, group, k);
    }
    assert forall|n: nat| !scene.blocked_within(n, place(scene, i)) by {
        lemma_group_unblocked(scene, group, i, n);
    }
    lemma_wants(scene, i, group[i]);
    lemma_reaches(scene, i);
}

proof fn lemma_group_not_halted(scene: Scene, group: Map<int, Position>, k: int)
    requires
        ids_differ(scene.world.creeps@),
        forall|k: int| #[trigger]
            group.contains_key(k) ==> wants(scene, k, group[k]) && free_ground(scene, group[k]),
        forall|k: int, j: int|
            #![trigger group.contains_key(k), wants(scene, j, group[k])]
            group.contains_key(k) && j != k && wants(scene, j, group[k]) ==> goes_before(
                scene,
                k,
                j,
                group[k],
            ),
        forall|k: int, m: int|
            #![trigger group.contains_key(k), scene.world.creeps[m]]
            group.contains_key(k) && lives(scene, m) && scene.world.creeps[m].pos == group[k]
                ==> group.contains_key(m),
        group.contains_key(k),
    ensures
        !scene.halted(place(scene, k)),
{
    let tile = group[k];
    lemma_wants(scene, k, tile);
    lemma_foremost_wins(scene, k, tile);
    if scene.occupied(tile) {
        let m = choose|m: int| #[trigger] scene.remains(m) && scene.world.creeps[m].pos == tile;
        assert(lives(scene, m));
        assert(group.contains_key(m));
        lemma_wants(scene, m, group[m]);
        lemma_foremost_wins(scene, m, group[m]);
        let id = scene.world.creeps[m].id;
        lemma_mover_index(scene.movers(), id);
        lemma_own_mover(scene, m, mover_index(scene.movers(), id)->0);
    }
}

proof fn lemma_group_unblocked(scene: Scene, group: Map<int, Position>, i: int, n: nat)
    requires
        ids_differ(scene.world.creeps@),
        forall|k: int| #[trigger]
            group.contains_key(k) ==> wants(scene, k, group[k]) && !scene.halted(place(scene, k)),
        forall|k: int, m: int|
            #![trigger group.contains_key(k), scene.world.creeps[m]]
            group.contains_key(k) && lives(scene, m) && scene.world.creeps[m].pos == group[k]
                ==> group.contains_key(m),
        group.contains_key(i),
    ensures
        !scene.blocked_within(n, place(scene, i)),
    decreases n,
{
    let at = place(scene, i);
    lemma_wants(scene, i, group[i]);
    if scene.blocked_within(n, at) {
        let m = choose|m: int|
            0 <= m < scene.movers().len() && scene.movers()[at].dest_pos == (
            #[trigger] scene.movers()[m]).current_pos && scene.blocked_within((n - 1) as nat, m);
        let k = lemma_mover_made(scene, m);
        assert(lives(scene, k));
        assert(scene.world.creeps[k].pos == group[i]);
        lemma_group_unblocked(scene, group, k, (n - 1) as nat);
    }
}

/// A creep that moves is one that wants the tile it reaches, which is no wall; it is not put behind
/// any other that wants the tile, and every living creep that stood there moves away.
pub proof fn lemma_moves_are_wanted(scene: Scene, id: CreepId) -> (i: int)
    requires
        ids_differ(scene.world.creeps@),
        scene.resolved().contains_key(id),
    ensures
        lives(scene, i),
        scene.world.creeps[i].id == id,
        wants(scene, i, scene.resolved()[id]),
        free_ground(scene, scene.resolved()[id]),
        forall|j: int|
            j != i && #[trigger] wants(scene, j, scene.resolved()[id]) ==> !goes_before(
                scene,
                j,
                i,
                scene.resolved()[id],
            ) && !scene.resolved().contains_key(scene.world.creeps[j].id),
        forall|k: int|
            #![trigger scene.world.creeps[k]]
            lives(scene, k) && scene.world.creeps[k].pos == scene.resolved()[id]
                ==> scene.resolved().contains_key(scene.world.creeps[k].id),
{
    let tile = scene.resolved()[id];
    let m = lemma_moved_as(scene, id);
    lemma_not_halted(scene, m);
    let i = lemma_mover_made(scene, m);
    lemma_wants(scene, i, tile);
    assert forall|j: int| j != i && #[trigger] wants(scene, j, tile) implies !goes_before(
        scene,
        j,
        i,
        tile,
    ) && !scene.resolved().contains_key(scene.world.creeps[j].id) by {
        lemma_wants(scene, j, tile);
        if goes_before(scene, j, i, tile) {
            lemma_before_stays(scene, j, i, tile);
        }
        let other = scene.world.creeps[j].id;
        assert(other != id) by {
            lemma_index_of(scene, i);
            lemma_index_of(scene, j);
        }
        if scene.resolved().contains_key(other) {
            let k = lemma_moved_as(scene, other);
            lemma_own_mover(scene, j, k);
            lemma_not_halted(scene, k);
            assert(scene.movers()[k].dest_pos == scene.movers()[m].dest_pos);
            if k < m {
                assert(outranks(scene.movers(), m, k));
            } else {
                assert(outranks(scene.movers(), k, m));
            }
        }
    }
    assert forall|k: int|
        #![trigger scene.world.creeps[k]]
        lives(scene, k) && scene.world.creeps[k].pos == tile implies scene.resolved().contains_key(
        scene.world.creeps[k].id,
    ) by {
        lemma_occupants_leave(scene, id, k);
    }
    i
}

/// A creep that another goes before stays.
pub proof fn lemma_before_stays(scene: Scene, i: int, j: int, tile: Position)
    requires
        ids_differ(scene.world.creeps@),
        i != j,
        wants(scene, i, tile),
        wants(scene, j, tile),
        goes_before(scene, i, j, tile),
    ensures
        !scene.resolved().contains_key(scene.world.creeps[j].id),
{
    if urgency(scene, i, tile) > urgency(scene, j, tile) {
        lemma_urgent_goes_first(scene, i, j, tile);
    } else if hauled(scene, i) && !hauled(scene, j) {
        lemma_dragged_goes_first(scene, i, j, tile);
    } else {
        lemma_urgency(scene, i, tile);
        lemma_urgency(scene, j, tile);
        lemma_wants(scene, i, tile);
        lemma_wants(scene, j, tile);
        if alike(scene, i, j, tile) && i < j {
            lemma_places_ordered(scene, i, j);
        }
        lemma_outranked_stays(scene, i, j, tile);
    }
}

/// Where the creeps that want a puller's tile besides the creep it drags walk by themselves and
/// nobody wants the tiles on which they and the dragged creep stand, the dragged creep follows a
/// puller that moves away, and those others stay.
pub proof fn lemma_dragged_follows_before_walkers(scene: Scene, p: int, t: int)
    requires
        ids_differ(scene.world.creeps@),
        hauls(scene, p, t),
        p != t,
        !hauled(scene, p),
        scene.resolved().contains_key(scene.world.creeps[p].id),
        free_ground(scene, scene.world.creeps[p].pos),
        forall|k: int|
            #![trigger scene.world.creeps[k]]
            lives(scene, k) && scene.world.creeps[k].pos == scene.world.creeps[p].pos ==> k == p,
        forall|j: int|
            #![trigger scene.world.creeps[j]]
            j != t && wants(scene, j, scene.world.creeps[p].pos) ==> !hauled(scene, j) && (
            forall|m: int| !#[trigger] wants(scene, m, scene.world.creeps[j].pos)),
        forall|m: int| !#[trigger] wants(scene, m, scene.world.creeps[t].pos),
    ensures
        scene.resolved().contains_key(scene.world.creeps[t].id),
        scene.resolved()[scene.world.creeps[t].id] == scene.world.creeps[p].pos,
        forall|j: int|
            #![trigger scene.world.creeps[j]]
            j != t && wants(scene, j, scene.world.creeps[p].pos) ==> !scene.resolved().contains_key(
                scene.world.creeps[j].id,
            ),
{
    let tile = scene.world.creeps[p].pos;
    let id = scene.world.creeps[p].id;
    let w = lemma_moves_are_wanted(scene, id);
    lemma_index_of(scene, w);
    lemma_index_of(scene, p);
    assert(walks_to(scene, p, scene.resolved()[id])) by {
        lemma_follows(scene, p, scene.resolved()[id]);
        lemma_hauled(scene, p);
    }
    assert(hauled_to(scene, t, tile));
    assert(can_drag(scene, p, t));
    assert forall|j: int| j != t && #[trigger] wants(scene, j, tile) implies goes_before(
        scene,
        t,
        j,
        tile,
    ) by {
        let home = scene.world.creeps[j].pos;
        assert(crowd(scene, home) =~= Set::empty());
        assert(crowd(scene, scene.world.creeps[t].pos) =~= Set::empty());
    }
    lemma_foremost_moves(scene, t, tile);
    assert forall|j: int|
        #![trigger scene.world.creeps[j]]
        j != t && wants(scene, j, tile) implies !scene.resolved().contains_key(
        scene.world.creeps[j].id,
    ) by {
        lemma_before_stays(scene, t, j, tile);
    }
}

/// Where living creeps share an id, a pull pairing means the last of them; with none there is none.
pub proof fn lemma_last_bearer_counts(scene: Scene, id: CreepId, other: int)
    requires
        lives(scene, other),
        scene.world.creeps[other].id == id,
    ensures
        scene.living(id) is Some,
        lives(scene, scene.living(id)->0),
        scene.world.creeps[scene.living(id)->0].id == id,
        other <= scene.living(id)->0,
{
    lemma_last_bearer(scene.world.creeps@, id, other);
    lemma_living_index(scene.world.creeps@, id);
}

proof fn lemma_last_bearer(creeps: Seq<SimCreep>, id: CreepId, other: int)
    requires
        0 <= other < creeps.len(),
        creeps[other].alive(),
        creeps[other].id == id,
    ensures
        living_index(creeps, id) is Some,
        other <= living_index(creeps, id)->0,
    decreases creeps.len(),
{
    if other < creeps.len() - 1 {
        assert(creeps.drop_last()[other] == creeps[other]);
        lemma_last_bearer(creeps.drop_last(), id, other);
        lemma_living_index(creeps.drop_last(), id);
    }
}

} // verus!
