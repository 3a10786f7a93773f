//! What conflict resolution guarantees: one winner per tile, no collisions, no step into a wall, and
//! pulled creeps that follow only a puller that moves.

use crate::body::lemma_weight_bounds;
use crate::movement::{
    affected, lemma_living_index, lemma_one_puller, mover_index, outranks, step_to, swaps, wins,
    Mover, Scene,
};
use crate::tick::moved_pos;
use crate::world::{CreepId, SimCreep};
use vstd::prelude::*;

verus! {

/// Every mover weighs at least 1.
pub open spec fn weighted(movers: Seq<Mover>) -> bool {
    forall|i: int| 0 <= i < movers.len() ==> (#[trigger] movers[i]).weight >= 1
}

/// A mover that no equal or better one precedes is not preceded through a third.
proof fn lemma_outranks_chain(movers: Seq<Mover>, i: int, j: int, k: int)
    requires
        weighted(movers),
        0 <= i < movers.len(),
        0 <= j < movers.len(),
        0 <= k < movers.len(),
        !outranks(movers, j, i),
        !outranks(movers, k, j),
    ensures
        !outranks(movers, k, i),
{
    let a = movers[i];
    let b = movers[j];
    let c = movers[k];
    let (ra, rb, rc) = (a.move_rate as int, b.move_rate as int, c.move_rate as int);
    let (wa, wb, wc) = (a.weight as int, b.weight as int, c.weight as int);
    if rb * wa <= ra * wb && rc * wb <= rb * wc {
        assert(rc * wa <= ra * wc) by (nonlinear_arith)
            requires
                rb * wa <= ra * wb,
                rc * wb <= rb * wc,
                wa >= 1,
                wb >= 1,
                wc >= 1,
        {
            assert((rc * wb) * wa <= (rb * wc) * wa);
            assert((rb * wa) * wc <= (ra * wb) * wc);
            assert((rc * wa) * wb == (rc * wb) * wa);
            assert((ra * wc) * wb == (ra * wb) * wc);
            assert((rb * wc) * wa == (rb * wa) * wc);
            assert((rc * wa) * wb <= (ra * wc) * wb);
        }
    }
}

/// Mover `i` is the best of the first `n` that want its destination.
spec fn leads(movers: Seq<Mover>, i: int, n: int) -> bool {
    &&& 0 <= i < n
    &&& forall|j: int|
        0 <= j < n && j != i && (#[trigger] movers[j]).dest_pos == movers[i].dest_pos
            ==> !outranks(movers, j, i) && (j < i ==> outranks(movers, i, j))
}

proof fn lemma_some_leader(movers: Seq<Mover>, wanting: int, n: int) -> (best: int)
    requires
        weighted(movers),
        0 <= wanting < n <= movers.len(),
    ensures
        leads(movers, best, n),
        movers[best].dest_pos == movers[wanting].dest_pos,
    decreases n,
{
    let last = n - 1;
    let tile = movers[wanting].dest_pos;
    if forall|j: int| 0 <= j < last ==> (#[trigger] movers[j]).dest_pos != tile {
        wanting
    } else {
        let other = choose|j: int| 0 <= j < last && (#[trigger] movers[j]).dest_pos == tile;
        let best = lemma_some_leader(movers, other, last);
        if movers[last].dest_pos == tile && outranks(movers, last, best) {
            assert forall|j: int|
                0 <= j < n && j != last && (#[trigger] movers[j]).dest_pos
                    == movers[last].dest_pos implies !outranks(movers, j, last) && (j < last
                ==> outranks(movers, last, j)) by {
                if !outranks(movers, last, j) {
                    if j != best {
                        lemma_outranks_chain(movers, best, j, last);
                    }
                }
            }
            last
        } else {
            best
        }
    }
}

/// Every tile that some mover wants has exactly one winner.
pub proof fn lemma_one_winner(movers: Seq<Mover>, wanting: int)
    requires
        weighted(movers),
        0 <= wanting < movers.len(),
    ensures
        exists|i: int|
            0 <= i < movers.len() && movers[i].dest_pos == movers[wanting].dest_pos
                && #[trigger] wins(movers, i),
        forall|i: int, j: int|
            #![trigger wins(movers, i), wins(movers, j)]
            0 <= i < movers.len() && 0 <= j < movers.len() && wins(movers, i) && wins(movers, j)
                && movers[i].dest_pos == movers[j].dest_pos ==> i == j,
{
    let best = lemma_some_leader(movers, wanting, movers.len() as int);
    assert(wins(movers, best));
    assert forall|i: int, j: int|
        #![trigger wins(movers, i), wins(movers, j)]
        0 <= i < movers.len() && 0 <= j < movers.len() && wins(movers, i) && wins(movers, j)
            && movers[i].dest_pos == movers[j].dest_pos implies i == j by {
        if i < j {
            assert(outranks(movers, j, i));
        } else if j < i {
            assert(outranks(movers, i, j));
        }
    }
}

/// Creep `i` makes mover `m`, on its own or dragged.
pub(crate) open spec fn makes(scene: Scene, i: int, m: Mover) -> bool {
    ||| scene.walks(i) && m == scene.walker(i)
    ||| scene.follows(i) && m == scene.follower(i)
}

proof fn lemma_walker_made(scene: Scene, n: int, j: int) -> (i: int)
    requires
        n <= scene.world.creeps.len(),
        0 <= j < scene.walkers(n).len(),
    ensures
        scene.walks(i),
        scene.walkers(n)[j] == scene.walker(i),
        scene.walkers(i).len() == j,
    decreases n,
{
    if j < scene.walkers(n - 1).len() {
        lemma_walker_made(scene, n - 1, j)
    } else {
        n - 1
    }
}

proof fn lemma_follower_made(scene: Scene, n: int, j: int) -> (i: int)
    requires
        n <= scene.world.creeps.len(),
        0 <= j < scene.followers(n).len(),
    ensures
        scene.follows(i),
        scene.followers(n)[j] == scene.follower(i),
        scene.followers(i).len() == j,
    decreases n,
{
    if j < scene.followers(n - 1).len() {
        lemma_follower_made(scene, n - 1, j)
    } else {
        n - 1
    }
}

proof fn lemma_walker_listed(scene: Scene, i: int, n: int)
    requires
        scene.walks(i),
        i < n <= scene.world.creeps.len(),
    ensures
        scene.walkers(i).len() < scene.walkers(n).len(),
        scene.walkers(n)[scene.walkers(i).len() as int] == scene.walker(i),
    decreases n,
{
    if i < n - 1 {
        lemma_walker_listed(scene, i, n - 1);
    }
}

proof fn lemma_follower_listed(scene: Scene, i: int, n: int)
    requires
        scene.follows(i),
        i < n <= scene.world.creeps.len(),
    ensures
        scene.followers(i).len() < scene.followers(n).len(),
        scene.followers(n)[scene.followers(i).len() as int] == scene.follower(i),
    decreases n,
{
    if i < n - 1 {
        lemma_follower_listed(scene, i, n - 1);
    }
}

/// The place among the movers of the mover that creep `i` makes.
pub(crate) open spec fn place(scene: Scene, i: int) -> int {
    if scene.walks(i) {
        scene.walkers(i).len() as int
    } else {
        scene.walkers(scene.world.creeps.len() as int).len() + scene.followers(i).len() as int
    }
}

/// A creep that walks or follows makes the mover at its place.
pub(crate) proof fn lemma_place(scene: Scene, i: int)
    requires
        scene.walks(i) || scene.follows(i),
    ensures
        0 <= place(scene, i) < scene.movers().len(),
        makes(scene, i, scene.movers()[place(scene, i)]),
{
    let n = scene.world.creeps.len() as int;
    if scene.walks(i) {
        lemma_walker_listed(scene, i, n);
    } else {
        lemma_follower_listed(scene, i, n);
    }
}

/// Every mover is made by a living creep: it bears the creep's id and starts from its tile.
pub(crate) proof fn lemma_mover_made(scene: Scene, j: int) -> (i: int)
    requires
        0 <= j < scene.movers().len(),
    ensures
        makes(scene, i, scene.movers()[j]),
        place(scene, i) == j,
        0 <= i < scene.world.creeps.len(),
        scene.world.creeps[i].alive(),
        scene.world.creeps[i].id == scene.movers()[j].id,
        scene.world.creeps[i].pos == scene.movers()[j].current_pos,
        scene.movers()[j].weight >= 1,
{
    let n = scene.world.creeps.len() as int;
    let count = scene.walkers(n).len() as int;
    let i = if j < count {
        assert(scene.movers()[j] == scene.walkers(n)[j]);
        lemma_walker_made(scene, n, j)
    } else {
        assert(scene.movers()[j] == scene.followers(n)[j - count]);
        lemma_follower_made(scene, n, j - count)
    };
    let c = scene.world.creeps[i];
    lemma_living_index(scene.world.creeps@, c.id);
    lemma_weight_bounds(c.body, c.carry_used as int);
    i
}

proof fn lemma_movers_weighted(scene: Scene)
    ensures
        weighted(scene.movers()),
{
    assert forall|j: int| 0 <= j < scene.movers().len() implies (
    #[trigger] scene.movers()[j]).weight >= 1 by {
        lemma_mover_made(scene, j);
    }
}

pub(crate) proof fn lemma_mover_index(movers: Seq<Mover>, id: CreepId)
    ensures
        mover_index(movers, id) matches Some(i) ==> 0 <= i < movers.len() && movers[i].id == id,
        mover_index(movers, id) is None ==> forall|i: int|
            0 <= i < movers.len() ==> (#[trigger] movers[i]).id != id,
    decreases movers.len(),
{
    if movers.len() > 0 {
        lemma_mover_index(movers.drop_last(), id);
        assert forall|i: int|
            mover_index(movers, id) is None && 0 <= i < movers.len() implies (
        #[trigger] movers[i]).id != id by {
            if i < movers.len() - 1 {
                assert(movers.drop_last()[i] == movers[i]);
            }
        }
    }
}

proof fn lemma_moved_by(scene: Scene, n: int)
    requires
        n <= scene.movers().len(),
    ensures
        forall|id: CreepId| #[trigger]
            scene.moved_by(n).contains_key(id) ==> exists|j: int|
                0 <= j < n && !scene.blocked(j) && (#[trigger] scene.movers()[j]).id == id
                    && scene.movers()[j].dest_pos == scene.moved_by(n)[id],
        forall|j: int|
            0 <= j < n && !scene.blocked(j) ==> scene.moved_by(n).contains_key(
                (#[trigger] scene.movers()[j]).id,
            ),
    decreases n,
{
    if n > 0 {
        lemma_moved_by(scene, n - 1);
        assert forall|id: CreepId| #[trigger] scene.moved_by(n).contains_key(
            id,
        ) implies exists|j: int|
            0 <= j < n && !scene.blocked(j) && (#[trigger] scene.movers()[j]).id == id
                && scene.movers()[j].dest_pos == scene.moved_by(n)[id] by {
            if !scene.blocked(n - 1) && scene.movers()[n - 1].id == id {
            } else {
                assert(scene.moved_by(n - 1).contains_key(id));
                let j = choose|j: int|
                    0 <= j < n - 1 && !scene.blocked(j) && (#[trigger] scene.movers()[j]).id == id
                        && scene.movers()[j].dest_pos == scene.moved_by(n - 1)[id];
                assert(scene.movers()[j].id == id);
            }
        }
        assert forall|j: int| 0 <= j < n && !scene.blocked(j) implies scene.moved_by(
            n,
        ).contains_key((#[trigger] scene.movers()[j]).id) by {
            if j < n - 1 {
                assert(scene.moved_by(n - 1).contains_key(scene.movers()[j].id));
            }
        }
    }
}

/// A creep that moves does so as a mover that is not blocked, and reaches that mover's destination.
pub proof fn lemma_moved_as(scene: Scene, id: CreepId) -> (j: int)
    requires
        scene.resolved().contains_key(id),
    ensures
        0 <= j < scene.movers().len(),
        !scene.blocked(j),
        scene.movers()[j].id == id,
        scene.movers()[j].dest_pos == scene.resolved()[id],
{
    lemma_moved_by(scene, scene.movers().len() as int);
    choose|j: int|
        0 <= j < scene.movers().len() && !scene.blocked(j) && (#[trigger] scene.movers()[j]).id
            == id && scene.movers()[j].dest_pos == scene.resolved()[id]
}

/// A mover that is not blocked wins its tile, which is neither a wall nor occupied.
pub(crate) proof fn lemma_not_halted(scene: Scene, j: int)
    requires
        !scene.blocked(j),
    ensures
        !scene.halted(j),
{
    assert(scene.blocked_within(0, j) == scene.halted(j));
}

/// No creep moves into a wall.
pub proof fn lemma_never_into_wall(scene: Scene, id: CreepId)
    requires
        scene.resolved().contains_key(id),
    ensures
        !scene.walled(scene.resolved()[id]),
{
    let j = lemma_moved_as(scene, id);
    lemma_not_halted(scene, j);
}

/// No two creeps move onto one tile.
pub proof fn lemma_destinations_differ(scene: Scene, a: CreepId, b: CreepId)
    requires
        scene.resolved().contains_key(a),
        scene.resolved().contains_key(b),
        a != b,
    ensures
        scene.resolved()[a] != scene.resolved()[b],
{
    let i = lemma_moved_as(scene, a);
    let j = lemma_moved_as(scene, b);
    lemma_not_halted(scene, i);
    lemma_not_halted(scene, j);
    lemma_movers_weighted(scene);
    lemma_one_winner(scene.movers(), i);
}

/// A blocked front stops the column: a mover that wants the tile of a blocked mover is blocked.
pub proof fn lemma_column_stops(scene: Scene, front: int, j: int)
    requires
        0 <= front < scene.movers().len(),
        0 <= j < scene.movers().len(),
        scene.blocked(front),
        scene.movers()[j].dest_pos == scene.movers()[front].current_pos,
    ensures
        scene.blocked(j),
{
    let n = choose|n: nat| scene.blocked_within(n, front);
    assert(scene.movers()[front].current_pos == scene.movers()[j].dest_pos);
    assert(scene.blocked_within((n + 1) as nat, j));
}

/// No two living creeps share an id.
pub open spec fn ids_differ(creeps: Seq<SimCreep>) -> bool {
    forall|i: int, j: int|
        #![trigger creeps[i], creeps[j]]
        0 <= i < j < creeps.len() && creeps[i].alive() && creeps[j].alive() ==> creeps[i].id
            != creeps[j].id
}

/// No two living creeps share a tile.
pub open spec fn tiles_differ(creeps: Seq<SimCreep>) -> bool {
    forall|i: int, j: int|
        #![trigger creeps[i], creeps[j]]
        0 <= i < j < creeps.len() && creeps[i].alive() && creeps[j].alive() ==> creeps[i].pos
            != creeps[j].pos
}

/// The one mover with a living creep's id is the one that creep makes.
pub(crate) proof fn lemma_own_mover(scene: Scene, i: int, j: int)
    requires
        ids_differ(scene.world.creeps@),
        0 <= i < scene.world.creeps.len(),
        scene.world.creeps[i].alive(),
        0 <= j < scene.movers().len(),
        scene.movers()[j].id == scene.world.creeps[i].id,
    ensures
        j == place(scene, i),
        makes(scene, i, scene.movers()[j]),
{
    let maker = lemma_mover_made(scene, j);
    if maker < i {
        assert(scene.world.creeps@[maker].id != scene.world.creeps@[i].id);
    } else if i < maker {
        assert(scene.world.creeps@[i].id != scene.world.creeps@[maker].id);
    }
}

/// A creep whose mover is not blocked reaches that mover's destination.
pub(crate) proof fn lemma_reaches(scene: Scene, i: int)
    requires
        ids_differ(scene.world.creeps@),
        scene.walks(i) || scene.follows(i),
        !scene.blocked(place(scene, i)),
    ensures
        scene.resolved().contains_key(scene.world.creeps[i].id),
        scene.resolved()[scene.world.creeps[i].id] == scene.movers()[place(scene, i)].dest_pos,
{
    let id = scene.world.creeps[i].id;
    lemma_place(scene, i);
    lemma_living_index(scene.world.creeps@, id);
    lemma_moved_by(scene, scene.movers().len() as int);
    assert(scene.movers()[place(scene, i)].id == id);
    let j = lemma_moved_as(scene, id);
    lemma_own_mover(scene, i, j);
}

/// A rested creep with a working MOVE part gets the step it asks for if the tile is no wall, no
/// living creep stands there, and no other mover wants it.
pub proof fn lemma_free_tile_is_taken(scene: Scene, i: int)
    requires
        ids_differ(scene.world.creeps@),
        scene.walks(i),
        !scene.walled(scene.walker(i).dest_pos),
        forall|k: int|
            0 <= k < scene.world.creeps.len() && (#[trigger] scene.world.creeps[k]).alive()
                ==> scene.world.creeps[k].pos != scene.walker(i).dest_pos,
        forall|j: int|
            0 <= j < scene.movers().len() && (#[trigger] scene.movers()[j]).dest_pos
                == scene.walker(i).dest_pos ==> scene.movers()[j].id == scene.world.creeps[i].id,
    ensures
        scene.resolved().contains_key(scene.world.creeps[i].id),
        scene.resolved()[scene.world.creeps[i].id] == scene.walker(i).dest_pos,
{
    let at = place(scene, i);
    lemma_place(scene, i);
    assert(wins(scene.movers(), at)) by {
        assert forall|j: int|
            0 <= j < scene.movers().len() && j != at && (#[trigger] scene.movers()[j]).dest_pos
                == scene.movers()[at].dest_pos implies false by {
            lemma_own_mover(scene, i, j);
        }
    }
    assert(!scene.halted(at));
    assert forall|n: nat| !scene.blocked_within(n, at) by {
        if scene.blocked_within(n, at) {
            let k = choose|k: int|
                0 <= k < scene.movers().len() && scene.movers()[at].dest_pos == (
                #[trigger] scene.movers()[k]).current_pos && scene.blocked_within(
                    (n - 1) as nat,
                    k,
                );
            let maker = lemma_mover_made(scene, k);
            assert(scene.world.creeps[maker].pos == scene.walker(i).dest_pos);
        }
    }
    lemma_reaches(scene, i);
}

/// Of two living creeps on one tile, where no two share a tile, both are one.
proof fn lemma_one_on_tile(scene: Scene, i: int, k: int)
    requires
        tiles_differ(scene.world.creeps@),
        0 <= i < scene.world.creeps.len(),
        0 <= k < scene.world.creeps.len(),
        scene.world.creeps[i].alive(),
        scene.world.creeps[k].alive(),
        scene.world.creeps[i].pos == scene.world.creeps[k].pos,
    ensures
        i == k,
{
    if i < k {
        assert(scene.world.creeps@[i].pos != scene.world.creeps@[k].pos);
    } else if k < i {
        assert(scene.world.creeps@[k].pos != scene.world.creeps@[i].pos);
    }
}

/// A tile that one living creep alone holds, and whose mover wins, is not occupied.
proof fn lemma_vacated(scene: Scene, i: int)
    requires
        ids_differ(scene.world.creeps@),
        tiles_differ(scene.world.creeps@),
        scene.walks(i),
        wins(scene.movers(), place(scene, i)),
    ensures
        !scene.occupied(scene.world.creeps[i].pos),
{
    if scene.occupied(scene.world.creeps[i].pos) {
        let k = choose|k: int|
            #[trigger] scene.remains(k) && scene.world.creeps[k].pos == scene.world.creeps[i].pos;
        lemma_one_on_tile(scene, i, k);
        let id = scene.world.creeps[i].id;
        lemma_mover_index(scene.movers(), id);
        lemma_place(scene, i);
        assert(scene.movers()[place(scene, i)].id == id);
        lemma_own_mover(scene, i, mover_index(scene.movers(), id)->0);
    }
}

/// Two creeps that ask for each other's tile swap, unless one of the tiles is a wall or some rival
/// for them ranks as high as a swap.
pub proof fn lemma_swap(scene: Scene, a: int, b: int)
    requires
        ids_differ(scene.world.creeps@),
        tiles_differ(scene.world.creeps@),
        a != b,
        scene.walks(a),
        scene.walks(b),
        scene.walker(a).dest_pos == scene.world.creeps[b].pos,
        scene.walker(b).dest_pos == scene.world.creeps[a].pos,
        !scene.walled(scene.world.creeps[a].pos),
        !scene.walled(scene.world.creeps[b].pos),
        forall|j: int|
            0 <= j < scene.movers().len() && ((#[trigger] scene.movers()[j]).dest_pos
                == scene.world.creeps[a].pos || scene.movers()[j].dest_pos
                == scene.world.creeps[b].pos) ==> scene.movers()[j].id == scene.world.creeps[a].id
                || scene.movers()[j].id == scene.world.creeps[b].id || affected(scene.movers(), j)
                < 100,
    ensures
        scene.resolved().contains_key(scene.world.creeps[a].id),
        scene.resolved()[scene.world.creeps[a].id] == scene.world.creeps[b].pos,
        scene.resolved().contains_key(scene.world.creeps[b].id),
        scene.resolved()[scene.world.creeps[b].id] == scene.world.creeps[a].pos,
{
    lemma_place(scene, a);
    lemma_place(scene, b);
    lemma_swap_wins(scene, a, b);
    lemma_swap_wins(scene, b, a);
    lemma_vacated(scene, a);
    lemma_vacated(scene, b);
    assert forall|n: nat| !scene.blocked_within(n, place(scene, a)) by {
        lemma_swap_unblocked(scene, a, b, n);
    }
    assert forall|n: nat| !scene.blocked_within(n, place(scene, b)) by {
        lemma_swap_unblocked(scene, a, b, n);
    }
    lemma_reaches(scene, a);
    lemma_reaches(scene, b);
}

proof fn lemma_swap_wins(scene: Scene, a: int, b: int)
    requires
        ids_differ(scene.world.creeps@),
        tiles_differ(scene.world.creeps@),
        a != b,
        scene.walks(a),
        scene.walks(b),
        scene.walker(a).dest_pos == scene.world.creeps[b].pos,
        scene.walker(b).dest_pos == scene.world.creeps[a].pos,
        forall|j: int|
            0 <= j < scene.movers().len() && (#[trigger] scene.movers()[j]).dest_pos
                == scene.world.creeps[b].pos ==> scene.movers()[j].id == scene.world.creeps[a].id
                || scene.movers()[j].id == scene.world.creeps[b].id || affected(scene.movers(), j)
                < 100,
    ensures
        wins(scene.movers(), place(scene, a)),
{
    let movers = scene.movers();
    let at = place(scene, a);
    lemma_place(scene, a);
    lemma_place(scene, b);
    assert(movers[place(scene, b)].current_pos == movers[at].dest_pos);
    assert(swaps(movers, at));
    assert forall|j: int|
        0 <= j < movers.len() && j != at && (#[trigger] movers[j]).dest_pos
            == movers[at].dest_pos implies !outranks(movers, j, at) && (j < at ==> outranks(
        movers,
        at,
        j,
    )) by {
        if movers[j].id == scene.world.creeps[a].id {
            lemma_own_mover(scene, a, j);
        } else if movers[j].id == scene.world.creeps[b].id {
            lemma_own_mover(scene, b, j);
            lemma_one_on_tile(scene, a, b);
        }
    }
}

proof fn lemma_swap_unblocked(scene: Scene, a: int, b: int, n: nat)
    requires
        tiles_differ(scene.world.creeps@),
        scene.walks(a),
        scene.walks(b),
        scene.walker(a).dest_pos == scene.world.creeps[b].pos,
        scene.walker(b).dest_pos == scene.world.creeps[a].pos,
        !scene.halted(place(scene, a)),
        !scene.halted(place(scene, b)),
    ensures
        !scene.blocked_within(n, place(scene, a)),
        !scene.blocked_within(n, place(scene, b)),
    decreases n,
{
    lemma_place(scene, a);
    lemma_place(scene, b);
    if n > 0 {
        lemma_swap_unblocked(scene, a, b, (n - 1) as nat);
        if scene.blocked_within(n, place(scene, a)) {
            let k = choose|k: int|
                0 <= k < scene.movers().len() && scene.movers()[place(scene, a)].dest_pos == (
                #[trigger] scene.movers()[k]).current_pos && scene.blocked_within(
                    (n - 1) as nat,
                    k,
                );
            let maker = lemma_mover_made(scene, k);
            lemma_one_on_tile(scene, maker, b);
        }
        if scene.blocked_within(n, place(scene, b)) {
            let k = choose|k: int|
                0 <= k < scene.movers().len() && scene.movers()[place(scene, b)].dest_pos == (
                #[trigger] scene.movers()[k]).current_pos && scene.blocked_within(
                    (n - 1) as nat,
                    k,
                );
            let maker = lemma_mover_made(scene, k);
            lemma_one_on_tile(scene, maker, a);
        }
    }
}

/// A creep dragged by one that moves by itself follows it, whatever its own fatigue and MOVE parts,
/// unless the puller's tile is a wall or another mover wants it.
pub proof fn lemma_pulled_moves(scene: Scene, puller: int, target: int)
    requires
        ids_differ(scene.world.creeps@),
        tiles_differ(scene.world.creeps@),
        scene.walks(puller),
        0 <= target < scene.world.creeps.len(),
        scene.world.creeps[target].alive(),
        scene.drags(scene.world.creeps[puller].id, scene.world.creeps[target].id),
        scene.resolved().contains_key(scene.world.creeps[puller].id),
        !scene.walled(scene.world.creeps[puller].pos),
        forall|j: int|
            0 <= j < scene.movers().len() && (#[trigger] scene.movers()[j]).dest_pos
                == scene.world.creeps[puller].pos ==> scene.movers()[j].id
                == scene.world.creeps[target].id,
    ensures
        scene.resolved().contains_key(scene.world.creeps[target].id),
        scene.resolved()[scene.world.creeps[target].id] == scene.world.creeps[puller].pos,
{
    let p = scene.world.creeps[puller].id;
    let t = scene.world.creeps[target].id;
    let creeps = scene.world.creeps@;
    lemma_living_index(creeps, p);
    lemma_living_index(creeps, t);
    let tl = scene.living(t)->0;
    let pl = scene.living(p)->0;
    assert(tl == target) by {
        if tl < target {
            assert(creeps[tl].id != creeps[target].id);
        } else if target < tl {
            assert(creeps[target].id != creeps[tl].id);
        }
    }
    assert(pl == puller) by {
        if pl < puller {
            assert(creeps[pl].id != creeps[puller].id);
        } else if puller < pl {
            assert(creeps[puller].id != creeps[pl].id);
        }
    }
    lemma_one_puller(scene, p, scene.puller_of(t), t);
    assert(scene.id_walks(p));
    assert(scene.follows(target));
    let at = place(scene, target);
    lemma_place(scene, target);
    lemma_place(scene, puller);
    let front = lemma_moved_as(scene, p);
    lemma_own_mover(scene, puller, front);
    lemma_not_halted(scene, front);
    lemma_vacated(scene, puller);
    assert(wins(scene.movers(), at)) by {
        assert forall|j: int|
            0 <= j < scene.movers().len() && j != at && (#[trigger] scene.movers()[j]).dest_pos
                == scene.movers()[at].dest_pos implies false by {
            lemma_own_mover(scene, target, j);
        }
    }
    assert forall|n: nat| !scene.blocked_within(n, at) by {
        if scene.blocked_within(n, at) {
            let k = choose|k: int|
                0 <= k < scene.movers().len() && scene.movers()[at].dest_pos == (
                #[trigger] scene.movers()[k]).current_pos && scene.blocked_within(
                    (n - 1) as nat,
                    k,
                );
            let maker = lemma_mover_made(scene, k);
            lemma_one_on_tile(scene, maker, puller);
        }
    }
    lemma_reaches(scene, target);
}

/// No creep moves onto a tile where a living creep stays: whoever stands there moves away.
pub proof fn lemma_occupants_leave(scene: Scene, id: CreepId, occupant: int)
    requires
        ids_differ(scene.world.creeps@),
        scene.resolved().contains_key(id),
        0 <= occupant < scene.world.creeps.len(),
        scene.world.creeps[occupant].alive(),
        scene.world.creeps[occupant].pos == scene.resolved()[id],
    ensures
        scene.resolved().contains_key(scene.world.creeps[occupant].id),
{
    let c = scene.world.creeps[occupant];
    let j = lemma_moved_as(scene, id);
    lemma_not_halted(scene, j);
    lemma_mover_index(scene.movers(), c.id);
    assert(!scene.remains(occupant));
    let m = mover_index(scene.movers(), c.id)->0;
    lemma_own_mover(scene, occupant, m);
    if scene.blocked(m) {
        lemma_column_stops(scene, m, j);
    }
    lemma_moved_by(scene, scene.movers().len() as int);
}

/// One creep per tile is kept: if no two living creeps share a tile before the moves, none do after.
pub proof fn lemma_one_creep_per_tile(scene: Scene, i: int, j: int)
    requires
        ids_differ(scene.world.creeps@),
        tiles_differ(scene.world.creeps@),
        0 <= i < j < scene.world.creeps.len(),
        scene.world.creeps[i].alive(),
        scene.world.creeps[j].alive(),
    ensures
        moved_pos(scene.resolved(), scene.world.creeps[i]) != moved_pos(
            scene.resolved(),
            scene.world.creeps[j],
        ),
{
    let a = scene.world.creeps@[i];
    let b = scene.world.creeps@[j];
    assert(a.id != b.id && a.pos != b.pos);
    if scene.resolved().contains_key(a.id) && scene.resolved().contains_key(b.id) {
        lemma_destinations_differ(scene, a.id, b.id);
    } else if scene.resolved().contains_key(a.id) {
        if scene.resolved()[a.id] == b.pos {
            lemma_occupants_leave(scene, a.id, j);
        }
    } else if scene.resolved().contains_key(b.id) {
        if scene.resolved()[b.id] == a.pos {
            lemma_occupants_leave(scene, b.id, i);
        }
    }
}

/// Whenever some creep may drag another, one does: that with the lowest id.
pub proof fn lemma_drag_exists(scene: Scene, puller: CreepId, target: CreepId)
    requires
        scene.may_pull(puller, target),
    ensures
        scene.is_dragged(target),
    decreases puller,
{
    if scene.drags(puller, target) {
    } else {
        let other = choose|other: CreepId|
            #[trigger] scene.may_pull(other, target) && !(puller <= other);
        lemma_drag_exists(scene, other, target);
    }
}

/// Only a creep that asks to move, or that is dragged, moves.
pub proof fn lemma_movers_are_asked(scene: Scene, id: CreepId)
    requires
        scene.resolved().contains_key(id),
    ensures
        scene.moves.contains_key(id) || scene.is_dragged(id),
{
    let j = lemma_moved_as(scene, id);
    lemma_mover_made(scene, j);
}

/// A creep that moves by itself is alive and rested, has a working MOVE part, and takes the one step
/// it asked for.
pub proof fn lemma_walkers_step(scene: Scene, id: CreepId)
    requires
        scene.resolved().contains_key(id),
        !scene.is_dragged(id),
    ensures
        exists|i: int|
            #![trigger scene.world.creeps[i]]
            0 <= i < scene.world.creeps.len() && scene.world.creeps[i].id == id
                && scene.world.creeps[i].alive() && scene.world.creeps[i].fatigue == 0
                && scene.world.creeps[i].body.mobile() && step_to(
                scene.world.creeps[i].pos,
                scene.moves[id],
            ) == Some(scene.resolved()[id]),
{
    let j = lemma_moved_as(scene, id);
    let i = lemma_mover_made(scene, j);
    assert(scene.world.creeps[i].id == id);
}

/// A dragged creep that moves ends on its puller's tile, and the puller moves away: a blocked puller
/// drags no one.
pub proof fn lemma_pulled_follow(scene: Scene, id: CreepId)
    requires
        ids_differ(scene.world.creeps@),
        scene.resolved().contains_key(id),
        scene.is_dragged(id),
    ensures
        scene.living(scene.puller_of(id)) is Some,
        scene.resolved()[id] == scene.world.creeps[scene.living(scene.puller_of(id))->0].pos,
        scene.resolved().contains_key(scene.puller_of(id)),
{
    let j = lemma_moved_as(scene, id);
    let i = lemma_mover_made(scene, j);
    let puller = scene.puller_of(id);
    assert(scene.drags(puller, id));
    lemma_living_index(scene.world.creeps@, puller);
    lemma_occupants_leave(scene, id, scene.living(puller)->0);
}

/// A living creep that is no mover holds its tile, even one it shares: no creep moves there.
pub proof fn lemma_stayer_blocks(scene: Scene, id: CreepId, stayer: int)
    requires
        scene.resolved().contains_key(id),
        0 <= stayer < scene.world.creeps.len(),
        scene.world.creeps[stayer].alive(),
        forall|j: int|
            0 <= j < scene.movers().len() ==> (#[trigger] scene.movers()[j]).id
                != scene.world.creeps[stayer].id,
    ensures
        scene.resolved()[id] != scene.world.creeps[stayer].pos,
{
    let j = lemma_moved_as(scene, id);
    lemma_not_halted(scene, j);
    lemma_mover_index(scene.movers(), scene.world.creeps[stayer].id);
    assert(scene.remains(stayer));
}

/// A mover moves exactly if it is not blocked; in particular, losers of a contested tile stay.
pub proof fn lemma_losers_stay(scene: Scene, j: int)
    requires
        ids_differ(scene.world.creeps@),
        0 <= j < scene.movers().len(),
    ensures
        scene.resolved().contains_key(scene.movers()[j].id) <==> !scene.blocked(j),
        !wins(scene.movers(), j) ==> !scene.resolved().contains_key(scene.movers()[j].id),
{
    let id = scene.movers()[j].id;
    let i = lemma_mover_made(scene, j);
    lemma_moved_by(scene, scene.movers().len() as int);
    if scene.resolved().contains_key(id) {
        let k = lemma_moved_as(scene, id);
        lemma_own_mover(scene, i, j);
        lemma_own_mover(scene, i, k);
        lemma_not_halted(scene, j);
    }
}

} // verus!
