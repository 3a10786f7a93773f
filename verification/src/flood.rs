//! Reachability over the tiles of a room, and the stack-driven flood fill that computes it.
//!
//! Tiles are 8-connected, as creep movement is. A fill keeps the tiles it has reached and a stack of
//! tiles still to look at; [`flooding`] is what both fills of this crate maintain.

use crate::position::{distance, ROOM_SIZE};
use vstd::prelude::*;

verus! {

/// The tile lies inside a room.
pub open spec fn in_room(tile: (u8, u8)) -> bool {
    tile.0 < ROOM_SIZE && tile.1 < ROOM_SIZE
}

/// Two different tiles touch, diagonals included.
pub open spec fn touching(a: (u8, u8), b: (u8, u8)) -> bool {
    &&& a != b
    &&& distance(a.0 as int, b.0 as int) <= 1
    &&& distance(a.1 as int, b.1 as int) <= 1
}

/// A walk over open tiles: each next tile touches the last and lies inside the room.
pub open spec fn is_walk(open: spec_fn((u8, u8)) -> bool, walk: Seq<(u8, u8)>) -> bool {
    &&& walk.len() > 0
    &&& forall|i: int| 0 <= i < walk.len() ==> open(#[trigger] walk[i])
    &&& forall|i: int, j: int|
        #![trigger walk[i], walk[j]]
        0 <= i && j == i + 1 && j < walk.len() ==> touching(walk[i], walk[j]) && in_room(walk[j])
}

/// A walk leads from `start` to `tile`.
pub open spec fn reachable(
    open: spec_fn((u8, u8)) -> bool,
    start: (u8, u8),
    tile: (u8, u8),
) -> bool {
    exists|walk: Seq<(u8, u8)>|
        #[trigger] is_walk(open, walk) && walk[0] == start && walk.last() == tile
}

/// A fill from `start` that has reached `region` and still has `stack` to look at.
pub open spec fn flooding(
    open: spec_fn((u8, u8)) -> bool,
    start: (u8, u8),
    region: Set<(u8, u8)>,
    stack: Seq<(u8, u8)>,
) -> bool {
    &&& forall|t: (u8, u8)| #[trigger] region.contains(t) ==> reachable(open, start, t)
    &&& forall|i: int|
        0 <= i < stack.len() && open(#[trigger] stack[i]) ==> reachable(open, start, stack[i])
    &&& open(start) ==> region.contains(start) || stack.contains(start)
    &&& forall|a: (u8, u8), b: (u8, u8)|
        #![trigger region.contains(a), touching(a, b)]
        region.contains(a) && touching(a, b) && in_room(b) && open(b) ==> region.contains(b)
            || stack.contains(b)
}

/// An open tile reaches itself.
pub proof fn lemma_reach_start(open: spec_fn((u8, u8)) -> bool, start: (u8, u8))
    requires
        open(start),
    ensures
        reachable(open, start, start),
{
    let walk = seq![start];
    assert(is_walk(open, walk));
    assert(walk.last() == start);
}

/// An open tile that touches a reached one is reached.
pub proof fn lemma_reach_step(
    open: spec_fn((u8, u8)) -> bool,
    start: (u8, u8),
    a: (u8, u8),
    b: (u8, u8),
)
    requires
        reachable(open, start, a),
        touching(a, b),
        in_room(b),
        open(b),
    ensures
        reachable(open, start, b),
{
    let walk = choose|walk: Seq<(u8, u8)>|
        #[trigger] is_walk(open, walk) && walk[0] == start && walk.last() == a;
    let longer = walk.push(b);
    assert forall|i: int, j: int|
        #![trigger longer[i], longer[j]]
        0 <= i && j == i + 1 && j < longer.len() implies touching(longer[i], longer[j]) && in_room(
        longer[j],
    ) by {
        if j < walk.len() {
            assert(longer[i] == walk[i] && longer[j] == walk[j]);
        } else {
            assert(longer[i] == walk.last());
        }
    }
    assert(is_walk(open, longer));
    assert(longer[0] == start && longer.last() == b);
}

/// Each next tile of a walk touches the last and lies inside the room.
proof fn lemma_walk_step(
    open: spec_fn((u8, u8)) -> bool,
    walk: Seq<(u8, u8)>,
    i: int,
    j: int,
)
    requires
        is_walk(open, walk),
        0 <= i,
        j == i + 1,
        j < walk.len(),
    ensures
        touching(walk[i], walk[j]),
        in_room(walk[j]),
{
    assert(touching(walk[i], walk[j]));
}

/// A walk taken after another leads on from where that ended.
pub proof fn lemma_reach_through(
    open: spec_fn((u8, u8)) -> bool,
    start: (u8, u8),
    middle: (u8, u8),
    tile: (u8, u8),
)
    requires
        reachable(open, start, middle),
        reachable(open, middle, tile),
    ensures
        reachable(open, start, tile),
{
    let walk = choose|walk: Seq<(u8, u8)>|
        #[trigger] is_walk(open, walk) && walk[0] == middle && walk.last() == tile;
    lemma_reach_along(open, start, walk, walk.len() - 1);
}

proof fn lemma_reach_along(
    open: spec_fn((u8, u8)) -> bool,
    start: (u8, u8),
    walk: Seq<(u8, u8)>,
    i: int,
)
    requires
        is_walk(open, walk),
        reachable(open, start, walk[0]),
        0 <= i < walk.len(),
    ensures
        reachable(open, start, walk[i]),
    decreases i,
{
    if i > 0 {
        lemma_reach_along(open, start, walk, i - 1);
        lemma_walk_step(open, walk, i - 1, i);
        lemma_reach_step(open, start, walk[i - 1], walk[i]);
    }
}

/// Inside the room a walk leads back as well.
pub proof fn lemma_reach_back(
    open: spec_fn((u8, u8)) -> bool,
    start: (u8, u8),
    tile: (u8, u8),
)
    requires
        in_room(start),
        reachable(open, start, tile),
    ensures
        reachable(open, tile, start),
{
    let walk = choose|walk: Seq<(u8, u8)>|
        #[trigger] is_walk(open, walk) && walk[0] == start && walk.last() == tile;
    let back = walk.reverse();
    assert forall|i: int| 0 <= i < back.len() implies open(#[trigger] back[i]) by {
        assert(back[i] == walk[walk.len() - 1 - i]);
    }
    assert forall|i: int, j: int|
        #![trigger back[i], back[j]]
        0 <= i && j == i + 1 && j < back.len() implies touching(back[i], back[j]) && in_room(
        back[j],
    ) by {
        let k = walk.len() - 1 - j;
        assert(back[j] == walk[k] && back[i] == walk[k + 1]);
        lemma_walk_step(open, walk, k, k + 1);
        if k > 0 {
            lemma_walk_step(open, walk, k - 1, k);
        }
    }
    assert(is_walk(open, back));
    assert(back[0] == tile && back.last() == start);
}

/// Two tiles of the room that reach each other reach the same tiles.
pub proof fn lemma_same_region(
    open: spec_fn((u8, u8)) -> bool,
    a: (u8, u8),
    b: (u8, u8),
    tile: (u8, u8),
)
    requires
        in_room(a),
        reachable(open, a, b),
    ensures
        reachable(open, a, tile) <==> reachable(open, b, tile),
{
    lemma_reach_back(open, a, b);
    if reachable(open, a, tile) {
        lemma_reach_through(open, b, a, tile);
    }
    if reachable(open, b, tile) {
        lemma_reach_through(open, a, b, tile);
    }
}

/// Where one set of open tiles holds another inside the room, it reaches at least as far from there.
pub proof fn lemma_reach_grows(
    open: spec_fn((u8, u8)) -> bool,
    wider: spec_fn((u8, u8)) -> bool,
    start: (u8, u8),
    tile: (u8, u8),
)
    requires
        in_room(start),
        reachable(open, start, tile),
        forall|t: (u8, u8)| in_room(t) && #[trigger] open(t) ==> wider(t),
    ensures
        reachable(wider, start, tile),
{
    let walk = choose|walk: Seq<(u8, u8)>|
        #[trigger] is_walk(open, walk) && walk[0] == start && walk.last() == tile;
    assert forall|i: int| 0 <= i < walk.len() implies wider(#[trigger] walk[i]) by {
        assert(open(walk[i]));
        if i > 0 {
            lemma_walk_step(open, walk, i - 1, i);
        }
    }
    assert(is_walk(wider, walk));
}

/// A reached tile is open, and is the start or lies inside the room.
pub proof fn lemma_reached_open(
    open: spec_fn((u8, u8)) -> bool,
    start: (u8, u8),
    tile: (u8, u8),
)
    requires
        reachable(open, start, tile),
    ensures
        open(tile),
        open(start),
        tile == start || in_room(tile),
{
    let walk = choose|walk: Seq<(u8, u8)>|
        #[trigger] is_walk(open, walk) && walk[0] == start && walk.last() == tile;
    let last = walk.len() - 1;
    assert(open(walk[last]));
    assert(open(walk[0]));
    if last > 0 {
        assert(touching(walk[last - 1], walk[last]));
    }
}

/// A fill starts with the start on its stack.
pub proof fn lemma_flood_begin(open: spec_fn((u8, u8)) -> bool, start: (u8, u8))
    ensures
        flooding(open, start, Set::empty(), seq![start]),
{
    let stack = seq![start];
    if open(start) {
        lemma_reach_start(open, start);
    }
    assert(stack[0] == start);
    assert(stack.contains(start));
}

/// A fill may drop the top of its stack if that is closed or was reached before.
pub proof fn lemma_flood_skip(
    open: spec_fn((u8, u8)) -> bool,
    start: (u8, u8),
    region: Set<(u8, u8)>,
    stack: Seq<(u8, u8)>,
)
    requires
        flooding(open, start, region, stack),
        stack.len() > 0,
        !open(stack.last()) || region.contains(stack.last()),
    ensures
        flooding(open, start, region, stack.drop_last()),
{
    let rest = stack.drop_last();
    assert forall|t: (u8, u8)| stack.contains(t) && t != stack.last() implies #[trigger] rest.contains(
        t,
    ) by {
        let i = choose|i: int| 0 <= i < stack.len() && stack[i] == t;
        assert(rest[i] == t);
    }
    assert forall|i: int| 0 <= i < rest.len() && open(#[trigger] rest[i]) implies reachable(
        open,
        start,
        rest[i],
    ) by {
        assert(stack[i] == rest[i]);
    }
    assert forall|a: (u8, u8), b: (u8, u8)|
        #![trigger region.contains(a), touching(a, b)]
        region.contains(a) && touching(a, b) && in_room(b) && open(b) implies region.contains(b)
        || rest.contains(b) by {
        if !region.contains(b) {
            assert(stack.contains(b));
        }
    }
}

/// A fill reaches the open top of its stack, and goes on with that tile's neighbours stacked.
pub proof fn lemma_flood_visit(
    open: spec_fn((u8, u8)) -> bool,
    start: (u8, u8),
    region: Set<(u8, u8)>,
    stack: Seq<(u8, u8)>,
    added: Seq<(u8, u8)>,
)
    requires
        flooding(open, start, region, stack),
        stack.len() > 0,
        open(stack.last()),
        forall|i: int|
            0 <= i < added.len() ==> touching(stack.last(), #[trigger] added[i]) && in_room(
                added[i],
            ),
        forall|t: (u8, u8)| touching(stack.last(), t) && in_room(t) ==> #[trigger] added.contains(
            t,
        ),
    ensures
        flooding(open, start, region.insert(stack.last()), stack.drop_last() + added),
{
    let tile = stack.last();
    let rest = stack.drop_last();
    let next = rest + added;
    assert(reachable(open, start, tile)) by {
        assert(open(stack[stack.len() - 1]));
    }
    assert forall|t: (u8, u8)| stack.contains(t) && t != tile implies #[trigger] next.contains(
        t,
    ) by {
        let i = choose|i: int| 0 <= i < stack.len() && stack[i] == t;
        assert(next[i] == t);
    }
    assert forall|t: (u8, u8)| #[trigger] added.contains(t) implies next.contains(t) by {
        let i = choose|i: int| 0 <= i < added.len() && added[i] == t;
        assert(next[rest.len() + i] == t);
    }
    assert forall|i: int| 0 <= i < next.len() && open(#[trigger] next[i]) implies reachable(
        open,
        start,
        next[i],
    ) by {
        if i < rest.len() {
            assert(stack[i] == next[i]);
        } else {
            assert(next[i] == added[i - rest.len()]);
            lemma_reach_step(open, start, tile, next[i]);
        }
    }
    assert forall|a: (u8, u8), b: (u8, u8)|
        #![trigger region.insert(tile).contains(a), touching(a, b)]
        region.insert(tile).contains(a) && touching(a, b) && in_room(b) && open(
            b,
        ) implies region.insert(tile).contains(b) || next.contains(b) by {
        if a == tile {
            assert(added.contains(b));
        } else {
            assert(region.contains(a));
        }
    }
}

/// A fill with nothing left to look at has reached exactly the reachable tiles.
pub proof fn lemma_flood_done(
    open: spec_fn((u8, u8)) -> bool,
    start: (u8, u8),
    region: Set<(u8, u8)>,
)
    requires
        flooding(open, start, region, Seq::empty()),
    ensures
        forall|t: (u8, u8)| #[trigger] region.contains(t) <==> reachable(open, start, t),
{
    assert forall|t: (u8, u8)| reachable(open, start, t) implies #[trigger] region.contains(t) by {
        let walk = choose|walk: Seq<(u8, u8)>|
            #[trigger] is_walk(open, walk) && walk[0] == start && walk.last() == t;
        lemma_walk_inside(open, start, region, walk, walk.len() - 1);
    }
}

proof fn lemma_walk_inside(
    open: spec_fn((u8, u8)) -> bool,
    start: (u8, u8),
    region: Set<(u8, u8)>,
    walk: Seq<(u8, u8)>,
    i: int,
)
    requires
        flooding(open, start, region, Seq::empty()),
        is_walk(open, walk),
        walk[0] == start,
        0 <= i < walk.len(),
    ensures
        region.contains(walk[i]),
    decreases i,
{
    assert(open(walk[i]));
    if i > 0 {
        lemma_walk_inside(open, start, region, walk, i - 1);
        assert(touching(walk[i - 1], walk[i]));
    }
}

/// Pushes the neighbours of a tile that lie inside the room.
pub fn push_neighbours(stack: &mut Vec<(u8, u8)>, tile: (u8, u8)) -> (added: Ghost<Seq<(u8, u8)>>)
    ensures
        final(stack)@ == old(stack)@ + added@,
        forall|i: int|
            0 <= i < added@.len() ==> touching(tile, #[trigger] added@[i]) && in_room(added@[i]),
        forall|t: (u8, u8)| touching(tile, t) && in_room(t) ==> #[trigger] added@.contains(t),
{
    let ghost mut added: Seq<(u8, u8)> = Seq::empty();
    let mut dy: i32 = -1;
    while dy <= 1
        invariant
            -1 <= dy <= 2,
            stack@ == old(stack)@ + added,
            forall|i: int|
                0 <= i < added.len() ==> touching(tile, #[trigger] added[i]) && in_room(added[i]),
            forall|t: (u8, u8)|
                touching(tile, t) && in_room(t) && t.1 - tile.1 < dy ==> #[trigger] added.contains(
                    t,
                ),
        decreases 2 - dy,
    {
        let mut dx: i32 = -1;
        while dx <= 1
            invariant
                -1 <= dy <= 1,
                -1 <= dx <= 2,
                stack@ == old(stack)@ + added,
                forall|i: int|
                    0 <= i < added.len() ==> touching(tile, #[trigger] added[i]) && in_room(
                        added[i],
                    ),
                forall|t: (u8, u8)|
                    touching(tile, t) && in_room(t) && (t.1 - tile.1 < dy || t.1 - tile.1 == dy
                        && t.0 - tile.0 < dx) ==> #[trigger] added.contains(t),
            decreases 2 - dx,
        {
            let nx: i32 = tile.0 as i32 + dx;
            let ny: i32 = tile.1 as i32 + dy;
            let ghost before = added;
            if (dx != 0 || dy != 0) && 0 <= nx && nx < ROOM_SIZE as i32 && 0 <= ny && ny
                < ROOM_SIZE as i32 {
                stack.push((nx as u8, ny as u8));
                proof {
                    added = added.push((nx as u8, ny as u8));
                    assert(stack@ =~= old(stack)@ + added);
                    assert(added.last() == (nx as u8, ny as u8));
                }
            }
            assert forall|t: (u8, u8)|
                touching(tile, t) && in_room(t) && (t.1 - tile.1 < dy || t.1 - tile.1 == dy && t.0
                    - tile.0 < dx + 1) implies #[trigger] added.contains(t) by {
                if t.1 - tile.1 == dy && t.0 - tile.0 == dx {
                    assert(t == (nx as u8, ny as u8));
                    assert(added[added.len() - 1] == t);
                } else {
                    assert(before.contains(t));
                    let i = choose|i: int| 0 <= i < before.len() && before[i] == t;
                    assert(added[i] == t);
                }
            }
            dx = dx + 1;
        }
        dy = dy + 1;
    }
    Ghost(added)
}

} // verus!
