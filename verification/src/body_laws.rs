//! What the counts of a creep body amount to: how many parts work, what they add up to, and how few
//! CARRY parts hold a load.

use crate::body::{BodyPartDef, BoostTier, Part, SimBody};
use crate::world::SimCreep;
use vstd::arithmetic::div_mod::{lemma_basic_div, lemma_div_plus_one, lemma_div_pos_is_pos};
use vstd::prelude::*;

verus! {

/// The places of the working parts of one kind and boost tier.
pub open spec fn working(body: SimBody, part: Part, tier: BoostTier) -> Set<int> {
    Set::new(
        |i: int|
            0 <= i < body.parts.len() && body.parts[i] == (BodyPartDef { part, boost: tier })
                && body.hits_at(i) > 0,
    )
}

/// The places of the working parts that are neither MOVE nor CARRY.
pub open spec fn bearing(body: SimBody) -> Set<int> {
    Set::new(
        |i: int|
            0 <= i < body.parts.len() && body.parts[i].part != Part::Move && body.parts[i].part
                != Part::Carry && body.hits_at(i) > 0,
    )
}

/// The numbers of a set that lie below `n`.
spec fn below(places: Set<int>, n: int) -> Set<int> {
    Set::new(|i: int| places.contains(i) && i < n)
}

/// Of places from 0 on, one more lies below `n` than below `n - 1` if `n - 1` is one of them.
proof fn lemma_below_step(places: Set<int>, n: int)
    requires
        forall|i: int| #[trigger] places.contains(i) ==> i >= 0,
        n >= 0,
    ensures
        below(places, n).finite(),
        n > 0 ==> below(places, n).len() == below(places, n - 1).len() + if places.contains(n - 1) {
            1nat
        } else {
            0nat
        },
        n == 0 ==> below(places, n).len() == 0,
    decreases n,
{
    if n == 0 {
        assert(below(places, 0) =~= Set::empty());
    } else {
        lemma_below_step(places, n - 1);
        if places.contains(n - 1) {
            assert(below(places, n) =~= below(places, n - 1).insert(n - 1));
        } else {
            assert(below(places, n) =~= below(places, n - 1));
        }
    }
}

proof fn lemma_counts_below(body: SimBody, part: Part, n: int)
    requires
        0 <= n <= body.parts.len(),
    ensures
        ({
            let n0 = below(working(body, part, BoostTier::Unboosted), n).len();
            let n1 = below(working(body, part, BoostTier::T1), n).len();
            let n2 = below(working(body, part, BoostTier::T2), n).len();
            let n3 = below(working(body, part, BoostTier::T3), n).len();
            &&& body.count(part, n) == n0 + n1 + n2 + n3
            &&& body.boosted_count(part, n) == n0 + 2 * n1 + 3 * n2 + 4 * n3
        }),
        body.structural_count(n) == below(bearing(body), n).len(),
    decreases n,
{
    lemma_below_step(working(body, part, BoostTier::Unboosted), n);
    lemma_below_step(working(body, part, BoostTier::T1), n);
    lemma_below_step(working(body, part, BoostTier::T2), n);
    lemma_below_step(working(body, part, BoostTier::T3), n);
    lemma_below_step(bearing(body), n);
    if n > 0 {
        lemma_counts_below(body, part, n - 1);
    }
}

/// The working parts of a kind count once each, and by their boost 1, 2, 3 or 4 times; the
/// structural weight counts the working parts that are neither MOVE nor CARRY.
pub proof fn lemma_counts_are_sizes(body: SimBody, part: Part)
    ensures
        ({
            let n0 = working(body, part, BoostTier::Unboosted).len();
            let n1 = working(body, part, BoostTier::T1).len();
            let n2 = working(body, part, BoostTier::T2).len();
            let n3 = working(body, part, BoostTier::T3).len();
            &&& body.count(part, body.parts.len() as int) == n0 + n1 + n2 + n3
            &&& body.boosted_count(part, body.parts.len() as int) == n0 + 2 * n1 + 3 * n2 + 4 * n3
        }),
        body.structural_count(body.parts.len() as int) == bearing(body).len(),
{
    let n = body.parts.len() as int;
    lemma_counts_below(body, part, n);
    assert(below(working(body, part, BoostTier::Unboosted), n) =~= working(
        body,
        part,
        BoostTier::Unboosted,
    ));
    assert(below(working(body, part, BoostTier::T1), n) =~= working(body, part, BoostTier::T1));
    assert(below(working(body, part, BoostTier::T2), n) =~= working(body, part, BoostTier::T2));
    assert(below(working(body, part, BoostTier::T3), n) =~= working(body, part, BoostTier::T3));
    assert(below(bearing(body), n) =~= bearing(body));
}

/// The move rate counts the working MOVE parts by their boost.
pub proof fn lemma_mobility_is_size(body: SimBody)
    ensures
        body.mobility() == working(body, Part::Move, BoostTier::Unboosted).len() + 2 * working(
            body,
            Part::Move,
            BoostTier::T1,
        ).len() + 3 * working(body, Part::Move, BoostTier::T2).len() + 4 * working(
            body,
            Part::Move,
            BoostTier::T3,
        ).len(),
        body.mobile() <==> exists|i: int|
            0 <= i < body.parts.len() && (#[trigger] body.parts[i]).part == Part::Move
                && body.hits_at(i) > 0,
{
    lemma_counts_are_sizes(body, Part::Move);
    if body.mobile() {
        let i = choose|i: int| body.works(Part::Move, i);
        assert(body.parts[i].part == Part::Move);
    }
    if exists|i: int|
        0 <= i < body.parts.len() && (#[trigger] body.parts[i]).part == Part::Move && body.hits_at(i)
            > 0 {
        let i = choose|i: int|
            0 <= i < body.parts.len() && (#[trigger] body.parts[i]).part == Part::Move
                && body.hits_at(i) > 0;
        assert(body.works(Part::Move, i));
    }
}

/// A part holds from 0 to 100 hits, and what lies outside the body holds none.
pub proof fn lemma_part_hits_range(body: SimBody, i: int)
    ensures
        0 <= body.hits_at(i) <= 100,
        !(0 <= i < body.parts.len()) ==> body.hits_at(i) == 0,
        0 <= i < body.parts.len() && body.hits >= 100 * (body.parts.len() - i) ==> body.hits_at(i)
            == 100,
        0 <= i < body.parts.len() && 100 * (body.parts.len() - 1 - i) < body.hits < 100 * (
        body.parts.len() - i) ==> body.hits_at(i) == body.hits - 100 * (body.parts.len() - 1 - i),
        0 <= i < body.parts.len() && body.hits <= 100 * (body.parts.len() - 1 - i) ==> body.hits_at(i)
            == 0,
{
}

/// What part `i` can carry: 50, 100, 150 or 200 by its boost if it is a working CARRY part.
pub open spec fn hold(body: SimBody, i: int) -> int {
    if body.parts[i].part == Part::Carry && body.hits_at(i) > 0 {
        match body.parts[i].boost {
            BoostTier::Unboosted => 50,
            BoostTier::T1 => 100,
            BoostTier::T2 => 150,
            BoostTier::T3 => 200,
        }
    } else {
        0
    }
}

/// What the parts `from..to` can carry together.
pub open spec fn hold_between(body: SimBody, from: int, to: int) -> int
    decreases to - from,
{
    if from >= to {
        0
    } else {
        hold_between(body, from, to - 1) + hold(body, to - 1)
    }
}

/// The places of the working CARRY parts among the parts `from..to`.
pub open spec fn carriers(body: SimBody, from: int, to: int) -> Set<int> {
    Set::new(
        |i: int|
            from <= i < to && 0 <= i < body.parts.len() && body.parts[i].part == Part::Carry
                && body.hits_at(i) > 0,
    )
}

proof fn lemma_carriers_step(body: SimBody, from: int, to: int)
    requires
        0 <= from <= to <= body.parts.len(),
    ensures
        carriers(body, from, to).finite(),
        from < to ==> carriers(body, from, to).len() == carriers(body, from, to - 1).len() + if hold(
            body,
            to - 1,
        ) > 0 {
            1nat
        } else {
            0nat
        },
        from == to ==> carriers(body, from, to).len() == 0,
    decreases to - from,
{
    if from == to {
        assert(carriers(body, from, to) =~= Set::empty());
    } else {
        lemma_carriers_step(body, from, to - 1);
        if hold(body, to - 1) > 0 {
            assert(carriers(body, from, to) =~= carriers(body, from, to - 1).insert(to - 1));
        } else {
            assert(carriers(body, from, to) =~= carriers(body, from, to - 1));
        }
    }
}

proof fn lemma_hold_bounds(body: SimBody, from: int, to: int)
    ensures
        hold_between(body, from, to) >= 0,
    decreases to - from,
{
    if from < to {
        lemma_hold_bounds(body, from, to - 1);
    }
}

proof fn lemma_load_place(body: SimBody, load: int, n: int) -> (first: int)
    requires
        0 <= n <= body.parts.len(),
    ensures
        0 <= first <= n,
        body.loaded_count(load, n) == carriers(body, first, n).len(),
        first > 0 ==> hold_between(body, first, n) >= load,
        first < n ==> hold(body, first) > 0 && hold_between(body, first + 1, n) < load || first == 0
            && hold_between(body, 0, n) < load,
    decreases n,
{
    if n == 0 || load <= 0 {
        lemma_carriers_step(body, n, n);
        n
    } else {
        let held = hold(body, n - 1);
        let first = lemma_load_place(body, load - held, n - 1);
        lemma_carriers_step(body, first, n);
        assert(body.loaded_count(load, n) == body.loaded_count(load - held, n - 1) + if held > 0 {
            1int
        } else {
            0int
        });
        lemma_hold_bounds(body, first, n - 1);
        lemma_hold_bounds(body, first + 1, n - 1);
        if first == n - 1 && held == 0 {
            // Nothing is loaded so far, and this part holds nothing: only the front is left.
            if first > 0 {
                assert(hold_between(body, n - 1, n - 1) == 0);
                assert(load <= 0);
            }
        }
        first
    }
}

/// The loaded CARRY parts are the fewest rearmost ones that hold the load: with all working CARRY
/// parts from some place on counted, those hold the load unless they are all there are, and without
/// the foremost of them the rest would not.
pub proof fn lemma_fewest_rear_carriers(body: SimBody, load: int)
    ensures
        ({
            let n = body.parts.len() as int;
            exists|first: int|
                0 <= first <= n && body.loaded_count(load, n) == #[trigger] carriers(
                    body,
                    first,
                    n,
                ).len() && (first > 0 ==> hold_between(body, first, n) >= load) && (first < n
                    ==> hold_between(body, first + 1, n) < load)
        }),
{
    let n = body.parts.len() as int;
    let first = lemma_load_place(body, load, n);
    lemma_hold_bounds(body, first, n);
    lemma_hold_split(body, first, n);
    assert(body.loaded_count(load, n) == carriers(body, first, n).len());
}

proof fn lemma_hold_split(body: SimBody, from: int, to: int)
    ensures
        from < to ==> hold_between(body, from, to) == hold(body, from) + hold_between(
            body,
            from + 1,
            to,
        ),
    decreases to - from,
{
    if from < to - 1 {
        lemma_hold_split(body, from, to - 1);
    } else if from == to - 1 {
        assert(hold_between(body, from, from) == 0);
        assert(hold_between(body, to, to) == 0);
    }
}

/// Where every CARRY part has one boost, of multiplier `m`, a load takes one part per 50 `m` units or
/// part of them, as far as working CARRY parts reach.
pub proof fn lemma_even_load(body: SimBody, tier: BoostTier, m: int, load: int, n: int)
    requires
        0 <= n <= body.parts.len(),
        m == match tier {
            BoostTier::Unboosted => 1int,
            BoostTier::T1 => 2int,
            BoostTier::T2 => 3int,
            BoostTier::T3 => 4int,
        },
        forall|i: int|
            0 <= i < body.parts.len() && (#[trigger] body.parts[i]).part == Part::Carry
                ==> body.parts[i].boost == tier,
        load >= 0,
    ensures
        ({
            let needed = (load + 50 * m - 1) / (50 * m);
            let there = carriers(body, 0, n).len();
            body.loaded_count(load, n) == if needed <= there {
                needed
            } else {
                there as int
            }
        }),
    decreases n,
{
    lemma_carriers_step(body, 0, n);
    let c = 50 * m;
    if load > 0 {
        lemma_div_plus_one(load - 1, c);
        lemma_div_pos_is_pos(load - 1, c);
    } else {
        lemma_basic_div(c - 1, c);
    }
    if n > 0 && load > 0 {
        if hold(body, n - 1) > 0 {
            assert(body.parts[n - 1].part == Part::Carry);
            if load > c {
                lemma_even_load(body, tier, m, load - c, n - 1);
                assert(load - c + c - 1 == load - 1);
            } else {
                lemma_even_load(body, tier, m, 0, n - 1);
                lemma_basic_div(c - 1, c);
                lemma_basic_div(load - 1, c);
                lemma_loaded_none(body, load - c, n - 1);
            }
        } else {
            lemma_even_load(body, tier, m, load, n - 1);
        }
    }
}

proof fn lemma_loaded_none(body: SimBody, load: int, n: int)
    requires
        load <= 0,
    ensures
        body.loaded_count(load, n) == 0,
{
}

/// A creep weighs its structural parts and the CARRY parts that its load takes: the fewest rearmost
/// that hold it.
pub proof fn lemma_weight_of(c: SimCreep)
    ensures
        ({
            let n = c.body.parts.len() as int;
            exists|first: int|
                0 <= first <= n && c.weight() == bearing(c.body).len() + (#[trigger] carriers(
                    c.body,
                    first,
                    n,
                )).len() && (first > 0 ==> hold_between(c.body, first, n) >= c.carry_used) && (first
                    < n ==> hold_between(c.body, first + 1, n) < c.carry_used)
        }),
        c.carry_used == 0 ==> c.weight() == bearing(c.body).len(),
        c.alive() <==> c.body.hits > 0,
{
    let n = c.body.parts.len() as int;
    lemma_fewest_rear_carriers(c.body, c.carry_used as int);
    lemma_counts_are_sizes(c.body, Part::Move);
    let first = choose|first: int|
        0 <= first <= n && c.body.loaded_count(c.carry_used as int, n) == #[trigger] carriers(
            c.body,
            first,
            n,
        ).len() && (first > 0 ==> hold_between(c.body, first, n) >= c.carry_used) && (first < n
            ==> hold_between(c.body, first + 1, n) < c.carry_used);
    assert(c.weight() == bearing(c.body).len() + carriers(c.body, first, n).len());
}

} // verus!
