//! The creep body model: per-part 100-hit pools, back-to-front degradation, and the boost-aware
//! counts that movement needs (MOVE, fatigue weight, loaded CARRY).

use crate::constants::{BODYPART_HITS, CARRY_CAPACITY, FATIGUE_CLEAR_PER_MOVE};
use vstd::prelude::*;

verus! {

/// The kind of a body part.
#[derive(Clone, Copy, Debug, PartialEq, Eq, Hash, Structural)]
pub enum Part {
    Move,
    Work,
    Carry,
    Attack,
    RangedAttack,
    Tough,
    Heal,
    Claim,
}

/// Boost tier for a body part. The three tiers per part kind map exactly onto the multipliers below.
#[derive(Clone, Copy, Debug, PartialEq, Eq, Default, Structural)]
pub enum BoostTier {
    #[default]
    Unboosted,
    T1,
    T2,
    T3,
}

impl BoostTier {
    /// The tier ladder of every boost but TOUGH: ×1/2/3/4.
    pub open spec fn mult(self) -> int {
        match self {
            BoostTier::Unboosted => 1,
            BoostTier::T1 => 2,
            BoostTier::T2 => 3,
            BoostTier::T3 => 4,
        }
    }

    /// Multiplier for an offensive/heal/dismantle action: ×1/2/3/4.
    pub fn action_mult(self) -> (mult: u32)
        ensures
            mult == self.mult(),
    {
        match self {
            BoostTier::Unboosted => 1,
            BoostTier::T1 => 2,
            BoostTier::T2 => 3,
            BoostTier::T3 => 4,
        }
    }

    /// Incoming-damage multiplier for a TOUGH part, in tenths: 10/7/5/3. Lower is more mitigation.
    pub fn tough_damage_ratio(self) -> (tenths: u32)
        ensures
            tenths == match self {
                BoostTier::Unboosted => 10u32,
                BoostTier::T1 => 7u32,
                BoostTier::T2 => 5u32,
                BoostTier::T3 => 3u32,
            },
    {
        match self {
            BoostTier::Unboosted => 10,
            BoostTier::T1 => 7,
            BoostTier::T2 => 5,
            BoostTier::T3 => 3,
        }
    }

    /// Fatigue-clear multiplier for a MOVE part: ×1/2/3/4.
    pub fn move_mult(self) -> (mult: u32)
        ensures
            mult == self.mult(),
    {
        self.action_mult()
    }

    /// Carry-capacity multiplier for a CARRY part: ×1/2/3/4.
    pub fn carry_capacity_mult(self) -> (mult: u32)
        ensures
            mult == self.mult(),
    {
        self.action_mult()
    }
}

/// One body part: its kind and boost tier. Current hits per part are derived from the body total,
/// see [`SimBody::part_hits`].
#[derive(Clone, Copy, Debug, PartialEq, Eq, Structural)]
pub struct BodyPartDef {
    pub part: Part,
    pub boost: BoostTier,
}

impl BodyPartDef {
    /// An unboosted part.
    pub fn new(part: Part) -> (def: BodyPartDef)
        ensures
            def == (BodyPartDef { part, boost: BoostTier::Unboosted }),
    {
        BodyPartDef { part, boost: BoostTier::Unboosted }
    }

    /// A part with the given boost.
    pub fn boosted(part: Part, boost: BoostTier) -> (def: BodyPartDef)
        ensures
            def == (BodyPartDef { part, boost }),
    {
        BodyPartDef { part, boost }
    }
}

/// A creep body: an ordered part list (front = index 0) plus the single `hits` total. Part hits are
/// derived from `hits`, not stored.
#[derive(Debug)]
pub struct SimBody {
    /// Ordered front (index 0) to back. Front parts degrade first.
    pub parts: Vec<BodyPartDef>,
    /// Current total hit points.
    pub hits: u32,
}

impl Clone for SimBody {
    fn clone(&self) -> (body: SimBody)
        ensures
            body.parts@ == self.parts@,
            body.hits == self.hits,
    {
        let mut parts: Vec<BodyPartDef> = Vec::new();
        for i in 0..self.parts.len()
            invariant
                parts@ =~= self.parts@.take(i as int),
        {
            parts.push(self.parts[i]);
        }
        assert(self.parts@.take(self.parts.len() as int) =~= self.parts@);
        SimBody { parts, hits: self.hits }
    }
}

impl SimBody {
    /// Hits of part `i`: the parts behind it fill before it, [`BODYPART_HITS`] each. A part outside
    /// the body has none.
    pub open spec fn hits_at(self, i: int) -> int {
        let left = self.hits - BODYPART_HITS * (self.parts.len() - 1 - i);
        if !(0 <= i < self.parts.len()) || left <= 0 {
            0
        } else if left >= BODYPART_HITS {
            BODYPART_HITS as int
        } else {
            left
        }
    }

    /// Part `i` is a working part of kind `part`.
    pub open spec fn works(self, part: Part, i: int) -> bool {
        &&& 0 <= i < self.parts.len()
        &&& self.parts[i].part == part
        &&& self.hits_at(i) > 0
    }

    /// Part `i` works and is neither MOVE nor CARRY.
    pub open spec fn structural(self, i: int) -> bool {
        &&& 0 <= i < self.parts.len()
        &&& self.parts[i].part != Part::Move
        &&& self.parts[i].part != Part::Carry
        &&& self.hits_at(i) > 0
    }

    /// How many of the first `n` parts are working parts of kind `part`.
    pub open spec fn count(self, part: Part, n: int) -> int
        decreases n,
    {
        if n <= 0 {
            0
        } else {
            self.count(part, n - 1) + if self.works(part, n - 1) {
                1int
            } else {
                0int
            }
        }
    }

    /// The sum of the boost multipliers of the working parts of kind `part` among the first `n`.
    pub open spec fn boosted_count(self, part: Part, n: int) -> int
        decreases n,
    {
        if n <= 0 {
            0
        } else {
            self.boosted_count(part, n - 1) + if self.works(part, n - 1) {
                self.parts[n - 1].boost.mult()
            } else {
                0int
            }
        }
    }

    /// How many of the first `n` parts work and are neither MOVE nor CARRY.
    pub open spec fn structural_count(self, n: int) -> int
        decreases n,
    {
        if n <= 0 {
            0
        } else {
            self.structural_count(n - 1) + if self.structural(n - 1) {
                1int
            } else {
                0int
            }
        }
    }

    /// How many working CARRY parts among the first `n`, taken from the back, a load of `load`
    /// reaches: each holds [`CARRY_CAPACITY`] times its boost.
    pub open spec fn loaded_count(self, load: int, n: int) -> int
        decreases n,
    {
        if n <= 0 || load <= 0 {
            0
        } else if self.works(Part::Carry, n - 1) {
            1 + self.loaded_count(load - CARRY_CAPACITY * self.parts[n - 1].boost.mult(), n - 1)
        } else {
            self.loaded_count(load, n - 1)
        }
    }

    /// The body has hit points left.
    pub open spec fn alive(self) -> bool {
        self.hits > 0
    }

    /// Boost-weighted count of working MOVE parts.
    pub open spec fn mobility(self) -> int {
        self.boosted_count(Part::Move, self.parts.len() as int)
    }

    /// Some MOVE part works.
    pub open spec fn mobile(self) -> bool {
        exists|i: int| self.works(Part::Move, i)
    }

    /// A full-health body.
    pub fn new(parts: Vec<BodyPartDef>) -> (body: SimBody)
        requires
            parts.len() * BODYPART_HITS <= u32::MAX,
        ensures
            body.parts@ == parts@,
            body.hits == parts.len() * BODYPART_HITS,
    {
        let hits: u32 = parts.len() as u32 * BODYPART_HITS;
        SimBody { parts, hits }
    }

    /// A full-health unboosted body from a part slice.
    pub fn unboosted(parts: &[Part]) -> (body: SimBody)
        requires
            parts.len() * BODYPART_HITS <= u32::MAX,
        ensures
            body.parts@ == parts@.map_values(
                |part: Part| BodyPartDef { part, boost: BoostTier::Unboosted },
            ),
            body.hits == parts.len() * BODYPART_HITS,
    {
        let mut defs: Vec<BodyPartDef> = Vec::new();
        for i in 0..parts.len()
            invariant
                defs.len() == i,
                forall|j: int|
                    0 <= j < i ==> #[trigger] defs[j] == (BodyPartDef {
                        part: parts[j],
                        boost: BoostTier::Unboosted,
                    }),
        {
            defs.push(BodyPartDef::new(parts[i]));
        }
        assert(defs@ =~= parts@.map_values(
            |part: Part| BodyPartDef { part, boost: BoostTier::Unboosted },
        ));
        SimBody::new(defs)
    }

    /// Hit points at full health.
    pub fn hits_max(&self) -> (hits: u32)
        requires
            self.parts.len() * BODYPART_HITS <= u32::MAX,
        ensures
            hits == self.parts.len() * BODYPART_HITS,
    {
        self.parts.len() as u32 * BODYPART_HITS
    }

    pub fn is_alive(&self) -> (alive: bool)
        ensures
            alive == self.alive(),
    {
        self.hits > 0
    }

    /// Current hits of part `i`, derived back-to-front: trailing parts stay full and the front part
    /// is the first to drop to 0. A part outside the body has none.
    pub fn part_hits(&self, i: usize) -> (hits: u32)
        ensures
            hits == self.hits_at(i as int),
    {
        let len: usize = self.parts.len();
        if i >= len {
            return 0;
        }
        let behind: usize = len - 1 - i;
        if behind >= u32::MAX as usize {
            return 0;
        }
        assert(BODYPART_HITS * behind == 100 * behind);
        let taken: u64 = BODYPART_HITS as u64 * behind as u64;
        if self.hits as u64 <= taken {
            0
        } else {
            let left: u64 = self.hits as u64 - taken;
            if left >= BODYPART_HITS as u64 {
                BODYPART_HITS
            } else {
                left as u32
            }
        }
    }

    /// Sum over the working parts of kind `part_type` of `base` times the part's boost multiplier,
    /// held at `u32::MAX`.
    pub fn effective_power(&self, part_type: Part, base: u32) -> (power: u32)
        ensures
            power == if base * self.boosted_count(part_type, self.parts.len() as int) > u32::MAX {
                u32::MAX as int
            } else {
                base * self.boosted_count(part_type, self.parts.len() as int)
            },
    {
        let mut units: u64 = 0;
        for i in 0..self.parts.len()
            invariant
                units == self.boosted_count(part_type, i as int),
                units <= 0xFFFF_FFFF,
        {
            proof {
                lemma_counts_bounded(*self, part_type, i + 1);
            }
            if self.parts[i].part == part_type && self.part_hits(i) > 0 {
                units = units + self.parts[i].boost.action_mult() as u64;
            }
        }
        proof {
            lemma_counts_bounded(*self, part_type, self.parts.len() as int);
        }
        assert(base * units <= 0xFFFF_FFFF * 0xFFFF_FFFF) by (nonlinear_arith)
            requires
                base <= 0xFFFF_FFFF,
                units <= 0xFFFF_FFFF,
        ;
        let power: u64 = base as u64 * units;
        if power > u32::MAX as u64 {
            u32::MAX
        } else {
            power as u32
        }
    }

    /// Count of working parts of kind `part_type`, not boost-weighted.
    pub fn alive_part_count(&self, part_type: Part) -> (count: u32)
        ensures
            count == self.count(part_type, self.parts.len() as int),
    {
        let mut n: u32 = 0;
        for i in 0..self.parts.len()
            invariant
                n == self.count(part_type, i as int),
        {
            proof {
                lemma_counts_bounded(*self, part_type, i + 1);
            }
            if self.parts[i].part == part_type && self.part_hits(i) > 0 {
                n = n + 1;
            }
        }
        n
    }

    /// The boost-weighted count of working MOVE parts: the numerator of the contention tiebreak.
    pub fn move_rate(&self) -> (rate: u32)
        ensures
            rate == self.mobility(),
    {
        proof {
            lemma_counts_bounded(*self, Part::Move, self.parts.len() as int);
        }
        self.effective_power(Part::Move, 1)
    }

    /// Count of working non-MOVE/non-CARRY parts: the structural fatigue weight.
    pub fn fatigue_weight(&self) -> (weight: u32)
        ensures
            weight == self.structural_count(self.parts.len() as int),
            weight <= 0x0FFF_FFFF,
    {
        let mut n: u32 = 0;
        for i in 0..self.parts.len()
            invariant
                n == self.structural_count(i as int),
                n <= 0x0FFF_FFFF,
        {
            proof {
                lemma_structural_bounded(*self, i + 1);
            }
            if self.parts[i].part != Part::Move && self.parts[i].part != Part::Carry
                && self.part_hits(i) > 0 {
                n = n + 1;
            }
        }
        n
    }

    /// Loaded-CARRY fatigue units for `carry_used` resources aboard: walking the body back-to-front,
    /// each working CARRY part absorbs its capacity of the load and adds 1 to the weight, until the
    /// load is exhausted. Empty CARRY parts are weightless.
    pub fn carry_weight(&self, carry_used: u32) -> (weight: u32)
        ensures
            weight == self.loaded_count(carry_used as int, self.parts.len() as int),
            weight <= 0x0FFF_FFFF,
    {
        let mut remaining: u32 = carry_used;
        let mut weight: u32 = 0;
        let mut n: usize = self.parts.len();
        proof {
            lemma_loaded_bounded(*self, carry_used as int, n as int);
        }
        while n > 0 && remaining > 0
            invariant
                n <= self.parts.len(),
                weight + self.loaded_count(remaining as int, n as int) == self.loaded_count(
                    carry_used as int,
                    self.parts.len() as int,
                ),
                self.loaded_count(carry_used as int, self.parts.len() as int) <= 0x0FFF_FFFF,
            decreases n,
        {
            proof {
                lemma_loaded_bounded(*self, remaining as int, n as int);
                lemma_loaded_bounded(
                    *self,
                    remaining - CARRY_CAPACITY * self.parts[n - 1].boost.mult(),
                    n - 1,
                );
            }
            if self.parts[n - 1].part == Part::Carry && self.part_hits(n - 1) > 0 {
                let capacity: u32 = CARRY_CAPACITY * self.parts[n - 1].boost.carry_capacity_mult();
                remaining = remaining.saturating_sub(capacity);
                weight = weight + 1;
            }
            n = n - 1;
        }
        weight
    }

    /// True if the creep has at least one working MOVE part.
    pub fn can_move(&self) -> (can: bool)
        ensures
            can == self.mobile(),
    {
        for i in 0..self.parts.len()
            invariant
                forall|j: int| 0 <= j < i ==> !self.works(Part::Move, j),
        {
            if self.parts[i].part == Part::Move && self.part_hits(i) > 0 {
                assert(self.works(Part::Move, i as int));
                return true;
            }
        }
        false
    }

    /// Fatigue cleared per tick: twice the boost-weighted count of working MOVE parts.
    pub fn fatigue_clear(&self) -> (cleared: u32)
        ensures
            cleared == FATIGUE_CLEAR_PER_MOVE * self.mobility(),
    {
        proof {
            lemma_counts_bounded(*self, Part::Move, self.parts.len() as int);
        }
        FATIGUE_CLEAR_PER_MOVE * self.move_rate()
    }
}

/// The number of parts that a hit total can keep working.
spec fn working_cap(hits: u32) -> int {
    (hits + 99) / 100
}

/// A part works only if few enough parts stand behind it.
spec fn reach(body: SimBody, n: int) -> int {
    let first = body.parts.len() - working_cap(body.hits);
    if n <= first {
        0
    } else {
        n - first
    }
}

proof fn lemma_counts_bounded(body: SimBody, part: Part, n: int)
    requires
        0 <= n <= body.parts.len(),
    ensures
        0 <= body.count(part, n) <= reach(body, n),
        body.count(part, n) <= body.boosted_count(part, n) <= 4 * reach(body, n),
        reach(body, n) <= working_cap(body.hits) <= 0x0300_0000,
    decreases n,
{
    if n > 0 {
        lemma_counts_bounded(body, part, n - 1);
    }
}

proof fn lemma_structural_bounded(body: SimBody, n: int)
    requires
        0 <= n <= body.parts.len(),
    ensures
        0 <= body.structural_count(n) <= reach(body, n),
        reach(body, n) <= working_cap(body.hits) <= 0x0300_0000,
    decreases n,
{
    if n > 0 {
        lemma_structural_bounded(body, n - 1);
    }
}

proof fn lemma_loaded_bounded(body: SimBody, load: int, n: int)
    requires
        0 <= n <= body.parts.len(),
    ensures
        0 <= body.loaded_count(load, n) <= body.count(Part::Carry, n),
        body.loaded_count(load, n) <= reach(body, n) <= 0x0300_0000,
    decreases n,
{
    lemma_counts_bounded(body, Part::Carry, n);
    if n > 0 {
        lemma_loaded_bounded(body, load, n - 1);
        lemma_loaded_bounded(
            body,
            load - CARRY_CAPACITY * body.parts[n - 1].boost.mult(),
            n - 1,
        );
    }
}

/// Bounds of the boost-weighted count of working MOVE parts.
pub proof fn lemma_mobility_bounds(body: SimBody)
    ensures
        0 <= body.mobility() <= 0x0C00_0000,
{
    lemma_counts_bounded(body, Part::Move, body.parts.len() as int);
}

/// Bounds of the fatigue weights.
pub proof fn lemma_weight_bounds(body: SimBody, load: int)
    ensures
        0 <= body.structural_count(body.parts.len() as int) <= 0x0300_0000,
        0 <= body.loaded_count(load, body.parts.len() as int) <= 0x0300_0000,
{
    lemma_structural_bounded(body, body.parts.len() as int);
    lemma_loaded_bounded(body, load, body.parts.len() as int);
}

/// The hits of the first `n` parts together.
pub open spec fn hits_before(body: SimBody, n: int) -> int
    decreases n,
{
    if n <= 0 {
        0
    } else {
        hits_before(body, n - 1) + body.hits_at(n - 1)
    }
}

proof fn lemma_hits_before(body: SimBody, n: int)
    requires
        0 <= n <= body.parts.len(),
    ensures
        ({
            let left = body.hits - BODYPART_HITS * (body.parts.len() - n);
            hits_before(body, n) == if left <= 0 {
                0
            } else if left >= BODYPART_HITS * n {
                BODYPART_HITS * n
            } else {
                left
            }
        }),
    decreases n,
{
    if n > 0 {
        lemma_hits_before(body, n - 1);
    }
}

/// The parts share out the body's hits: together they hold all of them, up to a full body.
pub proof fn lemma_parts_share_hits(body: SimBody)
    ensures
        hits_before(body, body.parts.len() as int) == if body.hits <= BODYPART_HITS
            * body.parts.len() {
            body.hits as int
        } else {
            BODYPART_HITS * body.parts.len()
        },
{
    lemma_hits_before(body, body.parts.len() as int);
}

/// Front parts degrade first: every part behind one that still works is full.
pub proof fn lemma_front_degrades_first(body: SimBody, front: int, back: int)
    requires
        0 <= front < back < body.parts.len(),
        body.hits_at(front) > 0,
    ensures
        body.hits_at(back) == BODYPART_HITS,
{
}

/// At full health every part is full.
pub proof fn lemma_full_health(body: SimBody, i: int)
    requires
        body.hits == BODYPART_HITS * body.parts.len(),
        0 <= i < body.parts.len(),
    ensures
        body.hits_at(i) == BODYPART_HITS,
{
}

/// Damage never restores a part or raises a count: of two bodies with the same parts, that with
/// fewer hits has no more hits in any part, and no more working parts of any kind.
pub proof fn lemma_damage_only_lowers(hurt: SimBody, body: SimBody, part: Part, n: int)
    requires
        hurt.parts@ == body.parts@,
        hurt.hits <= body.hits,
        0 <= n <= body.parts.len(),
    ensures
        forall|i: int| 0 <= i < n ==> #[trigger] hurt.hits_at(i) <= body.hits_at(i),
        hurt.count(part, n) <= body.count(part, n),
        hurt.boosted_count(part, n) <= body.boosted_count(part, n),
        hurt.structural_count(n) <= body.structural_count(n),
    decreases n,
{
    if n > 0 {
        lemma_damage_only_lowers(hurt, body, part, n - 1);
        assert(hurt.parts@[n - 1] == body.parts@[n - 1]);
    }
}

/// A body can move exactly if its move rate is above 0.
pub proof fn lemma_mobile_has_rate(body: SimBody)
    ensures
        body.mobile() <==> body.mobility() > 0,
{
    lemma_rate_above(body, body.parts.len() as int);
}

proof fn lemma_rate_above(body: SimBody, n: int)
    requires
        0 <= n <= body.parts.len(),
    ensures
        body.boosted_count(Part::Move, n) >= 0,
        body.boosted_count(Part::Move, n) > 0 <==> exists|i: int|
            i < n && body.works(Part::Move, i),
    decreases n,
{
    if n > 0 {
        lemma_rate_above(body, n - 1);
        if body.works(Part::Move, n - 1) {
        } else if exists|i: int| i < n && body.works(Part::Move, i) {
            let i = choose|i: int| i < n && body.works(Part::Move, i);
            assert(i < n - 1 && body.works(Part::Move, i));
        }
    }
}

/// The loaded CARRY parts are at most the working ones, and none with no load aboard.
pub proof fn lemma_load_needs_carry(body: SimBody, load: int)
    ensures
        body.loaded_count(load, body.parts.len() as int) <= body.count(
            Part::Carry,
            body.parts.len() as int,
        ),
        load <= 0 ==> body.loaded_count(load, body.parts.len() as int) == 0,
{
    lemma_loaded_bounded(body, load, body.parts.len() as int);
}

/// A greater load weighs no less.
pub proof fn lemma_load_weighs_more(body: SimBody, light: int, heavy: int, n: int)
    requires
        light <= heavy,
        0 <= n <= body.parts.len(),
    ensures
        body.loaded_count(light, n) <= body.loaded_count(heavy, n),
    decreases n,
{
    lemma_loaded_bounded(body, heavy, n);
    if n > 0 {
        let capacity = CARRY_CAPACITY * body.parts[n - 1].boost.mult();
        lemma_load_weighs_more(body, light, heavy, n - 1);
        lemma_load_weighs_more(body, light - capacity, heavy - capacity, n - 1);
    }
}

/// Without boosts a load takes one CARRY part per 50 units or part of them, as far as working CARRY
/// parts reach.
pub proof fn lemma_unboosted_load(body: SimBody, load: int, n: int)
    requires
        0 <= n <= body.parts.len(),
        forall|i: int|
            0 <= i < body.parts.len() && (#[trigger] body.parts[i]).part == Part::Carry
                ==> body.parts[i].boost == BoostTier::Unboosted,
        load >= 0,
    ensures
        body.loaded_count(load, n) == if (load + 49) / 50 <= body.count(Part::Carry, n) {
            (load + 49) / 50
        } else {
            body.count(Part::Carry, n)
        },
    decreases n,
{
    lemma_counts_bounded(body, Part::Carry, n);
    if n > 0 {
        lemma_counts_bounded(body, Part::Carry, n - 1);
        lemma_unboosted_load(body, load, n - 1);
        if body.works(Part::Carry, n - 1) {
            assert(body.parts[n - 1].part == Part::Carry);
            if load > 50 {
                lemma_unboosted_load(body, load - 50, n - 1);
            } else if load > 0 {
                lemma_loaded_bounded(body, load - 50, n - 1);
            }
        }
    }
}

} // verus!
