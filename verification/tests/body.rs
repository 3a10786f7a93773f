use screeps_sim_core::body::{BodyPartDef, BoostTier, Part, SimBody};

fn body(parts: &[(Part, BoostTier)]) -> SimBody {
    SimBody::new(parts.iter().map(|&(p, b)| BodyPartDef::boosted(p, b)).collect())
}

#[test]
fn part_hits_fill_back_to_front() {
    // [Tough, Attack, Move]: full = 300, all parts 100.
    let mut b = SimBody::unboosted(&[Part::Tough, Part::Attack, Part::Move]);
    assert_eq!((b.part_hits(0), b.part_hits(1), b.part_hits(2)), (100, 100, 100));
    // At 150 hits the trailing parts fill first: Move=100, Attack=50, Tough=0.
    b.hits = 150;
    assert_eq!((b.part_hits(0), b.part_hits(1), b.part_hits(2)), (0, 50, 100));
}

#[test]
fn power_degrades_as_front_parts_die() {
    let mut b = SimBody::unboosted(&[Part::Tough, Part::Attack, Part::Move]);
    b.hits = 100; // only the Move part (index 2) is alive
    assert_eq!(b.fatigue_clear(), 2); // the surviving MOVE still clears fatigue
}

#[test]
fn fatigue_clear_counts_move_parts() {
    assert_eq!(body(&[(Part::Move, BoostTier::Unboosted); 3]).fatigue_clear(), 6); // 2 × 3
    assert_eq!(body(&[(Part::Move, BoostTier::T1); 3]).fatigue_clear(), 12); // 2 × 3 × 2
}

#[test]
fn carry_weight_counts_loaded_parts_only() {
    // 3×CARRY + 1×MOVE: capacity 150. Weight = ceil(load / 50), capped at 3 alive CARRY parts.
    let b = SimBody::unboosted(&[Part::Carry, Part::Carry, Part::Carry, Part::Move]);
    assert_eq!(b.carry_weight(0), 0, "an empty creep adds no carry weight");
    assert_eq!(b.carry_weight(1), 1, "any load needs its first CARRY part");
    assert_eq!(b.carry_weight(50), 1, "one full part");
    assert_eq!(b.carry_weight(51), 2, "spills into a second part");
    assert_eq!(b.carry_weight(150), 3, "all three parts loaded");
    assert_eq!(b.carry_weight(999), 3, "capped at the alive CARRY count");
}

#[test]
fn carry_weight_is_boost_aware() {
    // A T2 CARRY part (×3 capacity) holds 150, so 150 of load is one part's worth.
    let b = body(&[(Part::Carry, BoostTier::T2), (Part::Move, BoostTier::Unboosted)]);
    assert_eq!(b.carry_weight(150), 1, "a ×3-boosted CARRY absorbs 150 in one part");
    assert_eq!(
        b.carry_weight(151),
        1,
        "still one part — but the load exceeds capacity (capped)"
    );
}

#[test]
fn boost_ladders() {
    let tiers = [BoostTier::Unboosted, BoostTier::T1, BoostTier::T2, BoostTier::T3];
    let actions: Vec<u32> = tiers.iter().map(|t| t.action_mult()).collect();
    let moves: Vec<u32> = tiers.iter().map(|t| t.move_mult()).collect();
    let carries: Vec<u32> = tiers.iter().map(|t| t.carry_capacity_mult()).collect();
    let tough: Vec<u32> = tiers.iter().map(|t| t.tough_damage_ratio()).collect();
    assert_eq!(actions, vec![1, 2, 3, 4]);
    assert_eq!(moves, vec![1, 2, 3, 4]);
    assert_eq!(carries, vec![1, 2, 3, 4]);
    assert_eq!(tough, vec![10, 7, 5, 3]);
    assert_eq!(BoostTier::default(), BoostTier::Unboosted);
}

#[test]
fn parts_share_the_hits() {
    let mut b = SimBody::unboosted(&[Part::Tough, Part::Work, Part::Heal, Part::Move]);
    assert_eq!(b.hits_max(), 400);
    for hits in [0, 1, 99, 100, 101, 250, 400, 1000] {
        b.hits = hits;
        let sum: u32 = (0..4).map(|i| b.part_hits(i)).sum();
        assert_eq!(sum, hits.min(400));
        for front in 0..4 {
            if b.part_hits(front) > 0 {
                for back in front + 1..4 {
                    assert_eq!(b.part_hits(back), 100, "front parts degrade first");
                }
            }
        }
    }
    assert_eq!(b.part_hits(4), 0, "no such part");
}

#[test]
fn power_sums_the_working_parts_by_boost() {
    let mut b = body(&[
        (Part::Attack, BoostTier::T3),
        (Part::Attack, BoostTier::Unboosted),
        (Part::Move, BoostTier::T2),
    ]);
    assert_eq!(b.effective_power(Part::Attack, 30), 150);
    assert_eq!(b.alive_part_count(Part::Attack), 2);
    assert_eq!(b.move_rate(), 3);
    assert_eq!(b.fatigue_weight(), 2);
    assert!(b.can_move() && b.is_alive());
    b.hits = 200; // the boosted front ATTACK is gone
    assert_eq!(b.effective_power(Part::Attack, 30), 30);
    assert_eq!(b.alive_part_count(Part::Attack), 1);
    assert_eq!(b.fatigue_weight(), 1);
    b.hits = 0;
    assert!(!b.can_move() && !b.is_alive());
    assert_eq!(b.move_rate(), 0);
}

#[test]
fn power_is_held_at_the_top() {
    let b = body(&[(Part::Heal, BoostTier::T3); 2]);
    assert_eq!(b.effective_power(Part::Heal, u32::MAX), u32::MAX);
    assert_eq!(b.effective_power(Part::Heal, 0), 0);
    assert_eq!(b.effective_power(Part::Work, 5), 0);
}

#[test]
fn a_greater_load_weighs_no_less() {
    let b = body(&[
        (Part::Carry, BoostTier::T1),
        (Part::Carry, BoostTier::Unboosted),
        (Part::Move, BoostTier::Unboosted),
    ]);
    let weights: Vec<u32> = [0, 1, 50, 51, 150, 151].iter().map(|&l| b.carry_weight(l)).collect();
    assert_eq!(weights, vec![0, 1, 1, 2, 2, 2]);
}

#[test]
fn a_cloned_body_is_the_same() {
    let mut b = body(&[(Part::Claim, BoostTier::T1), (Part::RangedAttack, BoostTier::T3)]);
    b.hits = 77;
    let c = b.clone();
    assert_eq!(c.parts, b.parts);
    assert_eq!(c.hits, 77);
    assert_eq!(BodyPartDef::new(Part::Claim).boost, BoostTier::Unboosted);
}
