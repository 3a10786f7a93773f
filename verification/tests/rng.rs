use screeps_sim_core::rng::Rng;

fn draws(seed: u32, n: usize) -> Vec<u64> {
    let mut r = Rng::seeded(seed);
    (0..n).map(|_| r.next_u64()).collect()
}

#[test]
fn is_reproducible_per_seed_and_independent_across_seeds() {
    let seq = |s: u32| draws(s, 4);
    assert_eq!(seq(7), seq(7), "same seed → same stream");
    assert_ne!(seq(7), seq(8), "different seeds → different streams");
}

#[test]
fn range_is_inclusive_and_bounded() {
    let mut r = Rng::seeded(1);
    for _ in 0..1000 {
        let v = r.range(3, 9);
        assert!((3..=9).contains(&v));
    }
    assert_eq!(r.range(5, 5), 5, "a degenerate range yields the single value");
}

#[test]
fn the_stream_is_splitmix() {
    assert_eq!(
        draws(7, 3),
        vec![0x5f5d_fb04_c938_8ab4, 0x046a_d98f_ed75_045a, 0xd526_91b9_8fb3_c1ad]
    );
}

#[test]
fn ranges_are_drawn_from_the_stream() {
    let mut r = Rng::seeded(0);
    let drawn: Vec<u32> = (0..5).map(|_| r.range(0, 1000)).collect();
    assert_eq!(drawn, vec![351, 716, 25, 667, 653]);
    let mut r = Rng::seeded(1);
    let drawn: Vec<u32> = (0..5).map(|_| r.range(3, 9)).collect();
    assert_eq!(drawn, vec![5, 9, 5, 4, 4]);
}

#[test]
fn streams_of_different_seeds_differ_in_every_draw() {
    for (a, b) in draws(3, 50).iter().zip(draws(4, 50).iter()) {
        assert_ne!(a, b);
    }
}

#[test]
fn neighbouring_streams_are_no_shifts_of_each_other() {
    for n in [0, 1, 7, 41, u32::MAX - 1] {
        let mut a = Rng::seeded(n);
        a.next_u64();
        let mut b = Rng::seeded(n + 1);
        assert_ne!(a.next_u64(), b.next_u64());
        let (here, next) = (draws(n, 200), draws(n + 1, 200));
        assert!(here.iter().all(|value| !next.contains(value)));
    }
}

#[test]
fn chance_and_pick_follow_the_stream() {
    let first = draws(9, 1)[0];
    assert_eq!(Rng::seeded(9).chance(0), false);
    assert_eq!(Rng::seeded(9).chance(100), true);
    assert_eq!(Rng::seeded(9).chance((first % 100) as u32), false);
    assert_eq!(Rng::seeded(9).chance((first % 100) as u32 + 1), true);
    let xs = [10, 20, 30, 40, 50, 60, 70];
    assert_eq!(Rng::seeded(9).pick(&xs), xs[(first % 7) as usize]);
    assert_eq!(Rng::seeded(9).pick(&[4]), 4);
}
