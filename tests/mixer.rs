use hashmap_nz64::{HashMapNZ64, Mixer, Rng};

#[test]
fn unit_multipliers_only_swap_bytes() {
    let m = Mixer::new([1, 1]);
    assert_eq!(m.hash(1), 0x0100_0000_0000_0000);
    assert_eq!(m.hash(0x0102_0304_0506_0708), 0x0807_0605_0403_0201);
}

#[test]
fn even_seeds_are_made_odd() {
    // seeds 2 and 0 become multipliers 3 and 1
    let m = Mixer::new([2, 0]);
    assert_eq!(m.hash(1), 0x0300_0000_0000_0000);
}

#[test]
fn inverse_of_three() {
    // 3 * 0xaaaa_aaaa_aaaa_aaab == 1 modulo 2^64
    let inv = Mixer::new([3, 1]).invert();
    assert_eq!(inv.hash(0x0300_0000_0000_0000), 1);
    assert_eq!(Mixer::new([1, 1]).invert().hash(0x0100_0000_0000_0000), 1);
    assert_eq!(inv.hash(1), 0x0100_0000_0000_0000u64.wrapping_mul(0xaaaa_aaaa_aaaa_aaab));
}

#[test]
fn invert_undoes_hash_both_ways() {
    let seeds = [[0u64, 0], [1, 2], [0xdead_beef, 0x1234_5678_9abc_def0], [u64::MAX, u64::MAX - 1]];
    for seed in seeds.iter() {
        let m = Mixer::new(*seed);
        let inv = m.invert();
        let mut k = 1u64;
        for _ in 0..1000 {
            let f = m.hash(k);
            assert_ne!(f, 0);
            assert_eq!(inv.hash(f), k);
            assert_eq!(m.hash(inv.hash(k)), k);
            k = k.wrapping_mul(6364136223846793005).wrapping_add(1442695040888963407) | 1;
        }
        assert_eq!(inv.hash(m.hash(u64::MAX)), u64::MAX);
    }
}

#[test]
fn generator_steps() {
    let mut g = Rng::new(1);
    assert_eq!(g.state(), 1);
    assert_eq!(g.u64(), 0x0200_0000_0000_0000);
    assert_eq!(g.state(), 0x1_0200_0000_0000_0000);
    assert_eq!(g.u64(), 0x0204_0000_0000_0001);
    assert_eq!(g.state(), 0x0200_0040_0000_0000_0004_0000_0000_0001);
}

#[test]
fn generator_draws_pairs() {
    let mut g = Rng::new(1);
    assert_eq!(g.array_u64(), [0x0200_0000_0000_0000, 0x0204_0000_0000_0001]);
    assert_eq!(g.state(), 0x0200_0040_0000_0000_0004_0000_0000_0001);
}

#[test]
fn system_generator_is_nonzero() {
    let g = Rng::from_system();
    assert_ne!(g.state(), 0);
}

#[test]
fn seeded_maps_behave_alike() {
    let mut g1 = Rng::new(0x5eed);
    let mut g2 = Rng::new(0x5eed);
    let mut a = HashMapNZ64::<u64>::new_seeded(&mut g1);
    let mut b = HashMapNZ64::<u64>::new_seeded(&mut g2);
    assert_eq!(g1.state(), g2.state());
    for i in 1..=200u64 {
        a.insert(i, i);
        b.insert(i, i);
    }
    assert_eq!(a.keys(), b.keys());
}

#[test]
fn entropy_seeds_keep_nonzero_words() {
    assert_eq!(Rng::from_entropy(Some(5)).state(), 5);
    assert_eq!(Rng::from_entropy(Some(0)).state(), hashmap_nz64::rng::FALLBACK_SEED);
    assert_eq!(Rng::from_entropy(None).state(), hashmap_nz64::rng::FALLBACK_SEED);
}

#[test]
fn seeded_map_draws_two_words() {
    let mut g = Rng::new(1);
    let _m = HashMapNZ64::<u64>::new_seeded(&mut g);
    assert_eq!(g.state(), 0x0200_0040_0000_0000_0004_0000_0000_0001);
}
