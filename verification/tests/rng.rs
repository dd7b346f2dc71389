use pixm::game::sim::rng::DeterministicRng;

#[test]
fn same_seed_same_sequence() {
    let mut a = DeterministicRng::new(42);
    let mut b = DeterministicRng::new(42);
    for _ in 0..100 {
        assert_eq!(a.next_u32(), b.next_u32());
    }
}

#[test]
fn range_stays_in_bounds() {
    let mut rng = DeterministicRng::new(999);
    for _ in 0..1000 {
        let v = rng.next_range(10);
        assert!(v < 10);
    }
}

#[test]
fn bool_pct_zero_always_false() {
    let mut rng = DeterministicRng::new(1);
    for _ in 0..100 {
        assert!(!rng.next_bool_pct(0));
    }
}

#[test]
fn bool_pct_hundred_always_true() {
    let mut rng = DeterministicRng::new(1);
    for _ in 0..100 {
        assert!(rng.next_bool_pct(100));
    }
}

#[test]
fn state_restore() {
    let mut rng = DeterministicRng::new(7);
    let _ = rng.next_u32();
    let saved = rng.state();
    let v1 = rng.next_u32();

    rng.restore(saved);
    let v2 = rng.next_u32();
    assert_eq!(v1, v2);
}

#[test]
fn lcg_first_value_from_seed_zero() {
    // state = 0 * a + c = 1442695040888963407; output = state >> 33.
    let mut rng = DeterministicRng::new(0);
    assert_eq!(rng.next_u32(), (1442695040888963407u64 >> 33) as u32);
    assert_eq!(rng.state(), 1442695040888963407u64);
}

#[test]
fn damage_stays_in_closed_range() {
    let mut rng = DeterministicRng::new(5);
    for _ in 0..200 {
        let d = rng.next_damage(10, 20);
        assert!((10..=20).contains(&d));
    }
    assert_eq!(rng.next_damage(7, 7), 7);
    assert_eq!(rng.next_range(0), 0);
}
