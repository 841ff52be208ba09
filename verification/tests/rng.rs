use ember_games::rng::next_state;

#[test]
fn test_zero_seed_does_not_stick() {
    let s = next_state(0);
    assert!(s != 0, "state should advance from zero");
    assert_eq!(s, next_state(0x1234_5678));
}

#[test]
fn xorshift_step_known_value() {
    // 1 -> 1 ^ (1 << 13) = 0x2001; ^ (>> 17) = 0x2001; ^ (<< 5) = 0x2001 ^ 0x40020 = 0x42021
    assert_eq!(next_state(1), 0x0004_2021);
}

#[test]
fn state_is_stable_for_a_seed() {
    let mut a = 42u32;
    let mut b = 42u32;
    for _ in 0..100 {
        a = next_state(a);
        b = next_state(b);
        assert_eq!(a, b);
        assert_ne!(a, 0);
    }
}
