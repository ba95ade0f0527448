use namesmith::Rng;

#[test]
fn same_seed_same_sequence() {
    let mut a = Rng::from_seed(42);
    let mut b = Rng::from_seed(42);
    for _ in 0..10 {
        assert_eq!(a.next_u64(), b.next_u64());
    }
}

#[test]
fn below_stays_in_range() {
    let mut rng = Rng::from_seed(7);
    for _ in 0..1000 {
        assert!(rng.below(5) < 5);
    }
}
