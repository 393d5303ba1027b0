use terrain::rng::SimpleRng;

#[test]
fn new_forces_lowest_bit() {
    assert_eq!(SimpleRng::new(0).state, 1);
    assert_eq!(SimpleRng::new(6).state, 7);
    assert_eq!(SimpleRng::new(7).state, 7);
}

#[test]
fn next_u32_applies_xorshift() {
    let mut r = SimpleRng::new(1);
    assert_eq!(r.next_u32(), 270369);
    assert_eq!(r.next_u32(), 67634689);
    assert_eq!(r.next_u32(), 2647435461);
    assert_eq!(r.state, 2647435461);
}

#[test]
fn settlement_seed_sequence() {
    let seed: u32 = 7;
    let mut r = SimpleRng::new(seed.wrapping_mul(747));
    assert_eq!(r.state, 5229);
    assert_eq!(r.next_u32(), 1396379723);
}

#[test]
fn same_seed_same_sequence() {
    let mut a = SimpleRng::new(12345);
    let mut b = SimpleRng::new(12345);
    for _ in 0..100 {
        assert_eq!(a.next_u32(), b.next_u32());
    }
}
