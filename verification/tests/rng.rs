use acoustic_drone::rng::{
    channel_seed, drone_source_seed, scene_seed, Rng, Xorshift, Xorshift64, BATCH_SHUFFLE_MULTIPLIER,
    WEIGHT_INIT_MULTIPLIER,
};

#[test]
fn deterministic_for_same_seed() {
    let mut a = Rng::new(42);
    let mut b = Rng::new(42);
    for _ in 0..1000 {
        assert_eq!(a.next_u64(), b.next_u64());
    }
}

#[test]
fn different_seeds_diverge() {
    let mut a = Rng::new(1);
    let mut b = Rng::new(2);
    assert_ne!(a.next_u64(), b.next_u64());
}

#[test]
fn rng_known_outputs() {
    let mut r = Rng::new(42);
    assert_eq!(r.next_u64(), 3580622183945639842);
    assert_eq!(r.next_u64(), 10378725325292465923);
}

#[test]
fn rng_zero_seed_still_produces() {
    let mut r = Rng::new(0);
    let a = r.next_u64();
    let b = r.next_u64();
    assert_ne!(a, b);
}

#[test]
fn xorshift32_known_sequence() {
    let mut r = Xorshift::new(1);
    assert_eq!(r.next_u32(), 270369);
    assert_eq!(r.next_u32(), 67634689);
    assert_eq!(r.next_u32(), 2647435461);
}

#[test]
fn xorshift32_zero_seed_is_seed_one() {
    let mut a = Xorshift::new(0);
    let mut b = Xorshift::new(1);
    for _ in 0..10 {
        assert_eq!(a.next_u32(), b.next_u32());
    }
}

#[test]
fn xorshift32_never_zero() {
    let mut r = Xorshift::new(42);
    assert_eq!(r.next_u32(), 11355432);
    for _ in 0..10_000 {
        assert_ne!(r.next_u32(), 0);
    }
}

#[test]
fn xorshift64_known_sequence() {
    let mut r = Xorshift64::new(7, WEIGHT_INIT_MULTIPLIER);
    assert_eq!(r.next_u64(), 17744029896553804442);
    assert_eq!(r.next_u64(), 17063833174104724607);
}

#[test]
fn xorshift64_zero_seed_starts_at_one() {
    let mut r = Xorshift64::new(0, BATCH_SHUFFLE_MULTIPLIER);
    assert_eq!(r.next_u64(), 1082269761);
}

#[test]
fn channel_seeds_are_distinct() {
    assert_eq!(channel_seed(42, 0), 4112119563);
    assert_eq!(channel_seed(42, 3), 4112119566);
    assert_ne!(channel_seed(42, 0), channel_seed(42, 1));
}

#[test]
fn scene_seeds() {
    assert_eq!(scene_seed(0), 0xA5A5_A5A5);
    assert_eq!(scene_seed(0xA5A5_A5A5), 0);
    assert_eq!(drone_source_seed(0, 0), 0xD00E);
    assert_eq!(drone_source_seed(0, 1), 2 * 0xD00E);
    assert_eq!(drone_source_seed(5, 0), 5 ^ 0xD00E);
}
