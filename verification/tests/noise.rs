use tilekit::noise::{hash3, Rng};

#[test]
fn hashing_is_deterministic_and_seed_sensitive() {
    assert_eq!(hash3(1, 2, 3), hash3(1, 2, 3));
    assert_ne!(hash3(1, 2, 3), hash3(2, 2, 3));
    assert_ne!(hash3(1, 2, 3), hash3(1, 3, 2), "axes must not be symmetric");
}

#[test]
fn rng_is_reproducible_and_never_stuck() {
    let mut a = Rng::new(42);
    let mut b = Rng::new(42);
    let seq: Vec<u32> = (0..64).map(|_| a.next_u32()).collect();
    assert_eq!(seq, (0..64).map(|_| b.next_u32()).collect::<Vec<_>>());
    assert!(seq.windows(2).any(|w| w[0] != w[1]), "generator is stuck");
}

#[test]
fn rng_seed_zero_still_produces_a_sequence() {
    let mut rng = Rng::new(0);
    let first = rng.next_u32();
    assert_ne!(first, 0);
    assert_ne!(rng.next_u32(), first);
}

#[test]
fn next_below_respects_its_bound_and_covers_it() {
    let mut rng = Rng::new(7);
    let mut seen = [false; 6];
    for _ in 0..600 {
        let v = rng.next_below(6);
        assert!(v < 6);
        seen[v as usize] = true;
    }
    assert!(seen.iter().all(|&s| s), "some values never came up: {seen:?}");
    assert_eq!(rng.next_below(0), 0);
}

#[test]
fn choose_handles_empty_and_populated_slices() {
    let mut rng = Rng::new(3);
    assert_eq!(rng.pick::<u8>(&[]), None);
    assert_eq!(rng.pick(&[9u8]), Some(&9));
}

#[test]
fn xorshift_matches_its_formula() {
    let mut rng = Rng::new(1);
    let mut x: u32 = 1;
    x ^= x << 13;
    x ^= x >> 17;
    x ^= x << 5;
    assert_eq!(rng.next_u32(), x);
    assert_eq!(x, 270369);
}

#[test]
fn next_below_takes_the_high_half_of_the_product() {
    let mut a = Rng::new(99);
    let mut b = Rng::new(99);
    let raw = a.next_u32();
    assert_eq!(b.next_below(1000), ((raw as u64 * 1000) >> 32) as u32);
}

#[test]
fn hash3_matches_a_known_value() {
    assert_eq!(hash3(0, 0, 0), 0);
    assert_ne!(hash3(0, 1, 0), 0);
}
