use roughly::hash::{default_hasher, double_hash, mix64, nth_hash, GOLDEN_GAMMA};

#[test]
fn double_hash_differs() {
    let bh = default_hasher();
    let (h1, h2) = double_hash(&bh, &"roughly");
    assert_ne!(h1, h2, "h1 and h2 should differ");
}

#[test]
fn nth_hash_in_range() {
    let bh = default_hasher();
    let (h1, h2) = double_hash(&bh, &42u64);
    for i in 0..20 {
        let h = nth_hash(h1, h2, i, 1000);
        assert!(h < 1000);
    }
}

#[test]
fn mix64_avalanche() {
    let a = mix64(1u64);
    let b = mix64(0u64);
    let diff = (a ^ b).count_ones();
    assert!(diff > 20, "poor avalanche: only {diff} bits differ");
}

#[test]
fn mix64_known_values() {
    assert_eq!(mix64(0), 0);
    assert_eq!(mix64(1), 0x5692_161d_100b_05e5);
    assert_eq!(mix64(GOLDEN_GAMMA), 0xe220_a839_7b1d_cdaf);
}

#[test]
fn second_hash_is_mix_of_first() {
    let bh = default_hasher();
    for item in ["a", "b", "roughly", ""] {
        let (h1, h2) = double_hash(&bh, &item);
        assert_eq!(h2, mix64(h1 ^ GOLDEN_GAMMA));
    }
}

#[test]
fn double_hash_is_deterministic_for_one_builder() {
    let bh = default_hasher();
    assert_eq!(double_hash(&bh, &7u64), double_hash(&bh, &7u64));
}

#[test]
fn nth_hash_exact_values() {
    // (10 + 3 * 7) % 11 == 9
    assert_eq!(nth_hash(10, 7, 3, 11), 9);
    assert_eq!(nth_hash(10, 7, 0, 11), 10);
    // wrapping: (u64::MAX + 1 * 2) mod 2^64 == 1
    assert_eq!(nth_hash(u64::MAX, 2, 1, 1000), 1);
    // wrapping multiply: 2^63 * 2 == 0 mod 2^64
    assert_eq!(nth_hash(5, 1u64 << 63, 2, 1 << 40), 5);
    assert_eq!(nth_hash(123, 456, 789, 1), 0);
}
