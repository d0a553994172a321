use roughly::bloom::BloomFilter;
use roughly::countmin::CountMinSketch;
use roughly::hash::default_hasher;
use roughly::hyperloglog::HyperLogLog;

fn optimal_params(n: usize, p: f64) -> (u64, u32) {
    let ln2 = core::f64::consts::LN_2;
    let m = (-(n as f64) * p.ln() / (ln2 * ln2)).ceil() as u64;
    let k = ((m as f64 / n as f64) * ln2).round() as u32;
    (m.max(1), k.max(1))
}

fn build(n: usize, fpp: f64) -> BloomFilter {
    let (m, k) = optimal_params(n, fpp);
    BloomFilter::with_params(m, k)
}

fn cms() -> CountMinSketch {
    let width = (core::f64::consts::E / 0.001).ceil() as usize;
    let depth = ((1.0f64 - 0.99).ln() / 0.5f64.ln()).ceil() as usize;
    CountMinSketch::with_dimensions(width, depth.max(1))
}

#[test]
fn no_false_negatives() {
    let mut f = build(1000, 0.01);
    for i in 0..1000u64 {
        f.insert(&i);
    }
    for i in 0..1000u64 {
        assert!(f.contains(&i), "false negative for {i}");
    }
}

#[test]
fn false_positive_rate_reasonable() {
    let n = 10_000;
    let fpp = 0.01;
    let mut f = build(n, fpp);
    for i in 0..n as u64 {
        f.insert(&i);
    }
    let mut fp = 0usize;
    let trials = 100_000u64;
    for i in (n as u64)..(n as u64 + trials) {
        if f.contains(&i) {
            fp += 1;
        }
    }
    let actual_fpp = fp as f64 / trials as f64;

    assert!(
        actual_fpp < fpp * 3.0,
        "fpp too high: {actual_fpp:.4} (target {fpp})"
    );
}

#[test]
fn mod_clear_resets() {
    // Bloom filter
    let mut f = build(100, 0.01);
    f.insert(&"hello");
    assert!(f.contains(&"hello"));
    f.clear();
    assert_eq!(f.len(), 0);

    // Count-Min sketch
    let mut c = cms();
    c.insert(&"x");
    c.clear();
    assert_eq!(c.total(), 0);
    assert_eq!(c.estimate(&"x"), 0);

    // HyperLogLog registers
    let mut h = HyperLogLog::with_precision(14);
    for i in 0..1000u64 {
        h.insert(&i);
    }
    h.clear();
    assert_eq!(h.zero_registers(), h.num_registers());
}

#[test]
fn parameters_are_kept() {
    let f = build(1000, 0.01);
    assert_eq!(f.num_bits(), 9586);
    assert_eq!(f.num_hashes(), 7);
    assert_eq!(f.len(), 0);
    assert!(f.is_empty());
}

#[test]
fn insert_hashes_then_contains_hashes() {
    let mut f = BloomFilter::with_params(64, 3);
    assert!(!f.contains_hashes(1, 2));
    f.insert_hashes(1, 2);
    // probes 1, 3, 5
    assert!(f.contains_hashes(1, 2));
    // probes 3, 5, 7: position 7 is unset
    assert!(!f.contains_hashes(3, 2));
    // probes 5, 3, 1: the same three positions
    assert!(f.contains_hashes(5, u64::MAX - 1));
    // probes 0, 1, 2: position 0 is unset
    assert!(!f.contains_hashes(0, 1));
    assert_eq!(f.len(), 1);
    assert!(!f.is_empty());
}

#[test]
fn probes_wrap_modulo_num_bits() {
    let mut f = BloomFilter::with_params(100, 2);
    // probes 199 % 100 = 99 and (199 + 1) % 100 = 0
    f.insert_hashes(199, 1);
    assert!(f.contains_hashes(99, 1));
    assert!(f.contains_hashes(0, 99));
    assert!(!f.contains_hashes(1, 1));
}

#[test]
fn bits_past_first_word() {
    let mut f = BloomFilter::with_params(130, 1);
    f.insert_hashes(129, 0);
    f.insert_hashes(64, 0);
    assert!(f.contains_hashes(129, 0));
    assert!(f.contains_hashes(64, 0));
    assert!(!f.contains_hashes(63, 0));
    assert!(!f.contains_hashes(128, 0));
    f.clear();
    assert!(!f.contains_hashes(129, 0));
    assert!(!f.contains_hashes(64, 0));
}

#[test]
fn insertion_order_does_not_matter() {
    let mut a = BloomFilter::with_params_and_hasher(256, 4, default_hasher());
    let mut b = BloomFilter::with_params_and_hasher(256, 4, default_hasher());
    let pairs = [(3u64, 17u64), (1000, 3), (42, 42)];
    for &(h1, h2) in pairs.iter() {
        a.insert_hashes(h1, h2);
    }
    for &(h1, h2) in pairs.iter().rev() {
        b.insert_hashes(h1, h2);
    }
    for h1 in 0..256u64 {
        for h2 in [0u64, 1, 3, 17, 42] {
            assert_eq!(a.contains_hashes(h1, h2), b.contains_hashes(h1, h2));
        }
    }
}
