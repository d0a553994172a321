use roughly::hash::default_hasher;
use roughly::{BloomFilter, CountMinSketch, HyperLogLog};

#[test]
fn bloom_round_trip_through_parts() {
    let mut f = BloomFilter::with_params(130, 3);
    for h1 in [5u64, 77, 129] {
        f.insert_hashes(h1, 11);
    }
    let words = f.words().to_vec();
    assert_eq!(words.len(), 3);
    let g = BloomFilter::from_parts(words.clone(), f.num_bits(), f.num_hashes(), f.len(), default_hasher())
        .expect("parts of a filter");
    assert_eq!(g.words(), f.words());
    assert_eq!(g.len(), 3);
    for h1 in 0..200u64 {
        assert_eq!(g.contains_hashes(h1, 11), f.contains_hashes(h1, 11));
    }
}

#[test]
fn bloom_parts_rejected() {
    let h = default_hasher;
    // no bits, or no probes
    assert!(BloomFilter::from_parts(vec![0], 0, 3, 0, h()).is_none());
    assert!(BloomFilter::from_parts(vec![0], 10, 0, 0, h()).is_none());
    // 65 bits need two words
    assert!(BloomFilter::from_parts(vec![0], 65, 3, 0, h()).is_none());
    assert!(BloomFilter::from_parts(vec![0, 0, 0], 65, 3, 0, h()).is_none());
    assert!(BloomFilter::from_parts(vec![0, 0], 65, 3, 0, h()).is_some());
    // bit 65 lies past the 65 bits of the filter
    assert!(BloomFilter::from_parts(vec![0, 2], 65, 3, 0, h()).is_none());
    // bit 64 is the last bit of the filter
    assert!(BloomFilter::from_parts(vec![0, 1], 65, 3, 0, h()).is_some());
    // a full last word has no padding
    assert!(BloomFilter::from_parts(vec![u64::MAX], 64, 1, 0, h()).is_some());
}

#[test]
fn hyperloglog_parts() {
    let mut a = HyperLogLog::with_precision(5);
    a.insert_hash(0x0800_0000_0000_0001);
    let regs = a.registers().to_vec();
    let b = HyperLogLog::from_parts(regs.clone(), 5, default_hasher()).expect("parts of a sketch");
    assert_eq!(b.registers(), a.registers());
    assert_eq!(b.precision(), 5);
    assert!(HyperLogLog::from_parts(regs.clone(), 6, default_hasher()).is_none());
    assert!(HyperLogLog::from_parts(vec![0u8; 8], 3, default_hasher()).is_none());
    assert!(HyperLogLog::from_parts(vec![0u8; 1 << 19], 19, default_hasher()).is_none());
    assert!(HyperLogLog::from_parts(vec![0u8; 31], 5, default_hasher()).is_none());
}

#[test]
fn countmin_parts() {
    let mut a = CountMinSketch::with_dimensions(3, 2);
    a.insert_many_hashes(1, 1, 4);
    a.insert_many_hashes(0, 2, 5);
    let counters = a.counters().to_vec();
    assert_eq!(counters.len(), 6);
    assert_eq!(counters.iter().sum::<u64>(), 18);
    let b = CountMinSketch::from_parts(counters.clone(), 3, 2, 9, default_hasher())
        .expect("parts of a sketch");
    assert_eq!(b.counters(), a.counters());
    assert_eq!(b.estimate_hashes(1, 1), a.estimate_hashes(1, 1));
    assert_eq!(b.total(), 9);

    let h = default_hasher;
    // a row not summing to the total
    assert!(CountMinSketch::from_parts(counters.clone(), 3, 2, 8, h()).is_none());
    assert!(CountMinSketch::from_parts(vec![1, 0, 0, 0, 0, 1], 3, 2, 1, h()).is_some());
    assert!(CountMinSketch::from_parts(vec![1, 0, 0, 0, 0, 0], 3, 2, 1, h()).is_none());
    // wrong shapes
    assert!(CountMinSketch::from_parts(vec![0; 6], 0, 2, 0, h()).is_none());
    assert!(CountMinSketch::from_parts(vec![0; 6], 3, 0, 0, h()).is_none());
    assert!(CountMinSketch::from_parts(vec![0; 5], 3, 2, 0, h()).is_none());
    assert!(CountMinSketch::from_parts(vec![0; 6], usize::MAX, 2, 0, h()).is_none());
    // rows whose sum exceeds u64
    assert!(CountMinSketch::from_parts(vec![u64::MAX, u64::MAX], 2, 1, u64::MAX, h()).is_none());
}
