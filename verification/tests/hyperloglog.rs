use roughly::hash::default_hasher;
use roughly::hyperloglog::{clamp_precision, HyperLogLog, HyperLogLogBuilderWithPrecision};

#[test]
fn registers_start_at_zero() {
    let h = HyperLogLog::with_precision(4);
    assert_eq!(h.num_registers(), 16);
    assert_eq!(h.precision(), 4);
    assert_eq!(h.zero_registers(), 16);
    assert!(h.registers().iter().all(|&r| r == 0));
}

#[test]
fn builder_with_precision_builds() {
    let h = HyperLogLogBuilderWithPrecision::new(10, default_hasher()).build();
    assert_eq!(h.num_registers(), 1024);
    assert_eq!(h.precision(), 10);
}

#[test]
fn insert_hash_sets_rank() {
    let mut h = HyperLogLog::with_precision(4);
    // top 4 bits 0b1010 select register 10; the next bit is 1, so rank 1
    h.insert_hash(0xA800_0000_0000_0000);
    assert_eq!(h.registers()[10], 1);
    // register 3, remaining bits start with three zeros then a one: rank 4
    h.insert_hash(0x3100_0000_0000_0000);
    assert_eq!(h.registers()[3], 4);
    // a smaller rank does not lower the register
    h.insert_hash(0x3800_0000_0000_0000);
    assert_eq!(h.registers()[3], 4);
    // all remaining bits zero: rank 65
    h.insert_hash(0x5000_0000_0000_0000);
    assert_eq!(h.registers()[5], 65);
    assert_eq!(h.zero_registers(), 13);
}

#[test]
fn duplicates_leave_registers_unchanged() {
    let mut once = HyperLogLog::with_precision(8);
    let mut many = HyperLogLog::with_precision(8);
    once.insert_hash(0x0123_4567_89ab_cdef);
    for _ in 0..1000 {
        many.insert_hash(0x0123_4567_89ab_cdef);
    }
    assert_eq!(once.registers(), many.registers());
}

#[test]
fn merge_takes_register_maximum() {
    let mut a = HyperLogLog::with_precision(4);
    let mut b = HyperLogLog::with_precision(4);
    a.insert_hash(0x3100_0000_0000_0000); // register 3, rank 4
    b.insert_hash(0x3800_0000_0000_0000); // register 3, rank 1
    b.insert_hash(0xA800_0000_0000_0000); // register 10, rank 1
    a.merge(&b);
    assert_eq!(a.registers()[3], 4);
    assert_eq!(a.registers()[10], 1);
    assert_eq!(a.zero_registers(), 14);
}

#[test]
fn merge_of_streams_equals_one_stream() {
    let mut a = HyperLogLog::with_precision(6);
    let mut b = HyperLogLog::with_precision(6);
    let mut all = HyperLogLog::with_precision(6);
    let hashes: Vec<u64> = (0..500u64).map(|i| i.wrapping_mul(0x9e37_79b9_7f4a_7c15)).collect();
    for &x in &hashes[..250] {
        a.insert_hash(x);
        all.insert_hash(x);
    }
    for &x in &hashes[250..] {
        b.insert_hash(x);
        all.insert_hash(x);
    }
    a.merge(&b);
    assert_eq!(a.registers(), all.registers());
}

#[test]
fn items_fill_registers() {
    let mut h = HyperLogLog::with_precision(4);
    for i in 0..10_000u64 {
        h.insert(&i);
    }
    assert_eq!(h.zero_registers(), 0);
}

#[test]
fn clamp_precision_range() {
    assert_eq!(clamp_precision(0), 4);
    assert_eq!(clamp_precision(4), 4);
    assert_eq!(clamp_precision(14), 14);
    assert_eq!(clamp_precision(18), 18);
    assert_eq!(clamp_precision(30), 18);
}
