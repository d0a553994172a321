use roughly::countmin::CountMinSketch;

fn cms() -> CountMinSketch {
    let width = (core::f64::consts::E / 0.001).ceil() as usize;
    let depth = ((1.0f64 - 0.99).ln() / 0.5f64.ln()).ceil() as usize;
    CountMinSketch::with_dimensions(width, depth.max(1))
}

#[test]
fn no_undercount() {
    let mut c = cms();
    for _ in 0..500 {
        c.insert(&"key");
    }
    assert!(c.estimate(&"key") >= 500, "estimate below true count");
}

#[test]
fn insert_many() {
    let mut c = cms();
    c.insert_many(&"batch", 1000);
    assert!(c.estimate(&"batch") >= 1000);
}

#[test]
fn unseen_item_low_estimate() {
    let mut c = cms();
    let error_rate = 0.001;

    for i in 0..10_000u64 {
        c.insert(&i);
    }

    let estimate = c.estimate(&99_999_999u64);
    let allowed = (error_rate * c.total() as f64 * 2.0) as u64;
    assert!(estimate <= allowed, "unseen item estimate {estimate} > allowed {allowed}");
}

#[test]
fn merge_adds_counts() {
    let mut a = cms();
    let mut b = cms();
    for _ in 0..100 {
        a.insert(&"key");
    }
    for _ in 0..200 {
        b.insert(&"key");
    }
    a.merge(&b);
    assert!(a.estimate(&"key") >= 300);
    assert_eq!(a.total(), 300);
}

#[test]
fn dimensions_from_parameters() {
    let c = cms();
    assert_eq!(c.width(), 2719);
    assert_eq!(c.depth(), 7);
    assert_eq!(c.total(), 0);
}

#[test]
fn estimate_is_min_of_probed_counters() {
    let mut c = CountMinSketch::with_dimensions(10, 3);
    // (h1, h2) = (0, 1) probes columns 0, 1, 2 of rows 0, 1, 2.
    c.insert_many_hashes(0, 1, 5);
    assert_eq!(c.estimate_hashes(0, 1), 5);
    // (h1, h2) = (1, 0) probes column 1 of every row: only row 1 shares a counter.
    assert_eq!(c.estimate_hashes(1, 0), 0);
    c.insert_many_hashes(1, 0, 2);
    // row 1, column 1 now holds 7; rows 0 and 2 still hold 5 at columns 0 and 2.
    assert_eq!(c.estimate_hashes(0, 1), 5);
    assert_eq!(c.estimate_hashes(1, 0), 2);
    assert_eq!(c.total(), 7);
}

#[test]
fn collisions_only_overcount() {
    let mut c = CountMinSketch::with_dimensions(1, 2);
    c.insert_many_hashes(3, 4, 10);
    c.insert_many_hashes(5, 6, 1);
    // one column: every item shares every counter
    assert_eq!(c.estimate_hashes(3, 4), 11);
    assert_eq!(c.estimate_hashes(99, 1), 11);
    assert_eq!(c.total(), 11);
}

#[test]
fn merge_is_elementwise_sum() {
    let mut a = CountMinSketch::with_dimensions(8, 2);
    let mut b = CountMinSketch::with_dimensions(8, 2);
    a.insert_many_hashes(1, 1, 3);
    b.insert_many_hashes(1, 1, 4);
    b.insert_many_hashes(2, 3, 9);
    a.merge(&b);
    assert_eq!(a.estimate_hashes(1, 1), 7);
    assert_eq!(a.estimate_hashes(2, 3), 9);
    assert_eq!(a.total(), 16);
}

#[test]
fn clear_zeroes_everything() {
    let mut c = CountMinSketch::with_dimensions(4, 4);
    c.insert_many_hashes(7, 9, 100);
    c.clear();
    assert_eq!(c.total(), 0);
    assert_eq!(c.estimate_hashes(7, 9), 0);
}
