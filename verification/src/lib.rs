//! Probabilistic data structures: a Bloom filter for membership, HyperLogLog
//! registers for cardinality, and a Count-Min sketch for frequencies.
//!
//! The bit-level, register-level and counter-level logic of each structure is
//! verified here; the floating-point parameter derivation and estimators live
//! outside the verified library.

pub mod hash;
pub mod bloom;
pub mod countmin;
pub mod hyperloglog;

pub use bloom::BloomFilter;
pub use countmin::CountMinSketch;
pub use hyperloglog::{HyperLogLog, HyperLogLogBuilderWithPrecision};
