# roughly

Probabilistic data structures with verified internals:

| Structure | Question | Verified part |
|---|---|---|
| `BloomFilter` | Is this item in the set? | bit array, double-hashing probes, insert / contains / clear |
| `HyperLogLog` | How many unique items? | register selection and rank, insert / merge / clear |
| `CountMinSketch` | How often does this item appear? | counter rows, insert / estimate / merge / clear |

## Layout

- `src/` — the library, verified with Verus.
  - `hash.rs`: the seeded item hash (ahash), the 64-bit finaliser that derives
    the second hash, and the double-hashing index `(h1 + i * h2) mod 2^64 mod m`.
  - `bloom.rs`, `hyperloglog.rs`, `countmin.rs`: each structure, its abstract
    view, its well-formedness invariant, and the laws it obeys (no false
    negatives, never undercounting, merge of two streams equals one stream,
    duplicates not counted twice, rows summing to the total, ...).
- `tests/` — executable tests of the library.
- `app/` — the parts that need floating point (deriving sizes from error
  rates, the HyperLogLog estimator, the configured rates), the common
  `MembershipSketch` / `CardinalitySketch` / `FrequencySketch` traits, and
  serde support.

Every sketch answers for an item through the hash pair of that item; the
hash itself comes from ahash and is trusted, not verified. Each structure
offers `*_hashes` / `insert_hash` operations taking the hash directly, with
exact contracts.
