//! Hashing utilities shared by the sketches: one seeded hash per item,
//! a second hash derived from it by a 64-bit finaliser, and the
//! double-hashing index formula.

use core::hash::{BuildHasher, Hash, Hasher};
use vstd::arithmetic::div_mod::{
    lemma_add_mod_noop_right, lemma_mul_mod_noop_left, lemma_mul_mod_noop_right, lemma_small_mod,
};
use vstd::arithmetic::mul::lemma_mul_is_associative;
use vstd::prelude::*;

verus! {

#[verifier::external_type_specification]
#[verifier::external_body]
pub struct ExAhashRandomState(ahash::RandomState);

/// The default hasher builder used by all sketches (ahash).
pub type DefaultHasher = ahash::RandomState;

/// The keys of the default hasher builder.
pub const DEFAULT_KEYS: [u64; 4] = [
    0x243f_6a88_85a3_08d3,
    0x1319_8a2e_0370_7344,
    0xa409_3822_299f_31d0,
    0x082e_fa98_ec4e_6c89,
];

/// The hasher builder that `ahash::RandomState::with_seeds` makes from four
/// keys. The builder is a value made from the keys alone (each key mixed with
/// a fixed constant), so equal keys give equal builders.
pub uninterp spec fn random_state_from_keys(k0: u64, k1: u64, k2: u64, k3: u64) -> DefaultHasher;

/// The default hasher builder: the one made from [`DEFAULT_KEYS`].
pub open spec fn spec_default_hasher() -> DefaultHasher {
    random_state_from_keys(DEFAULT_KEYS@[0], DEFAULT_KEYS@[1], DEFAULT_KEYS@[2], DEFAULT_KEYS@[3])
}

/// Creates a hasher builder with the four given keys.
///
/// Trusted: calls `ahash::RandomState::with_seeds`, a `const fn` whose
/// result is built from the four keys alone; the contract names that
/// result. Nothing is stated of the hashes the builder computes: they depend
/// on the machine as well as on the keys (ahash picks an AES-based or a
/// portable algorithm at build time).
#[verifier::external_body]
fn random_state_with_seeds(k0: u64, k1: u64, k2: u64, k3: u64) -> (r: DefaultHasher)
    ensures
        r == random_state_from_keys(k0, k1, k2, k3),
{
    ahash::RandomState::with_seeds(k0, k1, k2, k3)
}

/// Creates the default hasher builder.
///
/// Every call gives a builder with the same keys, so sketches that were
/// built separately hash items alike: they can be merged, and a sketch
/// restored from its counters keeps answering for the items it saw.
pub fn default_hasher() -> (r: DefaultHasher)
    ensures
        r == spec_default_hasher(),
{
    random_state_with_seeds(DEFAULT_KEYS[0], DEFAULT_KEYS[1], DEFAULT_KEYS[2], DEFAULT_KEYS[3])
}

/// The odd constant mixed into the first hash before deriving the second.
pub const GOLDEN_GAMMA: u64 = 0x9e37_79b9_7f4a_7c15;

/// The 64-bit finaliser (xor-shift / multiply rounds) used to derive the
/// second hash from the first.
pub open spec fn spec_mix64(x: u64) -> u64 {
    let a = (x ^ (x >> 30u64)).wrapping_mul(0xbf58_476d_1ce4_e5b9u64);
    let b = (a ^ (a >> 27u64)).wrapping_mul(0x94d0_49bb_1331_11ebu64);
    b ^ (b >> 31u64)
}

/// The inverse of [`spec_mix64`]: each xor-shift round is undone by
/// xor-ing in further shifts, and each multiplication by an odd constant by
/// multiplying with its inverse modulo `2^64`.
spec fn spec_unmix64(y: u64) -> u64 {
    let b = y ^ (y >> 31u64) ^ (y >> 62u64);
    let c = b.wrapping_mul(0x319642b2d24d8ec3u64);
    let a = c ^ (c >> 27u64) ^ (c >> 54u64);
    let d = a.wrapping_mul(0x96de1b173f119089u64);
    d ^ (d >> 30u64) ^ (d >> 60u64)
}

/// Multiplying by `c` and then by its inverse modulo `2^64` gives back `x`.
proof fn lemma_mul_inverse(x: u64, c: u64, c_inv: u64)
    requires
        (c as int * c_inv as int) % 0x1_0000_0000_0000_0000 == 1,
    ensures
        x.wrapping_mul(c).wrapping_mul(c_inv) == x,
{
    let m: int = 0x1_0000_0000_0000_0000;
    lemma_mul_mod_noop_left(x as int * c as int, c_inv as int, m);
    lemma_mul_is_associative(x as int, c as int, c_inv as int);
    lemma_mul_mod_noop_right(x as int, c as int * c_inv as int, m);
    lemma_small_mod(x as nat, m as nat);
}

/// [`spec_unmix64`] undoes [`spec_mix64`].
proof fn lemma_unmix_mix(x: u64)
    ensures
        spec_unmix64(spec_mix64(x)) == x,
{
    let a = (x ^ (x >> 30u64)).wrapping_mul(0xbf58_476d_1ce4_e5b9u64);
    let b = (a ^ (a >> 27u64)).wrapping_mul(0x94d0_49bb_1331_11ebu64);
    let y = b ^ (b >> 31u64);
    assert(y ^ (y >> 31u64) ^ (y >> 62u64) == b) by (bit_vector)
        requires
            y == b ^ (b >> 31u64),
    ;
    lemma_mul_inverse(a ^ (a >> 27u64), 0x94d0_49bb_1331_11ebu64, 0x319642b2d24d8ec3u64);
    let c = a ^ (a >> 27u64);
    assert(c ^ (c >> 27u64) ^ (c >> 54u64) == a) by (bit_vector)
        requires
            c == a ^ (a >> 27u64),
    ;
    lemma_mul_inverse(x ^ (x >> 30u64), 0xbf58_476d_1ce4_e5b9u64, 0x96de1b173f119089u64);
    let d = x ^ (x >> 30u64);
    assert(d ^ (d >> 30u64) ^ (d >> 60u64) == x) by (bit_vector)
        requires
            d == x ^ (x >> 30u64),
    ;
}

/// The finaliser is injective: distinct first hashes give distinct second
/// hashes.
pub proof fn lemma_mix64_injective(x: u64, y: u64)
    ensures
        spec_mix64(x) == spec_mix64(y) ==> x == y,
{
    lemma_unmix_mix(x);
    lemma_unmix_mix(y);
}

/// The second hash of a double-hashing pair, as a function of the first.
pub open spec fn spec_second_hash(h1: u64) -> u64 {
    spec_mix64(h1 ^ GOLDEN_GAMMA)
}

/// The `i`-th probe of the double-hashing scheme: `(h1 + i * h2) mod 2^64 mod m`.
pub open spec fn spec_nth_hash(h1: u64, h2: u64, i: u64, m: u64) -> u64 {
    h1.wrapping_add(i.wrapping_mul(h2)) % m
}

/// The `i`-th probe in plain arithmetic: `h1 + i * h2`, reduced modulo
/// `2^64`, then modulo `m`.
pub proof fn lemma_nth_hash_arithmetic(h1: u64, h2: u64, i: u64, m: u64)
    requires
        m > 0,
    ensures
        spec_nth_hash(h1, h2, i, m) as int == ((h1 as int + i as int * h2 as int)
            % 0x1_0000_0000_0000_0000) % (m as int),
        spec_nth_hash(h1, h2, i, m) < m,
{
    let big: int = 0x1_0000_0000_0000_0000;
    let w = i.wrapping_mul(h2);
    assert(w as int == (i as int * h2 as int) % big);
    assert(h1.wrapping_add(w) as int == (h1 as int + w as int) % big);
    lemma_add_mod_noop_right(h1 as int, i as int * h2 as int, big);
}

/// Applies the 64-bit finaliser to `x`.
pub fn mix64(x: u64) -> (r: u64)
    ensures
        r == spec_mix64(x),
{
    let a = (x ^ (x >> 30)).wrapping_mul(0xbf58_476d_1ce4_e5b9);
    let b = (a ^ (a >> 27)).wrapping_mul(0x94d0_49bb_1331_11eb);
    b ^ (b >> 31)
}

/// Builds a fresh hasher from `build_hasher`.
///
/// Trusted: calls `BuildHasher::build_hasher`. Nothing is stated of the
/// hasher's state.
#[verifier::external_body]
fn new_hasher<B: BuildHasher>(build_hasher: &B) -> B::Hasher {
    build_hasher.build_hasher()
}

/// Feeds `item` into `state`.
///
/// Trusted: calls `Hash::hash`. Nothing is stated of how the state changes:
/// that depends on the item type's `Hash` impl and on the hasher.
#[verifier::external_body]
fn hash_into<T: Hash, S: Hasher>(item: &T, state: &mut S) {
    item.hash(state)
}

/// Returns the hash of what has been fed into `state`.
///
/// Trusted: calls `Hasher::finish`. Nothing is stated of the result, which
/// depends on the hasher's keys and, for the default builder, on the
/// machine.
#[verifier::external_body]
fn finish_hash<S: Hasher>(state: &S) -> u64 {
    state.finish()
}

/// Computes the pair of hashes used by the double-hashing scheme: the seeded
/// hash of `item` (a hasher built from `build_hasher`, fed `item`, then
/// finished), and the finaliser applied to it.
pub fn double_hash<T: Hash, B: BuildHasher>(build_hasher: &B, item: &T) -> (r: (u64, u64))
    ensures
        r.1 == spec_second_hash(r.0),
{
    let mut hasher = new_hasher(build_hasher);
    hash_into(item, &mut hasher);
    let h1 = finish_hash(&hasher);
    let h2 = mix64(h1 ^ GOLDEN_GAMMA);
    (h1, h2)
}

/// Computes the `i`-th hash value `(h1 + i * h2) mod 2^64 mod m`.
pub fn nth_hash(h1: u64, h2: u64, i: u64, m: u64) -> (r: u64)
    requires
        m > 0,
    ensures
        r == spec_nth_hash(h1, h2, i, m),
        r < m,
{
    h1.wrapping_add(i.wrapping_mul(h2)) % m
}

} // verus!
