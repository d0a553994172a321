//! HyperLogLog registers for cardinality estimation.
//!
//! The top `b` bits of an item's 64-bit hash select one of `2^b` registers;
//! the register keeps the largest rank (leading zeros of the remaining bits,
//! plus one) seen so far. The floating-point estimator reads the registers.

use crate::hash::{default_hasher, double_hash, spec_default_hasher, DefaultHasher};
use core::hash::{BuildHasher, Hash};
use vstd::arithmetic::div_mod::lemma_div_by_multiple;
use vstd::arithmetic::power2::{lemma_pow2_adds, lemma_pow2_pos, pow2};
use vstd::bits::{lemma_u64_pow2_no_overflow, lemma_u64_shl_is_mul, lemma_u64_shr_is_div};
use vstd::prelude::*;
use vstd::std_specs::bits::u64_leading_zeros;

verus! {

/// Smallest supported precision.
pub const MIN_PRECISION: u32 = 4;

/// Largest supported precision.
pub const MAX_PRECISION: u32 = 18;

/// The register selected by hash `h` at precision `b`: its top `b` bits.
pub open spec fn register_index(h: u64, b: u32) -> int {
    (h >> ((64 - b) as u32)) as int
}

/// The rank of hash `h` at precision `b`: one more than the number of
/// leading zeros of the bits below the index bits.
pub open spec fn rank(h: u64, b: u32) -> u8 {
    (u64_leading_zeros(h << b) + 1) as u8
}

/// The larger of two register values.
pub open spec fn max_u8(x: u8, y: u8) -> u8 {
    if x < y {
        y
    } else {
        x
    }
}

/// Number of zero registers.
pub open spec fn zero_count(s: Seq<u8>) -> nat
    decreases s.len(),
{
    if s.len() == 0 {
        0
    } else {
        zero_count(s.drop_last()) + if s.last() == 0 {
            1nat
        } else {
            0
        }
    }
}

/// The abstract state of a HyperLogLog sketch.
pub struct HllView<H> {
    /// One register per index value.
    pub registers: Seq<u8>,
    /// Number of hash bits used to select a register.
    pub precision: u32,
    /// The hasher builder.
    pub hasher: H,
}

impl<H> HllView<H> {
    /// A supported precision with `2^precision` registers.
    pub open spec fn valid(self) -> bool {
        &&& MIN_PRECISION <= self.precision <= MAX_PRECISION
        &&& self.registers.len() == (1u64 << self.precision) as nat
    }

    /// The state after observing hash `h`: its register keeps the larger of
    /// its value and the rank of `h`.
    pub open spec fn inserted(self, h: u64) -> Self {
        let i = register_index(h, self.precision);
        HllView {
            registers: self.registers.update(i, max_u8(self.registers[i], rank(h, self.precision))),
            precision: self.precision,
            hasher: self.hasher,
        }
    }

    /// The state after merging another sketch: register-wise maximum.
    pub open spec fn merged(self, other: Self) -> Self {
        HllView {
            registers: Seq::new(
                self.registers.len(),
                |i: int| max_u8(self.registers[i], other.registers[i]),
            ),
            precision: self.precision,
            hasher: self.hasher,
        }
    }

    /// The state after clearing: every register is zero.
    pub open spec fn cleared(self) -> Self {
        HllView {
            registers: Seq::new(self.registers.len(), |i: int| 0u8),
            precision: self.precision,
            hasher: self.hasher,
        }
    }
}

/// A probabilistic data structure for cardinality (distinct count) estimation.
#[derive(Debug, Clone)]
pub struct HyperLogLog<H = DefaultHasher> {
    registers: Vec<u8>,
    m: usize,
    b: u32,
    build_hasher: H,
}

impl<H> View for HyperLogLog<H> {
    type V = HllView<H>;

    closed spec fn view(&self) -> HllView<H> {
        HllView { registers: self.registers@, precision: self.b, hasher: self.build_hasher }
    }
}

/// The register index of a hash lies below `2^b`.
proof fn lemma_index_in_range(h: u64, b: u32)
    requires
        MIN_PRECISION <= b <= MAX_PRECISION,
    ensures
        0 <= register_index(h, b) < (1u64 << b) as nat,
{
    assert((h >> ((64 - b) as u32)) < (1u64 << b)) by (bit_vector)
        requires
            4 <= b <= 18,
    ;
}

/// The number of registers at precision `b` as a `usize`.
proof fn lemma_register_count(b: u32)
    requires
        MIN_PRECISION <= b <= MAX_PRECISION,
    ensures
        (1usize << b) as nat == (1u64 << b) as nat,
        16 <= (1u64 << b) as nat <= (1u64 << 18u32) as nat,
{
    assert((1usize << b) as u64 == (1u64 << b) && 16 <= (1u64 << b) <= (1u64 << 18u32)) by (bit_vector)
        requires
            4 <= b <= 18,
    ;
}

impl<H> HyperLogLog<H> {
    /// Internal consistency: a supported precision and `2^precision`
    /// registers.
    pub closed spec fn wf(&self) -> bool {
        &&& self@.valid()
        &&& self.m == self.registers@.len()
    }

    /// A well-formed sketch has a valid abstract state.
    pub proof fn lemma_wf_valid(&self)
        requires
            self.wf(),
        ensures
            self@.valid(),
    {
    }
}

/// Clamps a raw precision into the supported range.
pub fn clamp_precision(b: u32) -> (r: u32)
    ensures
        r == if b < MIN_PRECISION {
            MIN_PRECISION
        } else if b > MAX_PRECISION {
            MAX_PRECISION
        } else {
            b
        },
{
    if b < MIN_PRECISION {
        MIN_PRECISION
    } else if b > MAX_PRECISION {
        MAX_PRECISION
    } else {
        b
    }
}

/// Builds an empty sketch of precision `b`.
fn build_hll<H>(b: u32, build_hasher: H) -> (r: HyperLogLog<H>)
    requires
        MIN_PRECISION <= b <= MAX_PRECISION,
    ensures
        r.wf(),
        r@ == (HllView {
            registers: Seq::new((1u64 << b) as nat, |i: int| 0u8),
            precision: b,
            hasher: build_hasher,
        }),
{
    proof {
        lemma_register_count(b);
    }
    let m: usize = 1usize << b;
    let mut registers: Vec<u8> = Vec::new();
    let mut i: usize = 0;
    while i < m
        invariant
            i <= m,
            registers@.len() == i,
            forall|j: int| 0 <= j < i ==> registers@[j] == 0u8,
        decreases m - i,
    {
        registers.push(0u8);
        i += 1;
    }
    let r = HyperLogLog { registers, m, b, build_hasher };
    assert(r@.registers =~= Seq::new((1u64 << b) as nat, |i: int| 0u8));
    r
}

/// Builder state after the precision has been chosen.
pub struct HyperLogLogBuilderWithPrecision<H> {
    b: u32,
    hasher: H,
}

impl<H> HyperLogLogBuilderWithPrecision<H> {
    #[verifier::type_invariant]
    spec fn supported(self) -> bool {
        MIN_PRECISION <= self.b <= MAX_PRECISION
    }

    /// The chosen precision.
    pub closed spec fn spec_precision(self) -> u32 {
        self.b
    }

    /// The hasher builder the sketch will use.
    pub closed spec fn spec_hasher(self) -> H {
        self.hasher
    }

    /// Chooses precision `b` (in `4..=18`) for a sketch hashing with `hasher`.
    pub fn new(b: u32, hasher: H) -> (r: Self)
        requires
            MIN_PRECISION <= b <= MAX_PRECISION,
        ensures
            r.spec_precision() == b,
            r.spec_hasher() == hasher,
    {
        HyperLogLogBuilderWithPrecision { b, hasher }
    }

    /// Builds an empty sketch with the chosen precision.
    pub fn build(self) -> (r: HyperLogLog<H>)
        ensures
            r.wf(),
            r@ == (HllView {
                registers: Seq::new((1u64 << self.spec_precision()) as nat, |i: int| 0u8),
                precision: self.spec_precision(),
                hasher: self.spec_hasher(),
            }),
    {
        proof {
            use_type_invariant(&self);
        }
        build_hll(self.b, self.hasher)
    }
}

impl HyperLogLog<DefaultHasher> {
    /// Creates an empty sketch of precision `b` (in `4..=18`) with the
    /// default hasher.
    pub fn with_precision(b: u32) -> (r: Self)
        requires
            MIN_PRECISION <= b <= MAX_PRECISION,
        ensures
            r.wf(),
            r@.precision == b,
            r@.registers == Seq::new((1u64 << b) as nat, |i: int| 0u8),
            r@.hasher == spec_default_hasher(),
    {
        build_hll(b, default_hasher())
    }
}

impl<H: BuildHasher> HyperLogLog<H> {
    /// Creates an empty sketch of precision `b` (in `4..=18`) hashing with
    /// `build_hasher`.
    pub fn with_precision_and_hasher(b: u32, build_hasher: H) -> (r: Self)
        requires
            MIN_PRECISION <= b <= MAX_PRECISION,
        ensures
            r.wf(),
            r@ == (HllView {
                registers: Seq::new((1u64 << b) as nat, |i: int| 0u8),
                precision: b,
                hasher: build_hasher,
            }),
    {
        build_hll(b, build_hasher)
    }

    /// Rebuilds a sketch from its registers and precision, as returned by
    /// [`Self::registers`] and [`Self::precision`]. Returns `None` unless the
    /// precision is supported and there are `2^precision` registers.
    pub fn from_parts(registers: Vec<u8>, b: u32, build_hasher: H) -> (r: Option<Self>)
        ensures
            r is Some <==> (MIN_PRECISION <= b <= MAX_PRECISION && registers@.len() == (1u64
                << b) as nat),
            r matches Some(h) ==> h.wf() && h@ == (HllView {
                registers: registers@,
                precision: b,
                hasher: build_hasher,
            }),
    {
        if b < MIN_PRECISION || b > MAX_PRECISION {
            return None;
        }
        proof {
            lemma_register_count(b);
        }
        let m: usize = 1usize << b;
        if registers.len() != m {
            return None;
        }
        Some(HyperLogLog { registers, m, b, build_hasher })
    }

    /// Returns the number of registers (`2^precision`).
    pub fn num_registers(&self) -> (r: usize)
        requires
            self.wf(),
        ensures
            r == self@.registers.len(),
    {
        self.m
    }

    /// Returns the precision (number of hash bits selecting a register).
    pub fn precision(&self) -> (r: u32)
        ensures
            r == self@.precision,
    {
        self.b
    }

    /// Returns the registers.
    pub fn registers(&self) -> (r: &[u8])
        ensures
            r@ == self@.registers,
    {
        self.registers.as_slice()
    }

    /// Returns the number of registers that are still zero.
    pub fn zero_registers(&self) -> (r: usize)
        requires
            self.wf(),
        ensures
            r == zero_count(self@.registers),
    {
        let n = self.registers.len();
        let mut zeros: usize = 0;
        let mut i: usize = 0;
        while i < n
            invariant
                n == self.registers@.len(),
                i <= n,
                zeros <= i,
                zeros == zero_count(self.registers@.subrange(0, i as int)),
            decreases n - i,
        {
            assert(self.registers@.subrange(0, i + 1).drop_last() =~= self.registers@.subrange(
                0,
                i as int,
            ));
            if self.registers[i] == 0 {
                zeros += 1;
            }
            i += 1;
        }
        assert(self.registers@.subrange(0, n as int) =~= self.registers@);
        zeros
    }

    /// Observes hash `h`: the register selected by its top bits keeps the
    /// larger of its value and the rank of `h`.
    pub fn insert_hash(&mut self, h: u64)
        requires
            old(self).wf(),
        ensures
            final(self).wf(),
            final(self)@ == old(self)@.inserted(h),
    {
        proof {
            lemma_index_in_range(h, self.b);
        }
        let idx = (h >> (64 - self.b)) as usize;
        let remaining = h << self.b;
        let rho = remaining.leading_zeros() + 1;
        if rho > self.registers[idx] as u32 {
            self.registers.set(idx, rho as u8);
        }
        assert(self@.registers =~= old(self)@.inserted(h).registers);
    }

    /// Inserts an item: hashes it and observes the hash.
    pub fn insert<T: Hash>(&mut self, item: &T)
        requires
            old(self).wf(),
        ensures
            final(self).wf(),
            exists|h: u64| final(self)@ == old(self)@.inserted(h),
    {
        let (h, _) = double_hash(&self.build_hasher, item);
        self.insert_hash(h);
    }

    /// Merges another sketch with the same number of registers into this
    /// one: every register keeps the larger of the two values.
    pub fn merge(&mut self, other: &Self)
        requires
            old(self).wf(),
            other.wf(),
            old(self)@.registers.len() == other@.registers.len(),
        ensures
            final(self).wf(),
            final(self)@ == old(self)@.merged(other@),
    {
        let n = self.m;
        let mut i: usize = 0;
        while i < n
            invariant
                old(self).wf(),
                other.wf(),
                n == old(self).m,
                self.m == n,
                self.b == old(self).b,
                self.build_hasher == old(self).build_hasher,
                self.registers@.len() == n,
                other.registers@.len() == n,
                i <= n,
                forall|j: int|
                    0 <= j < i ==> #[trigger] self.registers@[j] == max_u8(
                        old(self).registers@[j],
                        other.registers@[j],
                    ),
                forall|j: int| i <= j < n ==> #[trigger] self.registers@[j] == old(self).registers@[j],
            decreases n - i,
        {
            let b = other.registers[i];
            if b > self.registers[i] {
                self.registers.set(i, b);
            }
            i += 1;
        }
        assert(self@.registers =~= old(self)@.merged(other@).registers);
    }

    /// Resets every register to zero.
    pub fn clear(&mut self)
        requires
            old(self).wf(),
        ensures
            final(self).wf(),
            final(self)@ == old(self)@.cleared(),
    {
        let n = self.m;
        let mut i: usize = 0;
        while i < n
            invariant
                old(self).wf(),
                n == old(self).m,
                self.m == n,
                self.b == old(self).b,
                self.build_hasher == old(self).build_hasher,
                self.registers@.len() == n,
                i <= n,
                forall|j: int| 0 <= j < i ==> self.registers@[j] == 0u8,
            decreases n - i,
        {
            self.registers.set(i, 0u8);
            i += 1;
        }
        assert(self@.registers =~= old(self)@.cleared().registers);
    }
}

/// The register selected by a hash is its top `b` bits: the hash divided by
/// `2^(64 - b)`. There are `2^b` registers, and every one of them is
/// selected by some hash.
pub proof fn lemma_register_index_is_top_bits(h: u64, b: u32)
    requires
        MIN_PRECISION <= b <= MAX_PRECISION,
    ensures
        register_index(h, b) == h as nat / pow2((64 - b) as nat),
        (1u64 << b) as nat == pow2(b as nat),
        0 <= register_index(h, b) < pow2(b as nat),
{
    let s: u64 = (64 - b) as u64;
    assert(h >> ((64 - b) as u32) == h >> s) by (bit_vector)
        requires
            s == (64 - b) as u64,
            4 <= b <= 18,
    ;
    lemma_u64_shr_is_div(h, s);
    lemma_u64_pow2_no_overflow(b as nat);
    assert((1u64 << b) == (1u64 << (b as u64))) by (bit_vector);
    lemma_u64_shl_is_mul(1, b as u64);
    lemma_index_in_range(h, b);
}

/// Every register can be selected: the hash `i * 2^(64 - b)` selects
/// register `i`.
pub proof fn lemma_every_register_selectable(i: nat, b: u32)
    requires
        MIN_PRECISION <= b <= MAX_PRECISION,
        i < pow2(b as nat),
    ensures
        i * pow2((64 - b) as nat) <= u64::MAX,
        register_index((i * pow2((64 - b) as nat)) as u64, b) == i,
{
    let e = (64 - b) as nat;
    lemma_pow2_adds(b as nat, e);
    lemma_pow2_pos(e);
    assert(pow2(64) == 0x1_0000_0000_0000_0000) by {
        vstd::arithmetic::power2::lemma2_to64_rest();
    }
    assert(i * pow2(e) < pow2(b as nat) * pow2(e)) by (nonlinear_arith)
        requires
            i < pow2(b as nat),
            pow2(e) > 0,
    ;
    assert((b as nat) + e == 64);
    let h = (i * pow2(e)) as u64;
    lemma_register_index_is_top_bits(h, b);
    lemma_div_by_multiple(i as int, pow2(e) as int);
}

proof fn lemma_set_bit_lower_bound(x: u64, k: u64)
    by (bit_vector)
    requires
        k < 64,
        (x >> k) & 1u64 != 0u64,
    ensures
        x >= (1u64 << k),
{
}

proof fn lemma_shifted_out_upper_bound(x: u64, k: u64)
    by (bit_vector)
    requires
        0 < k < 64,
        x >> k == 0u64,
    ensures
        x < (1u64 << k),
{
}

proof fn lemma_shl_keeps_low_bits(h: u64, b: u32)
    by (bit_vector)
    requires
        4 <= b <= 18,
    ensures
        h << b == (h & (((1u64 << ((64 - b) as u64)) - 1u64) as u64)) << b,
{
}

/// The rank of a hash is one more than the number of zeros that lead the
/// `64 - b` bits below its index bits. With `r` those low bits read as a
/// number: `r == 0` gives rank 65; otherwise `2^(64 - b - rank) <= r <
/// 2^(65 - b - rank)`, that is, `r` has exactly `65 - b - rank` significant
/// bits.
pub proof fn lemma_rank_counts_leading_zeros(h: u64, b: u32)
    requires
        MIN_PRECISION <= b <= MAX_PRECISION,
    ensures
        h as nat % pow2((64 - b) as nat) == 0 ==> rank(h, b) == 65,
        h as nat % pow2((64 - b) as nat) != 0 ==> 1 <= rank(h, b) <= 64 - b && pow2(
            (64 - b - rank(h, b)) as nat,
        ) <= h as nat % pow2((64 - b) as nat) < pow2((65 - b - rank(h, b)) as nat),
{
    let e: nat = (64 - b) as nat;
    let x: u64 = h << b;
    let r: nat = h as nat % pow2(e);
    let big: u64 = 1u64 << (64 - b) as u64;
    lemma_u64_pow2_no_overflow(e);
    lemma_u64_shl_is_mul(1, (64 - b) as u64);
    assert(big as nat == pow2(e));
    lemma_shl_keeps_low_bits(h, b);
    lemma_pow2_pos(e);
    vstd::bits::lemma_u64_low_bits_mask_is_mod(h, e);
    let low: u64 = h & ((big - 1u64) as u64);
    assert(low as nat == r);
    assert(r < pow2(e));
    lemma_pow2_adds(e, b as nat);
    vstd::arithmetic::power2::lemma2_to64_rest();
    lemma_u64_pow2_no_overflow(b as nat);
    lemma_pow2_pos(b as nat);
    assert(r * pow2(b as nat) < pow2(e) * pow2(b as nat)) by (nonlinear_arith)
        requires
            r < pow2(e),
            pow2(b as nat) > 0,
    ;
    assert(low << b == low << (b as u64)) by (bit_vector);
    lemma_u64_shl_is_mul(low, b as u64);
    assert(x as nat == r * pow2(b as nat));
    let l = u64_leading_zeros(x);
    vstd::std_specs::bits::axiom_u64_leading_zeros(x);
    assert(rank(h, b) == l + 1);
    if r == 0 {
        assert(x == 0);
    } else {
        assert(r * pow2(b as nat) >= pow2(b as nat)) by (nonlinear_arith)
            requires
                r >= 1,
                pow2(b as nat) > 0,
        ;
        assert(x != 0);
        assert(l < 64);
        // the leading one bit gives a lower bound
        lemma_set_bit_lower_bound(x, (63 - l) as u64);
        lemma_u64_pow2_no_overflow((63 - l) as nat);
        lemma_u64_shl_is_mul(1, (63 - l) as u64);
        assert(x as nat >= pow2((63 - l) as nat));
        // nothing above it gives an upper bound
        if l > 0 {
            lemma_shifted_out_upper_bound(x, (64 - l) as u64);
            lemma_u64_pow2_no_overflow((64 - l) as nat);
            lemma_u64_shl_is_mul(1, (64 - l) as u64);
        }
        assert((x as nat) < pow2((64 - l) as nat));
        // a multiple of 2^b has at least b trailing zeros
        if 63 - l < b {
            assert(pow2((64 - l) as nat) <= pow2(b as nat)) by {
                if 64 - l < b {
                    vstd::arithmetic::power2::lemma_pow2_strictly_increases(
                        (64 - l) as nat,
                        b as nat,
                    );
                }
            }
            assert(false);
        }
        let k: nat = (63 - l - b) as nat;
        lemma_pow2_adds(k, b as nat);
        lemma_pow2_adds(k + 1, b as nat);
        assert(pow2(k) <= r) by (nonlinear_arith)
            requires
                pow2(k) * pow2(b as nat) <= r * pow2(b as nat),
                pow2(b as nat) > 0,
        ;
        assert(r < pow2(k + 1)) by (nonlinear_arith)
            requires
                r * pow2(b as nat) < pow2(k + 1) * pow2(b as nat),
                pow2(b as nat) > 0,
        ;
    }
}

/// The state after observing every hash of `s`, in order.
pub open spec fn inserted_all<H>(v: HllView<H>, s: Seq<u64>) -> HllView<H>
    decreases s.len(),
{
    if s.len() == 0 {
        v
    } else {
        inserted_all(v, s.drop_last()).inserted(s.last())
    }
}

/// `x` is the largest rank among the hashes of `s` that select register
/// `i` (0 when none does).
pub open spec fn is_max_rank(x: u8, s: Seq<u64>, b: u32, i: int) -> bool {
    &&& forall|j: int|
        0 <= j < s.len() && register_index(#[trigger] s[j], b) == i ==> rank(s[j], b) <= x
    &&& (x == 0 || exists|j: int|
        0 <= j < s.len() && register_index(#[trigger] s[j], b) == i && x == rank(s[j], b))
}

/// Observing keeps the state valid.
pub proof fn lemma_inserted_valid<H>(v: HllView<H>, h: u64)
    requires
        v.valid(),
    ensures
        v.inserted(h).valid(),
{
    lemma_index_in_range(h, v.precision);
}

/// Observing the same hash twice is observing it once: duplicates are never
/// counted twice.
pub proof fn lemma_insert_idempotent<H>(v: HllView<H>, h: u64)
    requires
        v.valid(),
    ensures
        v.inserted(h).inserted(h) == v.inserted(h),
{
    lemma_index_in_range(h, v.precision);
    assert(v.inserted(h).inserted(h).registers =~= v.inserted(h).registers);
}

/// The order of observations does not matter.
pub proof fn lemma_insert_commutes<H>(v: HllView<H>, g: u64, h: u64)
    requires
        v.valid(),
    ensures
        v.inserted(g).inserted(h) == v.inserted(h).inserted(g),
{
    lemma_index_in_range(g, v.precision);
    lemma_index_in_range(h, v.precision);
    assert(v.inserted(g).inserted(h).registers =~= v.inserted(h).inserted(g).registers);
}

/// Registers never decrease: observing a hash or merging another sketch
/// leaves every register at least as large as before.
pub proof fn lemma_registers_only_grow<H>(v: HllView<H>, w: HllView<H>, h: u64, i: int)
    requires
        v.valid(),
        v.registers.len() == w.registers.len(),
        0 <= i < v.registers.len(),
    ensures
        v.inserted(h).registers[i] >= v.registers[i],
        v.merged(w).registers[i] >= v.registers[i],
        v.merged(w).registers[i] >= w.registers[i],
        v.merged(w).registers[i] == v.registers[i] || v.merged(w).registers[i] == w.registers[i],
        v.inserted(h).registers[i] == v.registers[i] || (i == register_index(h, v.precision)
            && v.inserted(h).registers[i] == rank(h, v.precision)),
{
    lemma_index_in_range(h, v.precision);
}

/// Merging is commutative on the registers.
pub proof fn lemma_merge_commutes<H>(a: HllView<H>, b: HllView<H>)
    requires
        a.registers.len() == b.registers.len(),
    ensures
        a.merged(b).registers == b.merged(a).registers,
{
    assert(a.merged(b).registers =~= b.merged(a).registers);
}

/// Merging is associative.
pub proof fn lemma_merge_associative<H>(a: HllView<H>, b: HllView<H>, c: HllView<H>)
    requires
        a.registers.len() == b.registers.len(),
        b.registers.len() == c.registers.len(),
    ensures
        a.merged(b).merged(c) == a.merged(b.merged(c)),
{
    assert(a.merged(b).merged(c).registers =~= a.merged(b.merged(c)).registers);
}

/// Merging a sketch with itself, or with an empty sketch, changes nothing.
pub proof fn lemma_merge_idempotent<H>(a: HllView<H>)
    ensures
        a.merged(a) == a,
        a.merged(a.cleared()) == a,
        a.cleared().merged(a).registers == a.registers,
{
    assert(a.merged(a).registers =~= a.registers);
    assert(a.merged(a.cleared()).registers =~= a.registers);
    assert(a.cleared().merged(a).registers =~= a.registers);
}

/// Observing before or after a merge gives the same state.
pub proof fn lemma_insert_then_merge<H>(a: HllView<H>, b: HllView<H>, h: u64)
    requires
        a.valid(),
        a.registers.len() == b.registers.len(),
    ensures
        a.inserted(h).merged(b) == a.merged(b).inserted(h),
{
    lemma_index_in_range(h, a.precision);
    assert(a.inserted(h).merged(b).registers =~= a.merged(b).inserted(h).registers);
}

/// After observing a stream, every register holds the larger of its
/// initial value and the largest rank among the hashes that select it.
pub proof fn lemma_register_is_max<H>(v: HllView<H>, s: Seq<u64>, i: int)
    requires
        v.valid(),
        0 <= i < v.registers.len(),
    ensures
        inserted_all(v, s).valid(),
        inserted_all(v, s).precision == v.precision,
        inserted_all(v, s).hasher == v.hasher,
        exists|x: u8|
            is_max_rank(x, s, v.precision, i) && inserted_all(v, s).registers[i] == max_u8(
                v.registers[i],
                x,
            ),
    decreases s.len(),
{
    if s.len() == 0 {
        assert(is_max_rank(0, s, v.precision, i));
    } else {
        let p = s.drop_last();
        let h = s.last();
        let b = v.precision;
        lemma_register_is_max(v, p, i);
        let x = choose|x: u8| is_max_rank(x, p, b, i) && inserted_all(v, p).registers[i] == max_u8(
            v.registers[i],
            x,
        );
        lemma_index_in_range(h, b);
        if register_index(h, b) == i {
            let y = max_u8(x, rank(h, b));
            assert forall|j: int|
                0 <= j < s.len() && register_index(#[trigger] s[j], b) == i implies rank(s[j], b)
                <= y by {
                if j < p.len() {
                    assert(p[j] == s[j]);
                }
            }
            if y != 0 {
                if y == rank(h, b) {
                    assert(s[s.len() - 1] == h);
                } else {
                    let j = choose|j: int|
                        0 <= j < p.len() && register_index(#[trigger] p[j], b) == i && x == rank(
                            p[j],
                            b,
                        );
                    assert(s[j] == p[j]);
                }
            }
            assert(is_max_rank(y, s, b, i));
        } else {
            assert forall|j: int|
                0 <= j < s.len() && register_index(#[trigger] s[j], b) == i implies rank(s[j], b)
                <= x by {
                if j < p.len() {
                    assert(p[j] == s[j]);
                }
            }
            if x != 0 {
                let j = choose|j: int|
                    0 <= j < p.len() && register_index(#[trigger] p[j], b) == i && x == rank(p[j], b);
                assert(s[j] == p[j]);
            }
            assert(is_max_rank(x, s, b, i));
        }
    }
}

/// The largest rank is determined by which hashes occur, not by how often
/// or in what order.
proof fn lemma_max_rank_unique(x: u8, s: Seq<u64>, y: u8, t: Seq<u64>, b: u32, i: int)
    requires
        is_max_rank(x, s, b, i),
        is_max_rank(y, t, b, i),
        forall|h: u64| s.contains(h) <==> t.contains(h),
    ensures
        x == y,
{
    if y != 0 {
        let j = choose|j: int| 0 <= j < t.len() && register_index(#[trigger] t[j], b) == i && y == rank(t[j], b);
        assert(t.contains(t[j]));
        let k = choose|k: int| 0 <= k < s.len() && s[k] == t[j];
        assert(register_index(s[k], b) == i);
    }
    if x != 0 {
        let j = choose|j: int| 0 <= j < s.len() && register_index(#[trigger] s[j], b) == i && x == rank(s[j], b);
        assert(s.contains(s[j]));
        let k = choose|k: int| 0 <= k < t.len() && t[k] == s[j];
        assert(register_index(t[k], b) == i);
    }
}

/// Duplicates are never counted twice and order does not matter: two
/// streams with the same distinct hashes leave the same state.
pub proof fn lemma_depends_only_on_distinct_hashes<H>(v: HllView<H>, s: Seq<u64>, t: Seq<u64>)
    requires
        v.valid(),
        forall|h: u64| s.contains(h) <==> t.contains(h),
    ensures
        inserted_all(v, s) == inserted_all(v, t),
{
    let a = inserted_all(v, s);
    let c = inserted_all(v, t);
    assert forall|i: int| 0 <= i < v.registers.len() implies a.registers[i] == c.registers[i] by {
        lemma_register_is_max(v, s, i);
        lemma_register_is_max(v, t, i);
        let x = choose|x: u8| is_max_rank(x, s, v.precision, i) && a.registers[i] == max_u8(v.registers[i], x);
        let y = choose|y: u8| is_max_rank(y, t, v.precision, i) && c.registers[i] == max_u8(v.registers[i], y);
        lemma_max_rank_unique(x, s, y, t, v.precision, i);
    }
    lemma_register_count(v.precision);
    lemma_register_is_max(v, s, 0);
    lemma_register_is_max(v, t, 0);
    assert(a.registers =~= c.registers);
}

/// Distributed counting: two empty sketches of the same precision and
/// hasher, fed the streams `s` and `t`, merge into the sketch that was fed
/// `s` followed by `t`.
pub proof fn lemma_merge_of_streams<H>(v: HllView<H>, s: Seq<u64>, t: Seq<u64>)
    requires
        v.valid(),
    ensures
        inserted_all(v.cleared(), s).merged(inserted_all(v.cleared(), t)) == inserted_all(
            v.cleared(),
            s + t,
        ),
{
    let z = v.cleared();
    let b = v.precision;
    let a = inserted_all(z, s);
    let c = inserted_all(z, t);
    let m = a.merged(c);
    let st = s + t;
    let r = inserted_all(z, st);
    lemma_register_count(b);
    lemma_register_is_max(z, s, 0);
    lemma_register_is_max(z, t, 0);
    lemma_register_is_max(z, st, 0);
    assert forall|i: int| 0 <= i < z.registers.len() implies m.registers[i] == r.registers[i] by {
        lemma_register_is_max(z, s, i);
        lemma_register_is_max(z, t, i);
        lemma_register_is_max(z, st, i);
        let x = choose|x: u8| is_max_rank(x, s, b, i) && a.registers[i] == max_u8(z.registers[i], x);
        let y = choose|y: u8| is_max_rank(y, t, b, i) && c.registers[i] == max_u8(z.registers[i], y);
        let q = choose|q: u8| is_max_rank(q, st, b, i) && r.registers[i] == max_u8(z.registers[i], q);
        let u = max_u8(x, y);
        assert forall|j: int|
            0 <= j < st.len() && register_index(#[trigger] st[j], b) == i implies rank(st[j], b) <= u by {
            if j < s.len() {
                assert(st[j] == s[j]);
            } else {
                assert(st[j] == t[j - s.len()]);
            }
        }
        if u != 0 {
            if u == x {
                let j = choose|j: int| 0 <= j < s.len() && register_index(#[trigger] s[j], b) == i && x == rank(s[j], b);
                assert(st[j] == s[j]);
            } else {
                let j = choose|j: int| 0 <= j < t.len() && register_index(#[trigger] t[j], b) == i && y == rank(t[j], b);
                assert(st[s.len() + j] == t[j]);
            }
        }
        assert(is_max_rank(u, st, b, i));
        lemma_max_rank_unique(u, st, q, st, b, i);
    }
    assert(m.registers =~= r.registers);
}

} // verus!
