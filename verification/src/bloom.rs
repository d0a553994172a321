//! Bloom filter: a bit array probed at `k` double-hashing positions per item.
//!
//! False positives are possible, false negatives are not: every position
//! probed for an inserted item stays set until the filter is cleared.

use crate::hash::{
    default_hasher, double_hash, nth_hash, spec_default_hasher, spec_nth_hash, spec_second_hash,
    DefaultHasher,
};
use core::hash::{BuildHasher, Hash};
use vstd::prelude::*;

verus! {

/// Number of 64-bit words needed to hold `num_bits` bits.
pub open spec fn words_for(num_bits: u64) -> nat {
    ((num_bits + 63) / 64) as nat
}

/// Whether bit `pos` is set in a word array: bit `pos % 64` of word `pos / 64`.
pub open spec fn word_bit(words: Seq<u64>, pos: int) -> bool {
    (words[pos / 64] >> ((pos % 64) as u64)) & 1u64 == 1u64
}

/// Every bit past the first `num_bits` of the word array is clear.
pub open spec fn padding_clear(words: Seq<u64>, num_bits: u64) -> bool {
    forall|p: int| num_bits <= p < 64 * words.len() ==> !#[trigger] word_bit(words, p)
}

/// The positions probed for the hash pair `(h1, h2)`: the first `k`
/// double-hashing indices modulo `m`.
pub open spec fn probe_positions(h1: u64, h2: u64, k: nat, m: u64) -> Set<int> {
    Set::new(
        |p: int|
            exists|i: u64| #![trigger spec_nth_hash(h1, h2, i, m)]
                i < k && p == spec_nth_hash(h1, h2, i, m) as int,
    )
}

/// The abstract state of a Bloom filter.
pub struct BloomView<H> {
    /// Positions (in `0..num_bits`) whose bit is set.
    pub bits: Set<int>,
    /// Length of the bit array.
    pub num_bits: u64,
    /// Number of probes per item.
    pub num_hashes: u32,
    /// Number of insertions since construction or the last clear.
    pub count: nat,
    /// The hasher builder.
    pub hasher: H,
}

impl<H> BloomView<H> {
    /// The parameters of a usable filter, and set bits lying inside the array.
    pub open spec fn valid(self) -> bool {
        &&& self.num_bits > 0
        &&& self.num_hashes > 0
        &&& forall|p: int| #[trigger] self.bits.contains(p) ==> 0 <= p < self.num_bits
    }

    /// The positions probed for the hash pair `(h1, h2)`.
    pub open spec fn probes(self, h1: u64, h2: u64) -> Set<int> {
        probe_positions(h1, h2, self.num_hashes as nat, self.num_bits)
    }

    /// Whether every position probed for `(h1, h2)` is set.
    pub open spec fn may_contain(self, h1: u64, h2: u64) -> bool {
        forall|i: u64|
            #![trigger spec_nth_hash(h1, h2, i, self.num_bits)]
            i < self.num_hashes ==> self.bits.contains(spec_nth_hash(h1, h2, i, self.num_bits) as int)
    }

    /// The state after inserting an item whose hash pair is `(h1, h2)`.
    pub open spec fn inserted(self, h1: u64, h2: u64) -> Self {
        BloomView {
            bits: self.bits.union(self.probes(h1, h2)),
            num_bits: self.num_bits,
            num_hashes: self.num_hashes,
            count: self.count + 1,
            hasher: self.hasher,
        }
    }

    /// The state after clearing: no bit set, no insertion counted.
    pub open spec fn cleared(self) -> Self {
        BloomView {
            bits: Set::empty(),
            num_bits: self.num_bits,
            num_hashes: self.num_hashes,
            count: 0,
            hasher: self.hasher,
        }
    }
}

/// A space-efficient probabilistic set for membership testing.
#[derive(Debug, Clone)]
pub struct BloomFilter<H = DefaultHasher> {
    bits: Vec<u64>,
    num_bits: u64,
    num_hashes: u32,
    count: usize,
    build_hasher: H,
}

impl<H> View for BloomFilter<H> {
    type V = BloomView<H>;

    closed spec fn view(&self) -> BloomView<H> {
        BloomView {
            bits: Set::new(|p: int| 0 <= p < self.num_bits && word_bit(self.bits@, p)),
            num_bits: self.num_bits,
            num_hashes: self.num_hashes,
            count: self.count as nat,
            hasher: self.build_hasher,
        }
    }
}

proof fn lemma_or_bit(x: u64, b: u64, j: u64)
    by (bit_vector)
    requires
        b < 64,
        j < 64,
    ensures
        ((x | (1u64 << b)) >> j) & 1u64 == 1u64 <==> (j == b || (x >> j) & 1u64 == 1u64),
{
}

proof fn lemma_zero_bit(j: u64)
    by (bit_vector)
    ensures
        (0u64 >> j) & 1u64 != 1u64,
{
}

/// Setting bit `pos` changes exactly that bit of the word array.
proof fn lemma_word_bit_after_set(words: Seq<u64>, pos: int, p: int)
    requires
        0 <= pos,
        0 <= p,
        pos / 64 < words.len(),
        p / 64 < words.len(),
    ensures
        word_bit(words.update(pos / 64, words[pos / 64] | (1u64 << ((pos % 64) as u64))), p) == (
        p == pos || word_bit(words, p)),
{
    let w = pos / 64;
    let b = (pos % 64) as u64;
    let j = (p % 64) as u64;
    if p / 64 == w {
        lemma_or_bit(words[w], b, j);
    }
}

/// A position inside the array lies in one of its words.
proof fn lemma_word_index(pos: u64, num_bits: u64)
    requires
        pos < num_bits,
    ensures
        pos / 64 < words_for(num_bits),
{
    assert(pos / 64 < (num_bits + 63) / 64) by (nonlinear_arith)
        requires
            pos < num_bits,
    ;
}

impl<H> BloomFilter<H> {
    /// Internal consistency: the word array holds exactly `num_bits` bits,
    /// every bit past them is clear, and the parameters are those of a
    /// usable filter.
    pub closed spec fn wf(&self) -> bool {
        &&& self.num_bits > 0
        &&& self.num_hashes > 0
        &&& self.bits@.len() == words_for(self.num_bits)
        &&& padding_clear(self.bits@, self.num_bits)
    }

    /// A well-formed filter has a valid abstract state.
    pub proof fn lemma_wf_valid(&self)
        requires
            self.wf(),
        ensures
            self@.valid(),
    {
    }
}

impl BloomFilter<DefaultHasher> {
    /// Creates an empty filter of `num_bits` bits probed `num_hashes` times
    /// per item, with the default hasher.
    pub fn with_params(num_bits: u64, num_hashes: u32) -> (r: Self)
        requires
            num_bits > 0,
            num_hashes > 0,
            words_for(num_bits) <= usize::MAX,
        ensures
            r.wf(),
            r@.bits == Set::<int>::empty(),
            r@.num_bits == num_bits,
            r@.num_hashes == num_hashes,
            r@.count == 0,
            r@.hasher == spec_default_hasher(),
    {
        Self::with_params_and_hasher(num_bits, num_hashes, default_hasher())
    }
}

impl<H: BuildHasher> BloomFilter<H> {
    /// Creates an empty filter of `num_bits` bits probed `num_hashes` times
    /// per item, hashing with `build_hasher`.
    pub fn with_params_and_hasher(num_bits: u64, num_hashes: u32, build_hasher: H) -> (r: Self)
        requires
            num_bits > 0,
            num_hashes > 0,
            words_for(num_bits) <= usize::MAX,
        ensures
            r.wf(),
            r@ == (BloomView {
                bits: Set::<int>::empty(),
                num_bits,
                num_hashes,
                count: 0,
                hasher: build_hasher,
            }),
    {
        let num_words: u64 = num_bits / 64 + if num_bits % 64 == 0 {
            0
        } else {
            1
        };
        let n = num_words as usize;
        let mut bits: Vec<u64> = Vec::new();
        let mut i: usize = 0;
        while i < n
            invariant
                i <= n,
                bits@.len() == i,
                forall|j: int| 0 <= j < i ==> bits@[j] == 0u64,
            decreases n - i,
        {
            bits.push(0u64);
            i += 1;
        }
        let r = BloomFilter { bits, num_bits, num_hashes, count: 0, build_hasher };
        proof {
            assert forall|p: int| 0 <= p < 64 * r.bits@.len() implies !word_bit(r.bits@, p) by {
                lemma_zero_bit((p % 64) as u64);
            }
            assert(r@.bits =~= Set::<int>::empty());
        }
        r
    }

    /// Rebuilds a filter from its word array and parameters, as returned by
    /// [`Self::words`] and the getters. Returns `None` unless the parameters
    /// are those of a usable filter, the array holds exactly `num_bits` bits,
    /// and every bit past them is clear.
    pub fn from_parts(
        bits: Vec<u64>,
        num_bits: u64,
        num_hashes: u32,
        count: usize,
        build_hasher: H,
    ) -> (r: Option<Self>)
        ensures
            r is Some <==> (num_bits > 0 && num_hashes > 0 && bits@.len() == words_for(num_bits)
                && padding_clear(bits@, num_bits)),
            r matches Some(f) ==> f.wf() && f@ == (BloomView {
                bits: Set::new(|p: int| 0 <= p < num_bits && word_bit(bits@, p)),
                num_bits,
                num_hashes,
                count: count as nat,
                hasher: build_hasher,
            }),
    {
        if num_bits == 0 || num_hashes == 0 {
            return None;
        }
        let num_words: u64 = num_bits / 64 + if num_bits % 64 == 0 {
            0
        } else {
            1
        };
        assert(num_words == words_for(num_bits));
        if bits.len() as u64 != num_words {
            return None;
        }
        let rem = num_bits % 64;
        if rem != 0 {
            let last_index = bits.len() - 1;
            let last = bits[last_index];
            let mut j: u64 = rem;
            while j < 64
                invariant
                    rem <= j <= 64,
                    rem == num_bits % 64,
                    rem != 0,
                    bits@.len() == words_for(num_bits),
                    last_index + 1 == bits@.len(),
                    last == bits@[last_index as int],
                    forall|q: u64| rem <= q < j ==> (last >> q) & 1u64 != 1u64,
                decreases 64 - j,
            {
                if (last >> j) & 1 == 1 {
                    proof {
                        let p = 64 * last_index + j;
                        assert(p / 64 == last_index && p % 64 == j);
                        assert(word_bit(bits@, p));
                        assert(num_bits <= p < 64 * bits@.len());
                    }
                    return None;
                }
                j += 1;
            }
            proof {
                assert forall|p: int| num_bits <= p < 64 * bits@.len() implies !#[trigger] word_bit(
                    bits@,
                    p,
                ) by {
                    assert(p / 64 == last_index);
                    assert((p % 64) as u64 >= rem);
                }
            }
        }
        Some(BloomFilter { bits, num_bits, num_hashes, count, build_hasher })
    }

    /// Returns the word array: bit `p % 64` of word `p / 64` is bit `p` of
    /// the filter, and every bit past `num_bits` is clear.
    pub fn words(&self) -> (r: &[u64])
        requires
            self.wf(),
        ensures
            r@.len() == words_for(self@.num_bits),
            forall|p: int|
                0 <= p < 64 * r@.len() ==> (#[trigger] word_bit(r@, p) <==> self@.bits.contains(p)),
    {
        self.bits.as_slice()
    }

    /// Returns the number of bits in the filter.
    pub fn num_bits(&self) -> (r: u64)
        ensures
            r == self@.num_bits,
    {
        self.num_bits
    }

    /// Returns the number of hash functions used.
    pub fn num_hashes(&self) -> (r: u32)
        ensures
            r == self@.num_hashes,
    {
        self.num_hashes
    }

    /// Returns the number of items inserted.
    pub fn len(&self) -> (r: usize)
        ensures
            r == self@.count,
    {
        self.count
    }

    /// Returns `true` if no items have been inserted.
    pub fn is_empty(&self) -> (r: bool)
        ensures
            r == (self@.count == 0),
    {
        self.count == 0
    }

    fn set_bit(&mut self, pos: u64)
        requires
            old(self).wf(),
            pos < old(self).num_bits,
        ensures
            final(self).wf(),
            final(self)@ == (BloomView { bits: old(self)@.bits.insert(pos as int), ..old(self)@ }),
    {
        let num_words = self.bits.len();
        proof {
            lemma_word_index(pos, self.num_bits);
        }
        assert(pos / 64 < num_words);
        let word = (pos / 64) as usize;
        let bit = pos % 64;
        let ghost old_words = self.bits@;
        let v = self.bits[word] | (1u64 << bit);
        self.bits.set(word, v);
        proof {
            assert forall|p: int| #[trigger] self@.bits.contains(p) == old(self)@.bits.insert(
                pos as int,
            ).contains(p) by {
                if 0 <= p < self.num_bits {
                    lemma_word_bit_after_set(old_words, pos as int, p);
                }
            }
            assert(self@.bits =~= old(self)@.bits.insert(pos as int));
            assert forall|p: int| self.num_bits <= p < 64 * self.bits@.len() implies !#[trigger] word_bit(
                self.bits@,
                p,
            ) by {
                lemma_word_bit_after_set(old_words, pos as int, p);
            }
        }
    }

    fn get_bit(&self, pos: u64) -> (r: bool)
        requires
            self.wf(),
            pos < self.num_bits,
        ensures
            r == self@.bits.contains(pos as int),
    {
        let num_words = self.bits.len();
        proof {
            lemma_word_index(pos, self.num_bits);
        }
        assert(pos / 64 < num_words);
        let word = (pos / 64) as usize;
        let bit = pos % 64;
        (self.bits[word] >> bit) & 1 == 1
    }

    /// Inserts an item given its hash pair: sets every probed position.
    pub fn insert_hashes(&mut self, h1: u64, h2: u64)
        requires
            old(self).wf(),
            old(self)@.count < usize::MAX,
        ensures
            final(self).wf(),
            final(self)@ == old(self)@.inserted(h1, h2),
    {
        let m = self.num_bits;
        let k = self.num_hashes as u64;
        let mut i: u64 = 0;
        proof {
            assert(probe_positions(h1, h2, 0, m) =~= Set::<int>::empty());
            assert(old(self)@.bits.union(probe_positions(h1, h2, 0, m)) =~= old(self)@.bits);
        }
        while i < k
            invariant
                self.wf(),
                self.num_bits == m,
                self.num_hashes == k,
                self.count == old(self).count,
                i <= k,
                self@ == (BloomView {
                    bits: old(self)@.bits.union(probe_positions(h1, h2, i as nat, m)),
                    ..old(self)@
                }),
            decreases k - i,
        {
            let pos = nth_hash(h1, h2, i, m);
            self.set_bit(pos);
            proof {
                assert(probe_positions(h1, h2, (i + 1) as nat, m) =~= probe_positions(
                    h1,
                    h2,
                    i as nat,
                    m,
                ).insert(pos as int));
                assert(self@.bits =~= old(self)@.bits.union(
                    probe_positions(h1, h2, (i + 1) as nat, m),
                ));
            }
            i += 1;
        }
        self.count += 1;
    }

    /// Returns `true` if every position probed for the hash pair is set.
    pub fn contains_hashes(&self, h1: u64, h2: u64) -> (r: bool)
        requires
            self.wf(),
        ensures
            r == self@.may_contain(h1, h2),
    {
        let m = self.num_bits;
        let k = self.num_hashes as u64;
        let mut i: u64 = 0;
        while i < k
            invariant
                self.wf(),
                self.num_bits == m,
                self.num_hashes == k,
                i <= k,
                forall|j: u64|
                    #![trigger spec_nth_hash(h1, h2, j, m)]
                    j < i ==> self@.bits.contains(spec_nth_hash(h1, h2, j, m) as int),
            decreases k - i,
        {
            let pos = nth_hash(h1, h2, i, m);
            if !self.get_bit(pos) {
                assert(spec_nth_hash(h1, h2, i, self@.num_bits) == pos);
                return false;
            }
            i += 1;
        }
        true
    }

    /// Inserts an item: hashes it once and sets the positions probed for
    /// that hash pair.
    pub fn insert<T: Hash>(&mut self, item: &T)
        requires
            old(self).wf(),
            old(self)@.count < usize::MAX,
        ensures
            final(self).wf(),
            exists|h1: u64| final(self)@ == old(self)@.inserted(h1, spec_second_hash(h1)),
    {
        let (h1, h2) = double_hash(&self.build_hasher, item);
        self.insert_hashes(h1, h2);
        assert(self@ == old(self)@.inserted(h1, spec_second_hash(h1)));
    }

    /// Returns `true` if the item may be in the set: every position probed
    /// for its hash pair is set.
    pub fn contains<T: Hash>(&self, item: &T) -> (r: bool)
        requires
            self.wf(),
        ensures
            exists|h1: u64| r == self@.may_contain(h1, spec_second_hash(h1)),
    {
        let (h1, h2) = double_hash(&self.build_hasher, item);
        let r = self.contains_hashes(h1, h2);
        assert(r == self@.may_contain(h1, spec_second_hash(h1)));
        r
    }

    /// Resets the filter to its initial empty state.
    pub fn clear(&mut self)
        requires
            old(self).wf(),
        ensures
            final(self).wf(),
            final(self)@ == old(self)@.cleared(),
    {
        let n = self.bits.len();
        let mut i: usize = 0;
        while i < n
            invariant
                old(self).wf(),
                self.num_bits == old(self).num_bits,
                self.num_hashes == old(self).num_hashes,
                self.count == old(self).count,
                self.build_hasher == old(self).build_hasher,
                self.bits@.len() == n,
                i <= n,
                forall|j: int| 0 <= j < i ==> self.bits@[j] == 0u64,
            decreases n - i,
        {
            self.bits.set(i, 0u64);
            i += 1;
        }
        self.count = 0;
        proof {
            assert forall|p: int| 0 <= p < 64 * self.bits@.len() implies !word_bit(self.bits@, p) by {
                lemma_zero_bit((p % 64) as u64);
            }
            assert(self@.bits =~= Set::<int>::empty());
        }
    }
}

/// The state after inserting every hash pair of `hs`, in order.
pub open spec fn inserted_all<H>(v: BloomView<H>, hs: Seq<(u64, u64)>) -> BloomView<H>
    decreases hs.len(),
{
    if hs.len() == 0 {
        v
    } else {
        inserted_all(v, hs.drop_last()).inserted(hs.last().0, hs.last().1)
    }
}

/// No false negatives: right after an item's hash pair is inserted, the
/// filter reports that pair as possibly present.
pub proof fn lemma_inserted_is_contained<H>(v: BloomView<H>, h1: u64, h2: u64)
    ensures
        v.inserted(h1, h2).may_contain(h1, h2),
{
    let w = v.inserted(h1, h2);
    assert forall|i: u64| i < w.num_hashes implies w.bits.contains(
        spec_nth_hash(h1, h2, i, w.num_bits) as int,
    ) by {
        assert(v.probes(h1, h2).contains(spec_nth_hash(h1, h2, i, w.num_bits) as int));
    }
}

/// Insertion only sets bits: whatever the filter reported as possibly
/// present stays so after any further insertion.
pub proof fn lemma_insert_keeps_members<H>(v: BloomView<H>, g1: u64, g2: u64, h1: u64, h2: u64)
    requires
        v.may_contain(g1, g2),
    ensures
        v.inserted(h1, h2).may_contain(g1, g2),
{
}

/// No false negatives over a stream: after inserting a sequence of hash
/// pairs, every one of them is reported as possibly present, and the
/// insertion count grew by the length of the sequence.
pub proof fn lemma_stream_has_no_false_negatives<H>(v: BloomView<H>, hs: Seq<(u64, u64)>, j: int)
    requires
        0 <= j < hs.len(),
    ensures
        inserted_all(v, hs).may_contain(hs[j].0, hs[j].1),
        inserted_all(v, hs).count == v.count + hs.len(),
    decreases hs.len(),
{
    lemma_inserted_all_count(v, hs);
    let last = hs.len() - 1;
    if j == last {
        lemma_inserted_is_contained(inserted_all(v, hs.drop_last()), hs[j].0, hs[j].1);
    } else {
        lemma_stream_has_no_false_negatives(v, hs.drop_last(), j);
        lemma_insert_keeps_members(
            inserted_all(v, hs.drop_last()),
            hs[j].0,
            hs[j].1,
            hs.last().0,
            hs.last().1,
        );
    }
}

proof fn lemma_inserted_all_count<H>(v: BloomView<H>, hs: Seq<(u64, u64)>)
    ensures
        inserted_all(v, hs).count == v.count + hs.len(),
        inserted_all(v, hs).num_bits == v.num_bits,
        inserted_all(v, hs).num_hashes == v.num_hashes,
    decreases hs.len(),
{
    if hs.len() > 0 {
        lemma_inserted_all_count(v, hs.drop_last());
    }
}

/// After inserting a stream, a position is set exactly when it was set
/// before or is probed for some hash pair of the stream.
proof fn lemma_inserted_all_bits<H>(v: BloomView<H>, hs: Seq<(u64, u64)>, p: int)
    ensures
        inserted_all(v, hs).bits.contains(p) <==> (v.bits.contains(p) || exists|j: int|
            0 <= j < hs.len() && v.probes(#[trigger] hs[j].0, hs[j].1).contains(p)),
    decreases hs.len(),
{
    lemma_inserted_all_count(v, hs);
    if hs.len() > 0 {
        let prev = hs.drop_last();
        lemma_inserted_all_bits(v, prev, p);
        lemma_inserted_all_count(v, prev);
        let last = hs.len() - 1;
        if v.probes(hs[last].0, hs[last].1).contains(p) {
            assert(inserted_all(v, hs).bits.contains(p));
        }
        if exists|j: int| 0 <= j < prev.len() && v.probes(#[trigger] prev[j].0, prev[j].1).contains(p) {
            let j = choose|j: int| 0 <= j < prev.len() && v.probes(#[trigger] prev[j].0, prev[j].1).contains(p);
            assert(hs[j] == prev[j]);
        }
        if exists|j: int| 0 <= j < hs.len() && v.probes(#[trigger] hs[j].0, hs[j].1).contains(p) {
            let j = choose|j: int| 0 <= j < hs.len() && v.probes(#[trigger] hs[j].0, hs[j].1).contains(p);
            if j < last {
                assert(prev[j] == hs[j]);
            }
        }
    }
}

/// Only the distinct hash pairs of a stream matter: two streams with the
/// same distinct pairs, in any order and with any repetition, set the same
/// bits, and each insertion is counted.
pub proof fn lemma_same_distinct_pairs_same_bits<H>(
    v: BloomView<H>,
    s: Seq<(u64, u64)>,
    t: Seq<(u64, u64)>,
)
    requires
        forall|x: (u64, u64)| s.contains(x) <==> t.contains(x),
    ensures
        inserted_all(v, s).bits == inserted_all(v, t).bits,
        inserted_all(v, s).count == v.count + s.len(),
        inserted_all(v, t).count == v.count + t.len(),
{
    lemma_inserted_all_count(v, s);
    lemma_inserted_all_count(v, t);
    assert forall|p: int| inserted_all(v, s).bits.contains(p) implies inserted_all(v, t).bits.contains(p) by {
        lemma_inserted_all_bits(v, s, p);
        lemma_inserted_all_bits(v, t, p);
        if !v.bits.contains(p) {
            let j = choose|j: int| 0 <= j < s.len() && v.probes(#[trigger] s[j].0, s[j].1).contains(p);
            assert(s.contains(s[j]));
            let k = choose|k: int| 0 <= k < t.len() && t[k] == s[j];
            assert(v.probes(t[k].0, t[k].1).contains(p));
        }
    }
    assert forall|p: int| inserted_all(v, t).bits.contains(p) implies inserted_all(v, s).bits.contains(p) by {
        lemma_inserted_all_bits(v, s, p);
        lemma_inserted_all_bits(v, t, p);
        if !v.bits.contains(p) {
            let j = choose|j: int| 0 <= j < t.len() && v.probes(#[trigger] t[j].0, t[j].1).contains(p);
            assert(t.contains(t[j]));
            let k = choose|k: int| 0 <= k < s.len() && s[k] == t[j];
            assert(v.probes(s[k].0, s[k].1).contains(p));
        }
    }
    assert(inserted_all(v, s).bits =~= inserted_all(v, t).bits);
}

/// The order of insertions does not matter.
pub proof fn lemma_insert_commutes<H>(v: BloomView<H>, g1: u64, g2: u64, h1: u64, h2: u64)
    ensures
        v.inserted(g1, g2).inserted(h1, h2) == v.inserted(h1, h2).inserted(g1, g2),
{
    assert(v.inserted(g1, g2).inserted(h1, h2).bits =~= v.inserted(h1, h2).inserted(g1, g2).bits);
}

/// Inserting the same hash pair again sets no new bit; only the insertion
/// count grows.
pub proof fn lemma_reinsert_sets_no_bit<H>(v: BloomView<H>, h1: u64, h2: u64)
    ensures
        v.inserted(h1, h2).inserted(h1, h2).bits == v.inserted(h1, h2).bits,
        v.inserted(h1, h2).inserted(h1, h2).count == v.count + 2,
{
    assert(v.inserted(h1, h2).inserted(h1, h2).bits =~= v.inserted(h1, h2).bits);
}

/// Inserting keeps the abstract state valid: every probed position lies
/// inside the bit array.
pub proof fn lemma_insert_keeps_valid<H>(v: BloomView<H>, h1: u64, h2: u64)
    requires
        v.valid(),
    ensures
        v.inserted(h1, h2).valid(),
{
}

/// A cleared filter reports nothing as present and counts no insertion.
pub proof fn lemma_cleared_contains_nothing<H>(v: BloomView<H>, h1: u64, h2: u64)
    requires
        v.valid(),
    ensures
        !v.cleared().may_contain(h1, h2),
        v.cleared().count == 0,
{
    let c = v.cleared();
    assert(!c.bits.contains(spec_nth_hash(h1, h2, 0u64, c.num_bits) as int));
}

/// Saving and restoring: a word array that holds exactly the bits of a
/// valid filter (as [`BloomFilter::words`] returns) is accepted by
/// [`BloomFilter::from_parts`], which restores the same set of bits.
pub proof fn lemma_parts_round_trip<H>(v: BloomView<H>, words: Seq<u64>)
    requires
        v.valid(),
        words.len() == words_for(v.num_bits),
        forall|p: int| 0 <= p < 64 * words.len() ==> (#[trigger] word_bit(words, p) <==> v.bits.contains(p)),
    ensures
        padding_clear(words, v.num_bits),
        Set::new(|p: int| 0 <= p < v.num_bits && word_bit(words, p)) == v.bits,
{
    assert forall|p: int| v.bits.contains(p) implies 0 <= p < 64 * words.len() by {
        assert(v.num_bits <= 64 * words.len());
    }
    assert(Set::new(|p: int| 0 <= p < v.num_bits && word_bit(words, p)) =~= v.bits);
}

} // verus!
