//! Count-Min sketch: `depth` rows of `width` counters; an item adds its count
//! to one double-hashing column in every row, and its estimate is the
//! smallest of those counters.
//!
//! The sketch may overcount but never undercounts, and every row always
//! accounts for exactly the total of all insertions.

use crate::hash::{
    default_hasher, double_hash, nth_hash, spec_default_hasher, spec_nth_hash, spec_second_hash,
    DefaultHasher,
};
use core::hash::{BuildHasher, Hash};
use vstd::arithmetic::div_mod::lemma_fundamental_div_mod;
use vstd::prelude::*;

verus! {

/// The sum of a sequence of counters.
pub open spec fn sum(s: Seq<nat>) -> nat
    decreases s.len(),
{
    if s.len() == 0 {
        0
    } else {
        sum(s.drop_last()) + s.last()
    }
}

/// The abstract state of a Count-Min sketch.
pub struct CmsView<H> {
    /// `depth` rows, each of `width` counters.
    pub rows: Seq<Seq<nat>>,
    /// Number of columns.
    pub width: usize,
    /// Number of rows.
    pub depth: usize,
    /// Sum of all counts inserted since construction or the last clear.
    pub total: nat,
    /// The hasher builder.
    pub hasher: H,
}

impl<H> CmsView<H> {
    /// The shape of a usable sketch, and every row summing to the total.
    pub open spec fn valid(self) -> bool {
        &&& self.width >= 1
        &&& self.depth >= 1
        &&& self.rows.len() == self.depth
        &&& forall|r: int|
            0 <= r < self.depth ==> #[trigger] self.rows[r].len() == self.width && sum(self.rows[r])
                == self.total
    }

    /// The column probed in row `r` for the hash pair `(h1, h2)`.
    pub open spec fn col(self, h1: u64, h2: u64, r: int) -> int {
        spec_nth_hash(h1, h2, r as u64, self.width as u64) as int
    }

    /// The counter probed in row `r` for the hash pair `(h1, h2)`.
    pub open spec fn probe(self, h1: u64, h2: u64, r: int) -> nat {
        self.rows[r][self.col(h1, h2, r)]
    }

    /// The smallest of the counters probed in rows `0..k` (for `k >= 1`).
    pub open spec fn min_probe(self, h1: u64, h2: u64, k: int) -> nat
        decreases k,
    {
        if k <= 1 {
            self.probe(h1, h2, 0)
        } else {
            let m = self.min_probe(h1, h2, k - 1);
            let p = self.probe(h1, h2, k - 1);
            if p < m {
                p
            } else {
                m
            }
        }
    }

    /// The estimated frequency of the hash pair: the smallest probed counter
    /// over all rows (0 for a sketch without rows).
    pub open spec fn estimate(self, h1: u64, h2: u64) -> nat {
        if self.depth == 0 {
            0
        } else {
            self.min_probe(h1, h2, self.depth as int)
        }
    }

    /// The state after adding `count` occurrences of the hash pair.
    pub open spec fn inserted(self, h1: u64, h2: u64, count: nat) -> Self {
        CmsView {
            rows: Seq::new(
                self.depth as nat,
                |r: int| self.rows[r].update(self.col(h1, h2, r), self.probe(h1, h2, r) + count),
            ),
            width: self.width,
            depth: self.depth,
            total: self.total + count,
            hasher: self.hasher,
        }
    }

    /// The state after adding another sketch of the same shape, counter by
    /// counter.
    pub open spec fn merged(self, other: Self) -> Self {
        CmsView {
            rows: Seq::new(
                self.depth as nat,
                |r: int|
                    Seq::new(self.width as nat, |c: int| self.rows[r][c] + other.rows[r][c]),
            ),
            width: self.width,
            depth: self.depth,
            total: self.total + other.total,
            hasher: self.hasher,
        }
    }

    /// The state after clearing: every counter and the total are zero.
    pub open spec fn cleared(self) -> Self {
        CmsView {
            rows: Seq::new(self.depth as nat, |r: int| Seq::new(self.width as nat, |c: int| 0nat)),
            width: self.width,
            depth: self.depth,
            total: 0,
            hasher: self.hasher,
        }
    }
}

/// The rows of a row-major counter array: counter `c` of row `r` is
/// element `r * width + c`.
pub open spec fn rows_of(counters: Seq<u64>, width: nat, depth: nat) -> Seq<Seq<nat>> {
    Seq::new(depth, |r: int| Seq::new(width, |c: int| counters[r * width + c] as nat))
}

/// A probabilistic data structure for frequency estimation.
#[derive(Debug, Clone)]
pub struct CountMinSketch<H = DefaultHasher> {
    counters: Vec<u64>,
    width: usize,
    depth: usize,
    total: u64,
    build_hasher: H,
}

impl<H> View for CountMinSketch<H> {
    type V = CmsView<H>;

    closed spec fn view(&self) -> CmsView<H> {
        CmsView {
            rows: rows_of(self.counters@, self.width as nat, self.depth as nat),
            width: self.width,
            depth: self.depth,
            total: self.total as nat,
            hasher: self.build_hasher,
        }
    }
}

/// Removing the `j`-th counter's old value and adding a new one.
proof fn lemma_sum_update(s: Seq<nat>, j: int, x: nat)
    requires
        0 <= j < s.len(),
    ensures
        sum(s.update(j, x)) + s[j] == sum(s) + x,
    decreases s.len(),
{
    let t = s.update(j, x);
    if j < s.len() - 1 {
        assert(t.drop_last() =~= s.drop_last().update(j, x));
        lemma_sum_update(s.drop_last(), j, x);
    } else {
        assert(t.drop_last() =~= s.drop_last());
    }
}

/// Every counter is at most the sum of its row.
proof fn lemma_elem_le_sum(s: Seq<nat>, j: int)
    requires
        0 <= j < s.len(),
    ensures
        s[j] <= sum(s),
    decreases s.len(),
{
    if j < s.len() - 1 {
        lemma_elem_le_sum(s.drop_last(), j);
    }
}

/// The sum of a counter-wise sum is the sum of the sums.
proof fn lemma_sum_add(a: Seq<nat>, b: Seq<nat>)
    requires
        a.len() == b.len(),
    ensures
        sum(Seq::new(a.len(), |c: int| a[c] + b[c])) == sum(a) + sum(b),
    decreases a.len(),
{
    let s = Seq::new(a.len(), |c: int| a[c] + b[c]);
    if a.len() > 0 {
        let n = (a.len() - 1) as nat;
        assert(s.drop_last() =~= Seq::new(n, |c: int| a.drop_last()[c] + b.drop_last()[c]));
        lemma_sum_add(a.drop_last(), b.drop_last());
    }
}

/// A row of zeros sums to zero.
proof fn lemma_sum_zeros(n: nat)
    ensures
        sum(Seq::new(n, |c: int| 0nat)) == 0,
    decreases n,
{
    if n > 0 {
        assert(Seq::new(n, |c: int| 0nat).drop_last() =~= Seq::new((n - 1) as nat, |c: int| 0nat));
        lemma_sum_zeros((n - 1) as nat);
    }
}

/// Cell `(r, c)` of a row-major array lies inside it.
proof fn lemma_cell_in_bounds(w: int, d: int, r: int, c: int)
    requires
        0 <= r < d,
        0 <= c < w,
    ensures
        0 <= r * w + c < d * w,
        0 <= r * w <= r * w + c,
        d * w == w * d,
{
    assert(0 <= r * w <= r * w + c < d * w) by (nonlinear_arith)
        requires
            0 <= r < d,
            0 <= c < w,
    ;
    assert(d * w == w * d) by (nonlinear_arith);
}

/// Distinct cells of a row-major array have distinct flat indices.
proof fn lemma_flat_index(w: int, r: int, c: int, r2: int, c2: int)
    requires
        0 <= r,
        0 <= r2,
        0 <= c < w,
        0 <= c2 < w,
    ensures
        (r * w + c == r2 * w + c2) <==> (r == r2 && c == c2),
{
    if r < r2 {
        assert(r * w + c < r2 * w + c2) by (nonlinear_arith)
            requires
                r < r2,
                0 <= c < w,
                0 <= c2,
        ;
    } else if r2 < r {
        assert(r2 * w + c2 < r * w + c) by (nonlinear_arith)
            requires
                r2 < r,
                0 <= c2 < w,
                0 <= c,
        ;
    }
}

/// Every flat index of a row-major array is a cell `(i / w, i % w)`.
proof fn lemma_flat_cell(w: int, d: int, i: int)
    requires
        0 < w,
        0 <= i < d * w,
    ensures
        0 <= i / w < d,
        0 <= i % w < w,
        i == (i / w) * w + i % w,
{
    lemma_fundamental_div_mod(i, w);
    assert(w * (i / w) == (i / w) * w) by (nonlinear_arith);
    assert(0 <= i / w < d) by (nonlinear_arith)
        requires
            0 < w,
            0 <= i < d * w,
            i == w * (i / w) + (i % w),
            0 <= i % w < w,
    ;
}

/// Writing one flat cell changes exactly that counter of that row.
proof fn lemma_rows_after_set(counters: Seq<u64>, w: nat, d: nat, r0: int, c0: int, v: u64)
    requires
        counters.len() == w * d,
        0 <= r0 < d,
        0 <= c0 < w,
    ensures
        0 <= r0 * w + c0 < counters.len(),
        rows_of(counters.update(r0 * w + c0, v), w, d) == rows_of(counters, w, d).update(
            r0,
            rows_of(counters, w, d)[r0].update(c0, v as nat),
        ),
{
    lemma_cell_in_bounds(w as int, d as int, r0, c0);
    let lhs = rows_of(counters.update(r0 * w + c0, v), w, d);
    let rhs = rows_of(counters, w, d).update(r0, rows_of(counters, w, d)[r0].update(c0, v as nat));
    assert forall|r: int| 0 <= r < d implies #[trigger] lhs[r] =~= rhs[r] by {
        assert forall|c: int| 0 <= c < w implies lhs[r][c] == rhs[r][c] by {
            lemma_flat_index(w as int, r, c, r0, c0);
            lemma_cell_in_bounds(w as int, d as int, r, c);
        }
    }
    assert(lhs =~= rhs);
}

impl<H> CountMinSketch<H> {
    /// Internal consistency: the counter array is `depth` rows of `width`
    /// counters, and every row sums to the total.
    pub closed spec fn wf(&self) -> bool {
        &&& self.counters@.len() == self.width * self.depth
        &&& self@.valid()
    }

    /// A well-formed sketch has a valid abstract state.
    pub proof fn lemma_wf_valid(&self)
        requires
            self.wf(),
        ensures
            self@.valid(),
    {
    }

    /// Every counter is at most the total.
    proof fn lemma_counter_le_total(&self, i: int)
        requires
            self.wf(),
            0 <= i < self.counters@.len(),
        ensures
            self.counters@[i] <= self.total,
    {
        let w = self.width as int;
        lemma_flat_cell(w, self.depth as int, i);
        let r = i / w;
        let c = i % w;
        assert(self@.rows[r][c] == self.counters@[i]);
        lemma_elem_le_sum(self@.rows[r], c);
    }
}

impl CountMinSketch<DefaultHasher> {
    /// Creates an empty sketch of `depth` rows of `width` counters, with the
    /// default hasher.
    pub fn with_dimensions(width: usize, depth: usize) -> (r: Self)
        requires
            width >= 1,
            depth >= 1,
            width * depth <= usize::MAX,
        ensures
            r.wf(),
            r@.width == width,
            r@.depth == depth,
            r@.total == 0,
            r@.rows == r@.cleared().rows,
            r@.hasher == spec_default_hasher(),
    {
        Self::with_dimensions_and_hasher(width, depth, default_hasher())
    }
}

impl<H: BuildHasher> CountMinSketch<H> {
    /// Creates an empty sketch of `depth` rows of `width` counters, hashing
    /// with `build_hasher`.
    pub fn with_dimensions_and_hasher(width: usize, depth: usize, build_hasher: H) -> (r: Self)
        requires
            width >= 1,
            depth >= 1,
            width * depth <= usize::MAX,
        ensures
            r.wf(),
            r@ == (CmsView {
                rows: Seq::new(depth as nat, |r: int| Seq::new(width as nat, |c: int| 0nat)),
                width,
                depth,
                total: 0,
                hasher: build_hasher,
            }),
    {
        let n = width * depth;
        let mut counters: Vec<u64> = Vec::new();
        let mut i: usize = 0;
        while i < n
            invariant
                n == width * depth,
                i <= n,
                counters@.len() == i,
                forall|j: int| 0 <= j < i ==> counters@[j] == 0u64,
            decreases n - i,
        {
            counters.push(0u64);
            i += 1;
        }
        let r = CountMinSketch { counters, width, depth, total: 0, build_hasher };
        proof {
            let zeros = Seq::new(depth as nat, |r: int| Seq::new(width as nat, |c: int| 0nat));
            assert forall|rr: int| 0 <= rr < depth implies #[trigger] r@.rows[rr] =~= zeros[rr] by {
                assert forall|c: int| 0 <= c < width implies r@.rows[rr][c] == 0 by {
                    lemma_cell_in_bounds(width as int, depth as int, rr, c);
                }
            }
            assert(r@.rows =~= zeros);
            lemma_sum_zeros(width as nat);
        }
        r
    }

    /// Rebuilds a sketch from its row-major counter array and parameters, as
    /// returned by [`Self::counters`] and the getters. Returns `None` unless
    /// the array holds `depth` rows of `width` counters (both at least 1) and
    /// every row sums to `total`.
    pub fn from_parts(
        counters: Vec<u64>,
        width: usize,
        depth: usize,
        total: u64,
        build_hasher: H,
    ) -> (r: Option<Self>)
        ensures
            r is Some <==> (width >= 1 && depth >= 1 && counters@.len() == width * depth && forall|
                row: int,
            |
                0 <= row < depth ==> #[trigger] sum(rows_of(counters@, width as nat, depth as nat)[row])
                    == total),
            r matches Some(s) ==> s.wf() && s@ == (CmsView {
                rows: rows_of(counters@, width as nat, depth as nat),
                width,
                depth,
                total: total as nat,
                hasher: build_hasher,
            }),
    {
        if width == 0 || depth == 0 {
            return None;
        }
        let len = counters.len();
        match width.checked_mul(depth) {
            None => {
                return None;
            },
            Some(n) => {
                if n != len {
                    return None;
                }
            },
        }
        let ghost rows = rows_of(counters@, width as nat, depth as nat);
        let mut row: usize = 0;
        while row < depth
            invariant
                width >= 1,
                rows == rows_of(counters@, width as nat, depth as nat),
                counters@.len() == width * depth,
                len == width * depth,
                row <= depth,
                forall|r: int| 0 <= r < row ==> #[trigger] sum(rows[r]) == total,
            decreases depth - row,
        {
            let mut acc: u128 = 0;
            let mut c: usize = 0;
            while c < width
                invariant
                    width >= 1,
                    rows == rows_of(counters@, width as nat, depth as nat),
                    counters@.len() == width * depth,
                    len == width * depth,
                    row < depth,
                    c <= width,
                    acc == sum(rows[row as int].subrange(0, c as int)),
                    acc <= c * 0xffff_ffff_ffff_ffffu64,
                decreases width - c,
            {
                proof {
                    lemma_cell_in_bounds(width as int, depth as int, row as int, c as int);
                    assert(rows[row as int].subrange(0, c + 1).drop_last() =~= rows[row as int].subrange(
                        0,
                        c as int,
                    ));
                }
                acc = acc + counters[row * width + c] as u128;
                c += 1;
            }
            assert(rows[row as int].subrange(0, width as int) =~= rows[row as int]);
            if acc != total as u128 {
                return None;
            }
            row += 1;
        }
        let s = CountMinSketch { counters, width, depth, total, build_hasher };
        assert(s@.rows == rows);
        Some(s)
    }

    /// Returns the row-major counter array: counter `c` of row `r` is
    /// element `r * width + c`.
    pub fn counters(&self) -> (r: &[u64])
        requires
            self.wf(),
        ensures
            r@.len() == self@.width * self@.depth,
            rows_of(r@, self@.width as nat, self@.depth as nat) == self@.rows,
    {
        self.counters.as_slice()
    }

    /// Returns the width (number of columns) of the sketch.
    pub fn width(&self) -> (r: usize)
        ensures
            r == self@.width,
    {
        self.width
    }

    /// Returns the depth (number of rows) of the sketch.
    pub fn depth(&self) -> (r: usize)
        ensures
            r == self@.depth,
    {
        self.depth
    }

    /// Returns the total count of all insertions.
    pub fn total(&self) -> (r: u64)
        ensures
            r == self@.total,
    {
        self.total
    }

    /// The counter in row `row`, column `col`.
    fn counter(&self, row: usize, col: u64) -> (r: u64)
        requires
            self.wf(),
            row < self.depth,
            col < self.width,
        ensures
            r == self@.rows[row as int][col as int],
    {
        let n = self.counters.len();
        proof {
            lemma_cell_in_bounds(self.width as int, self.depth as int, row as int, col as int);
        }
        self.counters[row * self.width + col as usize]
    }

    /// Adds `count` occurrences of the hash pair: the counter probed in
    /// every row grows by `count`, and so does the total.
    pub fn insert_many_hashes(&mut self, h1: u64, h2: u64, count: u64)
        requires
            old(self).wf(),
            old(self)@.total + count <= u64::MAX,
        ensures
            final(self).wf(),
            final(self)@ == old(self)@.inserted(h1, h2, count as nat),
    {
        let ghost v0 = old(self)@;
        let w = self.width;
        let d = self.depth;
        let n = self.counters.len();
        let mut row: usize = 0;
        while row < d
            invariant
                old(self).wf(),
                n == w * d,
                w == old(self).width,
                d == old(self).depth,
                v0 == old(self)@,
                v0.total + count <= u64::MAX,
                self.width == w,
                self.depth == d,
                self.total == old(self).total,
                self.build_hasher == old(self).build_hasher,
                self.counters@.len() == w * d,
                row <= d,
                self@.rows == Seq::new(
                    d as nat,
                    |r: int|
                        if r < row {
                            v0.rows[r].update(v0.col(h1, h2, r), v0.probe(h1, h2, r) + count as nat)
                        } else {
                            v0.rows[r]
                        },
                ),
            decreases d - row,
        {
            let col = nth_hash(h1, h2, row as u64, w as u64);
            proof {
                lemma_cell_in_bounds(w as int, d as int, row as int, col as int);
                lemma_elem_le_sum(v0.rows[row as int], col as int);
            }
            let idx = row * w + col as usize;
            let ghost before = self.counters@;
            assert(self@.rows[row as int] == v0.rows[row as int]);
            assert(self@.rows[row as int][col as int] == self.counters@[idx as int]);
            assert(self.counters@[idx as int] == v0.probe(h1, h2, row as int));
            let v = self.counters[idx] + count;
            self.counters.set(idx, v);
            proof {
                lemma_rows_after_set(before, w as nat, d as nat, row as int, col as int, v);
                let next = Seq::new(
                    d as nat,
                    |r: int|
                        if r < row + 1 {
                            v0.rows[r].update(v0.col(h1, h2, r), v0.probe(h1, h2, r) + count as nat)
                        } else {
                            v0.rows[r]
                        },
                );
                assert(self@.rows =~= next);
            }
            row += 1;
        }
        self.total = self.total + count;
        proof {
            let target = v0.inserted(h1, h2, count as nat);
            assert(self@.rows =~= target.rows);
            assert forall|r: int| 0 <= r < d implies #[trigger] self@.rows[r].len() == w && sum(
                self@.rows[r],
            ) == self@.total by {
                lemma_sum_update(v0.rows[r], v0.col(h1, h2, r), v0.probe(h1, h2, r) + count as nat);
            }
        }
    }

    /// Returns the estimated frequency of the hash pair: the smallest
    /// counter probed over all rows.
    pub fn estimate_hashes(&self, h1: u64, h2: u64) -> (r: u64)
        requires
            self.wf(),
        ensures
            r == self@.estimate(h1, h2),
    {
        let w = self.width as u64;
        let col0 = nth_hash(h1, h2, 0, w);
        let mut best = self.counter(0, col0);
        let mut row: usize = 1;
        while row < self.depth
            invariant
                self.wf(),
                w == self.width,
                1 <= row <= self.depth,
                best == self@.min_probe(h1, h2, row as int),
            decreases self.depth - row,
        {
            let col = nth_hash(h1, h2, row as u64, w);
            let c = self.counter(row, col);
            if c < best {
                best = c;
            }
            row += 1;
        }
        best
    }

    /// Adds `count` occurrences of an item: hashes it once and adds the
    /// count to the counters probed for that hash pair.
    pub fn insert_many<T: Hash>(&mut self, item: &T, count: u64)
        requires
            old(self).wf(),
            old(self)@.total + count <= u64::MAX,
        ensures
            final(self).wf(),
            exists|h1: u64|
                final(self)@ == old(self)@.inserted(h1, spec_second_hash(h1), count as nat),
    {
        let (h1, h2) = double_hash(&self.build_hasher, item);
        self.insert_many_hashes(h1, h2, count);
        assert(self@ == old(self)@.inserted(h1, spec_second_hash(h1), count as nat));
    }

    /// Adds one occurrence of an item.
    pub fn insert<T: Hash>(&mut self, item: &T)
        requires
            old(self).wf(),
            old(self)@.total < u64::MAX,
        ensures
            final(self).wf(),
            exists|h1: u64| final(self)@ == old(self)@.inserted(h1, spec_second_hash(h1), 1),
    {
        self.insert_many(item, 1);
    }

    /// Returns the estimated frequency of an item: the smallest counter
    /// probed for its hash pair.
    pub fn estimate<T: Hash>(&self, item: &T) -> (r: u64)
        requires
            self.wf(),
        ensures
            exists|h1: u64| r == self@.estimate(h1, spec_second_hash(h1)),
    {
        let (h1, h2) = double_hash(&self.build_hasher, item);
        let r = self.estimate_hashes(h1, h2);
        assert(r == self@.estimate(h1, spec_second_hash(h1)));
        r
    }

    /// Merges another sketch of the same dimensions into this one by adding
    /// counters element-wise.
    pub fn merge(&mut self, other: &Self)
        requires
            old(self).wf(),
            other.wf(),
            old(self)@.width == other@.width,
            old(self)@.depth == other@.depth,
            old(self)@.total + other@.total <= u64::MAX,
        ensures
            final(self).wf(),
            final(self)@ == old(self)@.merged(other@),
    {
        let ghost v0 = old(self)@;
        let ghost c0 = old(self).counters@;
        let n = self.counters.len();
        let mut i: usize = 0;
        while i < n
            invariant
                old(self).wf(),
                other.wf(),
                c0 == old(self).counters@,
                n == c0.len(),
                other.counters@.len() == n,
                old(self).total + other.total <= u64::MAX,
                self.width == old(self).width,
                self.depth == old(self).depth,
                self.total == old(self).total,
                self.build_hasher == old(self).build_hasher,
                self.counters@.len() == n,
                i <= n,
                forall|j: int| 0 <= j < i ==> #[trigger] self.counters@[j] == c0[j] + other.counters@[j],
                forall|j: int| i <= j < n ==> #[trigger] self.counters@[j] == c0[j],
            decreases n - i,
        {
            proof {
                old(self).lemma_counter_le_total(i as int);
                other.lemma_counter_le_total(i as int);
            }
            let v = self.counters[i] + other.counters[i];
            self.counters.set(i, v);
            i += 1;
        }
        self.total = self.total + other.total;
        proof {
            let target = v0.merged(other@);
            let w = self.width as int;
            let d = self.depth as int;
            assert forall|r: int| 0 <= r < d implies #[trigger] self@.rows[r] =~= target.rows[r] by {
                assert forall|c: int| 0 <= c < w implies self@.rows[r][c] == target.rows[r][c] by {
                    lemma_cell_in_bounds(w, d, r, c);
                }
            }
            assert(self@.rows =~= target.rows);
            assert forall|r: int| 0 <= r < d implies #[trigger] self@.rows[r].len() == w && sum(
                self@.rows[r],
            ) == self@.total by {
                lemma_sum_add(v0.rows[r], other@.rows[r]);
                assert(v0.rows[r].len() == w);
                assert(self@.rows[r] =~= Seq::new(
                    v0.rows[r].len(),
                    |c: int| v0.rows[r][c] + other@.rows[r][c],
                ));
            }
        }
    }

    /// Resets the sketch to its initial empty state.
    pub fn clear(&mut self)
        requires
            old(self).wf(),
        ensures
            final(self).wf(),
            final(self)@ == old(self)@.cleared(),
    {
        let n = self.counters.len();
        let mut i: usize = 0;
        while i < n
            invariant
                old(self).wf(),
                self.width == old(self).width,
                self.depth == old(self).depth,
                self.total == old(self).total,
                self.build_hasher == old(self).build_hasher,
                self.counters@.len() == n,
                n == self.width * self.depth,
                i <= n,
                forall|j: int| 0 <= j < i ==> self.counters@[j] == 0u64,
            decreases n - i,
        {
            self.counters.set(i, 0u64);
            i += 1;
        }
        self.total = 0;
        proof {
            let target = old(self)@.cleared();
            let w = self.width as int;
            let d = self.depth as int;
            assert forall|r: int| 0 <= r < d implies #[trigger] self@.rows[r] =~= target.rows[r] by {
                assert forall|c: int| 0 <= c < w implies self@.rows[r][c] == target.rows[r][c] by {
                    lemma_cell_in_bounds(w, d, r, c);
                }
            }
            assert(self@.rows =~= target.rows);
            lemma_sum_zeros(w as nat);
        }
    }
}

/// The state after inserting every `(h1, h2, count)` of `s`, in order.
pub open spec fn inserted_all<H>(v: CmsView<H>, s: Seq<(u64, u64, nat)>) -> CmsView<H>
    decreases s.len(),
{
    if s.len() == 0 {
        v
    } else {
        inserted_all(v, s.drop_last()).inserted(s.last().0, s.last().1, s.last().2)
    }
}

/// The true number of occurrences of the hash pair `(h1, h2)` in `s`.
pub open spec fn true_count(s: Seq<(u64, u64, nat)>, h1: u64, h2: u64) -> nat
    decreases s.len(),
{
    if s.len() == 0 {
        0
    } else {
        true_count(s.drop_last(), h1, h2) + if s.last().0 == h1 && s.last().1 == h2 {
            s.last().2
        } else {
            0
        }
    }
}

/// The sum of all counts in `s`.
pub open spec fn stream_total(s: Seq<(u64, u64, nat)>) -> nat
    decreases s.len(),
{
    if s.len() == 0 {
        0
    } else {
        stream_total(s.drop_last()) + s.last().2
    }
}

/// Whether two states hold the same counters and total in the same shape.
pub open spec fn same_counts<H>(a: CmsView<H>, b: CmsView<H>) -> bool {
    &&& a.rows == b.rows
    &&& a.total == b.total
    &&& a.width == b.width
    &&& a.depth == b.depth
}

/// Every operation keeps the state valid: inserting keeps every row summing
/// to the total.
pub proof fn lemma_inserted_valid<H>(v: CmsView<H>, h1: u64, h2: u64, count: nat)
    requires
        v.valid(),
    ensures
        v.inserted(h1, h2, count).valid(),
{
    let w = v.inserted(h1, h2, count);
    assert forall|r: int| 0 <= r < v.depth implies #[trigger] w.rows[r].len() == w.width && sum(
        w.rows[r],
    ) == w.total by {
        lemma_sum_update(v.rows[r], v.col(h1, h2, r), v.probe(h1, h2, r) + count);
    }
}

/// Merging two valid states of the same shape gives a valid state.
pub proof fn lemma_merged_valid<H>(a: CmsView<H>, b: CmsView<H>)
    requires
        a.valid(),
        b.valid(),
        a.width == b.width,
        a.depth == b.depth,
    ensures
        a.merged(b).valid(),
{
    let m = a.merged(b);
    assert forall|r: int| 0 <= r < a.depth implies #[trigger] m.rows[r].len() == m.width && sum(
        m.rows[r],
    ) == m.total by {
        lemma_sum_add(a.rows[r], b.rows[r]);
        assert(m.rows[r] =~= Seq::new(a.rows[r].len(), |c: int| a.rows[r][c] + b.rows[r][c]));
    }
}

/// Clearing a valid state gives a valid state whose estimate is zero for
/// every hash pair.
pub proof fn lemma_cleared_estimates_zero<H>(v: CmsView<H>, h1: u64, h2: u64)
    requires
        v.valid(),
    ensures
        v.cleared().valid(),
        v.cleared().estimate(h1, h2) == 0,
{
    lemma_sum_zeros(v.width as nat);
    let c = v.cleared();
    lemma_min_probe_bounds(c, h1, h2, c.depth as int);
}

/// The smallest probed counter is at most every probed counter and equal
/// to one of them.
proof fn lemma_min_probe_bounds<H>(v: CmsView<H>, h1: u64, h2: u64, k: int)
    requires
        1 <= k,
    ensures
        forall|r: int| 0 <= r < k ==> v.min_probe(h1, h2, k) <= #[trigger] v.probe(h1, h2, r),
        exists|r: int| 0 <= r < k && v.min_probe(h1, h2, k) == #[trigger] v.probe(h1, h2, r),
    decreases k,
{
    if k > 1 {
        lemma_min_probe_bounds(v, h1, h2, k - 1);
        let r0 = choose|r: int| 0 <= r < k - 1 && v.min_probe(h1, h2, k - 1) == #[trigger] v.probe(h1, h2, r);
        if v.probe(h1, h2, k - 1) < v.min_probe(h1, h2, k - 1) {
            assert(v.min_probe(h1, h2, k) == v.probe(h1, h2, k - 1));
        } else {
            assert(v.min_probe(h1, h2, k) == v.probe(h1, h2, r0));
        }
    } else {
        assert(v.min_probe(h1, h2, k) == v.probe(h1, h2, 0));
    }
}

/// If every probed counter of `a` exceeds that of `b` by at least `x`, so
/// does their minimum.
proof fn lemma_min_probe_grows<H>(a: CmsView<H>, b: CmsView<H>, h1: u64, h2: u64, k: int, x: nat)
    requires
        1 <= k,
        forall|r: int| 0 <= r < k ==> #[trigger] a.probe(h1, h2, r) >= b.probe(h1, h2, r) + x,
    ensures
        a.min_probe(h1, h2, k) >= b.min_probe(h1, h2, k) + x,
    decreases k,
{
    if k > 1 {
        lemma_min_probe_grows(a, b, h1, h2, k - 1, x);
    }
    assert(a.probe(h1, h2, k - 1) >= b.probe(h1, h2, k - 1) + x);
    assert(a.probe(h1, h2, 0) >= b.probe(h1, h2, 0) + x);
}

/// If no probed counter of `a` exceeds that of `b` by more than `x`,
/// neither does their minimum.
proof fn lemma_min_probe_bounded<H>(a: CmsView<H>, b: CmsView<H>, h1: u64, h2: u64, k: int, x: nat)
    requires
        1 <= k,
        forall|r: int| 0 <= r < k ==> #[trigger] a.probe(h1, h2, r) <= b.probe(h1, h2, r) + x,
    ensures
        a.min_probe(h1, h2, k) <= b.min_probe(h1, h2, k) + x,
    decreases k,
{
    if k > 1 {
        lemma_min_probe_bounded(a, b, h1, h2, k - 1, x);
    }
    assert(a.probe(h1, h2, k - 1) <= b.probe(h1, h2, k - 1) + x);
    assert(a.probe(h1, h2, 0) <= b.probe(h1, h2, 0) + x);
}

/// Adding `n` occurrences of a hash pair raises its estimate by exactly `n`,
/// raises the estimate of any other hash pair by at most `n` (never
/// lowering it), and raises the total by `n`. With `n == 1` this is a
/// single insertion.
pub proof fn lemma_insert_estimate_change<H>(
    v: CmsView<H>,
    h1: u64,
    h2: u64,
    n: nat,
    g1: u64,
    g2: u64,
)
    requires
        v.valid(),
    ensures
        v.inserted(h1, h2, n).estimate(h1, h2) == v.estimate(h1, h2) + n,
        v.estimate(g1, g2) <= v.inserted(h1, h2, n).estimate(g1, g2),
        v.inserted(h1, h2, n).estimate(g1, g2) <= v.estimate(g1, g2) + n,
        v.inserted(h1, h2, n).total == v.total + n,
{
    let a = v.inserted(h1, h2, n);
    let d = v.depth as int;
    assert forall|r: int| 0 <= r < d implies #[trigger] a.probe(h1, h2, r) >= v.probe(h1, h2, r) + n
        && a.probe(h1, h2, r) <= v.probe(h1, h2, r) + n by {}
    assert forall|r: int| 0 <= r < d implies #[trigger] a.probe(g1, g2, r) >= v.probe(g1, g2, r) + 0
        && a.probe(g1, g2, r) <= v.probe(g1, g2, r) + n by {}
    lemma_min_probe_grows(a, v, h1, h2, d, n);
    lemma_min_probe_bounded(a, v, h1, h2, d, n);
    lemma_min_probe_grows(a, v, g1, g2, d, 0);
    lemma_min_probe_bounded(a, v, g1, g2, d, n);
}

/// The estimate of a hash pair is the smallest of the counters it probes:
/// at most the counter probed in every row, and equal to the counter probed
/// in some row.
pub proof fn lemma_estimate_is_min<H>(v: CmsView<H>, h1: u64, h2: u64)
    requires
        v.valid(),
    ensures
        forall|r: int| 0 <= r < v.depth ==> v.estimate(h1, h2) <= #[trigger] v.probe(h1, h2, r),
        exists|r: int| 0 <= r < v.depth && v.estimate(h1, h2) == #[trigger] v.probe(h1, h2, r),
{
    lemma_min_probe_bounds(v, h1, h2, v.depth as int);
}

/// The estimate of a valid state never exceeds the total.
pub proof fn lemma_estimate_le_total<H>(v: CmsView<H>, h1: u64, h2: u64)
    requires
        v.valid(),
    ensures
        v.estimate(h1, h2) <= v.total,
{
    lemma_min_probe_bounds(v, h1, h2, v.depth as int);
    assert(v.min_probe(h1, h2, v.depth as int) <= v.probe(h1, h2, 0));
    lemma_elem_le_sum(v.rows[0], v.col(h1, h2, 0));
}

proof fn lemma_inserted_all_shape<H>(v: CmsView<H>, s: Seq<(u64, u64, nat)>)
    requires
        v.valid(),
    ensures
        inserted_all(v, s).valid(),
        inserted_all(v, s).width == v.width,
        inserted_all(v, s).depth == v.depth,
        inserted_all(v, s).hasher == v.hasher,
        inserted_all(v, s).total == v.total + stream_total(s),
    decreases s.len(),
{
    if s.len() > 0 {
        lemma_inserted_all_shape(v, s.drop_last());
        lemma_inserted_valid(inserted_all(v, s.drop_last()), s.last().0, s.last().1, s.last().2);
    }
}

/// Every counter probed for `(h1, h2)` grows by at least the true count of
/// `(h1, h2)` in the inserted stream.
proof fn lemma_probes_grow<H>(v: CmsView<H>, s: Seq<(u64, u64, nat)>, h1: u64, h2: u64, r: int)
    requires
        v.valid(),
        0 <= r < v.depth,
    ensures
        inserted_all(v, s).probe(h1, h2, r) >= v.probe(h1, h2, r) + true_count(s, h1, h2),
    decreases s.len(),
{
    if s.len() > 0 {
        let prev = inserted_all(v, s.drop_last());
        lemma_probes_grow(v, s.drop_last(), h1, h2, r);
        lemma_inserted_all_shape(v, s.drop_last());
        let (g1, g2, c) = s.last();
        assert(prev.inserted(g1, g2, c).probe(h1, h2, r) >= prev.probe(h1, h2, r) + if g1 == h1
            && g2 == h2 {
            c
        } else {
            0
        });
    }
}

/// The sketch never undercounts: after inserting a stream, the estimate of
/// every hash pair is at least its estimate before plus its true count in
/// the stream; the total grows by the sum of all counts.
pub proof fn lemma_never_undercounts<H>(v: CmsView<H>, s: Seq<(u64, u64, nat)>, h1: u64, h2: u64)
    requires
        v.valid(),
    ensures
        inserted_all(v, s).estimate(h1, h2) >= v.estimate(h1, h2) + true_count(s, h1, h2),
        inserted_all(v, s).total == v.total + stream_total(s),
        inserted_all(v, s).valid(),
{
    lemma_inserted_all_shape(v, s);
    let a = inserted_all(v, s);
    assert forall|r: int| 0 <= r < v.depth implies #[trigger] a.probe(h1, h2, r) >= v.probe(
        h1,
        h2,
        r,
    ) + true_count(s, h1, h2) by {
        lemma_probes_grow(v, s, h1, h2, r);
    }
    lemma_min_probe_grows(a, v, h1, h2, v.depth as int, true_count(s, h1, h2));
}

/// Merging is commutative on the counters and the total.
pub proof fn lemma_merge_commutes<H>(a: CmsView<H>, b: CmsView<H>)
    requires
        a.valid(),
        b.valid(),
        a.width == b.width,
        a.depth == b.depth,
    ensures
        same_counts(a.merged(b), b.merged(a)),
{
    let x = a.merged(b);
    let y = b.merged(a);
    assert forall|r: int| 0 <= r < a.depth implies #[trigger] x.rows[r] =~= y.rows[r] by {}
    assert(x.rows =~= y.rows);
}

/// Inserting before or after a merge gives the same state.
pub proof fn lemma_insert_then_merge<H>(a: CmsView<H>, b: CmsView<H>, h1: u64, h2: u64, count: nat)
    requires
        a.valid(),
        b.valid(),
        a.width == b.width,
        a.depth == b.depth,
    ensures
        a.inserted(h1, h2, count).merged(b) == a.merged(b).inserted(h1, h2, count),
{
    let x = a.inserted(h1, h2, count).merged(b);
    let y = a.merged(b).inserted(h1, h2, count);
    assert forall|r: int| 0 <= r < a.depth implies #[trigger] x.rows[r] =~= y.rows[r] by {}
    assert(x.rows =~= y.rows);
}

/// Inserting a stream before or after a merge gives the same state.
pub proof fn lemma_stream_then_merge<H>(a: CmsView<H>, b: CmsView<H>, s: Seq<(u64, u64, nat)>)
    requires
        a.valid(),
        b.valid(),
        a.width == b.width,
        a.depth == b.depth,
    ensures
        inserted_all(a, s).merged(b) == inserted_all(a.merged(b), s),
    decreases s.len(),
{
    if s.len() > 0 {
        let (g1, g2, c) = s.last();
        lemma_stream_then_merge(a, b, s.drop_last());
        lemma_inserted_all_shape(a, s.drop_last());
        lemma_insert_then_merge(inserted_all(a, s.drop_last()), b, g1, g2, c);
    }
}

/// Inserting `s + t` is inserting `s`, then `t`.
proof fn lemma_inserted_all_append<H>(v: CmsView<H>, s: Seq<(u64, u64, nat)>, t: Seq<(u64, u64, nat)>)
    ensures
        inserted_all(v, s + t) == inserted_all(inserted_all(v, s), t),
    decreases t.len(),
{
    if t.len() == 0 {
        assert(s + t =~= s);
    } else {
        assert((s + t).drop_last() =~= s + t.drop_last());
        lemma_inserted_all_append(v, s, t.drop_last());
    }
}

/// Saving and restoring: a counter array laid out as the rows of a valid
/// state (as [`CountMinSketch::counters`] returns) passes the checks of
/// [`CountMinSketch::from_parts`], which restores the same rows.
pub proof fn lemma_parts_round_trip<H>(v: CmsView<H>, counters: Seq<u64>)
    requires
        v.valid(),
        counters.len() == v.width * v.depth,
        rows_of(counters, v.width as nat, v.depth as nat) == v.rows,
    ensures
        forall|row: int|
            0 <= row < v.depth ==> #[trigger] sum(rows_of(counters, v.width as nat, v.depth as nat)[row])
                == v.total,
{
}

/// Distributed counting: two sketches that start empty with the same shape
/// and hasher, fed the streams `s` and `t`, merge into the sketch that was
/// fed `s` followed by `t`.
pub proof fn lemma_merge_of_streams<H>(v: CmsView<H>, s: Seq<(u64, u64, nat)>, t: Seq<(u64, u64, nat)>)
    requires
        v.valid(),
    ensures
        inserted_all(v.cleared(), s).merged(inserted_all(v.cleared(), t)) == inserted_all(
            v.cleared(),
            s + t,
        ),
{
    let z = v.cleared();
    lemma_cleared_estimates_zero(v, 0, 0);
    let x = inserted_all(z, s);
    let y = inserted_all(z, t);
    lemma_inserted_all_shape(z, s);
    lemma_inserted_all_shape(z, t);
    // x merged y has the counts of y merged x
    lemma_merge_commutes(x, y);
    // y merged x is inserting t into z merged x
    lemma_stream_then_merge(z, x, t);
    // z merged x is x
    let zx = z.merged(x);
    assert forall|r: int| 0 <= r < z.depth implies #[trigger] zx.rows[r] =~= x.rows[r] by {}
    assert(zx.rows =~= x.rows);
    assert(zx == x);
    lemma_inserted_all_append(z, s, t);
    let lhs = x.merged(y);
    let rhs = inserted_all(z, s + t);
    lemma_inserted_all_shape(x, t);
    assert(same_counts(lhs, rhs));
}

} // verus!
