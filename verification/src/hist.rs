//! Bounded latency histogram: percentiles without keeping samples.
//!
//! An average hides the tail, and the tail is what users feel. Keeping every
//! sample to sort later would be unbounded memory, so values land in log-linear
//! buckets instead: an exponential bracket split into [`SUB`] linear
//! sub-buckets. Resolution is relative, which is what latency needs.
//!
//! Cost is fixed: one `u32` per bucket, [`BUCKETS`] of them, allocated once and
//! never grown.

use crate::float::accuracy;
use crate::float::double;
use crate::float::double::Double;
use crate::float::grid;
use crate::float::rounding;
use crate::rows;
use vstd::arithmetic::power2;
use vstd::prelude::*;

verus! {

/// Bits of a value that are kept below its leading one.
pub const SUB_BITS: u32 = 4;

/// Sub-buckets per power of two: at most 6.25% relative error.
pub const SUB: usize = 16;

/// Enough brackets for every `u64`: 64 powers of two times [`SUB`].
pub const BUCKETS: usize = 1024;

/// Least value of bucket `i`. The buckets tile the integers: bucket `i` holds
/// `lower(i) .. lower(i + 1)`.
pub open spec fn lower(i: nat) -> nat {
    grid::number_at(i, SUB_BITS as nat)
}

/// The bucket that `v` belongs to.
pub open spec fn bucket(v: nat) -> nat {
    let e = rounding::doublings(v, 1, SUB_BITS as nat);
    16 * e + v / power2::pow2(e)
}

/// A value in the terms of its bracket: `e` doublings, significand `v / 2^e`.
proof fn lemma_significand(v: nat, e: nat, w: nat, q: nat)
    requires
        e == rounding::doublings(v, 1, 4),
        w == power2::pow2(e),
        q == v / w,
    ensures
        bucket(v) == 16 * e + q,
        w > 0,
        e == 0 ==> w == 1,
        q < 32,
        e > 0 ==> q >= 16 && v >= 16 * w,
        q * w <= v < (q + 1) * w,
        (q + 1) * w == q * w + w,
{
    rounding::lemma_doublings_bounds(v, 1, 4);
    power2::lemma2_to64();
    power2::lemma_pow2_pos(e);
    power2::lemma_pow2_adds(5, e);
    power2::lemma_pow2_adds(4, e);
    vstd::arithmetic::div_mod::lemma_fundamental_div_mod(v as int, w as int);
    assert(q * w <= v < (q + 1) * w && (q + 1) * w == q * w + w) by (nonlinear_arith)
        requires
            v == w * q + v % w,
            0 <= v % w < w,
    ;
    assert(q < 32) by (nonlinear_arith)
        requires
            q * w <= v < 32 * w,
    ;
    if e > 0 {
        assert(q >= 16) by (nonlinear_arith)
            requires
                16 * w <= v < (q + 1) * w,
        ;
    }
}

/// Every value lies within the bounds of its own bucket.
pub proof fn lemma_bucket_bounds(v: nat)
    ensures
        lower(bucket(v)) <= v < lower(bucket(v) + 1),
{
    let e = rounding::doublings(v, 1, 4);
    let q = v / power2::pow2(e);
    lemma_significand(v, e, power2::pow2(e), q);
    lemma_lower_parts(q, e);
    lemma_lower_parts(q + 1, e);
}

/// `lower` at a bucket written as sixteen times a bracket plus a significand.
proof fn lemma_lower_parts(q: nat, e: nat)
    requires
        q <= 32,
        e > 0 ==> q >= 16,
    ensures
        lower(16 * e + q) == q * power2::pow2(e),
{
    power2::lemma2_to64();
    let k = 16 * e + q;
    if q < 16 {
        assert(q * 1 == q) by (nonlinear_arith);
    } else if q < 32 {
        assert(k / 16 == e + 1);
        assert(k % 16 == q - 16);
    } else {
        assert(k / 16 == e + 2);
        assert(k % 16 == 0);
        power2::lemma_pow2_unfold(e + 1);
        assert(16 * (2 * power2::pow2(e)) == 32 * power2::pow2(e)) by (nonlinear_arith);
    }
}

/// Buckets are ordered like the values in them.
pub proof fn lemma_bucket_monotonic(a: nat, b: nat)
    requires
        a <= b,
    ensures
        bucket(a) <= bucket(b),
{
    lemma_bucket_bounds(a);
    lemma_bucket_bounds(b);
    if bucket(b) < bucket(a) {
        if bucket(b) + 1 < bucket(a) {
            grid::lemma_number_at_increases(bucket(b) + 1, bucket(a), 4);
        }
    }
}

/// Which bucket `v` belongs to. Monotonic in `v`, which is what makes the
/// cumulative walk in [`Histogram::quantile`] correct.
pub fn index_of(v: u64) -> (r: usize)
    ensures
        r == bucket(v as nat),
        lower(r as nat) <= v < lower(r as nat + 1),
        r < 976,
{
    proof {
        lemma_bucket_bounds(v as nat);
        power2::lemma2_to64();
    }
    // Below SUB every value is its own bucket: exact, no error at all.
    if v < SUB as u64 {
        proof {
            rounding::lemma_doublings_are(v as nat, 1, 4, 0);
        }
        return v as usize;
    }
    proof {
        vstd::std_specs::bits::axiom_u64_leading_zeros(v);
    }
    let zeros: u64 = v.leading_zeros() as u64;
    proof {
        lemma_leading_bit(v, zeros);
        if zeros > 59 {
            rounding::lemma_pow2_le((64 - zeros) as nat, 4);
        }
    }
    let msb: u64 = 63 - zeros;
    let shift: u64 = msb - SUB_BITS as u64;
    proof {
        vstd::bits::lemma_u64_shr_is_div(v, shift);
        let w = power2::pow2(shift as nat);
        power2::lemma_pow2_pos(shift as nat);
        power2::lemma_pow2_adds(5, shift as nat);
        power2::lemma_pow2_adds(4, shift as nat);
        rounding::lemma_doublings_are(v as nat, 1, 4, shift as nat);
        let q = v as nat / w;
        vstd::arithmetic::div_mod::lemma_fundamental_div_mod(v as int, w as int);
        assert(16 <= q < 32) by (nonlinear_arith)
            requires
                v == w * q + v as nat % w,
                0 <= v as nat % w < w,
                16 * w <= v < 32 * w,
        ;
        let s = v >> shift;
        assert(s & 15 == s - 16) by (bit_vector)
            requires
                16 <= s < 32,
        ;
    }
    let sub: usize = ((v >> shift) & 15) as usize;
    (msb as usize - SUB_BITS as usize + 1) * SUB + sub
}

proof fn lemma_leading_bit(v: u64, zeros: u64)
    requires
        v > 0,
        zeros == vstd::std_specs::bits::u64_leading_zeros(v),
    ensures
        zeros <= 63,
        power2::pow2((63 - zeros) as nat) <= v < power2::pow2((64 - zeros) as nat),
{
    vstd::std_specs::bits::axiom_u64_leading_zeros(v);
    let top = (63 - zeros) as u64;
    power2::lemma_pow2_pos(top as nat);
    assert((v >> top) & 1u64 != 0u64);
    assert(v >> top > 0) by (bit_vector)
        requires
            (v >> top) & 1u64 != 0u64,
    ;
    vstd::bits::lemma_u64_shr_is_div(v, top);
    let w = power2::pow2(top as nat);
    assert(v >= w) by (nonlinear_arith)
        requires
            v as nat / w > 0,
            w > 0,
    ;
    if zeros == 0 {
        power2::lemma2_to64();
    } else {
        let past = (64 - zeros) as u64;
        assert(v >> past == 0);
        vstd::bits::lemma_u64_shr_is_div(v, past);
        let x = power2::pow2(past as nat);
        power2::lemma_pow2_pos(past as nat);
        assert(v < x) by (nonlinear_arith)
            requires
                v as nat / x == 0,
                x > 0,
        ;
    }
}

/// Top of bucket `idx`. No `u64` lands in a bucket from 976 on; their tops are
/// what is left of the pattern when its leading bits are shifted out.
pub open spec fn top_of(idx: usize) -> u64 {
    if idx < 976 {
        (lower(idx as nat + 1) - 1) as u64
    } else {
        let shift = (idx / 16 - 1) as u64;
        (((16 + idx % 16) as u64) << shift) | (((1u64 << shift) - 1) as u64)
    }
}

/// The largest value that lands in `idx`. Reporting the top of the bucket makes
/// a percentile an upper bound: "99% finished within this", never less than the
/// truth.
pub fn value_at(idx: usize) -> (r: u64)
    requires
        idx < 1040,
    ensures
        r == top_of(idx),
{
    proof {
        power2::lemma2_to64();
    }
    if idx < SUB {
        proof {
            lemma_lower_parts(idx as nat + 1, 0);
            assert((idx + 1) * 1 == idx + 1) by (nonlinear_arith);
        }
        return idx as u64;
    }
    let group: usize = idx / SUB;
    let sub: usize = idx % SUB;
    let shift: u64 = (group - 1) as u64;
    let top: u64 = (SUB + sub) as u64;
    assert((1u64 << shift) >= 1) by (bit_vector)
        requires
            shift < 64,
    ;
    proof {
        if idx < 976 {
            let w = power2::pow2(shift as nat);
            rounding::lemma_pow2_le(shift as nat, 59);
            power2::lemma2_to64_rest();
            power2::lemma_pow2_pos(shift as nat);
            assert(top * w < 0x1_0000_0000_0000_0000) by (nonlinear_arith)
                requires
                    top <= 31,
                    w <= 0x800_0000_0000_0000,
            ;
            assert(1 * w == w) by (nonlinear_arith);
            vstd::bits::lemma_u64_shl_is_mul(top, shift);
            vstd::bits::lemma_u64_shl_is_mul(1, shift);
            assert((top << shift) | (((1u64 << shift) - 1) as u64) == (top << shift) + ((1u64
                << shift) - 1)) by (bit_vector)
                requires
                    top < 32,
                    shift <= 59,
            ;
            lemma_lower_parts((top + 1) as nat, shift as nat);
            assert((top + 1) * w == top * w + w) by (nonlinear_arith);
            assert((top + 1) * w <= 0x1_0000_0000_0000_0000) by (nonlinear_arith)
                requires
                    top <= 31,
                    w <= 0x800_0000_0000_0000,
            ;
        }
    }
    // The bucket covers `base ..= base | mask`; its top keeps the percentile an
    // upper bound.
    let base: u64 = top << shift;
    base | ((1u64 << shift) - 1)
}

/// The promised resolution: the top of a bucket exceeds no value in it by more
/// than a sixteenth of that value, and below sixteen it is the value itself.
pub proof fn resolution(v: nat)
    ensures
        v <= lower(bucket(v) + 1) - 1 <= v + v / 16,
        v < 16 ==> lower(bucket(v) + 1) - 1 == v,
{
    let e = rounding::doublings(v, 1, 4);
    let q = v / power2::pow2(e);
    lemma_significand(v, e, power2::pow2(e), q);
    lemma_lower_parts(q + 1, e);
}

/// Samples that land in bucket `i`.
pub open spec fn landed(s: Seq<u64>, i: nat) -> nat
    decreases s.len(),
{
    if s.len() == 0 {
        0
    } else {
        landed(s.drop_last(), i) + if bucket(s.last() as nat) == i {
            1nat
        } else {
            0nat
        }
    }
}

/// Samples up to and including bucket `i`, as the bucket counters have them.
pub open spec fn seen(buckets: Seq<u32>, i: int) -> nat
    decreases i + 1,
{
    if i < 0 || i >= buckets.len() {
        0
    } else {
        seen(buckets, i - 1) + buckets[i] as nat
    }
}

/// 1-based rank of the sample that quantile `q` selects among `count`:
/// `q * count` rounded up, at least one. What is not a number selects the first.
pub open spec fn rank_of(q: Double, count: u64) -> u64 {
    let clamped = if q.below(double::of_quotient(0, 1)) {
        double::of_quotient(0, 1)
    } else if double::of_quotient(1, 1).below(q) {
        double::of_quotient(1, 1)
    } else {
        q
    };
    let up = double::product(clamped, double::of_quotient(count as nat, 1)).rounded_up();
    if up < 1 {
        1
    } else {
        up
    }
}

/// The smaller of the top of bucket `i` and the largest sample.
pub open spec fn capped_top(i: int, max: u64) -> u64 {
    if top_of(i as usize) < max {
        top_of(i as usize)
    } else {
        max
    }
}

/// `r` is the capped top of the first bucket at which the counters reach
/// `rank`, or the largest sample where they never do.
pub open spec fn is_value_of_rank(buckets: Seq<u32>, max: u64, rank: u64, r: u64) -> bool {
    ||| exists|i: int|
        #![trigger seen(buckets, i)]
        0 <= i < buckets.len() && seen(buckets, i - 1) < rank <= seen(buckets, i) && r
            == capped_top(i, max)
    ||| seen(buckets, buckets.len() - 1) < rank && r == max
}

/// Fixed-size distribution. Exact `count`, `min` and `max`; bucketed quantiles.
#[derive(Clone)]
pub struct Histogram {
    pub buckets: Box<[u32; BUCKETS]>,
    pub count: u64,
    pub sum: u64,
    pub min: u64,
    pub max: u64,
}

impl Histogram {
    /// This histogram is what recording `s` leaves behind.
    pub open spec fn records(&self, s: Seq<u64>) -> bool {
        &&& self.count == s.len()
        &&& self.sum == if rows::total(s) <= u64::MAX {
            rows::total(s)
        } else {
            u64::MAX as nat
        }
        &&& forall|i: int|
            0 <= i < BUCKETS ==> #[trigger] self.buckets@[i] == if landed(s, i as nat) <= u32::MAX {
                landed(s, i as nat)
            } else {
                u32::MAX as nat
            }
        &&& forall|i: int| 0 <= i < s.len() ==> self.min <= #[trigger] s[i] <= self.max
        &&& s.len() > 0 ==> s.contains(self.min) && s.contains(self.max)
        &&& s.len() == 0 ==> self.min == u64::MAX && self.max == 0
    }
}

impl Histogram {
    /// The sum over the count; nothing before the first sample.
    pub open spec fn average(&self) -> Option<Double> {
        if self.count > 0 {
            Some(
                double::quotient(
                    double::of_quotient(self.sum as nat, 1),
                    double::of_quotient(self.count as nat, 1),
                ),
            )
        } else {
            None
        }
    }
}

impl Default for Histogram {
    fn default() -> (h: Self)
        ensures
            h.records(Seq::empty()),
    {
        Histogram { buckets: Box::new([0; BUCKETS]), count: 0, sum: 0, min: u64::MAX, max: 0 }
    }
}

impl Histogram {
    pub fn record(&mut self, v: u64)
        requires
            old(self).count < u64::MAX,
        ensures
            final(self).buckets@ == old(self).buckets@.update(
                bucket(v as nat) as int,
                old(self).buckets@[bucket(v as nat) as int].saturating_add(1),
            ),
            final(self).count == old(self).count + 1,
            final(self).sum == old(self).sum.saturating_add(v),
            final(self).min == if v < old(self).min {
                v
            } else {
                old(self).min
            },
            final(self).max == if v > old(self).max {
                v
            } else {
                old(self).max
            },
            forall|s: Seq<u64>| old(self).records(s) ==> #[trigger] final(self).records(s.push(v)),
    {
        // Saturating: a bucket that overflowed would silently corrupt every
        // percentile after it. Freezing only flattens the distribution.
        let i: usize = index_of(v);
        let b: u32 = self.buckets[i];
        let raised: u32 = b.saturating_add(1);
        self.buckets[i] = raised;
        self.count = self.count + 1;
        self.sum = self.sum.saturating_add(v);
        if v < self.min {
            self.min = v;
        }
        if v > self.max {
            self.max = v;
        }
        proof {
            assert forall|s: Seq<u64>| old(self).records(s) implies #[trigger] self.records(
                s.push(v),
            ) by {
                let t = s.push(v);
                assert(t.drop_last() =~= s);
                assert(t.last() == v);
                assert forall|j: int| 0 <= j < BUCKETS implies #[trigger] self.buckets@[j] == if landed(
                    t,
                    j as nat,
                ) <= u32::MAX {
                    landed(t, j as nat)
                } else {
                    u32::MAX as nat
                } by {
                    assert(old(self).buckets@[j] == if landed(s, j as nat) <= u32::MAX {
                        landed(s, j as nat)
                    } else {
                        u32::MAX as nat
                    });
                }
                if s.len() > 0 {
                    let a = choose|a: int| 0 <= a < s.len() && s[a] == old(self).min;
                    let b = choose|b: int| 0 <= b < s.len() && s[b] == old(self).max;
                    assert(t[a] == old(self).min && t[b] == old(self).max);
                }
                assert(t[s.len() as int] == v);
                assert forall|j: int| 0 <= j < t.len() implies self.min <= #[trigger] t[j]
                    <= self.max by {
                    if j < s.len() {
                        assert(t[j] == s[j]);
                    }
                }
            }
        }
    }

    pub fn count(&self) -> (r: u64)
        ensures
            r == self.count,
    {
        self.count
    }

    pub fn sum(&self) -> (r: u64)
        ensures
            r == self.sum,
    {
        self.sum
    }

    /// Exact, not bucketed. `None` before the first sample — a zero here would
    /// read as "instant" rather than "never ran".
    pub fn min(&self) -> (r: Option<u64>)
        ensures
            r == if self.count > 0 {
                Some(self.min)
            } else {
                None
            },
    {
        if self.count > 0 {
            Some(self.min)
        } else {
            None
        }
    }

    /// Exact, not bucketed.
    pub fn max(&self) -> (r: Option<u64>)
        ensures
            r == if self.count > 0 {
                Some(self.max)
            } else {
                None
            },
    {
        if self.count > 0 {
            Some(self.max)
        } else {
            None
        }
    }

    pub fn mean(&self) -> (r: Option<Double>)
        ensures
            r == self.average(),
            r is Some <==> self.count > 0,
            r matches Some(x) ==> accuracy::near(x, self.sum as int, self.count as int, 4),
    {
        proof {
            if self.count > 0 {
                accuracy::lemma_integers_divide_near(self.sum, self.count);
            }
        }
        if self.count > 0 {
            Some(Double::from_u64(self.sum).over(Double::from_u64(self.count)))
        } else {
            None
        }
    }

    /// Value at quantile `q` (`0.0..=1.0`), as an upper bound.
    ///
    /// Clamped to the exact `max`, so a percentile can never report a number
    /// the operation did not actually reach.
    pub fn quantile(&self, q: Double) -> (r: Option<u64>)
        ensures
            self.count == 0 ==> r is None,
            self.count > 0 ==> r is Some && is_value_of_rank(
                self.buckets@,
                self.max,
                rank_of(q, self.count),
                r->0,
            ),
    {
        if self.count == 0 {
            return None;
        }
        let zero: Double = Double::from_u64(0);
        let one: Double = Double::from_u64(1);
        let clamped: Double = if q.less(zero) {
            zero
        } else if one.less(q) {
            one
        } else {
            q
        };
        // Rank is 1-based: q=1.0 must select the last sample, not one past it.
        let up: u64 = clamped.times(Double::from_u64(self.count)).ceil_to_u64();
        let rank: u64 = if up < 1 {
            1
        } else {
            up
        };
        let mut reached: u64 = 0;
        let mut i: usize = 0;
        while i < BUCKETS
            invariant
                i <= BUCKETS,
                reached == seen(self.buckets@, i - 1),
                reached < rank,
                reached <= i * 0xffff_ffff,
                rank == rank_of(q, self.count),
                self.count > 0,
            decreases BUCKETS - i,
        {
            reached = reached + self.buckets[i] as u64;
            if reached >= rank {
                let top: u64 = value_at(i);
                assert(seen(self.buckets@, i as int) == reached);
                return Some(
                    if top < self.max {
                        top
                    } else {
                        self.max
                    },
                );
            }
            i = i + 1;
        }
        Some(self.max)
    }
}

/// Samples that are at most `x`.
pub open spec fn at_most(s: Seq<u64>, x: int) -> nat
    decreases s.len(),
{
    if s.len() == 0 {
        0
    } else {
        at_most(s.drop_last(), x) + if s.last() <= x {
            1nat
        } else {
            0nat
        }
    }
}

/// Samples that land in bucket `i` or below.
spec fn landed_up_to(s: Seq<u64>, i: int) -> nat
    decreases s.len(),
{
    if s.len() == 0 {
        0
    } else {
        landed_up_to(s.drop_last(), i) + if bucket(s.last() as nat) <= i {
            1nat
        } else {
            0nat
        }
    }
}

proof fn lemma_landed_up_to_steps(s: Seq<u64>, i: int)
    requires
        i >= 0,
    ensures
        landed_up_to(s, i) == landed_up_to(s, i - 1) + landed(s, i as nat),
        landed_up_to(s, -1) == 0,
    decreases s.len(),
{
    if s.len() > 0 {
        lemma_landed_up_to_steps(s.drop_last(), i);
    }
}

/// The counters count the samples, as long as none of them is saturated.
proof fn lemma_seen_counts(h: Histogram, s: Seq<u64>, i: int)
    requires
        h.records(s),
        forall|j: nat| #[trigger] landed(s, j) <= u32::MAX,
        -1 <= i < BUCKETS,
    ensures
        seen(h.buckets@, i) == landed_up_to(s, i),
    decreases i + 1,
{
    if i < 0 {
        lemma_landed_up_to_steps(s, 0);
    } else {
        lemma_seen_counts(h, s, i - 1);
        lemma_landed_up_to_steps(s, i);
        assert(landed(s, i as nat) <= u32::MAX);
        assert(h.buckets@[i] == landed(s, i as nat));
    }
}

/// Samples at most `x` lie in buckets up to that of `x`, and samples in buckets
/// up to `i` are at most `x` when `x` lies in a later one.
proof fn lemma_order_of_counts(s: Seq<u64>, x: int, i: int)
    requires
        x >= -1,
    ensures
        x >= 0 && bucket(x as nat) <= i ==> at_most(s, x) <= landed_up_to(s, i),
        x >= 0 && bucket(x as nat) > i ==> landed_up_to(s, i) <= at_most(s, x - 1),
    decreases s.len(),
{
    if s.len() > 0 {
        lemma_order_of_counts(s.drop_last(), x, i);
        let v = s.last() as nat;
        if x >= 0 {
            if v <= x {
                lemma_bucket_monotonic(v, x as nat);
            } else {
                lemma_bucket_monotonic(x as nat, v);
            }
        }
    }
}

proof fn lemma_all_land(s: Seq<u64>)
    ensures
        landed_up_to(s, BUCKETS - 1) == s.len(),
    decreases s.len(),
{
    if s.len() > 0 {
        lemma_all_land(s.drop_last());
        lemma_last_bucket(s.last());
    }
}

proof fn lemma_last_bucket(v: u64)
    ensures
        bucket(v as nat) < 976,
{
    lemma_bucket_bounds(v as nat);
    power2::lemma2_to64();
    lemma_lower_parts(16, 60);
    power2::lemma2_to64_rest();
    if bucket(v as nat) > 976 {
        grid::lemma_number_at_increases(976, bucket(v as nat), 4);
    }
}

/// A percentile is an upper bound within the promised resolution: it is not
/// below the sample of its rank, exceeds it by at most a sixteenth, and is never
/// above the largest sample.
///
/// `v` is the sample of rank `rank`: fewer than `rank` samples are smaller, and
/// at least `rank` are not larger. No bucket counter has hit its ceiling.
pub proof fn percentile_is_a_tight_upper_bound(
    h: Histogram,
    s: Seq<u64>,
    rank: u64,
    v: u64,
    r: u64,
)
    requires
        h.records(s),
        forall|j: nat| #[trigger] landed(s, j) <= u32::MAX,
        1 <= rank <= s.len(),
        s.contains(v),
        at_most(s, v - 1) < rank <= at_most(s, v as int),
        is_value_of_rank(h.buckets@, h.max, rank, r),
    ensures
        v <= r <= v + v / 16,
        r <= h.max,
{
    lemma_seen_counts(h, s, BUCKETS - 1);
    lemma_all_land(s);
    let i = choose|i: int|
        #![trigger seen(h.buckets@, i)]
        0 <= i < h.buckets@.len() && seen(h.buckets@, i - 1) < rank <= seen(h.buckets@, i) && r
            == capped_top(i, h.max);
    lemma_seen_counts(h, s, i);
    lemma_seen_counts(h, s, i - 1);
    lemma_order_of_counts(s, v as int, i - 1);
    lemma_order_of_counts(s, v as int, i);
    assert(bucket(v as nat) == i);
    lemma_last_bucket(v);
    resolution(v as nat);
    lemma_top_fits(v);
    let a = choose|a: int| 0 <= a < s.len() && s[a] == v;
    assert(s[a] <= h.max);
}

/// Samples in buckets up to `i` are at most the top of bucket `i` and at most
/// the largest sample.
proof fn lemma_landed_below(s: Seq<u64>, i: int, r: int)
    requires
        0 <= i < 976,
        forall|j: int|
            0 <= j < s.len() && bucket((#[trigger] s[j]) as nat) <= i ==> s[j] <= r,
    ensures
        landed_up_to(s, i) <= at_most(s, r),
    decreases s.len(),
{
    if s.len() > 0 {
        let t = s.drop_last();
        assert forall|j: int|
            0 <= j < t.len() && bucket((#[trigger] t[j]) as nat) <= i implies t[j] <= r by {
            assert(t[j] == s[j]);
        }
        lemma_landed_below(t, i, r);
        assert(s[s.len() - 1] == s.last());
    }
}

/// "99% finished within this", never less than the truth: at least as many
/// samples as the rank asks for are not above the percentile.
pub proof fn percentile_covers_its_rank(h: Histogram, s: Seq<u64>, rank: u64, r: u64)
    requires
        h.records(s),
        forall|j: nat| #[trigger] landed(s, j) <= u32::MAX,
        1 <= rank <= s.len(),
        is_value_of_rank(h.buckets@, h.max, rank, r),
    ensures
        at_most(s, r as int) >= rank,
        r <= h.max,
{
    lemma_seen_counts(h, s, BUCKETS - 1);
    lemma_all_land(s);
    let i = choose|i: int|
        #![trigger seen(h.buckets@, i)]
        0 <= i < h.buckets@.len() && seen(h.buckets@, i - 1) < rank <= seen(h.buckets@, i) && r
            == capped_top(i, h.max);
    lemma_seen_counts(h, s, i);
    lemma_counted_bucket(h, s, i);
    power2::lemma2_to64();
    power2::lemma2_to64_rest();
    lemma_lower_parts(16, 60);
    if i + 1 < 976 {
        grid::lemma_number_at_increases((i + 1) as nat, 976, 4);
    }
    grid::lemma_number_at_increases(0, (i + 1) as nat, 4);
    assert forall|j: int|
        0 <= j < s.len() && bucket((#[trigger] s[j]) as nat) <= i implies s[j] <= r by {
        let v = s[j] as nat;
        lemma_bucket_bounds(v);
        if bucket(v) < i {
            grid::lemma_number_at_increases(bucket(v) + 1, (i + 1) as nat, 4);
        }
    }
    lemma_landed_below(s, i, r as int);
}

proof fn lemma_top_fits(v: u64)
    ensures
        lower(bucket(v as nat) + 1) <= 0x1_0000_0000_0000_0000,
{
    lemma_last_bucket(v);
    power2::lemma2_to64();
    power2::lemma2_to64_rest();
    lemma_lower_parts(16, 60);
    if bucket(v as nat) + 1 < 976 {
        grid::lemma_number_at_increases(bucket(v as nat) + 1, 976, 4);
    }
}

/// Percentiles are ordered like their ranks.
pub proof fn percentiles_are_ordered(h: Histogram, s: Seq<u64>, k1: u64, k2: u64, r1: u64, r2: u64)
    requires
        h.records(s),
        1 <= k1 <= k2,
        is_value_of_rank(h.buckets@, h.max, k1, r1),
        is_value_of_rank(h.buckets@, h.max, k2, r2),
    ensures
        r1 <= r2 <= h.max,
{
    let b = h.buckets@;
    if r2 == h.max {
    } else {
        let i2 = choose|i: int|
            #![trigger seen(b, i)]
            0 <= i < b.len() && seen(b, i - 1) < k2 <= seen(b, i) && r2 == capped_top(i, h.max);
        lemma_seen_monotonic(b, i2, b.len() - 1);
        let i1 = choose|i: int|
            #![trigger seen(b, i)]
            0 <= i < b.len() && seen(b, i - 1) < k1 <= seen(b, i) && r1 == capped_top(i, h.max);
        if i1 > i2 {
            lemma_seen_monotonic(b, i2, i1 - 1);
        }
        lemma_counted_bucket(h, s, i1);
        lemma_counted_bucket(h, s, i2);
        power2::lemma2_to64();
        power2::lemma2_to64_rest();
        lemma_lower_parts(16, 60);
        if i2 < 975 {
            grid::lemma_number_at_increases((i2 + 1) as nat, 976, 4);
        }
        if i1 < i2 {
            grid::lemma_number_at_increases((i1 + 1) as nat, (i2 + 1) as nat, 4);
        }
        grid::lemma_number_at_increases(0, (i1 + 1) as nat, 4);
    }
}

proof fn lemma_seen_monotonic(b: Seq<u32>, i: int, j: int)
    requires
        -1 <= i <= j < b.len(),
    ensures
        seen(b, i) <= seen(b, j),
    decreases j - i,
{
    if i < j {
        lemma_seen_monotonic(b, i, j - 1);
    }
}

/// A bucket that counts something is one that values can land in.
proof fn lemma_counted_bucket(h: Histogram, s: Seq<u64>, i: int)
    requires
        h.records(s),
        0 <= i < BUCKETS,
        seen(h.buckets@, i - 1) < seen(h.buckets@, i),
    ensures
        i < 976,
{
    assert(h.buckets@[i] > 0);
    assert(landed(s, i as nat) > 0);
    let j = lemma_landed_somewhere(s, i as nat);
    lemma_last_bucket(s[j]);
}

/// Where samples landed, one of them is.
proof fn lemma_landed_somewhere(s: Seq<u64>, i: nat) -> (j: int)
    requires
        landed(s, i) > 0,
    ensures
        0 <= j < s.len(),
        bucket(s[j] as nat) == i,
    decreases s.len(),
{
    if bucket(s.last() as nat) == i {
        s.len() - 1
    } else {
        lemma_landed_somewhere(s.drop_last(), i)
    }
}

/// A percentile is never below the smallest sample.
pub proof fn percentile_is_not_below_the_minimum(h: Histogram, s: Seq<u64>, rank: u64, r: u64)
    requires
        h.records(s),
        s.len() > 0,
        1 <= rank,
        is_value_of_rank(h.buckets@, h.max, rank, r),
    ensures
        h.min <= r <= h.max,
{
    let b = h.buckets@;
    assert(h.min <= s[0] <= h.max);
    if r != h.max {
        let i = choose|i: int|
            #![trigger seen(b, i)]
            0 <= i < b.len() && seen(b, i - 1) < rank <= seen(b, i) && r == capped_top(i, h.max);
        assert(b[i] > 0);
        assert(landed(s, i as nat) > 0);
        let j = lemma_landed_somewhere(s, i as nat);
        lemma_last_bucket(s[j]);
        lemma_bucket_bounds(s[j] as nat);
        lemma_top_fits(s[j]);
    }
}

proof fn lemma_landed_remove(s: Seq<u64>, k: int, i: nat)
    requires
        0 <= k < s.len(),
    ensures
        landed(s, i) == landed(s.remove(k), i) + if bucket(s[k] as nat) == i {
            1nat
        } else {
            0nat
        },
    decreases s.len(),
{
    if k < s.len() - 1 {
        lemma_landed_remove(s.drop_last(), k, i);
        assert(s.remove(k).drop_last() =~= s.drop_last().remove(k));
        assert(s.remove(k).last() == s.last());
    } else {
        assert(s.remove(k) =~= s.drop_last());
    }
}

proof fn lemma_same_counts(s: Seq<u64>, t: Seq<u64>, i: nat)
    requires
        s.to_multiset() == t.to_multiset(),
    ensures
        s.len() == t.len(),
        landed(s, i) == landed(t, i),
        rows::total(s) == rows::total(t),
    decreases s.len(),
{
    s.to_multiset_ensures();
    t.to_multiset_ensures();
    if s.len() > 0 {
        let x = s.last();
        assert(s[s.len() - 1] == x);
        assert(s.contains(x) && s.to_multiset().count(x) > 0);
        assert(t.to_multiset().count(x) > 0 && t.contains(x));
        let k = choose|k: int| 0 <= k < t.len() && t[k] == x;
        assert(s.remove(s.len() - 1) =~= s.drop_last());
        assert(t.remove(k).to_multiset() =~= t.to_multiset().remove(x));
        lemma_same_counts(s.drop_last(), t.remove(k), i);
        lemma_landed_remove(t, k, i);
        rows::lemma_total_remove(t, k);
    }
}

/// A histogram does not depend on the order in which its samples came: the same
/// samples give the same counters, so the same minimum, maximum, mean and
/// percentiles.
pub proof fn order_does_not_matter(a: Histogram, b: Histogram, s: Seq<u64>, t: Seq<u64>)
    requires
        a.records(s),
        b.records(t),
        s.to_multiset() == t.to_multiset(),
    ensures
        a.buckets@ == b.buckets@,
        a.count == b.count,
        a.sum == b.sum,
        a.min == b.min,
        a.max == b.max,
{
    lemma_same_counts(s, t, 0);
    assert forall|i: int| 0 <= i < BUCKETS implies #[trigger] a.buckets@[i] == b.buckets@[i] by {
        lemma_same_counts(s, t, i as nat);
    }
    assert(a.buckets@ =~= b.buckets@);
    s.to_multiset_ensures();
    t.to_multiset_ensures();
    if s.len() > 0 {
        assert(s.to_multiset().count(a.min) > 0 && s.to_multiset().count(a.max) > 0);
        assert(t.to_multiset().count(b.min) > 0 && t.to_multiset().count(b.max) > 0);
        assert(t.contains(a.min) && t.contains(a.max));
        assert(s.contains(b.min) && s.contains(b.max));
    }
}

/// The rank of a quantile grows with the quantile.
pub proof fn rank_grows_with_quantile(q1: Double, q2: Double, count: u64)
    requires
        !q1.is_nan(),
        !q2.is_nan(),
        q1.rank() <= q2.rank(),
    ensures
        1 <= rank_of(q1, count) <= rank_of(q2, count),
{
    let c = double::of_quotient(count as nat, 1);
    let one = double::of_quotient(1, 1);
    let zero = double::of_quotient(0, 1);
    double::lemma_small_integer(0);
    double::lemma_small_integer(1);
    double::lemma_integer_is_finite(count);
    let clamp1 = if q1.below(zero) {
        zero
    } else if one.below(q1) {
        one
    } else {
        q1
    };
    let clamp2 = if q2.below(zero) {
        zero
    } else if one.below(q2) {
        one
    } else {
        q2
    };
    double::lemma_product_monotonic(clamp1, clamp2, c);
}

/// The rank of a quantile selects one of the samples, as long as the count is
/// small enough to be a number itself.
pub proof fn rank_selects_a_sample(q: Double, count: u64)
    requires
        0 < count < 0x20_0000_0000_0000,
    ensures
        1 <= rank_of(q, count) <= count,
{
    let one = double::of_quotient(1, 1);
    let c = double::of_quotient(count as nat, 1);
    double::lemma_small_integer(1);
    double::lemma_small_integer(0);
    double::lemma_small_integer(count as nat);
    double::lemma_product_with_one(count as nat);
    if q.is_nan() {
    } else if q.rank() <= one.rank() {
        rank_grows_with_quantile(q, one, count);
    }
    double::lemma_rounded_up_integer(count as nat);
}

/// The rank of a quantile between nought and one is that part of the count,
/// rounded up: up to one part in `2^53`, it is not below `q * count`, and one less
/// is.
pub proof fn the_rank_is_that_part_of_the_count(q: Double, count: u64)
    requires
        q.is_finite(),
        0 <= q.units() <= accuracy::one(),
        0 < count < 0x20_0000_0000_0000,
    ensures
        ({
            let m: int = 0x20_0000_0000_0000;
            let u = accuracy::one();
            let k = rank_of(q, count);
            &&& q.units() * count * (m - 1) <= k * u * m
            &&& k == 1 || (k - 1) * u * m < q.units() * count * (m + 1)
            &&& 1 <= k <= count
        }),
{
    let m: int = 0x20_0000_0000_0000;
    let u = accuracy::one() as int;
    let c = double::of_quotient(count as nat, 1);
    let x = q.units();
    let xc = x * count;
    accuracy::lemma_scale();
    double::lemma_small_integer(0);
    double::lemma_small_integer(1);
    double::lemma_small_integer(count as nat);
    let one = double::of_quotient(1, 1);
    assert(1 * accuracy::one() == accuracy::one()) by (nonlinear_arith);
    assert(!q.below(double::of_quotient(0, 1))) by {
        if q.rank() < 0 {
            double::lemma_on_grid(q.position());
        }
    }
    assert(!one.below(q)) by {
        if one.position() < q.position() && !q.negative() {
            grid::lemma_number_at_increases(one.position(), q.position(), 52);
        }
    }
    rank_selects_a_sample(q, count);
    let p = double::product(q, c);
    let k = rank_of(q, count);
    let cu = (count as nat) * accuracy::one();
    assert(x * cu == xc * u) by (nonlinear_arith)
        requires
            xc == x * count,
            cu == count * u,
    ;
    if xc <= u {
        // One call at most: the first.
        assert(p.rounded_up() <= 1) by {
            if q.negative() {
                double::lemma_on_grid(q.position());
                assert(p.rounded_up() == 0);
            } else {
                let n = (x * cu) as nat;
                assert(n * 1 <= u * u) by (nonlinear_arith)
                    requires
                        n == xc * u,
                        xc <= u,
                        u > 0,
                ;
                rounding::lemma_nearest_monotonic(
                    n,
                    u as nat,
                    u as nat,
                    1,
                    52,
                    double::INFINITY as nat,
                );
                let (j, o) = (double::nearest(n, u as nat), one.position());
                if j < o {
                    grid::lemma_number_at_increases(j, o, 52);
                }
                assert(p.units() <= u);
                lemma_at_most_one(p.units(), u);
            }
        }
        assert(k == 1);
        assert(xc * (m - 1) <= 1 * u * m) by (nonlinear_arith)
            requires
                xc <= u,
                m > 1,
                u > 0,
        ;
    } else {
        let g = power2::pow2(200);
        let big = power2::pow2(2000);
        assert(x > 0) by (nonlinear_arith)
            requires
                xc == x * count,
                xc > 0,
                x >= 0,
        ;
        assert(!q.negative()) by {
            double::lemma_on_grid(q.position());
        }
        assert(u * power2::pow2(52) <= x * cu <= u * big) by (nonlinear_arith)
            requires
                x * cu == xc * u,
                xc == x * count,
                u < xc,
                x <= u,
                count < 0x20_0000_0000_0000,
                u >= g,
                g >= 0x1_0000_0000_0000_0000 * 0x1_0000_0000_0000_0000 * 0x1_0000_0000_0000_0000,
                power2::pow2(52) == 0x10_0000_0000_0000,
                big >= u * g,
        ;
        accuracy::lemma_product_near(q, c);
        let z = p.units();
        accuracy::lemma_two_sided(z * u, x * cu, m, 1);
        assert(xc * (m - 1) <= z * m <= xc * (m + 1)) by (nonlinear_arith)
            requires
                xc * u * (m - 1) <= z * u * m <= xc * u * (m + 1),
                u > 0,
        ;
        let up = (z + u - 1) / u;
        vstd::arithmetic::div_mod::lemma_fundamental_div_mod(z + u - 1, u);
        let rest = (z + u - 1) % u;
        assert(up * u >= z && (up - 1) * u < z) by (nonlinear_arith)
            requires
                z + u - 1 == u * up + rest,
                0 <= rest < u,
        ;
        assert(xc <= u * count) by (nonlinear_arith)
            requires
                xc == x * count,
                x <= u,
        ;
        assert(up <= 0x7fff_ffff_ffff_ffff && up >= 1) by (nonlinear_arith)
            requires
                (up - 1) * u < z,
                up * u >= z,
                z * m <= xc * (m + 1),
                z * m >= xc * (m - 1),
                u < xc <= u * count,
                count < 0x20_0000_0000_0000,
                m == 0x20_0000_0000_0000,
                u > 0,
        ;
        assert(k == up);
        assert(xc * (m - 1) <= k * u * m) by (nonlinear_arith)
            requires
                xc * (m - 1) <= z * m,
                k * u >= z,
                m > 0,
        ;
        assert((k - 1) * u * m < xc * (m + 1)) by (nonlinear_arith)
            requires
                z * m <= xc * (m + 1),
                (k - 1) * u < z,
                m > 0,
        ;
    }
}

proof fn lemma_at_most_one(z: int, u: int)
    requires
        0 <= z <= u,
        u > 0,
    ensures
        (z + u - 1) / u <= 1,
{
    vstd::arithmetic::div_mod::lemma_fundamental_div_mod(z + u - 1, u);
    let up = (z + u - 1) / u;
    let rest = (z + u - 1) % u;
    assert(up <= 1) by (nonlinear_arith)
        requires
            z + u - 1 == u * up + rest,
            0 <= rest,
            z <= u,
            u > 0,
    ;
}

proof fn lemma_at_most_ends(s: Seq<u64>, x: int)
    ensures
        x < 0 ==> at_most(s, x) == 0,
        (forall|i: int| 0 <= i < s.len() ==> #[trigger] s[i] <= x) ==> at_most(s, x) == s.len(),
        at_most(s, x) <= s.len(),
        at_most(s, x) == s.len() ==> forall|i: int| 0 <= i < s.len() ==> #[trigger] s[i] <= x,
        at_most(s, x - 1) < at_most(s, x) ==> exists|i: int|
            0 <= i < s.len() && #[trigger] s[i] == x,
    decreases s.len(),
{
    if s.len() > 0 {
        let t = s.drop_last();
        lemma_at_most_ends(t, x);
        lemma_at_most_ends(t, x - 1);
        assert(s[s.len() - 1] == s.last());
        if forall|i: int| 0 <= i < s.len() ==> #[trigger] s[i] <= x {
            assert forall|i: int| 0 <= i < t.len() implies #[trigger] t[i] <= x by {
                assert(s[i] <= x);
            }
        }
        if at_most(s, x) == s.len() {
            assert forall|i: int| 0 <= i < s.len() implies #[trigger] s[i] <= x by {
                if i < t.len() {
                    assert(t[i] <= x);
                }
            }
        }
        if at_most(s, x - 1) < at_most(s, x) {
            if s.last() != x {
                let i = choose|i: int| 0 <= i < t.len() && #[trigger] t[i] == x;
                assert(s[i] == x);
            }
        }
    }
}

/// The sample of a rank: the least value that enough samples do not exceed.
proof fn lemma_sample_of_rank(s: Seq<u64>, rank: int, x: int) -> (v: u64)
    requires
        rank >= 1,
        at_most(s, x) >= rank,
        x <= u64::MAX,
    ensures
        s.contains(v),
        at_most(s, v - 1) < rank <= at_most(s, v as int),
    decreases x,
{
    lemma_at_most_ends(s, x);
    if at_most(s, x - 1) >= rank {
        lemma_at_most_ends(s, x - 1);
        lemma_sample_of_rank(s, rank, x - 1)
    } else {
        let i = choose|i: int| 0 <= i < s.len() && #[trigger] s[i] == x;
        assert(s.contains(s[i]));
        x as u64
    }
}

/// "99% finished within this": at least that part of all samples is not above
/// the percentile, and the percentile is at most a sixteenth above a sample that
/// less than that part of them is below, up to one part in `2^53`, whatever the
/// number of samples.
pub proof fn a_percentile_covers_its_part(h: Histogram, s: Seq<u64>, q: Double, r: u64) -> (v: u64)
    requires
        h.records(s),
        0 < s.len() < 0x20_0000_0000_0000,
        forall|j: nat| #[trigger] landed(s, j) <= u32::MAX,
        q.is_finite(),
        0 <= q.units() <= accuracy::one(),
        is_value_of_rank(h.buckets@, h.max, rank_of(q, h.count), r),
    ensures
        ({
            let m: int = 0x20_0000_0000_0000;
            let u = accuracy::one();
            &&& q.units() * s.len() * (m - 1) <= at_most(s, r as int) * u * m
            &&& s.contains(v)
            &&& v <= r <= v + v / 16
            &&& q.units() * s.len() * (m - 1) <= at_most(s, v as int) * u * m
            &&& at_most(s, v - 1) == 0 || at_most(s, v - 1) * u * m < q.units() * s.len() * (m + 1)
        }),
{
    let m: int = 0x20_0000_0000_0000;
    let u = accuracy::one() as int;
    let k = rank_of(q, h.count);
    accuracy::lemma_scale();
    the_rank_is_that_part_of_the_count(q, h.count);
    percentile_covers_its_rank(h, s, k, r);
    lemma_at_most_ends(s, h.max as int);
    let v = lemma_sample_of_rank(s, k as int, h.max as int);
    percentile_is_a_tight_upper_bound(h, s, k, v, r);
    let (a, b, c) = (at_most(s, r as int), at_most(s, v as int), at_most(s, v - 1));
    assert(k * u * m <= a * u * m && k * u * m <= b * u * m && c * u * m <= (k - 1) * u * m)
        by (nonlinear_arith)
        requires
            k <= a,
            k <= b,
            c <= k - 1,
            u > 0,
            m > 0,
    ;
    v
}

/// Quantiles outside of nought to one, and what is no number at all: below
/// nought (and for no number) the percentile is that of the smallest sample,
/// above one it is the largest.
pub proof fn quantiles_are_clamped(h: Histogram, s: Seq<u64>, q: Double, r: u64)
    requires
        h.records(s),
        0 < s.len() < 0x20_0000_0000_0000,
        forall|j: nat| #[trigger] landed(s, j) <= u32::MAX,
        is_value_of_rank(h.buckets@, h.max, rank_of(q, h.count), r),
    ensures
        q.is_nan() || q.rank() < 0 ==> h.min <= r <= h.min + h.min / 16,
        !q.is_nan() && q.rank() > double::of_quotient(1, 1).rank() ==> r == h.max,
{
    double::lemma_small_integer(0);
    double::lemma_small_integer(1);
    double::lemma_small_integer(s.len());
    let c = double::of_quotient(h.count as nat, 1);
    let k = rank_of(q, h.count);
    if q.is_nan() || q.rank() < 0 {
        if q.is_nan() {
            assert(double::product(q, c).rounded_up() == 0);
        } else {
            double::lemma_naught(double::of_quotient(0, 1), c);
            let p = double::product(double::of_quotient(0, 1), c);
            assert(p.is_naught());
            double::lemma_on_grid(0);
            accuracy::lemma_scale();
            lemma_nought_rounds_up(p);
        }
        assert(k == 1);
        percentile_is_not_below_the_minimum(h, s, k, r);
        lemma_at_most_ends(s, h.min - 1);
        lemma_at_most_ends(s, h.min as int);
        let i = choose|i: int| 0 <= i < s.len() && s[i] == h.min;
        lemma_none_below(s, h.min as int);
        lemma_one_at_most(s, h.min as int, i);
        percentile_is_a_tight_upper_bound(h, s, k, h.min, r);
    } else if q.rank() > double::of_quotient(1, 1).rank() {
        double::lemma_product_with_one(s.len());
        double::lemma_rounded_up_integer(s.len());
        assert(k == h.count);
        percentile_covers_its_rank(h, s, k, r);
        lemma_at_most_ends(s, r as int);
        let i = choose|i: int| 0 <= i < s.len() && s[i] == h.max;
        assert(s[i] <= r);
    }
}

proof fn lemma_nought_rounds_up(p: Double)
    requires
        p.is_naught(),
    ensures
        p.rounded_up() == 0,
{
    double::lemma_on_grid(0);
    accuracy::lemma_scale();
    let u = accuracy::one() as int;
    if !p.is_nan() && !p.negative() {
        assert((0 + u - 1) / u == 0) by {
            vstd::arithmetic::div_mod::lemma_fundamental_div_mod_converse(u - 1, u, 0, u - 1);
        }
    }
}

proof fn lemma_none_below(s: Seq<u64>, x: int)
    requires
        forall|i: int| 0 <= i < s.len() ==> #[trigger] s[i] >= x,
    ensures
        at_most(s, x - 1) == 0,
    decreases s.len(),
{
    if s.len() > 0 {
        let t = s.drop_last();
        assert forall|i: int| 0 <= i < t.len() implies #[trigger] t[i] >= x by {
            assert(s[i] >= x);
        }
        lemma_none_below(t, x);
        assert(s[s.len() - 1] >= x);
    }
}

proof fn lemma_one_at_most(s: Seq<u64>, x: int, i: int)
    requires
        0 <= i < s.len(),
        s[i] <= x,
    ensures
        at_most(s, x) >= 1,
    decreases s.len(),
{
    if i < s.len() - 1 {
        lemma_one_at_most(s.drop_last(), x, i);
    }
}

/// The mean is the sum of the samples over their number, up to four parts in
/// `2^53`, as long as the sum fits its counter.
pub proof fn the_mean_is_the_sum_over_the_count(h: Histogram, s: Seq<u64>)
    requires
        h.records(s),
        s.len() > 0,
        rows::total(s) <= u64::MAX,
    ensures
        h.average() matches Some(x) && accuracy::near(x, rows::total(s) as int, s.len() as int, 4),
{
    accuracy::lemma_integers_divide_near(h.sum, h.count);
}

} // verus!
