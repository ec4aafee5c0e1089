//! The sample domain shared by all aggregators: amplitude bounds, decay
//! weights, slice accumulators, and multi-channel blocks with their
//! channel selection / mean downmix.

use vstd::prelude::*;
use vstd::arithmetic::div_mod::lemma_fundamental_div_mod_converse;

verus! {

/// One, in the fixed-point scale of decay weights. A decay weight `w`
/// stands for the real factor `w / WEIGHT_ONE` and lies in `[0, 1)`,
/// that is `0 <= w < WEIGHT_ONE`.
pub const WEIGHT_ONE: u64 = 65536;

/// Strict bound on the magnitude of every sample amplitude. It doubles
/// as the idle value of a minimum accumulator (no sample can reach it),
/// mirrored as `-AMP_LIMIT` for a maximum accumulator.
pub const AMP_LIMIT: i64 = 0x1_0000_0000;

/// Largest accepted sample rate, in samples per second.
pub const RATE_LIMIT: i64 = 1048576;

/// Largest accepted duration, in milliseconds.
pub const DURATION_LIMIT: i64 = 1048576;

/// Largest accepted summary size (buffer capacity or bin count).
pub const SIZE_LIMIT: usize = 1048576;

/// Upper bound of a slice timer and of a slice length numerator:
/// `RATE_LIMIT * DURATION_LIMIT`.
pub const TIMER_LIMIT: i64 = 1099511627776;

/// Upper bound of a slice length denominator: `1000 * SIZE_LIMIT`.
pub const DEN_LIMIT: i64 = 1048576000;

/// Largest number of channels a block may carry.
pub const CHANNEL_LIMIT: usize = 65536;

/// Largest number of frames a single block may carry.
pub const BLOCK_LIMIT: usize = 65536;

/// A sample amplitude the aggregators accept.
pub open spec fn sample_in_range(v: i64) -> bool {
    -AMP_LIMIT < v < AMP_LIMIT
}

/// Minimum of the samples accumulated over one slice; the empty slice
/// yields the idle accumulator value `AMP_LIMIT`.
pub open spec fn acc_min(s: Seq<i64>) -> int
    decreases s.len(),
{
    if s.len() == 0 {
        AMP_LIMIT as int
    } else {
        let m = acc_min(s.drop_last());
        if s.last() < m {
            s.last() as int
        } else {
            m
        }
    }
}

/// Maximum of the samples accumulated over one slice; the empty slice
/// yields the idle accumulator value `-AMP_LIMIT`.
pub open spec fn acc_max(s: Seq<i64>) -> int
    decreases s.len(),
{
    if s.len() == 0 {
        -AMP_LIMIT as int
    } else {
        let m = acc_max(s.drop_last());
        if s.last() > m {
            s.last() as int
        } else {
            m
        }
    }
}

/// Every sample of a slice lies in range.
pub open spec fn slice_in_range(s: Seq<i64>) -> bool {
    forall|i: int| 0 <= i < s.len() ==> sample_in_range(#[trigger] s[i])
}

/// The accumulated minimum of an in-range slice lies in `[-AMP_LIMIT + 1, AMP_LIMIT]`.
pub proof fn lemma_acc_min_range(s: Seq<i64>)
    requires
        slice_in_range(s),
    ensures
        -AMP_LIMIT < acc_min(s) <= AMP_LIMIT,
    decreases s.len(),
{
    if s.len() > 0 {
        assert(sample_in_range(s[s.len() - 1]));
        lemma_acc_min_range(s.drop_last());
    }
}

/// The accumulated maximum of an in-range slice lies in `[-AMP_LIMIT, AMP_LIMIT - 1]`.
pub proof fn lemma_acc_max_range(s: Seq<i64>)
    requires
        slice_in_range(s),
    ensures
        -AMP_LIMIT <= acc_max(s) < AMP_LIMIT,
    decreases s.len(),
{
    if s.len() > 0 {
        assert(sample_in_range(s[s.len() - 1]));
        lemma_acc_max_range(s.drop_last());
    }
}

/// A slice of equal samples accumulates to exactly that sample, as both
/// minimum and maximum: a constant input signal sustained for a whole
/// slice commits the pair `(v, v)`.
pub proof fn lemma_acc_constant(s: Seq<i64>, v: i64)
    requires
        s.len() > 0,
        sample_in_range(v),
        forall|i: int| 0 <= i < s.len() ==> s[i] == v,
    ensures
        acc_min(s) == v,
        acc_max(s) == v,
    decreases s.len(),
{
    assert(s.last() == s[s.len() - 1]);
    assert(s.last() == v);
    if s.len() > 1 {
        assert(forall|i: int| 0 <= i < s.drop_last().len() ==> s.drop_last()[i] == s[i]);
        lemma_acc_constant(s.drop_last(), v);
        assert(acc_min(s.drop_last()) == v);
        assert(acc_max(s.drop_last()) == v);
    } else {
        assert(s.drop_last().len() == 0);
        assert(acc_min(s.drop_last()) == AMP_LIMIT as int);
        assert(acc_max(s.drop_last()) == -AMP_LIMIT as int);
    }
}

/// The accumulators hold the true extremes of the slice: the
/// accumulated minimum and maximum bound every sample, and each is
/// attained by one. A committed pair therefore reflects exactly the
/// least and the greatest raw sample seen during its slice.
pub proof fn lemma_acc_extremes(s: Seq<i64>)
    requires
        s.len() > 0,
        slice_in_range(s),
    ensures
        forall|i: int| 0 <= i < s.len() ==> acc_min(s) <= #[trigger] s[i] <= acc_max(s),
        exists|i: int| 0 <= i < s.len() && s[i] == acc_min(s),
        exists|i: int| 0 <= i < s.len() && s[i] == acc_max(s),
    decreases s.len(),
{
    assert(sample_in_range(s[s.len() - 1]));
    if s.len() == 1 {
        assert(s[0] == s.last());
        assert(acc_min(s.drop_last()) == AMP_LIMIT as int);
        assert(acc_max(s.drop_last()) == -AMP_LIMIT as int);
        assert(s[0] == acc_min(s));
        assert(s[0] == acc_max(s));
    } else {
        let prefix = s.drop_last();
        assert(forall|i: int| 0 <= i < prefix.len() ==> prefix[i] == s[i]);
        lemma_acc_extremes(prefix);
        if s.last() < acc_min(prefix) {
            assert(s[s.len() - 1] == acc_min(s));
        } else {
            let i = choose|i: int| 0 <= i < prefix.len() && prefix[i] == acc_min(prefix);
            assert(s[i] == acc_min(s));
        }
        if s.last() > acc_max(prefix) {
            assert(s[s.len() - 1] == acc_max(s));
        } else {
            let i = choose|i: int| 0 <= i < prefix.len() && prefix[i] == acc_max(prefix);
            assert(s[i] == acc_max(s));
        }
    }
}

/// The magnitude of a sample.
pub open spec fn abs_val(v: i64) -> i64 {
    if v < 0 {
        (-(v as int)) as i64
    } else {
        v
    }
}

/// Every sample of the slice is a magnitude: nonnegative and in range.
pub open spec fn abs_slice(s: Seq<i64>) -> bool {
    forall|i: int| 0 <= i < s.len() ==> 0 <= #[trigger] s[i] < AMP_LIMIT
}

/// The accumulated minimum of a slice of magnitudes lies in `[0, AMP_LIMIT]`.
pub proof fn lemma_acc_min_abs_range(s: Seq<i64>)
    requires
        abs_slice(s),
    ensures
        0 <= acc_min(s) <= AMP_LIMIT,
    decreases s.len(),
{
    if s.len() > 0 {
        assert(0 <= s[s.len() - 1] < AMP_LIMIT);
        lemma_acc_min_abs_range(s.drop_last());
    }
}

/// The exponential release blend `prev * w + cur * (1 - w)`, in the
/// fixed-point weight scale, rounded toward negative infinity.
pub open spec fn blend(prev: int, cur: int, w: int) -> int {
    (prev * w + cur * (WEIGHT_ONE - w)) / WEIGHT_ONE as int
}

/// The blend of two values lies between them (inclusive); in
/// particular it never leaves `[0, AMP_LIMIT]`.
pub proof fn lemma_blend_range(prev: int, cur: int, w: int)
    requires
        0 <= prev <= AMP_LIMIT,
        0 <= cur <= AMP_LIMIT,
        0 <= w < WEIGHT_ONE,
    ensures
        0 <= blend(prev, cur, w) <= AMP_LIMIT,
        blend(prev, cur, w) <= if prev >= cur {
            prev
        } else {
            cur
        },
{
    let d = WEIGHT_ONE as int;
    let num = prev * w + cur * (d - w);
    let q = blend(prev, cur, w);
    let top = if prev >= cur {
        prev
    } else {
        cur
    };
    vstd::arithmetic::div_mod::lemma_fundamental_div_mod(num, d);
    let r = num % d;
    assert(0 <= num <= top * d) by (nonlinear_arith)
        requires
            num == prev * w + cur * (d - w),
            0 <= prev <= top,
            0 <= cur <= top,
            0 <= w < d,
    ;
    assert(0 <= q <= top) by (nonlinear_arith)
        requires
            num == d * q + r,
            0 <= r < d,
            0 <= num <= top * d,
            0 < d,
    ;
}

/// The release law of the decaying minimum: when the new slice minimum
/// `cur` is higher than the previous committed value `prev`, the blend
/// falls strictly between the two, so the display releases gradually
/// and never jumps. The weight must not be zero (else the blend lands
/// on `cur` itself), and the gap must be wide enough for the
/// fixed-point step `(cur - prev) * (1 - w)` to round to at least one.
pub proof fn lemma_release_blend(prev: int, cur: int, w: int)
    requires
        0 <= prev < cur <= AMP_LIMIT,
        1 <= w < WEIGHT_ONE,
        (cur - prev) * (WEIGHT_ONE - w) >= WEIGHT_ONE,
    ensures
        prev < blend(prev, cur, w) < cur,
{
    let d = WEIGHT_ONE as int;
    let num = prev * w + cur * (d - w);
    let q = blend(prev, cur, w);
    vstd::arithmetic::div_mod::lemma_fundamental_div_mod(num, d);
    let r = num % d;
    assert(num >= prev * d + d) by (nonlinear_arith)
        requires
            num == prev * w + cur * (d - w),
            (cur - prev) * (d - w) >= d,
            0 <= w < d,
    ;
    assert(num <= cur * d - w) by (nonlinear_arith)
        requires
            num == prev * w + cur * (d - w),
            prev < cur,
            1 <= w < d,
    ;
    assert(prev < q < cur) by (nonlinear_arith)
        requires
            num == d * q + r,
            0 <= r < d,
            prev * d + d <= num <= cur * d - 1,
            0 < d,
    ;
}

/// Folding one more sample into a slice accumulator takes the minimum,
/// or the maximum, of the accumulator and the sample.
pub proof fn lemma_acc_push(s: Seq<i64>, v: i64)
    ensures
        acc_min(s.push(v)) == if v < acc_min(s) {
            v as int
        } else {
            acc_min(s)
        },
        acc_max(s.push(v)) == if v > acc_max(s) {
            v as int
        } else {
            acc_max(s)
        },
{
    assert(s.push(v).drop_last() =~= s);
    assert(s.push(v).last() == v);
}

/// Floor division of a bounded signed amplitude sum by a positive count,
/// rounding toward negative infinity as the mathematical `/` on `int` does.
pub fn floor_div(a: i64, d: u64) -> (q: i64)
    requires
        -0x4000_0000_0000_0000 < a < 0x4000_0000_0000_0000,
        1 <= d <= 0x1_0000_0000,
    ensures
        q == a as int / d as int,
{
    if a >= 0 {
        let qu = (a as u64) / d;
        proof {
            vstd::arithmetic::div_mod::lemma_fundamental_div_mod(a as int, d as int);
            assert(qu as int <= a as int) by (nonlinear_arith)
                requires
                    qu == a as int / d as int,
                    a >= 0,
                    d >= 1,
            ;
        }
        qu as i64
    } else {
        let m = (-a) as u64;
        let qu = m / d;
        let r = m % d;
        proof {
            vstd::arithmetic::div_mod::lemma_fundamental_div_mod(m as int, d as int);
            assert(qu as int <= m as int) by (nonlinear_arith)
                requires
                    qu == m as int / d as int,
                    m >= 0,
                    d >= 1,
            ;
        }
        if r == 0 {
            proof {
                assert((-(qu as int)) * (d as int) == -((d as int) * (qu as int))) by (nonlinear_arith);
                lemma_fundamental_div_mod_converse(a as int, d as int, -(qu as int), 0);
            }
            -(qu as i64)
        } else {
            proof {
                assert((-(qu as int) - 1) * (d as int) + ((d as int) - (r as int)) == -((d as int)
                    * (qu as int) + (r as int))) by (nonlinear_arith);
                lemma_fundamental_div_mod_converse(
                    a as int,
                    d as int,
                    -(qu as int) - 1,
                    d as int - r as int,
                );
            }
            -(qu as i64) - 1
        }
    }
}

/// A multi-channel block: every channel carries the same number of
/// frames, and every sample lies in range.
pub open spec fn block_wf(block: Seq<Seq<i64>>) -> bool {
    &&& forall|c: int|
        0 <= c < block.len() ==> (#[trigger] block[c]).len() == block[0].len()
    &&& forall|c: int, i: int|
        0 <= c < block.len() && 0 <= i < block[c].len() ==> sample_in_range(#[trigger] block[c][i])
}

/// The number of frames a block carries.
pub open spec fn frame_count(block: Seq<Seq<i64>>) -> nat {
    if block.len() == 0 {
        0
    } else {
        block[0].len()
    }
}

/// Sum of frame `i` over the first `c` channels.
pub open spec fn frame_sum(block: Seq<Seq<i64>>, i: int, c: int) -> int
    decreases c,
{
    if c <= 0 {
        0
    } else {
        frame_sum(block, i, c - 1) + block[c - 1][i]
    }
}

/// Mean downmix of frame `i` across all channels, rounded toward
/// negative infinity.
pub open spec fn frame_mean(block: Seq<Seq<i64>>, i: int) -> int {
    frame_sum(block, i, block.len() as int) / block.len() as int
}

/// Whether the channel selection is valid for the block: a selected
/// channel must exist, and a mean downmix needs at least one channel.
pub open spec fn channel_ok(block: Seq<Seq<i64>>, channel: Option<usize>) -> bool {
    match channel {
        Some(c) => c < block.len(),
        None => 1 <= block.len(),
    }
}

/// The sequence of samples an aggregator ingests from a block: the
/// selected channel as it stands, or the mean downmix of each frame.
pub open spec fn selected(block: Seq<Seq<i64>>, channel: Option<usize>) -> Seq<i64> {
    match channel {
        Some(c) => block[c as int],
        None => Seq::new(frame_count(block), |i: int| frame_mean(block, i) as i64),
    }
}

/// A block fit for ingestion, as the aggregators require it.
pub open spec fn block_ok(block: Seq<Seq<i64>>, channel: Option<usize>) -> bool {
    &&& block_wf(block)
    &&& channel_ok(block, channel)
    &&& block.len() <= CHANNEL_LIMIT
    &&& frame_count(block) <= BLOCK_LIMIT
}

/// The sum of frame `i` over `c` in-range channels is bounded by
/// `c * (AMP_LIMIT - 1)` in magnitude.
pub proof fn lemma_frame_sum_range(block: Seq<Seq<i64>>, i: int, c: int)
    requires
        block_wf(block),
        0 <= c <= block.len(),
        0 <= i < frame_count(block),
    ensures
        -c * (AMP_LIMIT - 1) <= frame_sum(block, i, c) <= c * (AMP_LIMIT - 1),
    decreases c,
{
    if c > 0 {
        lemma_frame_sum_range(block, i, c - 1);
        assert(sample_in_range(block[c - 1][i]));
        assert((c - 1) * (AMP_LIMIT - 1) + (AMP_LIMIT - 1) == c * (AMP_LIMIT - 1)) by (nonlinear_arith);
    }
}

/// The mean downmix of in-range samples is itself in range.
pub proof fn lemma_frame_mean_range(block: Seq<Seq<i64>>, i: int)
    requires
        block_wf(block),
        1 <= block.len(),
        0 <= i < frame_count(block),
    ensures
        sample_in_range(frame_mean(block, i) as i64),
        -AMP_LIMIT < frame_mean(block, i) < AMP_LIMIT,
{
    let k = block.len() as int;
    let s = frame_sum(block, i, k);
    let q = s / k;
    lemma_frame_sum_range(block, i, k);
    vstd::arithmetic::div_mod::lemma_fundamental_div_mod(s, k);
    let r = s % k;
    assert(0 <= r < k);
    assert(s == k * q + r);
    assert(-(AMP_LIMIT - 1) <= q < AMP_LIMIT) by (nonlinear_arith)
        requires
            s == k * q + r,
            0 <= r < k,
            1 <= k,
            -k * (AMP_LIMIT - 1) <= s <= k * (AMP_LIMIT - 1),
    ;
}

/// Computes the mean downmix of frame `i`: the arithmetic mean of the
/// frame's samples across all channels, rounded toward negative infinity.
pub fn downmix_frame(block: &Vec<Vec<i64>>, i: usize) -> (v: i64)
    requires
        block_wf(block.deep_view()),
        1 <= block.len() <= CHANNEL_LIMIT,
        i < frame_count(block.deep_view()),
    ensures
        v == frame_mean(block.deep_view(), i as int),
        sample_in_range(v),
{
    let ghost bv = block.deep_view();
    let nch = block.len();
    let mut sum: i64 = 0;
    let mut c: usize = 0;
    while c < nch
        invariant
            block_wf(bv),
            bv == block.deep_view(),
            nch == block.len(),
            1 <= nch <= CHANNEL_LIMIT,
            i < frame_count(bv),
            0 <= c <= nch,
            sum == frame_sum(bv, i as int, c as int),
            -(c as int) * 4294967295 <= sum <= (c as int) * 4294967295,
        decreases nch - c,
    {
        proof {
            assert(bv[c as int] == block@[c as int].deep_view());
            assert(bv[c as int][i as int] == block@[c as int]@[i as int]);
            assert(bv[c as int].len() == frame_count(bv));
            assert(sample_in_range(bv[c as int][i as int]));
        }
        let x = block[c][i];
        assert(x == block@[c as int]@[i as int]);
        assert(-4294967295 <= x <= 4294967295);
        sum = sum + x;
        c = c + 1;
    }
    proof {
        lemma_frame_mean_range(bv, i as int);
    }
    floor_div(sum, nch as u64)
}

} // verus!
