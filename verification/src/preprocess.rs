//! Sample preprocessing: linear-interpolation resampling to a canonical
//! rate, peak normalization, and silence trimming.
//!
//! All functions work on canonical fixed-point samples (millionths of full
//! scale, see [`crate::sample`]). The normalization target of `950_000`
//! corresponds to a peak amplitude of 0.95; an amplitude below one unit
//! (a millionth of full scale) counts as silence.

use vstd::prelude::*;
use crate::sample::{sample_in_range, samples_in_range};
use crate::math::{isqrt, isqrt_spec, lemma_isqrt_lt};
use vstd::arithmetic::div_mod::{
    lemma_div_is_ordered, lemma_fundamental_div_mod, lemma_div_pos_is_pos,
};
use vstd::slice::{slice_subrange, slice_to_vec};

verus! {

/// Peak amplitude that normalization scales to: 0.95 of full scale.
pub const PEAK_TARGET: i32 = 950_000;

/// Padding kept around detected speech when trimming: 100 ms at the
/// canonical 16 kHz rate.
pub const TRIM_PADDING: usize = 1600;

/// Magnitude of an integer.
pub open spec fn abs_val(v: int) -> int {
    if v >= 0 {
        v
    } else {
        -v
    }
}

/// The largest sample magnitude of the sequence, zero when it is empty.
pub open spec fn seq_max_abs(s: Seq<i32>) -> int
    decreases s.len(),
{
    if s.len() == 0 {
        0
    } else {
        let m = seq_max_abs(s.drop_last());
        if abs_val(s.last() as int) > m {
            abs_val(s.last() as int)
        } else {
            m
        }
    }
}

/// The maximum magnitude bounds every element and is itself reached from
/// below by zero.
pub proof fn lemma_max_abs_ge(s: Seq<i32>)
    ensures
        0 <= seq_max_abs(s),
        forall|i: int| 0 <= i < s.len() ==> abs_val(#[trigger] s[i] as int) <= seq_max_abs(s),
    decreases s.len(),
{
    if s.len() > 0 {
        lemma_max_abs_ge(s.drop_last());
        let m0 = seq_max_abs(s.drop_last());
        assert(seq_max_abs(s) >= m0);
        assert forall|i: int| 0 <= i < s.len() implies abs_val(#[trigger] s[i] as int)
            <= seq_max_abs(s) by {
            if i < s.len() - 1 {
                assert(s[i] == s.drop_last()[i]);
            } else {
                assert(s[i] == s.last());
            }
        }
    }
}

/// A pointwise magnitude bound carries over to the maximum.
pub proof fn lemma_max_abs_le(s: Seq<i32>, b: int)
    requires
        b >= 0,
        forall|i: int| 0 <= i < s.len() ==> abs_val(#[trigger] s[i] as int) <= b,
    ensures
        seq_max_abs(s) <= b,
    decreases s.len(),
{
    if s.len() > 0 {
        assert(forall|i: int|
            0 <= i < s.len() - 1 ==> #[trigger] s.drop_last()[i] == s[i]);
        lemma_max_abs_le(s.drop_last(), b);
    }
}

/// The value a sample scales to when the peak `m` is brought to the target:
/// `v * 950_000 / m`, rounded toward zero.
pub open spec fn scale_spec(v: int, m: int) -> int {
    if v >= 0 {
        v * 950_000 / m
    } else {
        -((-v) * 950_000 / m)
    }
}

/// Computes the largest sample magnitude.
pub fn max_abs_amplitude(samples: &Vec<i32>) -> (m: i32)
    requires
        samples_in_range(samples@),
    ensures
        m == seq_max_abs(samples@),
        0 <= m <= 1_000_000,
{
    let mut m: i32 = 0;
    let mut i: usize = 0;
    proof {
        assert(samples@.take(0) =~= Seq::<i32>::empty());
    }
    while i < samples.len()
        invariant
            0 <= i <= samples@.len(),
            samples_in_range(samples@),
            m == seq_max_abs(samples@.take(i as int)),
            0 <= m <= 1_000_000,
        decreases samples@.len() - i,
    {
        let v: i32 = samples[i];
        let a: i32 = if v >= 0 { v } else { -v };
        proof {
            assert(samples@.take(i + 1).drop_last() =~= samples@.take(i as int));
            assert(samples@.take(i + 1).last() == samples@[i as int]);
        }
        if a > m {
            m = a;
        }
        i = i + 1;
    }
    proof {
        assert(samples@.take(samples@.len() as int) =~= samples@);
    }
    m
}

/// Scales all samples so the maximum magnitude becomes 0.95 of full scale;
/// a nearly silent input (peak below one millionth of full scale, which in
/// this fixed-point model means an all-zero input) is returned unchanged so
/// that noise is not amplified. The peak of the result never exceeds the
/// target.
pub fn normalize(samples: &Vec<i32>) -> (out: Vec<i32>)
    requires
        samples_in_range(samples@),
    ensures
        out@.len() == samples@.len(),
        seq_max_abs(samples@) == 0 ==> out@ == samples@,
        seq_max_abs(samples@) != 0 ==> forall|i: int|
            0 <= i < out@.len() ==> out@[i] == scale_spec(
                samples@[i] as int,
                seq_max_abs(samples@),
            ),
        seq_max_abs(out@) <= 950_000,
        samples_in_range(out@),
{
    let m: i32 = max_abs_amplitude(samples);
    proof {
        lemma_max_abs_ge(samples@);
    }
    if m == 0 {
        let out = slice_to_vec(samples.as_slice());
        proof {
            lemma_max_abs_le(out@, 950_000);
        }
        return out;
    }
    let mut out: Vec<i32> = Vec::new();
    let mut i: usize = 0;
    while i < samples.len()
        invariant
            0 <= i <= samples@.len(),
            samples_in_range(samples@),
            1 <= m <= 1_000_000,
            m == seq_max_abs(samples@),
            forall|j: int| 0 <= j < samples@.len() ==> abs_val(#[trigger] samples@[j] as int) <= m,
            out@.len() == i,
            forall|j: int| 0 <= j < i ==> out@[j] == scale_spec(samples@[j] as int, m as int),
            forall|j: int| 0 <= j < i ==> -950_000 <= #[trigger] out@[j] <= 950_000,
        decreases samples@.len() - i,
    {
        let v: i32 = samples[i];
        let mag: u64 = if v >= 0 { v as u64 } else { (-v) as u64 };
        let scaled: u64 = mag * (PEAK_TARGET as u64) / (m as u64);
        proof {
            lemma_div_is_ordered(mag as int * 950_000, m as int * 950_000, m as int);
            assert(m as int * 950_000 / (m as int) == 950_000) by (nonlinear_arith)
                requires
                    1 <= m,
            ;
            lemma_div_pos_is_pos(mag as int * 950_000, m as int);
        }
        let scaled_i: i32 = scaled as i32;
        if v >= 0 {
            out.push(scaled_i);
        } else {
            out.push(-scaled_i);
        }
        i = i + 1;
    }
    proof {
        lemma_max_abs_le(out@, 950_000);
    }
    out
}

/// A sample is loud when its magnitude exceeds the threshold.
pub open spec fn loud_at(s: Seq<i32>, i: int, thr: int) -> bool {
    s[i] > thr || s[i] < -thr
}

/// Some sample of the sequence exceeds the threshold.
pub open spec fn exists_loud(s: Seq<i32>, thr: int) -> bool {
    exists|i: int| 0 <= i < s.len() && loud_at(s, i, thr)
}

/// The smaller of two integers.
pub open spec fn min_int(a: int, b: int) -> int {
    if a <= b {
        a
    } else {
        b
    }
}

/// The larger of two integers.
pub open spec fn max_int(a: int, b: int) -> int {
    if a >= b {
        a
    } else {
        b
    }
}

/// Index of the first loud sample at or after `i`, or the length when none
/// follows.
pub open spec fn first_loud_from(s: Seq<i32>, thr: int, i: nat) -> int
    decreases s.len() - i,
    when i <= s.len()
{
    if i >= s.len() {
        s.len() as int
    } else if loud_at(s, i as int, thr) {
        i as int
    } else {
        first_loud_from(s, thr, i + 1)
    }
}

/// Index of the first loud sample, or the length when there is none.
pub open spec fn first_loud(s: Seq<i32>, thr: int) -> int {
    first_loud_from(s, thr, 0)
}

/// Index of the last loud sample before `i`, or `-1` when none precedes.
pub open spec fn last_loud_before(s: Seq<i32>, thr: int, i: nat) -> int
    decreases i,
    when i <= s.len()
{
    if i == 0 {
        -1
    } else if loud_at(s, i - 1, thr) {
        i - 1
    } else {
        last_loud_before(s, thr, (i - 1) as nat)
    }
}

/// Index of the last loud sample, or `-1` when there is none.
pub open spec fn last_loud(s: Seq<i32>, thr: int) -> int {
    last_loud_before(s, thr, s.len())
}

/// First index of the span that trimming keeps, assuming a loud sample
/// exists: padding before the first loud sample, pulled further back when
/// the padded span is still shorter than the requested minimum.
pub open spec fn trim_start(s: Seq<i32>, thr: int, min_len: int) -> int {
    let s0 = max_int(first_loud(s, thr) - 1600, 0);
    let e0 = min_int(last_loud(s, thr) + 1600, s.len() - 1);
    if e0 - s0 < min_len {
        let e1 = min_int(s0 + min_len, s.len() - 1);
        if e1 - s0 < min_len {
            max_int(s0 - (min_len - (e1 - s0)), 0)
        } else {
            s0
        }
    } else {
        s0
    }
}

/// Last index of the span that trimming keeps, assuming a loud sample
/// exists: padding after the last loud sample, extended forward when the
/// padded span is still shorter than the requested minimum.
pub open spec fn trim_end(s: Seq<i32>, thr: int, min_len: int) -> int {
    let s0 = max_int(first_loud(s, thr) - 1600, 0);
    let e0 = min_int(last_loud(s, thr) + 1600, s.len() - 1);
    if e0 - s0 < min_len {
        min_int(s0 + min_len, s.len() - 1)
    } else {
        e0
    }
}

/// A scan that stopped at `i` with nothing loud before it found the first
/// loud index.
proof fn lemma_first_loud_eq(s: Seq<i32>, thr: int, k: nat, i: nat)
    requires
        k <= i <= s.len(),
        forall|j: int| k <= j < i ==> !loud_at(s, j, thr),
        i == s.len() || loud_at(s, i as int, thr),
    ensures
        first_loud_from(s, thr, k) == i,
    decreases i - k,
{
    if k < i {
        lemma_first_loud_eq(s, thr, (k + 1) as nat, i);
    }
}

/// A backward scan that stopped at `i` with nothing loud after it found the
/// last loud index.
proof fn lemma_last_loud_eq(s: Seq<i32>, thr: int, k: nat, i: int)
    requires
        -1 <= i,
        i < k <= s.len(),
        forall|j: int| i < j < k ==> !loud_at(s, j, thr),
        i == -1 || loud_at(s, i, thr),
    ensures
        last_loud_before(s, thr, k) == i,
    decreases k,
{
    if i < k - 1 {
        lemma_last_loud_eq(s, thr, (k - 1) as nat, i);
    }
}

/// Trims silence from both ends of the signal: everything before the first
/// and after the last sample whose magnitude exceeds `threshold` is cut,
/// keeping 100 ms of padding on each side, and the kept span is extended
/// (first forward, then backward) to at least `min_samples`. A signal with
/// no loud sample at all is returned unchanged, so this stage never turns a
/// non-empty signal into an empty one.
pub fn trim_silence(audio: &Vec<i32>, threshold: i32, min_samples: usize) -> (out: Vec<i32>)
    requires
        threshold >= 0,
        audio@.len() + 1600 + min_samples <= usize::MAX,
    ensures
        !exists_loud(audio@, threshold as int) ==> out@ == audio@,
        exists_loud(audio@, threshold as int) ==> {
            let lo = trim_start(audio@, threshold as int, min_samples as int);
            let hi = trim_end(audio@, threshold as int, min_samples as int);
            &&& out@ == audio@.subrange(lo, hi + 1)
            &&& 0 <= lo <= first_loud(audio@, threshold as int)
            &&& last_loud(audio@, threshold as int) <= hi < audio@.len()
        },
        out@ == trim_spec(audio@, threshold as int, min_samples as int),
        audio@.len() > 0 ==> out@.len() > 0,
{
    let len: usize = audio.len();
    if len == 0 {
        return slice_to_vec(audio.as_slice());
    }

    // Forward scan for the first loud sample.
    let mut f: usize = 0;
    while f < len && !(audio[f] > threshold || audio[f] < -threshold)
        invariant
            0 <= f <= len,
            len == audio@.len(),
            threshold >= 0,
            forall|j: int| 0 <= j < f ==> !loud_at(audio@, j, threshold as int),
        decreases len - f,
    {
        f = f + 1;
    }

    if f == len {
        // Nothing loud: keep the signal as it is.
        proof {
            lemma_first_loud_eq(audio@, threshold as int, 0, len as nat);
            assert(!exists_loud(audio@, threshold as int));
        }
        return slice_to_vec(audio.as_slice());
    }

    proof {
        lemma_first_loud_eq(audio@, threshold as int, 0, f as nat);
        assert(0 <= (f as int) < audio@.len() && loud_at(audio@, f as int, threshold as int));
        assert(exists_loud(audio@, threshold as int));
    }

    // Backward scan for the last loud sample; it is at or after `f`.
    let mut l: usize = len - 1;
    while !(audio[l] > threshold || audio[l] < -threshold)
        invariant
            f <= l < len,
            len == audio@.len(),
            threshold >= 0,
            loud_at(audio@, f as int, threshold as int),
            forall|j: int| l < j < len ==> !loud_at(audio@, j, threshold as int),
        decreases l,
    {
        l = l - 1;
    }
    proof {
        lemma_last_loud_eq(audio@, threshold as int, len as nat, l as int);
    }

    // Pad the loud span, clamped to the signal bounds.
    let start0: usize = if f > TRIM_PADDING { f - TRIM_PADDING } else { 0 };
    let end0: usize = if l + TRIM_PADDING <= len - 1 { l + TRIM_PADDING } else { len - 1 };

    let mut start: usize = start0;
    let mut end: usize = end0;
    if end - start < min_samples {
        // Too short: extend the trailing edge, then the leading edge.
        end = if start + min_samples <= len - 1 { start + min_samples } else { len - 1 };
        if end - start < min_samples {
            let deficit: usize = min_samples - (end - start);
            start = if start > deficit { start - deficit } else { 0 };
        }
    }

    proof {
        assert(start == trim_start(audio@, threshold as int, min_samples as int));
        assert(end == trim_end(audio@, threshold as int, min_samples as int));
    }
    let kept = slice_subrange(audio.as_slice(), start, end + 1);
    slice_to_vec(kept)
}

/// Linear interpolation between neighbouring samples `a` and `b`, `rem`
/// parts in `to` of the way from `a` to `b`. Computed on values offset by
/// full scale so the division never sees a negative numerator.
pub open spec fn lerp_val(a: int, b: int, rem: int, to: int) -> int {
    ((a + 1_000_000) * (to - rem) + (b + 1_000_000) * rem) / to - 1_000_000
}

/// The sample the resampler writes at output index `i`: the source position
/// is `i * from / to`; an exact hit copies the sample, otherwise the two
/// neighbouring samples are interpolated.
pub open spec fn resample_at(s: Seq<i32>, i: int, from: int, to: int) -> int {
    let d = i * from / to;
    let rem = (i * from) % to;
    if rem == 0 {
        s[d] as int
    } else {
        lerp_val(s[d] as int, s[d + 1] as int, rem, to)
    }
}

/// How many output samples resampling produces: the scaled length, less
/// the tail positions whose interpolation would read past the last sample.
pub open spec fn resample_len(len: int, from: int, to: int) -> int {
    if len == 0 {
        0
    } else {
        min_int(len * to / from, (len - 1) * to / from + 1)
    }
}

/// The whole resampled sequence.
pub open spec fn resample_spec(s: Seq<i32>, from: int, to: int) -> Seq<i32> {
    if from == to {
        s
    } else {
        Seq::new(
            resample_len(s.len() as int, from, to) as nat,
            |i: int| resample_at(s, i, from, to) as i32,
        )
    }
}

/// The whole trimmed sequence.
pub open spec fn trim_spec(s: Seq<i32>, thr: int, min_len: int) -> Seq<i32> {
    if !exists_loud(s, thr) {
        s
    } else {
        s.subrange(trim_start(s, thr, min_len), trim_end(s, thr, min_len) + 1)
    }
}

/// Resamples by linear interpolation from `from_rate` to `to_rate`. Equal
/// rates return the input unchanged; out-of-range interpolation positions
/// at the tail are dropped rather than extrapolated.
pub fn resample(input: &Vec<i32>, from_rate: u32, to_rate: u32) -> (out: Vec<i32>)
    requires
        from_rate >= 1,
        to_rate >= 1,
        samples_in_range(input@),
        input@.len() * (to_rate as int) / (from_rate as int) <= usize::MAX,
    ensures
        from_rate == to_rate ==> out@ == input@,
        from_rate != to_rate ==> out@.len() == resample_len(
            input@.len() as int,
            from_rate as int,
            to_rate as int,
        ),
        from_rate != to_rate ==> forall|i: int|
            0 <= i < out@.len() ==> out@[i] == resample_at(
                input@,
                i,
                from_rate as int,
                to_rate as int,
            ),
        samples_in_range(out@),
        out@ == resample_spec(input@, from_rate as int, to_rate as int),
{
    if from_rate == to_rate {
        return slice_to_vec(input.as_slice());
    }
    let len: usize = input.len();
    if len == 0 {
        return Vec::new();
    }
    let from_w: u128 = from_rate as u128;
    let to_w: u128 = to_rate as u128;
    proof {
        assert(len as int * (to_w as int) <= 0xffff_ffff_ffff_ffff * 0xffff_ffff)
            by (nonlinear_arith)
            requires
                len <= 0xffff_ffff_ffff_ffff,
                to_w <= 0xffff_ffff,
        ;
    }
    let out_cap_w: u128 = len as u128 * to_w / from_w;
    let out_cap: usize = out_cap_w as usize;
    proof {
        assert((len - 1) as int * (to_w as int) <= 0xffff_ffff_ffff_ffff * 0xffff_ffff)
            by (nonlinear_arith)
            requires
                len - 1 <= 0xffff_ffff_ffff_ffff,
                to_w <= 0xffff_ffff,
        ;
    }
    let tail_w: u128 = (len - 1) as u128 * to_w;

    let ghost fromi: int = from_rate as int;
    let ghost toi: int = to_rate as int;
    let ghost leni: int = len as int;

    let mut out: Vec<i32> = Vec::new();
    let mut i: usize = 0;
    while i < out_cap
        invariant_except_break
            0 <= i <= out_cap,
            out_cap == leni * toi / fromi,
            tail_w == (leni - 1) * toi,
            from_w == fromi,
            to_w == toi,
            from_rate as int == fromi,
            to_rate as int == toi,
            1 <= fromi <= 0xffff_ffff,
            1 <= toi <= 0xffff_ffff,
            1 <= leni <= usize::MAX,
            leni == input@.len(),
            samples_in_range(input@),
            out@.len() == i,
            forall|j: int| 0 <= j < i ==> out@[j] == resample_at(input@, j, fromi, toi),
            forall|j: int| 0 <= j < i ==> sample_in_range(#[trigger] out@[j]),
            forall|j: int| 0 <= j < i ==> #[trigger] (j * fromi) <= (leni - 1) * toi,
        ensures
            out@.len() <= out_cap,
            out_cap == leni * toi / fromi,
            forall|j: int| 0 <= j < out@.len() ==> out@[j] == resample_at(input@, j, fromi, toi),
            forall|j: int| 0 <= j < out@.len() ==> sample_in_range(#[trigger] out@[j]),
            forall|j: int| 0 <= j < out@.len() ==> #[trigger] (j * fromi) <= (leni - 1) * toi,
            out@.len() == out_cap || out@.len() * fromi > (leni - 1) * toi,
        decreases out_cap - i,
    {
        proof {
            assert(i as int * (from_w as int) <= 0xffff_ffff_ffff_ffff * 0xffff_ffff)
                by (nonlinear_arith)
                requires
                    i <= 0xffff_ffff_ffff_ffff,
                    from_w <= 0xffff_ffff,
            ;
        }
        let num: u128 = i as u128 * from_w;
        if num > tail_w {
            // The interpolation ceiling would pass the last sample: the
            // remaining positions are dropped, not extrapolated.
            break;
        }
        let d_w: u128 = num / to_w;
        let rem: u128 = num % to_w;
        proof {
            lemma_fundamental_div_mod(num as int, toi);
            assert((d_w as int) * toi == toi * (d_w as int)) by (nonlinear_arith);
            lemma_div_is_ordered(num as int, (leni - 1) * toi, toi);
            assert((leni - 1) * toi / toi == leni - 1) by (nonlinear_arith)
                requires
                    1 <= toi,
            ;
        }
        let d: usize = d_w as usize;
        if rem == 0 {
            let v: i32 = input[d];
            proof {
                assert(sample_in_range(input@[d as int]));
                assert(v == resample_at(input@, i as int, fromi, toi));
            }
            out.push(v);
        } else {
            proof {
                // A positive remainder means the position is strictly
                // inside the signal, so the right neighbour exists.
                assert((d_w as int) * toi < (leni - 1) * toi) by (nonlinear_arith)
                    requires
                        (d_w as int) * toi + (rem as int) <= (leni - 1) * toi,
                        0 < rem < toi,
                ;
                assert((d_w as int) < leni - 1) by (nonlinear_arith)
                    requires
                        (d_w as int) * toi < (leni - 1) * toi,
                        1 <= toi,
                ;
            }
            let a: i32 = input[d];
            let b: i32 = input[d + 1];
            let a_off: u64 = (a + 1_000_000) as u64;
            let b_off: u64 = (b + 1_000_000) as u64;
            let to64: u64 = to_rate as u64;
            proof {
                assert(rem < to_w);
            }
            let rem64: u64 = rem as u64;
            proof {
                assert((a_off as int) * (to64 - rem64) + (b_off as int) * (rem64 as int)
                    <= 2_000_000 * toi) by (nonlinear_arith)
                    requires
                        0 <= a_off <= 2_000_000,
                        0 <= b_off <= 2_000_000,
                        0 <= rem64 < toi,
                        to64 == toi,
                ;
                assert(2_000_000 * toi <= 2_000_000 * 0x1_0000_0000) by (nonlinear_arith)
                    requires
                        toi <= 0x1_0000_0000,
                ;
            }
            let numer: u64 = a_off * (to64 - rem64) + b_off * rem64;
            let val: u64 = numer / to64;
            proof {
                lemma_div_is_ordered(numer as int, 2_000_000 * toi, toi);
                assert(2_000_000 * toi / toi == 2_000_000) by (nonlinear_arith)
                    requires
                        1 <= toi,
                ;
                lemma_div_pos_is_pos(numer as int, toi);
            }
            let v: i32 = (val as i64 - 1_000_000) as i32;
            proof {
                assert(v == lerp_val(a as int, b as int, rem as int, toi));
                assert(v == resample_at(input@, i as int, fromi, toi));
                assert(sample_in_range(v));
            }
            out.push(v);
        }
        i = i + 1;
    }

    proof {
        let n = out@.len() as int;
        if n < out_cap {
            // The loop broke: `n` is the first position whose ceiling
            // passes the last sample, which pins the length formula.
            assert(n * fromi > (leni - 1) * toi);
            if n > 0 {
                assert((n - 1) * fromi <= (leni - 1) * toi);
                lemma_div_is_ordered((n - 1) * fromi, (leni - 1) * toi, fromi);
                assert((n - 1) * fromi / fromi == n - 1) by (nonlinear_arith)
                    requires
                        1 <= fromi,
                ;
                lemma_fundamental_div_mod((leni - 1) * toi, fromi);
                assert((leni - 1) * toi / fromi < n) by (nonlinear_arith)
                    requires
                        fromi * ((leni - 1) * toi / fromi) + ((leni - 1) * toi) % fromi
                            == (leni - 1) * toi,
                        0 <= ((leni - 1) * toi) % fromi < fromi,
                        (leni - 1) * toi < n * fromi,
                        1 <= fromi,
                ;
                assert(n == (leni - 1) * toi / fromi + 1);
            } else {
                assert((leni - 1) * toi >= 0 && n * fromi == 0) by (nonlinear_arith)
                    requires
                        leni >= 1,
                        toi >= 1,
                        n == 0,
                ;
                assert(false);
            }
        } else {
            // The loop ran to the end: every position was in range, so the
            // scaled length is already the minimum.
            if out_cap > 0 {
                assert((out_cap - 1) * fromi <= (leni - 1) * toi);
                lemma_div_is_ordered((out_cap - 1) * fromi, (leni - 1) * toi, fromi);
                assert((out_cap - 1) * fromi / fromi == out_cap - 1) by (nonlinear_arith)
                    requires
                        1 <= fromi,
                ;
            }
        }
        assert(out@ =~= resample_spec(input@, fromi, toi));
    }
    out
}

/// Root-mean-square level of the samples, in millionths of full scale;
/// zero for an empty input.
pub open spec fn sum_squares(s: Seq<i32>) -> int
    decreases s.len(),
{
    if s.len() == 0 {
        0
    } else {
        sum_squares(s.drop_last()) + s.last() * s.last()
    }
}

/// Computes the root-mean-square amplitude of the samples: the integer
/// square root of the mean of their squares. Returns zero for an empty
/// input, so an empty buffer reads as silence on a level meter.
pub fn calculate_rms(samples: &Vec<i32>) -> (rms: u64)
    requires
        samples_in_range(samples@),
    ensures
        samples@.len() == 0 ==> rms == 0,
        samples@.len() > 0 ==> rms == isqrt_spec(
            (sum_squares(samples@) / samples@.len() as int) as nat,
        ),
        rms <= 1_000_000,
{
    if samples.len() == 0 {
        return 0;
    }
    let mut sum: u128 = 0;
    let mut i: usize = 0;
    proof {
        assert(samples@.take(0) =~= Seq::<i32>::empty());
    }
    while i < samples.len()
        invariant
            0 <= i <= samples@.len(),
            samples_in_range(samples@),
            sum == sum_squares(samples@.take(i as int)),
            sum <= i * 1_000_000_000_000,
        decreases samples@.len() - i,
    {
        let v: i64 = samples[i] as i64;
        proof {
            assert(samples@.take(i + 1).drop_last() =~= samples@.take(i as int));
            assert(samples@.take(i + 1).last() == samples@[i as int]);
            assert(0 <= samples@[i as int] as int * samples@[i as int] as int
                <= 1_000_000_000_000) by (nonlinear_arith)
                requires
                    -1_000_000 <= samples@[i as int] <= 1_000_000,
            ;
            assert((i + 1) * 1_000_000_000_000 == i * 1_000_000_000_000 + 1_000_000_000_000)
                by (nonlinear_arith);
            assert(i * 1_000_000_000_000 <= 0xffff_ffff_ffff_ffff * 1_000_000_000_000)
                by (nonlinear_arith)
                requires
                    i <= 0xffff_ffff_ffff_ffff,
            ;
        }
        sum = sum + ((v * v) as u128);
        i = i + 1;
    }
    proof {
        assert(samples@.take(samples@.len() as int) =~= samples@);
    }
    let mean: u128 = sum / (samples.len() as u128);
    proof {
        lemma_div_is_ordered(
            sum as int,
            samples@.len() as int * 1_000_000_000_000,
            samples@.len() as int,
        );
        assert(samples@.len() as int * 1_000_000_000_000 / (samples@.len() as int)
            == 1_000_000_000_000) by (nonlinear_arith)
            requires
                1 <= samples@.len(),
        ;
        lemma_isqrt_lt((mean + 1) as nat, 1_000_001);
        lemma_isqrt_lt(mean as nat, 1_000_001);
        assert(1_000_001 * 1_000_001 > 1_000_000_000_000) by (nonlinear_arith);
    }
    let rms: u128 = isqrt(mean);
    rms as u64
}

} // verus!
