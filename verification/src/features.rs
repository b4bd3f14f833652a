//! Acoustic feature extraction: a compact three-component feature vector
//! per analysis window (25 ms, hopping by 10 ms), and the mean vector over
//! a segment's windows.
//!
//! Components, all fixed point in millionths: energy (root of the summed
//! squares), zero-crossing rate (crossings per sample), and a spectral
//! centroid proxy (magnitude-weighted mean position inside the window, a
//! cheap stand-in for a frequency-domain centroid).

use vstd::prelude::*;
use crate::sample::{sample_in_range, samples_in_range};
use crate::math::{isqrt, isqrt_spec, lemma_isqrt_lt, lemma_div_le_bound};
use crate::preprocess::{abs_val, sum_squares};
use vstd::arithmetic::div_mod::{lemma_div_is_ordered, lemma_div_pos_is_pos};
use vstd::slice::slice_subrange;

verus! {

/// One acoustic feature vector, fixed point in millionths.
#[derive(Clone, Copy, PartialEq, Eq, Structural)]
pub struct FeatureVector {
    /// Root of the summed squared amplitudes of the window.
    pub energy: u64,
    /// Sign changes per sample, scaled by a million.
    pub zcr: u64,
    /// Magnitude-weighted mean position in the window, scaled by a million.
    pub centroid: u64,
}

/// Component bounds every extracted or averaged vector satisfies; the
/// distance computation relies on them to stay in range.
pub open spec fn feature_wf(f: FeatureVector) -> bool {
    f.energy <= 0x4_0000_0000 && f.zcr <= 1_000_000 && f.centroid <= 1_000_000
}

/// All vectors of the sequence are well formed.
pub open spec fn features_wf(fs: Seq<FeatureVector>) -> bool {
    forall|i: int| 0 <= i < fs.len() ==> feature_wf(#[trigger] fs[i])
}

/// Whether consecutive samples sit on opposite sides of zero.
pub open spec fn sign_change(a: i32, b: i32) -> bool {
    (b >= 0 && a < 0) || (b < 0 && a >= 0)
}

/// Number of sign changes between consecutive samples.
pub open spec fn count_crossings(s: Seq<i32>) -> int
    decreases s.len(),
{
    if s.len() <= 1 {
        0
    } else {
        count_crossings(s.drop_last()) + if sign_change(s[s.len() - 2], s.last()) {
            1int
        } else {
            0int
        }
    }
}

/// Sum of sample magnitudes.
pub open spec fn sum_abs(s: Seq<i32>) -> int
    decreases s.len(),
{
    if s.len() == 0 {
        0
    } else {
        sum_abs(s.drop_last()) + abs_val(s.last() as int)
    }
}

/// Sum of sample magnitudes weighted by their position.
pub open spec fn sum_weighted_abs(s: Seq<i32>) -> int
    decreases s.len(),
{
    if s.len() == 0 {
        0
    } else {
        sum_weighted_abs(s.drop_last()) + abs_val(s.last() as int) * (s.len() - 1)
    }
}

/// The energy component of a window.
pub open spec fn energy_spec(s: Seq<i32>) -> int {
    isqrt_spec(sum_squares(s) as nat) as int
}

/// The zero-crossing-rate component of a window.
pub open spec fn zcr_spec(s: Seq<i32>) -> int {
    count_crossings(s) * 1_000_000 / (s.len() as int)
}

/// The spectral-centroid-proxy component of a window: zero when the window
/// is all silent.
pub open spec fn centroid_spec(s: Seq<i32>) -> int {
    if sum_abs(s) == 0 {
        0
    } else {
        sum_weighted_abs(s) * 1_000_000 / ((s.len() as int) * sum_abs(s))
    }
}

/// The feature vector of one analysis window.
pub open spec fn window_features_spec(s: Seq<i32>) -> FeatureVector {
    FeatureVector {
        energy: energy_spec(s) as u64,
        zcr: zcr_spec(s) as u64,
        centroid: centroid_spec(s) as u64,
    }
}

/// Crossings are fewer than the samples.
proof fn lemma_crossings_bound(s: Seq<i32>)
    ensures
        0 <= count_crossings(s) <= if s.len() == 0 {
            0int
        } else {
            s.len() - 1
        },
    decreases s.len(),
{
    if s.len() > 1 {
        lemma_crossings_bound(s.drop_last());
    }
}

/// Magnitude sums of in-range samples are bounded by the length, and the
/// weighted sum by the last position times the plain sum.
proof fn lemma_abs_sums_bound(s: Seq<i32>)
    requires
        samples_in_range(s),
    ensures
        0 <= sum_abs(s) <= s.len() * 1_000_000,
        0 <= sum_weighted_abs(s),
        s.len() >= 1 ==> sum_weighted_abs(s) <= (s.len() - 1) * sum_abs(s),
    decreases s.len(),
{
    if s.len() > 0 {
        assert(forall|i: int|
            0 <= i < s.len() - 1 ==> #[trigger] s.drop_last()[i] == s[i]);
        lemma_abs_sums_bound(s.drop_last());
        let d = s.drop_last();
        let a = abs_val(s.last() as int);
        let n = s.len() as int;
        assert(sum_abs(s) <= n * 1_000_000) by (nonlinear_arith)
            requires
                sum_abs(s) == sum_abs(d) + a,
                sum_abs(d) <= (n - 1) * 1_000_000,
                0 <= a <= 1_000_000,
        ;
        assert(0 <= a * (n - 1)) by (nonlinear_arith)
            requires
                0 <= a,
                1 <= n,
        ;
        if n >= 2 {
            assert(sum_weighted_abs(d) + a * (n - 1) <= (n - 1) * (sum_abs(d) + a))
                by (nonlinear_arith)
                requires
                    sum_weighted_abs(d) <= (n - 2) * sum_abs(d),
                    0 <= sum_abs(d),
                    0 <= a,
                    2 <= n,
            ;
        } else {
            assert(sum_weighted_abs(s) == a * 0 && (n - 1) * sum_abs(s) == 0)
                by (nonlinear_arith)
                requires
                    n == 1,
                    sum_weighted_abs(s) == sum_weighted_abs(d) + a * (n - 1),
                    sum_weighted_abs(d) == 0,
            ;
            assert(a * 0 == 0) by (nonlinear_arith);
        }
    }
}

/// Extracts the feature vector of one analysis window.
pub fn window_features(w: &[i32]) -> (f: FeatureVector)
    requires
        samples_in_range(w@),
        1 <= w@.len() <= 0x800_0000,
    ensures
        f == window_features_spec(w@),
        feature_wf(f),
{
    let len: usize = w.len();
    let ghost ws = w@;

    // Energy: root of the summed squares.
    let mut sum_sq: u128 = 0;
    let mut i: usize = 0;
    proof {
        assert(ws.take(0) =~= Seq::<i32>::empty());
    }
    while i < len
        invariant
            0 <= i <= len,
            len == ws.len(),
            1 <= len <= 0x800_0000,
            samples_in_range(ws),
            w@ == ws,
            sum_sq == sum_squares(ws.take(i as int)),
            sum_sq <= i * 1_000_000_000_000,
        decreases len - i,
    {
        let v: i64 = w[i] as i64;
        proof {
            assert(ws.take(i + 1).drop_last() =~= ws.take(i as int));
            assert(0 <= (ws[i as int] as int) * (ws[i as int] as int) <= 1_000_000_000_000)
                by (nonlinear_arith)
                requires
                    -1_000_000 <= ws[i as int] <= 1_000_000,
            ;
            assert((i + 1) * 1_000_000_000_000 == i * 1_000_000_000_000 + 1_000_000_000_000)
                by (nonlinear_arith);
        }
        sum_sq = sum_sq + ((v * v) as u128);
        i = i + 1;
    }
    proof {
        assert(ws.take(len as int) =~= ws);
        assert(len * 1_000_000_000_000 <= 0x800_0000 * 1_000_000_000_000) by (nonlinear_arith)
            requires
                len <= 0x800_0000,
        ;
        lemma_isqrt_lt(sum_sq as nat, 0x4_0000_0000);
        assert(0x800_0000 * 1_000_000_000_000 < 0x4_0000_0000 * 0x4_0000_0000)
            by (nonlinear_arith);
    }
    let energy: u64 = isqrt(sum_sq) as u64;

    // Zero-crossing rate.
    let mut crossings: u64 = 0;
    let mut j: usize = 1;
    proof {
        lemma_crossings_bound(ws);
        assert(count_crossings(ws.take(1)) == 0);
    }
    while j < len
        invariant
            1 <= j <= len,
            len == ws.len(),
            1 <= len <= 0x800_0000,
            w@ == ws,
            crossings == count_crossings(ws.take(j as int)),
            crossings <= j - 1,
        decreases len - j,
    {
        let prev: i32 = w[j - 1];
        let cur: i32 = w[j];
        proof {
            assert(ws.take(j + 1).drop_last() =~= ws.take(j as int));
            assert(ws.take(j + 1)[j as int - 1] == ws[j as int - 1]);
            assert(ws.take(j + 1).last() == ws[j as int]);
        }
        if (cur >= 0 && prev < 0) || (cur < 0 && prev >= 0) {
            crossings = crossings + 1;
        }
        j = j + 1;
    }
    proof {
        assert(ws.take(len as int) =~= ws);
    }
    let zcr: u64 = crossings * 1_000_000 / (len as u64);
    proof {
        lemma_div_is_ordered(
            crossings as int * 1_000_000,
            len as int * 1_000_000,
            len as int,
        );
        assert(len as int * 1_000_000 / (len as int) == 1_000_000) by (nonlinear_arith)
            requires
                1 <= len,
        ;
        lemma_div_pos_is_pos(crossings as int * 1_000_000, len as int);
    }

    // Spectral centroid proxy.
    let mut wsum: u128 = 0;
    let mut asum: u128 = 0;
    let mut k: usize = 0;
    proof {
        assert(ws.take(0) =~= Seq::<i32>::empty());
    }
    while k < len
        invariant
            0 <= k <= len,
            len == ws.len(),
            1 <= len <= 0x800_0000,
            samples_in_range(ws),
            w@ == ws,
            wsum == sum_weighted_abs(ws.take(k as int)),
            asum == sum_abs(ws.take(k as int)),
            asum <= k * 1_000_000,
            wsum <= k * (k * 1_000_000),
        decreases len - k,
    {
        let v: i32 = w[k];
        let mag: u64 = if v >= 0 { v as u64 } else { (-v) as u64 };
        proof {
            assert(ws.take(k + 1).drop_last() =~= ws.take(k as int));
            assert(ws.take(k + 1).last() == ws[k as int]);
            assert(mag as int * (k as int) <= 1_000_000 * (k as int)) by (nonlinear_arith)
                requires
                    0 <= mag <= 1_000_000,
                    0 <= k,
            ;
            assert((k + 1) * ((k + 1) * 1_000_000) >= k * (k * 1_000_000) + 1_000_000 * (k as int))
                by (nonlinear_arith)
                requires
                    0 <= k,
            ;
            assert(k * (k * 1_000_000) <= 0x800_0000 * (0x800_0000 * 1_000_000))
                by (nonlinear_arith)
                requires
                    0 <= k <= 0x800_0000,
            ;
            assert((k + 1) * 1_000_000 == k * 1_000_000 + 1_000_000) by (nonlinear_arith);
        }
        wsum = wsum + (mag as u128) * (k as u128);
        asum = asum + mag as u128;
        k = k + 1;
    }
    proof {
        assert(ws.take(len as int) =~= ws);
        lemma_abs_sums_bound(ws);
        assert(wsum as int <= 0x800_0000 * (0x800_0000 * 1_000_000)) by (nonlinear_arith)
            requires
                wsum <= len * (len * 1_000_000),
                0 <= len <= 0x800_0000,
        ;
    }
    let centroid: u64 = if asum == 0 {
        0
    } else {
        proof {
            assert(1 <= (len as int) * (asum as int)
                <= 0x800_0000 * (0x800_0000 * 1_000_000)) by (nonlinear_arith)
                requires
                    1 <= len <= 0x800_0000,
                    1 <= asum <= 0x800_0000 * 1_000_000,
            ;
            assert(wsum as int * 1_000_000 <= 0x800_0000 * (0x800_0000 * 1_000_000) * 1_000_000)
                by (nonlinear_arith)
                requires
                    0 <= wsum <= 0x800_0000 * (0x800_0000 * 1_000_000),
            ;
            // The weighted sum stays below the full sum times the window
            // length, so the scaled quotient stays below one million.
            assert(wsum as int * 1_000_000 <= (len as int) * (asum as int) * 1_000_000)
                by (nonlinear_arith)
                requires
                    wsum <= (len as int - 1) * (asum as int),
                    0 <= asum,
                    1 <= len,
            ;
            lemma_div_is_ordered(
                wsum as int * 1_000_000,
                (len as int) * (asum as int) * 1_000_000,
                (len as int) * (asum as int),
            );
            assert((len as int) * (asum as int) * 1_000_000 / ((len as int) * (asum as int))
                == 1_000_000) by (nonlinear_arith)
                requires
                    1 <= (len as int) * (asum as int),
            ;
            lemma_div_pos_is_pos(wsum as int * 1_000_000, (len as int) * (asum as int));
        }
        (wsum * 1_000_000 / (len as u128 * asum)) as u64
    };

    FeatureVector { energy, zcr, centroid }
}

/// Analysis-window length at the given sample rate: 25 ms of samples.
pub open spec fn window_size_of(rate: int) -> int {
    rate * 25 / 1000
}

/// Hop between successive analysis windows: 10 ms of samples.
pub open spec fn hop_size_of(rate: int) -> int {
    rate * 10 / 1000
}

/// How many whole windows of length `w`, hopping by `h`, fit in `len`
/// samples.
pub open spec fn num_windows(len: int, w: int, h: int) -> int {
    if len < w {
        0
    } else {
        (len - w) / h + 1
    }
}

/// Extracts one feature vector per 25 ms analysis window, windows hopping
/// by 10 ms; a trailing part shorter than a window is ignored.
pub fn extract_features(samples: &Vec<i32>, rate: u32) -> (fs: Vec<FeatureVector>)
    requires
        rate >= 100,
        samples_in_range(samples@),
        samples@.len() + 0x800_0000 < usize::MAX,
    ensures
        fs@.len() == num_windows(
            samples@.len() as int,
            window_size_of(rate as int),
            hop_size_of(rate as int),
        ),
        forall|k: int| 0 <= k < fs@.len() ==> fs@[k] == window_features_spec(
            samples@.subrange(
                k * hop_size_of(rate as int),
                k * hop_size_of(rate as int) + window_size_of(rate as int),
            ),
        ),
        features_wf(fs@),
{
    let w: usize = (rate as u64 * 25 / 1000) as usize;
    let h: usize = (rate as u64 * 10 / 1000) as usize;
    let len: usize = samples.len();
    let ghost wi: int = window_size_of(rate as int);
    let ghost hi: int = hop_size_of(rate as int);
    proof {
        lemma_div_le_bound(rate as int * 25, 0x6_6666_6666, 1000);
        lemma_div_le_bound(rate as int * 10, 0x2_8f5c_28f5, 1000);
        assert(rate as int * 25 <= 1000 * 0x6_6666_6666) by (nonlinear_arith)
            requires
                rate <= 0xffff_ffff,
        ;
        assert(rate as int * 10 <= 1000 * 0x2_8f5c_28f5) by (nonlinear_arith)
            requires
                rate <= 0xffff_ffff,
        ;
        assert(rate as int * 25 >= 2 * 1000) by (nonlinear_arith)
            requires
                rate >= 100,
        ;
        assert(rate as int * 10 >= 1 * 1000) by (nonlinear_arith)
            requires
                rate >= 100,
        ;
        lemma_div_is_ordered(2000int, rate as int * 25, 1000);
        lemma_div_is_ordered(1000int, rate as int * 10, 1000);
        assert(wi <= 0x800_0000) by {
            lemma_div_is_ordered(rate as int * 25, 0xffff_ffffint * 25, 1000);
            assert(rate as int * 25 <= 0xffff_ffff * 25) by (nonlinear_arith)
                requires
                    rate <= 0xffff_ffff,
            ;
            assert(0xffff_ffff * 25 / 1000 <= 0x800_0000) by (nonlinear_arith);
        }
        assert(hi <= wi) by {
            assert(rate as int * 10 <= rate as int * 25) by (nonlinear_arith)
                requires
                    rate >= 0,
            ;
            lemma_div_is_ordered(rate as int * 10, rate as int * 25, 1000);
        }
    }
    let mut out: Vec<FeatureVector> = Vec::new();
    let mut k: usize = 0;
    let mut i: usize = 0;
    while i + w <= len
        invariant
            w == wi,
            h == hi,
            2 <= w <= 0x800_0000,
            1 <= h <= w,
            len == samples@.len(),
            len + 0x800_0000 < usize::MAX,
            samples_in_range(samples@),
            i == k * hi,
            i <= len,
            k <= i,
            k == 0 || (k - 1) * hi + wi <= len,
            out@.len() == k,
            forall|j: int| 0 <= j < k ==> out@[j] == window_features_spec(
                samples@.subrange(j * hi, j * hi + wi),
            ),
            forall|j: int| 0 <= j < k ==> feature_wf(#[trigger] out@[j]),
        decreases len - i,
    {
        let win = slice_subrange(samples.as_slice(), i, i + w);
        proof {
            assert(samples_in_range(win@));
        }
        let f = window_features(win);
        out.push(f);
        proof {
            assert((k + 1) * hi == k * hi + hi) by (nonlinear_arith);
        }
        k = k + 1;
        i = i + h;
        proof {
            if i > len {
                assert(i - h + w <= len);
                assert(false);
            }
        }
    }
    proof {
        // The first window position that no longer fits pins the count.
        if len < wi {
            if k > 0 {
                assert((k - 1) * hi >= 0) by (nonlinear_arith)
                    requires
                        k >= 1,
                        hi >= 1,
                ;
                assert(false);
            }
        } else {
            if k == 0 {
                assert(0 * hi == 0) by (nonlinear_arith);
                assert(false);
            }
            assert((k - 1) * hi + hi == k * hi) by (nonlinear_arith);
            assert((k - 1) * hi <= len - wi);
            lemma_div_is_ordered((k - 1) * hi, len - wi, hi);
            assert((k - 1) * hi / hi == k - 1) by (nonlinear_arith)
                requires
                    1 <= hi,
            ;
            vstd::arithmetic::div_mod::lemma_fundamental_div_mod(len - wi, hi);
            assert((len - wi) / hi < k) by (nonlinear_arith)
                requires
                    hi * ((len - wi) / hi) + (len - wi) % hi == len - wi,
                    0 <= (len - wi) % hi < hi,
                    len - wi < k * hi,
                    1 <= hi,
            ;
            assert(k == (len - wi) / hi + 1);
        }
    }
    out
}

/// Componentwise sum of the energies.
pub open spec fn sum_energy(fs: Seq<FeatureVector>) -> int
    decreases fs.len(),
{
    if fs.len() == 0 {
        0
    } else {
        sum_energy(fs.drop_last()) + fs.last().energy
    }
}

/// Componentwise sum of the zero-crossing rates.
pub open spec fn sum_zcr(fs: Seq<FeatureVector>) -> int
    decreases fs.len(),
{
    if fs.len() == 0 {
        0
    } else {
        sum_zcr(fs.drop_last()) + fs.last().zcr
    }
}

/// Componentwise sum of the centroid proxies.
pub open spec fn sum_centroid(fs: Seq<FeatureVector>) -> int
    decreases fs.len(),
{
    if fs.len() == 0 {
        0
    } else {
        sum_centroid(fs.drop_last()) + fs.last().centroid
    }
}

/// The arithmetic mean of a non-empty run of feature vectors, taken
/// componentwise.
pub open spec fn mean_feature_spec(fs: Seq<FeatureVector>) -> FeatureVector {
    FeatureVector {
        energy: (sum_energy(fs) / fs.len() as int) as u64,
        zcr: (sum_zcr(fs) / fs.len() as int) as u64,
        centroid: (sum_centroid(fs) / fs.len() as int) as u64,
    }
}

/// Componentwise sums of well-formed vectors are bounded by the count
/// times the component bounds.
proof fn lemma_feature_sums_bound(fs: Seq<FeatureVector>)
    requires
        features_wf(fs),
    ensures
        0 <= sum_energy(fs) <= fs.len() * 0x4_0000_0000,
        0 <= sum_zcr(fs) <= fs.len() * 1_000_000,
        0 <= sum_centroid(fs) <= fs.len() * 1_000_000,
    decreases fs.len(),
{
    if fs.len() > 0 {
        assert(forall|i: int|
            0 <= i < fs.len() - 1 ==> #[trigger] fs.drop_last()[i] == fs[i]);
        lemma_feature_sums_bound(fs.drop_last());
        let n = fs.len() as int;
        assert(n * 0x4_0000_0000 == (n - 1) * 0x4_0000_0000 + 0x4_0000_0000)
            by (nonlinear_arith);
        assert(n * 1_000_000 == (n - 1) * 1_000_000 + 1_000_000) by (nonlinear_arith);
    }
}

/// Averages a segment's window features into one segment-level vector.
pub fn mean_feature(fs: &Vec<FeatureVector>) -> (m: FeatureVector)
    requires
        fs@.len() >= 1,
        features_wf(fs@),
    ensures
        m == mean_feature_spec(fs@),
        feature_wf(m),
{
    let len: usize = fs.len();
    let mut se: u128 = 0;
    let mut sz: u128 = 0;
    let mut sc: u128 = 0;
    let mut i: usize = 0;
    proof {
        assert(fs@.take(0) =~= Seq::<FeatureVector>::empty());
    }
    while i < len
        invariant
            0 <= i <= len,
            len == fs@.len(),
            features_wf(fs@),
            se == sum_energy(fs@.take(i as int)),
            sz == sum_zcr(fs@.take(i as int)),
            sc == sum_centroid(fs@.take(i as int)),
            se <= i * 0x4_0000_0000,
            sz <= i * 1_000_000,
            sc <= i * 1_000_000,
        decreases len - i,
    {
        let f = fs[i];
        proof {
            assert(fs@.take(i + 1).drop_last() =~= fs@.take(i as int));
            assert(fs@.take(i + 1).last() == fs@[i as int]);
            assert((i + 1) * 0x4_0000_0000 == i * 0x4_0000_0000 + 0x4_0000_0000)
                by (nonlinear_arith);
            assert((i + 1) * 1_000_000 == i * 1_000_000 + 1_000_000) by (nonlinear_arith);
            assert(i * 0x4_0000_0000 <= 0xffff_ffff_ffff_ffff * 0x4_0000_0000)
                by (nonlinear_arith)
                requires
                    i <= 0xffff_ffff_ffff_ffff,
            ;
            assert(i * 1_000_000 <= 0xffff_ffff_ffff_ffff * 1_000_000) by (nonlinear_arith)
                requires
                    i <= 0xffff_ffff_ffff_ffff,
            ;
        }
        se = se + f.energy as u128;
        sz = sz + f.zcr as u128;
        sc = sc + f.centroid as u128;
        i = i + 1;
    }
    proof {
        assert(fs@.take(len as int) =~= fs@);
        lemma_div_le_bound(se as int, 0x4_0000_0000, len as int);
        lemma_div_le_bound(sz as int, 1_000_000, len as int);
        lemma_div_le_bound(sc as int, 1_000_000, len as int);
        assert(se <= len * 0x4_0000_0000 && len * 0x4_0000_0000 == (len as int) * 0x4_0000_0000);
        assert(sz <= len * 1_000_000 && sc <= len * 1_000_000);
    }
    FeatureVector {
        energy: (se / len as u128) as u64,
        zcr: (sz / len as u128) as u64,
        centroid: (sc / len as u128) as u64,
    }
}

} // verus!
