//! Speaker segments, the temporal smoothing pass, and the clustering run
//! over a sequence of segment features.
//!
//! The smoothing pass is a majority-of-three median filter: an interior
//! segment whose two neighbours agree on a different speaker is reassigned
//! to match them, which removes single-segment flicker without touching
//! longer speaker turns. Applying the pass twice changes nothing more than
//! applying it once; that idempotence is proved below.

use vstd::prelude::*;
use crate::features::{FeatureVector, features_wf};
use crate::sample::samples_in_range;
use crate::cluster::{
    ClusterEngine, assign_index, assign_profiles, assign_is_new, best_profile, profile_dist,
    distance_spec, sum_dist, recent_start,
};

verus! {

/// A contiguous audio interval attributed to one speaker.
#[derive(Clone, Copy, PartialEq, Eq, Debug, Structural)]
pub struct SpeakerSegment {
    /// Start of the interval, in milliseconds from the chunk start.
    pub start_ms: u64,
    /// End of the interval, in milliseconds from the chunk start.
    pub end_ms: u64,
    /// The speaker identity the interval is attributed to.
    pub speaker: u32,
}

/// The speaker assignments of a run of segments.
pub open spec fn ids_of(segs: Seq<SpeakerSegment>) -> Seq<u32> {
    segs.map_values(|s: SpeakerSegment| s.speaker)
}

/// One smoothing step at interior position `i`: when both neighbours agree
/// on a speaker different from position `i`, position `i` is reassigned.
pub open spec fn smooth_step(ids: Seq<u32>, i: int) -> Seq<u32> {
    if ids[i - 1] == ids[i + 1] && ids[i] != ids[i - 1] {
        ids.update(i, ids[i - 1])
    } else {
        ids
    }
}

/// The smoothing pass applied, in order, at positions `1 .. n`.
pub open spec fn smooth_upto(ids: Seq<u32>, n: int) -> Seq<u32>
    decreases n,
{
    if n <= 1 {
        ids
    } else {
        smooth_step(smooth_upto(ids, n - 1), n - 1)
    }
}

/// The full smoothing pass: every interior position, in order. Runs of
/// fewer than three segments have no interior and are left unchanged.
pub open spec fn smooth_ids(ids: Seq<u32>) -> Seq<u32> {
    if ids.len() < 3 {
        ids
    } else {
        smooth_upto(ids, ids.len() - 1)
    }
}

/// No interior position is a single-segment flicker.
pub open spec fn no_flicker(ids: Seq<u32>, upto: int) -> bool {
    forall|i: int| 1 <= i < upto ==> !(ids[i - 1] == #[trigger] ids[i + 1] && ids[i] != ids[i - 1])
}

/// The partial pass keeps the length, never touches positions at or after
/// `n` (or position zero), and leaves no flicker below `n`.
proof fn lemma_smooth_upto_props(ids: Seq<u32>, n: int)
    requires
        1 <= n <= ids.len() - 1,
    ensures
        smooth_upto(ids, n).len() == ids.len(),
        forall|j: int| (0 <= j < ids.len() && (j >= n || j == 0)) ==> smooth_upto(ids, n)[j]
            == ids[j],
        no_flicker(smooth_upto(ids, n), n),
    decreases n,
{
    if n > 1 {
        lemma_smooth_upto_props(ids, n - 1);
        let t = smooth_upto(ids, n - 1);
        let u = smooth_upto(ids, n);
        assert(u == smooth_step(t, n - 1));
        if t[n - 2] == t[n] && t[n - 1] != t[n - 2] {
            assert(u == t.update(n - 1, t[n - 2]));
            assert forall|i: int| 1 <= i < n implies !(u[i - 1] == #[trigger] u[i + 1] && u[i]
                != u[i - 1]) by {
                if i < n - 2 {
                } else if i == n - 2 {
                    assert(u[n - 1] == u[n - 2]);
                } else {
                    assert(u[n - 1] == t[n - 2]);
                }
            }
        } else {
            assert(u == t);
        }
    }
}

/// A pass over a run with no flicker changes nothing.
proof fn lemma_smooth_upto_noop(ids: Seq<u32>, n: int)
    requires
        1 <= n <= ids.len() - 1,
        no_flicker(ids, n),
    ensures
        smooth_upto(ids, n) == ids,
    decreases n,
{
    if n > 1 {
        lemma_smooth_upto_noop(ids, n - 1);
    }
}

/// The smoothing pass is idempotent: applying it twice yields what one
/// application yields.
pub proof fn lemma_smoothing_idempotent(ids: Seq<u32>)
    ensures
        smooth_ids(smooth_ids(ids)) == smooth_ids(ids),
{
    if ids.len() >= 3 {
        let n = ids.len() - 1;
        lemma_smooth_upto_props(ids, n);
        let t = smooth_upto(ids, n);
        lemma_smooth_upto_noop(t, n);
    }
}

/// Smoothing only copies values that were already present, so a pointwise
/// bound on the speakers survives it.
pub proof fn lemma_smooth_preserves_bound(ids: Seq<u32>, b: u32)
    requires
        forall|i: int| 0 <= i < ids.len() ==> ids[i] < b,
    ensures
        smooth_ids(ids).len() == ids.len(),
        forall|i: int| 0 <= i < ids.len() ==> smooth_ids(ids)[i] < b,
{
    if ids.len() >= 3 {
        lemma_smooth_bound_upto(ids, ids.len() - 1, b);
    }
}

/// The partial pass also preserves a pointwise bound.
proof fn lemma_smooth_bound_upto(ids: Seq<u32>, n: int, b: u32)
    requires
        1 <= n <= ids.len() - 1,
        forall|i: int| 0 <= i < ids.len() ==> ids[i] < b,
    ensures
        smooth_upto(ids, n).len() == ids.len(),
        forall|i: int| 0 <= i < ids.len() ==> smooth_upto(ids, n)[i] < b,
    decreases n,
{
    if n > 1 {
        lemma_smooth_bound_upto(ids, n - 1, b);
    }
}

/// Reassigns single-segment flickers to the speaker both neighbours agree
/// on, sweeping the interior once in order. Times are untouched.
pub fn smooth_speaker_assignments(segments: &mut Vec<SpeakerSegment>) -> (r: ())
    ensures
        final(segments)@.len() == old(segments)@.len(),
        forall|i: int| 0 <= i < old(segments)@.len() ==> (#[trigger] final(segments)@[i]).start_ms
            == old(segments)@[i].start_ms && final(segments)@[i].end_ms == old(
            segments,
        )@[i].end_ms,
        ids_of(final(segments)@) == smooth_ids(ids_of(old(segments)@)),
{
    let len: usize = segments.len();
    let ghost orig = segments@;
    if len < 3 {
        proof {
            assert(ids_of(segments@) == smooth_ids(ids_of(orig)));
        }
        return ;
    }
    let mut i: usize = 1;
    proof {
        assert(ids_of(segments@) =~= smooth_upto(ids_of(orig), 1));
    }
    while i < len - 1
        invariant
            1 <= i <= len - 1,
            3 <= len == segments@.len() == orig.len(),
            forall|j: int| 0 <= j < len ==> (#[trigger] segments@[j]).start_ms == orig[j].start_ms
                && segments@[j].end_ms == orig[j].end_ms,
            ids_of(segments@) == smooth_upto(ids_of(orig), i as int),
        decreases len - i,
    {
        let prev: u32 = segments[i - 1].speaker;
        let cur: u32 = segments[i].speaker;
        let next: u32 = segments[i + 1].speaker;
        let ghost before = segments@;
        if prev == next && cur != prev {
            let mut s: SpeakerSegment = segments[i];
            s.speaker = prev;
            segments.set(i, s);
            proof {
                assert(ids_of(segments@) =~= smooth_step(ids_of(before), i as int));
            }
        } else {
            proof {
                assert(ids_of(segments@) =~= smooth_step(ids_of(before), i as int));
            }
        }
        i = i + 1;
    }
}

/// The profile store after clustering the first `n` feature vectors.
pub open spec fn run_profiles(fs: Seq<FeatureVector>, n: int) -> Seq<Seq<FeatureVector>>
    decreases n,
{
    if n <= 0 {
        Seq::empty()
    } else {
        assign_profiles(run_profiles(fs, n - 1), fs[n - 1])
    }
}

/// The speaker the clustering run assigns to the `i`-th feature vector.
pub open spec fn run_id(fs: Seq<FeatureVector>, i: int) -> int {
    assign_index(run_profiles(fs, i), fs[i])
}

/// The speakers of the whole clustering run, before smoothing.
pub open spec fn raw_ids(fs: Seq<FeatureVector>) -> Seq<u32> {
    Seq::new(fs.len(), |i: int| run_id(fs, i) as u32)
}

/// Clusters one run of segment features into speaker-attributed segments:
/// each feature is assigned incrementally, then the smoothing pass removes
/// single-segment flicker. Speaker identities never reach the cap of
/// eight.
pub fn cluster_features(
    features: &Vec<FeatureVector>,
    segment_times: &Vec<(u64, u64)>,
) -> (out: Vec<SpeakerSegment>)
    requires
        features@.len() == segment_times@.len(),
        features_wf(features@),
    ensures
        out@.len() == features@.len(),
        forall|i: int| 0 <= i < out@.len() ==> (#[trigger] out@[i]).start_ms
            == segment_times@[i].0 && out@[i].end_ms == segment_times@[i].1,
        ids_of(out@) == smooth_ids(raw_ids(features@)),
        forall|i: int| 0 <= i < out@.len() ==> (#[trigger] out@[i]).speaker < 8,
{
    let mut engine = ClusterEngine::new();
    let mut segs: Vec<SpeakerSegment> = Vec::new();
    let len: usize = features.len();
    let mut i: usize = 0;
    while i < len
        invariant
            0 <= i <= len,
            len == features@.len() == segment_times@.len(),
            features_wf(features@),
            engine.inv(),
            engine.view_profiles() == run_profiles(features@, i as int),
            segs@.len() == i,
            forall|j: int| 0 <= j < i ==> (#[trigger] segs@[j]).start_ms == segment_times@[j].0
                && segs@[j].end_ms == segment_times@[j].1,
            forall|j: int| 0 <= j < i ==> (#[trigger] segs@[j]).speaker == run_id(
                features@,
                j,
            ) as u32,
            forall|j: int| 0 <= j < i ==> (#[trigger] segs@[j]).speaker < 8,
        decreases len - i,
    {
        let f: FeatureVector = features[i];
        let id: usize = engine.assign(f);
        let t = segment_times[i];
        segs.push(SpeakerSegment { start_ms: t.0, end_ms: t.1, speaker: id as u32 });
        i = i + 1;
    }
    proof {
        assert(ids_of(segs@) =~= raw_ids(features@));
    }
    smooth_speaker_assignments(&mut segs);
    proof {
        lemma_smooth_preserves_bound(raw_ids(features@), 8);
        assert(forall|j: int| 0 <= j < segs@.len() ==> (#[trigger] segs@[j]).speaker == ids_of(
            segs@,
        )[j]);
    }
    segs
}

/// The profile count never exceeds the cap, whatever is assigned: the cap
/// rule refuses new profiles from then on.
pub proof fn lemma_speaker_cap(ps: Seq<Seq<FeatureVector>>, f: FeatureVector)
    requires
        ps.len() <= 8,
    ensures
        assign_profiles(ps, f).len() <= 8,
        0 <= assign_index(ps, f) < 8,
{
    if ps.len() >= 1 {
        crate::cluster::lemma_best_profile_in_range(ps, f, ps.len() as int);
    }
}

/// Two near-identical feature vectors (distance below the threshold, here
/// zero included) are assigned the same speaker when presented in turn to
/// a fresh engine.
pub proof fn lemma_close_features_share_speaker(f: FeatureVector, g: FeatureVector)
    requires
        distance_spec(g, f) < 500_000,
    ensures
        assign_index(Seq::empty(), f) == 0,
        assign_index(assign_profiles(Seq::empty(), f), g) == 0,
{
    let ps0 = Seq::<Seq<FeatureVector>>::empty();
    let ps1 = assign_profiles(ps0, f);
    assert(ps1 =~= seq![seq![f]]);
    assert(profile_dist(ps1[0], g) == distance_spec(f, g) / 1) by {
        assert(recent_start(1) == 0);
        assert(sum_dist(ps1[0], g, 0, 1) == distance_spec(f, g) + sum_dist(ps1[0], g, 1, 1));
    }
    assert(distance_spec(f, g) == distance_spec(g, f));
    assert(best_profile(ps1, g, 1) == 0);
    assert(!assign_is_new(ps1, g));
}

/// Two feature vectors farther apart than the threshold produce two
/// distinct speakers when presented in turn to a fresh engine with
/// capacity available.
pub proof fn lemma_distant_features_split_speakers(f: FeatureVector, g: FeatureVector)
    requires
        distance_spec(g, f) >= 500_000,
    ensures
        assign_index(Seq::empty(), f) == 0,
        assign_index(assign_profiles(Seq::empty(), f), g) == 1,
{
    let ps0 = Seq::<Seq<FeatureVector>>::empty();
    let ps1 = assign_profiles(ps0, f);
    assert(ps1 =~= seq![seq![f]]);
    assert(profile_dist(ps1[0], g) == distance_spec(f, g) / 1) by {
        assert(recent_start(1) == 0);
        assert(sum_dist(ps1[0], g, 0, 1) == distance_spec(f, g) + sum_dist(ps1[0], g, 1, 1));
    }
    assert(distance_spec(f, g) == distance_spec(g, f));
    assert(assign_is_new(ps1, g));
}


/// Diarization output: the speaker-attributed segments of one chunk.
#[derive(Clone)]
pub struct DiarizationResult {
    /// Non-overlapping segments, sorted by start time.
    pub segments: Vec<SpeakerSegment>,
}

/// Samples per fixed-size diarization segment: 1.5 seconds.
pub open spec fn sps_of(rate: int) -> int {
    rate * 3 / 2
}

/// Milliseconds that `i` samples span at the given rate.
pub open spec fn ms_of(i: int, rate: int) -> int {
    i * 1000 / rate
}

/// The samples of the `k`-th fixed-size segment.
pub open spec fn seg_samples(s: Seq<i32>, k: int, sps: int) -> Seq<i32> {
    s.subrange(k * sps, (k + 1) * sps)
}

/// A segment is silent when its mean squared amplitude is below the
/// silence threshold (one hundredth of full power).
pub open spec fn seg_silent(s: Seq<i32>, k: int, sps: int) -> bool {
    crate::preprocess::sum_squares(seg_samples(s, k, sps)) / sps < 10_000_000_000
}

/// All analysis-window feature vectors of a span of samples.
pub open spec fn segment_windows(sub: Seq<i32>, rate: int) -> Seq<FeatureVector> {
    Seq::new(
        crate::features::num_windows(
            sub.len() as int,
            crate::features::window_size_of(rate),
            crate::features::hop_size_of(rate),
        ) as nat,
        |j: int| crate::features::window_features_spec(
            sub.subrange(
                j * crate::features::hop_size_of(rate),
                j * crate::features::hop_size_of(rate) + crate::features::window_size_of(rate),
            ),
        ),
    )
}

/// The segment-level feature vector: the mean of its window vectors.
pub open spec fn seg_feature(s: Seq<i32>, rate: int, k: int) -> FeatureVector {
    crate::features::mean_feature_spec(segment_windows(seg_samples(s, k, sps_of(rate)), rate))
}

/// The features of the non-silent segments among the first `n`.
pub open spec fn kept_features(s: Seq<i32>, rate: int, n: int) -> Seq<FeatureVector>
    decreases n,
{
    if n <= 0 {
        Seq::empty()
    } else {
        let p = kept_features(s, rate, n - 1);
        if seg_silent(s, n - 1, sps_of(rate)) {
            p
        } else {
            p.push(seg_feature(s, rate, n - 1))
        }
    }
}

/// The millisecond spans of the non-silent segments among the first `n`.
pub open spec fn kept_times(s: Seq<i32>, rate: int, n: int) -> Seq<(u64, u64)>
    decreases n,
{
    if n <= 0 {
        Seq::empty()
    } else {
        let p = kept_times(s, rate, n - 1);
        if seg_silent(s, n - 1, sps_of(rate)) {
            p
        } else {
            p.push(
                (
                    ms_of((n - 1) * sps_of(rate), rate) as u64,
                    ms_of(n * sps_of(rate), rate) as u64,
                ),
            )
        }
    }
}

/// The kept spans come out sorted, non-overlapping and non-empty, all
/// ending within the first `n` segments.
proof fn lemma_kept_times_ordered(s: Seq<i32>, rate: int, n: int)
    requires
        rate >= 100,
        n >= 0,
        n * sps_of(rate) <= s.len(),
        s.len() <= 0x10_0000_0000_0000,
    ensures
        kept_times(s, rate, n).len() == kept_features(s, rate, n).len(),
        forall|i: int| 0 <= i < kept_times(s, rate, n).len() ==> (#[trigger] kept_times(
            s,
            rate,
            n,
        )[i]).0 < kept_times(s, rate, n)[i].1,
        forall|i: int| 0 <= i < kept_times(s, rate, n).len() ==> (#[trigger] kept_times(
            s,
            rate,
            n,
        )[i]).1 <= ms_of(n * sps_of(rate), rate),
        forall|i: int| 0 <= i < kept_times(s, rate, n).len() - 1 ==> (#[trigger] kept_times(
            s,
            rate,
            n,
        )[i]).1 <= kept_times(s, rate, n)[i + 1].0,
    decreases n,
{
    let sps = sps_of(rate);
    assert(sps >= rate) by {
        assert(rate * 3 >= rate * 2) by (nonlinear_arith)
            requires
                rate >= 0,
        ;
        vstd::arithmetic::div_mod::lemma_div_is_ordered(rate * 2, rate * 3, 2);
        assert(rate * 2 / 2 == rate) by (nonlinear_arith);
    }
    if n > 0 {
        assert((n - 1) * sps <= n * sps) by (nonlinear_arith)
            requires
                sps >= 0,
        ;
        assert(0 <= (n - 1) * sps) by (nonlinear_arith)
            requires
                n >= 1,
                sps >= 0,
        ;
        lemma_kept_times_ordered(s, rate, n - 1);
        if !seg_silent(s, n - 1, sps) {
            let a = (n - 1) * sps;
            let b = n * sps;
            assert(n * sps == (n - 1) * sps + sps) by (nonlinear_arith);
            // One segment spans at least one millisecond.
            assert(ms_of(a, rate) < ms_of(b, rate)) by {
                vstd::arithmetic::div_mod::lemma_hoist_over_denominator(
                    a * 1000,
                    1,
                    rate as nat,
                );
                assert(b * 1000 >= a * 1000 + rate) by (nonlinear_arith)
                    requires
                        b == a + sps,
                        sps >= rate,
                        rate >= 100,
                ;
                vstd::arithmetic::div_mod::lemma_div_is_ordered(
                    a * 1000 + rate,
                    b * 1000,
                    rate,
                );
            }
            assert(ms_of(b, rate) >= 0) by {
                vstd::arithmetic::div_mod::lemma_div_pos_is_pos(b * 1000, rate);
                assert(b * 1000 >= 0) by (nonlinear_arith)
                    requires
                        b >= 0,
                ;
            }
            // The spans fit in 64-bit milliseconds.
            lemma_ms_fits(a, rate);
            lemma_ms_fits(b, rate);
            assert(ms_of((n - 1) * sps, rate) <= ms_of(n * sps, rate)) by {
                assert(a * 1000 <= b * 1000) by (nonlinear_arith)
                    requires
                        a <= b,
                ;
                vstd::arithmetic::div_mod::lemma_div_is_ordered(a * 1000, b * 1000, rate);
            }
        } else {
            assert(ms_of((n - 1) * sps, rate) <= ms_of(n * sps, rate)) by {
                assert((n - 1) * sps * 1000 <= n * sps * 1000) by (nonlinear_arith)
                    requires
                        sps >= 0,
                        n >= 1,
                ;
                vstd::arithmetic::div_mod::lemma_div_is_ordered(
                    (n - 1) * sps * 1000,
                    n * sps * 1000,
                    rate,
                );
            }
        }
    }
}

/// The whole diarization output as one sequence: the kept spans, with the
/// smoothed speaker assignments.
pub open spec fn diarized_segments_spec(s: Seq<i32>, rate: int) -> Seq<SpeakerSegment> {
    let n = s.len() as int / sps_of(rate);
    let kf = kept_features(s, rate, n);
    let kt = kept_times(s, rate, n);
    let ids = smooth_ids(raw_ids(kf));
    Seq::new(
        kf.len(),
        |i: int| SpeakerSegment { start_ms: kt[i].0, end_ms: kt[i].1, speaker: ids[i] },
    )
}

/// Mean squared amplitude of a span of samples.
fn mean_square(w: &[i32]) -> (m: u128)
    requires
        samples_in_range(w@),
        w@.len() >= 1,
    ensures
        m == crate::preprocess::sum_squares(w@) / (w@.len() as int),
{
    let len: usize = w.len();
    let mut sum: u128 = 0;
    let mut i: usize = 0;
    proof {
        assert(w@.take(0) =~= Seq::<i32>::empty());
    }
    while i < len
        invariant
            0 <= i <= len,
            len == w@.len(),
            samples_in_range(w@),
            sum == crate::preprocess::sum_squares(w@.take(i as int)),
            sum <= i * 1_000_000_000_000,
        decreases len - i,
    {
        let v: i64 = w[i] as i64;
        proof {
            assert(w@.take(i + 1).drop_last() =~= w@.take(i as int));
            assert(0 <= (w@[i as int] as int) * (w@[i as int] as int) <= 1_000_000_000_000)
                by (nonlinear_arith)
                requires
                    -1_000_000 <= w@[i as int] <= 1_000_000,
            ;
            assert((i + 1) * 1_000_000_000_000 == i * 1_000_000_000_000 + 1_000_000_000_000)
                by (nonlinear_arith);
            assert(i * 1_000_000_000_000 <= 0xffff_ffff_ffff_ffff * 1_000_000_000_000)
                by (nonlinear_arith)
                requires
                    i <= 0xffff_ffff_ffff_ffff,
            ;
        }
        sum = sum + ((v * v) as u128);
        i = i + 1;
    }
    proof {
        assert(w@.take(len as int) =~= w@);
    }
    sum / (len as u128)
}

/// Splits a chunk into fixed 1.5-second segments, discards the silent
/// ones, extracts each kept segment's mean feature vector, and clusters
/// them into speaker-attributed segments. The output segments are sorted
/// by start time, non-overlapping, and attributed to at most eight
/// speakers.
pub fn diarize(samples: &Vec<i32>, sample_rate: u32) -> (r: DiarizationResult)
    requires
        sample_rate >= 100,
        samples_in_range(samples@),
        samples@.len() <= 0x10_0000_0000_0000,
        samples@.len() + 0x800_0000 < usize::MAX,
        sps_of(sample_rate as int) <= usize::MAX,
    ensures
        ({
            let n = samples@.len() as int / sps_of(sample_rate as int);
            let kf = kept_features(samples@, sample_rate as int, n);
            let kt = kept_times(samples@, sample_rate as int, n);
            &&& r.segments@.len() == kf.len()
            &&& forall|i: int| 0 <= i < r.segments@.len() ==> (#[trigger] r.segments@[i]).start_ms
                == kt[i].0 && r.segments@[i].end_ms == kt[i].1
            &&& ids_of(r.segments@) == smooth_ids(raw_ids(kf))
            &&& forall|i: int| 0 <= i < r.segments@.len() ==> (#[trigger] r.segments@[i]).speaker
                < 8
            &&& forall|i: int| 0 <= i < r.segments@.len() ==> (#[trigger] r.segments@[i]).start_ms
                < r.segments@[i].end_ms
            &&& forall|i: int| 0 <= i < r.segments@.len() - 1 ==> (#[trigger] r.segments@[i]).end_ms
                <= r.segments@[i + 1].start_ms
            &&& r.segments@ == diarized_segments_spec(samples@, sample_rate as int)
        }),
{
    let rate64: u64 = sample_rate as u64;
    let sps: usize = (rate64 * 3 / 2) as usize;
    let len: usize = samples.len();
    let ghost si: int = sps_of(sample_rate as int);
    let ghost ratei: int = sample_rate as int;
    proof {
        assert(si <= 0x1_8000_0000) by {
            assert(ratei * 3 <= 0xffff_ffff * 3) by (nonlinear_arith)
                requires
                    ratei <= 0xffff_ffff,
            ;
            vstd::arithmetic::div_mod::lemma_div_is_ordered(ratei * 3, 0xffff_ffffint * 3, 2);
        }
        assert(si >= rate64) by {
            assert(ratei * 3 >= ratei * 2) by (nonlinear_arith)
                requires
                    ratei >= 0,
            ;
            vstd::arithmetic::div_mod::lemma_div_is_ordered(ratei * 2, ratei * 3, 2);
            assert(ratei * 2 / 2 == ratei) by (nonlinear_arith);
        }
    }

    let mut feats: Vec<FeatureVector> = Vec::new();
    let mut times: Vec<(u64, u64)> = Vec::new();
    let mut k: usize = 0;
    let mut i: usize = 0;
    while i < len && sps <= len - i
        invariant
            len == samples@.len() <= 0x10_0000_0000_0000,
            samples_in_range(samples@),
            ratei == sample_rate as int,
            rate64 == sample_rate as u64,
            si == sps,
            si == sps_of(ratei),
            100 <= ratei <= 0xffff_ffff,
            ratei <= si <= 0x1_8000_0000,
            len + 0x800_0000 < usize::MAX,
            i == k * si,
            i <= len,
            k <= i,
            feats@ == kept_features(samples@, ratei, k as int),
            times@ == kept_times(samples@, ratei, k as int),
            features_wf(feats@),
        decreases len - i,
    {
        let seg = vstd::slice::slice_subrange(samples.as_slice(), i, i + sps);
        proof {
            assert(seg@ == seg_samples(samples@, k as int, si)) by {
                assert((k as int + 1) * si == k * si + si) by (nonlinear_arith);
            }
            assert(samples_in_range(seg@));
        }
        let ms_q: u128 = mean_square(seg);
        if ms_q >= 10_000_000_000 {
            // A non-silent segment: keep its span and mean feature.
            let seg_vec: Vec<i32> = vstd::slice::slice_to_vec(seg);
            proof {
                assert(seg_vec@.len() + 0x800_0000 < usize::MAX);
                // The 1.5 s segment is at least one analysis window long.
                assert(crate::features::window_size_of(ratei) <= ratei) by {
                    assert(ratei * 25 <= ratei * 1000) by (nonlinear_arith)
                        requires
                            ratei >= 0,
                    ;
                    vstd::arithmetic::div_mod::lemma_div_is_ordered(
                        ratei * 25,
                        ratei * 1000,
                        1000,
                    );
                    assert(ratei * 1000 / 1000 == ratei) by (nonlinear_arith);
                }
            }
            let windows = crate::features::extract_features(&seg_vec, sample_rate);
            proof {
                assert(windows@ =~= segment_windows(seg_vec@, ratei));
                assert(windows@.len() >= 1) by {
                    assert(crate::features::num_windows(
                        seg_vec@.len() as int,
                        crate::features::window_size_of(ratei),
                        crate::features::hop_size_of(ratei),
                    ) >= 1) by {
                        vstd::arithmetic::div_mod::lemma_div_pos_is_pos(
                            seg_vec@.len() - crate::features::window_size_of(ratei),
                            crate::features::hop_size_of(ratei),
                        );
                    }
                }
            }
            let mf = crate::features::mean_feature(&windows);
            let start_ms: u64 = ((i as u64 as u128) * 1000 / (rate64 as u128)) as u64;
            let end_ms: u64 = (((i + sps) as u64 as u128) * 1000 / (rate64 as u128)) as u64;
            proof {
                lemma_ms_fits(i as int, ratei);
                lemma_ms_fits((i + sps) as int, ratei);
                assert(mf == seg_feature(samples@, ratei, k as int));
                assert(kept_features(samples@, ratei, k + 1) == feats@.push(mf));
                assert((k as int + 1) * si == k * si + si) by (nonlinear_arith);
                assert(kept_times(samples@, ratei, k + 1) == times@.push(
                    (start_ms, end_ms),
                ));
            }
            feats.push(mf);
            times.push((start_ms, end_ms));
        } else {
            proof {
                assert(kept_features(samples@, ratei, k + 1) == feats@);
                assert(kept_times(samples@, ratei, k + 1) == times@);
            }
        }
        k = k + 1;
        i = i + sps;
        proof {
            assert((k as int) * si == (k as int - 1) * si + si) by (nonlinear_arith);
            if i > len {
                assert(i - sps + sps <= len);
                assert(false);
            }
        }
    }
    proof {
        // The loop stops exactly at the last whole segment.
        let n = samples@.len() as int / si;
        assert(k * si <= len);
        assert((k as int + 1) * si == k as int * si + si) by (nonlinear_arith);
        vstd::arithmetic::div_mod::lemma_div_is_ordered(k as int * si, len as int, si);
        assert(k as int * si / si == k as int) by (nonlinear_arith)
            requires
                si >= 1,
        ;
        vstd::arithmetic::div_mod::lemma_fundamental_div_mod(len as int, si);
        assert((len as int) / si < k + 1) by (nonlinear_arith)
            requires
                si * (len as int / si) + (len as int) % si == len as int,
                0 <= (len as int) % si < si,
                (len as int) < (k as int + 1) * si,
                si >= 1,
        ;
        assert(k as int == n);
        lemma_kept_times_ordered(samples@, ratei, n);
    }
    let segments = cluster_features(&feats, &times);
    proof {
        assert(forall|x: int| 0 <= x < segments@.len() ==> (#[trigger] segments@[x]).speaker
            == ids_of(segments@)[x]);
        assert(segments@ =~= diarized_segments_spec(samples@, ratei));
    }
    DiarizationResult { segments }
}

/// Millisecond positions within the allowed chunk length fit in 64 bits.
proof fn lemma_ms_fits(i: int, rate: int)
    requires
        0 <= i <= 0x20_0000_0000_0000,
        rate >= 100,
    ensures
        0 <= i * 1000 / rate < 0x1_0000_0000_0000_0000,
        i * 1000 / rate == ms_of(i, rate),
{
    vstd::arithmetic::div_mod::lemma_div_pos_is_pos(i * 1000, rate);
    assert(i * 1000 >= 0) by (nonlinear_arith)
        requires
            i >= 0,
    ;
    assert(i * 1000 <= 0x20_0000_0000_0000 * 1000) by (nonlinear_arith)
        requires
            i <= 0x20_0000_0000_0000,
    ;
    vstd::arithmetic::div_mod::lemma_div_is_ordered(i * 1000, 0x20_0000_0000_0000int * 1000, rate);
    vstd::arithmetic::div_mod::lemma_div_is_ordered(
        0x20_0000_0000_0000int * 1000,
        0x20_0000_0000_0000int * 1000 * 100,
        100,
    );
    assert(0x20_0000_0000_0000 * 1000 <= 0x20_0000_0000_0000 * 1000 * 100) by (nonlinear_arith);
    assert(0x20_0000_0000_0000 * 1000 * 100 / 100 == 0x20_0000_0000_0000 * 1000)
        by (nonlinear_arith);
    vstd::arithmetic::div_mod::lemma_div_is_ordered(i * 1000, i * 1000, rate);
    assert(i * 1000 / rate <= i * 1000 / 100) by {
        lemma_div_denominator_ordered(i * 1000, 100, rate);
    }
}

/// A larger positive denominator gives a quotient no larger.
proof fn lemma_div_denominator_ordered(x: int, small: int, big: int)
    requires
        x >= 0,
        0 < small <= big,
    ensures
        x / big <= x / small,
{
    vstd::arithmetic::div_mod::lemma_fundamental_div_mod(x, big);
    vstd::arithmetic::div_mod::lemma_fundamental_div_mod(x, small);
    assert(x / big <= x / small) by (nonlinear_arith)
        requires
            big * (x / big) + x % big == x,
            small * (x / small) + x % small == x,
            0 <= x % big < big,
            0 <= x % small < small,
            0 < small <= big,
            x >= 0,
    ;
}

} // verus!
