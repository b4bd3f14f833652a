//! Online incremental speaker clustering.
//!
//! Each speaker profile is the history of feature vectors assigned to it.
//! A new segment is compared against the mean distance to the most recent
//! vectors of every profile (a recency bias that lets a profile drift with
//! its speaker); it joins the closest profile when that distance is below
//! the new-speaker threshold, opens a new profile while fewer than the cap
//! exist, and is otherwise forced into the closest profile.

use vstd::prelude::*;
use crate::features::{FeatureVector, feature_wf, features_wf};
use crate::math::{isqrt, isqrt_spec, lemma_isqrt_lt, lemma_div_le_bound};

verus! {

/// Mean distance below which a segment joins an existing profile.
pub const NEW_SPEAKER_THRESHOLD: u64 = 500_000;

/// Hard cap on distinct speaker profiles, a display constraint.
pub const SPEAKER_CAP: usize = 8;

/// How many of a profile's most recent vectors the comparison uses.
pub const STABILITY_COUNT: usize = 3;

/// Magnitude of the difference of two integers.
pub open spec fn abs_diff(a: int, b: int) -> int {
    if a >= b {
        a - b
    } else {
        b - a
    }
}

/// Weighted Euclidean distance between two feature vectors: energy counts
/// six parts, zero-crossing rate three, the centroid proxy one, out of
/// ten.
pub open spec fn distance_spec(a: FeatureVector, b: FeatureVector) -> int {
    let de = abs_diff(a.energy as int, b.energy as int);
    let dz = abs_diff(a.zcr as int, b.zcr as int);
    let dc = abs_diff(a.centroid as int, b.centroid as int);
    isqrt_spec((((6 * de * de + 3 * dz * dz + dc * dc) / 10) as nat)) as int
}

/// Distances between well-formed vectors stay below `2^34`.
pub proof fn lemma_distance_bound(a: FeatureVector, b: FeatureVector)
    requires
        feature_wf(a),
        feature_wf(b),
    ensures
        0 <= distance_spec(a, b) < 0x4_0000_0000,
{
    let de = abs_diff(a.energy as int, b.energy as int);
    let dz = abs_diff(a.zcr as int, b.zcr as int);
    let dc = abs_diff(a.centroid as int, b.centroid as int);
    assert(0 <= 6 * de * de + 3 * dz * dz + dc * dc
        <= 10 * (0x4_0000_0000 * 0x4_0000_0000 - 1)) by (nonlinear_arith)
        requires
            0 <= de <= 0x4_0000_0000,
            0 <= dz <= 1_000_000,
            0 <= dc <= 1_000_000,
    ;
    lemma_div_le_bound(
        6 * de * de + 3 * dz * dz + dc * dc,
        0x4_0000_0000 * 0x4_0000_0000 - 1,
        10,
    );
    lemma_isqrt_lt(
        ((6 * de * de + 3 * dz * dz + dc * dc) / 10) as nat,
        0x4_0000_0000,
    );
}

/// Computes the weighted distance between two feature vectors.
pub fn feature_distance(a: &FeatureVector, b: &FeatureVector) -> (d: u64)
    requires
        feature_wf(*a),
        feature_wf(*b),
    ensures
        d == distance_spec(*a, *b),
        d < 0x4_0000_0000,
{
    let de: u64 = if a.energy >= b.energy {
        a.energy - b.energy
    } else {
        b.energy - a.energy
    };
    let dz: u64 = if a.zcr >= b.zcr { a.zcr - b.zcr } else { b.zcr - a.zcr };
    let dc: u64 = if a.centroid >= b.centroid {
        a.centroid - b.centroid
    } else {
        b.centroid - a.centroid
    };
    proof {
        assert(6 * (de as int) * (de as int) + 3 * (dz as int) * (dz as int) + (dc as int) * (
        dc as int) < 10 * (0x4_0000_0000 * 0x4_0000_0000)) by (nonlinear_arith)
            requires
                0 <= de <= 0x4_0000_0000,
                0 <= dz <= 1_000_000,
                0 <= dc <= 1_000_000,
        ;
    }
    let weighted: u128 = 6 * (de as u128) * (de as u128) + 3 * (dz as u128) * (dz as u128) + (
    dc as u128) * (dc as u128);
    proof {
        lemma_distance_bound(*a, *b);
    }
    let d: u128 = isqrt(weighted / 10);
    d as u64
}

/// Sum of the distances from `f` to the history entries in `[from, to)`.
pub open spec fn sum_dist(hist: Seq<FeatureVector>, f: FeatureVector, from: int, to: int) -> int
    decreases to - from,
    when from >= 0
{
    if from >= to {
        0
    } else {
        distance_spec(hist[from], f) + sum_dist(hist, f, from + 1, to)
    }
}

/// Extending the summed range by one entry on the right adds its distance.
pub proof fn lemma_sum_dist_snoc(hist: Seq<FeatureVector>, f: FeatureVector, from: int, to: int)
    requires
        0 <= from <= to,
    ensures
        sum_dist(hist, f, from, to + 1) == sum_dist(hist, f, from, to) + distance_spec(
            hist[to],
            f,
        ),
    decreases to - from,
{
    if from < to {
        lemma_sum_dist_snoc(hist, f, from + 1, to);
    } else {
        assert(sum_dist(hist, f, from + 1, to + 1) == 0);
    }
}

/// Where the recency window of a history of the given length begins.
pub open spec fn recent_start(len: int) -> int {
    if len > 3 {
        len - 3
    } else {
        0
    }
}

/// Mean distance from `f` to the most recent (up to three) entries of the
/// profile history; meaningful only for a non-empty history.
pub open spec fn profile_dist(hist: Seq<FeatureVector>, f: FeatureVector) -> int {
    sum_dist(hist, f, recent_start(hist.len() as int), hist.len() as int) / (hist.len() as int
        - recent_start(hist.len() as int))
}

/// Sums over the recency window of a well-formed history are bounded, and
/// so is the mean.
pub proof fn lemma_profile_dist_bound(hist: Seq<FeatureVector>, f: FeatureVector)
    requires
        hist.len() >= 1,
        features_wf(hist),
        feature_wf(f),
    ensures
        0 <= profile_dist(hist, f) < 0x4_0000_0000,
{
    let n = hist.len() as int;
    let rs = recent_start(n);
    lemma_sum_dist_wf_bound(hist, f, rs, n);
    lemma_div_le_bound(sum_dist(hist, f, rs, n), 0x4_0000_0000 - 1, n - rs);
    assert((n - rs) * (0x4_0000_0000 - 1) + (n - rs - 1) < (n - rs) * 0x4_0000_0000)
        by (nonlinear_arith)
        requires
            1 <= n - rs,
    ;
}

/// Each summand of a well-formed history's distance sum is bounded.
pub proof fn lemma_sum_dist_wf_bound(
    hist: Seq<FeatureVector>,
    f: FeatureVector,
    from: int,
    to: int,
)
    requires
        0 <= from <= to <= hist.len(),
        features_wf(hist),
        feature_wf(f),
    ensures
        0 <= sum_dist(hist, f, from, to) <= (to - from) * (0x4_0000_0000 - 1),
    decreases to - from,
{
    if from < to {
        lemma_sum_dist_wf_bound(hist, f, from + 1, to);
        lemma_distance_bound(hist[from], f);
        assert((to - from) * (0x4_0000_0000 - 1) == (to - from - 1) * (0x4_0000_0000 - 1) + (
        0x4_0000_0000 - 1)) by (nonlinear_arith);
    } else {
        assert((to - from) * (0x4_0000_0000 - 1) >= 0) by (nonlinear_arith)
            requires
                to == from,
        ;
    }
}

/// Computes the mean distance from `f` to the most recent (up to three)
/// entries of the profile history.
pub fn profile_mean_dist(hist: &Vec<FeatureVector>, f: &FeatureVector) -> (d: u64)
    requires
        hist@.len() >= 1,
        features_wf(hist@),
        feature_wf(*f),
    ensures
        d == profile_dist(hist@, *f),
        d < 0x4_0000_0000,
{
    let len: usize = hist.len();
    let start: usize = if len > STABILITY_COUNT { len - STABILITY_COUNT } else { 0 };
    let mut total: u64 = 0;
    let mut j: usize = start;
    while j < len
        invariant
            start <= j <= len,
            len == hist@.len(),
            start == recent_start(len as int),
            features_wf(hist@),
            feature_wf(*f),
            total == sum_dist(hist@, *f, start as int, j as int),
            total <= (j - start) * 0x4_0000_0000,
        decreases len - j,
    {
        let d = feature_distance(&hist[j], f);
        proof {
            lemma_sum_dist_snoc(hist@, *f, start as int, j as int);
            assert((j + 1 - start) * 0x4_0000_0000 == (j - start) * 0x4_0000_0000 + 0x4_0000_0000)
                by (nonlinear_arith);
            assert((j - start) * 0x4_0000_0000 <= 3 * 0x4_0000_0000) by (nonlinear_arith)
                requires
                    0 <= j - start <= 3,
            ;
        }
        total = total + d;
        j = j + 1;
    }
    proof {
        lemma_profile_dist_bound(hist@, *f);
        lemma_sum_dist_wf_bound(hist@, *f, start as int, len as int);
        lemma_div_le_bound(total as int, 0x4_0000_0000 - 1, (len - start) as int);
        assert((len - start) as int * (0x4_0000_0000 - 1) >= total || total <= (len - start)
            * (0x4_0000_0000 - 1));
    }
    total / ((len - start) as u64)
}

/// The profile a new vector is closest to, among the first `n`: the lowest
/// index attaining the minimum mean distance.
pub open spec fn best_profile(ps: Seq<Seq<FeatureVector>>, f: FeatureVector, n: int) -> int
    decreases n,
{
    if n <= 1 {
        0
    } else {
        let b = best_profile(ps, f, n - 1);
        if profile_dist(ps[n - 1], f) < profile_dist(ps[b], f) {
            n - 1
        } else {
            b
        }
    }
}

/// The best index over a non-empty prefix is inside the prefix.
pub proof fn lemma_best_profile_in_range(ps: Seq<Seq<FeatureVector>>, f: FeatureVector, n: int)
    requires
        1 <= n,
    ensures
        0 <= best_profile(ps, f, n) < n,
    decreases n,
{
    if n > 1 {
        lemma_best_profile_in_range(ps, f, n - 1);
    }
}

/// Whether a new vector opens a new profile: its mean distance to every
/// existing profile reaches the threshold and the cap is not yet reached.
pub open spec fn assign_is_new(ps: Seq<Seq<FeatureVector>>, f: FeatureVector) -> bool {
    ps.len() == 0 || (profile_dist(ps[best_profile(ps, f, ps.len() as int)], f) >= 500_000
        && ps.len() < 8)
}

/// The profile index a new vector is assigned: the closest profile when
/// within threshold or when the cap forces it, a fresh index otherwise.
pub open spec fn assign_index(ps: Seq<Seq<FeatureVector>>, f: FeatureVector) -> int {
    if ps.len() == 0 {
        0
    } else if assign_is_new(ps, f) {
        ps.len() as int
    } else {
        best_profile(ps, f, ps.len() as int)
    }
}

/// The profile store after assigning `f`: the vector is appended to the
/// history of its profile, a fresh one when it opens a new speaker.
pub open spec fn assign_profiles(
    ps: Seq<Seq<FeatureVector>>,
    f: FeatureVector,
) -> Seq<Seq<FeatureVector>> {
    if assign_is_new(ps, f) {
        ps.push(seq![f])
    } else {
        let b = best_profile(ps, f, ps.len() as int);
        ps.update(b, ps[b].push(f))
    }
}

/// The speaker clustering engine: one profile history per speaker so far.
pub struct ClusterEngine {
    profiles: Vec<Vec<FeatureVector>>,
}

impl ClusterEngine {
    /// The profile histories as sequences.
    pub closed spec fn view_profiles(&self) -> Seq<Seq<FeatureVector>> {
        self.profiles@.map_values(|p: Vec<FeatureVector>| p@)
    }

    /// At most the cap of profiles, every history non-empty and well
    /// formed.
    pub open spec fn inv(&self) -> bool {
        &&& self.view_profiles().len() <= 8
        &&& forall|i: int| 0 <= i < self.view_profiles().len() ==> (
        #[trigger] self.view_profiles()[i]).len() >= 1
        &&& forall|i: int| 0 <= i < self.view_profiles().len() ==> features_wf(
            #[trigger] self.view_profiles()[i],
        )
    }

    /// How many speakers have been identified so far.
    pub fn speaker_count(&self) -> (n: usize)
        ensures
            n == self.view_profiles().len(),
    {
        self.profiles.len()
    }

    /// A fresh engine with no speakers.
    pub fn new() -> (e: Self)
        ensures
            e.inv(),
            e.view_profiles() == Seq::<Seq<FeatureVector>>::empty(),
    {
        let e = ClusterEngine { profiles: Vec::new() };
        proof {
            assert(e.view_profiles() =~= Seq::<Seq<FeatureVector>>::empty());
        }
        e
    }

    /// Assigns one segment-level feature vector to a speaker and appends it
    /// to that speaker's history, following the threshold-and-cap rule.
    pub fn assign(&mut self, f: FeatureVector) -> (id: usize)
        requires
            old(self).inv(),
            feature_wf(f),
        ensures
            final(self).inv(),
            id == assign_index(old(self).view_profiles(), f),
            final(self).view_profiles() == assign_profiles(old(self).view_profiles(), f),
            id < 8,
            final(self).view_profiles().len() <= 8,
    {
        let ghost ops = old(self).view_profiles();
        let n: usize = self.profiles.len();
        proof {
            assert(ops.len() == n);
        }
        if n == 0 {
            let mut hist: Vec<FeatureVector> = Vec::new();
            hist.push(f);
            proof {
                assert(hist@ =~= seq![f]);
            }
            self.profiles.push(hist);
            proof {
                assert(self.view_profiles() =~= assign_profiles(ops, f));
            }
            return 0;
        }

        // Find the closest existing profile: the first index attaining the
        // minimum mean distance over the recency window.
        proof {
            assert(ops[0] == self.profiles@[0]@);
        }
        let mut best: usize = 0;
        let mut best_dist: u64 = profile_mean_dist(&self.profiles[0], &f);
        let mut i: usize = 1;
        while i < n
            invariant
                1 <= i <= n,
                n == ops.len(),
                ops == self.view_profiles(),
                self.inv(),
                feature_wf(f),
                best == best_profile(ops, f, i as int),
                0 <= best < i,
                best_dist == profile_dist(ops[best as int], f),
                best_dist < 0x4_0000_0000,
            decreases n - i,
        {
            proof {
                assert(ops[i as int] == self.profiles@[i as int]@);
            }
            let d: u64 = profile_mean_dist(&self.profiles[i], &f);
            if d < best_dist {
                best = i;
                best_dist = d;
            }
            i = i + 1;
        }

        if best_dist < NEW_SPEAKER_THRESHOLD || n >= SPEAKER_CAP {
            // Join the closest profile, by rule or because the cap forces
            // every further segment into a known speaker.
            let mut hist: Vec<FeatureVector> = Vec::new();
            self.profiles.set_and_swap(best, &mut hist);
            hist.push(f);
            self.profiles.set_and_swap(best, &mut hist);
            proof {
                assert(self.view_profiles() =~= assign_profiles(ops, f));
            }
            best
        } else {
            let mut hist: Vec<FeatureVector> = Vec::new();
            hist.push(f);
            proof {
                assert(hist@ =~= seq![f]);
            }
            self.profiles.push(hist);
            proof {
                assert(self.view_profiles() =~= assign_profiles(ops, f));
            }
            n
        }
    }
}

} // verus!
