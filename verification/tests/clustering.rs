use disrust_captioner::cluster::{feature_distance, ClusterEngine};
use disrust_captioner::embedding::embedding_same_speaker;
use disrust_captioner::identity::SpeakerManager;
use disrust_captioner::diarize::{
    cluster_features, diarize, smooth_speaker_assignments, SpeakerSegment,
};
use disrust_captioner::features::{mean_feature, window_features, FeatureVector};

fn feat(energy: u64, zcr: u64, centroid: u64) -> FeatureVector {
    FeatureVector { energy, zcr, centroid }
}

#[test]
fn window_feature_values_are_exact() {
    let w: Vec<i32> = vec![100_000, 100_000, -100_000, -100_000];
    let f = window_features(&w);
    assert_eq!(f.energy, 200_000);
    assert_eq!(f.zcr, 250_000);
    assert_eq!(f.centroid, 375_000);
}

#[test]
fn mean_feature_averages_componentwise() {
    let fs = vec![feat(100, 40, 10), feat(300, 60, 30)];
    let m = mean_feature(&fs);
    assert_eq!(m.energy, 200);
    assert_eq!(m.zcr, 50);
    assert_eq!(m.centroid, 20);
}

#[test]
fn weighted_distance_is_exact() {
    let a = feat(1_000_000, 0, 0);
    let b = feat(0, 0, 0);
    assert_eq!(feature_distance(&a, &b), 774_596);
    assert_eq!(feature_distance(&a, &a), 0);
}

#[test]
fn near_identical_features_share_a_speaker() {
    let mut engine = ClusterEngine::new();
    let f = feat(2_000_000, 100_000, 300_000);
    let g = feat(2_000_100, 100_000, 300_000);
    let first = engine.assign(f);
    let second = engine.assign(g);
    assert_eq!(first, second);
    assert_eq!(engine.speaker_count(), 1);
}

#[test]
fn distant_features_get_distinct_speakers() {
    let mut engine = ClusterEngine::new();
    let f = feat(1_000_000, 0, 0);
    let g = feat(9_000_000, 0, 0);
    let first = engine.assign(f);
    let second = engine.assign(g);
    assert_ne!(first, second);
    assert_eq!(engine.speaker_count(), 2);
}

#[test]
fn speaker_count_never_exceeds_the_cap() {
    let mut engine = ClusterEngine::new();
    // Twenty acoustically distinct profiles, far beyond any threshold.
    for k in 0..20u64 {
        let id = engine.assign(feat(k * 10_000_000, 0, 0));
        assert!(id < 8);
    }
    assert!(engine.speaker_count() <= 8);
}

#[test]
fn smoothing_fixes_single_segment_flicker() {
    // Speakers [A, B, A]: the lone B between two A segments is flicker.
    let mut segs = vec![
        SpeakerSegment { start_ms: 0, end_ms: 1000, speaker: 0 },
        SpeakerSegment { start_ms: 1000, end_ms: 2000, speaker: 1 },
        SpeakerSegment { start_ms: 2000, end_ms: 3000, speaker: 0 },
    ];
    smooth_speaker_assignments(&mut segs);
    let speakers: Vec<u32> = segs.iter().map(|s| s.speaker).collect();
    assert_eq!(speakers, vec![0, 0, 0]);
    assert_eq!(segs[1].start_ms, 1000);
    assert_eq!(segs[1].end_ms, 2000);
}

#[test]
fn smoothing_is_idempotent_on_a_mixed_run() {
    let speakers: Vec<u32> = vec![0, 1, 0, 1, 0, 2, 2, 1, 2, 2];
    let mut once: Vec<SpeakerSegment> = speakers
        .iter()
        .enumerate()
        .map(|(i, &sp)| SpeakerSegment {
            start_ms: i as u64 * 100,
            end_ms: (i as u64 + 1) * 100,
            speaker: sp,
        })
        .collect();
    smooth_speaker_assignments(&mut once);
    let mut twice = once.clone();
    smooth_speaker_assignments(&mut twice);
    let a: Vec<u32> = once.iter().map(|s| s.speaker).collect();
    let b: Vec<u32> = twice.iter().map(|s| s.speaker).collect();
    assert_eq!(a, b);
}

#[test]
fn smoothing_leaves_short_runs_alone() {
    let mut segs = vec![
        SpeakerSegment { start_ms: 0, end_ms: 10, speaker: 3 },
        SpeakerSegment { start_ms: 10, end_ms: 20, speaker: 5 },
    ];
    smooth_speaker_assignments(&mut segs);
    assert_eq!(segs[0].speaker, 3);
    assert_eq!(segs[1].speaker, 5);
}

#[test]
fn cluster_features_carries_times_through() {
    let features = vec![feat(2_000_000, 0, 0), feat(2_000_000, 0, 0)];
    let times = vec![(0u64, 1500u64), (1500u64, 3000u64)];
    let segs = cluster_features(&features, &times);
    assert_eq!(segs.len(), 2);
    assert_eq!(segs[0].start_ms, 0);
    assert_eq!(segs[0].end_ms, 1500);
    assert_eq!(segs[1].start_ms, 1500);
    assert_eq!(segs[1].end_ms, 3000);
    assert_eq!(segs[0].speaker, segs[1].speaker);
}

#[test]
fn two_distinct_halves_give_two_ordered_segments() {
    // Three seconds at 16 kHz: a quiet slow square wave, then a loud fast
    // one. Each 1.5 s diarization segment is acoustically uniform, the
    // two differ far beyond the new-speaker threshold.
    let rate = 16_000u32;
    let mut samples: Vec<i32> = Vec::new();
    for i in 0..24_000usize {
        let v = if (i / 50) % 2 == 0 { 300_000 } else { -300_000 };
        samples.push(v);
    }
    for i in 0..24_000usize {
        let v = if (i / 2) % 2 == 0 { 600_000 } else { -600_000 };
        samples.push(v);
    }
    let result = diarize(&samples, rate);
    assert_eq!(result.segments.len(), 2);
    let a = &result.segments[0];
    let b = &result.segments[1];
    assert_eq!(a.start_ms, 0);
    assert_eq!(a.end_ms, 1_500);
    assert_eq!(b.start_ms, 1_500);
    assert_eq!(b.end_ms, 3_000);
    assert!(a.start_ms < a.end_ms && b.start_ms < b.end_ms);
    assert!(a.end_ms <= b.start_ms);
    assert_ne!(a.speaker, b.speaker);
}

#[test]
fn silent_chunk_diarizes_to_nothing() {
    let samples: Vec<i32> = vec![0; 48_000];
    let result = diarize(&samples, 16_000);
    assert!(result.segments.is_empty());
}

#[test]
fn identify_or_create_labels_and_reuses_speakers() {
    let mut m = SpeakerManager::new();
    let f = feat(2_000_000, 100_000, 300_000);
    let g = feat(9_000_000, 0, 0);
    assert_eq!(m.identify_or_create(f), "Speaker_0");
    assert_eq!(m.identify_or_create(g), "Speaker_1");
    assert_eq!(m.identify_or_create(f), "Speaker_0");
    m.rename_speaker("Speaker_0", "Erin");
    assert_eq!(m.identify_or_create(f), "Erin");
}

#[test]
fn identical_embeddings_match_by_cosine() {
    let a: Vec<i64> = vec![1_000_000, 0];
    assert!(embedding_same_speaker(&a, &a));
}

#[test]
fn orthogonal_embeddings_do_not_match() {
    let a: Vec<i64> = vec![1_000_000, 0];
    let b: Vec<i64> = vec![0, 1_000_000];
    assert!(!embedding_same_speaker(&a, &b));
}

#[test]
fn opposed_embeddings_do_not_match() {
    let a: Vec<i64> = vec![1_000_000, 0];
    let b: Vec<i64> = vec![-1_000_000, 0];
    assert!(!embedding_same_speaker(&a, &b));
}

#[test]
fn vanishing_embeddings_never_match() {
    let a: Vec<i64> = vec![0, 0];
    let b: Vec<i64> = vec![1_000_000, 0];
    assert!(!embedding_same_speaker(&a, &b));
    assert!(!embedding_same_speaker(&a, &a));
}

#[test]
fn moderately_similar_embeddings_fall_below_the_threshold() {
    // Cosine similarity 0.6: well under 0.85.
    let a: Vec<i64> = vec![1_000_000, 0];
    let b: Vec<i64> = vec![600_000, 800_000];
    assert!(!embedding_same_speaker(&a, &b));
    // Similarity about 0.995 passes.
    let c: Vec<i64> = vec![1_000_000, 100_000];
    assert!(embedding_same_speaker(&a, &c));
}
