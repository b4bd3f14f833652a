use disrust_captioner::preprocess::{
    calculate_rms, max_abs_amplitude, normalize, resample, trim_silence,
};
use disrust_captioner::sample::{sample_from_i16, sample_from_u16, samples_from_i16};

#[test]
fn resample_is_identity_for_equal_rates() {
    let input: Vec<i32> = vec![5, -7, 123_456, -999_999, 0, 42];
    let out = resample(&input, 44_100, 44_100);
    assert_eq!(out, input);
}

#[test]
fn resample_identity_on_single_sample() {
    let input: Vec<i32> = vec![1_000_000];
    assert_eq!(resample(&input, 16_000, 16_000), input);
}

#[test]
fn resample_doubles_by_interpolation() {
    let input: Vec<i32> = vec![0, 1_000_000];
    let out = resample(&input, 8_000, 16_000);
    assert_eq!(out, vec![0, 500_000, 1_000_000]);
}

#[test]
fn resample_empty_input() {
    let input: Vec<i32> = Vec::new();
    assert_eq!(resample(&input, 48_000, 16_000), Vec::<i32>::new());
}

#[test]
fn normalize_scales_peak_to_target() {
    let input: Vec<i32> = vec![100_000, -200_000];
    let out = normalize(&input);
    assert_eq!(out, vec![475_000, -950_000]);
}

#[test]
fn normalize_is_noop_on_near_silence() {
    let input: Vec<i32> = vec![0, 0, 0, 0];
    let out = normalize(&input);
    assert_eq!(out, input);
}

#[test]
fn normalize_never_exceeds_peak_target() {
    let input: Vec<i32> = vec![1_000_000, -1_000_000, 3, -999_999, 500_000];
    let out = normalize(&input);
    for &s in &out {
        assert!(s.unsigned_abs() <= 950_000);
    }
    assert_eq!(max_abs_amplitude(&out), 950_000);
}

#[test]
fn trim_keeps_silent_signal_unchanged() {
    // Two seconds of silence at 16 kHz: no sample exceeds the threshold,
    // so the signal comes back unchanged.
    let input: Vec<i32> = vec![0; 32_000];
    let out = trim_silence(&input, 10_000, 8_000);
    assert_eq!(out, input);
}

#[test]
fn trim_never_returns_empty_for_nonempty_input() {
    let input: Vec<i32> = vec![3; 5];
    let out = trim_silence(&input, 10_000, 8_000);
    assert!(!out.is_empty());
}

#[test]
fn trim_span_contains_the_loud_samples() {
    let mut input: Vec<i32> = vec![0; 16_000];
    for i in 5_000..5_010 {
        input[i] = 50_000;
    }
    let out = trim_silence(&input, 10_000, 8_000);
    // Padded span [3400, 6609] is shorter than the minimum, so the end is
    // extended to 11400; the kept span still holds every loud sample.
    assert_eq!(out.len(), 8_001);
    assert_eq!(out[5_000 - 3_400], 50_000);
    assert_eq!(out[5_009 - 3_400], 50_000);
}

#[test]
fn rms_of_two_samples() {
    let input: Vec<i32> = vec![300_000, -400_000];
    assert_eq!(calculate_rms(&input), 353_553);
}

#[test]
fn rms_of_empty_is_zero() {
    let input: Vec<i32> = Vec::new();
    assert_eq!(calculate_rms(&input), 0);
}

#[test]
fn i16_samples_scale_to_millionths() {
    assert_eq!(sample_from_i16(32_767), 1_000_000);
    assert_eq!(sample_from_i16(-32_768), -1_000_000);
    assert_eq!(sample_from_i16(16_384), 500_015);
    assert_eq!(sample_from_i16(-16_384), -500_015);
    assert_eq!(sample_from_i16(0), 0);
}

#[test]
fn u16_samples_recentre_around_midpoint() {
    assert_eq!(sample_from_u16(32_768), 0);
    assert_eq!(sample_from_u16(65_535), 1_000_000);
    assert_eq!(sample_from_u16(0), -1_000_000);
    assert_eq!(sample_from_u16(49_152), 500_015);
}

#[test]
fn i16_buffer_conversion_matches_single_conversion() {
    let raw: Vec<i16> = vec![0, 32_767, -32_768, 123];
    let out = samples_from_i16(&raw);
    assert_eq!(out.len(), 4);
    for (i, &r) in raw.iter().enumerate() {
        assert_eq!(out[i], sample_from_i16(r));
    }
}
