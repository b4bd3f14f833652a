use disrust_captioner::diarize::{DiarizationResult, SpeakerSegment};
use disrust_captioner::identity::{speaker_label, u32_to_string};
use disrust_captioner::transcript::{
    approximate_word_timestamps, assemble_transcript, combine_with_transcription,
    finalize_transcript, is_blank, pre_transcription_check, segment_sample_range, split_words,
    transcribe_with_diarization,
};

#[test]
fn short_audio_is_refused_before_the_backend() {
    // 0.3 s at 16 kHz: too short for reliable transcription.
    let r = pre_transcription_check(4_800, 16_000);
    assert_eq!(r.as_deref(), Some("Audio too short for reliable transcription."));
}

#[test]
fn empty_audio_is_reported_as_no_data() {
    let r = pre_transcription_check(0, 16_000);
    assert_eq!(r.as_deref(), Some("No audio data received."));
}

#[test]
fn long_enough_audio_passes_the_gate() {
    // Exactly half a second passes.
    assert!(pre_transcription_check(8_000, 16_000).is_none());
    assert!(pre_transcription_check(32_000, 16_000).is_none());
}

#[test]
fn blank_transcript_becomes_no_speech_message() {
    let t = finalize_transcript(String::from("  \t \n "));
    assert_eq!(t, "No speech detected in the audio.");
    let empty = finalize_transcript(String::new());
    assert_eq!(empty, "No speech detected in the audio.");
}

#[test]
fn nonblank_transcript_passes_through() {
    let t = finalize_transcript(String::from(" hello "));
    assert_eq!(t, " hello ");
}

#[test]
fn blank_detection() {
    assert!(is_blank("   "));
    assert!(is_blank(""));
    assert!(!is_blank(" a "));
}

#[test]
fn transcript_assembly_appends_each_segment_and_a_space() {
    let texts = vec![String::from("Hello"), String::from("world")];
    assert_eq!(assemble_transcript(&texts), "Hello world ");
    assert_eq!(assemble_transcript(&Vec::new()), "");
}

#[test]
fn words_split_on_whitespace_runs() {
    let out = split_words("  hello \t world\n");
    assert_eq!(out, vec![String::from("hello"), String::from("world")]);
    assert_eq!(split_words(""), Vec::<String>::new());
    assert_eq!(split_words("one"), vec![String::from("one")]);
}

#[test]
fn fallback_timestamps_are_proportional_to_length() {
    let words = vec![String::from("ab"), String::from("b")];
    let out = approximate_word_timestamps(&words, 300);
    assert_eq!(out, vec![(0, 200), (200, 300)]);
}

#[test]
fn fallback_timestamps_cover_the_duration() {
    let words = vec![String::from("a"), String::from("bc"), String::from("def")];
    let out = approximate_word_timestamps(&words, 1_000);
    assert_eq!(out.first().unwrap().0, 0);
    assert_eq!(out.last().unwrap().1, 1_000);
    for w in out.windows(2) {
        assert_eq!(w[0].1, w[1].0);
    }
}

#[test]
fn decimal_rendering() {
    assert_eq!(u32_to_string(0), "0");
    assert_eq!(u32_to_string(7), "7");
    assert_eq!(u32_to_string(120), "120");
    assert_eq!(u32_to_string(4_294_967_295), "4294967295");
}

#[test]
fn speaker_labels_are_stable() {
    assert_eq!(speaker_label(0), "Speaker_0");
    assert_eq!(speaker_label(3), "Speaker_3");
    assert_eq!(speaker_label(12), "Speaker_12");
}

fn two_speaker_diarization() -> DiarizationResult {
    DiarizationResult {
        segments: vec![
            SpeakerSegment { start_ms: 0, end_ms: 1_000, speaker: 0 },
            SpeakerSegment { start_ms: 1_000, end_ms: 2_000, speaker: 1 },
        ],
    }
}

#[test]
fn merge_groups_words_by_speaker() {
    let d = two_speaker_diarization();
    let timestamps = vec![(0u64, 400u64), (500, 900), (1_500, 1_900)];
    let lines = combine_with_transcription(&d, "hi there you", &timestamps).unwrap();
    assert_eq!(lines.len(), 2);
    assert_eq!(lines[0].speaker_label, "Speaker_0");
    assert_eq!(lines[0].text, "hi there");
    assert_eq!(lines[0].start_ms, 0);
    assert_eq!(lines[1].speaker_label, "Speaker_1");
    assert_eq!(lines[1].text, "you");
    assert_eq!(lines[1].start_ms, 1_500);
}

#[test]
fn merge_labels_uncovered_words_unknown() {
    let d = two_speaker_diarization();
    let timestamps = vec![(5_000u64, 5_400u64)];
    let lines = combine_with_transcription(&d, "stray", &timestamps).unwrap();
    assert_eq!(lines.len(), 1);
    assert_eq!(lines[0].speaker_label, "Unknown");
    assert_eq!(lines[0].text, "stray");
}

#[test]
fn merge_reports_count_mismatch() {
    let d = two_speaker_diarization();
    let timestamps = vec![(0u64, 400u64)];
    let err = combine_with_transcription(&d, "two words", &timestamps).unwrap_err();
    assert_eq!(err.words, 2);
    assert_eq!(err.timestamps, 1);
}

#[test]
fn merge_of_empty_transcript_gives_no_lines() {
    let d = two_speaker_diarization();
    let lines = combine_with_transcription(&d, "   ", &Vec::new()).unwrap();
    assert!(lines.is_empty());
}

#[test]
fn segment_ranges_scale_and_clamp() {
    assert_eq!(segment_sample_range(1_000, 2_000, 16_000, 100_000), (16_000, 32_000));
    assert_eq!(segment_sample_range(1_000, 2_000, 16_000, 20_000), (16_000, 20_000));
    assert_eq!(segment_sample_range(0, 10_000, 16_000, 4_000), (0, 4_000));
}

#[test]
fn silent_chunk_yields_one_unknown_no_speech_line() {
    // A silent two-second chunk with a recognizer that reported nothing:
    // the transcript becomes the no-speech message, no speaker segment
    // exists, so the whole message lands in one line labeled Unknown.
    let samples: Vec<i32> = vec![0; 32_000];
    let lines = transcribe_with_diarization(&samples, 16_000, &Vec::new());
    assert_eq!(lines.len(), 1);
    assert_eq!(lines[0].speaker_label, "Unknown");
    assert_eq!(lines[0].text, "No speech detected in the audio.");
}

#[test]
fn recognized_text_is_attributed_to_the_chunk_speaker() {
    // Three seconds of one uniform non-silent tone: a single speaker
    // segment covers the chunk, and the recognized words land on it.
    let mut samples: Vec<i32> = Vec::new();
    for i in 0..48_000usize {
        samples.push(if (i / 50) % 2 == 0 { 300_000 } else { -300_000 });
    }
    let texts = vec![String::from("hello there")];
    let lines = transcribe_with_diarization(&samples, 16_000, &texts);
    assert_eq!(lines.len(), 1);
    assert_eq!(lines[0].speaker_label, "Speaker_0");
    assert_eq!(lines[0].text, "hello there");
    assert_eq!(lines[0].start_ms, 0);
}
