use disrust_captioner::config::Config;
use disrust_captioner::diarize::SpeakerSegment;
use disrust_captioner::identity::SpeakerManager;
use disrust_captioner::ring::RingBuffer;
use disrust_captioner::session::{
    CaptureSession, ChunkAccumulator, SessionError, TranscriptHistory,
};

#[test]
fn start_twice_is_refused() {
    let mut s = CaptureSession::new();
    assert!(s.start_capture().is_ok());
    assert_eq!(s.start_capture(), Err(SessionError::AlreadyRecording));
}

#[test]
fn stop_without_start_is_refused() {
    let mut s = CaptureSession::new();
    assert_eq!(s.stop_capture().unwrap_err(), SessionError::NotRecording);
}

#[test]
fn silent_capture_comes_back_unchanged() {
    // A silent two-second capture at the canonical rate: resampling is the
    // identity and the trim finds nothing loud, so the buffer is returned
    // as it was.
    let mut s = CaptureSession::new();
    s.start_capture().unwrap();
    let silence: Vec<i32> = vec![0; 32_000];
    s.push_samples(&silence);
    assert!(s.capture_within_limits());
    let audio = s.stop_capture().unwrap();
    assert_eq!(audio, silence);
}

#[test]
fn samples_are_dropped_while_idle() {
    let mut s = CaptureSession::new();
    s.push_samples(&[1, 2, 3]);
    s.start_capture().unwrap();
    s.push_samples(&[0; 40_000]);
    let audio = s.stop_capture().unwrap();
    assert_eq!(audio.len(), 40_000);
}

#[test]
fn source_and_device_selection_are_remembered() {
    let mut s = CaptureSession::new();
    s.set_audio_source(true);
    s.set_selected_device(Some(String::from("Loopback 1")));
    s.set_audio_source(false);
    s.set_selected_device(None);
    assert!(s.start_capture().is_ok());
}

#[test]
fn ring_buffer_drops_excess_and_counts_it() {
    let mut rb = RingBuffer::new(4);
    let pushed = rb.push(&[1, 2, 3, 4, 5, 6]);
    assert_eq!(pushed, 4);
    assert_eq!(rb.dropped_so_far(), 2);
    let out = rb.pop_into(2);
    assert_eq!(out, vec![1, 2]);
    let rest = rb.pop_into(10);
    assert_eq!(rest, vec![3, 4]);
    assert_eq!(rb.pop_into(10), Vec::<i16>::new());
}

#[test]
fn ring_buffer_frees_space_after_pop() {
    let mut rb = RingBuffer::new(3);
    assert_eq!(rb.push(&[7, 8, 9]), 3);
    assert_eq!(rb.pop_into(1), vec![7]);
    assert_eq!(rb.push(&[10]), 1);
    assert_eq!(rb.pop_into(3), vec![8, 9, 10]);
    assert_eq!(rb.dropped_so_far(), 0);
}

#[test]
fn chunks_are_released_at_the_threshold() {
    let mut acc = ChunkAccumulator::new(4);
    assert!(acc.accumulate(&[1, 2]).is_none());
    let chunk = acc.accumulate(&[3, 4, 5]).unwrap();
    assert_eq!(chunk, vec![1, 2, 3, 4, 5]);
    assert!(acc.accumulate(&[6]).is_none());
}

#[test]
fn flush_hands_out_the_partial_chunk() {
    let mut acc = ChunkAccumulator::new(10);
    assert!(acc.accumulate(&[1, 2, 3]).is_none());
    assert_eq!(acc.flush(), vec![1, 2, 3]);
    assert_eq!(acc.flush(), Vec::<i16>::new());
}

#[test]
fn history_keeps_at_most_two_hundred_lines() {
    let mut h = TranscriptHistory::new();
    for i in 0..205u32 {
        h.push_line(format!("s{}", i), format!("line {}", i));
    }
    assert_eq!(h.len(), 200);
    let first = h.get_line(0);
    assert_eq!(first.0, "s5");
    let last = h.get_line(199);
    assert_eq!(last.1, "line 204");
}

#[test]
fn config_set_and_get_names() {
    let mut c = Config::new();
    assert!(c.get_speaker_name("Speaker_1").is_none());
    c.set_speaker_name(String::from("Speaker_1"), String::from("Alice"));
    c.set_speaker_name(String::from("Speaker_2"), String::from("Bob"));
    assert_eq!(c.get_speaker_name("Speaker_1").unwrap(), "Alice");
    assert_eq!(c.get_speaker_name("Speaker_2").unwrap(), "Bob");
    // Setting the same key again overwrites.
    c.set_speaker_name(String::from("Speaker_1"), String::from("Carol"));
    assert_eq!(c.get_speaker_name("Speaker_1").unwrap(), "Carol");
    assert!(c.get_speaker_name("Speaker_3").is_none());
}

#[test]
fn manager_labels_and_renames_speakers() {
    let mut m = SpeakerManager::new();
    let seg = SpeakerSegment { start_ms: 0, end_ms: 1_000, speaker: 3 };
    assert_eq!(m.identify_speaker_from_segment(&seg), "Speaker_3");
    m.rename_speaker("Speaker_3", "Dana");
    assert_eq!(m.identify_speaker_from_segment(&seg), "Dana");
}

#[test]
fn manager_assigns_a_colour_once() {
    let mut m = SpeakerManager::new();
    let seg = SpeakerSegment { start_ms: 0, end_ms: 1_000, speaker: 2 };
    assert!(m.get_speaker_color(2).is_none());
    m.identify_speaker_from_segment(&seg);
    let first = m.get_speaker_color(2).unwrap();
    m.identify_speaker_from_segment(&seg);
    let second = m.get_speaker_color(2).unwrap();
    assert_eq!(first, second);
}
