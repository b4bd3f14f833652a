//! Capture-session lifecycle and chunk bookkeeping.
//!
//! One [`CaptureSession`] exists per active capture: it owns the start and
//! stop decisions, the chosen source, and the samples accumulated while
//! recording; stopping it runs the preprocessing chain (resample to the
//! canonical 16 kHz rate, then trim silence) over what was captured. The
//! [`ChunkAccumulator`] gathers transport samples until a whole chunk is
//! ready, and the [`TranscriptHistory`] keeps the most recent transcript
//! lines, stamped with the wall clock.

use vstd::prelude::*;
use crate::sample::samples_in_range;
use crate::preprocess::{resample, resample_spec, trim_silence, trim_spec};
use vstd::arithmetic::div_mod::lemma_div_pos_is_pos;

verus! {

/// Why a session control request was refused.
#[derive(Clone, Copy, PartialEq, Eq, Debug, Structural)]
pub enum SessionError {
    /// A capture was already running.
    AlreadyRecording,
    /// No capture was running.
    NotRecording,
}

/// The canonical rate the pipeline processes at.
pub const CANONICAL_RATE: u32 = 16_000;

/// Amplitude threshold for the silence trim at session end: 0.01 of full
/// scale.
pub const STOP_TRIM_THRESHOLD: i32 = 10_000;

/// Minimum trimmed length at session end: half a second at 16 kHz.
pub const STOP_TRIM_MIN_SAMPLES: usize = 8_000;

/// What `stop_capture` returns for the captured samples: resampled to the
/// canonical rate when needed, then trimmed of leading and trailing
/// silence.
pub open spec fn processed_capture(s: Seq<i32>, rate: int) -> Seq<i32> {
    trim_spec(resample_spec(s, rate, 16_000), 10_000, 8_000)
}

/// One capture session: source selection, the recording flag, and the
/// samples gathered so far at the device rate.
pub struct CaptureSession {
    recording: bool,
    system_audio: bool,
    selected_device: Option<String>,
    sample_rate: u32,
    captured: Vec<i32>,
}

impl CaptureSession {
    /// Whether a capture is currently running.
    pub closed spec fn is_recording(&self) -> bool {
        self.recording
    }

    /// Whether the session captures system audio rather than a microphone.
    pub closed spec fn is_system_audio(&self) -> bool {
        self.system_audio
    }

    /// The device name the session was pointed at, if any.
    pub closed spec fn device(&self) -> Option<Seq<char>> {
        match self.selected_device {
            Some(ref d) => Some(d@),
            None => None,
        }
    }

    /// The device sample rate the session records at.
    pub closed spec fn rate(&self) -> u32 {
        self.sample_rate
    }

    /// The samples captured so far.
    pub closed spec fn captured_view(&self) -> Seq<i32> {
        self.captured@
    }

    /// Captured samples stay canonical and the rate stays plausible.
    pub closed spec fn inv(&self) -> bool {
        samples_in_range(self.captured@) && self.sample_rate >= 100
    }

    /// The preprocessing chain at stop will fit in memory: the resampled
    /// length, padding included, stays within address range.
    pub open spec fn processing_fits(&self) -> bool {
        (self.captured_view().len() as int) * 16_000 / (self.rate() as int) + 9_600 <= usize::MAX
    }

    /// A fresh idle session at the canonical rate.
    pub fn new() -> (s: Self)
        ensures
            s.inv(),
            !s.is_recording(),
            !s.is_system_audio(),
            s.device() is None,
            s.rate() == 16_000,
            s.captured_view() == Seq::<i32>::empty(),
    {
        CaptureSession {
            recording: false,
            system_audio: false,
            selected_device: None,
            sample_rate: 16_000,
            captured: Vec::new(),
        }
    }

    /// Chooses between microphone and system-audio capture.
    pub fn set_audio_source(&mut self, is_system: bool)
        requires
            old(self).inv(),
        ensures
            final (self).inv(),
            final (self).is_system_audio() == is_system,
            final (self).is_recording() == old(self).is_recording(),
            final (self).device() == old(self).device(),
            final (self).rate() == old(self).rate(),
            final (self).captured_view() == old(self).captured_view(),
    {
        self.system_audio = is_system;
    }

    /// Points the session at a device by name, or back at the default.
    pub fn set_selected_device(&mut self, device_name: Option<String>)
        requires
            old(self).inv(),
        ensures
            final (self).inv(),
            final (self).device() == match device_name {
                Some(d) => Some(d@),
                None => None::<Seq<char>>,
            },
            final (self).is_recording() == old(self).is_recording(),
            final (self).is_system_audio() == old(self).is_system_audio(),
            final (self).rate() == old(self).rate(),
            final (self).captured_view() == old(self).captured_view(),
    {
        self.selected_device = device_name;
    }

    /// Records the rate the opened device actually delivers.
    pub fn note_sample_rate(&mut self, rate: u32)
        requires
            old(self).inv(),
            rate >= 100,
        ensures
            final (self).inv(),
            final (self).rate() == rate,
            final (self).is_recording() == old(self).is_recording(),
            final (self).is_system_audio() == old(self).is_system_audio(),
            final (self).device() == old(self).device(),
            final (self).captured_view() == old(self).captured_view(),
    {
        self.sample_rate = rate;
    }

    /// Starts a capture: refused when one is already running, otherwise
    /// previous audio is discarded and recording begins.
    pub fn start_capture(&mut self) -> (r: Result<(), SessionError>)
        requires
            old(self).inv(),
        ensures
            final (self).inv(),
            old(self).is_recording() <==> r == Err::<(), SessionError>(
                SessionError::AlreadyRecording,
            ),
            old(self).is_recording() ==> *final (self) == *old(self),
            !old(self).is_recording() ==> {
                &&& r == Ok::<(), SessionError>(())
                &&& final (self).is_recording()
                &&& final (self).captured_view() == Seq::<i32>::empty()
                &&& final (self).rate() == old(self).rate()
                &&& final (self).device() == old(self).device()
                &&& final (self).is_system_audio() == old(self).is_system_audio()
            },
    {
        if self.recording {
            return Err(SessionError::AlreadyRecording);
        }
        self.captured.clear();
        self.recording = true;
        Ok(())
    }

    /// Hands captured samples to the session; they are kept only while it
    /// is recording, as the device callback delivers them.
    pub fn push_samples(&mut self, data: &[i32])
        requires
            old(self).inv(),
            samples_in_range(data@),
        ensures
            final (self).inv(),
            old(self).is_recording() ==> final (self).captured_view() == old(
                self,
            ).captured_view() + data@,
            !old(self).is_recording() ==> *final (self) == *old(self),
            final (self).is_recording() == old(self).is_recording(),
            final (self).is_system_audio() == old(self).is_system_audio(),
            final (self).device() == old(self).device(),
            final (self).rate() == old(self).rate(),
    {
        if self.recording {
            let mut incoming = vstd::slice::slice_to_vec(data);
            self.captured.append(&mut incoming);
        }
    }

    /// Reports whether the preprocessing at stop fits in address range, so
    /// a caller can check before asking for it.
    pub fn capture_within_limits(&self) -> (r: bool)
        requires
            self.inv(),
        ensures
            r == self.processing_fits(),
    {
        let scaled: u128 = (self.captured.len() as u128) * 16_000 / (self.sample_rate as u128);
        scaled + 9_600 <= usize::MAX as u128
    }

    /// Stops the capture and returns the preprocessed audio: resampled to
    /// the canonical rate, then trimmed of silence. Refused when nothing
    /// is recording.
    pub fn stop_capture(&mut self) -> (r: Result<Vec<i32>, SessionError>)
        requires
            old(self).inv(),
            old(self).processing_fits(),
        ensures
            final (self).inv(),
            !final (self).is_recording(),
            !old(self).is_recording() <==> r == Err::<Vec<i32>, SessionError>(
                SessionError::NotRecording,
            ),
            !old(self).is_recording() ==> *final (self) == *old(self),
            old(self).is_recording() ==> match r {
                Ok(audio) => audio@ == processed_capture(
                    old(self).captured_view(),
                    old(self).rate() as int,
                ) && final (self).captured_view() == Seq::<i32>::empty(),
                Err(_) => false,
            },
    {
        if !self.recording {
            return Err(SessionError::NotRecording);
        }
        self.recording = false;
        let mut taken: Vec<i32> = Vec::new();
        core::mem::swap(&mut taken, &mut self.captured);

        let ghost ratei: int = self.sample_rate as int;
        proof {
            lemma_div_pos_is_pos((taken@.len() as int) * 16_000, ratei);
            assert((taken@.len() as int) * 16_000 >= 0) by (nonlinear_arith)
                requires
                    taken@.len() as int >= 0,
            ;
        }
        let resampled: Vec<i32> = if self.sample_rate != CANONICAL_RATE {
            resample(&taken, self.sample_rate, CANONICAL_RATE)
        } else {
            proof {
                assert(resample_spec(taken@, ratei, 16_000) == taken@);
            }
            taken
        };
        proof {
            // The resampled length stays within the scaled bound, so the
            // trim padding fits as well.
            if self.sample_rate != 16_000 {
                assert(resampled@.len() <= (taken@.len() as int) * 16_000 / ratei);
            } else {
                assert((taken@.len() as int) * 16_000 / ratei == taken@.len()) by (nonlinear_arith)
                    requires
                        ratei == 16_000,
                ;
            }
        }
        let trimmed = trim_silence(&resampled, STOP_TRIM_THRESHOLD, STOP_TRIM_MIN_SAMPLES);
        proof {
            assert(samples_in_range(trimmed@)) by {
                assert(trim_spec(resampled@, 10_000, 8_000) == trimmed@);
                assert forall|i: int| 0 <= i < trimmed@.len() implies crate::sample::sample_in_range(
                    #[trigger] trimmed@[i],
                ) by {
                    if crate::preprocess::exists_loud(resampled@, 10_000) {
                        let lo = crate::preprocess::trim_start(resampled@, 10_000, 8_000);
                        assert(trimmed@[i] == resampled@[lo + i]);
                    }
                }
            }
        }
        Ok(trimmed)
    }
}

/// Gathers transport samples until a whole processing chunk is ready.
pub struct ChunkAccumulator {
    buf: Vec<i16>,
    chunk_samples: usize,
}

impl ChunkAccumulator {
    /// The samples waiting for the next chunk.
    pub closed spec fn pending(&self) -> Seq<i16> {
        self.buf@
    }

    /// The chunk threshold chosen at construction.
    pub closed spec fn chunk_size(&self) -> nat {
        self.chunk_samples as nat
    }

    /// An empty accumulator that releases chunks of at least
    /// `chunk_samples` samples.
    pub fn new(chunk_samples: usize) -> (a: Self)
        requires
            chunk_samples >= 1,
        ensures
            a.pending() == Seq::<i16>::empty(),
            a.chunk_size() == chunk_samples,
    {
        ChunkAccumulator { buf: Vec::new(), chunk_samples }
    }

    /// Adds freshly popped samples; once the pending run reaches the chunk
    /// threshold the whole run is handed out and the accumulator empties.
    pub fn accumulate(&mut self, data: &[i16]) -> (chunk: Option<Vec<i16>>)
        ensures
            final (self).chunk_size() == old(self).chunk_size(),
            old(self).pending().len() + data@.len() >= old(self).chunk_size() ==> match chunk {
                Some(c) => c@ == old(self).pending() + data@ && final (self).pending() == Seq::<
                    i16,
                >::empty(),
                None => false,
            },
            old(self).pending().len() + data@.len() < old(self).chunk_size() ==> chunk is None
                && final (self).pending() == old(self).pending() + data@,
    {
        let mut incoming = vstd::slice::slice_to_vec(data);
        self.buf.append(&mut incoming);
        if self.buf.len() >= self.chunk_samples {
            let mut out: Vec<i16> = Vec::new();
            core::mem::swap(&mut out, &mut self.buf);
            Some(out)
        } else {
            None
        }
    }

    /// Hands out whatever is pending, chunk threshold or not: the forced
    /// flush a caller uses before stopping, since a partial trailing chunk
    /// is otherwise discarded at session end.
    pub fn flush(&mut self) -> (out: Vec<i16>)
        ensures
            final (self).chunk_size() == old(self).chunk_size(),
            out@ == old(self).pending(),
            final (self).pending() == Seq::<i16>::empty(),
    {
        let mut out: Vec<i16> = Vec::new();
        core::mem::swap(&mut out, &mut self.buf);
        out
    }
}

/// Relies on `chrono::Utc::now`: the current Unix timestamp. The value
/// depends on the wall clock, so nothing is promised of it.
#[verifier::external_body]
fn unix_now() -> (t: i64) {
    chrono::Utc::now().timestamp()
}

/// How many transcript lines the history keeps.
pub const HISTORY_CAP: usize = 200;

/// The most recent transcript lines, each stamped with the wall-clock
/// second it arrived.
pub struct TranscriptHistory {
    entries: Vec<(String, String, i64)>,
}

impl TranscriptHistory {
    /// The kept lines, oldest first: speaker, text, timestamp.
    pub closed spec fn lines(&self) -> Seq<(Seq<char>, Seq<char>, i64)> {
        self.entries@.map_values(|e: (String, String, i64)| (e.0@, e.1@, e.2))
    }

    /// Never more lines than the cap.
    pub closed spec fn inv(&self) -> bool {
        self.entries@.len() <= 200
    }

    /// An empty history.
    pub fn new() -> (h: Self)
        ensures
            h.inv(),
            h.lines() == Seq::<(Seq<char>, Seq<char>, i64)>::empty(),
    {
        let h = TranscriptHistory { entries: Vec::new() };
        proof {
            assert(h.lines() =~= Seq::<(Seq<char>, Seq<char>, i64)>::empty());
        }
        h
    }

    /// How many lines are kept.
    pub fn len(&self) -> (n: usize)
        ensures
            n == self.lines().len(),
    {
        self.entries.len()
    }

    /// Reads one kept line.
    pub fn get_line(&self, i: usize) -> (line: &(String, String, i64))
        requires
            i < self.lines().len(),
        ensures
            (line.0@, line.1@, line.2) == self.lines()[i as int],
    {
        &self.entries[i]
    }

    /// Appends a line stamped with the current wall-clock second; when the
    /// history is full the oldest line is dropped. Returns the stamp.
    pub fn push_line(&mut self, speaker: String, text: String) -> (t: i64)
        requires
            old(self).inv(),
        ensures
            final (self).inv(),
            final (self).lines() == if old(self).lines().len() < 200 {
                old(self).lines().push((speaker@, text@, t))
            } else {
                old(self).lines().drop_first().push((speaker@, text@, t))
            },
    {
        let ghost ol = self.lines();
        let t: i64 = unix_now();
        let ghost sv = speaker@;
        let ghost tv = text@;
        if self.entries.len() >= HISTORY_CAP {
            self.entries.remove(0);
            proof {
                assert(self.lines() =~= ol.drop_first());
            }
        }
        let ghost mid = self.lines();
        let entry = (speaker, text, t);
        self.entries.push(entry);
        proof {
            assert(self.lines() =~= mid.push((sv, tv, t)));
        }
        t
    }
}

} // verus!
