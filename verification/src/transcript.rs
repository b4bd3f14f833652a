//! The transcription orchestrator's pure core: gating of degenerate
//! audio, assembly of the raw transcript from the recognizer's segment
//! texts, word splitting, the fallback word-timestamp allocation, and the
//! merge of transcript words with speaker segments into labeled lines.

use vstd::prelude::*;
use crate::diarize::{diarize, diarized_segments_spec, sps_of, DiarizationResult, SpeakerSegment};
use crate::sample::samples_in_range;
use crate::identity::{label_chars, speaker_label};
use vstd::arithmetic::div_mod::{lemma_div_is_ordered, lemma_div_pos_is_pos};

verus! {

/// A word or phrase with its time span, as reported or approximated.
#[derive(Debug)]
pub struct TranscriptToken {
    /// The token text.
    pub text: String,
    /// Start of the token's span, in milliseconds.
    pub start_ms: u64,
    /// End of the token's span, in milliseconds.
    pub end_ms: u64,
}

/// Checks a buffer before the recognizer is invoked: empty audio and
/// audio shorter than half a second are answered with a fixed message
/// instead of a backend call.
pub fn pre_transcription_check(samples_len: usize, rate: u32) -> (r: Option<String>)
    requires
        rate >= 1,
    ensures
        samples_len == 0 ==> (r matches Some(m) && m@ == "No audio data received."@),
        samples_len > 0 && 2 * samples_len < rate ==> (r matches Some(m) && m@
            == "Audio too short for reliable transcription."@),
        samples_len > 0 && 2 * samples_len >= rate ==> r is None,
{
    if samples_len == 0 {
        Some(String::from_str("No audio data received."))
    } else if samples_len < (rate as usize) / 2 + (rate as usize) % 2 {
        proof {
            vstd::arithmetic::div_mod::lemma_fundamental_div_mod(rate as int, 2);
        }
        Some(String::from_str("Audio too short for reliable transcription."))
    } else {
        proof {
            vstd::arithmetic::div_mod::lemma_fundamental_div_mod(rate as int, 2);
        }
        None
    }
}

/// Whitespace, as the word splitter understands it.
pub open spec fn is_ws(c: char) -> bool {
    c == ' ' || c == '\t' || c == '\n' || c == '\r'
}

/// Every character is whitespace.
pub open spec fn all_blank(s: Seq<char>) -> bool {
    forall|i: int| 0 <= i < s.len() ==> is_ws(#[trigger] s[i])
}

/// Reports whether the text holds nothing but whitespace.
pub fn is_blank(s: &str) -> (r: bool)
    ensures
        r == all_blank(s@),
{
    let len: usize = s.unicode_len();
    let mut i: usize = 0;
    while i < len
        invariant
            0 <= i <= len,
            len == s@.len(),
            forall|j: int| 0 <= j < i ==> is_ws(#[trigger] s@[j]),
        decreases len - i,
    {
        let c: char = s.get_char(i);
        if !(c == ' ' || c == '\t' || c == '\n' || c == '\r') {
            return false;
        }
        i = i + 1;
    }
    true
}

/// The raw transcript: every segment text, each followed by one space.
pub open spec fn joined_texts(texts: Seq<Seq<char>>) -> Seq<char>
    decreases texts.len(),
{
    if texts.len() == 0 {
        Seq::empty()
    } else {
        joined_texts(texts.drop_last()) + texts.last() + seq![' ']
    }
}

/// Concatenates the recognizer's segment texts into the raw transcript,
/// one space after each segment.
pub fn assemble_transcript(texts: &Vec<String>) -> (t: String)
    ensures
        t@ == joined_texts(texts@.map_values(|s: String| s@)),
{
    let ghost model = texts@.map_values(|s: String| s@);
    let mut t = String::new();
    let mut i: usize = 0;
    proof {
        assert(t@ =~= joined_texts(model.take(0)));
    }
    while i < texts.len()
        invariant
            0 <= i <= texts@.len(),
            model == texts@.map_values(|s: String| s@),
            t@ == joined_texts(model.take(i as int)),
        decreases texts@.len() - i,
    {
        t.append(texts[i].as_str());
        t.append(" ");
        proof {
            assert(model.take(i + 1).drop_last() =~= model.take(i as int));
            assert(model.take(i + 1).last() == model[i as int]);
            reveal_strlit(" ");
            assert(" "@ =~= seq![' ']);
        }
        i = i + 1;
    }
    proof {
        assert(model.take(model.len() as int) =~= model);
    }
    t
}

/// Replaces a transcript with no visible text by the fixed no-speech
/// message; any other transcript passes through unchanged.
pub fn finalize_transcript(t: String) -> (r: String)
    ensures
        all_blank(t@) ==> r@ == "No speech detected in the audio."@,
        !all_blank(t@) ==> r@ == t@,
{
    if is_blank(t.as_str()) {
        String::from_str("No speech detected in the audio.")
    } else {
        t
    }
}

/// The words of a text: maximal runs of non-whitespace characters.
/// `cur` carries the word being read at position `i`.
pub open spec fn words_acc(s: Seq<char>, i: int, cur: Seq<char>) -> Seq<Seq<char>>
    decreases s.len() - i,
    when 0 <= i <= s.len()
{
    if i >= s.len() {
        if cur.len() > 0 {
            seq![cur]
        } else {
            Seq::empty()
        }
    } else if is_ws(s[i]) {
        if cur.len() > 0 {
            seq![cur] + words_acc(s, i + 1, Seq::empty())
        } else {
            words_acc(s, i + 1, Seq::empty())
        }
    } else {
        words_acc(s, i + 1, cur.push(s[i]))
    }
}

/// The words of a text.
pub open spec fn words_of(s: Seq<char>) -> Seq<Seq<char>> {
    words_acc(s, 0, Seq::empty())
}

/// Splits a text into its whitespace-separated words.
pub fn split_words(s: &str) -> (out: Vec<String>)
    ensures
        out@.map_values(|w: String| w@) == words_of(s@),
{
    let len: usize = s.unicode_len();
    let mut out: Vec<String> = Vec::new();
    let mut i: usize = 0;
    let mut start: usize = 0;
    let mut in_word: bool = false;
    proof {
        assert(out@.map_values(|w: String| w@) =~= Seq::<Seq<char>>::empty());
    }
    while i < len
        invariant
            0 <= i <= len,
            len == s@.len(),
            in_word ==> 0 <= start <= i,
            !in_word ==> words_of(s@) == out@.map_values(|w: String| w@) + words_acc(
                s@,
                i as int,
                Seq::empty(),
            ),
            in_word ==> words_of(s@) == out@.map_values(|w: String| w@) + words_acc(
                s@,
                i as int,
                s@.subrange(start as int, i as int),
            ),
            in_word ==> s@.subrange(start as int, i as int).len() > 0,
        decreases len - i,
    {
        let c: char = s.get_char(i);
        let ghost before = out@.map_values(|w: String| w@);
        if c == ' ' || c == '\t' || c == '\n' || c == '\r' {
            if in_word {
                let w: &str = s.substring_char(start, i);
                out.push(String::from_str(w));
                in_word = false;
                proof {
                    assert(out@.map_values(|w2: String| w2@) =~= before.push(
                        s@.subrange(start as int, i as int),
                    ));
                    assert(seq![s@.subrange(start as int, i as int)] + words_acc(
                        s@,
                        i + 1,
                        Seq::empty(),
                    ) =~= seq![s@.subrange(start as int, i as int)].add(
                        words_acc(s@, i + 1, Seq::empty()),
                    ));
                    assert(before.push(s@.subrange(start as int, i as int)) + words_acc(
                        s@,
                        i + 1,
                        Seq::empty(),
                    ) =~= before + (seq![s@.subrange(start as int, i as int)] + words_acc(
                        s@,
                        i + 1,
                        Seq::empty(),
                    )));
                }
            }
        } else {
            if !in_word {
                start = i;
                in_word = true;
                proof {
                    assert(s@.subrange(i as int, i + 1) =~= Seq::<char>::empty().push(s@[i as int]));
                }
            } else {
                proof {
                    assert(s@.subrange(start as int, i + 1) =~= s@.subrange(
                        start as int,
                        i as int,
                    ).push(s@[i as int]));
                }
            }
        }
        i = i + 1;
    }
    if in_word {
        let w: &str = s.substring_char(start, len);
        out.push(String::from_str(w));
        proof {
            let ghost before = out@.map_values(|w2: String| w2@).drop_last();
            assert(out@.map_values(|w2: String| w2@) =~= before.push(
                s@.subrange(start as int, len as int),
            ));
            assert(before.push(s@.subrange(start as int, len as int)) =~= before + seq![
                s@.subrange(start as int, len as int),
            ]);
        }
    }
    out
}

/// Total characters of the first `n` words.
pub open spec fn prefix_chars(ws: Seq<Seq<char>>, n: int) -> int
    decreases n,
    when n >= 0
{
    if n <= 0 {
        0
    } else {
        prefix_chars(ws, n - 1) + ws[n - 1].len()
    }
}

/// Prefix character counts grow with the prefix.
proof fn lemma_prefix_chars_mono(ws: Seq<Seq<char>>, a: int, b: int)
    requires
        0 <= a <= b,
    ensures
        prefix_chars(ws, a) <= prefix_chars(ws, b),
    decreases b - a,
{
    if a < b {
        lemma_prefix_chars_mono(ws, a, b - 1);
    }
}

/// Allocates each word a span of the chunk's duration proportional to its
/// character count: an explicit approximation for recognizers that report
/// no per-token timestamps. With no characters at all, every span is
/// empty at time zero.
pub fn approximate_word_timestamps(words: &Vec<String>, duration_ms: u64) -> (out: Vec<
    (u64, u64),
>)
    requires
        prefix_chars(words@.map_values(|w: String| w@), words@.len() as int)
            <= 0xffff_ffff_ffff_ffff,
    ensures
        out@.len() == words@.len(),
        ({
            let ws = words@.map_values(|w: String| w@);
            let total = prefix_chars(ws, ws.len() as int);
            &&& total > 0 ==> forall|i: int| 0 <= i < out@.len() ==> (#[trigger] out@[i]).0
                == duration_ms * prefix_chars(ws, i) / total && out@[i].1 == duration_ms
                * prefix_chars(ws, i + 1) / total
            &&& total == 0 ==> forall|i: int| 0 <= i < out@.len() ==> (#[trigger] out@[i]) == (
            0u64, 0u64)
            &&& forall|i: int| 0 <= i < out@.len() ==> (#[trigger] out@[i]).0 <= out@[i].1
            &&& forall|i: int| 0 <= i < out@.len() - 1 ==> (#[trigger] out@[i]).1 == out@[i
                + 1].0
            &&& out@ == approx_spans_spec(ws, duration_ms)
        }),
{
    let ghost ws = words@.map_values(|w: String| w@);
    let len: usize = words.len();

    // First pass: total characters over all words.
    let mut total: u64 = 0;
    let mut i: usize = 0;
    while i < len
        invariant
            0 <= i <= len,
            len == words@.len(),
            ws == words@.map_values(|w: String| w@),
            prefix_chars(ws, len as int) <= 0xffff_ffff_ffff_ffff,
            total == prefix_chars(ws, i as int),
        decreases len - i,
    {
        let wl: usize = words[i].as_str().unicode_len();
        proof {
            lemma_prefix_chars_mono(ws, i + 1, len as int);
        }
        total = total + wl as u64;
        i = i + 1;
    }

    if total == 0 {
        let out = zero_spans(len);
        proof {
            assert(out@ =~= approx_spans_spec(ws, duration_ms));
        }
        return out;
    }

    let mut out: Vec<(u64, u64)> = Vec::new();
    let mut prefix: u64 = 0;
    let mut j: usize = 0;
    let mut prev_end: u64 = 0;
    while j < len
        invariant
            0 <= j <= len,
            len == words@.len(),
            ws == words@.map_values(|w: String| w@),
            0 < total == prefix_chars(ws, len as int),
            prefix == prefix_chars(ws, j as int),
            prefix <= total,
            out@.len() == j,
            prev_end == duration_ms * prefix_chars(ws, j as int) / (total as int),
            forall|k: int| 0 <= k < j ==> (#[trigger] out@[k]).0 == duration_ms * prefix_chars(
                ws,
                k,
            ) / (total as int) && out@[k].1 == duration_ms * prefix_chars(ws, k + 1) / (total as int),
            forall|k: int| 0 <= k < j ==> (#[trigger] out@[k]).0 <= out@[k].1,
            forall|k: int| 0 <= k < j - 1 ==> (#[trigger] out@[k]).1 == out@[k + 1].0,
            j > 0 ==> out@[j - 1].1 == prev_end,
        decreases len - j,
    {
        let wl: usize = words[j].as_str().unicode_len();
        proof {
            lemma_prefix_chars_mono(ws, j + 1, len as int);
        }
        let new_prefix: u64 = prefix + wl as u64;
        let start: u64 = prev_end;
        proof {
            assert(duration_ms as int * new_prefix as int
                <= 0xffff_ffff_ffff_ffff * 0xffff_ffff_ffff_ffff) by (nonlinear_arith)
                requires
                    duration_ms <= 0xffff_ffff_ffff_ffff,
                    new_prefix <= 0xffff_ffff_ffff_ffff,
            ;
            assert(duration_ms as int * new_prefix as int >= 0) by (nonlinear_arith)
                requires
                    duration_ms >= 0,
                    new_prefix >= 0,
            ;
            // The quotient stays below the duration.
            assert(duration_ms as int * new_prefix as int <= duration_ms as int * total as int)
                by (nonlinear_arith)
                requires
                    new_prefix <= total,
                    duration_ms >= 0,
            ;
            lemma_div_is_ordered(
                duration_ms as int * new_prefix as int,
                duration_ms as int * total as int,
                total as int,
            );
            assert(duration_ms as int * total as int / (total as int) == duration_ms)
                by (nonlinear_arith)
                requires
                    total >= 1,
            ;
            lemma_div_pos_is_pos(duration_ms as int * new_prefix as int, total as int);
            // Spans never run backwards.
            assert(duration_ms as int * prefix as int <= duration_ms as int
                * new_prefix as int) by (nonlinear_arith)
                requires
                    prefix <= new_prefix,
                    duration_ms >= 0,
            ;
            lemma_div_is_ordered(
                duration_ms as int * prefix as int,
                duration_ms as int * new_prefix as int,
                total as int,
            );
        }
        let num: u128 = duration_ms as u128 * new_prefix as u128;
        let end: u64 = (num / total as u128) as u64;
        out.push((start, end));
        prefix = new_prefix;
        prev_end = end;
        j = j + 1;
    }
    proof {
        assert(out@ =~= approx_spans_spec(ws, duration_ms));
    }
    out
}

/// A run of empty spans at time zero, one per word.
fn zero_spans(n: usize) -> (out: Vec<(u64, u64)>)
    ensures
        out@.len() == n,
        forall|i: int| 0 <= i < n ==> (#[trigger] out@[i]) == (0u64, 0u64),
        forall|i: int| 0 <= i < n ==> (#[trigger] out@[i]).0 <= out@[i].1,
        forall|i: int| 0 <= i < n - 1 ==> (#[trigger] out@[i]).1 == out@[i + 1].0,
{
    let mut out: Vec<(u64, u64)> = Vec::new();
    let mut i: usize = 0;
    while i < n
        invariant
            0 <= i <= n,
            out@.len() == i,
            forall|j: int| 0 <= j < i ==> (#[trigger] out@[j]) == (0u64, 0u64),
        decreases n - i,
    {
        out.push((0, 0));
        i = i + 1;
    }
    out
}


/// The speaker of the first segment whose span contains time `t`, if any.
pub open spec fn word_speaker(segs: Seq<SpeakerSegment>, t: int) -> Option<u32>
    decreases segs.len(),
{
    if segs.len() == 0 {
        None
    } else if segs[0].start_ms <= t <= segs[0].end_ms {
        Some(segs[0].speaker)
    } else {
        word_speaker(segs.drop_first(), t)
    }
}

/// A time matching no segment of a prefix is decided by the rest.
proof fn lemma_word_speaker_skip(segs: Seq<SpeakerSegment>, t: int, i: int)
    requires
        0 <= i <= segs.len(),
        forall|j: int| 0 <= j < i ==> !((#[trigger] segs[j]).start_ms <= t <= segs[j].end_ms),
    ensures
        word_speaker(segs, t) == word_speaker(segs.skip(i), t),
    decreases i,
{
    if i > 0 {
        lemma_word_speaker_skip(segs.drop_first(), t, i - 1);
        assert(segs.drop_first().skip(i - 1) =~= segs.skip(i));
    } else {
        assert(segs.skip(0) =~= segs);
    }
}

/// Finds the speaker whose segment contains the given time: the first
/// match wins, and a time inside no segment belongs to no known speaker.
pub fn speaker_at(segments: &Vec<SpeakerSegment>, t: u64) -> (r: Option<u32>)
    ensures
        r == word_speaker(segments@, t as int),
{
    let len: usize = segments.len();
    let mut i: usize = 0;
    while i < len
        invariant
            0 <= i <= len,
            len == segments@.len(),
            forall|j: int| 0 <= j < i ==> !((#[trigger] segments@[j]).start_ms <= t
                <= segments@[j].end_ms),
        decreases len - i,
    {
        let seg = segments[i];
        if seg.start_ms <= t && t <= seg.end_ms {
            proof {
                lemma_word_speaker_skip(segments@, t as int, i as int);
                assert(segments@.skip(i as int)[0] == segments@[i as int]);
            }
            return Some(seg.speaker);
        }
        i = i + 1;
    }
    proof {
        lemma_word_speaker_skip(segments@, t as int, len as int);
        assert(segments@.skip(len as int) =~= Seq::<SpeakerSegment>::empty());
    }
    None
}

/// The label shown for a word's speaker: the stable speaker label, or
/// `Unknown` for a word inside no segment.
pub open spec fn speaker_label_chars(sp: Option<u32>) -> Seq<char> {
    match sp {
        Some(id) => label_chars(id as int),
        None => "Unknown"@,
    }
}

/// Renders the label shown for a word's speaker.
pub fn render_speaker_label(sp: &Option<u32>) -> (s: String)
    ensures
        s@ == speaker_label_chars(*sp),
{
    match sp {
        Some(id) => speaker_label(*id),
        None => String::from_str("Unknown"),
    }
}

/// Words joined by single spaces.
pub open spec fn join_space(ws: Seq<Seq<char>>) -> Seq<char>
    decreases ws.len(),
{
    if ws.len() == 0 {
        Seq::empty()
    } else if ws.len() == 1 {
        ws[0]
    } else {
        join_space(ws.drop_last()) + seq![' '] + ws.last()
    }
}

/// One line per maximal run of words with the same speaker: speaker, the
/// run's words joined by spaces, and the start time of the run's first
/// word. `a` is where the current run began, `i` the position under
/// examination.
pub open spec fn group_lines(
    ws: Seq<Seq<char>>,
    spks: Seq<Option<u32>>,
    starts: Seq<u64>,
    i: int,
    a: int,
) -> Seq<(Option<u32>, Seq<char>, u64)>
    decreases ws.len() - i,
    when 0 <= a < i && i <= ws.len() && ws.len() == spks.len() && ws.len() == starts.len()
{
    if i >= ws.len() {
        seq![(spks[a], join_space(ws.subrange(a, ws.len() as int)), starts[a])]
    } else if spks[i] == spks[a] {
        group_lines(ws, spks, starts, i + 1, a)
    } else {
        seq![(spks[a], join_space(ws.subrange(a, i)), starts[a])] + group_lines(
            ws,
            spks,
            starts,
            i + 1,
            i,
        )
    }
}

/// The whole grouped transcript; an empty word run gives no lines.
pub open spec fn lines_model(
    ws: Seq<Seq<char>>,
    spks: Seq<Option<u32>>,
    starts: Seq<u64>,
) -> Seq<(Option<u32>, Seq<char>, u64)> {
    if ws.len() == 0 {
        Seq::empty()
    } else {
        group_lines(ws, spks, starts, 1, 0)
    }
}

/// The externally visible transcript unit: one line per contiguous run of
/// words attributed to the same speaker.
#[derive(Debug)]
pub struct DiarizedTranscriptLine {
    /// The label shown for the speaker of this line.
    pub speaker_label: String,
    /// The line's words, joined by spaces.
    pub text: String,
    /// Start time of the line's first word, in milliseconds.
    pub start_ms: u64,
}

/// The transcript's words and its timestamps disagree in number; the
/// merge refuses to guess an alignment.
#[derive(Clone, Copy, PartialEq, Eq, Debug, Structural)]
pub struct MergeMismatch {
    /// How many words the transcription split into.
    pub words: usize,
    /// How many timestamps were supplied.
    pub timestamps: usize,
}

/// Merges a transcription with the diarized speaker segments: each word
/// takes the speaker of the first segment containing its start time
/// (`Unknown` when none does), and consecutive words with the same
/// speaker are grouped into one labeled line. A word/timestamp count
/// mismatch is reported rather than aligned by guesswork.
pub fn combine_with_transcription(
    diarization: &DiarizationResult,
    transcription: &str,
    timestamps: &Vec<(u64, u64)>,
) -> (r: Result<Vec<DiarizedTranscriptLine>, MergeMismatch>)
    ensures
        ({
            let ws = words_of(transcription@);
            let spks = Seq::new(
                ws.len(),
                |i: int| word_speaker(diarization.segments@, timestamps@[i].0 as int),
            );
            let starts = Seq::new(ws.len(), |i: int| timestamps@[i].0);
            let model = lines_model(ws, spks, starts);
            &&& ws.len() != timestamps@.len() ==> (r matches Err(e) && e.words == ws.len()
                && e.timestamps == timestamps@.len())
            &&& ws.len() == timestamps@.len() ==> (r matches Ok(lines) && lines@.len()
                == model.len() && (forall|j: int|
                0 <= j < model.len() ==> (#[trigger] lines@[j]).speaker_label@
                    == speaker_label_chars(model[j].0) && lines@[j].text@ == model[j].1
                    && lines@[j].start_ms == model[j].2))
        }),
{
    let ghost ws = words_of(transcription@);
    let words: Vec<String> = split_words(transcription);
    if words.len() != timestamps.len() {
        return Err(MergeMismatch { words: words.len(), timestamps: timestamps.len() });
    }
    let n: usize = words.len();
    if n == 0 {
        return Ok(Vec::new());
    }

    let ghost spks = Seq::new(
        ws.len(),
        |i: int| word_speaker(diarization.segments@, timestamps@[i].0 as int),
    );
    let ghost starts = Seq::new(ws.len(), |i: int| timestamps@[i].0);

    // Attribute each word to a speaker by its start time.
    let mut speakers: Vec<Option<u32>> = Vec::new();
    let mut i: usize = 0;
    while i < n
        invariant
            0 <= i <= n,
            n == words@.len() == timestamps@.len(),
            ws == words@.map_values(|w: String| w@),
            spks == Seq::new(
                ws.len(),
                |k: int| word_speaker(diarization.segments@, timestamps@[k].0 as int),
            ),
            speakers@.len() == i,
            forall|k: int| 0 <= k < i ==> speakers@[k] == spks[k],
        decreases n - i,
    {
        let sp = speaker_at(&diarization.segments, timestamps[i].0);
        speakers.push(sp);
        i = i + 1;
    }

    // Group consecutive words with one speaker into lines.
    let mut lines: Vec<DiarizedTranscriptLine> = Vec::new();
    let ghost mut built: Seq<(Option<u32>, Seq<char>, u64)> = Seq::empty();
    let mut cur: String = words[0].clone();
    let mut a: usize = 0;
    let mut j: usize = 1;
    proof {
        assert(ws.subrange(0, 1) =~= seq![ws[0]]);
        assert(built + group_lines(ws, spks, starts, 1, 0) =~= lines_model(ws, spks, starts));
    }
    while j < n
        invariant
            1 <= j <= n,
            0 <= a < j,
            n == words@.len() == timestamps@.len() == ws.len() == spks.len() == starts.len(),
            ws == words@.map_values(|w: String| w@),
            forall|k: int| 0 <= k < n ==> starts[k] == timestamps@[k].0,
            speakers@.len() == n,
            forall|k: int| 0 <= k < n ==> speakers@[k] == spks[k],
            cur@ == join_space(ws.subrange(a as int, j as int)),
            built + group_lines(ws, spks, starts, j as int, a as int) == lines_model(
                ws,
                spks,
                starts,
            ),
            lines@.len() == built.len(),
            forall|k: int| 0 <= k < built.len() ==> (#[trigger] lines@[k]).speaker_label@
                == speaker_label_chars(built[k].0) && lines@[k].text@ == built[k].1
                && lines@[k].start_ms == built[k].2,
        decreases n - j,
    {
        let same: bool = match (&speakers[j], &speakers[a]) {
            (Some(x), Some(y)) => *x == *y,
            (None, None) => true,
            _ => false,
        };
        if same {
            cur.append(" ");
            cur.append(words[j].as_str());
            proof {
                reveal_strlit(" ");
                assert(" "@ =~= seq![' ']);
                assert(ws.subrange(a as int, j + 1).drop_last() =~= ws.subrange(
                    a as int,
                    j as int,
                ));
                assert(ws.subrange(a as int, j + 1).last() == ws[j as int]);
            }
        } else {
            let label = render_speaker_label(&speakers[a]);
            let start_ms: u64 = timestamps[a].0;
            let line = DiarizedTranscriptLine { speaker_label: label, text: cur, start_ms };
            lines.push(line);
            proof {
                built = built.push((spks[a as int], join_space(ws.subrange(a as int, j as int)),
                    starts[a as int]));
                assert(seq![
                    (spks[a as int], join_space(ws.subrange(a as int, j as int)),
                    starts[a as int]),
                ] + group_lines(ws, spks, starts, j + 1, j as int) =~= seq![
                    (spks[a as int], join_space(ws.subrange(a as int, j as int)),
                    starts[a as int]),
                ].add(group_lines(ws, spks, starts, j + 1, j as int)));
            }
            cur = words[j].clone();
            a = j;
            proof {
                assert(ws.subrange(j as int, j + 1) =~= seq![ws[j as int]]);
            }
        }
        j = j + 1;
    }
    let label = render_speaker_label(&speakers[a]);
    let start_ms: u64 = timestamps[a].0;
    let line = DiarizedTranscriptLine { speaker_label: label, text: cur, start_ms };
    lines.push(line);
    proof {
        assert(ws.subrange(a as int, n as int) =~= ws.subrange(a as int, ws.len() as int));
        built = built.push(
            (spks[a as int], join_space(ws.subrange(a as int, ws.len() as int)),
            starts[a as int]),
        );
    }
    Ok(lines)
}

/// The sample span a diarization segment selects from a chunk, clamped to
/// the chunk bounds: what the orchestrator hands the recognizer for that
/// segment.
pub fn segment_sample_range(start_ms: u64, end_ms: u64, rate: u32, len: usize) -> (r: (
    usize,
    usize,
))
    ensures
        r.0 == min_span(start_ms as int * rate as int / 1000, len as int),
        r.1 == min_span(end_ms as int * rate as int / 1000, len as int),
        start_ms <= end_ms ==> r.0 <= r.1,
{
    proof {
        assert(start_ms as int * rate as int <= 0xffff_ffff_ffff_ffff * 0xffff_ffff)
            by (nonlinear_arith)
            requires
                start_ms <= 0xffff_ffff_ffff_ffff,
                rate <= 0xffff_ffff,
        ;
        assert(end_ms as int * rate as int <= 0xffff_ffff_ffff_ffff * 0xffff_ffff)
            by (nonlinear_arith)
            requires
                end_ms <= 0xffff_ffff_ffff_ffff,
                rate <= 0xffff_ffff,
        ;
    }
    let s_w: u128 = start_ms as u128 * rate as u128 / 1000;
    let e_w: u128 = end_ms as u128 * rate as u128 / 1000;
    proof {
        if start_ms <= end_ms {
            assert(start_ms as int * rate as int <= end_ms as int * rate as int)
                by (nonlinear_arith)
                requires
                    start_ms <= end_ms,
                    rate >= 0,
            ;
            lemma_div_is_ordered(
                start_ms as int * rate as int,
                end_ms as int * rate as int,
                1000,
            );
        }
    }
    let s: usize = if s_w > len as u128 { len } else { s_w as usize };
    let e: usize = if e_w > len as u128 { len } else { e_w as usize };
    (s, e)
}

/// The smaller of a position and a length.
pub open spec fn min_span(v: int, len: int) -> int {
    if v <= len {
        v
    } else {
        len
    }
}


/// Total characters over a whole word list.
pub open spec fn total_chars(ws: Seq<Seq<char>>) -> int {
    prefix_chars(ws, ws.len() as int)
}

/// Prepending one word adds its length to any prefix count over the rest.
proof fn lemma_prefix_chars_cons(w: Seq<char>, rest: Seq<Seq<char>>, n: int)
    requires
        0 <= n <= rest.len(),
    ensures
        prefix_chars(seq![w] + rest, n + 1) == w.len() + prefix_chars(rest, n),
    decreases n,
{
    let c = seq![w] + rest;
    if n == 0 {
        assert(c[0] == w);
        assert(prefix_chars(c, 1) == prefix_chars(c, 0) + c[0].len());
    } else {
        lemma_prefix_chars_cons(w, rest, n - 1);
        assert(c[n] == rest[n - 1]);
    }
}

/// A text's words never hold more characters than the text itself (plus
/// whatever was already carried in the accumulator).
proof fn lemma_words_chars_bound(s: Seq<char>, i: int, cur: Seq<char>)
    requires
        0 <= i <= s.len(),
    ensures
        0 <= total_chars(words_acc(s, i, cur)) <= s.len() - i + cur.len(),
    decreases s.len() - i,
{
    if i >= s.len() {
        if cur.len() > 0 {
            assert(prefix_chars(seq![cur], 1) == prefix_chars(seq![cur], 0) + cur.len());
        }
    } else if is_ws(s[i]) {
        lemma_words_chars_bound(s, i + 1, Seq::empty());
        if cur.len() > 0 {
            let rest = words_acc(s, i + 1, Seq::empty());
            lemma_prefix_chars_cons(cur, rest, rest.len() as int);
            assert((seq![cur] + rest).len() == rest.len() + 1);
        }
    } else {
        lemma_words_chars_bound(s, i + 1, cur.push(s[i]));
    }
}

/// The words of a text carry at most the text's characters.
pub proof fn lemma_words_total_chars(s: Seq<char>)
    ensures
        0 <= total_chars(words_of(s)) <= s.len(),
{
    lemma_words_chars_bound(s, 0, Seq::empty());
}

/// The transcript handed on after the no-speech check: the joined
/// recognizer texts, or the fixed message when they hold nothing visible.
pub open spec fn final_transcript_spec(texts: Seq<Seq<char>>) -> Seq<char> {
    let joined = joined_texts(texts);
    if all_blank(joined) {
        "No speech detected in the audio."@
    } else {
        joined
    }
}

/// The fallback spans as one sequence.
pub open spec fn approx_spans_spec(ws: Seq<Seq<char>>, duration_ms: u64) -> Seq<(u64, u64)> {
    let total = total_chars(ws);
    if total > 0 {
        Seq::new(
            ws.len(),
            |i: int|
                (
                    (duration_ms * prefix_chars(ws, i) / total) as u64,
                    (duration_ms * prefix_chars(ws, i + 1) / total) as u64,
                ),
        )
    } else {
        Seq::new(ws.len(), |i: int| (0u64, 0u64))
    }
}


/// Runs the whole per-chunk pass that follows the recognizer: the
/// transcript is assembled from the recognizer's segment texts (or
/// replaced by the no-speech message), split into words, given fallback
/// word timestamps over the chunk duration, and merged with the chunk's
/// diarization into labeled speaker lines.
pub fn transcribe_with_diarization(
    samples: &Vec<i32>,
    rate: u32,
    asr_texts: &Vec<String>,
) -> (r: Vec<DiarizedTranscriptLine>)
    requires
        rate >= 100,
        samples_in_range(samples@),
        samples@.len() <= 0x10_0000_0000_0000,
        samples@.len() + 0x800_0000 < usize::MAX,
        sps_of(rate as int) <= usize::MAX,
    ensures
        ({
            let transcript = final_transcript_spec(asr_texts@.map_values(|t: String| t@));
            let ws = words_of(transcript);
            let duration = (samples@.len() as int * 1_000 / (rate as int)) as u64;
            let spans = approx_spans_spec(ws, duration);
            let segs = diarized_segments_spec(samples@, rate as int);
            let spks = Seq::new(ws.len(), |i: int| word_speaker(segs, spans[i].0 as int));
            let starts = Seq::new(ws.len(), |i: int| spans[i].0);
            let model = lines_model(ws, spks, starts);
            &&& r@.len() == model.len()
            &&& forall|j: int| 0 <= j < model.len() ==> (#[trigger] r@[j]).speaker_label@
                == speaker_label_chars(model[j].0) && r@[j].text@ == model[j].1
                && r@[j].start_ms == model[j].2
        }),
{
    let transcript = finalize_transcript(assemble_transcript(asr_texts));
    let words = split_words(transcript.as_str());
    // The character count bounds the words' total characters, which the
    // timestamp allocation needs to stay within range.
    let transcript_chars: usize = transcript.as_str().unicode_len();
    proof {
        lemma_words_total_chars(transcript@);
    }
    let duration_ms: u64 = (samples.len() as u64) * 1_000 / (rate as u64);
    let spans = approximate_word_timestamps(&words, duration_ms);
    let diarization = diarize(samples, rate);
    let merged = combine_with_transcription(&diarization, transcript.as_str(), &spans);
    match merged {
        Ok(lines) => {
            proof {
                let transcript_v = final_transcript_spec(
                    asr_texts@.map_values(|t: String| t@),
                );
                let ws = words_of(transcript_v);
                let spans_v = approx_spans_spec(ws, duration_ms);
                let segs = diarized_segments_spec(samples@, rate as int);
                assert(Seq::new(ws.len(), |i: int| word_speaker(segs, spans_v[i].0 as int))
                    =~= Seq::new(
                    ws.len(),
                    |i: int| word_speaker(diarization.segments@, spans@[i].0 as int),
                ));
                assert(Seq::new(ws.len(), |i: int| spans_v[i].0) =~= Seq::new(
                    ws.len(),
                    |i: int| spans@[i].0,
                ));
            }
            lines
        },
        Err(_) => {
            // The spans were allocated one per word, so the merge cannot
            // see a count mismatch.
            proof {
                assert(false);
            }
            Vec::new()
        },
    }
}

} // verus!
