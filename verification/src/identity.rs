//! Speaker identity management: stable labels for numeric speaker
//! identities, user-assigned display names, and the display colour each
//! speaker is given when first seen.

use vstd::prelude::*;
use crate::cluster::{assign_index, assign_profiles, ClusterEngine};
use crate::config::Config;
use crate::diarize::SpeakerSegment;
use crate::features::{feature_wf, FeatureVector};
use vstd::arithmetic::div_mod::lemma_div_decreases;

verus! {

/// The character of one decimal digit.
pub open spec fn digit_char(d: int) -> char {
    if d == 0 {
        '0'
    } else if d == 1 {
        '1'
    } else if d == 2 {
        '2'
    } else if d == 3 {
        '3'
    } else if d == 4 {
        '4'
    } else if d == 5 {
        '5'
    } else if d == 6 {
        '6'
    } else if d == 7 {
        '7'
    } else if d == 8 {
        '8'
    } else {
        '9'
    }
}

/// The decimal digits of a number, most significant first.
pub open spec fn dec_digits(n: int) -> Seq<char>
    decreases n,
    when n >= 0
{
    if n < 10 {
        seq![digit_char(n)]
    } else {
        dec_digits(n / 10) + seq![digit_char(n % 10)]
    }
}

/// The one-character string of a decimal digit.
fn digit_str(d: u8) -> (r: &'static str)
    requires
        d < 10,
    ensures
        r@ =~= seq![digit_char(d as int)],
{
    let r: &'static str = match d {
        0 => "0",
        1 => "1",
        2 => "2",
        3 => "3",
        4 => "4",
        5 => "5",
        6 => "6",
        7 => "7",
        _ => "9",
    };
    let r2: &'static str = if d == 8 { "8" } else { r };
    proof {
        reveal_strlit("0");
        reveal_strlit("1");
        reveal_strlit("2");
        reveal_strlit("3");
        reveal_strlit("4");
        reveal_strlit("5");
        reveal_strlit("6");
        reveal_strlit("7");
        reveal_strlit("8");
        reveal_strlit("9");
    }
    r2
}

/// Renders a number in decimal.
pub fn u32_to_string(n: u32) -> (s: String)
    ensures
        s@ == dec_digits(n as int),
    decreases n,
{
    if n < 10 {
        let s = String::from_str(digit_str(n as u8));
        proof {
            assert(s@ =~= dec_digits(n as int));
        }
        s
    } else {
        proof {
            lemma_div_decreases(n as int, 10);
        }
        let mut s = u32_to_string(n / 10);
        s.append(digit_str((n % 10) as u8));
        proof {
            assert(s@ =~= dec_digits(n as int));
        }
        s
    }
}

/// The label of a numeric speaker identity.
pub open spec fn label_chars(id: int) -> Seq<char> {
    "Speaker_"@ + dec_digits(id)
}

/// Renders the stable label of a speaker identity.
pub fn speaker_label(id: u32) -> (s: String)
    ensures
        s@ == label_chars(id as int),
{
    let mut s = String::from_str("Speaker_");
    let digits = u32_to_string(id);
    s.append(digits.as_str());
    proof {
        assert(s@ =~= label_chars(id as int));
    }
    s
}

/// A display colour, one byte per channel.
#[derive(Clone, Copy, PartialEq, Eq, Debug, Structural)]
pub struct SpeakerColor {
    /// Red channel.
    pub red: u8,
    /// Green channel.
    pub green: u8,
    /// Blue channel.
    pub blue: u8,
}

/// Relies on `rand::random`: three random channel bytes. The result
/// depends on the thread's generator, so nothing is promised of it.
#[verifier::external_body]
fn random_color() -> (c: SpeakerColor) {
    let (red, green, blue): (u8, u8, u8) = rand::random();
    SpeakerColor { red, green, blue }
}

/// First-match lookup in the colour table.
pub open spec fn color_lookup(entries: Seq<(u32, SpeakerColor)>, key: u32) -> Option<SpeakerColor>
    decreases entries.len(),
{
    if entries.len() == 0 {
        None
    } else if entries[0].0 == key {
        Some(entries[0].1)
    } else {
        color_lookup(entries.drop_first(), key)
    }
}

/// A key matching nothing in a prefix is decided by the rest.
proof fn lemma_color_skip(entries: Seq<(u32, SpeakerColor)>, key: u32, i: int)
    requires
        0 <= i <= entries.len(),
        forall|j: int| 0 <= j < i ==> (#[trigger] entries[j]).0 != key,
    ensures
        color_lookup(entries, key) == color_lookup(entries.skip(i), key),
    decreases i,
{
    if i > 0 {
        lemma_color_skip(entries.drop_first(), key, i - 1);
        assert(entries.drop_first().skip(i - 1) =~= entries.skip(i));
    } else {
        assert(entries.skip(0) =~= entries);
    }
}

/// Appending a colour for an absent key answers that key alone.
proof fn lemma_color_push(
    entries: Seq<(u32, SpeakerColor)>,
    key: u32,
    value: SpeakerColor,
    probe: u32,
)
    requires
        color_lookup(entries, key) is None,
    ensures
        color_lookup(entries.push((key, value)), probe) == if probe == key {
            Some(value)
        } else {
            color_lookup(entries, probe)
        },
    decreases entries.len(),
{
    let pushed = entries.push((key, value));
    if entries.len() == 0 {
        assert(pushed[0] == (key, value));
        assert(pushed.drop_first() =~= Seq::<(u32, SpeakerColor)>::empty());
        assert(color_lookup(pushed.drop_first(), probe) is None);
    } else {
        assert(entries[0].0 != key);
        assert(pushed[0] == entries[0]);
        lemma_color_push(entries.drop_first(), key, value, probe);
        assert(pushed.drop_first() =~= entries.drop_first().push((key, value)));
    }
}

/// Owns the speaker display names and colours. Names are a pure relabeling
/// with no effect on clustering; a colour is drawn once, the first time a
/// speaker identity is seen.
pub struct SpeakerManager {
    engine: ClusterEngine,
    names: Config,
    colors: Vec<(u32, SpeakerColor)>,
}

impl SpeakerManager {
    /// The display name stored for a label, if any.
    pub closed spec fn name_of(&self, label: Seq<char>) -> Option<Seq<char>> {
        self.names.name_of(label)
    }

    /// The colour assigned to a speaker identity, if one was drawn.
    pub closed spec fn color_of(&self, id: u32) -> Option<SpeakerColor> {
        color_lookup(self.colors@, id)
    }

    /// The profile store of the owned clustering engine.
    pub closed spec fn profiles(&self) -> Seq<Seq<FeatureVector>> {
        self.engine.view_profiles()
    }

    /// The owned engine's invariant holds.
    pub closed spec fn inv(&self) -> bool {
        self.engine.inv()
    }

    /// A manager with no speakers, no names and no colours.
    pub fn new() -> (m: Self)
        ensures
            m.inv(),
            m.profiles() == Seq::<Seq<FeatureVector>>::empty(),
            forall|k: Seq<char>| m.name_of(k) is None,
            forall|id: u32| m.color_of(id) is None,
    {
        let m = SpeakerManager {
            engine: ClusterEngine::new(),
            names: Config::new(),
            colors: Vec::new(),
        };
        proof {
            assert(m.colors@ =~= Seq::<(u32, SpeakerColor)>::empty());
        }
        m
    }

    /// Hands a segment-level feature vector to the clustering rule and
    /// returns the string shown for the resulting speaker: the
    /// user-assigned name when one exists, the stable label otherwise.
    pub fn identify_or_create(&mut self, feature: FeatureVector) -> (r: String)
        requires
            old(self).inv(),
            feature_wf(feature),
        ensures
            final (self).inv(),
            final (self).profiles() == assign_profiles(old(self).profiles(), feature),
            ({
                let id = assign_index(old(self).profiles(), feature);
                r@ == match old(self).name_of(label_chars(id)) {
                    Some(n) => n,
                    None => label_chars(id),
                }
            }),
            forall|k: Seq<char>| final (self).name_of(k) == old(self).name_of(k),
    {
        let id: u32 = self.engine.assign(feature) as u32;
        let label = speaker_label(id);
        match self.names.get_speaker_name(label.as_str()) {
            Some(custom) => custom.clone(),
            None => label,
        }
    }

    /// Resolves a diarization segment to the string shown for its speaker:
    /// the user-assigned name when one exists, the stable label otherwise.
    /// A speaker seen for the first time is also given a colour.
    pub fn identify_speaker_from_segment(&mut self, segment: &SpeakerSegment) -> (r: String)
        ensures
            r@ == match old(self).name_of(label_chars(segment.speaker as int)) {
                Some(n) => n,
                None => label_chars(segment.speaker as int),
            },
            final (self).profiles() == old(self).profiles(),
            final (self).inv() == old(self).inv(),
            forall|k: Seq<char>| final (self).name_of(k) == old(self).name_of(k),
            final (self).color_of(segment.speaker) is Some,
            forall|id: u32| id != segment.speaker ==> final (self).color_of(id) == old(
                self,
            ).color_of(id),
            old(self).color_of(segment.speaker) is Some ==> final (self).color_of(
                segment.speaker,
            ) == old(self).color_of(segment.speaker),
    {
        let id: u32 = segment.speaker;
        let label = speaker_label(id);
        if self.get_speaker_color(id).is_none() {
            let ghost oc = self.colors@;
            let c = random_color();
            self.colors.push((id, c));
            proof {
                assert forall|probe: u32| color_lookup(self.colors@, probe) == (if probe == id {
                    Some(c)
                } else {
                    color_lookup(oc, probe)
                }) by {
                    lemma_color_push(oc, id, c, probe);
                }
            }
        }
        match self.names.get_speaker_name(label.as_str()) {
            Some(custom) => custom.clone(),
            None => label,
        }
    }

    /// Stores a user-assigned display name for a speaker label.
    pub fn rename_speaker(&mut self, speaker_id: &str, new_name: &str) -> (r: ())
        ensures
            forall|k: Seq<char>| final (self).name_of(k) == if k == speaker_id@ {
                Some(new_name@)
            } else {
                old(self).name_of(k)
            },
            final (self).profiles() == old(self).profiles(),
            final (self).inv() == old(self).inv(),
            forall|id: u32| final (self).color_of(id) == old(self).color_of(id),
    {
        self.names.set_speaker_name(String::from_str(speaker_id), String::from_str(new_name));
    }

    /// Returns the colour assigned to a speaker identity, if any.
    pub fn get_speaker_color(&self, speaker: u32) -> (r: Option<SpeakerColor>)
        ensures
            r == self.color_of(speaker),
    {
        let ghost oc = self.colors@;
        let len: usize = self.colors.len();
        let mut i: usize = 0;
        while i < len
            invariant
                0 <= i <= len,
                len == self.colors@.len(),
                oc == self.colors@,
                forall|j: int| 0 <= j < i ==> (#[trigger] oc[j]).0 != speaker,
            decreases len - i,
        {
            let entry = self.colors[i];
            if entry.0 == speaker {
                proof {
                    lemma_color_skip(oc, speaker, i as int);
                    assert(oc.skip(i as int)[0] == oc[i as int]);
                }
                return Some(entry.1);
            }
            i = i + 1;
        }
        proof {
            lemma_color_skip(oc, speaker, len as int);
            assert(oc.skip(len as int) =~= Seq::<(u32, SpeakerColor)>::empty());
        }
        None
    }
}

} // verus!
