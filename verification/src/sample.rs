//! The canonical in-pipeline sample representation.
//!
//! A sample is a mono PCM amplitude held as an `i32` in millionths of full
//! scale: `1_000_000` stands for an amplitude of one. Raw device formats
//! (signed or unsigned 16-bit integers) are converted once, at the capture
//! boundary, into this range.

use vstd::prelude::*;

verus! {

/// One amplitude unit of full scale, in millionths.
pub const AMPLITUDE_SCALE: i32 = 1_000_000;

/// A sample is in range when its magnitude does not exceed full scale.
pub open spec fn sample_in_range(s: i32) -> bool {
    -1_000_000 <= s <= 1_000_000
}

/// Every sample of the sequence is within the canonical range.
pub open spec fn samples_in_range(s: Seq<i32>) -> bool {
    forall|i: int| 0 <= i < s.len() ==> sample_in_range(#[trigger] s[i])
}

/// Canonical value of a signed 16-bit raw sample: scaled by the largest
/// positive 16-bit value and clamped to full scale.
pub open spec fn i16_to_sample(x: int) -> int {
    if x >= 0 {
        x * 1_000_000 / 32_767
    } else if (-x) * 1_000_000 / 32_767 > 1_000_000 {
        -1_000_000
    } else {
        -((-x) * 1_000_000 / 32_767)
    }
}

/// Canonical value of an unsigned 16-bit raw sample: re-centred around the
/// midpoint, then scaled like the signed format.
pub open spec fn u16_to_sample(x: int) -> int {
    i16_to_sample(x - 32_768)
}

/// Converts a signed 16-bit raw sample to the canonical range.
pub fn sample_from_i16(x: i16) -> (s: i32)
    ensures
        s == i16_to_sample(x as int),
        sample_in_range(s),
{
    if x >= 0 {
        let scaled: u64 = (x as u64) * 1_000_000 / 32_767;
        scaled as i32
    } else {
        let mag: u64 = (-(x as i64)) as u64 * 1_000_000 / 32_767;
        if mag > 1_000_000 {
            -1_000_000
        } else {
            -(mag as i32)
        }
    }
}

/// Converts an unsigned 16-bit raw sample to the canonical range.
pub fn sample_from_u16(x: u16) -> (s: i32)
    ensures
        s == u16_to_sample(x as int),
        sample_in_range(s),
{
    let centred: i64 = (x as i64) - 32_768;
    if centred >= 0 {
        let scaled: u64 = (centred as u64) * 1_000_000 / 32_767;
        scaled as i32
    } else {
        let mag: u64 = ((-centred) as u64) * 1_000_000 / 32_767;
        if mag > 1_000_000 {
            -1_000_000
        } else {
            -(mag as i32)
        }
    }
}

/// Converts a buffer of signed 16-bit raw samples to canonical samples.
pub fn samples_from_i16(data: &[i16]) -> (out: Vec<i32>)
    ensures
        out@.len() == data@.len(),
        forall|i: int| 0 <= i < out@.len() ==> out@[i] == i16_to_sample(data@[i] as int),
        samples_in_range(out@),
{
    let mut out: Vec<i32> = Vec::new();
    let mut i: usize = 0;
    while i < data.len()
        invariant
            0 <= i <= data@.len(),
            out@.len() == i,
            forall|j: int| 0 <= j < i ==> out@[j] == i16_to_sample(data@[j] as int),
            forall|j: int| 0 <= j < i ==> sample_in_range(#[trigger] out@[j]),
        decreases data@.len() - i,
    {
        let s = sample_from_i16(data[i]);
        out.push(s);
        i = i + 1;
    }
    out
}

/// Converts a buffer of unsigned 16-bit raw samples to canonical samples.
pub fn samples_from_u16(data: &[u16]) -> (out: Vec<i32>)
    ensures
        out@.len() == data@.len(),
        forall|i: int| 0 <= i < out@.len() ==> out@[i] == u16_to_sample(data@[i] as int),
        samples_in_range(out@),
{
    let mut out: Vec<i32> = Vec::new();
    let mut i: usize = 0;
    while i < data.len()
        invariant
            0 <= i <= data@.len(),
            out@.len() == i,
            forall|j: int| 0 <= j < i ==> out@[j] == u16_to_sample(data@[j] as int),
            forall|j: int| 0 <= j < i ==> sample_in_range(#[trigger] out@[j]),
        decreases data@.len() - i,
    {
        let s = sample_from_u16(data[i]);
        out.push(s);
        i = i + 1;
    }
    out
}

} // verus!
