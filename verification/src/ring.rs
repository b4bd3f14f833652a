//! Bounded sample transport between the audio-device callback and the
//! processing thread.
//!
//! The queue itself is `ringbuf`'s heap-allocated ring buffer; its contents
//! and capacity are named below and every method the transport calls is
//! given a contract taken from that crate's source. On top of it the
//! [`RingBuffer`] type enforces the transport policy: a full buffer drops
//! the excess samples and counts them, it never overwrites.

use vstd::prelude::*;
use ringbuf::traits::{Consumer, Observer, Producer};

verus! {

/// Holds `ringbuf`'s heap-allocated single-producer/single-consumer queue;
/// Verus refuses to declare that type directly (its storage parameter is
/// bound by an unsized outside trait), so this struct carries it opaquely.
#[verifier::external_body]
pub struct SampleQueue {
    rb: ringbuf::HeapRb<i16>,
}

/// The queued samples, oldest first.
pub uninterp spec fn rb_contents(q: &SampleQueue) -> Seq<i16>;

/// The fixed capacity the queue was created with.
pub uninterp spec fn rb_capacity(q: &SampleQueue) -> nat;

/// Relies on `SharedRb::<Heap<T>>::new`: an empty queue of the given
/// capacity. It panics on capacity zero, so that is excluded here.
#[verifier::external_body]
fn rb_new(capacity: usize) -> (q: SampleQueue)
    requires
        capacity >= 1,
    ensures
        rb_contents(&q) == Seq::<i16>::empty(),
        rb_capacity(&q) == capacity,
{
    SampleQueue { rb: ringbuf::HeapRb::new(capacity) }
}

/// Relies on `Producer::push_slice`: appends the longest prefix of `data`
/// that fits in the vacant part of the queue and returns its length.
#[verifier::external_body]
fn rb_push_slice(rb: &mut SampleQueue, data: &[i16]) -> (pushed: usize)
    ensures
        rb_capacity(final(rb)) == rb_capacity(old(rb)),
        rb_contents(old(rb)).len() <= rb_capacity(old(rb)),
        pushed == if data@.len() <= rb_capacity(old(rb)) - rb_contents(old(rb)).len() {
            data@.len() as int
        } else {
            rb_capacity(old(rb)) - rb_contents(old(rb)).len()
        },
        rb_contents(final(rb)) == rb_contents(old(rb)) + data@.take(pushed as int),
{
    rb.rb.push_slice(data)
}

/// Relies on `Consumer::pop_slice`: removes up to `buf.len()` of the oldest
/// queued samples into the front of `buf` and returns how many were moved.
/// The wrapper hands them out as a vector of exactly that length.
#[verifier::external_body]
fn rb_pop_into(rb: &mut SampleQueue, max: usize) -> (out: Vec<i16>)
    ensures
        rb_capacity(final(rb)) == rb_capacity(old(rb)),
        rb_contents(old(rb)).len() <= rb_capacity(old(rb)),
        out@.len() == if max <= rb_contents(old(rb)).len() {
            max as int
        } else {
            rb_contents(old(rb)).len() as int
        },
        out@ == rb_contents(old(rb)).take(out@.len() as int),
        rb_contents(final(rb)) == rb_contents(old(rb)).skip(out@.len() as int),
{
    let mut buf: Vec<i16> = vec![0i16; max];
    let n = rb.rb.pop_slice(&mut buf);
    buf.truncate(n);
    buf
}

/// Fixed-capacity single-producer/single-consumer sample queue.
///
/// `push` never blocks and never overwrites: samples that do not fit are
/// discarded and counted in `dropped`, so the real-time capture callback is
/// protected from a slow consumer.
pub struct RingBuffer {
    inner: SampleQueue,
    dropped: u64,
}

impl RingBuffer {
    /// The queued samples, oldest first.
    pub closed spec fn contents(&self) -> Seq<i16> {
        rb_contents(&self.inner)
    }

    /// The fixed capacity chosen at construction.
    pub closed spec fn capacity(&self) -> nat {
        rb_capacity(&self.inner)
    }

    /// How many samples have been discarded because the queue was full.
    pub closed spec fn dropped_count(&self) -> u64 {
        self.dropped
    }

    /// The queue never holds more than its capacity.
    pub closed spec fn inv(&self) -> bool {
        self.contents().len() <= self.capacity() && self.capacity() >= 1
    }

    /// Creates an empty queue of the given fixed capacity.
    pub fn new(capacity: usize) -> (rb: Self)
        requires
            capacity >= 1,
        ensures
            rb.inv(),
            rb.contents() == Seq::<i16>::empty(),
            rb.capacity() == capacity,
            rb.dropped_count() == 0,
    {
        RingBuffer { inner: rb_new(capacity), dropped: 0 }
    }

    /// Appends as many of `samples` as fit; the rest are dropped and
    /// counted. Returns how many samples were accepted.
    pub fn push(&mut self, samples: &[i16]) -> (pushed: usize)
        requires
            old(self).inv(),
        ensures
            final(self).inv(),
            final(self).capacity() == old(self).capacity(),
            pushed == if samples@.len() <= old(self).capacity() - old(self).contents().len() {
                samples@.len() as int
            } else {
                old(self).capacity() - old(self).contents().len()
            },
            final(self).contents() == old(self).contents() + samples@.take(pushed as int),
            final(self).dropped_count() == if old(self).dropped_count() + (samples@.len() - pushed)
                <= u64::MAX {
                old(self).dropped_count() + (samples@.len() - pushed)
            } else {
                u64::MAX as int
            },
    {
        let pushed = rb_push_slice(&mut self.inner, samples);
        let lost = samples.len() - pushed;
        self.dropped = self.dropped.saturating_add(lost as u64);
        pushed
    }

    /// Removes up to `max` of the oldest queued samples and returns them;
    /// returns fewer (possibly none) when the queue holds fewer.
    pub fn pop_into(&mut self, max: usize) -> (out: Vec<i16>)
        requires
            old(self).inv(),
        ensures
            final(self).inv(),
            final(self).capacity() == old(self).capacity(),
            final(self).dropped_count() == old(self).dropped_count(),
            out@.len() == if max <= old(self).contents().len() {
                max as int
            } else {
                old(self).contents().len() as int
            },
            out@ == old(self).contents().take(out@.len() as int),
            final(self).contents() == old(self).contents().skip(out@.len() as int),
    {
        rb_pop_into(&mut self.inner, max)
    }

    /// How many samples have been dropped since construction.
    pub fn dropped_so_far(&self) -> (n: u64)
        ensures
            n == self.dropped_count(),
    {
        self.dropped
    }
}

} // verus!
