//! The ring buffer between the thread that receives a user's audio and the thread that plays it.
//!
//! The two ends of a ring work at the same time, so one end never knows the ring exactly: the other
//! end may have moved on since. What is stated here holds whatever the other end does in between:
//! the samples come out as they went in, but when one arrives is up to the two threads.

use ringbuf::{Consumer, Producer, RingBuffer};
use vstd::prelude::*;

verus! {

#[verifier::external_type_specification]
#[verifier::external_body]
#[verifier::reject_recursive_types(T)]
pub struct ExRingBuffer<T>(ringbuf::RingBuffer<T>);

#[verifier::external_type_specification]
#[verifier::external_body]
#[verifier::reject_recursive_types(T)]
pub struct ExConsumer<T>(ringbuf::Consumer<T>);

#[verifier::external_type_specification]
#[verifier::external_body]
#[verifier::reject_recursive_types(T)]
pub struct ExProducer<T>(ringbuf::Producer<T>);

/// How many samples a ring that has not been split yet has room for.
pub uninterp spec fn ring_room(r: RingBuffer<i16>) -> nat;

/// The samples, oldest first, that were waiting in the ring when its reading end last looked.
/// More may have come since; none of these can have gone, for only the reading end removes samples.
pub uninterp spec fn held(c: Consumer<i16>) -> Seq<i16>;

/// All samples that have been written through the writing end, oldest first.
pub uninterp spec fn written(p: Producer<i16>) -> Seq<i16>;

/// All samples that have been taken out through the reading end, oldest first.
pub uninterp spec fn drained(c: Consumer<i16>) -> Seq<i16>;

/// The two are ends of one ring, each as it was at some moment, not necessarily the same.
pub uninterp spec fn same_ring(p: Producer<i16>, c: Consumer<i16>) -> bool;

/// The two are the writing end of one ring, at two moments.
pub open spec fn same_writer(before: Producer<i16>, after: Producer<i16>) -> bool {
    forall|c: Consumer<i16>| #[trigger] same_ring(after, c) == same_ring(before, c)
}

/// The two are the reading end of one ring, at two moments.
pub open spec fn same_reader(before: Consumer<i16>, after: Consumer<i16>) -> bool {
    forall|p: Producer<i16>| #[trigger] same_ring(p, after) == same_ring(p, before)
}

/// Two rows of samples are equal as far as the shorter one goes.
pub open spec fn agree(a: Seq<i16>, b: Seq<i16>) -> bool {
    forall|i: int| 0 <= i < a.len() && i < b.len() ==> a[i] == b[i]
}

/// What has come to the reading end is what has been written at the other, in order, as far as
/// both go.
pub open spec fn faithful(c: Consumer<i16>) -> bool {
    forall|p: Producer<i16>| #[trigger]
        same_ring(p, c) ==> agree(written(p), drained(c) + held(c))
}

/// How many samples fitted into the ring when its writing end last looked. More room may have come
/// since; none of it can have gone, for only the writing end adds samples.
pub uninterp spec fn vacancy(p: Producer<i16>) -> nat;

/// Calls `RingBuffer::new`: an empty ring with room for `capacity` samples. The function reserves
/// one slot more than that, and panics where the slots do not fit into memory's address range.
#[verifier::external_body]
pub(crate) fn ring_new(capacity: usize) -> (r: RingBuffer<i16>)
    requires
        capacity < isize::MAX / 2,
    ensures
        ring_room(r) == capacity,
{
    RingBuffer::new(capacity)
}

/// Calls `RingBuffer::split`: the two ends of a ring that is empty, as every ring is that
/// `ring_new` made. All its room is free, and nothing has been taken out of it.
#[verifier::external_body]
pub(crate) fn ring_split(r: RingBuffer<i16>) -> (ends: (Producer<i16>, Consumer<i16>))
    ensures
        written(ends.0) == Seq::<i16>::empty(),
        vacancy(ends.0) == ring_room(r),
        held(ends.1) == Seq::<i16>::empty(),
        drained(ends.1) == Seq::<i16>::empty(),
        same_ring(ends.0, ends.1),
{
    r.split()
}

/// Calls `Consumer::pop`: takes the oldest sample out of the ring. Where a sample was known to be
/// there, that one comes; where none was, one that has just arrived may come, or `None`. After
/// `None` the ring was empty; otherwise what was known behind the sample is still there. The
/// samples come in the order in which they were written, each once.
#[verifier::external_body]
pub(crate) fn ring_pop(c: &mut Consumer<i16>) -> (r: Option<i16>)
    ensures
        held(*old(c)).len() > 0 ==> r == Some(held(*old(c))[0]),
        held(*old(c)).len() > 0 ==> held(*old(c)).drop_first().is_prefix_of(held(*final(c))),
        r is None ==> held(*final(c)) == Seq::<i16>::empty(),
        drained(*final(c)) == match r {
            Some(x) => drained(*old(c)).push(x),
            None => drained(*old(c)),
        },
        same_reader(*old(c), *final(c)),
        faithful(*final(c)),
{
    c.pop()
}

/// Calls `Consumer::len`: how many samples wait in the ring now. Those known before are among them.
#[verifier::external_body]
pub(crate) fn ring_len(c: &mut Consumer<i16>) -> (n: usize)
    ensures
        n == held(*final(c)).len(),
        held(*old(c)).is_prefix_of(held(*final(c))),
        drained(*final(c)) == drained(*old(c)),
        same_reader(*old(c), *final(c)),
        faithful(*final(c)),
{
    c.len()
}

/// Calls `Consumer::is_empty`: whether no sample waits in the ring now. Those known before are still
/// there.
#[verifier::external_body]
pub(crate) fn ring_is_empty(c: &mut Consumer<i16>) -> (r: bool)
    ensures
        r == (held(*final(c)).len() == 0),
        held(*old(c)).is_prefix_of(held(*final(c))),
        drained(*final(c)) == drained(*old(c)),
        same_reader(*old(c), *final(c)),
        faithful(*final(c)),
{
    c.is_empty()
}

/// Calls `Producer::push`: adds `sample` at the end of the ring, which succeeds where there was
/// room. A refused sample comes back, and nothing has been written then.
#[verifier::external_body]
pub(crate) fn ring_push(p: &mut Producer<i16>, sample: i16) -> (r: Result<(), i16>)
    ensures
        vacancy(*old(p)) > 0 ==> r is Ok,
        r is Ok ==> written(*final(p)) == written(*old(p)).push(sample),
        r is Ok ==> vacancy(*final(p)) >= vacancy(*old(p)) - 1,
        r matches Err(e) ==> e == sample,
        r is Err ==> written(*final(p)) == written(*old(p)),
        r is Err ==> vacancy(*final(p)) == 0,
        same_writer(*old(p), *final(p)),
{
    p.push(sample)
}

/// Calls `Producer::push_slice`: adds the samples in order until the ring is full, and says how
/// many went in. All go in where there was room for all.
#[verifier::external_body]
pub(crate) fn ring_push_slice(p: &mut Producer<i16>, samples: &[i16]) -> (n: usize)
    ensures
        n <= samples@.len(),
        n < samples@.len() ==> n >= vacancy(*old(p)),
        n < samples@.len() ==> vacancy(*final(p)) == 0,
        written(*final(p)) == written(*old(p)) + samples@.take(n as int),
        vacancy(*final(p)) >= vacancy(*old(p)) - n,
        same_writer(*old(p), *final(p)),
{
    p.push_slice(samples)
}

} // verus!
