//! Packets of audio: bringing them into time and into the ring.

use crate::ring::{ring_push, ring_push_slice, same_ring, same_writer, vacancy, written};
use crate::session::Session;
use crate::stream::{lemma_still_fed, lemma_stream_keeps_its_place, Stream};
use ringbuf::{Consumer, Producer};
use vstd::prelude::*;

verus! {

/// The word that four bytes stand for, the lowest byte first.
pub open spec fn le_word(b: Seq<u8>) -> u32 {
    (b[0] + 256 * b[1] + 65536 * b[2] + 16777216 * b[3]) as u32
}

/// The words that some bytes stand for, four bytes each.
pub open spec fn words(bytes: Seq<u8>) -> Seq<u32> {
    Seq::new(bytes.len() / 4, |i: int| le_word(bytes.subrange(4 * i, 4 * i + 4)))
}

/// Cuts a packet of audio that is not packed into words, each of which holds the bits of a number.
pub fn cut_into_words(bytes: &Vec<u8>) -> (r: Vec<u32>)
    requires
        bytes@.len() % 4 == 0,
    ensures
        r@ == words(bytes@),
{
    let mut r: Vec<u32> = Vec::new();
    let count: usize = bytes.len() / 4;
    let mut i: usize = 0;
    while i < count
        invariant
            i <= count,
            count == bytes.len() / 4,
            r@.len() == i,
            forall|j: int|
                0 <= j < i ==> r@[j] == le_word(#[trigger] bytes@.subrange(4 * j, 4 * j + 4)),
        decreases count - i,
    {
        let word: u32 = bytes[4 * i] as u32 + 256 * (bytes[4 * i + 1] as u32) + 65536 * (bytes[4 * i
            + 2] as u32) + 16777216 * (bytes[4 * i + 3] as u32);
        r.push(word);
        assert(word == le_word(bytes@.subrange(4 * i, 4 * i + 4)));
        i = i + 1;
    }
    assert(r@ =~= words(bytes@));
    r
}

/// By how many samples a packet comes too late.
pub open spec fn overdue(packet_time: Option<usize>, current_time: usize) -> int {
    match packet_time {
        Some(t) => if t < current_time {
            current_time - t
        } else {
            0
        },
        None => 0,
    }
}

/// What is left of a packet: as many samples are cut off at its beginning as it comes too late.
pub open spec fn left_of(
    packet_time: Option<usize>,
    current_time: usize,
    samples: Seq<i16>,
) -> Seq<i16> {
    let late = overdue(packet_time, current_time);
    samples.skip(
        if late < samples.len() {
            late
        } else {
            samples.len() as int
        },
    )
}

/// How much silence comes before a packet: as many samples as it comes too early.
pub open spec fn silence_before(packet_time: Option<usize>, current_time: usize) -> int {
    match packet_time {
        Some(t) => if t > current_time {
            t - current_time
        } else {
            0
        },
        None => 0,
    }
}

/// So many samples of silence.
pub open spec fn silent(n: nat) -> Seq<i16> {
    Seq::new(n, |i: int| 0i16)
}

/// A packet that has been brought into time.
pub struct Timed {
    /// Samples of silence that come before it.
    pub silence: usize,
    /// What is left of it.
    pub samples: Vec<i16>,
    /// The time that is to be written down, where the user has said one.
    pub label: Option<usize>,
}

/// The ring had no room for the silence.
#[derive(PartialEq, Eq, Structural, Clone, Copy, Debug)]
pub struct RingFull;

/// The first `len` samples, or all where there are fewer.
pub open spec fn up_to(samples: Seq<i16>, len: usize) -> Seq<i16> {
    if len <= samples.len() {
        samples.take(len as int)
    } else {
        samples
    }
}

/// Writing silence and then samples can turn `before` into `after`. The silence goes in as a whole.
/// Of the samples the last ones may be lost, but none where there was room for all. What has gone in
/// takes no more room than it needs.
pub open spec fn audio_written(
    before: Producer<i16>,
    silence: nat,
    samples: Seq<i16>,
    after: Producer<i16>,
) -> bool {
    &&& same_writer(before, after)
    &&& exists|n: int|
        {
            &&& 0 <= n <= samples.len()
            &&& written(after) == written(before) + silent(silence) + #[trigger] samples.take(n)
            &&& vacancy(before) >= silence + samples.len() ==> n == samples.len()
            &&& vacancy(after) + silence + n >= vacancy(before)
            &&& n < samples.len() ==> silence + n >= vacancy(before)
        }
}

/// Writing silence in vain can turn `before` into `after`: there was no room for all of it.
pub open spec fn silence_lost(before: Producer<i16>, silence: nat, after: Producer<i16>) -> bool {
    &&& vacancy(before) < silence
    &&& same_writer(before, after)
    &&& exists|n: nat|
        vacancy(before) <= n < silence && written(after) == written(before) + #[trigger] silent(n)
}

/// Writes silence, and then the first `len` samples, to a ring. The silence has to go in; of the
/// samples those are lost for which there is no room.
pub fn write_audio(
    producer: &mut Producer<i16>,
    silence: usize,
    samples: &Vec<i16>,
    len: usize,
) -> (r: Result<(), RingFull>)
    requires
        len <= samples@.len(),
    ensures
        r is Ok ==> audio_written(
            *old(producer),
            silence as nat,
            samples@.take(len as int),
            *final(producer),
        ),
        r is Err ==> silence_lost(*old(producer), silence as nat, *final(producer)),
{
    let ghost start = written(*producer);
    let ghost room = vacancy(*producer);
    let mut i: usize = 0;
    assert(start + silent(0) =~= start);
    while i < silence
        invariant
            i <= silence,
            written(*producer) == start + silent(i as nat),
            vacancy(*producer) >= room - i,
            same_writer(*old(producer), *producer),
            start == written(*old(producer)),
            room == vacancy(*old(producer)),
        decreases silence - i,
    {
        let ghost fore = *producer;
        let pushed = ring_push(producer, 0);
        assert forall|c: Consumer<i16>| #[trigger]
            same_ring(*producer, c) == same_ring(*old(producer), c) by {
            assert(same_ring(fore, c) == same_ring(*old(producer), c));
        }
        match pushed {
            Ok(()) => {},
            Err(_) => {
                return Err(RingFull);
            },
        }
        assert(start + silent((i + 1) as nat) =~= (start + silent(i as nat)).push(0));
        i = i + 1;
    }
    let part = vstd::slice::slice_subrange(samples.as_slice(), 0, len);
    let ghost fore = *producer;
    let n: usize = ring_push_slice(producer, part);
    assert forall|c: Consumer<i16>| #[trigger]
        same_ring(*producer, c) == same_ring(*old(producer), c) by {
        assert(same_ring(fore, c) == same_ring(*old(producer), c));
    }
    assert(part@ =~= samples@.take(len as int));
    Ok(())
}

impl Session {
    /// The samples that have come can be counted.
    pub open spec fn can_count(self, samples: Seq<i16>) -> bool {
        self.current_time + left_of(self.packet_time, self.current_time, samples).len()
            <= usize::MAX
    }

    /// The connection after a packet: what is left of it is counted, and its time is forgotten.
    pub open spec fn counted(self, samples: Seq<i16>) -> Session {
        Session {
            packet_time: None,
            current_time: (self.current_time + left_of(
                self.packet_time,
                self.current_time,
                samples,
            ).len()) as usize,
            ..self
        }
    }

    /// Brings a packet into time. Where the user has said when it begins, silence is put before a
    /// packet that comes too early, and a packet that comes too late is cut.
    pub fn bring_into_time(&mut self, samples: Vec<i16>) -> (timed: Timed)
        requires
            old(self).can_count(samples@),
        ensures
            timed.silence == silence_before(old(self).packet_time, old(self).current_time),
            timed.samples@ == left_of(old(self).packet_time, old(self).current_time, samples@),
            timed.label == old(self).packet_time,
            *final(self) == old(self).counted(samples@),
    {
        let ghost packet = samples@;
        let mut samples = samples;
        let mut silence: usize = 0;
        let label = self.packet_time;
        if let Some(t) = label {
            if t > self.current_time {
                silence = t - self.current_time;
            } else if t < self.current_time {
                let late: usize = self.current_time - t;
                let end: usize = if late < samples.len() {
                    late
                } else {
                    samples.len()
                };
                samples = samples.split_off(end);
            }
        }
        assert(samples@ =~= left_of(old(self).packet_time, old(self).current_time, packet));
        self.packet_time = None;
        self.current_time = self.current_time + samples.len();
        Timed { silence, samples, label }
    }

    /// The first `len` samples of a packet can be taken: it has so many, and what has come can be
    /// counted.
    pub open spec fn takes(self, samples: Seq<i16>, len: usize) -> bool {
        &&& self.can_count(samples)
        &&& len <= samples.len()
    }

    /// Whether the first `len` samples of a packet can be taken.
    pub fn can_take_audio(&self, samples: &Vec<i16>, len: usize) -> (r: bool)
        ensures
            r == self.takes(samples@, len),
    {
        let late: usize = match self.packet_time {
            Some(t) => if t < self.current_time {
                self.current_time - t
            } else {
                0
            },
            None => 0,
        };
        let left: usize = if late < samples.len() {
            samples.len() - late
        } else {
            0
        };
        self.current_time <= usize::MAX - left && len <= samples.len()
    }

    /// Takes a packet of audio of which the first `len` samples count: brings it into time and
    /// writes the first `len` samples of what is left, or all where fewer are left, to the ring.
    /// Gives the time that is to be written down.
    pub fn take_audio(&mut self, producer: &mut Producer<i16>, samples: Vec<i16>, len: usize) -> (r:
        Result<Option<usize>, RingFull>)
        requires
            old(self).takes(samples@, len),
        ensures
            *final(self) == old(self).counted(samples@),
            ({
                let silence = silence_before(old(self).packet_time, old(self).current_time) as nat;
                let left = left_of(old(self).packet_time, old(self).current_time, samples@);
                match r {
                    Ok(label) => {
                        &&& label == old(self).packet_time
                        &&& audio_written(
                            *old(producer),
                            silence,
                            up_to(left, len),
                            *final(producer),
                        )
                    },
                    Err(_) => silence_lost(*old(producer), silence, *final(producer)),
                }
            }),
    {
        let timed = self.bring_into_time(samples);
        let count: usize = if len <= timed.samples.len() {
            len
        } else {
            timed.samples.len()
        };
        assert(timed.samples@.take(count as int) =~= up_to(timed.samples@, len));
        match write_audio(producer, timed.silence, &timed.samples, count) {
            Ok(()) => Ok(timed.label),
            Err(e) => Err(e),
        }
    }
}

/// A packet that comes too early is kept whole, and the silence before it fills the gap up to its
/// time. Of one that comes too late, what is kept begins with the sample that is due now; where
/// none is due yet, nothing is kept. One that comes in time, or whose time nobody has said, is
/// kept as it is.
pub proof fn lemma_compensation(packet_time: Option<usize>, current_time: usize, samples: Seq<i16>)
    ensures
        ({
            let silence = silence_before(packet_time, current_time);
            let left = left_of(packet_time, current_time, samples);
            match packet_time {
                Some(t) => {
                    &&& t >= current_time ==> left == samples && current_time + silence == t
                    &&& t < current_time ==> {
                        &&& silence == 0
                        &&& forall|k: int| #![trigger left[k]]
                            0 <= k < left.len() ==> left[k] == samples[current_time - t + k]
                        &&& left.len() == if samples.len() > current_time - t {
                            samples.len() - (current_time - t)
                        } else {
                            0
                        }
                    }
                },
                None => left == samples && silence == 0,
            }
        }),
{
    assert(samples.skip(0) =~= samples);
}

/// A packet that fits into the ring arrives there as it is, after its silence: nothing is lost, and
/// nothing else is written.
pub proof fn lemma_nothing_is_lost(
    before: Producer<i16>,
    silence: nat,
    samples: Seq<i16>,
    after: Producer<i16>,
)
    requires
        audio_written(before, silence, samples, after),
        vacancy(before) >= silence + samples.len(),
    ensures
        written(after) == written(before) + silent(silence) + samples,
{
    assert(samples.take(samples.len() as int) =~= samples);
}

/// Two packets for which there was room from the beginning both arrive as they are, one after the
/// other, each after its silence.
pub proof fn lemma_packets_follow_each_other(
    before: Producer<i16>,
    silence: nat,
    samples: Seq<i16>,
    mid: Producer<i16>,
    next_silence: nat,
    next_samples: Seq<i16>,
    after: Producer<i16>,
)
    requires
        audio_written(before, silence, samples, mid),
        audio_written(mid, next_silence, next_samples, after),
        vacancy(before) >= silence + samples.len() + next_silence + next_samples.len(),
    ensures
        written(after) == written(before) + silent(silence) + samples + silent(next_silence)
            + next_samples,
{
    lemma_nothing_is_lost(before, silence, samples, mid);
    lemma_nothing_is_lost(mid, next_silence, next_samples, after);
}

/// A packet is heard as it was sent: of a stream that reads from the ring, a sample that is heard
/// at the place of one that the packet holds is that one, wherever the stream stood and whenever the
/// packet came. Its place is counted from the beginning of all that was written.
pub proof fn lemma_packet_is_heard(
    before: Producer<i16>,
    silence: nat,
    samples: Seq<i16>,
    after: Producer<i16>,
    stream: Stream,
    later: Stream,
    sample: i16,
)
    requires
        audio_written(before, silence, samples, after),
        vacancy(before) >= silence + samples.len(),
        stream.fed_by(before),
        Stream::popped(stream, later, sample),
        sample != 0,
    ensures
        ({
            let number = stream.place() - later.lag();
            let first = written(before).len() + silence;
            first <= number < first + samples.len() ==> sample == samples[number - first]
        }),
{
    lemma_nothing_is_lost(before, silence, samples, after);
    lemma_still_fed(stream, before, after);
    lemma_stream_keeps_its_place(stream, later, sample, after);
}

/// Silence is as long as it is asked for, and nothing is heard in it.
pub proof fn lemma_silence(n: nat, i: int)
    ensures
        silent(n).len() == n,
        0 <= i < n ==> silent(n)[i] == 0,
{
}

/// Each word holds four bytes, the lowest first, and no byte is left over.
pub proof fn lemma_words_hold_the_bytes(bytes: Seq<u8>, i: int)
    requires
        bytes.len() % 4 == 0,
        0 <= i < words(bytes).len(),
    ensures
        4 * words(bytes).len() == bytes.len(),
        words(bytes)[i] as int % 256 == bytes[4 * i],
        words(bytes)[i] as int / 256 % 256 == bytes[4 * i + 1],
        words(bytes)[i] as int / 65536 % 256 == bytes[4 * i + 2],
        words(bytes)[i] as int / 16777216 == bytes[4 * i + 3],
{
    let b = bytes.subrange(4 * i, 4 * i + 4);
    assert(b[0] == bytes[4 * i] && b[1] == bytes[4 * i + 1] && b[2] == bytes[4 * i + 2] && b[3]
        == bytes[4 * i + 3]);
}

/// What counts of a packet is what is left of it, in full and in order, as far as it counts.
pub proof fn lemma_as_much_as_counts(samples: Seq<i16>, len: usize, i: int)
    ensures
        len >= samples.len() ==> up_to(samples, len) == samples,
        len < samples.len() ==> up_to(samples, len).len() == len,
        0 <= i < samples.len() && i < len ==> up_to(samples, len)[i] == samples[i],
{
}

/// A packet that counts as a whole, and for which there is room, arrives as a whole: what has been
/// written grows by the silence before it and by all that is left of it. Where nobody has said its
/// time, that is the packet as it was sent.
pub proof fn lemma_packet_arrives_whole(
    session: Session,
    samples: Seq<i16>,
    len: usize,
    before: Producer<i16>,
    after: Producer<i16>,
)
    requires
        len == samples.len(),
        audio_written(
            before,
            silence_before(session.packet_time, session.current_time) as nat,
            up_to(left_of(session.packet_time, session.current_time, samples), len),
            after,
        ),
        vacancy(before) >= silence_before(session.packet_time, session.current_time)
            + samples.len(),
    ensures
        match session.packet_time {
            None => written(after) == written(before) + samples,
            Some(t) => if t >= session.current_time {
                let gap = (t - session.current_time) as nat;
                written(after) == written(before) + Seq::new(gap, |i: int| 0i16) + samples
            } else {
                let late = session.current_time - t;
                written(after) == written(before) + if late < samples.len() {
                    samples.skip(late)
                } else {
                    seq![]
                }
            },
        },
{
    let silence = silence_before(session.packet_time, session.current_time) as nat;
    let left = left_of(session.packet_time, session.current_time, samples);
    lemma_compensation(session.packet_time, session.current_time, samples);
    lemma_nothing_is_lost(before, silence, up_to(left, len), after);
    assert(up_to(left, len) =~= left);
    assert(silent(0) =~= Seq::<i16>::empty());
    assert(written(before) + Seq::<i16>::empty() =~= written(before));
    match session.packet_time {
        Some(t) => {
            if t < session.current_time {
                let late = session.current_time - t;
                if late < samples.len() {
                    assert(left =~= samples.skip(late));
                } else {
                    assert(left =~= Seq::<i16>::empty());
                }
            } else {
                let gap = (t - session.current_time) as nat;
                assert(silent(silence) =~= Seq::new(gap, |i: int| 0i16));
            }
        },
        None => {},
    }
}

/// Of a packet for which there was not enough room, only the end is lost: as much has gone in as
/// there was room for at least.
pub proof fn lemma_only_the_end_is_lost(
    before: Producer<i16>,
    silence: nat,
    samples: Seq<i16>,
    after: Producer<i16>,
)
    requires
        audio_written(before, silence, samples, after),
    ensures
        ({
            let grown = written(after).len() - written(before).len();
            &&& silence <= grown <= silence + samples.len()
            &&& grown >= vacancy(before) || grown == silence + samples.len()
            &&& forall|i: int|
                0 <= i < written(before).len() ==> #[trigger] written(after)[i]
                    == written(before)[i]
            &&& forall|i: int|
                written(before).len() <= i < written(before).len() + silence
                    ==> #[trigger] written(after)[i] == 0
            &&& forall|i: int|
                0 <= i < grown - silence ==> written(after)[written(before).len() + silence + i]
                    == #[trigger] samples[i]
        }),
{
    let n = choose|n: int|
        {
            &&& 0 <= n <= samples.len()
            &&& written(after) == written(before) + silent(silence) + #[trigger] samples.take(n)
            &&& vacancy(before) >= silence + samples.len() ==> n == samples.len()
            &&& vacancy(after) + silence + n >= vacancy(before)
            &&& n < samples.len() ==> silence + n >= vacancy(before)
        };
    assert forall|i: int| 0 <= i < n implies written(after)[written(before).len() + silence + i]
        == #[trigger] samples[i] by {
        assert(samples.take(n)[i] == samples[i]);
    }
}

/// The time of a connection grows by the samples that are kept of a packet, and by nothing else; the
/// time that was said of the packet is used once.
pub proof fn lemma_time_counts_what_is_kept(session: Session, samples: Seq<i16>)
    requires
        session.can_count(samples),
    ensures
        ({
            let late = match session.packet_time {
                Some(t) => if t < session.current_time {
                    session.current_time - t
                } else {
                    0
                },
                None => 0,
            };
            let after = session.counted(samples);
            &&& after.current_time == session.current_time + if samples.len() > late {
                samples.len() - late
            } else {
                0
            }
            &&& after.packet_time is None
            &&& after.id == session.id
            &&& after.sending_backing == session.sending_backing
            &&& after.using_opus == session.using_opus
        }),
{
}

/// Every packet is taken whose samples can be counted.
pub proof fn lemma_packets_are_taken(session: Session, samples: Seq<i16>, len: usize)
    requires
        session.current_time + samples.len() <= usize::MAX,
        len <= samples.len(),
    ensures
        session.takes(samples, len),
{
}

/// Where there is room for the silence, a packet never fails.
pub proof fn lemma_silence_that_fits_goes_in(
    before: Producer<i16>,
    silence: nat,
    after: Producer<i16>,
)
    requires
        vacancy(before) >= silence,
    ensures
        !silence_lost(before, silence, after),
{
}

} // verus!
