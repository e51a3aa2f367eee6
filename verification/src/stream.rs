//! One user's audio on its way to the loudspeaker.

use crate::ring::{
    agree, drained, held, ring_is_empty, ring_len, ring_new, ring_pop, ring_split, same_ring, same_writer,
    vacancy, written,
};
use ringbuf::{Consumer, Producer};
use vstd::prelude::*;

verus! {

/// How many samples the ring of one user has room for.
pub const RING_CAPACITY: usize = 0x1_000_000;

/// The lag from which on an empty stream counts as stopped: half a second.
pub const STOPPED_LAG: isize = 24000;

/// One user's audio, read from a ring, with the distance by which it runs late.
///
/// A positive lag says how many samples have been due but are still to come: they are skipped when
/// they arrive. A negative lag says how many moments of silence come before the next sample.
pub struct Stream {
    cons: Consumer<i16>,
    lag: isize,
}

/// What a stream with the given lag makes of its last draw: the sample it plays and its new lag.
pub open spec fn settled(lag: int, draw: Option<i16>) -> (i16, int) {
    match draw {
        Some(x) => (x, lag),
        None => (0, lag + 1),
    }
}

/// A stream with the given lag draws as often as `draws` is long, where its draws give `draws`:
/// never during a negative lag; else once for each sample that is due, until the lag is worked off
/// or a draw has given nothing; and then once more.
pub open spec fn draws_for(lag: int, draws: Seq<Option<i16>>) -> bool {
    if lag < 0 {
        draws.len() == 0
    } else {
        let n = draws.len() - 1;
        &&& 0 <= n <= lag
        &&& forall|i: int| 0 <= i < n - 1 ==> draws[i] is Some
        &&& n < lag ==> n > 0 && draws[n - 1] is None
    }
}

/// How many samples of a lag the draws before the last one have worked off.
pub open spec fn worked_off(draws: Seq<Option<i16>>) -> int {
    let n = draws.len() - 1;
    if n > 0 && draws[n - 1] is None {
        n - 1
    } else {
        n
    }
}

/// What a stream plays, and its lag afterwards, where its draws give `draws`.
pub open spec fn played(lag: int, draws: Seq<Option<i16>>) -> (i16, int) {
    if lag < 0 {
        (0, lag + 1)
    } else {
        settled(lag - worked_off(draws), draws.last())
    }
}

/// The samples that the draws took out of the ring.
pub open spec fn drawn(draws: Seq<Option<i16>>) -> Seq<i16>
    decreases draws.len(),
{
    if draws.len() == 0 {
        seq![]
    } else {
        match draws.last() {
            Some(x) => drawn(draws.drop_last()).push(x),
            None => drawn(draws.drop_last()),
        }
    }
}

/// Draws that a ring can give in which `waiting` was known to wait: those samples come first.
pub open spec fn drawn_from(waiting: Seq<i16>, draws: Seq<Option<i16>>) -> bool {
    forall|i: int| 0 <= i < draws.len() && i < waiting.len() ==> draws[i] == Some(waiting[i])
}

/// One more draw goes by what was known to wait, and leaves the rest of it known.
proof fn lemma_draw(
    waiting: Seq<i16>,
    draws: Seq<Option<i16>>,
    before: Seq<i16>,
    after: Seq<i16>,
    draw: Option<i16>,
)
    requires
        drawn_from(waiting, draws),
        draws.len() <= waiting.len() ==> waiting.skip(draws.len() as int).is_prefix_of(before),
        before.len() > 0 ==> draw == Some(before[0]) && before.drop_first().is_prefix_of(after),
    ensures
        drawn_from(waiting, draws.push(draw)),
        draws.len() < waiting.len() ==> waiting.skip(draws.len() + 1int).is_prefix_of(after),
{
    if draws.len() < waiting.len() {
        let rest = waiting.skip(draws.len() as int);
        assert(rest[0] == before[0]);
        let next = waiting.skip(draws.len() + 1int);
        assert forall|i: int| 0 <= i < next.len() implies next[i] == after[i] by {
            assert(next[i] == rest[i + 1]);
            assert(before[i + 1] == rest[i + 1]);
            assert(before.drop_first()[i] == after[i]);
        }
    }
}

/// One more draw adds its sample to those that were taken out.
proof fn lemma_drawn(out: Seq<i16>, draws: Seq<Option<i16>>, draw: Option<i16>)
    ensures
        match draw {
            Some(x) => (out + drawn(draws)).push(x),
            None => out + drawn(draws),
        } == out + drawn(draws.push(draw)),
{
    assert(draws.push(draw).drop_last() =~= draws);
    if let Some(x) = draw {
        assert((out + drawn(draws)).push(x) =~= out + drawn(draws).push(x));
    }
}

impl Stream {
    /// The samples known to wait in the ring.
    pub closed spec fn waiting(&self) -> Seq<i16> {
        held(self.cons)
    }

    /// The number of samples by which the stream runs late.
    pub closed spec fn lag(&self) -> int {
        self.lag as int
    }

    /// The samples that have been taken out of the ring.
    pub closed spec fn taken_out(&self) -> Seq<i16> {
        drained(self.cons)
    }

    /// The stream reads from the ring that the producer writes to.
    pub closed spec fn fed_by(&self, producer: Producer<i16>) -> bool {
        same_ring(producer, self.cons)
    }

    /// What has come is what has been written, in order, as far as both go.
    pub open spec fn faithful(&self) -> bool {
        forall|p: Producer<i16>| #[trigger]
            self.fed_by(p) ==> agree(written(p), self.taken_out() + self.waiting())
    }

    /// The number of the sample, among all that are written, that is due next.
    pub open spec fn place(&self) -> int {
        self.taken_out().len() + self.lag()
    }

    /// The two are one stream, read from the same ring.
    pub open spec fn same_source(before: Stream, after: Stream) -> bool {
        forall|p: Producer<i16>| #[trigger] after.fed_by(p) == before.fed_by(p)
    }

    /// A stream is made later by `by` samples, and nothing else is done to it.
    pub open spec fn moved(before: Stream, after: Stream, by: int) -> bool {
        &&& after.lag() == before.lag() + by
        &&& after.waiting() == before.waiting()
        &&& after.taken_out() == before.taken_out()
        &&& Stream::same_source(before, after)
    }

    /// Where the draws of a `pop` give `draws`, it turns `before` into `after` and gives `sample`.
    pub open spec fn drew(
        before: Stream,
        after: Stream,
        sample: i16,
        draws: Seq<Option<i16>>,
    ) -> bool {
        &&& draws_for(before.lag(), draws)
        &&& drawn_from(before.waiting(), draws)
        &&& played(before.lag(), draws) == (sample, after.lag())
        &&& before.lag() >= 0 && draws.last() is None ==> after.waiting().len() == 0
        &&& after.taken_out() == before.taken_out() + drawn(draws)
    }

    /// One `pop` can turn `before` into `after` and give `sample`.
    pub open spec fn popped(before: Stream, after: Stream, sample: i16) -> bool {
        let lag = before.lag();
        let waiting = before.waiting();
        &&& exists|draws: Seq<Option<i16>>| #[trigger] Stream::drew(before, after, sample, draws)
        &&& Stream::same_source(before, after)
        &&& lag >= 0 ==> after.faithful()
        &&& lag < 0 ==> sample == 0 && after.lag() == lag + 1 && after.waiting() == waiting
        &&& 0 <= lag < waiting.len() ==> sample == waiting[lag] && after.lag() == 0
            && waiting.skip(lag + 1).is_prefix_of(after.waiting())
    }

    /// Pops one after the other can turn `before` into `after` and give `samples`.
    pub open spec fn popped_run(before: Stream, after: Stream, samples: Seq<i16>) -> bool
        decreases samples.len(),
    {
        if samples.len() == 0 {
            before == after
        } else {
            exists|mid: Stream|
                Stream::popped_run(before, mid, samples.drop_last()) && #[trigger] Stream::popped(
                    mid,
                    after,
                    samples.last(),
                )
        }
    }

    /// Looking into the ring turns `before` into `after`: more may be known to wait, and nothing
    /// else is done.
    pub open spec fn looked(before: Stream, after: Stream) -> bool {
        &&& before.waiting().is_prefix_of(after.waiting())
        &&& after.taken_out() == before.taken_out()
        &&& after.lag() == before.lag()
        &&& Stream::same_source(before, after)
        &&& after.faithful()
    }

    /// Nothing has been done to a stream, or it has been looked at.
    pub open spec fn at_most_looked(before: Stream, after: Stream) -> bool {
        after == before || Stream::looked(before, after)
    }

    /// One `pop`, and then a look into the ring, can turn `before` into `after` and give `sample`.
    pub open spec fn popped_and_looked(before: Stream, after: Stream, sample: i16) -> bool {
        exists|mid: Stream| #[trigger]
            Stream::popped(before, mid, sample) && Stream::looked(mid, after)
    }

    /// The user has gone silent: the lag is long, and nothing waits.
    pub open spec fn has_stopped(&self) -> bool {
        self.lag() >= STOPPED_LAG && self.waiting().len() == 0
    }

    pub fn new(cons: Consumer<i16>) -> (s: Self)
        ensures
            s.waiting() == held(cons),
            s.taken_out() == drained(cons),
            forall|p: Producer<i16>| #[trigger] s.fed_by(p) == same_ring(p, cons),
            s.lag() == 0,
    {
        Self { cons, lag: 0 }
    }

    /// What is left of a `pop` when the lag has been worked off as far as possible: plays the
    /// sample that was drawn, or silence, which makes the stream one sample later.
    pub fn settle(&mut self, draw: Option<i16>) -> (sample: i16)
        requires
            old(self).lag() < isize::MAX,
        ensures
            (sample, final(self).lag()) == settled(old(self).lag(), draw),
            Stream::moved(*old(self), *final(self), final(self).lag() - old(self).lag()),
    {
        if let Some(x) = draw {
            x
        } else {
            self.lag = self.lag + 1;
            0
        }
    }

    /// The next sample to play: silence where the stream runs early, and where nothing is there.
    pub fn pop(&mut self) -> (sample: i16)
        requires
            old(self).lag() < isize::MAX,
        ensures
            Stream::popped(*old(self), *final(self), sample),
    {
        if self.lag < 0 {
            self.lag = self.lag + 1;
            proof {
                let none = Seq::<Option<i16>>::empty();
                assert(self.taken_out() =~= old(self).taken_out() + drawn(none));
                assert(Stream::drew(*old(self), *self, 0, none));
            }
            return 0;
        }
        let ghost mut draws = Seq::<Option<i16>>::empty();
        let ghost lag0 = self.lag as int;
        let ghost waiting = held(self.cons);
        let ghost out = drained(self.cons);
        assert(out =~= out + drawn(draws));
        let mut dry = false;
        while self.lag > 0 && !dry
            invariant
                0 <= self.lag <= lag0,
                draws.len() == lag0 - self.lag + if dry {
                    1int
                } else {
                    0int
                },
                forall|i: int| 0 <= i < lag0 - self.lag ==> draws[i] is Some,
                dry ==> self.lag > 0 && draws.last() is None,
                drawn_from(waiting, draws),
                draws.len() <= waiting.len() ==> waiting.skip(
                    draws.len() as int,
                ).is_prefix_of(held(self.cons)),
                drained(self.cons) == out + drawn(draws),
                Stream::same_source(*old(self), *self),
            decreases
                    self.lag + if dry {
                        0int
                    } else {
                        1int
                    },
        {
            let ghost before = held(self.cons);
            let ghost fore = *self;
            let draw = ring_pop(&mut self.cons);
            proof {
                lemma_draw(waiting, draws, before, held(self.cons), draw);
                lemma_drawn(out, draws, draw);
                draws = draws.push(draw);
                assert(Stream::same_source(fore, *self));
            }
            if draw.is_some() {
                self.lag = self.lag - 1;
            } else {
                dry = true;
            }
            assert forall|p: Producer<i16>| #[trigger] self.fed_by(p) == old(self).fed_by(p) by {
                assert(fore.fed_by(p) == old(self).fed_by(p));
            }
        }
        let ghost before = held(self.cons);
        let ghost fore = *self;
        let draw = ring_pop(&mut self.cons);
        proof {
            lemma_draw(waiting, draws, before, held(self.cons), draw);
            lemma_drawn(out, draws, draw);
            draws = draws.push(draw);
            assert(Stream::same_source(fore, *self));
            assert(self.faithful());
        }
        let sample = self.settle(draw);
        assert(Stream::drew(*old(self), *self, sample, draws));
        sample
    }

    /// The next `n` samples to play.
    pub fn pop_many(&mut self, n: usize) -> (samples: Vec<i16>)
        requires
            old(self).lag() + n <= isize::MAX,
        ensures
            samples@.len() == n,
            Stream::popped_run(*old(self), *final(self), samples@),
            final(self).lag() <= old(self).lag() + n,
    {
        let mut samples: Vec<i16> = Vec::new();
        let mut i: usize = 0;
        while i < n
            invariant
                i <= n,
                samples@.len() == i,
                old(self).lag() + n <= isize::MAX,
                self.lag() <= old(self).lag() + i,
                Stream::popped_run(*old(self), *self, samples@),
            decreases n - i,
        {
            let ghost mid = *self;
            let ghost fore = samples@;
            let x = self.pop();
            samples.push(x);
            proof {
                assert(samples@.drop_last() =~= fore);
                assert(Stream::popped(mid, *self, samples@.last()));
            }
            i = i + 1;
        }
        samples
    }

    /// Whether a stream counts as stopped of whose ring it is known whether it is empty.
    pub fn stopped_if(&self, empty: bool) -> (r: bool)
        ensures
            r == (self.lag() >= STOPPED_LAG && empty),
    {
        self.lag >= STOPPED_LAG && empty
    }

    /// Whether the user has gone silent: the stream is half a second late and the ring is empty.
    /// The answer is that of the moment in which the ring is looked into.
    pub fn stopped(&mut self) -> (r: bool)
        ensures
            r == final(self).has_stopped(),
            Stream::looked(*old(self), *final(self)),
    {
        let empty = ring_is_empty(&mut self.cons);
        self.stopped_if(empty)
    }

    /// Makes the stream later by `by` samples, or earlier where that is negative.
    pub fn shift(&mut self, by: isize)
        requires
            isize::MIN <= old(self).lag() + by <= isize::MAX,
        ensures
            Stream::moved(*old(self), *final(self), by as int),
    {
        self.lag = self.lag + by;
    }

    /// How many samples wait in the ring.
    pub fn buffered(&mut self) -> (n: usize)
        ensures
            n == final(self).waiting().len(),
            Stream::looked(*old(self), *final(self)),
    {
        ring_len(&mut self.cons)
    }

    /// The number of samples by which the stream runs late.
    pub fn current_lag(&self) -> (n: isize)
        ensures
            n == self.lag(),
    {
        self.lag
    }
}

/// A new ring for one user: the end that the audio is written to, and the stream that plays it.
pub fn open_stream() -> (ends: (Producer<i16>, Stream))
    ensures
        written(ends.0) == Seq::<i16>::empty(),
        vacancy(ends.0) == RING_CAPACITY,
        RING_CAPACITY == 16777216,
        ends.1.waiting() == Seq::<i16>::empty(),
        ends.1.taken_out() == Seq::<i16>::empty(),
        ends.1.fed_by(ends.0),
        ends.1.faithful(),
        ends.1.lag() == 0,
{
    let (producer, cons) = ring_split(ring_new(RING_CAPACITY));
    (producer, Stream::new(cons))
}

/// Samples that are all there count in full.
proof fn lemma_drawn_full(draws: Seq<Option<i16>>)
    requires
        forall|i: int| 0 <= i < draws.len() ==> draws[i] is Some,
    ensures
        drawn(draws).len() == draws.len(),
    decreases draws.len(),
{
    if draws.len() > 0 {
        assert(draws.last() is Some);
        lemma_drawn_full(draws.drop_last());
    }
}

/// The playing position moves on by exactly one sample with every pop, whatever the ring gives:
/// the lag grows by one, less the samples that the pop took out of the ring.
pub proof fn lemma_every_pop_is_one_moment(lag: int, draws: Seq<Option<i16>>)
    requires
        draws_for(lag, draws),
    ensures
        played(lag, draws).1 == lag + 1 - drawn(draws).len(),
{
    reveal_with_fuel(drawn, 2);
    if lag >= 0 {
        let skips = draws.drop_last();
        let n = skips.len() as int;
        if n > 0 && skips.last() is None {
            lemma_drawn_full(skips.drop_last());
        } else {
            lemma_drawn_full(skips);
        }
    }
}

/// A stream goes on reading from the ring that a producer writes to, while that writes.
pub proof fn lemma_still_fed(stream: Stream, before: Producer<i16>, after: Producer<i16>)
    requires
        same_writer(before, after),
    ensures
        stream.fed_by(after) == stream.fed_by(before),
{
}

/// A stream keeps its place: with every pop the sample after the one before is due, however late
/// samples arrive. What is played is silence, or a sample that was written. It is the one that is
/// due, unless it came in the very moment in which the ring had just been found empty: then the lag
/// that is left says how far before the due one it stands.
pub proof fn lemma_stream_keeps_its_place(
    before: Stream,
    after: Stream,
    sample: i16,
    producer: Producer<i16>,
)
    requires
        Stream::popped(before, after, sample),
        before.fed_by(producer),
    ensures
        after.place() == before.place() + 1,
        sample != 0 ==> {
            let number = before.place() - after.lag();
            &&& 0 <= after.lag() <= before.lag()
            &&& 0 <= number
            &&& number < written(producer).len() ==> sample == written(producer)[number]
        },
{
    let draws = choose|draws: Seq<Option<i16>>| #[trigger]
        Stream::drew(before, after, sample, draws);
    lemma_every_pop_is_one_moment(before.lag(), draws);
    if sample != 0 {
        let out = after.taken_out();
        assert(drawn(draws).last() == sample);
        assert(out[out.len() - 1] == sample);
        assert(after.fed_by(producer));
        assert((out + after.waiting())[out.len() - 1] == sample);
    }
}

/// A look into the ring moves nothing: with a pop and a look the sample after the one before is due.
pub proof fn lemma_look_keeps_the_place(before: Stream, after: Stream, sample: i16)
    requires
        Stream::popped_and_looked(before, after, sample),
    ensures
        after.place() == before.place() + 1,
{
    let mid = choose|mid: Stream| #[trigger]
        Stream::popped(before, mid, sample) && Stream::looked(mid, after);
    lemma_place_moves_on(before, mid, sample);
}

/// After some pops, a stream is exactly as many places further.
pub proof fn lemma_run_keeps_its_place(before: Stream, after: Stream, samples: Seq<i16>)
    requires
        Stream::popped_run(before, after, samples),
    ensures
        after.place() == before.place() + samples.len(),
        Stream::same_source(before, after),
    decreases samples.len(),
{
    if samples.len() > 0 {
        let mid = choose|mid: Stream|
            Stream::popped_run(before, mid, samples.drop_last()) && #[trigger] Stream::popped(
                mid,
                after,
                samples.last(),
            );
        lemma_run_keeps_its_place(before, mid, samples.drop_last());
        lemma_place_moves_on(mid, after, samples.last());
    }
}

/// With every pop the sample after the one before is due.
pub proof fn lemma_place_moves_on(before: Stream, after: Stream, sample: i16)
    requires
        Stream::popped(before, after, sample),
    ensures
        after.place() == before.place() + 1,
{
    let draws = choose|draws: Seq<Option<i16>>| #[trigger]
        Stream::drew(before, after, sample, draws);
    lemma_every_pop_is_one_moment(before.lag(), draws);
}

/// As long as enough is known to wait, what is played is what was written, shifted by the lag:
/// silence while the lag is negative, samples skipped while it is positive, and after that
/// each sample once and in order.
pub proof fn lemma_playback_is_shifted_recording(before: Stream, after: Stream, samples: Seq<i16>)
    requires
        Stream::popped_run(before, after, samples),
        samples.len() > 0,
        before.lag() + samples.len() <= before.waiting().len(),
    ensures
        forall|i: int| #![trigger samples[i]]
            0 <= i < samples.len() ==> samples[i] == if before.lag() + i < 0 {
                0
            } else {
                before.waiting()[before.lag() + i]
            },
        after.lag() == if before.lag() + samples.len() < 0 {
            before.lag() + samples.len()
        } else {
            0
        },
        before.lag() + samples.len() > 0 ==> before.waiting().skip(
            before.lag() + samples.len(),
        ).is_prefix_of(after.waiting()),
        before.lag() + samples.len() <= 0 ==> after.waiting() == before.waiting(),
    decreases samples.len(),
{
    let lag = before.lag();
    let waiting = before.waiting();
    let fore = samples.drop_last();
    let mid = choose|mid: Stream|
        Stream::popped_run(before, mid, fore) && #[trigger] Stream::popped(
            mid,
            after,
            samples.last(),
        );
    if fore.len() > 0 {
        lemma_playback_is_shifted_recording(before, mid, fore);
        if lag + fore.len() > 0 {
            let rest = waiting.skip(lag + fore.len());
            assert(rest[0] == mid.waiting()[0]);
            let next = waiting.skip(lag + samples.len());
            assert forall|i: int| 0 <= i < next.len() implies next[i] == after.waiting()[i] by {
                assert(next[i] == rest[i + 1]);
                assert(mid.waiting()[i + 1] == rest[i + 1]);
                assert(mid.waiting().skip(1)[i] == after.waiting()[i]);
            }
        }
    } else {
        assert(mid == before);
    }
    assert forall|i: int| #![trigger samples[i]] 0 <= i < samples.len() implies samples[i]
        == if lag + i < 0 {
        0
    } else {
        waiting[lag + i]
    } by {
        if i < fore.len() {
            assert(samples[i] == fore[i]);
        } else if lag + i > 0 && i > 0 {
            assert(waiting.skip(lag + i)[0] == mid.waiting()[0]);
        }
    }
}

/// A stream has stopped as soon as it is 24000 samples late and nothing waits, however late it is.
pub proof fn lemma_when_stopped(stream: Stream, later: Stream)
    requires
        stream.waiting().len() == 0,
        later.waiting().len() == 0,
        stream.lag() <= later.lag(),
    ensures
        stream.has_stopped() ==> later.has_stopped(),
        stream.lag() >= 24000 ==> stream.has_stopped(),
        stream.lag() < 24000 ==> !stream.has_stopped(),
{
}

/// A stream in whose ring something waits has not stopped.
pub proof fn lemma_samples_are_no_stop(stream: Stream)
    requires
        stream.waiting().len() > 0,
    ensures
        !stream.has_stopped(),
{
}

/// A stream that has stopped stays so with every pop that finds the ring empty, and plays silence.
pub proof fn lemma_stays_stopped(before: Stream, after: Stream, sample: i16)
    requires
        Stream::popped_and_looked(before, after, sample),
        before.lag() >= 24000,
        after.taken_out() == before.taken_out(),
        after.waiting().len() == 0,
    ensures
        after.has_stopped(),
        after.lag() == before.lag() + 1,
        sample == 0,
{
    lemma_look_keeps_the_place(before, after, sample);
    let mid = choose|mid: Stream| #[trigger]
        Stream::popped(before, mid, sample) && Stream::looked(mid, after);
    let draws = choose|draws: Seq<Option<i16>>| #[trigger]
        Stream::drew(before, mid, sample, draws);
    if draws.last() is Some {
        assert(drawn(draws).len() > 0);
        assert(mid.taken_out().len() > before.taken_out().len());
    }
}

/// A stream that runs early plays silence and takes nothing out of the ring.
pub proof fn lemma_early_stream_waits(before: Stream, after: Stream, sample: i16)
    requires
        Stream::popped(before, after, sample),
        before.lag() < 0,
    ensures
        sample == 0,
        after.lag() == before.lag() + 1,
        after.waiting() == before.waiting(),
        after.taken_out() == before.taken_out(),
{
    let draws = choose|draws: Seq<Option<i16>>| #[trigger]
        Stream::drew(before, after, sample, draws);
    assert(drawn(draws).len() == 0);
    assert(after.taken_out() =~= before.taken_out());
}

/// A stream that is in step plays the oldest sample that waits, and that sample alone leaves the
/// ring.
pub proof fn lemma_stream_in_step_plays_the_oldest(before: Stream, after: Stream, sample: i16)
    requires
        Stream::popped(before, after, sample),
        before.lag() == 0,
        before.waiting().len() > 0,
    ensures
        sample == before.waiting()[0],
        after.lag() == 0,
        after.taken_out() == before.taken_out().push(sample),
        before.waiting().drop_first().is_prefix_of(after.waiting()),
{
    let draws = choose|draws: Seq<Option<i16>>| #[trigger]
        Stream::drew(before, after, sample, draws);
    reveal_with_fuel(drawn, 2);
    assert(draws.len() == 1);
    assert(draws[0] == Some(before.waiting()[0]));
    assert(drawn(draws) =~= seq![sample]);
    assert(before.waiting().skip(1) =~= before.waiting().drop_first());
}

/// Where the first draws gave what was known to wait, that is what came first.
proof fn lemma_drawn_first(waiting: Seq<i16>, draws: Seq<Option<i16>>, k: int)
    requires
        0 <= k <= draws.len(),
        k <= waiting.len(),
        drawn_from(waiting, draws),
    ensures
        drawn(draws).len() >= k,
        forall|i: int| 0 <= i < k ==> drawn(draws)[i] == waiting[i],
    decreases draws.len(),
{
    if draws.len() > 0 {
        let fore = draws.drop_last();
        assert(drawn_from(waiting, fore)) by {
            assert forall|i: int| 0 <= i < fore.len() && i < waiting.len() implies fore[i] == Some(
                waiting[i],
            ) by {
                assert(fore[i] == draws[i]);
            }
        }
        if k == draws.len() {
            assert(draws[k - 1] == Some(waiting[k - 1]));
            lemma_drawn_first(waiting, fore, k - 1);
            lemma_drawn_at_most(fore);
        } else {
            lemma_drawn_first(waiting, fore, k);
        }
    }
}

/// No draw takes more than one sample.
proof fn lemma_drawn_at_most(draws: Seq<Option<i16>>)
    ensures
        drawn(draws).len() <= draws.len(),
    decreases draws.len(),
{
    if draws.len() > 0 {
        lemma_drawn_at_most(draws.drop_last());
    }
}

/// A stream that is late catches up at once as far as it can: of what waits, all that is due is taken
/// out of the ring, in order, and no more. While it stays late, nothing is left that was waiting.
pub proof fn lemma_stream_catches_up(before: Stream, after: Stream, sample: i16)
    requires
        Stream::popped(before, after, sample),
        before.lag() >= 0,
    ensures
        ({
            let taken = after.taken_out().len() - before.taken_out().len();
            let known = before.waiting().len();
            &&& taken <= before.lag() + 1
            &&& known > before.lag() ==> taken == before.lag() + 1
            &&& known <= before.lag() ==> taken >= known
            &&& forall|i: int|
                0 <= i < known && i <= before.lag() ==> after.taken_out()[before.taken_out().len()
                    + i] == #[trigger] before.waiting()[i]
            &&& forall|i: int|
                0 <= i < before.taken_out().len() ==> #[trigger] after.taken_out()[i]
                    == before.taken_out()[i]
        }),
{
    let draws = choose|draws: Seq<Option<i16>>| #[trigger]
        Stream::drew(before, after, sample, draws);
    let waiting = before.waiting();
    let lag = before.lag();
    let n = draws.len() - 1;
    lemma_drawn_at_most(draws);
    if waiting.len() >= draws.len() {
        if n < lag {
            assert(draws[n - 1] == Some(waiting[n - 1]));
        }
        lemma_drawn_first(waiting, draws, draws.len() as int);
    } else {
        lemma_drawn_first(waiting, draws, waiting.len() as int);
    }
    assert forall|i: int| 0 <= i < waiting.len() && i <= lag implies after.taken_out()[
    before.taken_out().len() + i] == #[trigger] waiting[i] by {
        assert(drawn(draws)[i] == waiting[i]);
    }
}

} // verus!
