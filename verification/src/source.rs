//! The source of the samples that are played: the users' streams, brought into step and mixed.

use crate::envelope::{outline, outline_of, SECOND};
use crate::message::{number_message, text_message, wires, Message, Wire};
use crate::stream::{lemma_look_keeps_the_place, lemma_run_keeps_its_place, Stream};
use crate::text::decimal;
use vstd::prelude::*;

verus! {

/// Samples per second and channel.
pub const SAMPLE_RATE: u32 = 48000;

/// The code that overrides nothing.
pub const NO_OVERRIDE: usize = usize::MAX;

/// The code from which on an override shifts a stream in time.
pub const SHIFT_CODE: usize = 0x1000000;

/// Seconds from the end of syncing being asked for to the end itself.
pub const SYNC_NOTICE: usize = 8;

/// The code asks for a stream to be shifted in time.
pub open spec fn is_shift(code: usize) -> bool {
    code != NO_OVERRIDE && code >= SHIFT_CODE
}

/// The user whose stream a code shifts: its lowest byte.
pub open spec fn shift_user(code: usize) -> int {
    (code - SHIFT_CODE) % 256
}

/// By how many samples a code makes a stream later: the signed 16-bit number above the lowest byte.
pub open spec fn shift_amount(code: usize) -> int {
    let word = (code - SHIFT_CODE) / 256 % 65536;
    if word < 32768 {
        word
    } else {
        word - 65536
    }
}

/// The sum of two samples, or the nearest sample to it.
pub open spec fn saturated_sum(a: i16, b: i16) -> i16 {
    let sum = a + b;
    if sum > i16::MAX {
        i16::MAX
    } else if sum < i16::MIN {
        i16::MIN
    } else {
        sum as i16
    }
}

/// Samples added up one after the other.
pub open spec fn mixed(samples: Seq<i16>) -> i16
    decreases samples.len(),
{
    if samples.len() == 0 {
        0
    } else {
        saturated_sum(mixed(samples.drop_last()), samples.last())
    }
}

/// What the other threads ask of the source at one moment.
pub struct Controls {
    /// The end of syncing is asked for.
    pub stop_sync: bool,
    /// A user to be played alone, a shift, or `NO_OVERRIDE`.
    pub override_code: usize,
    /// The recording is to end when everybody has gone silent.
    pub stopping: bool,
}

/// What the source does at one moment.
pub struct Tick {
    /// Messages to every user, in order.
    pub messages: Vec<Message>,
    /// The override was a shift and has been carried out: it is to be cleared.
    pub shifted: bool,
    /// A sample for the track of each user, or none at all.
    pub user_samples: Vec<i16>,
    /// The sample for the backing track.
    pub backing_sample: Option<i16>,
    /// The sample for the track of the whole.
    pub total_sample: Option<i16>,
    /// The sample to be played, or the end of the recording.
    pub output: Option<i16>,
}

pub struct MultisyncSource {
    pub syncing: bool,
    pub users: Vec<(Stream, String)>,
    pub syncing_index: usize,
    pub sync_seconds: usize,
    pub stop_syncing_seconds: usize,
    pub channels: u16,
    pub current_channel: u16,
    pub last_mono: i16,
    pub backing: Vec<i16>,
    pub backing_index: i32,
}

/// Whether a code asks for a stream to be shifted.
fn code_is_shift(code: usize) -> (r: bool)
    ensures
        r == is_shift(code),
{
    code != NO_OVERRIDE && code >= SHIFT_CODE
}

/// The user whose stream a code shifts, and by how much.
fn read_shift(code: usize) -> (r: (usize, isize))
    requires
        is_shift(code),
    ensures
        r.0 == shift_user(code),
        r.1 == shift_amount(code),
        -32768 <= r.1 < 32768,
{
    let rest: usize = code - SHIFT_CODE;
    let word: usize = rest / 256 % 65536;
    let by: isize = if word < 32768 {
        word as isize
    } else {
        word as isize - 65536
    };
    (rest % 256, by)
}

/// Adds two samples, or gives the nearest sample to their sum.
fn add_samples(a: i16, b: i16) -> (r: i16)
    ensures
        r == saturated_sum(a, b),
{
    let sum: i32 = a as i32 + b as i32;
    if sum > i16::MAX as i32 {
        i16::MAX
    } else if sum < i16::MIN as i32 {
        i16::MIN
    } else {
        sum as i16
    }
}

/// Users in the same order and under the same names.
pub open spec fn same_names(before: Seq<(Stream, String)>, after: Seq<(Stream, String)>) -> bool {
    &&& after.len() == before.len()
    &&& forall|i: int| 0 <= i < before.len() ==> (#[trigger] after[i]).1 == before[i].1
}

impl MultisyncSource {
    /// The source after the clock of the syncing phase has been looked at. At the start of each
    /// second the seconds are counted. In an odd second the end can be asked for; it comes
    /// `SYNC_NOTICE` seconds later.
    pub open spec fn clocked(self, stop_sync: bool) -> MultisyncSource {
        if self.syncing && self.syncing_index == 0 {
            let second = self.sync_seconds + 1;
            let stop = if self.hears(stop_sync) {
                second + SYNC_NOTICE
            } else {
                self.stop_syncing_seconds as int
            };
            MultisyncSource {
                sync_seconds: second as usize,
                stop_syncing_seconds: stop as usize,
                syncing: second != stop,
                ..self
            }
        } else {
            self
        }
    }

    /// The end of syncing is asked for, at a moment at which the source listens.
    pub open spec fn hears(self, stop_sync: bool) -> bool {
        stop_sync && self.listens()
    }

    /// The source looks at this moment whether the end of syncing is asked for.
    pub open spec fn listens(self) -> bool {
        self.syncing && self.syncing_index == 0 && (self.sync_seconds + 1) % 2 == 1
    }

    /// What the users are told when the end of syncing is asked for: the last second of it.
    pub open spec fn notice(self, stop_sync: bool) -> Seq<Wire> {
        if self.hears(stop_sync) {
            seq![Wire::Text("syncstop"@ + decimal((self.sync_seconds + SYNC_NOTICE) as nat))]
        } else {
            seq![]
        }
    }

    /// The source looks at the override at this moment.
    pub open spec fn minds_override(self) -> bool {
        self.syncing || self.current_channel == 0
    }

    /// A shift can turn `before` into `after`: one stream is later by the amount of the code.
    pub open spec fn shifted(before: MultisyncSource, code: usize, after: MultisyncSource) -> bool {
        if is_shift(code) {
            let u = shift_user(code);
            &&& after == (MultisyncSource { users: after.users, ..before })
            &&& same_names(before.users@, after.users@)
            &&& forall|i: int|
                0 <= i < before.users@.len() && i != u ==> after.users@[i] == before.users@[i]
            &&& Stream::moved(before.users@[u].0, after.users@[u].0, shift_amount(code))
        } else {
            after == before
        }
    }

    /// Whether the source looks at this moment whether the end of syncing is asked for.
    pub fn wants_stop_sync(&self) -> (r: bool)
        ensures
            r == self.listens(),
    {
        self.syncing && self.syncing_index == 0 && self.sync_seconds % 2 == 0
    }

    /// The clock of the syncing phase can go on.
    pub open spec fn clock_fits(self, stop_sync: bool) -> bool {
        self.syncing && self.syncing_index == 0 ==> self.sync_seconds + 1 + if self.hears(
            stop_sync,
        ) {
            SYNC_NOTICE as int
        } else {
            0
        } <= usize::MAX
    }

    /// Looks at the clock of the syncing phase.
    pub fn look_at_clock(&mut self, stop_sync: bool, outbox: &mut Vec<Message>)
        requires
            old(self).clock_fits(stop_sync),
        ensures
            *final(self) == old(self).clocked(stop_sync),
            wires(final(outbox)@) == wires(old(outbox)@) + old(self).notice(stop_sync),
    {
        let heard = stop_sync && self.wants_stop_sync();
        if self.syncing && self.syncing_index == 0 {
            self.sync_seconds = self.sync_seconds + 1;
            if heard {
                self.stop_syncing_seconds = self.sync_seconds + SYNC_NOTICE;
                outbox.push(number_message("syncstop", (self.stop_syncing_seconds - 1) as u64));
            }
            if self.sync_seconds == self.stop_syncing_seconds {
                self.syncing = false;
            }
        }
        assert(wires(outbox@) =~= wires(old(outbox)@) + old(self).notice(stop_sync));
    }

    /// Carries out a shift.
    pub fn carry_out_shift(&mut self, code: usize)
        requires
            is_shift(code),
            shift_user(code) < old(self).users@.len(),
            isize::MIN <= old(self).users@[shift_user(code)].0.lag() + shift_amount(code)
                <= isize::MAX,
        ensures
            MultisyncSource::shifted(*old(self), code, *final(self)),
    {
        let (u, by) = read_shift(code);
        self.users[u].0.shift(by);
    }

    /// A step of the syncing phase can turn `before` into `after` and send `sent` to every user. At
    /// the start of a second, a second of each stream is taken, and its outline is sent.
    pub open spec fn synced(before: MultisyncSource, after: MultisyncSource, sent: Seq<Wire>) -> bool {
        let index = if before.syncing_index + 1 >= SECOND {
            0
        } else {
            before.syncing_index + 1
        };
        if before.syncing_index == 0 {
            &&& after == (MultisyncSource {
                users: after.users,
                syncing_index: index as usize,
                ..before
            })
            &&& same_names(before.users@, after.users@)
            &&& exists|seconds: Seq<Seq<i16>>| #[trigger]
                MultisyncSource::took_seconds(before.users@, after.users@, seconds) && sent
                    == seq![Wire::Text("syncnewf"@)] + outlines(seconds)
        } else {
            &&& after == (MultisyncSource { syncing_index: index as usize, ..before })
            &&& sent == Seq::<Wire>::empty()
        }
    }

    /// A second can be taken out of each stream so that `seconds` comes.
    pub open spec fn took_seconds(
        before: Seq<(Stream, String)>,
        after: Seq<(Stream, String)>,
        seconds: Seq<Seq<i16>>,
    ) -> bool {
        &&& seconds.len() == before.len()
        &&& after.len() == before.len()
        &&& forall|i: int| #![trigger seconds[i]]
            0 <= i < before.len() ==> seconds[i].len() == SECOND && Stream::popped_run(
                before[i].0,
                after[i].0,
                seconds[i],
            )
    }

    /// One step of the syncing phase: silence, and at the start of each second an outline of each
    /// stream to every user.
    pub fn sync_next(&mut self, outbox: &mut Vec<Message>) -> (r: Option<i16>)
        requires
            old(self).syncing_index < usize::MAX,
            old(self).syncing_index == 0 ==> forall|i: int|
                0 <= i < old(self).users@.len() ==> (#[trigger] old(self).users@[i]).0.lag()
                    + SECOND <= isize::MAX,
        ensures
            r == Some(0i16),
            wires(old(outbox)@).is_prefix_of(wires(final(outbox)@)),
            MultisyncSource::synced(
                *old(self),
                *final(self),
                wires(final(outbox)@).skip(old(outbox)@.len() as int),
            ),
    {
        let ghost before = self.users@;
        let ghost out0 = wires(outbox@);
        if self.syncing_index == 0 {
            let ghost mut seconds: Seq<Seq<i16>> = seq![];
            outbox.push(text_message("syncnewf"));
            assert(wires(outbox@) =~= out0 + (seq![Wire::Text("syncnewf"@)] + outlines(seconds)));
            let mut i: usize = 0;
            while i < self.users.len()
                invariant
                    i <= self.users@.len(),
                    before == old(self).users@,
                    *self == (MultisyncSource { users: self.users, ..*old(self) }),
                    same_names(before, self.users@),
                    forall|j: int| i <= j < before.len() ==> self.users@[j] == before[j],
                    forall|j: int|
                        0 <= j < before.len() ==> (#[trigger] before[j]).0.lag() + SECOND
                            <= isize::MAX,
                    seconds.len() == i,
                    forall|j: int| #![trigger seconds[j]]
                        0 <= j < i ==> seconds[j].len() == SECOND && Stream::popped_run(
                            before[j].0,
                            self.users@[j].0,
                            seconds[j],
                        ),
                    wires(outbox@) == out0 + (seq![Wire::Text("syncnewf"@)] + outlines(seconds)),
                decreases self.users@.len() - i,
            {
                assert(before[i as int].0.lag() + SECOND <= isize::MAX);
                let second = self.users[i].0.pop_many(SECOND);
                let ghost sent = outbox@;
                outbox.push(Message::Binary(outline_of(&second)));
                proof {
                    let more = seconds.push(second@);
                    assert(wires(outbox@) =~= wires(sent).push(Wire::Binary(outline(second@))));
                    assert(outlines(more) =~= outlines(seconds).push(Wire::Binary(outline(second@))));
                    assert(wires(outbox@) =~= out0 + (seq![Wire::Text("syncnewf"@)] + outlines(more)));
                    seconds = more;
                }
                i = i + 1;
            }
            proof {
                assert(MultisyncSource::took_seconds(before, self.users@, seconds));
                assert(wires(outbox@).skip(out0.len() as int) =~= seq![Wire::Text("syncnewf"@)]
                    + outlines(seconds));
            }
        } else {
            assert(wires(outbox@).skip(out0.len() as int) =~= Seq::<Wire>::empty());
        }
        self.syncing_index = self.syncing_index + 1;
        if self.syncing_index >= SECOND {
            self.syncing_index = 0;
        }
        Some(0)
    }

    /// The backing track has been played to its end.
    pub open spec fn backing_over(self) -> bool {
        self.backing_index >= self.backing.len() as i32
    }

    /// The sample of the backing track that is due, unless a user is played alone.
    pub open spec fn backing_due(self, alone: bool) -> Option<i16> {
        if !alone && 0 <= self.backing_index < self.backing@.len() {
            Some(self.backing@[self.backing_index as int])
        } else {
            None
        }
    }

    /// The sample that is due: the users, and the backing track on top.
    pub open spec fn due(self, alone: bool) -> i16 {
        match self.backing_due(alone) {
            Some(b) => saturated_sum(self.last_mono, b),
            None => self.last_mono,
        }
    }

    /// The source one sample later.
    pub open spec fn advanced(self) -> MultisyncSource {
        MultisyncSource {
            backing_index: (self.backing_index + 1) as i32,
            current_channel: if self.current_channel + 1 == self.channels {
                0
            } else {
                (self.current_channel + 1) as u16
            },
            ..self
        }
    }

    /// Taking one sample of user `u` alone can turn `before` into `after`.
    pub open spec fn soloed(before: MultisyncSource, u: int, after: MultisyncSource) -> bool {
        &&& after == (MultisyncSource {
            users: after.users,
            last_mono: after.last_mono,
            ..before
        })
        &&& same_names(before.users@, after.users@)
        &&& forall|i: int|
            0 <= i < before.users@.len() && i != u ==> after.users@[i] == before.users@[i]
        &&& Stream::popped_and_looked(before.users@[u].0, after.users@[u].0, after.last_mono)
    }

    /// Taking one sample of each user can turn `before` into `after` and give `samples`.
    pub open spec fn pooled(
        before: MultisyncSource,
        after: MultisyncSource,
        samples: Seq<i16>,
    ) -> bool {
        &&& after == (MultisyncSource {
            users: after.users,
            last_mono: mixed(samples),
            ..before
        })
        &&& same_names(before.users@, after.users@)
        &&& samples.len() == before.users@.len()
        &&& forall|i: int| #![trigger samples[i]]
            0 <= i < samples.len() ==> Stream::popped_and_looked(
                before.users@[i].0,
                after.users@[i].0,
                samples[i],
            )
    }

    /// What the streams answer that are asked whether they have stopped.
    pub open spec fn answers(self) -> Seq<bool> {
        self.users@.map_values(|u: (Stream, String)| u.0.has_stopped())
    }

    /// Takes one sample of each user and adds them up. Gives the samples, and what each stream
    /// answers that is then asked whether it has stopped.
    pub fn pool(&mut self) -> (r: (Vec<i16>, Vec<bool>))
        requires
            forall|i: int|
                0 <= i < old(self).users@.len() ==> (#[trigger] old(self).users@[i]).0.lag()
                    < isize::MAX,
        ensures
            MultisyncSource::pooled(*old(self), *final(self), r.0@),
            r.1@ == final(self).answers(),
    {
        let mut samples: Vec<i16> = Vec::new();
        let mut stopped: Vec<bool> = Vec::new();
        let mut mono: i16 = 0;
        let mut i: usize = 0;
        while i < self.users.len()
            invariant
                i <= self.users@.len(),
                *self == (MultisyncSource { users: self.users, ..*old(self) }),
                same_names(old(self).users@, self.users@),
                forall|j: int|
                    i <= j < old(self).users@.len() ==> self.users@[j] == old(self).users@[j],
                forall|j: int|
                    0 <= j < old(self).users@.len() ==> (#[trigger] old(self).users@[j]).0.lag()
                        < isize::MAX,
                samples@.len() == i,
                stopped@.len() == i,
                mono == mixed(samples@),
                forall|j: int| #![trigger samples@[j]]
                    0 <= j < i ==> Stream::popped_and_looked(
                        old(self).users@[j].0,
                        self.users@[j].0,
                        samples@[j],
                    ),
                forall|j: int|
                    0 <= j < i ==> #[trigger] stopped@[j] == self.users@[j].0.has_stopped(),
            decreases self.users@.len() - i,
        {
            assert(old(self).users@[i as int].0.lag() < isize::MAX);
            let ghost fore = samples@;
            let s = self.users[i].0.pop();
            let ghost mid = self.users@[i as int].0;
            let answer = self.users[i].0.stopped();
            stopped.push(answer);
            mono = add_samples(mono, s);
            samples.push(s);
            proof {
                assert(samples@.drop_last() =~= fore);
                assert(Stream::popped(old(self).users@[i as int].0, mid, s));
            }
            i = i + 1;
        }
        self.last_mono = mono;
        assert(stopped@ =~= self.answers());
        (samples, stopped)
    }

    /// The recording ends: that has been asked for, and every stream that was asked has stopped,
    /// and the backing track is over, unless one user is played alone.
    pub open spec fn over(self, stopping: bool, alone: bool, stopped: Seq<bool>) -> bool {
        &&& stopping
        &&& alone || self.backing_over()
        &&& forall|i: int| 0 <= i < stopped.len() ==> #[trigger] stopped[i]
    }

    /// Whether the recording ends, where the streams have answered whether they have stopped.
    pub fn ends(&self, stopping: bool, alone: bool, stopped: &Vec<bool>) -> (r: bool)
        ensures
            r == self.over(stopping, alone, stopped@),
    {
        if !stopping || !(alone || self.backing_index >= self.backing.len() as i32) {
            return false;
        }
        let mut i: usize = 0;
        while i < stopped.len()
            invariant
                i <= stopped@.len(),
                forall|j: int| 0 <= j < i ==> #[trigger] stopped@[j],
            decreases stopped@.len() - i,
        {
            if !stopped[i] {
                return false;
            }
            i = i + 1;
        }
        true
    }

    /// Adds the backing track to the users and moves on by one sample. Gives the sample for the
    /// backing track and that for the whole.
    pub fn play_on(&mut self, alone: bool) -> (r: (i16, i16))
        requires
            old(self).backing_index < i32::MAX,
            old(self).current_channel < u16::MAX,
        ensures
            *final(self) == old(self).advanced(),
            r.0 == match old(self).backing_due(alone) {
                Some(b) => b,
                None => 0i16,
            },
            r.1 == old(self).due(alone),
    {
        let mut backing: i16 = 0;
        let mut sample: i16 = self.last_mono;
        if !alone && self.backing_index >= 0 && (self.backing_index as usize) < self.backing.len() {
            backing = self.backing[self.backing_index as usize];
            sample = add_samples(sample, backing);
        }
        self.backing_index = self.backing_index + 1;
        self.current_channel = self.current_channel + 1;
        if self.current_channel == self.channels {
            self.current_channel = 0;
        }
        (backing, sample)
    }

    /// The lag of a stream after the code has been carried out, where it is a shift.
    pub open spec fn lag_after(self, code: usize, i: int) -> int {
        self.users@[i].0.lag() + if is_shift(code) && i == shift_user(code) {
            shift_amount(code)
        } else {
            0
        }
    }

    /// A shift names a user who is there, and the lag of that stream can take it.
    pub open spec fn shift_fits(self, code: usize) -> bool {
        is_shift(code) ==> {
            &&& shift_user(code) < self.users@.len()
            &&& isize::MIN <= self.lag_after(code, shift_user(code)) <= isize::MAX
        }
    }

    /// No lag comes to the limit of its type where no sample arrives: neither in a second of the
    /// syncing phase, nor at a moment of the recording.
    pub open spec fn lags_fit(self, code: usize) -> bool {
        if self.syncing {
            self.syncing_index == 0 ==> forall|i: int|
                #![trigger self.users@[i]]
                0 <= i < self.users@.len() ==> self.lag_after(code, i) + SECOND <= isize::MAX
        } else if self.current_channel != 0 || is_shift(code) {
            true
        } else if code < self.users@.len() {
            self.users@[code as int].0.lag() < isize::MAX
        } else {
            forall|i: int|
                0 <= i < self.users@.len() ==> (#[trigger] self.users@[i]).0.lag() < isize::MAX
        }
    }

    /// The source can take these controls: a shift names a user who is there, and no counter comes
    /// to the limit of its type.
    pub open spec fn accepts(self, controls: Controls) -> bool {
        let now = self.clocked(controls.stop_sync);
        &&& self.clock_fits(controls.stop_sync)
        &&& now.minds_override() ==> now.shift_fits(controls.override_code)
        &&& now.lags_fit(controls.override_code)
        &&& now.syncing ==> self.syncing_index < usize::MAX
        &&& !now.syncing ==> self.backing_index < i32::MAX && self.current_channel < u16::MAX
    }

    /// The recording goes on: the sample that is due is played and written to all tracks.
    pub open spec fn goes_on(
        before: MultisyncSource,
        alone: bool,
        after: MultisyncSource,
        tick: Tick,
    ) -> bool {
        &&& after == before.advanced()
        &&& tick.backing_sample == Some(
            match before.backing_due(alone) {
                Some(b) => b,
                None => 0i16,
            },
        )
        &&& tick.total_sample == Some(before.due(alone))
        &&& tick.output == Some(before.due(alone))
    }

    /// The recording is over: nothing is played or written.
    pub open spec fn is_over(before: MultisyncSource, after: MultisyncSource, tick: Tick) -> bool {
        &&& after == before
        &&& tick.backing_sample is None
        &&& tick.total_sample is None
        &&& tick.output is None
    }

    /// With what the streams have answered, the recording is over or goes on.
    pub open spec fn decided(
        before: MultisyncSource,
        stopping: bool,
        alone: bool,
        stopped: Seq<bool>,
        after: MultisyncSource,
        tick: Tick,
    ) -> bool {
        if before.over(stopping, alone, stopped) {
            MultisyncSource::is_over(before, after, tick)
        } else {
            MultisyncSource::goes_on(before, alone, after, tick)
        }
    }

    /// A moment of the syncing phase can turn `now` into `after`: a shift, then silence.
    pub open spec fn ticked_syncing(
        now: MultisyncSource,
        code: usize,
        after: MultisyncSource,
        tick: Tick,
        sent: Seq<Wire>,
    ) -> bool {
        &&& exists|mid: MultisyncSource|
            MultisyncSource::shifted(now, code, mid) && #[trigger] MultisyncSource::synced(
                mid,
                after,
                sent,
            )
        &&& tick.shifted == is_shift(code)
        &&& tick.user_samples@.len() == 0
        &&& tick.backing_sample is None
        &&& tick.total_sample is None
        &&& tick.output == Some(0i16)
    }

    /// A moment of the recording can turn `now` into `after`. At the first channel a shift is
    /// carried out, or one user is played alone, or all users are mixed; at the other channels
    /// what the first had of the users is played again. The recording ends at a first channel
    /// after its end has been asked for: of a user who is played alone, when that user has stopped;
    /// else when the backing track is over and every user has stopped.
    pub open spec fn ticked_recording(
        now: MultisyncSource,
        controls: Controls,
        after: MultisyncSource,
        tick: Tick,
    ) -> bool {
        let code = controls.override_code;
        let first = now.current_channel == 0;
        &&& tick.shifted == (first && is_shift(code))
        &&& if !first {
            &&& tick.user_samples@.len() == 0
            &&& MultisyncSource::goes_on(now, false, after, tick)
        } else if is_shift(code) {
            &&& tick.user_samples@.len() == 0
            &&& exists|mid: MultisyncSource|
                MultisyncSource::shifted(now, code, mid) && #[trigger] MultisyncSource::goes_on(
                    mid,
                    false,
                    after,
                    tick,
                )
        } else if code < now.users@.len() {
            &&& tick.user_samples@.len() == 0
            &&& exists|mid: MultisyncSource|
                {
                    &&& MultisyncSource::soloed(now, code as int, mid)
                    &&& #[trigger] MultisyncSource::decided(
                        mid,
                        controls.stopping,
                        true,
                        seq![mid.users@[code as int].0.has_stopped()],
                        after,
                        tick,
                    )
                }
        } else {
            exists|mid: MultisyncSource|
                {
                    &&& MultisyncSource::pooled(now, mid, tick.user_samples@)
                    &&& #[trigger] MultisyncSource::decided(
                        mid,
                        controls.stopping,
                        false,
                        mid.answers(),
                        after,
                        tick,
                    )
                }
        }
    }

    /// What the source does at one moment.
    pub fn next(&mut self, controls: &Controls) -> (tick: Tick)
        requires
            old(self).accepts(*controls),
        ensures
            ({
                let now = old(self).clocked(controls.stop_sync);
                let notice = old(self).notice(controls.stop_sync);
                &&& notice.is_prefix_of(wires(tick.messages@))
                &&& if now.syncing {
                    MultisyncSource::ticked_syncing(
                        now,
                        controls.override_code,
                        *final(self),
                        tick,
                        wires(tick.messages@).skip(notice.len() as int),
                    )
                } else {
                    &&& tick.messages@.len() == 0
                    &&& MultisyncSource::ticked_recording(now, *controls, *final(self), tick)
                }
            }),
    {
        let code = controls.override_code;
        let mut messages: Vec<Message> = Vec::new();
        let ghost notice = self.notice(controls.stop_sync);
        self.look_at_clock(controls.stop_sync, &mut messages);
        let ghost now = *self;
        proof {
            assert(wires(messages@) =~= notice);
            assert(messages@.len() == wires(messages@).len());
        }
        let shift = code_is_shift(code);
        if self.syncing {
            if shift {
                self.carry_out_shift(code);
            }
            let ghost mid = *self;
            let output = self.sync_next(&mut messages);
            let tick = Tick {
                messages,
                shifted: shift,
                user_samples: Vec::new(),
                backing_sample: None,
                total_sample: None,
                output,
            };
            proof {
                assert(MultisyncSource::shifted(now, code, mid));
                assert(MultisyncSource::synced(
                    mid,
                    *self,
                    wires(tick.messages@).skip(notice.len() as int),
                ));
            }
            return tick;
        }
        let first = self.current_channel == 0;
        let alone = first && !shift && code < self.users.len();
        let mut user_samples: Vec<i16> = Vec::new();
        let mut stopped: Vec<bool> = Vec::new();
        if first && shift {
            self.carry_out_shift(code);
        } else if first {
            if alone {
                self.last_mono = self.users[code].0.pop();
                let ghost mid = self.users@[code as int].0;
                let answer = self.users[code].0.stopped();
                stopped.push(answer);
                proof {
                    assert(Stream::popped(now.users@[code as int].0, mid, self.last_mono));
                    assert(stopped@ =~= seq![self.users@[code as int].0.has_stopped()]);
                }
            } else {
                let (samples, answers) = self.pool();
                user_samples = samples;
                stopped = answers;
            }
            if self.ends(controls.stopping, alone, &stopped) {
                let tick = Tick {
                    messages,
                    shifted: false,
                    user_samples,
                    backing_sample: None,
                    total_sample: None,
                    output: None,
                };
                proof {
                    assert(MultisyncSource::decided(
                        *self,
                        controls.stopping,
                        alone,
                        stopped@,
                        *self,
                        tick,
                    ));
                }
                return tick;
            }
        }
        let ghost mid = *self;
        let (backing, sample) = self.play_on(alone);
        let tick = Tick {
            messages,
            shifted: first && shift,
            user_samples,
            backing_sample: Some(backing),
            total_sample: Some(sample),
            output: Some(sample),
        };
        proof {
            assert(MultisyncSource::goes_on(mid, alone, *self, tick));
            if first && !shift {
                assert(MultisyncSource::decided(
                    mid,
                    controls.stopping,
                    alone,
                    stopped@,
                    *self,
                    tick,
                ));
            }
        }
        tick
    }

    /// Whether no lag comes to the limit of its type, where the streams are asked for so many
    /// samples each.
    fn lags_have_room(&self, code: usize, samples: isize) -> (r: bool)
        requires
            0 <= samples,
            self.shift_fits(code),
        ensures
            r == forall|i: int|
                #![trigger self.users@[i]]
                0 <= i < self.users@.len() ==> self.lag_after(code, i) + samples <= isize::MAX,
    {
        let shift = code_is_shift(code);
        let mut i: usize = 0;
        while i < self.users.len()
            invariant
                0 <= samples,
                self.shift_fits(code),
                shift == is_shift(code),
                i <= self.users@.len(),
                forall|j: int|
                    #![trigger self.users@[j]]
                    0 <= j < i ==> self.lag_after(code, j) + samples <= isize::MAX,
            decreases self.users@.len() - i,
        {
            let mut lag: isize = self.users[i].0.current_lag();
            if shift {
                let (u, by) = read_shift(code);
                if u == i {
                    lag = lag + by;
                }
            }
            assert(lag == self.lag_after(code, i as int));
            if lag > isize::MAX - samples {
                assert(self.lag_after(code, i as int) + samples > isize::MAX);
                return false;
            }
            i = i + 1;
        }
        true
    }

    /// Whether a shift names a user who is there, and the lag of that stream can take it.
    fn can_shift(&self, code: usize) -> (r: bool)
        ensures
            r == self.shift_fits(code),
    {
        if !code_is_shift(code) {
            return true;
        }
        let (u, by) = read_shift(code);
        if u >= self.users.len() {
            return false;
        }
        let lag: isize = self.users[u].0.current_lag();
        if by < 0 {
            lag >= isize::MIN - by
        } else {
            lag <= isize::MAX - by
        }
    }

    /// Whether the source can take these controls.
    pub fn can_take(&self, controls: &Controls) -> (r: bool)
        ensures
            r == self.accepts(*controls),
    {
        let code = controls.override_code;
        let heard = controls.stop_sync && self.wants_stop_sync();
        let new_second = self.syncing && self.syncing_index == 0;
        if new_second && (self.sync_seconds == usize::MAX || heard && self.sync_seconds
            > usize::MAX - 1 - SYNC_NOTICE) {
            return false;
        }
        let syncing = self.syncing && !(new_second && !heard && self.sync_seconds + 1
            == self.stop_syncing_seconds);
        let ghost now = self.clocked(controls.stop_sync);
        assert(syncing == now.syncing);
        assert(now == (MultisyncSource {
            syncing: now.syncing,
            sync_seconds: now.sync_seconds,
            stop_syncing_seconds: now.stop_syncing_seconds,
            ..*self
        }));
        assert(forall|i: int| now.lag_after(code, i) == self.lag_after(code, i));
        if (syncing || self.current_channel == 0) && !self.can_shift(code) {
            return false;
        }
        if syncing {
            self.syncing_index < usize::MAX && (self.syncing_index != 0 || self.lags_have_room(
                code,
                SECOND as isize,
            ))
        } else {
            let fits = if self.current_channel != 0 || code_is_shift(code) {
                true
            } else if code < self.users.len() {
                self.users[code].0.current_lag() < isize::MAX
            } else {
                self.lags_have_room(code, 1)
            };
            fits && self.backing_index < i32::MAX && self.current_channel < u16::MAX
        }
    }

    /// The lag of each stream can take the offset of its user.
    pub open spec fn offsets_fit(users: Seq<(Stream, String)>, offsets: Seq<usize>) -> bool {
        forall|i: int|
            0 <= i < users.len() && i < offsets.len() ==> isize::MIN <= (
            #[trigger] users[i]).0.lag() + (offsets[i] as isize) <= isize::MAX
    }

    /// Whether the lag of each stream can take the offset of its user.
    pub fn can_start(users: &Vec<(Stream, String)>, offsets: &Vec<usize>) -> (r: bool)
        ensures
            r == MultisyncSource::offsets_fit(users@, offsets@),
    {
        let mut i: usize = 0;
        while i < users.len() && i < offsets.len()
            invariant
                i <= users@.len(),
                i <= offsets@.len(),
                forall|j: int|
                    0 <= j < i ==> isize::MIN <= (#[trigger] users@[j]).0.lag() + (
                    offsets@[j] as isize) <= isize::MAX,
            decreases users@.len() - i,
        {
            let lag: isize = users[i].0.current_lag();
            let by: isize = offsets[i] as isize;
            let fits = if by < 0 {
                lag >= isize::MIN - by
            } else {
                lag <= isize::MAX - by
            };
            if !fits {
                assert(!(isize::MIN <= users@[i as int].0.lag() + (offsets@[i as int] as isize)
                    <= isize::MAX));
                return false;
            }
            i = i + 1;
        }
        true
    }

    /// A source starts with the syncing phase. Each stream is later by the offset of its user.
    pub open spec fn started(
        users: Seq<(Stream, String)>,
        offsets: Seq<usize>,
        channels: u16,
        backing: Vec<i16>,
        backing_index: i32,
        source: MultisyncSource,
    ) -> bool {
        &&& source == (MultisyncSource {
            syncing: true,
            users: source.users,
            syncing_index: 0,
            sync_seconds: 0,
            stop_syncing_seconds: 0,
            channels,
            current_channel: 0,
            last_mono: 0,
            backing,
            backing_index,
        })
        &&& same_names(users, source.users@)
        &&& forall|i: int| #![trigger source.users@[i]]
            0 <= i < users.len() ==> Stream::moved(
                users[i].0,
                source.users@[i].0,
                if i < offsets.len() {
                    offsets[i] as isize as int
                } else {
                    0
                },
            )
    }

    /// A source that starts with the syncing phase. Each stream is later by the offset of its user.
    pub fn start(
        users: Vec<(Stream, String)>,
        offsets: &Vec<usize>,
        channels: u16,
        backing: Vec<i16>,
        backing_index: i32,
    ) -> (source: MultisyncSource)
        requires
            MultisyncSource::offsets_fit(users@, offsets@),
        ensures
            MultisyncSource::started(users@, offsets@, channels, backing, backing_index, source),
    {
        let mut late = users;
        let mut i: usize = 0;
        while i < late.len() && i < offsets.len()
            invariant
                i <= late@.len(),
                i <= offsets@.len(),
                MultisyncSource::offsets_fit(users@, offsets@),
                same_names(users@, late@),
                forall|j: int| i <= j < late@.len() ==> late@[j] == users@[j],
                forall|j: int| #![trigger late@[j]]
                    0 <= j < i ==> Stream::moved(
                        users@[j].0,
                        late@[j].0,
                        offsets@[j] as isize as int,
                    ),
            decreases late@.len() - i,
        {
            assert(late@[i as int] == users@[i as int]);
            late[i].0.shift(offsets[i] as isize);
            i = i + 1;
        }
        MultisyncSource {
            syncing: true,
            users: late,
            syncing_index: 0,
            sync_seconds: 0,
            stop_syncing_seconds: 0,
            channels,
            current_channel: 0,
            last_mono: 0,
            backing,
            backing_index,
        }
    }

    pub fn channels(&self) -> (n: u16)
        ensures
            n == self.channels,
    {
        self.channels
    }

    pub fn sample_rate(&self) -> (n: u32)
        ensures
            n == SAMPLE_RATE,
    {
        SAMPLE_RATE
    }

    /// The source `n` samples of the recording later, as far as its place in the track goes.
    pub open spec fn advanced_by(self, n: nat) -> MultisyncSource
        decreases n,
    {
        if n == 0 {
            self
        } else {
            self.advanced_by((n - 1) as nat).advanced()
        }
    }

    /// The source `n` seconds of the syncing phase later, as far as its clock goes, where nobody
    /// asks for the end.
    pub open spec fn seconds_later(self, n: nat) -> MultisyncSource
        decreases n,
    {
        if n == 0 {
            self
        } else {
            self.seconds_later((n - 1) as nat).clocked(false)
        }
    }
}

/// The messages that hold the outlines of some seconds.
pub open spec fn outlines(seconds: Seq<Seq<i16>>) -> Seq<Wire> {
    seconds.map_values(|s: Seq<i16>| Wire::Binary(outline(s)))
}

/// The recording ends only after that has been asked for, when a user who is played alone has
/// stopped, or else when every user has stopped and the backing track is over.
pub proof fn lemma_end_needs_asking_and_silence(
    now: MultisyncSource,
    controls: Controls,
    after: MultisyncSource,
    tick: Tick,
)
    requires
        MultisyncSource::ticked_recording(now, controls, after, tick),
        tick.output is None,
    ensures
        controls.stopping,
        now.current_channel == 0,
        controls.override_code < now.users@.len()
            ==> after.users@[controls.override_code as int].0.has_stopped(),
        controls.override_code >= now.users@.len() ==> after.backing_over() && forall|i: int|
            0 <= i < after.users@.len() ==> (#[trigger] after.users@[i]).0.has_stopped(),
{
    let code = controls.override_code;
    let first = now.current_channel == 0;
    if first && !is_shift(code) && code < now.users@.len() {
        let mid = choose|mid: MultisyncSource|
            {
                &&& MultisyncSource::soloed(now, code as int, mid)
                &&& #[trigger] MultisyncSource::decided(
                    mid,
                    controls.stopping,
                    true,
                    seq![mid.users@[code as int].0.has_stopped()],
                    after,
                    tick,
                )
            };
        assert(seq![mid.users@[code as int].0.has_stopped()][0]);
    } else if first && !is_shift(code) {
        let mid = choose|mid: MultisyncSource|
            {
                &&& MultisyncSource::pooled(now, mid, tick.user_samples@)
                &&& #[trigger] MultisyncSource::decided(
                    mid,
                    controls.stopping,
                    false,
                    mid.answers(),
                    after,
                    tick,
                )
            };
        assert forall|i: int| 0 <= i < after.users@.len() implies (
        #[trigger] after.users@[i]).0.has_stopped() by {
            assert(mid.answers()[i]);
        }
    }
}

/// At every moment of the recording the backing track and the track of the whole get one sample
/// each, and what is played is what the track of the whole gets; at the end neither gets any.
pub proof fn lemma_tracks_in_step(
    now: MultisyncSource,
    controls: Controls,
    after: MultisyncSource,
    tick: Tick,
)
    requires
        MultisyncSource::ticked_recording(now, controls, after, tick),
    ensures
        tick.total_sample == tick.output,
        tick.backing_sample is Some == tick.output is Some,
{
}

/// The recording keeps to its channels, and to its place in the backing track.
pub proof fn lemma_recording_moves_on(
    now: MultisyncSource,
    controls: Controls,
    after: MultisyncSource,
    tick: Tick,
)
    requires
        MultisyncSource::ticked_recording(now, controls, after, tick),
        now.current_channel < now.channels,
    ensures
        after.current_channel < after.channels,
        after.channels == now.channels,
        after.backing == now.backing,
        after.syncing == now.syncing,
        same_names(now.users@, after.users@),
        tick.output is Some ==> after.backing_index == now.advanced().backing_index
            && after.current_channel == now.advanced().current_channel,
        tick.output is None ==> after.backing_index == now.backing_index && after.current_channel
            == now.current_channel,
{
}

/// In the channels after the first, the users are heard as in the first: no stream moves on, and no
/// sample is written to the track of a user.
pub proof fn lemma_channels_share_users(
    now: MultisyncSource,
    controls: Controls,
    after: MultisyncSource,
    tick: Tick,
)
    requires
        MultisyncSource::ticked_recording(now, controls, after, tick),
        now.current_channel != 0,
    ensures
        after.users == now.users,
        after.last_mono == now.last_mono,
        tick.user_samples@.len() == 0,
        tick.output == Some(now.due(false)),
{
}

/// In the recording the users stay in step: at each first channel every stream goes on by one
/// place, however late its samples arrive, and at the other channels none does. This holds while
/// nobody is played alone and no stream is shifted.
pub proof fn lemma_users_stay_in_step(
    now: MultisyncSource,
    controls: Controls,
    after: MultisyncSource,
    tick: Tick,
    user: int,
)
    requires
        MultisyncSource::ticked_recording(now, controls, after, tick),
        now.current_channel == 0 ==> !is_shift(controls.override_code) && controls.override_code
            >= now.users@.len(),
        0 <= user < now.users@.len(),
    ensures
        after.users@[user].0.place() == now.users@[user].0.place() + if now.current_channel == 0 {
            1int
        } else {
            0int
        },
{
    if now.current_channel == 0 {
        let mid = choose|mid: MultisyncSource|
            {
                &&& MultisyncSource::pooled(now, mid, tick.user_samples@)
                &&& #[trigger] MultisyncSource::decided(
                    mid,
                    controls.stopping,
                    false,
                    mid.answers(),
                    after,
                    tick,
                )
            };
        let sample = tick.user_samples@[user];
        assert(Stream::popped_and_looked(now.users@[user].0, mid.users@[user].0, sample));
        lemma_look_keeps_the_place(now.users@[user].0, mid.users@[user].0, sample);
    }
}

/// In the syncing phase the users stay in step: with each second every stream goes on by a second,
/// but for what the stream is shifted.
pub proof fn lemma_syncing_keeps_step(
    now: MultisyncSource,
    code: usize,
    after: MultisyncSource,
    tick: Tick,
    sent: Seq<Wire>,
    user: int,
)
    requires
        MultisyncSource::ticked_syncing(now, code, after, tick, sent),
        0 <= user < now.users@.len(),
    ensures
        after.users@[user].0.place() == now.users@[user].0.place() + if now.syncing_index == 0 {
            SECOND as int
        } else {
            0
        } + if is_shift(code) && user == shift_user(code) {
            shift_amount(code)
        } else {
            0
        },
{
    let mid = choose|mid: MultisyncSource|
        MultisyncSource::shifted(now, code, mid) && #[trigger] MultisyncSource::synced(
            mid,
            after,
            sent,
        );
    if now.syncing_index == 0 {
        let seconds = choose|seconds: Seq<Seq<i16>>| #[trigger]
            MultisyncSource::took_seconds(mid.users@, after.users@, seconds) && sent
                == seq![Wire::Text("syncnewf"@)] + outlines(seconds);
        assert(seconds[user].len() == SECOND);
        lemma_run_keeps_its_place(mid.users@[user].0, after.users@[user].0, seconds[user]);
    }
}

/// The place in the track goes through the channels in turn, and through the backing track one
/// sample at a time.
pub proof fn lemma_place(source: MultisyncSource, n: nat)
    requires
        source.current_channel < source.channels,
        source.backing_index + n <= i32::MAX,
    ensures
        source.advanced_by(n).backing_index == source.backing_index + n,
        source.advanced_by(n).current_channel == (source.current_channel + n) % (
        source.channels as int),
        source.advanced_by(n).channels == source.channels,
    decreases n,
{
    let channels = source.channels as int;
    if n > 0 {
        lemma_place(source, (n - 1) as nat);
        let fore = source.current_channel + n - 1;
        let rounds = fore / channels;
        vstd::arithmetic::div_mod::lemma_fundamental_div_mod(fore, channels);
        assert(rounds * channels == channels * rounds) by (nonlinear_arith);
        assert((rounds + 1) * channels == channels * rounds + channels) by (nonlinear_arith);
        if fore % channels + 1 == channels {
            vstd::arithmetic::div_mod::lemma_fundamental_div_mod_converse(
                fore + 1,
                channels,
                rounds + 1,
                0,
            );
        } else {
            vstd::arithmetic::div_mod::lemma_fundamental_div_mod_converse(
                fore + 1,
                channels,
                rounds,
                fore % channels + 1,
            );
        }
    } else {
        vstd::arithmetic::div_mod::lemma_small_mod(source.current_channel as nat, channels as nat);
    }
}

/// Once the end of the syncing phase has been heard, the phase goes on for `SYNC_NOTICE - 1` more
/// seconds, and ends with the beginning of the one after them.
pub proof fn lemma_sync_ends_after_notice(source: MultisyncSource, n: nat)
    requires
        source.hears(true),
        source.sync_seconds <= usize::MAX - 1 - SYNC_NOTICE,
        n <= SYNC_NOTICE,
    ensures
        source.clocked(true).seconds_later(n).syncing == (n < SYNC_NOTICE),
        source.clocked(true).seconds_later(n).sync_seconds == source.sync_seconds + 1 + n,
        source.clocked(true).seconds_later(n).stop_syncing_seconds == source.sync_seconds + 1
            + SYNC_NOTICE,
        source.clocked(true).seconds_later(n).syncing_index == 0,
    decreases n,
{
    if n > 0 {
        lemma_sync_ends_after_notice(source, (n - 1) as nat);
    }
}

/// A shift of any of the first 256 users by any 16-bit number has a code, which is read as that.
pub proof fn lemma_shift_code(user: u8, by: i16)
    ensures
        ({
            let code = SHIFT_CODE + user + 256 * (by as int % 65536);
            &&& code < u32::MAX
            &&& is_shift(code as usize)
            &&& shift_user(code as usize) == user
            &&& shift_amount(code as usize) == by
        }),
{
}

/// One user alone is heard as that user is.
pub proof fn lemma_mix_of_one(sample: i16)
    ensures
        mixed(seq![sample]) == sample,
{
    reveal_with_fuel(mixed, 2);
    assert(seq![sample].drop_last() =~= Seq::<i16>::empty());
}

/// A user who is silent changes nothing, wherever in the row.
pub proof fn lemma_silence_is_neutral(before: Seq<i16>, after: Seq<i16>)
    ensures
        mixed(before.push(0) + after) == mixed(before + after),
    decreases after.len(),
{
    let with = before.push(0) + after;
    let without = before + after;
    if after.len() == 0 {
        assert(with.drop_last() =~= without);
    } else {
        assert(with.drop_last() =~= before.push(0) + after.drop_last());
        assert(without.drop_last() =~= before + after.drop_last());
        lemma_silence_is_neutral(before, after.drop_last());
    }
}

/// Two samples are added; a sum that is no sample is cut to the nearest one.
pub proof fn lemma_samples_are_added(a: i16, b: i16)
    ensures
        -32768 <= a + b <= 32767 ==> saturated_sum(a, b) == a + b,
        a + b > 32767 ==> saturated_sum(a, b) == 32767,
        a + b < -32768 ==> saturated_sum(a, b) == -32768,
{
}

/// The sum of some samples.
pub open spec fn total(samples: Seq<i16>) -> int
    decreases samples.len(),
{
    if samples.len() == 0 {
        0
    } else {
        total(samples.drop_last()) + samples.last()
    }
}

/// The mix of the users is the sum of their samples, where the sums on the way to it are samples.
pub proof fn lemma_mix_is_the_sum(samples: Seq<i16>)
    requires
        forall|k: int|
            0 <= k <= samples.len() ==> -32768 <= total(#[trigger] samples.take(k)) <= 32767,
    ensures
        mixed(samples) == total(samples),
    decreases samples.len(),
{
    if samples.len() > 0 {
        let fore = samples.drop_last();
        assert forall|k: int| 0 <= k <= fore.len() implies -32768 <= total(#[trigger] fore.take(k))
            <= 32767 by {
            assert(fore.take(k) =~= samples.take(k));
        }
        lemma_mix_is_the_sum(fore);
        assert(samples.take(samples.len() as int) =~= samples);
    }
}

/// In whichever way, one more user is mixed in by adding that user's sample, cut to the nearest one.
pub proof fn lemma_one_more_user(samples: Seq<i16>, sample: i16)
    ensures
        mixed(samples.push(sample)) == if mixed(samples) + sample > 32767 {
            32767
        } else if mixed(samples) + sample < -32768 {
            -32768
        } else {
            mixed(samples) + sample
        },
        mixed(Seq::<i16>::empty()) == 0,
{
    assert(samples.push(sample).drop_last() =~= samples);
}

/// The sample of the backing track at the place where the source stands, or silence before its
/// beginning and after its end.
pub open spec fn backing_here(source: MultisyncSource) -> i16 {
    if 0 <= source.backing_index < source.backing@.len() {
        source.backing@[source.backing_index as int]
    } else {
        0
    }
}

/// The code asks neither for a shift nor for one of so many users alone.
pub open spec fn overrides_nothing(code: usize, users: nat) -> bool {
    code >= users && (code < 16777216 || code == usize::MAX)
}

/// The nearest sample to a number.
pub open spec fn nearest(n: int) -> int {
    if n > 32767 {
        32767
    } else if n < -32768 {
        -32768
    } else {
        n
    }
}

/// At a first channel, every user gets the sample of their own stream written down, at the last
/// moment too. What is heard is the mix of all of them with the backing track added; that is the sum
/// of all, where the sums on the way are samples.
pub proof fn lemma_everybody_is_heard(
    now: MultisyncSource,
    controls: Controls,
    after: MultisyncSource,
    tick: Tick,
)
    requires
        MultisyncSource::ticked_recording(now, controls, after, tick),
        now.current_channel == 0,
        overrides_nothing(controls.override_code, now.users@.len()),
    ensures
        !tick.shifted,
        tick.user_samples@.len() == now.users@.len(),
        forall|i: int| #![trigger tick.user_samples@[i]]
            0 <= i < now.users@.len() ==> Stream::popped_and_looked(
                now.users@[i].0,
                after.users@[i].0,
                tick.user_samples@[i],
            ),
        after.last_mono == mixed(tick.user_samples@),
        tick.total_sample == tick.output,
        tick.output is Some ==> tick.backing_sample == Some(backing_here(now)),
        tick.output is Some ==> tick.output->0 == nearest(
            mixed(tick.user_samples@) + backing_here(now),
        ),
        tick.output is Some && (forall|k: int|
            0 <= k <= tick.user_samples@.len() ==> -32768 <= total(
                #[trigger] tick.user_samples@.take(k),
            ) <= 32767) && -32768 <= total(tick.user_samples@) + backing_here(now) <= 32767
            ==> tick.output->0 == total(tick.user_samples@) + backing_here(now),
{
    let mid = choose|mid: MultisyncSource|
        {
            &&& MultisyncSource::pooled(now, mid, tick.user_samples@)
            &&& #[trigger] MultisyncSource::decided(
                mid,
                controls.stopping,
                false,
                mid.answers(),
                after,
                tick,
            )
        };
    if forall|k: int|
        0 <= k <= tick.user_samples@.len() ==> -32768 <= total(
            #[trigger] tick.user_samples@.take(k),
        ) <= 32767 {
        lemma_mix_is_the_sum(tick.user_samples@);
    }
}

/// At a channel after the first, what was heard of the users is heard again, with the sample of the
/// backing track for that channel added.
pub proof fn lemma_other_channels_are_heard(
    now: MultisyncSource,
    controls: Controls,
    after: MultisyncSource,
    tick: Tick,
)
    requires
        MultisyncSource::ticked_recording(now, controls, after, tick),
        now.current_channel != 0,
    ensures
        tick.output is Some,
        !tick.shifted,
        tick.backing_sample == Some(backing_here(now)),
        tick.output->0 == nearest(now.last_mono + backing_here(now)),
{
}

/// A user who is played alone is heard as the stream gives it, without the backing track, and no
/// other stream moves on.
pub proof fn lemma_one_user_is_heard_alone(
    now: MultisyncSource,
    controls: Controls,
    after: MultisyncSource,
    tick: Tick,
)
    requires
        MultisyncSource::ticked_recording(now, controls, after, tick),
        now.current_channel == 0,
        controls.override_code < now.users@.len(),
        controls.override_code < 16777216,
        tick.output is Some,
    ensures
        Stream::popped_and_looked(
            now.users@[controls.override_code as int].0,
            after.users@[controls.override_code as int].0,
            tick.output->0,
        ),
        after.last_mono == tick.output->0,
        tick.backing_sample == Some(0i16),
        tick.user_samples@.len() == 0,
        !tick.shifted,
        forall|i: int|
            0 <= i < now.users@.len() && i != controls.override_code ==> after.users@[i]
                == now.users@[i],
{
}

/// A shift moves the stream of the user in the lowest byte of the code, by the signed 16-bit number
/// above that byte, and no other stream. What was heard of the users is heard again.
pub proof fn lemma_a_shift_moves_one_stream(
    now: MultisyncSource,
    controls: Controls,
    after: MultisyncSource,
    tick: Tick,
)
    requires
        MultisyncSource::ticked_recording(now, controls, after, tick),
        now.current_channel == 0,
        16777216 <= controls.override_code < usize::MAX,
        now.shift_fits(controls.override_code),
    ensures
        tick.shifted,
        tick.output is Some,
        tick.backing_sample == Some(backing_here(now)),
        tick.output->0 == nearest(now.last_mono + backing_here(now)),
        tick.user_samples@.len() == 0,
        after.last_mono == now.last_mono,
        ({
            let user = (controls.override_code - 16777216) % 256;
            let by = after.users@[user].0.place() - now.users@[user].0.place();
            &&& user < now.users@.len()
            &&& -32768 <= by <= 32767
            &&& (controls.override_code - 16777216 - user - 256 * by) % 16777216 == 0
            &&& after.users@[user].0.waiting() == now.users@[user].0.waiting()
            &&& forall|i: int|
                0 <= i < now.users@.len() && i != user ==> after.users@[i] == now.users@[i]
        }),
{
    lemma_shift_amount(controls.override_code);
}

/// A shift is by a signed 16-bit number, which stands above the lowest byte of the code.
pub proof fn lemma_shift_amount(code: usize)
    requires
        16777216 <= code < usize::MAX,
    ensures
        is_shift(code),
        0 <= shift_user(code) < 256,
        -32768 <= shift_amount(code) <= 32767,
        (code - 16777216 - shift_user(code) - 256 * shift_amount(code)) % 16777216 == 0,
{
    let rest = code - 16777216;
    let user = rest % 256;
    let high = rest / 256;
    let word = high % 65536;
    let top = high / 65536;
    assert(rest == user + 256 * high);
    assert(high == word + 65536 * top);
    let by = shift_amount(code);
    if by == word {
        assert(rest - user - 256 * by == 16777216 * top);
    } else {
        assert(rest - user - 256 * by == 16777216 * (top + 1));
    }
}

/// No code below 16777216 asks for a shift, nor the code that overrides nothing.
pub proof fn lemma_what_is_no_shift(code: usize)
    requires
        code < 16777216 || code == usize::MAX,
    ensures
        !is_shift(code),
{
}

/// At a first channel where nothing is overridden, the recording ends exactly where that has been
/// asked for, the backing track has been played to its end, and every stream is empty and at least
/// 24000 samples late.
pub proof fn lemma_when_the_recording_ends(
    now: MultisyncSource,
    controls: Controls,
    after: MultisyncSource,
    tick: Tick,
)
    requires
        MultisyncSource::ticked_recording(now, controls, after, tick),
        now.current_channel == 0,
        overrides_nothing(controls.override_code, now.users@.len()),
        now.backing@.len() <= i32::MAX,
    ensures
        tick.output is None <==> controls.stopping && now.backing_index >= now.backing@.len()
            && forall|i: int|
            0 <= i < now.users@.len() ==> (#[trigger] after.users@[i]).0.lag() >= 24000
                && after.users@[i].0.waiting().len() == 0,
{
    let mid = choose|mid: MultisyncSource|
        {
            &&& MultisyncSource::pooled(now, mid, tick.user_samples@)
            &&& #[trigger] MultisyncSource::decided(
                mid,
                controls.stopping,
                false,
                mid.answers(),
                after,
                tick,
            )
        };
    assert(after.users == mid.users);
    assert forall|i: int| 0 <= i < mid.users@.len() implies #[trigger] mid.answers()[i] == (
    after.users@[i].0.lag() >= 24000 && after.users@[i].0.waiting().len() == 0) by {}
    if forall|i: int|
        0 <= i < now.users@.len() ==> (#[trigger] after.users@[i]).0.lag() >= 24000
            && after.users@[i].0.waiting().len() == 0 {
        assert forall|i: int| 0 <= i < mid.answers().len() implies #[trigger] mid.answers()[i] by {
            assert(after.users@[i].0.lag() >= 24000);
        }
    }
    if tick.output is None {
        assert forall|i: int| 0 <= i < now.users@.len() implies (
        #[trigger] after.users@[i]).0.lag() >= 24000 && after.users@[i].0.waiting().len() == 0 by {
            assert(mid.answers()[i]);
        }
    }
}

/// Where a user is played alone, the recording ends exactly where that has been asked for and the
/// user's stream is empty and at least 24000 samples late.
pub proof fn lemma_when_a_recording_of_one_ends(
    now: MultisyncSource,
    controls: Controls,
    after: MultisyncSource,
    tick: Tick,
)
    requires
        MultisyncSource::ticked_recording(now, controls, after, tick),
        now.current_channel == 0,
        controls.override_code < now.users@.len(),
        controls.override_code < 16777216,
    ensures
        tick.output is None <==> controls.stopping && after.users@[controls.override_code as int].0.lag()
            >= 24000 && after.users@[controls.override_code as int].0.waiting().len() == 0,
{
    let code = controls.override_code as int;
    let mid = choose|mid: MultisyncSource|
        {
            &&& MultisyncSource::soloed(now, code, mid)
            &&& #[trigger] MultisyncSource::decided(
                mid,
                controls.stopping,
                true,
                seq![mid.users@[code].0.has_stopped()],
                after,
                tick,
            )
        };
    assert(after.users == mid.users);
    let answers = seq![mid.users@[code].0.has_stopped()];
    assert(answers[0] == mid.users@[code].0.has_stopped());
}

/// In every odd second of the syncing phase the end can be asked for, whichever second it is. It
/// comes eight seconds later, and the users are told the last second before it.
pub proof fn lemma_every_odd_second_listens(source: MultisyncSource, k: int)
    requires
        source.syncing,
        source.syncing_index == 0,
        0 <= k,
        source.sync_seconds == 2 * k,
        2 * k + 9 <= usize::MAX,
    ensures
        source.listens(),
        source.clocked(true).sync_seconds == 2 * k + 1,
        source.clocked(true).stop_syncing_seconds == 2 * k + 9,
        source.clocked(true).syncing,
        source.notice(true) == seq![Wire::Text("syncstop"@ + decimal((2 * k + 8) as nat))],
{
}

/// The end of the syncing phase is heard at no other moment: not in an even second, and not within a
/// second.
pub proof fn lemma_nothing_else_is_heard(source: MultisyncSource, stop_sync: bool)
    requires
        source.sync_seconds % 2 == 1 || source.syncing_index != 0 || !source.syncing || !stop_sync,
        source.sync_seconds < usize::MAX,
    ensures
        source.notice(stop_sync) == Seq::<Wire>::empty(),
        source.clocked(stop_sync).stop_syncing_seconds == source.stop_syncing_seconds,
        source.syncing && source.syncing_index == 0 ==> {
            &&& source.clocked(stop_sync).sync_seconds == source.sync_seconds + 1
            &&& source.clocked(stop_sync).syncing == (source.sync_seconds + 1
                != source.stop_syncing_seconds)
        },
        source.syncing_index != 0 || !source.syncing ==> source.clocked(stop_sync) == source,
{
}

/// A request to end the syncing phase that stays is heard within two seconds.
pub proof fn lemma_a_request_is_heard_soon(source: MultisyncSource)
    requires
        source.syncing,
        source.syncing_index == 0,
        source.sync_seconds < usize::MAX - 10,
        source.clocked(true).syncing,
    ensures
        source.hears(true) || source.clocked(true).hears(true),
{
}

/// The clock of the syncing phase changes nothing but itself.
pub proof fn lemma_clock_changes_itself_alone(source: MultisyncSource, stop_sync: bool)
    ensures
        ({
            let after = source.clocked(stop_sync);
            &&& after.users == source.users
            &&& after.syncing_index == source.syncing_index
            &&& after.channels == source.channels
            &&& after.current_channel == source.current_channel
            &&& after.last_mono == source.last_mono
            &&& after.backing == source.backing
            &&& after.backing_index == source.backing_index
            &&& !source.syncing ==> !after.syncing
        }),
{
}

/// The message holds the outline of the 48000 samples that the stream would have played.
pub open spec fn drawn_second(before: Stream, after: Stream, message: Wire) -> bool {
    exists|second: Seq<i16>|
        {
            &&& second.len() == 48000
            &&& #[trigger] Stream::popped_run(before, after, second)
            &&& message == Wire::Binary(outline(second))
        }
}

/// In the syncing phase nothing is heard and nothing is written down. At the beginning of each
/// second of 48000 moments, every user gets a heading and then the outline of a second of each
/// stream, in the order of the users; at the other moments nothing is sent.
pub proof fn lemma_what_syncing_sends(
    now: MultisyncSource,
    code: usize,
    after: MultisyncSource,
    tick: Tick,
    sent: Seq<Wire>,
)
    requires
        MultisyncSource::ticked_syncing(now, code, after, tick, sent),
        now.syncing_index < 48000,
    ensures
        tick.output == Some(0i16),
        tick.shifted == (16777216 <= code < usize::MAX),
        tick.user_samples@.len() == 0,
        tick.backing_sample is None,
        tick.total_sample is None,
        after.syncing_index == (now.syncing_index + 1) % 48000,
        after.syncing == now.syncing,
        after.backing_index == now.backing_index,
        after.current_channel == now.current_channel,
        after.sync_seconds == now.sync_seconds,
        now.syncing_index != 0 ==> sent.len() == 0,
        now.syncing_index == 0 ==> {
            &&& sent.len() == now.users@.len() + 1
            &&& sent[0] == Wire::Text("syncnewf"@)
            &&& code < 16777216 || code == usize::MAX ==> forall|j: int|
                1 <= j <= now.users@.len() ==> drawn_second(
                    now.users@[j - 1].0,
                    after.users@[j - 1].0,
                    #[trigger] sent[j],
                )
        },
{
    let mid = choose|mid: MultisyncSource|
        MultisyncSource::shifted(now, code, mid) && #[trigger] MultisyncSource::synced(
            mid,
            after,
            sent,
        );
    if now.syncing_index == 0 {
        let seconds = choose|seconds: Seq<Seq<i16>>| #[trigger]
            MultisyncSource::took_seconds(mid.users@, after.users@, seconds) && sent
                == seq![Wire::Text("syncnewf"@)] + outlines(seconds);
        if code < 16777216 || code == usize::MAX {
            assert forall|j: int| 1 <= j <= now.users@.len() implies drawn_second(
                now.users@[j - 1].0,
                after.users@[j - 1].0,
                #[trigger] sent[j],
            ) by {
                assert(seconds[j - 1].len() == 48000);
                assert(outlines(seconds)[j - 1] == Wire::Binary(outline(seconds[j - 1])));
                assert(Stream::popped_run(
                    now.users@[j - 1].0,
                    after.users@[j - 1].0,
                    seconds[j - 1],
                ));
            }
        }
    }
}

/// Ordinary moments are taken: where no counter is near its limit, every code is carried out but a
/// shift of a user who is not there.
pub proof fn lemma_ordinary_moments_are_taken(source: MultisyncSource, controls: Controls)
    requires
        forall|i: int|
            0 <= i < source.users@.len() ==> -1_000_000_000 <= (
            #[trigger] source.users@[i]).0.lag() <= 1_000_000_000,
        source.sync_seconds <= 1_000_000_000,
        source.syncing_index < 48000,
        source.backing_index < i32::MAX,
        source.current_channel < source.channels,
        controls.override_code < 16777216 || controls.override_code == usize::MAX || (
        controls.override_code - 16777216) % 256 < source.users@.len(),
    ensures
        source.accepts(controls),
{
    let now = source.clocked(controls.stop_sync);
    let code = controls.override_code;
    if is_shift(code) {
        lemma_shift_amount(code);
        assert(source.users@[shift_user(code)].0.lag() <= 1_000_000_000);
    }
    assert forall|i: int| #![trigger now.users@[i]] 0 <= i < now.users@.len() implies now.lag_after(
        code,
        i,
    ) + SECOND <= isize::MAX by {
        assert(source.users@[i].0.lag() <= 1_000_000_000);
    }
}

/// A recording starts with the first moment of the syncing phase and the first channel. The offset
/// of a user puts the user's stream forward by so many places.
pub proof fn lemma_offsets_move_the_streams(
    users: Seq<(Stream, String)>,
    offsets: Seq<usize>,
    channels: u16,
    backing: Vec<i16>,
    backing_index: i32,
    source: MultisyncSource,
    i: int,
)
    requires
        MultisyncSource::started(users, offsets, channels, backing, backing_index, source),
        0 <= i < users.len(),
    ensures
        source.users@.len() == users.len(),
        source.users@[i].1@ == users[i].1@,
        source.users@[i].0.waiting() == users[i].0.waiting(),
        i < offsets.len() && offsets[i] <= isize::MAX ==> source.users@[i].0.place()
            == users[i].0.place() + offsets[i],
        i >= offsets.len() ==> source.users@[i].0.place() == users[i].0.place(),
        source.syncing,
        source.syncing_index == 0,
        source.sync_seconds == 0,
        source.stop_syncing_seconds == 0,
        source.channels == channels,
        source.current_channel == 0,
        source.backing@ == backing@,
        source.backing_index == backing_index,
{
}

/// Offsets fit a stream that has not been played yet, whatever they are.
pub proof fn lemma_offsets_fit_at_first(users: Seq<(Stream, String)>, offsets: Seq<usize>)
    requires
        forall|i: int| 0 <= i < users.len() ==> (#[trigger] users[i]).0.lag() == 0,
    ensures
        MultisyncSource::offsets_fit(users, offsets),
{
}

} // verus!
