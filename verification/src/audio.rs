//! What the thread that plays the audio does with the messages it gets.

use crate::message::{Message, Wire};
use crate::source::{same_names, MultisyncSource};
use crate::stream::Stream;
use crate::text::{join, joined, views};
use vstd::prelude::*;
use vstd::string::StringExecFns;

verus! {

/// Samples that have to wait in every stream before a recording starts: five seconds.
pub const DEFAULT_MIN_BUF_LEN: usize = 240000;

/// A message to the thread that plays the audio.
pub enum AudioMessage {
    /// The users, their offsets, the channels of the backing track, the backing track, and the
    /// place in it to start from.
    StartRecording(Vec<(Stream, String)>, Vec<usize>, u16, Vec<i16>, i32),
    /// Ends the recording, at once or when everybody has gone silent.
    StopRecording(bool),
    Override(usize),
    MinBuf(usize),
    StopSync,
    Beep,
}

/// What the thread that plays the audio has at hand.
#[derive(PartialEq, Eq, Structural, Clone, Copy, Debug)]
pub struct AudioState {
    /// A recording plays.
    pub sink: bool,
    /// The override of the recording can be set.
    pub overrider: bool,
    /// The end of syncing can be asked for.
    pub syncer: bool,
    /// The end of the recording can be asked for.
    pub stopper: bool,
    /// Samples that have to wait in every stream before a recording starts.
    pub minbuf: usize,
}

/// A recording that is to play: first the users are told who is who, then their audio is waited for.
pub struct Warmup {
    /// What the users are told.
    pub index: Message,
    /// The users have been told.
    pub told: bool,
    /// Samples that have to wait in every stream.
    pub minbuf: usize,
    /// So many streams, from the first on, have had enough.
    pub ready: usize,
    pub users: Vec<(Stream, String)>,
    pub offsets: Vec<usize>,
    pub channels: u16,
    pub backing: Vec<i16>,
    pub backing_index: i32,
}

/// What is to be done next for a recording that is to play.
pub enum WarmupStep {
    /// Send this to every user.
    Tell(Message),
    /// Wait a little for the audio of this user.
    Wait(usize),
    /// Play.
    Play,
}

/// What the thread that plays the audio is to do.
pub enum AudioAction {
    Nothing,
    /// Warm up and play.
    Play(Warmup),
    /// Stop playing.
    Silence,
    /// Ask the recording to end when everybody has gone silent.
    AskToStop,
    /// Set the override.
    SetOverride(usize),
    /// Ask for the end of syncing.
    AskToStopSync,
    /// Play a short beep.
    Beep,
}

/// The names of some users.
pub open spec fn names(users: Seq<(Stream, String)>) -> Seq<Seq<char>> {
    users.map_values(|u: (Stream, String)| u.1@)
}

impl AudioState {
    /// Nothing plays.
    pub open spec fn idle(minbuf: usize) -> AudioState {
        AudioState { sink: false, overrider: false, syncer: false, stopper: false, minbuf }
    }

    /// What can be asked for belongs to a recording that plays.
    pub open spec fn wf(self) -> bool {
        &&& self.overrider == self.sink
        &&& self.syncer ==> self.sink
        &&& self.stopper ==> self.sink
    }

    pub fn new() -> (s: AudioState)
        ensures
            s == AudioState::idle(DEFAULT_MIN_BUF_LEN),
            s.wf(),
    {
        AudioState {
            sink: false,
            overrider: false,
            syncer: false,
            stopper: false,
            minbuf: DEFAULT_MIN_BUF_LEN,
        }
    }

    /// What the thread has at hand after a message.
    pub open spec fn after(self, message: AudioMessage) -> AudioState {
        match message {
            AudioMessage::StartRecording(..) => if self.sink {
                self
            } else {
                AudioState { sink: true, overrider: true, syncer: true, stopper: true, ..self }
            },
            AudioMessage::StopRecording(instant) => if instant {
                AudioState::idle(self.minbuf)
            } else {
                AudioState { stopper: false, ..self }
            },
            AudioMessage::Override(_) => self,
            AudioMessage::MinBuf(n) => AudioState { minbuf: n, ..self },
            AudioMessage::StopSync => AudioState { syncer: false, ..self },
            AudioMessage::Beep => self,
        }
    }

    /// What the thread does upon a message.
    pub open spec fn answers(self, message: AudioMessage, action: AudioAction) -> bool {
        match message {
            AudioMessage::StartRecording(users, offsets, channels, backing, backing_index) => {
                if self.sink {
                    action == AudioAction::Nothing
                } else {
                    &&& action matches AudioAction::Play(w)
                    &&& w.index@ == Wire::Text("idx:"@ + joined(names(users@), ";"@))
                    &&& w.fresh()
                    &&& (w.minbuf, w.users, w.offsets, w.channels, w.backing, w.backing_index) == (
                        self.minbuf,
                        users,
                        offsets,
                        channels,
                        backing,
                        backing_index,
                    )
                }
            },
            AudioMessage::StopRecording(instant) => action == if instant {
                AudioAction::Silence
            } else if self.stopper {
                AudioAction::AskToStop
            } else {
                AudioAction::Nothing
            },
            AudioMessage::Override(code) => action == if self.overrider {
                AudioAction::SetOverride(code)
            } else {
                AudioAction::Nothing
            },
            AudioMessage::MinBuf(_) => action == AudioAction::Nothing,
            AudioMessage::StopSync => action == if self.syncer {
                AudioAction::AskToStopSync
            } else {
                AudioAction::Nothing
            },
            AudioMessage::Beep => action == AudioAction::Beep,
        }
    }
}

/// The message that tells the users who is who.
pub fn index_message(users: &Vec<(Stream, String)>) -> (m: Message)
    ensures
        m@ == Wire::Text("idx:"@ + joined(names(users@), ";"@)),
{
    let mut list: Vec<String> = Vec::new();
    let mut i: usize = 0;
    while i < users.len()
        invariant
            i <= users@.len(),
            views(list@) == names(users@).take(i as int),
        decreases users@.len() - i,
    {
        let ghost fore = list@;
        list.push(users[i].1.clone());
        proof {
            assert(views(list@) =~= views(fore).push(users@[i as int].1@));
            assert(names(users@).take(i + 1) =~= names(users@).take(i as int).push(
                names(users@)[i as int],
            ));
        }
        i = i + 1;
    }
    assert(names(users@).take(i as int) =~= names(users@));
    let mut text = "idx:".to_string();
    let tail = join(&list, ";");
    text.append(tail.as_str());
    Message::Text(text)
}

/// What the thread that plays the audio does upon a message.
pub fn audio_handler(state: &mut AudioState, message: AudioMessage) -> (action: AudioAction)
    ensures
        *final(state) == old(state).after(message),
        old(state).answers(message, action),
        old(state).wf() ==> final(state).wf(),
{
    match message {
        AudioMessage::StartRecording(users, offsets, channels, backing, backing_index) => {
            if state.sink {
                return AudioAction::Nothing;
            }
            let index = index_message(&users);
            state.sink = true;
            state.overrider = true;
            state.syncer = true;
            state.stopper = true;
            AudioAction::Play(
                Warmup {
                    index,
                    told: false,
                    minbuf: state.minbuf,
                    ready: 0,
                    users,
                    offsets,
                    channels,
                    backing,
                    backing_index,
                },
            )
        },
        AudioMessage::StopRecording(instant) => {
            if instant {
                state.sink = false;
                state.overrider = false;
                state.syncer = false;
                state.stopper = false;
                AudioAction::Silence
            } else if state.stopper {
                state.stopper = false;
                AudioAction::AskToStop
            } else {
                AudioAction::Nothing
            }
        },
        AudioMessage::Override(code) => {
            if state.overrider {
                AudioAction::SetOverride(code)
            } else {
                AudioAction::Nothing
            }
        },
        AudioMessage::MinBuf(min) => {
            state.minbuf = min;
            AudioAction::Nothing
        },
        AudioMessage::StopSync => {
            if state.syncer {
                state.syncer = false;
                AudioAction::AskToStopSync
            } else {
                AudioAction::Nothing
            }
        },
        AudioMessage::Beep => AudioAction::Beep,
    }
}

/// Whether so many samples wait in a stream that a recording can start.
pub fn has_buffer(stream: &mut Stream, minbuf: usize) -> (r: bool)
    ensures
        r == (final(stream).waiting().len() >= minbuf),
        Stream::looked(*old(stream), *final(stream)),
{
    stream.buffered() >= minbuf
}

/// The streams of some users have at most been looked at.
pub open spec fn only_looked(before: Seq<(Stream, String)>, after: Seq<(Stream, String)>) -> bool {
    &&& same_names(before, after)
    &&& forall|i: int|
        0 <= i < before.len() ==> Stream::at_most_looked(before[i].0, (#[trigger] after[i]).0)
}

/// So many samples wait in each of the streams from `from` to `to`.
pub open spec fn have_enough(
    users: Seq<(Stream, String)>,
    from: int,
    to: int,
    minbuf: usize,
) -> bool {
    forall|i: int| from <= i < to ==> (#[trigger] users[i]).0.waiting().len() >= minbuf
}

/// The first user at or after `from` in whose stream fewer than `minbuf` samples wait.
pub fn first_short(users: &mut Vec<(Stream, String)>, from: usize, minbuf: usize) -> (r: Option<
    usize,
>)
    requires
        from <= old(users)@.len(),
    ensures
        only_looked(old(users)@, final(users)@),
        match r {
            Some(i) => {
                &&& from <= i < final(users)@.len()
                &&& final(users)@[i as int].0.waiting().len() < minbuf
                &&& have_enough(final(users)@, from as int, i as int, minbuf)
            },
            None => have_enough(
                final(users)@,
                from as int,
                final(users)@.len() as int,
                minbuf,
            ),
        },
{
    let mut i: usize = from;
    while i < users.len()
        invariant
            from <= i <= users@.len(),
            only_looked(old(users)@, users@),
            forall|j: int| i <= j < users@.len() ==> users@[j] == old(users)@[j],
            have_enough(users@, from as int, i as int, minbuf),
        decreases users@.len() - i,
    {
        if !has_buffer(&mut users[i].0, minbuf) {
            return Some(i);
        }
        i = i + 1;
    }
    None
}

impl Warmup {
    /// Nothing has been done yet.
    pub open spec fn fresh(self) -> bool {
        !self.told && self.ready == 0
    }

    /// The streams that count as ready have enough.
    pub open spec fn wf(self) -> bool {
        self.ready <= self.users@.len() && have_enough(
            self.users@,
            0,
            self.ready as int,
            self.minbuf,
        )
    }

    /// The users have been told, and all streams are ready.
    pub open spec fn complete(self) -> bool {
        self.told && self.ready == self.users@.len()
    }

    /// One step can turn `before` into `after` and ask for `step`. First the users are told. Then
    /// the first stream that has not enough is waited for. When there is none, the recording plays.
    pub open spec fn stepped(before: Warmup, after: Warmup, step: WarmupStep) -> bool {
        if !before.told {
            &&& after == (Warmup { told: true, ..before })
            &&& step matches WarmupStep::Tell(m)
            &&& m@ == before.index@
        } else {
            &&& after == (Warmup { users: after.users, ready: after.ready, ..before })
            &&& only_looked(before.users@, after.users@)
            &&& have_enough(
                after.users@,
                before.ready as int,
                after.ready as int,
                before.minbuf,
            )
            &&& match step {
                WarmupStep::Tell(_) => false,
                WarmupStep::Wait(i) => {
                    &&& before.ready <= i < after.users@.len()
                    &&& after.ready == i
                    &&& after.users@[i as int].0.waiting().len() < before.minbuf
                },
                WarmupStep::Play => after.ready == after.users@.len(),
            }
        }
    }

    /// What is to be done next.
    pub fn step(&mut self) -> (step: WarmupStep)
        requires
            old(self).wf(),
        ensures
            Warmup::stepped(*old(self), *final(self), step),
            final(self).wf(),
            step is Play ==> final(self).complete(),
    {
        if !self.told {
            self.told = true;
            return WarmupStep::Tell(self.index.clone());
        }
        let step = match first_short(&mut self.users, self.ready, self.minbuf) {
            Some(i) => {
                self.ready = i;
                WarmupStep::Wait(i)
            },
            None => {
                self.ready = self.users.len();
                WarmupStep::Play
            },
        };
        proof {
            lemma_enough_stays(old(self).users@, self.users@, old(self).ready as int, self.minbuf);
        }
        step
    }

    /// Whether the recording can play now.
    pub fn can_begin(&self) -> (r: bool)
        ensures
            r == (self.complete() && MultisyncSource::offsets_fit(self.users@, self.offsets@)),
    {
        self.told && self.ready == self.users.len() && MultisyncSource::can_start(
            &self.users,
            &self.offsets,
        )
    }

    /// The source of the recording. In every stream enough samples wait.
    pub fn begin(self) -> (source: MultisyncSource)
        requires
            self.wf(),
            self.complete(),
            MultisyncSource::offsets_fit(self.users@, self.offsets@),
        ensures
            MultisyncSource::started(
                self.users@,
                self.offsets@,
                self.channels,
                self.backing,
                self.backing_index,
                source,
            ),
            have_enough(source.users@, 0, source.users@.len() as int, self.minbuf),
    {
        MultisyncSource::start(
            self.users,
            &self.offsets,
            self.channels,
            self.backing,
            self.backing_index,
        )
    }
}

/// Looking at streams takes nothing away from them.
proof fn lemma_enough_stays(
    before: Seq<(Stream, String)>,
    after: Seq<(Stream, String)>,
    to: int,
    minbuf: usize,
)
    requires
        only_looked(before, after),
        to <= before.len(),
        have_enough(before, 0, to, minbuf),
    ensures
        have_enough(after, 0, to, minbuf),
{
    assert forall|i: int| 0 <= i < to implies (#[trigger] after[i]).0.waiting().len() >= minbuf by {
        assert(before[i].0.waiting().len() >= minbuf);
        assert(Stream::at_most_looked(before[i].0, after[i].0));
    }
}

/// The states of a warm-up from its beginning on, and what was asked for in between.
pub open spec fn warmup_run(states: Seq<Warmup>, steps: Seq<WarmupStep>) -> bool {
    &&& states.len() == steps.len() + 1
    &&& states[0].fresh()
    &&& forall|k: int| #![trigger steps[k]]
        0 <= k < steps.len() ==> Warmup::stepped(states[k], states[k + 1], steps[k])
}

/// What holds after `k` steps of a warm-up.
proof fn lemma_warmup_state(states: Seq<Warmup>, steps: Seq<WarmupStep>, k: int)
    requires
        warmup_run(states, steps),
        0 <= k <= steps.len(),
    ensures
        states[k].wf(),
        states[k].told == (k > 0),
        states[k].minbuf == states[0].minbuf,
        states[k].users@.len() == states[0].users@.len(),
    decreases k,
{
    if k > 0 {
        lemma_warmup_state(states, steps, k - 1);
        let before = states[k - 1];
        let after = states[k];
        assert(Warmup::stepped(before, after, steps[k - 1]));
        if before.told {
            lemma_enough_stays(before.users@, after.users@, before.ready as int, before.minbuf);
        }
    }
}

/// No recording plays before the users have been told who is who, and before so many samples as the
/// recording was given at its beginning wait in every stream. The users are told once, and first.
pub proof fn lemma_everybody_is_waited_for(states: Seq<Warmup>, steps: Seq<WarmupStep>, k: int)
    requires
        warmup_run(states, steps),
        0 <= k < steps.len(),
    ensures
        steps[k] is Tell == (k == 0),
        steps[0] matches WarmupStep::Tell(m) && m@ == states[0].index@,
        steps[k] is Play ==> {
            &&& k > 0
            &&& states[k + 1].users@.len() == states[0].users@.len()
            &&& have_enough(
                states[k + 1].users@,
                0,
                states[k + 1].users@.len() as int,
                states[0].minbuf,
            )
        },
{
    lemma_warmup_state(states, steps, k);
    lemma_warmup_state(states, steps, k + 1);
    assert(Warmup::stepped(states[k], states[k + 1], steps[k]));
    assert(Warmup::stepped(states[0], states[1], steps[0]));
}

/// A recording is played without waiting where every stream has enough when the users have been
/// told, or there is no user.
pub proof fn lemma_no_wait_without_need(before: Warmup, after: Warmup, step: WarmupStep)
    requires
        before.told,
        before.wf(),
        Warmup::stepped(before, after, step),
        have_enough(before.users@, 0, before.users@.len() as int, before.minbuf),
    ensures
        step is Play,
{
    lemma_enough_stays(before.users@, after.users@, before.users@.len() as int, before.minbuf);
}

/// The buffer length that the last of some messages gave that gave one, or `first`.
pub open spec fn last_minbuf(messages: Seq<AudioMessage>, first: usize) -> usize
    decreases messages.len(),
{
    if messages.len() == 0 {
        first
    } else {
        match messages.last() {
            AudioMessage::MinBuf(n) => n,
            _ => last_minbuf(messages.drop_last(), first),
        }
    }
}

/// A recording waits for so many samples as the last message said that told of a buffer length
/// before the recording was asked for, or for the default.
pub proof fn lemma_minbuf_is_the_last(messages: Seq<AudioMessage>)
    ensures
        after_all(AudioState::idle(DEFAULT_MIN_BUF_LEN), messages).minbuf == last_minbuf(
            messages,
            DEFAULT_MIN_BUF_LEN,
        ),
        forall|users: Vec<(Stream, String)>,
            offsets: Vec<usize>,
            channels: u16,
            backing: Vec<i16>,
            index: i32,
            w: Warmup| #[trigger]
            after_all(AudioState::idle(DEFAULT_MIN_BUF_LEN), messages).answers(
                AudioMessage::StartRecording(users, offsets, channels, backing, index),
                AudioAction::Play(w),
            ) ==> w.fresh() && w.minbuf == last_minbuf(messages, DEFAULT_MIN_BUF_LEN),
    decreases messages.len(),
{
    if messages.len() > 0 {
        lemma_minbuf_is_the_last(messages.drop_last());
    }
}

/// What the thread has at hand after some messages, one after the other.
pub open spec fn after_all(state: AudioState, messages: Seq<AudioMessage>) -> AudioState
    decreases messages.len(),
{
    if messages.len() == 0 {
        state
    } else {
        after_all(state, messages.drop_last()).after(messages.last())
    }
}

/// A recording that plays keeps any other from starting, until it is stopped at once.
pub proof fn lemma_one_recording_at_a_time(state: AudioState, messages: Seq<AudioMessage>)
    requires
        state.sink,
        forall|i: int|
            0 <= i < messages.len() ==> #[trigger] messages[i] != AudioMessage::StopRecording(true),
    ensures
        after_all(state, messages).sink,
        forall|users: Vec<(Stream, String)>,
            offsets: Vec<usize>,
            channels: u16,
            backing: Vec<i16>,
            index: i32,
            action: AudioAction| #[trigger]
            after_all(state, messages).answers(
                AudioMessage::StartRecording(users, offsets, channels, backing, index),
                action,
            ) ==> action == AudioAction::Nothing,
    decreases messages.len(),
{
    if messages.len() > 0 {
        lemma_one_recording_at_a_time(state, messages.drop_last());
        assert(messages[messages.len() - 1] == messages.last());
    }
}

/// The end of a recording, and that of its syncing phase, are asked for once: asking again does
/// nothing, until a new recording plays.
pub proof fn lemma_asked_once(state: AudioState, messages: Seq<AudioMessage>)
    requires
        forall|i: int| 0 <= i < messages.len() ==> !(#[trigger] messages[i] is StartRecording),
    ensures
        !state.stopper ==> !after_all(state, messages).stopper && after_all(state, messages).answers(
            AudioMessage::StopRecording(false),
            AudioAction::Nothing,
        ),
        !state.syncer ==> !after_all(state, messages).syncer && after_all(state, messages).answers(
            AudioMessage::StopSync,
            AudioAction::Nothing,
        ),
        !state.after(AudioMessage::StopRecording(false)).stopper,
        !state.after(AudioMessage::StopSync).syncer,
    decreases messages.len(),
{
    if messages.len() > 0 {
        lemma_asked_once(state, messages.drop_last());
        assert(messages[messages.len() - 1] == messages.last());
    }
}

/// A recording that is asked for while none plays is played: all its users, under their names and in
/// their order, its offsets and its backing track.
pub proof fn lemma_what_is_played(
    state: AudioState,
    users: Vec<(Stream, String)>,
    offsets: Vec<usize>,
    channels: u16,
    backing: Vec<i16>,
    index: i32,
    action: AudioAction,
)
    requires
        !state.sink,
        state.answers(
            AudioMessage::StartRecording(users, offsets, channels, backing, index),
            action,
        ),
    ensures
        action matches AudioAction::Play(w) && w.users == users && w.offsets == offsets && w.channels
            == channels && w.backing == backing && w.backing_index == index && w.minbuf
            == state.minbuf && !w.told && w.index@ == Wire::Text(
            "idx:"@ + joined(users@.map_values(|u: (Stream, String)| u.1@), ";"@),
        ),
        state.after(AudioMessage::StartRecording(users, offsets, channels, backing, index)).sink,
{
    assert(names(users@) =~= users@.map_values(|u: (Stream, String)| u.1@));
}

/// While a recording plays, every override is passed on as it is, whatever was asked before, until
/// the recording is stopped at once.
pub proof fn lemma_overrides_are_passed_on(
    state: AudioState,
    messages: Seq<AudioMessage>,
    code: usize,
    action: AudioAction,
)
    requires
        state.overrider,
        forall|i: int|
            0 <= i < messages.len() ==> #[trigger] messages[i] != AudioMessage::StopRecording(true),
    ensures
        after_all(state, messages).overrider,
        after_all(state, messages).answers(AudioMessage::Override(code), action) <==> action
            == AudioAction::SetOverride(code),
    decreases messages.len(),
{
    if messages.len() > 0 {
        lemma_overrides_are_passed_on(state, messages.drop_last(), code, action);
        assert(messages[messages.len() - 1] == messages.last());
    }
}

/// From its start on a recording can be asked to end, until that has been asked; and so the end of
/// its syncing phase.
pub proof fn lemma_the_end_can_be_asked_for(
    state: AudioState,
    start: AudioMessage,
    messages: Seq<AudioMessage>,
    action: AudioAction,
)
    requires
        !state.sink,
        start is StartRecording,
        forall|i: int|
            0 <= i < messages.len() ==> !(#[trigger] messages[i] is StopRecording)
                && !(messages[i] is StopSync),
    ensures
        after_all(state.after(start), messages).answers(
            AudioMessage::StopRecording(false),
            action,
        ) <==> action == AudioAction::AskToStop,
        after_all(state.after(start), messages).answers(AudioMessage::StopSync, action)
            <==> action == AudioAction::AskToStopSync,
        after_all(state.after(start), messages).stopper,
        after_all(state.after(start), messages).syncer,
        after_all(state.after(start), messages).sink,
        after_all(state.after(start), messages).overrider,
    decreases messages.len(),
{
    if messages.len() > 0 {
        lemma_the_end_can_be_asked_for(state, start, messages.drop_last(), action);
        assert(messages[messages.len() - 1] == messages.last());
    }
}

/// A recording that is stopped at once is silent, whatever came before, and then another can start;
/// until then nothing can be overridden or asked to end.
pub proof fn lemma_stopping_at_once(state: AudioState, action: AudioAction, code: usize)
    requires
        state.answers(AudioMessage::StopRecording(true), action),
    ensures
        action == AudioAction::Silence,
        ({
            let after = state.after(AudioMessage::StopRecording(true));
            &&& !after.sink
            &&& after.minbuf == state.minbuf
            &&& after.answers(AudioMessage::Override(code), AudioAction::Nothing)
            &&& after.answers(AudioMessage::StopRecording(false), AudioAction::Nothing)
            &&& after.answers(AudioMessage::StopSync, AudioAction::Nothing)
        }),
{
}

/// A stream has enough where as many samples wait as are asked for, and not where fewer do.
pub proof fn lemma_what_is_enough(users: Seq<(Stream, String)>, i: int, minbuf: usize)
    requires
        0 <= i < users.len(),
    ensures
        have_enough(users, i, i + 1, minbuf) <==> users[i].0.waiting().len() >= minbuf,
{
}

/// A beep is played whatever goes on, and neither it nor a new buffer length disturbs anything.
pub proof fn lemma_what_disturbs_nothing(state: AudioState, action: AudioAction, n: usize)
    ensures
        state.answers(AudioMessage::Beep, action) <==> action == AudioAction::Beep,
        state.after(AudioMessage::Beep) == state,
        state.answers(AudioMessage::MinBuf(n), action) <==> action == AudioAction::Nothing,
        state.after(AudioMessage::MinBuf(n)) == (AudioState { minbuf: n, ..state }),
        state.after(AudioMessage::Override(n)) == state,
{
}

} // verus!
