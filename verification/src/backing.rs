//! The track that is played behind the users.

use crate::media::{
    mp3_left, mp3_next, mp3_open, mp3_shape, shape_of, wav_channels, wav_file, wav_left, wav_next,
    wav_open, wav_samples, Mp3Error, Mp3Frame,
};
use crate::message::{text_message, wires, Message, Wire};
use crate::text::{decimal, push_number};
use minimp3::Decoder;
use vstd::prelude::*;
use vstd::string::StringExecFns;

verus! {

/// Beats of a metronome track.
pub const BEATS: usize = 10000;

/// Samples in a minute.
pub const MINUTE: usize = 2880000;

/// The track behind the users.
pub enum Backing {
    /// The bytes of an audio file.
    File(Vec<u8>),
    /// A metronome: beats per minute, as a decimal number, and beats per bar.
    Metronome(String, usize),
}

/// What a file held that made its reading fail for good.
#[derive(PartialEq, Eq, Structural, Clone, Copy, Debug)]
pub enum DecodeFault {
    /// A sample that is missing, or does not fit into 16 bits.
    BadSample,
    /// Frames with different numbers of channels.
    ChannelsDiffer,
}

/// Why an MP3 file cannot be used.
#[derive(PartialEq, Eq, Structural, Clone, Copy, Debug)]
pub enum Mp3Fault {
    Decoder(Mp3Error),
    /// Frames with different numbers of channels.
    ChannelsDiffer,
}

/// The samples of some frames, one after the other.
pub open spec fn frame_samples(frames: Seq<(Seq<i16>, usize)>) -> Seq<i16>
    decreases frames.len(),
{
    if frames.len() == 0 {
        seq![]
    } else {
        frame_samples(frames.drop_last()) + frames.last().0
    }
}

/// All frames have as many channels as the first.
pub open spec fn same_channels(frames: Seq<(Seq<i16>, usize)>) -> bool {
    forall|i: int| 0 <= i < frames.len() ==> (#[trigger] frames[i]).1 == frames[0].1
}

/// What an MP3 file comes to whose decoder gave these frames and stopped for this reason: the
/// samples, and the number of channels, one where there is no frame.
pub open spec fn mp3_track(frames: Seq<(Seq<i16>, usize)>, end: Mp3Error) -> Result<
    (Seq<i16>, u16),
    Mp3Fault,
> {
    if !same_channels(frames) {
        Err(Mp3Fault::ChannelsDiffer)
    } else if end != Mp3Error::Eof {
        Err(Mp3Fault::Decoder(end))
    } else if frames.len() == 0 {
        Ok((seq![], 1))
    } else {
        Ok((frame_samples(frames), frames[0].1 as u16))
    }
}

/// What a WAV file comes to that holds these samples.
pub open spec fn wav_track(channels: u16, samples: Seq<Option<i16>>) -> Result<
    (Seq<i16>, u16),
    DecodeFault,
> {
    if exists|i: int| 0 <= i < samples.len() && (#[trigger] samples[i]) is None {
        Err(DecodeFault::BadSample)
    } else {
        Ok((samples.map_values(|s: Option<i16>| s->0), channels))
    }
}

/// The bytes of an MP3 file can come to `r`: that is what some frames come to that have the lengths
/// and the channels which the bytes ask for.
pub open spec fn is_mp3_track(bytes: Seq<u8>, r: Result<(Seq<i16>, u16), Mp3Fault>) -> bool {
    exists|frames: Seq<(Seq<i16>, usize)>|
        shape_of(frames) == mp3_shape(bytes).0 && r == #[trigger] mp3_track(
            frames,
            mp3_shape(bytes).1,
        )
}

/// What an audio file comes to that is tried as an MP3 file. A decoder that fails leaves nothing to
/// be read.
pub open spec fn tried_as_mp3(r: Result<(Seq<i16>, u16), Mp3Fault>) -> Result<
    Option<(Seq<i16>, u16)>,
    DecodeFault,
> {
    match r {
        Ok(t) => Ok(Some(t)),
        Err(Mp3Fault::Decoder(_)) => Ok(None),
        Err(Mp3Fault::ChannelsDiffer) => Err(DecodeFault::ChannelsDiffer),
    }
}

/// The bytes of an audio file can come to `r`: nothing is one channel of silence; else it is tried
/// as a WAV file, and where it is none, as an MP3 file. `None` where it is neither.
pub open spec fn is_track(
    bytes: Seq<u8>,
    r: Result<Option<(Seq<i16>, u16)>, DecodeFault>,
) -> bool {
    if bytes.len() == 0 {
        r == Ok::<Option<(Seq<i16>, u16)>, DecodeFault>(Some((seq![], 1)))
    } else {
        match wav_file(bytes) {
            Some((channels, samples)) => r == match wav_track(channels, samples) {
                Ok(t) => Ok(Some(t)),
                Err(e) => Err(e),
            },
            None => exists|m: Result<(Seq<i16>, u16), Mp3Fault>| #[trigger]
                is_mp3_track(bytes, m) && r == tried_as_mp3(m),
        }
    }
}

/// The view of a result that holds samples.
pub open spec fn track_view<E>(r: Result<(Vec<i16>, u16), E>) -> Result<(Seq<i16>, u16), E> {
    match r {
        Ok((samples, channels)) => Ok((samples@, channels)),
        Err(e) => Err(e),
    }
}

/// The view of a result that may hold samples.
pub open spec fn option_view<E>(r: Result<Option<(Vec<i16>, u16)>, E>) -> Result<
    Option<(Seq<i16>, u16)>,
    E,
> {
    match r {
        Ok(Some((samples, channels))) => Ok(Some((samples@, channels))),
        Ok(None) => Ok(None),
        Err(e) => Err(e),
    }
}

/// The samples and channels of some frames.
pub open spec fn frame_views(frames: Seq<Mp3Frame>) -> Seq<(Seq<i16>, usize)> {
    frames.map_values(|f: Mp3Frame| (f.data@, f.channels))
}

/// Puts the frames of an MP3 file together.
pub fn join_frames(frames: Vec<Mp3Frame>, end: Mp3Error) -> (r: Result<(Vec<i16>, u16), Mp3Fault>)
    ensures
        track_view(r) == mp3_track(frame_views(frames@), end),
{
    let mut samples: Vec<i16> = Vec::new();
    let ghost views = frame_views(frames@);
    let mut i: usize = 0;
    while i < frames.len()
        invariant
            i <= frames@.len(),
            views == frame_views(frames@),
            samples@ == frame_samples(views.take(i as int)),
            forall|j: int| 0 <= j < i ==> (#[trigger] views[j]).1 == views[0].1,
        decreases frames@.len() - i,
    {
        assert(views[i as int].1 == frames@[i as int].channels);
        assert(views[0].1 == frames@[0].channels);
        if frames[i].channels != frames[0].channels {
            return Err(Mp3Fault::ChannelsDiffer);
        }
        let ghost before = samples@;
        samples.extend_from_slice(frames[i].data.as_slice());
        proof {
            assert(samples@ =~= before + frames@[i as int].data@);
            assert(views.take(i + 1).drop_last() =~= views.take(i as int));
        }
        i = i + 1;
    }
    assert(views.take(i as int) =~= views);
    if end != Mp3Error::Eof {
        return Err(Mp3Fault::Decoder(end));
    }
    if frames.len() == 0 {
        return Ok((samples, 1));
    }
    Ok((samples, frames[0].channels as u16))
}

/// Puts the samples of a WAV file together.
pub fn join_samples(channels: u16, items: &Vec<Option<i16>>) -> (r: Result<
    (Vec<i16>, u16),
    DecodeFault,
>)
    ensures
        track_view(r) == wav_track(channels, items@),
{
    let mut samples: Vec<i16> = Vec::new();
    let mut i: usize = 0;
    while i < items.len()
        invariant
            i <= items@.len(),
            samples@.len() == i,
            forall|j: int|
                0 <= j < i ==> (#[trigger] items@[j]) is Some && samples@[j] == items@[j]->0,
        decreases items@.len() - i,
    {
        match items[i] {
            Some(x) => samples.push(x),
            None => {
                return Err(DecodeFault::BadSample);
            },
        }
        i = i + 1;
    }
    assert(samples@ =~= items@.map_values(|s: Option<i16>| s->0));
    Ok((samples, channels))
}

/// Takes all that a decoder of an MP3 file is still to give, and puts it together.
pub fn decode_rest(decoder: Decoder<&[u8]>) -> (r: Result<(Vec<i16>, u16), Mp3Fault>)
    ensures
        track_view(r) == mp3_track(mp3_left(decoder).0, mp3_left(decoder).1),
        r matches Ok((_, channels)) ==> channels > 0,
{
    let mut rest = decoder;
    let mut frames: Vec<Mp3Frame> = Vec::new();
    let ghost all = mp3_left(rest);
    loop
        invariant
            all == mp3_left(decoder),
            mp3_left(rest).1 == all.1,
            frame_views(frames@) + mp3_left(rest).0 == all.0,
            forall|i: int| 0 <= i < frames@.len() ==> 1 <= (#[trigger] frames@[i]).channels <= 2,
        decreases mp3_left(rest).0.len(),
    {
        let ghost left = mp3_left(rest).0;
        match mp3_next(&mut rest) {
            Ok(frame) => {
                let ghost before = frames@;
                frames.push(frame);
                proof {
                    assert(frame_views(frames@) =~= frame_views(before).push(left[0]));
                    assert(frame_views(frames@) + left.drop_first() =~= frame_views(before) + left);
                }
            },
            Err(end) => {
                proof {
                    assert(frame_views(frames@) =~= all.0);
                    if frames@.len() > 0 {
                        assert(all.0[0].1 == frames@[0].channels);
                    }
                }
                return join_frames(frames, end);
            },
        }
    }
}

/// Decodes an MP3 file.
pub fn decode_mp3(bytes: &[u8]) -> (r: Result<(Vec<i16>, u16), Mp3Fault>)
    ensures
        is_mp3_track(bytes@, track_view(r)),
        r matches Ok((_, channels)) ==> channels > 0,
{
    let decoder = mp3_open(bytes);
    let ghost all = mp3_left(decoder);
    let r = decode_rest(decoder);
    assert(track_view(r) == mp3_track(all.0, mp3_shape(bytes@).1));
    r
}

/// Decodes an audio file. `None` where it is none that can be read.
pub fn decode(bytes: &[u8]) -> (r: Result<Option<(Vec<i16>, u16)>, DecodeFault>)
    ensures
        is_track(bytes@, option_view(r)),
        r matches Ok(Some((_, channels))) ==> channels > 0,
{
    if bytes.len() == 0 {
        return Ok(Some((Vec::new(), 1)));
    }
    match wav_open(bytes) {
        Ok(reader) => {
            let channels = wav_channels(&reader);
            let mut left = wav_samples(reader);
            let ghost all = wav_left(left);
            let mut items: Vec<Option<i16>> = Vec::new();
            loop
                invariant
                    bytes@.len() > 0,
                    channels > 0,
                    wav_file(bytes@) == Some((channels, all)),
                    items@ + wav_left(left) == all,
                decreases wav_left(left).len(),
            {
                let ghost before = items@;
                let ghost rest = wav_left(left);
                let item = match wav_next(&mut left) {
                    Some(Ok(x)) => Some(x),
                    Some(Err(_)) => {
                        assert(all[before.len() as int] is None);
                        return Err(DecodeFault::BadSample);
                    },
                    None => {
                        assert(items@ =~= all);
                        return match join_samples(channels, &items) {
                            Ok(t) => Ok(Some(t)),
                            Err(e) => Err(e),
                        };
                    },
                };
                items.push(item);
                assert(items@ + rest.drop_first() =~= before + rest);
            }
        },
        Err(_) => {
            let m = decode_mp3(bytes);
            let ghost outcome = track_view(m);
            let r = match m {
                Ok(t) => Ok(Some(t)),
                Err(Mp3Fault::Decoder(_)) => Ok(None),
                Err(Mp3Fault::ChannelsDiffer) => Err(DecodeFault::ChannelsDiffer),
            };
            assert(is_mp3_track(bytes@, outcome) && option_view(r) == tried_as_mp3(outcome));
            r
        },
    }
}

/// The number that two bytes stand for, the lower byte first.
pub open spec fn le_sample(low: u8, high: u8) -> i16 {
    let word = low + 256 * high;
    if word < 32768 {
        word as i16
    } else {
        (word - 65536) as i16
    }
}

/// The samples that some bytes stand for, two bytes each.
pub open spec fn raw_samples(bytes: Seq<u8>) -> Seq<i16> {
    Seq::new(bytes.len() / 2, |i: int| le_sample(bytes[2 * i], bytes[2 * i + 1]))
}

/// Reads raw samples.
pub fn read_raw(bytes: &Vec<u8>) -> (samples: Vec<i16>)
    requires
        bytes@.len() % 2 == 0,
    ensures
        samples@ == raw_samples(bytes@),
{
    let mut samples: Vec<i16> = Vec::new();
    let half: usize = bytes.len() / 2;
    let mut i: usize = 0;
    while i < half
        invariant
            i <= half,
            half == bytes.len() / 2,
            samples@.len() == i,
            forall|j: int|
                0 <= j < i ==> samples@[j] == le_sample(bytes@[2 * j], bytes@[2 * j + 1]),
        decreases half - i,
    {
        let word: i32 = bytes[2 * i] as i32 + 256 * (bytes[2 * i + 1] as i32);
        let sample: i16 = if word < 32768 {
            word as i16
        } else {
            (word - 65536) as i16
        };
        samples.push(sample);
        i = i + 1;
    }
    assert(samples@ =~= raw_samples(bytes@));
    samples
}

/// Samples cut off, or followed by silence, so that there are `n`.
pub open spec fn resized(samples: Seq<i16>, n: nat) -> Seq<i16> {
    if n <= samples.len() {
        samples.take(n as int)
    } else {
        samples + Seq::new((n - samples.len()) as nat, |i: int| 0i16)
    }
}

/// The sound of the beat with number `i`: that of the first beat of a bar, or of another.
pub open spec fn beat_sound(i: int, sig: usize, up: Seq<i16>, tick: Seq<i16>) -> Seq<i16> {
    if i % (sig as int) == 0 {
        up
    } else {
        tick
    }
}

/// A metronome track: at each beat its sound. Where a beat comes before the sound of the one before
/// it is over, the rest of that sound is cut off.
pub open spec fn metronome(
    beats: Seq<usize>,
    sig: usize,
    up: Seq<i16>,
    tick: Seq<i16>,
) -> Seq<i16>
    decreases beats.len(),
{
    if beats.len() == 0 {
        seq![]
    } else {
        resized(metronome(beats.drop_last(), sig, up, tick), beats.last() as nat) + beat_sound(
            beats.len() - 1,
            sig,
            up,
            tick,
        )
    }
}

/// The beats and their sounds fit into memory's address range, and a bar has a beat.
pub open spec fn metronome_fits(
    beats: Seq<usize>,
    sig: usize,
    up: Seq<i16>,
    tick: Seq<i16>,
) -> bool {
    &&& beats.len() > 0 ==> sig > 0
    &&& forall|i: int|
        0 <= i < beats.len() ==> (#[trigger] beats[i]) + beat_sound(i, sig, up, tick).len()
            <= isize::MAX / 2
}

/// Whether the beats and their sounds, of which the lengths are given, fit, and a bar has a beat.
fn beats_fit(beats: &Vec<usize>, sig: usize, up: usize, tick: usize) -> (r: bool)
    ensures
        forall|u: Seq<i16>, t: Seq<i16>|
            u.len() == up && t.len() == tick ==> r == #[trigger] metronome_fits(beats@, sig, u, t),
{
    if beats.len() > 0 && sig == 0 {
        return false;
    }
    let limit: usize = (isize::MAX / 2) as usize;
    let mut i: usize = 0;
    while i < beats.len()
        invariant
            i <= beats@.len(),
            beats@.len() > 0 ==> sig > 0,
            limit == isize::MAX / 2,
            forall|j: int|
                0 <= j < i ==> (#[trigger] beats@[j]) + if j % (sig as int) == 0 {
                    up as int
                } else {
                    tick as int
                } <= limit,
        decreases beats@.len() - i,
    {
        let sound: usize = if i % sig == 0 {
            up
        } else {
            tick
        };
        if sound > limit || beats[i] > limit - sound {
            assert(beats@[i as int] + sound > limit);
            return false;
        }
        i = i + 1;
    }
    true
}

/// Lays out a metronome track.
pub fn lay_metronome(beats: &Vec<usize>, sig: usize, up: &Vec<i16>, tick: &Vec<i16>) -> (track: Vec<
    i16,
>)
    requires
        metronome_fits(beats@, sig, up@, tick@),
    ensures
        track@ == metronome(beats@, sig, up@, tick@),
{
    let mut track: Vec<i16> = Vec::new();
    let mut i: usize = 0;
    while i < beats.len()
        invariant
            i <= beats@.len(),
            metronome_fits(beats@, sig, up@, tick@),
            track@ == metronome(beats@.take(i as int), sig, up@, tick@),
        decreases beats@.len() - i,
    {
        let ghost before = track@;
        let beat: usize = beats[i];
        track.resize(beat, 0);
        assert(track@ =~= resized(before, beat as nat));
        if i % sig == 0 {
            track.extend_from_slice(up.as_slice());
        } else {
            track.extend_from_slice(tick.as_slice());
        }
        proof {
            assert(beats@.take(i + 1).drop_last() =~= beats@.take(i as int));
            assert(track@ =~= resized(before, beat as nat) + beat_sound(i as int, sig, up@, tick@));
        }
        i = i + 1;
    }
    assert(beats@.take(i as int) =~= beats@);
    track
}

impl Backing {
    /// What the users are told of a backing track that is new.
    pub open spec fn news(self) -> Seq<Wire> {
        match self {
            Backing::File(f) => seq![Wire::Text("bck:"@), Wire::Binary(f@)],
            Backing::Metronome(bpm, sig) => seq![metronome_wire(bpm@, sig as nat)],
        }
    }

    /// What a user who comes is told of the backing track.
    pub open spec fn welcome(self) -> Wire {
        match self {
            Backing::File(f) => Wire::Binary(f@),
            Backing::Metronome(bpm, sig) => metronome_wire(bpm@, sig as nat),
        }
    }

    /// The messages that tell the users of a backing track that is new.
    pub fn news_messages(&self) -> (messages: Vec<Message>)
        ensures
            wires(messages@) == self.news(),
    {
        let mut messages: Vec<Message> = Vec::new();
        match self {
            Backing::File(f) => {
                messages.push(text_message("bck:"));
                messages.push(Message::Binary(f.clone()));
            },
            Backing::Metronome(bpm, sig) => {
                messages.push(metronome_message(bpm.as_str(), *sig));
            },
        }
        assert(wires(messages@) =~= self.news());
        messages
    }

    /// The message that tells a user who comes of the backing track.
    pub fn welcome_message(&self) -> (m: Message)
        ensures
            m@ == self.welcome(),
    {
        match self {
            Backing::File(f) => {
                let copy = f.clone();
                assert(copy@ =~= f@);
                Message::Binary(copy)
            },
            Backing::Metronome(bpm, sig) => metronome_message(bpm.as_str(), *sig),
        }
    }

    /// The track can be made: for a metronome, the sounds are whole samples, and the track fits.
    pub open spec fn decodable(self, beats: Seq<usize>, up_raw: Seq<u8>, tick_raw: Seq<u8>) -> bool {
        self matches Backing::Metronome(_, sig) ==> {
            &&& up_raw.len() % 2 == 0
            &&& tick_raw.len() % 2 == 0
            &&& metronome_fits(beats, sig, raw_samples(up_raw), raw_samples(tick_raw))
        }
    }

    /// The backing track can come to `r`. A file that cannot be read is one channel of silence.
    pub open spec fn decodes_to(
        self,
        beats: Seq<usize>,
        up_raw: Seq<u8>,
        tick_raw: Seq<u8>,
        r: Result<(Seq<i16>, u16), DecodeFault>,
    ) -> bool {
        match self {
            Backing::File(f) => exists|t: Result<Option<(Seq<i16>, u16)>, DecodeFault>| #[trigger]
                is_track(f@, t) && r == match t {
                    Ok(Some(t)) => Ok(t),
                    Ok(None) => Ok((seq![], 1)),
                    Err(e) => Err(e),
                },
            Backing::Metronome(_, sig) => r == Ok::<(Seq<i16>, u16), DecodeFault>(
                (metronome(beats, sig, raw_samples(up_raw), raw_samples(tick_raw)), 1),
            ),
        }
    }

    /// Whether the track can be made.
    pub fn can_decode(&self, beats: &Vec<usize>, up_raw: &Vec<u8>, tick_raw: &Vec<u8>) -> (r: bool)
        ensures
            r == self.decodable(beats@, up_raw@, tick_raw@),
    {
        match self {
            Backing::File(_) => true,
            Backing::Metronome(_, sig) => {
                let even = up_raw.len() % 2 == 0 && tick_raw.len() % 2 == 0;
                even && beats_fit(beats, *sig, up_raw.len() / 2, tick_raw.len() / 2)
            },
        }
    }

    /// The samples of the backing track, and the number of its channels. A file that cannot be read
    /// is one channel of silence. For a metronome, `beats` says where the beats stand, and
    /// `up_raw` and `tick_raw` hold the sounds of the first beat of a bar and of the others.
    pub fn decode(&self, beats: &Vec<usize>, up_raw: &Vec<u8>, tick_raw: &Vec<u8>) -> (r: Result<
        (Vec<i16>, u16),
        DecodeFault,
    >)
        requires
            self.decodable(beats@, up_raw@, tick_raw@),
        ensures
            self.decodes_to(beats@, up_raw@, tick_raw@, track_view(r)),
            r matches Ok((_, channels)) ==> channels > 0,
    {
        match self {
            Backing::File(f) => {
                let t = self::decode(f.as_slice());
                assert(is_track(f@, option_view(t)));
                let r = match t {
                    Ok(Some(t)) => Ok(t),
                    Ok(None) => Ok((Vec::new(), 1)),
                    Err(e) => Err(e),
                };
                r
            },
            Backing::Metronome(_, sig) => {
                let up = read_raw(up_raw);
                let tick = read_raw(tick_raw);
                Ok((lay_metronome(beats, *sig, &up, &tick), 1))
            },
        }
    }
}

/// The message that tells of a metronome.
pub open spec fn metronome_wire(bpm: Seq<char>, sig: nat) -> Wire {
    Wire::Text("met:"@ + bpm + ":"@ + decimal(sig))
}

fn metronome_message(bpm: &str, sig: usize) -> (m: Message)
    ensures
        m@ == metronome_wire(bpm@, sig as nat),
{
    let mut text = "met:".to_string();
    text.append(bpm);
    text.append(":");
    push_number(&mut text, sig as u64);
    Message::Text(text)
}

/// The sound that is laid last stands where it was laid.
proof fn lemma_last_sound(before: Seq<i16>, n: nat, sound: Seq<i16>)
    ensures
        resized(before, n).len() == n,
        (resized(before, n) + sound).subrange(n as int, (n + sound.len()) as int) == sound,
{
    let now = resized(before, n) + sound;
    assert(now.subrange(n as int, (n + sound.len()) as int) =~= sound);
}

/// A sound stays where it is when another is laid behind it.
proof fn lemma_sound_stays(
    before: Seq<i16>,
    n: nat,
    more: Seq<i16>,
    start: int,
    sound: Seq<i16>,
)
    requires
        0 <= start,
        start + sound.len() <= before.len(),
        start + sound.len() <= n,
        before.subrange(start, start + sound.len()) == sound,
    ensures
        (resized(before, n) + more).len() >= start + sound.len(),
        (resized(before, n) + more).subrange(start, start + sound.len()) == sound,
{
    let now = resized(before, n) + more;
    assert(now.subrange(start, start + sound.len()) =~= before.subrange(
        start,
        start + sound.len(),
    ));
}

/// A beat is heard in full, and exactly where it stands, if no other comes before its sound is over.
pub proof fn lemma_beats_are_heard(
    beats: Seq<usize>,
    sig: usize,
    up: Seq<i16>,
    tick: Seq<i16>,
    i: int,
)
    requires
        0 <= i < beats.len(),
        forall|j: int|
            i < j < beats.len() ==> beats[i] + beat_sound(i, sig, up, tick).len() <= (
            #[trigger] beats[j]),
    ensures
        metronome(beats, sig, up, tick).len() >= beats[i] + beat_sound(i, sig, up, tick).len(),
        metronome(beats, sig, up, tick).subrange(
            beats[i] as int,
            beats[i] + beat_sound(i, sig, up, tick).len(),
        ) == beat_sound(i, sig, up, tick),
    decreases beats.len(),
{
    let fore = beats.drop_last();
    let before = metronome(fore, sig, up, tick);
    let sound = beat_sound(i, sig, up, tick);
    if i == beats.len() - 1 {
        lemma_last_sound(before, beats[i] as nat, sound);
    } else {
        lemma_beats_are_heard(fore, sig, up, tick, i);
        assert(beats[beats.len() - 1] == beats.last());
        lemma_sound_stays(
            before,
            beats.last() as nat,
            beat_sound(beats.len() - 1, sig, up, tick),
            beats[i] as int,
            sound,
        );
    }
}

/// A WAV file whose samples can all be read comes to as many samples as it holds, each at its place,
/// with the channels of the file. One with a sample that cannot be read is a fault.
pub proof fn lemma_wav_file_is_whole(channels: u16, samples: Seq<Option<i16>>, i: int)
    ensures
        (forall|j: int| 0 <= j < samples.len() ==> (#[trigger] samples[j]) is Some) ==> {
            &&& wav_track(channels, samples) is Ok
            &&& wav_track(channels, samples)->Ok_0.0.len() == samples.len()
            &&& 0 <= i < samples.len() ==> Some(wav_track(channels, samples)->Ok_0.0[i])
                == samples[i]
            &&& wav_track(channels, samples)->Ok_0.1 == channels
        },
        0 <= i < samples.len() && samples[i] is None ==> wav_track(channels, samples) == Err::<
            (Seq<i16>, u16),
            DecodeFault,
        >(DecodeFault::BadSample),
{
}

/// A backing track that is a WAV file is heard as the file holds it: every sample, at its place, and
/// the channels of the file.
pub proof fn lemma_wav_backing_is_whole(
    file: Vec<u8>,
    channels: u16,
    samples: Seq<Option<i16>>,
    beats: Seq<usize>,
    up_raw: Seq<u8>,
    tick_raw: Seq<u8>,
    r: Result<(Seq<i16>, u16), DecodeFault>,
    i: int,
)
    requires
        file@.len() > 0,
        wav_file(file@) == Some((channels, samples)),
        Backing::File(file).decodes_to(beats, up_raw, tick_raw, r),
    ensures
        (forall|j: int| 0 <= j < samples.len() ==> (#[trigger] samples[j]) is Some) ==> {
            &&& r is Ok
            &&& r->Ok_0.0.len() == samples.len()
            &&& 0 <= i < samples.len() ==> Some(r->Ok_0.0[i]) == samples[i]
            &&& r->Ok_0.1 == channels
        },
        0 <= i < samples.len() && samples[i] is None ==> r is Err,
{
    lemma_wav_file_is_whole(channels, samples, i);
}

/// How many samples the first `k` frames hold.
pub open spec fn samples_before(lengths: Seq<(nat, usize)>, k: int) -> nat
    decreases k,
{
    if k <= 0 {
        0
    } else {
        samples_before(lengths, k - 1) + lengths[k - 1].0
    }
}

/// Frames in a row hold as many samples as all of them together.
proof fn lemma_frame_samples_len(frames: Seq<(Seq<i16>, usize)>, k: int)
    requires
        0 <= k <= frames.len(),
    ensures
        frame_samples(frames.take(k)).len() == samples_before(shape_of(frames), k),
    decreases k,
{
    if k > 0 {
        lemma_frame_samples_len(frames, k - 1);
        assert(frames.take(k).drop_last() =~= frames.take(k - 1));
        assert(shape_of(frames)[k - 1].0 == frames[k - 1].0.len());
    }
}

/// Each frame stands behind all frames before it.
proof fn lemma_frame_stands(frames: Seq<(Seq<i16>, usize)>, k: int, n: int)
    requires
        0 <= k < n <= frames.len(),
    ensures
        samples_before(shape_of(frames), k + 1) <= frame_samples(frames.take(n)).len(),
        frame_samples(frames.take(n)).subrange(
            samples_before(shape_of(frames), k) as int,
            samples_before(shape_of(frames), k + 1) as int,
        ) == frames[k].0,
    decreases n,
{
    let shape = shape_of(frames);
    let start = samples_before(shape, k) as int;
    let end = samples_before(shape, k + 1) as int;
    let now = frame_samples(frames.take(n));
    let before = frame_samples(frames.take(n - 1));
    assert(frames.take(n).drop_last() =~= frames.take(n - 1));
    assert(now == before + frames[n - 1].0);
    assert(shape[k].0 == frames[k].0.len());
    lemma_frame_samples_len(frames, n - 1);
    if k == n - 1 {
        assert(now.subrange(start, end) =~= frames[k].0);
    } else {
        lemma_frame_stands(frames, k, n - 1);
        assert(now.subrange(start, end) =~= before.subrange(start, end));
    }
}

/// An MP3 file comes to all samples of its frames, in order and without a gap, with the channels that
/// all its frames have. Without a frame it is one channel of silence.
pub proof fn lemma_mp3_file_is_whole(frames: Seq<(Seq<i16>, usize)>, k: int)
    requires
        forall|i: int| 0 <= i < frames.len() ==> (#[trigger] frames[i]).1 == frames[0].1,
    ensures
        ({
            let r = mp3_track(frames, Mp3Error::Eof);
            let shape = shape_of(frames);
            &&& r is Ok
            &&& r->Ok_0.0.len() == samples_before(shape, frames.len() as int)
            &&& frames.len() == 0 ==> r->Ok_0.1 == 1
            &&& frames.len() > 0 && frames[0].1 <= 2 ==> r->Ok_0.1 == frames[0].1
            &&& 0 <= k < frames.len() ==> r->Ok_0.0.subrange(
                samples_before(shape, k) as int,
                samples_before(shape, k + 1) as int,
            ) == frames[k].0
        }),
{
    let n = frames.len() as int;
    assert(frames.take(n) =~= frames);
    lemma_frame_samples_len(frames, n);
    if 0 <= k < n {
        lemma_frame_stands(frames, k, n);
    }
}

/// An MP3 file is none whose frames have different channels, or whose decoder fails.
pub proof fn lemma_mp3_faults(frames: Seq<(Seq<i16>, usize)>, end: Mp3Error, i: int)
    ensures
        0 <= i < frames.len() && frames[i].1 != frames[0].1 ==> mp3_track(frames, end) == Err::<
            (Seq<i16>, u16),
            Mp3Fault,
        >(Mp3Fault::ChannelsDiffer),
        (forall|j: int| 0 <= j < frames.len() ==> (#[trigger] frames[j]).1 == frames[0].1) && end
            != Mp3Error::Eof ==> mp3_track(frames, end) == Err::<(Seq<i16>, u16), Mp3Fault>(
            Mp3Fault::Decoder(end),
        ),
{
}

/// A backing track that is no WAV file is heard as the MP3 decoder gives it: so many samples, and so
/// many channels, as all its frames have. Where the decoder fails, it is one channel of silence.
pub proof fn lemma_mp3_backing_is_whole(
    file: Vec<u8>,
    beats: Seq<usize>,
    up_raw: Seq<u8>,
    tick_raw: Seq<u8>,
    r: Result<(Seq<i16>, u16), DecodeFault>,
)
    requires
        file@.len() > 0,
        wav_file(file@) is None,
        Backing::File(file).decodes_to(beats, up_raw, tick_raw, r),
        forall|i: int|
            0 <= i < mp3_shape(file@).0.len() ==> (#[trigger] mp3_shape(file@).0[i]).1
                == mp3_shape(file@).0[0].1,
    ensures
        r is Ok,
        mp3_shape(file@).1 == Mp3Error::Eof ==> r->Ok_0.0.len() == samples_before(
            mp3_shape(file@).0,
            mp3_shape(file@).0.len() as int,
        ),
        mp3_shape(file@).1 == Mp3Error::Eof && mp3_shape(file@).0.len() > 0 && mp3_shape(
            file@,
        ).0[0].1 <= 2 ==> r->Ok_0.1 == mp3_shape(file@).0[0].1,
        mp3_shape(file@).1 != Mp3Error::Eof || mp3_shape(file@).0.len() == 0 ==> r->Ok_0.0.len()
            == 0 && r->Ok_0.1 == 1,
{
    let bytes = file@;
    let t = choose|t: Result<Option<(Seq<i16>, u16)>, DecodeFault>| #[trigger]
        is_track(bytes, t) && r == match t {
            Ok(Some(t)) => Ok(t),
            Ok(None) => Ok((seq![], 1)),
            Err(e) => Err(e),
        };
    let m = choose|m: Result<(Seq<i16>, u16), Mp3Fault>| #[trigger]
        is_mp3_track(bytes, m) && t == tried_as_mp3(m);
    let frames = choose|frames: Seq<(Seq<i16>, usize)>|
        shape_of(frames) == mp3_shape(bytes).0 && m == #[trigger] mp3_track(
            frames,
            mp3_shape(bytes).1,
        );
    let shape = shape_of(frames);
    assert(shape.len() == frames.len());
    assert forall|i: int| 0 <= i < frames.len() implies (#[trigger] frames[i]).1
        == frames[0].1 by {
        assert(shape[i].1 == frames[i].1);
        assert(shape[0].1 == frames[0].1);
    }
    lemma_mp3_file_is_whole(frames, 0);
    lemma_mp3_faults(frames, mp3_shape(bytes).1, 0);
    if frames.len() > 0 {
        assert(shape[0].1 == frames[0].1);
    }
}

/// A file without bytes is one channel of silence, and can always be had.
pub proof fn lemma_empty_backing_is_silence(
    file: Vec<u8>,
    beats: Seq<usize>,
    up_raw: Seq<u8>,
    tick_raw: Seq<u8>,
    r: Result<(Seq<i16>, u16), DecodeFault>,
)
    requires
        file@.len() == 0,
        Backing::File(file).decodes_to(beats, up_raw, tick_raw, r),
    ensures
        r is Ok,
        r->Ok_0.0.len() == 0,
        r->Ok_0.1 == 1,
{
}

/// Raw samples take two bytes each, the lower byte first, and may be negative.
pub proof fn lemma_raw_samples(bytes: Seq<u8>, i: int)
    requires
        bytes.len() % 2 == 0,
        0 <= i < raw_samples(bytes).len(),
    ensures
        2 * raw_samples(bytes).len() == bytes.len(),
        raw_samples(bytes)[i] as int % 256 == bytes[2 * i],
        raw_samples(bytes)[i] as int % 65536 / 256 == bytes[2 * i + 1],
{
}

/// The first beat of each bar has its own sound, and the others have the other.
pub proof fn lemma_bars(bar: int, beat: int, sig: usize, up: Seq<i16>, tick: Seq<i16>)
    requires
        0 <= bar,
        0 < beat < sig,
    ensures
        beat_sound(bar * sig, sig, up, tick) == up,
        beat_sound(bar * sig + beat, sig, up, tick) == tick,
{
    vstd::arithmetic::div_mod::lemma_mod_multiples_basic(bar, sig as int);
    vstd::arithmetic::div_mod::lemma_fundamental_div_mod_converse(
        bar * sig + beat,
        sig as int,
        bar,
        beat,
    );
}

/// With one beat in a bar, every beat is the first.
pub proof fn lemma_bars_of_one(i: int, up: Seq<i16>, tick: Seq<i16>)
    ensures
        beat_sound(i, 1, up, tick) == up,
{
}

/// What is heard of a metronome at a place is what the last beat up to there sounds like so long
/// after it stands, and silence when its sound is over. The track ends with the sound of the last
/// beat.
pub proof fn lemma_metronome_by_place(
    beats: Seq<usize>,
    sig: usize,
    up: Seq<i16>,
    tick: Seq<i16>,
    k: int,
    at: int,
)
    requires
        forall|i: int, j: int| 0 <= i <= j < beats.len() ==> beats[i] <= beats[j],
        0 <= k < beats.len(),
        beats[k] <= at,
        k + 1 < beats.len() ==> at < beats[k + 1],
        at < metronome(beats, sig, up, tick).len(),
    ensures
        metronome(beats, sig, up, tick).len() == beats.last() + beat_sound(
            beats.len() - 1,
            sig,
            up,
            tick,
        ).len(),
        metronome(beats, sig, up, tick)[at] == {
            let sound = beat_sound(k, sig, up, tick);
            if at - beats[k] < sound.len() {
                sound[at - beats[k]]
            } else {
                0
            }
        },
    decreases beats.len(),
{
    let fore = beats.drop_last();
    let before = metronome(fore, sig, up, tick);
    let n = beats.last() as nat;
    assert(resized(before, n).len() == n);
    if k < beats.len() - 1 {
        assert(fore[k] == beats[k]);
        if at < before.len() {
            assert forall|i: int, j: int| 0 <= i <= j < fore.len() implies fore[i] <= fore[j] by {
                assert(beats[i] <= beats[j]);
            }
            if k + 1 < fore.len() {
                assert(fore[k + 1] == beats[k + 1]);
            }
            lemma_metronome_by_place(fore, sig, up, tick, k, at);
        } else {
            lemma_metronome_len(fore, sig, up, tick);
            assert(beats[k + 1] <= beats[beats.len() - 1]);
            if k + 1 < fore.len() {
                assert(beats[k + 1] <= beats[beats.len() - 2]);
                assert(fore.last() == beats[beats.len() - 2]);
            } else {
                assert(fore.last() == beats[k]);
            }
        }
        assert(at < n) by {
            assert(beats[k + 1] <= beats[beats.len() - 1]);
        }
    }
}

/// A metronome track ends with the sound of its last beat.
proof fn lemma_metronome_len(beats: Seq<usize>, sig: usize, up: Seq<i16>, tick: Seq<i16>)
    requires
        beats.len() > 0,
    ensures
        metronome(beats, sig, up, tick).len() == beats.last() + beat_sound(
            beats.len() - 1,
            sig,
            up,
            tick,
        ).len(),
{
    let before = metronome(beats.drop_last(), sig, up, tick);
    assert(resized(before, beats.last() as nat).len() == beats.last());
}

/// A metronome whose beats and sounds are not too many can be laid out, and is heard as its beats
/// lie, in one channel. A file can always be tried.
pub proof fn lemma_what_can_be_made(
    backing: Backing,
    beats: Seq<usize>,
    up_raw: Seq<u8>,
    tick_raw: Seq<u8>,
)
    ensures
        backing is File ==> backing.decodable(beats, up_raw, tick_raw),
        backing matches Backing::Metronome(_, sig) ==> {
            sig > 0 && up_raw.len() % 2 == 0 && tick_raw.len() % 2 == 0 && up_raw.len()
                <= 100_000_000 && tick_raw.len() <= 100_000_000 && (forall|i: int|
                0 <= i < beats.len() ==> #[trigger] beats[i] <= 900_000_000)
                ==> backing.decodable(beats, up_raw, tick_raw)
        },
{
}

/// A file whose MP3 frames have different channels is a fault.
pub proof fn lemma_mp3_backing_with_other_channels(
    file: Vec<u8>,
    beats: Seq<usize>,
    up_raw: Seq<u8>,
    tick_raw: Seq<u8>,
    r: Result<(Seq<i16>, u16), DecodeFault>,
    i: int,
)
    requires
        file@.len() > 0,
        wav_file(file@) is None,
        Backing::File(file).decodes_to(beats, up_raw, tick_raw, r),
        0 <= i < mp3_shape(file@).0.len(),
        mp3_shape(file@).0[i].1 != mp3_shape(file@).0[0].1,
    ensures
        r == Err::<(Seq<i16>, u16), DecodeFault>(DecodeFault::ChannelsDiffer),
{
    let bytes = file@;
    let t = choose|t: Result<Option<(Seq<i16>, u16)>, DecodeFault>| #[trigger]
        is_track(bytes, t) && r == match t {
            Ok(Some(t)) => Ok(t),
            Ok(None) => Ok((seq![], 1)),
            Err(e) => Err(e),
        };
    let m = choose|m: Result<(Seq<i16>, u16), Mp3Fault>| #[trigger]
        is_mp3_track(bytes, m) && t == tried_as_mp3(m);
    let frames = choose|frames: Seq<(Seq<i16>, usize)>|
        shape_of(frames) == mp3_shape(bytes).0 && m == #[trigger] mp3_track(
            frames,
            mp3_shape(bytes).1,
        );
    let shape = shape_of(frames);
    assert(shape[i].1 == frames[i].1);
    assert(shape[0].1 == frames[0].1);
    lemma_mp3_faults(frames, mp3_shape(bytes).1, i);
}

/// A metronome is one channel, in which its beats sound as their raw samples do.
pub proof fn lemma_metronome_backing(
    tempo: String,
    sig: usize,
    beats: Seq<usize>,
    up_raw: Seq<u8>,
    tick_raw: Seq<u8>,
    r: Result<(Seq<i16>, u16), DecodeFault>,
    i: int,
)
    requires
        Backing::Metronome(tempo, sig).decodes_to(beats, up_raw, tick_raw, r),
        0 <= i < beats.len(),
        forall|j: int|
            i < j < beats.len() ==> beats[i] + beat_sound(
                i,
                sig,
                raw_samples(up_raw),
                raw_samples(tick_raw),
            ).len() <= (#[trigger] beats[j]),
    ensures
        r is Ok,
        r->Ok_0.1 == 1,
        ({
            let sound = beat_sound(i, sig, raw_samples(up_raw), raw_samples(tick_raw));
            &&& r->Ok_0.0.len() >= beats[i] + sound.len()
            &&& r->Ok_0.0.subrange(beats[i] as int, beats[i] + sound.len()) == sound
        }),
{
    lemma_beats_are_heard(beats, sig, raw_samples(up_raw), raw_samples(tick_raw), i);
}

} // verus!
