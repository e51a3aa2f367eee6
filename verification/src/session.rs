//! One user's connection: what is done with each message that comes in.

use crate::audio::AudioMessage;
use crate::backing::Backing;
use crate::command::{
    can_read, lemma_metronome_reads_back, lemma_what_numbers_mean, lemma_what_parts_mean,
    lemma_what_tags_mean, meaning, read_command, readable, Command, Meaning,
};
use crate::message::{Message, Wire};
use crate::room::{lemma_who_is_meant, Room, User};
use crate::text::{decimal, lemma_decimal_has_no_colon, lemma_number_of_decimal};
use vstd::prelude::*;

verus! {

/// What is known of a connection.
pub struct Session {
    /// The number of the user.
    pub id: usize,
    /// The next file that comes is a backing track.
    pub sending_backing: bool,
    /// The time at which the next packet of audio begins, in samples, where the user has said it.
    pub packet_time: Option<usize>,
    /// The samples of audio that have come.
    pub current_time: usize,
    /// The audio is packed.
    pub using_opus: bool,
}

/// What is to be done upon a message.
pub enum Reaction {
    Nothing,
    /// Close the connection.
    Leave,
    /// Send this to the user; where that fails, the user leaves the room.
    Reply(Message),
    /// Tell everybody about the room, and about the backing track if it is new.
    Announce(bool),
    /// Tell everybody about the room, and then pass this on to the thread that plays the audio.
    AnnounceAndTell(AudioMessage),
    /// Pass this on to the thread that plays the audio.
    Tell(AudioMessage),
    /// Take the metronome, if the tempo is a number.
    TakeMetronome(String, usize),
    /// Start a recording, unless there is one.
    Start,
    /// Stop the recording, at once or not, and tell everybody.
    Stop(bool),
    /// No more times are written down.
    EndTimes,
    /// Take this audio.
    TakeAudio(Vec<u8>),
}

impl Session {
    pub fn new(id: usize) -> (s: Session)
        ensures
            s == (Session {
                id,
                sending_backing: false,
                packet_time: None,
                current_time: 0,
                using_opus: false,
            }),
    {
        Session {
            id,
            sending_backing: false,
            packet_time: None,
            current_time: 0,
            using_opus: false,
        }
    }

    /// The user is known to the room, and what an emergency adds up to fits.
    pub open spec fn can_obey(self, room: Room, command: Command) -> bool {
        &&& room.wf()
        &&& self.id < room.people@.len()
        &&& command matches Command::Emergency(name, n) ==> room.place_of(name@, self.id) + n
            <= usize::MAX
    }

    /// The room after a command.
    pub open spec fn room_obeyed(self, before: Room, command: Command, after: Room) -> bool {
        let id = self.id as int;
        match command {
            Command::Rename(name) => {
                &&& after == (Room { people: after.people, ..before })
                &&& after.people@ == before.people@.update(
                    id,
                    User { username: name, ..before.people@[id] },
                )
            },
            Command::Offset(n) => {
                &&& after == (Room { people: after.people, ..before })
                &&& after.people@ == before.people@.update(
                    id,
                    User { offset: n, ..before.people@[id] },
                )
            },
            Command::Bpm(n) => after == (Room { bpm: n, ..before }),
            Command::Counts(n) => after == (Room { counts: n, ..before }),
            Command::Buffer(n) => after == (Room { min_buf_len: n, ..before }),
            Command::AudienceHears(h) => after == (Room { audience_hears: h, ..before }),
            _ => after == before,
        }
    }

    /// The connection after a command.
    pub open spec fn obeyed(self, command: Command) -> Session {
        match command {
            Command::End => Session { packet_time: None, current_time: 0, ..self },
            Command::Backing => Session { sending_backing: true, ..self },
            Command::Time(n) => Session { packet_time: Some(n), ..self },
            Command::Packed(p) => Session { using_opus: p, ..self },
            _ => self,
        }
    }

    /// What is to be done upon a command.
    pub open spec fn answer(self, room: Room, command: Command, recording: bool) -> Reaction {
        match command {
            Command::Rename(_) => Reaction::Announce(false),
            Command::Bpm(_) => Reaction::Announce(false),
            Command::Counts(_) => Reaction::Announce(false),
            Command::Buffer(n) => Reaction::AnnounceAndTell(AudioMessage::MinBuf(n)),
            Command::Metronome(bpm, sig) => Reaction::TakeMetronome(bpm, sig),
            Command::Offset(_) => Reaction::Nothing,
            Command::Start => Reaction::Start,
            Command::StopSync => Reaction::Tell(AudioMessage::StopSync),
            Command::Stop(instant) => if recording {
                Reaction::Stop(instant)
            } else {
                Reaction::Nothing
            },
            Command::End => Reaction::EndTimes,
            Command::Backing => Reaction::Nothing,
            Command::Emergency(name, n) => Reaction::Tell(
                AudioMessage::Override((room.place_of(name@, self.id) + n) as usize),
            ),
            Command::Time(_) => Reaction::Nothing,
            Command::Packed(_) => Reaction::Nothing,
            Command::AudienceHears(_) => Reaction::Announce(false),
            Command::Unknown => Reaction::Nothing,
        }
    }

    /// Does what a user asks for.
    pub fn obey(&mut self, room: &mut Room, command: Command, recording: bool) -> (r: Reaction)
        requires
            old(self).can_obey(*old(room), command),
        ensures
            *final(self) == old(self).obeyed(command),
            old(self).room_obeyed(*old(room), command, *final(room)),
            r == old(self).answer(*old(room), command, recording),
            final(room).wf(),
    {
        let id: usize = self.id;
        match command {
            Command::Rename(name) => {
                room.people[id].username = name;
                Reaction::Announce(false)
            },
            Command::Bpm(n) => {
                room.bpm = n;
                Reaction::Announce(false)
            },
            Command::Counts(n) => {
                room.counts = n;
                Reaction::Announce(false)
            },
            Command::Buffer(n) => {
                room.min_buf_len = n;
                Reaction::AnnounceAndTell(AudioMessage::MinBuf(n))
            },
            Command::Metronome(bpm, sig) => Reaction::TakeMetronome(bpm, sig),
            Command::Offset(n) => {
                room.people[id].offset = n;
                Reaction::Nothing
            },
            Command::Start => Reaction::Start,
            Command::StopSync => Reaction::Tell(AudioMessage::StopSync),
            Command::Stop(instant) => {
                if recording {
                    Reaction::Stop(instant)
                } else {
                    Reaction::Nothing
                }
            },
            Command::End => {
                self.packet_time = None;
                self.current_time = 0;
                Reaction::EndTimes
            },
            Command::Backing => {
                self.sending_backing = true;
                Reaction::Nothing
            },
            Command::Emergency(name, n) => {
                let place: usize = room.find_place(&name, id);
                Reaction::Tell(AudioMessage::Override(place + n))
            },
            Command::Time(n) => {
                self.packet_time = Some(n);
                Reaction::Nothing
            },
            Command::Packed(p) => {
                self.using_opus = p;
                Reaction::Nothing
            },
            Command::AudienceHears(h) => {
                room.audience_hears = h;
                Reaction::Announce(false)
            },
            Command::Unknown => Reaction::Nothing,
        }
    }

    /// The message can be taken: the user is known to the room, and a text can be read and obeyed.
    pub open spec fn accepts(self, room: Room, message: Message) -> bool {
        &&& room.wf()
        &&& self.id < room.people@.len()
        &&& message matches Message::Text(t) ==> {
            &&& readable(t@)
            &&& meaning(t@) matches Meaning::Emergency(name, n) ==> room.place_of(name, self.id) + n
                <= usize::MAX
        }
    }

    /// Whether a text can be read and obeyed.
    pub fn can_receive(&self, room: &Room, message: &Message) -> (r: bool)
        requires
            room.wf(),
            self.id < room.people@.len(),
        ensures
            r == self.accepts(*room, *message),
    {
        match message {
            Message::Text(t) => {
                if !can_read(t.as_str()) {
                    return false;
                }
                match read_command(t.as_str()) {
                    Command::Emergency(name, n) => {
                        let place: usize = room.find_place(&name, self.id);
                        place <= usize::MAX - n
                    },
                    _ => true,
                }
            },
            _ => true,
        }
    }

    /// Does what a message asks for. A ping is answered. A text is a command. What else comes is
    /// audio during a recording, and otherwise the backing track, if one has been announced.
    pub fn receive(&mut self, room: &mut Room, message: Message, recording: bool) -> (r: Reaction)
        requires
            old(self).accepts(*old(room), message),
        ensures
            match message {
                Message::Text(t) => exists|command: Command| #[trigger]
                    command@ == meaning(t@) && *final(self) == old(self).obeyed(command) && old(
                        self,
                    ).room_obeyed(*old(room), command, *final(room)) && r == old(self).answer(
                        *old(room),
                        command,
                        recording,
                    ),
                Message::Binary(b) => if recording {
                    &&& *final(self) == *old(self)
                    &&& *final(room) == *old(room)
                    &&& r == Reaction::TakeAudio(b)
                } else if old(self).sending_backing {
                    &&& *final(self) == (Session { sending_backing: false, ..*old(self) })
                    &&& *final(room) == (Room { backing: Backing::File(b), ..*old(room) })
                    &&& r == Reaction::Announce(true)
                } else {
                    &&& *final(self) == *old(self)
                    &&& *final(room) == *old(room)
                    &&& r == Reaction::Nothing
                },
                Message::Close => {
                    &&& *final(self) == *old(self)
                    &&& *final(room) == *old(room)
                    &&& r == Reaction::Leave
                },
                Message::Ping(p) => {
                    &&& *final(self) == *old(self)
                    &&& *final(room) == *old(room)
                    &&& r == Reaction::Reply(Message::Pong(p))
                },
                Message::Pong(_) => {
                    &&& *final(self) == *old(self)
                    &&& *final(room) == *old(room)
                    &&& r == Reaction::Nothing
                },
            },
            final(room).wf(),
    {
        match message {
            Message::Text(t) => {
                let command = read_command(t.as_str());
                assert(command@ == meaning(t@));
                self.obey(room, command, recording)
            },
            Message::Binary(b) => {
                if recording {
                    Reaction::TakeAudio(b)
                } else if self.sending_backing {
                    self.sending_backing = false;
                    room.backing = Backing::File(b);
                    Reaction::Announce(true)
                } else {
                    Reaction::Nothing
                }
            },
            Message::Close => Reaction::Leave,
            Message::Ping(p) => Reaction::Reply(Message::Pong(p)),
            Message::Pong(_) => Reaction::Nothing,
        }
    }
}

/// A command neither lets anybody in nor sends anybody away, and changes nobody's key and nobody's
/// place in the recording.
pub proof fn lemma_commands_keep_everybody(
    session: Session,
    before: Room,
    command: Command,
    after: Room,
)
    requires
        session.can_obey(before, command),
        session.room_obeyed(before, command, after),
    ensures
        after.present() == before.present(),
        after.people@.len() == before.people@.len(),
        forall|i: int|
            0 <= i < before.people@.len() ==> (#[trigger] after.people@[i]).key
                == before.people@[i].key && after.people@[i].consumer_idx
                == before.people@[i].consumer_idx,
{
}

/// What a user sets by a number is what everybody is told from then on, or what the user's audio is
/// late by, and nothing else in the room changes.
pub proof fn lemma_numbers_take_effect(
    session: Session,
    before: Room,
    command: Command,
    after: Room,
    n: nat,
)
    requires
        before.wf(),
        session.id < before.people@.len(),
        session.room_obeyed(before, command, after),
    ensures
        n <= 4294967295 && command@ == meaning("bpm:"@ + decimal(n)) ==> {
            &&& after.info(false)[1] == Wire::Text("bpm:"@ + decimal(n))
            &&& after == (Room { bpm: n as u32, ..before })
        },
        n <= 4294967295 && command@ == meaning("cnt:"@ + decimal(n)) ==> {
            &&& after.info(false)[2] == Wire::Text("cnt:"@ + decimal(n))
            &&& after == (Room { counts: n as u32, ..before })
        },
        n <= usize::MAX && command@ == meaning("buf:"@ + decimal(n)) ==> {
            &&& after.info(false)[3] == Wire::Text("buf:"@ + decimal(n))
            &&& after == (Room { min_buf_len: n as usize, ..before })
        },
        n <= usize::MAX && command@ == meaning("off:"@ + decimal(n)) ==> {
            &&& after.people@[session.id as int].offset == n
            &&& after.people@[session.id as int].consumer_idx
                == before.people@[session.id as int].consumer_idx
            &&& forall|p: int|
                0 <= p < before.people@.len() && p != session.id ==> #[trigger] after.people@[p]
                    == before.people@[p]
            &&& after.info(true) == before.info(true)
        },
{
    lemma_number_of_decimal(n);
    lemma_what_numbers_mean(decimal(n));
    if n <= usize::MAX && command@ == meaning("off:"@ + decimal(n)) {
        assert(command is Offset);
        assert forall|i: int| 0 <= i < before.present().len() implies #[trigger] after.names()[i]
            == before.names()[i] by {
            assert(before.present()[i].1 < before.people@.len());
        }
        assert(after.names() =~= before.names());
    }
}

/// A user is listed under the name that was given last, as it was given, and nobody else's name
/// changes.
pub proof fn lemma_names_take_effect(
    session: Session,
    before: Room,
    command: Command,
    after: Room,
    name: Seq<char>,
    i: int,
)
    requires
        before.wf(),
        session.id < before.people@.len(),
        session.room_obeyed(before, command, after),
        command@ == meaning("usr:"@ + name),
        0 <= i < before.present().len(),
    ensures
        after.names()[i] == if before.present()[i].1 == session.id {
            name
        } else {
            before.names()[i]
        },
        after.people@[session.id as int].username@ == name,
        after.present() == before.present(),
        after.bpm == before.bpm && after.counts == before.counts && after.min_buf_len
            == before.min_buf_len && after.backing == before.backing && after.audience_hears
            == before.audience_hears,
{
    lemma_what_tags_mean(name);
    assert(command is Rename);
    assert(before.present()[i].1 < before.people@.len());
}

/// Whether the audience hears the backing track is what was said last, and is told so.
pub proof fn lemma_hearing_takes_effect(
    session: Session,
    before: Room,
    command: Command,
    after: Room,
    rest: Seq<char>,
)
    requires
        session.room_obeyed(before, command, after),
    ensures
        command@ == meaning("abk:"@ + rest) ==> after == (Room { audience_hears: true, ..before })
            && after.info(false)[4] == Wire::Text("abk:"@ + "true"@),
        command@ == meaning("nbk:"@ + rest) ==> after == (Room { audience_hears: false, ..before })
            && after.info(false)[4] == Wire::Text("abk:"@ + "false"@),
{
    lemma_what_tags_mean(rest);
}

/// What a user says of the audio to come is kept: the time of the next packet, whether it is packed,
/// and that a backing track follows. The end of the times forgets the time and starts counting anew.
pub proof fn lemma_what_is_kept_of_the_audio(
    session: Session,
    command: Command,
    rest: Seq<char>,
    n: nat,
)
    ensures
        n <= usize::MAX && command@ == meaning("tim:"@ + decimal(n)) ==> session.obeyed(command)
            == (Session { packet_time: Some(n as usize), ..session }),
        command@ == meaning("end:"@ + rest) ==> session.obeyed(command) == (Session {
            packet_time: None,
            current_time: 0,
            ..session
        }),
        command@ == meaning("ops:"@ + rest) ==> session.obeyed(command) == (Session {
            using_opus: true,
            ..session
        }),
        command@ == meaning("nps:"@ + rest) ==> session.obeyed(command) == (Session {
            using_opus: false,
            ..session
        }),
        command@ == meaning("bck:"@ + rest) ==> session.obeyed(command) == (Session {
            sending_backing: true,
            ..session
        }),
{
    lemma_number_of_decimal(n);
    lemma_what_numbers_mean(decimal(n));
    lemma_what_tags_mean(rest);
}

/// What is done upon a text: what concerns everybody is announced, a new buffer length is passed on
/// too, a recording is started, and stopped while there is one, at once where that is asked.
pub proof fn lemma_what_is_done_upon_a_text(
    session: Session,
    room: Room,
    command: Command,
    recording: bool,
    rest: Seq<char>,
    n: nat,
)
    ensures
        command@ == meaning("usr:"@ + rest) ==> session.answer(room, command, recording)
            == Reaction::Announce(false),
        command@ == meaning("abk:"@ + rest) || command@ == meaning("nbk:"@ + rest)
            ==> session.answer(room, command, recording) == Reaction::Announce(false),
        n <= 4294967295 && (command@ == meaning("bpm:"@ + decimal(n)) || command@ == meaning(
            "cnt:"@ + decimal(n),
        )) ==> session.answer(room, command, recording) == Reaction::Announce(false),
        n <= usize::MAX && command@ == meaning("buf:"@ + decimal(n)) ==> session.answer(
            room,
            command,
            recording,
        ) == Reaction::AnnounceAndTell(AudioMessage::MinBuf(n as usize)),
        command@ == meaning("srt:"@ + rest) ==> session.answer(room, command, recording)
            == Reaction::Start,
        command@ == meaning("sts:"@ + rest) ==> session.answer(room, command, recording)
            == Reaction::Tell(AudioMessage::StopSync),
        command@ == meaning("stp:"@ + rest) ==> session.answer(room, command, recording)
            == if recording {
            Reaction::Stop(rest.len() > 0 && rest[0] == 't')
        } else {
            Reaction::Nothing
        },
        command@ == meaning("end:"@ + rest) ==> session.answer(room, command, recording)
            == Reaction::EndTimes,
{
    lemma_number_of_decimal(n);
    lemma_what_numbers_mean(decimal(n));
    lemma_what_tags_mean(rest);
}

/// A metronome is proposed with the tempo as it was written, and its beats.
pub proof fn lemma_metronome_is_proposed(
    session: Session,
    room: Room,
    command: Command,
    recording: bool,
    tempo: Seq<char>,
    sig: nat,
)
    requires
        forall|i: int| 0 <= i < tempo.len() ==> tempo[i] != ':',
        sig <= usize::MAX,
        command@ == meaning("met:"@ + tempo + ":"@ + decimal(sig)),
    ensures
        session.answer(room, command, recording) matches Reaction::TakeMetronome(t, s) && t@
            == tempo && s == sig,
{
    lemma_metronome_reads_back(tempo, sig);
}

/// An emergency plays the first user of that name, with the number added, or whoever asks where
/// nobody has the name.
pub proof fn lemma_emergency_is_passed_on(
    session: Session,
    room: Room,
    command: Command,
    recording: bool,
    name: Seq<char>,
    n: nat,
    k: int,
)
    requires
        forall|i: int| 0 <= i < name.len() ==> name[i] != ':',
        n <= usize::MAX,
        command@ == meaning("emg:"@ + (name.push(':') + decimal(n))),
        session.can_obey(room, command),
        0 <= k <= room.present().len(),
        forall|j: int| 0 <= j < k ==> room.names()[j] != name,
        k < room.present().len() ==> room.names()[k] == name,
    ensures
        session.answer(room, command, recording) matches Reaction::Tell(AudioMessage::Override(code))
            && code == n + if k < room.present().len() {
            room.people@[room.present()[k].1 as int].consumer_idx
        } else {
            room.people@[session.id as int].consumer_idx
        },
{
    lemma_number_of_decimal(n);
    lemma_decimal_has_no_colon(n);
    lemma_what_parts_mean(name, decimal(n), seq![], n);
    lemma_who_is_meant(room, name, session.id, k);
}

/// Every message of a user who is known can be taken, but for a text that cannot be read, and an
/// emergency whose number leads beyond the limit of its type.
pub proof fn lemma_what_can_be_received(session: Session, room: Room, message: Message)
    requires
        room.wf(),
        session.id < room.people@.len(),
    ensures
        !(message is Text) ==> session.accepts(room, message),
        message matches Message::Text(t) ==> {
            readable(t@) && !(meaning(t@) is Emergency) ==> session.accepts(room, message)
        },
        message matches Message::Text(t) ==> {
            readable(t@) && (meaning(t@) matches Meaning::Emergency(name, n) && room.place_of(
                name,
                session.id,
            ) + n <= usize::MAX) ==> session.accepts(room, message)
        },
{
}

/// What the users are told of the backing track means the same when a user sends it: a file follows,
/// or that metronome is proposed.
pub proof fn lemma_news_read_back(backing: Backing)
    ensures
        backing matches Backing::File(f) ==> {
            &&& backing.news().len() == 2
            &&& backing.news()[0] matches Wire::Text(t)
            &&& meaning(t) == Meaning::Backing
            &&& backing.news()[1] == Wire::Binary(f@)
        },
        backing matches Backing::Metronome(bpm, sig) ==> {
            (forall|i: int| 0 <= i < bpm@.len() ==> bpm@[i] != ':') ==> {
                &&& backing.news().len() == 1
                &&& backing.news()[0] matches Wire::Text(t)
                &&& meaning(t) == Meaning::Metronome(bpm@, sig as nat)
                &&& backing.welcome() == backing.news()[0]
            }
        },
{
    lemma_what_tags_mean(Seq::<char>::empty());
    assert("bck:"@ + Seq::<char>::empty() =~= "bck:"@);
    if let Backing::Metronome(bpm, sig) = backing {
        if forall|i: int| 0 <= i < bpm@.len() ==> bpm@[i] != ':' {
            lemma_metronome_reads_back(bpm@, sig as nat);
        }
    }
}

/// A text that means nothing changes nothing, and nothing is done upon it.
pub proof fn lemma_nothing_comes_of_nothing(
    session: Session,
    before: Room,
    command: Command,
    after: Room,
    recording: bool,
)
    requires
        command@ == Meaning::Unknown,
        session.room_obeyed(before, command, after),
    ensures
        after == before,
        session.obeyed(command) == session,
        session.answer(before, command, recording) == Reaction::Nothing,
{
}

/// What a user says of their own audio changes nothing in the room, and nobody is told; what a user
/// changes in the room changes nothing in the connection.
pub proof fn lemma_room_and_connection_are_apart(
    session: Session,
    before: Room,
    command: Command,
    after: Room,
    recording: bool,
    rest: Seq<char>,
    n: nat,
)
    requires
        session.room_obeyed(before, command, after),
        n <= 4294967295,
    ensures
        command@ == meaning("tim:"@ + decimal(n)) || command@ == meaning("ops:"@ + rest)
            || command@ == meaning("nps:"@ + rest) || command@ == meaning("bck:"@ + rest) ==> after
            == before && session.answer(before, command, recording) == Reaction::Nothing,
        command@ == meaning("end:"@ + rest) || command@ == meaning("srt:"@ + rest) || command@
            == meaning("sts:"@ + rest) || command@ == meaning("stp:"@ + rest) ==> after == before,
        command@ == meaning("usr:"@ + rest) || command@ == meaning("abk:"@ + rest) || command@
            == meaning("nbk:"@ + rest) || command@ == meaning("srt:"@ + rest) || command@
            == meaning("sts:"@ + rest) || command@ == meaning("stp:"@ + rest) || command@
            == meaning("bpm:"@ + decimal(n)) || command@ == meaning("cnt:"@ + decimal(n))
            || command@ == meaning("buf:"@ + decimal(n)) || command@ == meaning(
            "off:"@ + decimal(n),
        ) ==> session.obeyed(command) == session,
        command@ == meaning("off:"@ + decimal(n)) ==> session.answer(before, command, recording)
            == Reaction::Nothing,
{
    lemma_number_of_decimal(n);
    lemma_what_numbers_mean(decimal(n));
    lemma_what_tags_mean(rest);
}

/// Neither a metronome that is proposed nor an emergency changes anything by itself.
pub proof fn lemma_proposals_change_nothing(
    session: Session,
    before: Room,
    command: Command,
    after: Room,
)
    requires
        command@ is Metronome || command@ is Emergency,
        session.room_obeyed(before, command, after),
    ensures
        after == before,
        session.obeyed(command) == session,
{
}

} // verus!
