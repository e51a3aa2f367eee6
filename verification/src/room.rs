//! The room: who is in it, and what is agreed on.

use crate::audio::{AudioMessage, DEFAULT_MIN_BUF_LEN};
use crate::backing::{track_view, Backing, DecodeFault, MINUTE};
use crate::broadcast::{beginning, lost, Broadcast};
use crate::message::{number_message, wires, Message, Wire};
use crate::slots::{
    entries, free_after, free_slots, freed, has_key, in_slot_order, is_key, laid_out,
    lemma_freed_keeps_layout, lemma_freed_one, lemma_insert_keeps_layout, lemma_insert_place,
    lemma_no_free_slot_comes_last, lemma_place_for, lemma_place_in_range,
    lemma_remove_undoes_insert, lemma_without, lemma_without_one, lemma_without_push, next_slot, place_for, slot, slots_insert, slots_list, slots_new,
    slots_remove, slots_retain, without, Slots,
};
use crate::source::{lemma_place, MultisyncSource};
use crate::stream::Stream;
use crate::text::{decimal, flag, join, joined, views};
use vstd::prelude::*;
use vstd::string::StringExecFns;

verus! {

/// The name of a user who has not given one yet.
pub open spec fn unnamed() -> Seq<char> {
    "(user is connecting)"@
}

/// A user.
pub struct User {
    pub username: String,
    /// The key under which the user is in the room.
    pub key: u64,
    /// By how many samples the user's audio is late.
    pub offset: usize,
    /// The place of the user in the last recording.
    pub consumer_idx: usize,
}

/// Why a recording cannot start.
#[derive(PartialEq, Eq, Structural, Clone, Copy, Debug)]
pub enum StartFault {
    /// The backing track cannot be read.
    Backing(DecodeFault),
    /// The count-in is longer than places in the backing track can tell.
    TooFar,
}

/// The room.
pub struct Room {
    /// Who is in the room: under each key the number of a user.
    pub users: Slots,
    /// All users who have ever come, by number.
    pub people: Vec<User>,
    pub bpm: u32,
    pub counts: u32,
    pub min_buf_len: usize,
    pub backing: Backing,
    pub audience_hears: bool,
}

impl Room {
    /// Key and number of each user in the room, in order.
    pub open spec fn present(self) -> Seq<(u64, usize)> {
        entries(self.users)
    }

    /// The places in the room that users have given up, the one that was given up last at the end.
    pub open spec fn free(self) -> Seq<int> {
        free_slots(self.users)
    }

    /// The number of each user in the room, in order.
    pub open spec fn numbers(self) -> Seq<usize> {
        self.present().map_values(|e: (u64, usize)| e.1)
    }

    /// Every user in the room is known under the key of the room, and each key is one.
    pub open spec fn wf(self) -> bool {
        &&& in_slot_order(self.present())
        &&& laid_out(self.present(), self.free())
        &&& forall|i: int| #![trigger self.present()[i]]
            0 <= i < self.present().len() ==> self.present()[i].1 < self.people@.len()
                && self.people@[self.present()[i].1 as int].key == self.present()[i].0
        &&& forall|i: int| 0 <= i < self.people@.len() ==> is_key((#[trigger] self.people@[i]).key)
    }

    /// The names of the users in the room, in order.
    pub open spec fn names(self) -> Seq<Seq<char>> {
        self.present().map_values(|e: (u64, usize)| self.people@[e.1 as int].username@)
    }

    /// What everybody is told about the room: who is in it, the tempo, the count-in, the buffer,
    /// and whether the audience hears the backing track; and the backing track, if it is new.
    pub open spec fn info(self, backing: bool) -> Seq<Wire> {
        seq![
            Wire::Text("onl:"@ + joined(self.names(), ", "@)),
            Wire::Text("bpm:"@ + decimal(self.bpm as nat)),
            Wire::Text("cnt:"@ + decimal(self.counts as nat)),
            Wire::Text("buf:"@ + decimal(self.min_buf_len as nat)),
            Wire::Text("abk:"@ + flag(self.audience_hears)),
        ] + if backing {
            self.backing.news()
        } else {
            seq![]
        }
    }

    /// An empty room.
    pub fn new() -> (room: Room)
        ensures
            room.wf(),
            room.present().len() == 0,
            room.free().len() == 0,
            room.people@.len() == 0,
            room.bpm == 60,
            room.counts == 10,
            room.min_buf_len == DEFAULT_MIN_BUF_LEN,
            room.backing matches Backing::File(f) && f@.len() == 0,
            room.audience_hears,
    {
        Room {
            users: slots_new(),
            people: Vec::new(),
            bpm: 60,
            counts: 10,
            min_buf_len: DEFAULT_MIN_BUF_LEN,
            backing: Backing::File(Vec::new()),
            audience_hears: true,
        }
    }

    /// The numbers of the users in the room, in order.
    pub fn list_numbers(&self) -> (list: Vec<usize>)
        ensures
            list@ == self.numbers(),
    {
        let present = slots_list(&self.users);
        let mut list: Vec<usize> = Vec::new();
        let mut i: usize = 0;
        while i < present.len()
            invariant
                present@ == self.present(),
                i <= present@.len(),
                list@.len() == i,
                forall|j: int| 0 <= j < i ==> list@[j] == present@[j].1,
            decreases present@.len() - i,
        {
            list.push(present[i].1);
            i = i + 1;
        }
        assert(list@ =~= self.numbers());
        list
    }

    /// The names of the users in the room, in order.
    fn list_names(&self) -> (list: Vec<String>)
        requires
            self.wf(),
        ensures
            views(list@) == self.names(),
    {
        let present = slots_list(&self.users);
        let mut list: Vec<String> = Vec::new();
        let mut i: usize = 0;
        while i < present.len()
            invariant
                self.wf(),
                present@ == self.present(),
                i <= present@.len(),
                views(list@) == self.names().take(i as int),
            decreases present@.len() - i,
        {
            let ghost fore = list@;
            assert(self.present()[i as int].1 < self.people@.len());
            let id: usize = present[i].1;
            list.push(self.people[id].username.clone());
            proof {
                assert(views(list@) =~= views(fore).push(self.people@[id as int].username@));
                assert(self.names().take(i + 1) =~= self.names().take(i as int).push(
                    self.names()[i as int],
                ));
            }
            i = i + 1;
        }
        assert(self.names().take(i as int) =~= self.names());
        list
    }

    /// The messages that tell everybody about the room.
    pub fn info_messages(&self, backing: bool) -> (messages: Vec<Message>)
        requires
            self.wf(),
        ensures
            wires(messages@) == self.info(backing),
    {
        let list = self.list_names();
        let mut online = "onl:".to_string();
        let joined_list = join(&list, ", ");
        online.append(joined_list.as_str());
        let mut hears = "abk:".to_string();
        if self.audience_hears {
            hears.append("true");
        } else {
            hears.append("false");
        }
        let mut messages: Vec<Message> = Vec::new();
        messages.push(Message::Text(online));
        messages.push(number_message("bpm:", self.bpm as u64));
        messages.push(number_message("cnt:", self.counts as u64));
        messages.push(number_message("buf:", self.min_buf_len as u64));
        messages.push(Message::Text(hears));
        if backing {
            let mut news = self.backing.news_messages();
            let ghost fore = messages@;
            let ghost more = news@;
            messages.append(&mut news);
            assert(wires(messages@) =~= wires(fore) + wires(more));
        }
        assert(wires(messages@) =~= self.info(backing));
        messages
    }

    /// Begins to tell everybody in the room about it.
    pub fn update_info(&self, backing: bool) -> (b: Broadcast)
        requires
            self.wf(),
        ensures
            b.targets@ == self.present(),
            wires(b.messages@) == self.info(backing),
            b@ == beginning(b.targets@, b.messages@.len()),
            b.wf(),
    {
        let messages = self.info_messages(backing);
        Broadcast::new(slots_list(&self.users), messages)
    }

    /// Begins to send one message to everybody in the room.
    pub fn send_to_all(&self, message: Message) -> (b: Broadcast)
        ensures
            b.targets@ == self.present(),
            b.messages@ == seq![message],
            b@ == beginning(b.targets@, 1),
            b.wf(),
    {
        let mut messages: Vec<Message> = Vec::new();
        messages.push(message);
        assert(messages@ =~= seq![message]);
        Broadcast::new(slots_list(&self.users), messages)
    }

    /// Takes a metronome whose tempo is a number, which `tempo` gives in decimal. Says whether the
    /// backing track is new.
    pub fn take_metronome(&mut self, tempo: Option<String>, sig: usize) -> (new: bool)
        ensures
            new == tempo is Some,
            *final(self) == match tempo {
                Some(bpm) => Room { backing: Backing::Metronome(bpm, sig), ..*old(self) },
                None => *old(self),
            },
    {
        match tempo {
            Some(bpm) => {
                self.backing = Backing::Metronome(bpm, sig);
                true
            },
            None => false,
        }
    }

    /// Lets those users go who have been given up.
    pub fn let_go(&mut self, gone: &Vec<u64>)
        requires
            old(self).wf(),
        ensures
            *final(self) == (Room { users: final(self).users, ..*old(self) }),
            final(self).present() == without(old(self).present(), gone@),
            final(self).free() == old(self).free() + freed(old(self).present(), gone@),
            final(self).wf(),
    {
        slots_retain(&mut self.users, gone);
        proof {
            lemma_without_keeps_wf(*old(self), *self, gone@);
        }
    }

    /// Whether one more user can be let in.
    pub fn has_room(&self) -> (r: bool)
        ensures
            r == (self.present().len() < u32::MAX - 1),
    {
        slots_list(&self.users).len() < (u32::MAX - 1) as usize
    }

    /// Letting a user in turns `before` into `after`. The user has the next number, no name, and a
    /// key that nobody in the room has. The user takes the place that was given up last, or the one
    /// after all others.
    pub open spec fn joined(before: Room, after: Room, id: usize) -> bool {
        let user = after.people@.last();
        &&& id == before.people@.len()
        &&& after == (Room { users: after.users, people: after.people, ..before })
        &&& after.people@ == before.people@.push(user)
        &&& user.username@ == unnamed()
        &&& user.offset == 0
        &&& user.consumer_idx == 0
        &&& !has_key(before.present(), user.key)
        &&& slot(user.key) == next_slot(before.present(), before.free())
        &&& after.present() == before.present().insert(
            place_for(before.present(), slot(user.key)),
            (user.key, id),
        )
        &&& after.free() == free_after(before.free())
    }

    /// Lets a user in, who has no name yet. Gives the number of the user.
    pub fn join(&mut self) -> (id: usize)
        requires
            old(self).wf(),
            old(self).present().len() < u32::MAX - 1,
        ensures
            Room::joined(*old(self), *final(self), id),
            final(self).wf(),
    {
        let id: usize = self.people.len();
        let key: u64 = slots_insert(&mut self.users, id);
        let username = "(user is connecting)".to_string();
        self.people.push(User { username, key, offset: 0, consumer_idx: 0 });
        proof {
            let before = old(self).present();
            let i = choose|i: int|
                0 <= i <= before.len() && self.present() == #[trigger] before.insert(i, (key, id));
            lemma_insert_place(before, i, (key, id));
            lemma_insert_keeps_layout(before, old(self).free(), i, (key, id));
            assert forall|j: int| #![trigger self.present()[j]]
                0 <= j < self.present().len() implies self.present()[j].1 < self.people@.len()
                && self.people@[self.present()[j].1 as int].key == self.present()[j].0 by {
                if j < i {
                    assert(self.present()[j] == before[j]);
                } else if j > i {
                    assert(self.present()[j] == before[j - 1]);
                }
            }
        }
        id
    }

    /// Lets a user leave.
    pub fn leave(&mut self, id: usize)
        requires
            old(self).wf(),
            id < old(self).people@.len(),
        ensures
            *final(self) == (Room { users: final(self).users, ..*old(self) }),
            final(self).present() == without(
                old(self).present(),
                seq![old(self).people@[id as int].key],
            ),
            final(self).free() == old(self).free() + freed(
                old(self).present(),
                seq![old(self).people@[id as int].key],
            ),
            final(self).wf(),
    {
        let key: u64 = self.people[id].key;
        let _gone = slots_remove(&mut self.users, key);
        proof {
            lemma_without_keeps_wf(*old(self), *self, seq![key]);
        }
    }

    /// Calling up turns `before` into `after`: those who are not reached are gone, and the others
    /// have their places in the recording, in order.
    pub open spec fn called_up(before: Room, accepted: Seq<bool>, after: Room) -> bool {
        let ids = reached(before.present(), accepted);
        &&& after == (Room { users: after.users, people: after.people, ..before })
        &&& after.present() == without(before.present(), missed(before.present(), accepted))
        &&& after.free() == before.free() + freed(
            before.present(),
            missed(before.present(), accepted),
        )
        &&& after.people@.len() == before.people@.len()
        &&& forall|k: int| #![trigger ids[k]]
            0 <= k < ids.len() ==> after.people@[ids[k] as int] == (User {
                consumer_idx: k as usize,
                ..before.people@[ids[k] as int]
            })
        &&& forall|i: int| #![trigger after.people@[i]]
            0 <= i < before.people@.len() && !ids.contains(i as usize) ==> after.people@[i]
                == before.people@[i]
    }

    /// Calls the users in the room up for a recording. `accepted` says of each, in order, whether
    /// the connection took the user's end of the ring. Those who are not reached are let go. The
    /// others get their places in the recording. Gives their names and offsets.
    pub fn call_up(&mut self, accepted: &Vec<bool>) -> (r: (Vec<String>, Vec<usize>))
        requires
            old(self).wf(),
            accepted@.len() == old(self).present().len(),
        ensures
            Room::called_up(*old(self), accepted@, *final(self)),
            ({
                let ids = reached(old(self).present(), accepted@);
                &&& r.0@ == ids.map_values(|id: usize| old(self).people@[id as int].username)
                &&& r.1@ == ids.map_values(|id: usize| old(self).people@[id as int].offset)
            }),
            final(self).wf(),
    {
        let list = slots_list(&self.users);
        let mut names: Vec<String> = Vec::new();
        let mut offsets: Vec<usize> = Vec::new();
        let mut gone: Vec<u64> = Vec::new();
        let ghost people = self.people@;
        let ghost mut ids: Seq<usize> = seq![];
        let mut i: usize = 0;
        while i < list.len()
            invariant
                old(self).wf(),
                people == old(self).people@,
                list@ == old(self).present(),
                accepted@.len() == list@.len(),
                i <= list@.len(),
                *self == (Room { people: self.people, ..*old(self) }),
                ids == reached(list@.take(i as int), accepted@),
                gone@ == missed(list@.take(i as int), accepted@),
                names@ == ids.map_values(|id: usize| people[id as int].username),
                offsets@ == ids.map_values(|id: usize| people[id as int].offset),
                forall|k: int| #![trigger ids[k]]
                    0 <= k < ids.len() ==> exists|j: int| 0 <= j < i && (#[trigger] list@[j]).1
                        == ids[k],
                self.people@.len() == people.len(),
                forall|k: int| #![trigger ids[k]]
                    0 <= k < ids.len() ==> self.people@[ids[k] as int] == (User {
                        consumer_idx: k as usize,
                        ..people[ids[k] as int]
                    }),
                forall|p: int| #![trigger self.people@[p]]
                    0 <= p < people.len() && !ids.contains(p as usize) ==> self.people@[p]
                        == people[p],
            decreases list@.len() - i,
        {
            let (key, id) = list[i];
            proof {
                assert(old(self).present()[i as int].1 < people.len());
                assert(list@.take(i + 1).drop_last() =~= list@.take(i as int));
                assert(!ids.contains(id)) by {
                    if ids.contains(id) {
                        let k = ids.index_of(id);
                        let j = choose|j: int| 0 <= j < i && (#[trigger] list@[j]).1 == ids[k];
                        assert(old(self).present()[j].0 == people[id as int].key);
                    }
                }
            }
            if accepted[i] {
                let ghost before = ids;
                let ghost people_before = self.people@;
                self.people[id].consumer_idx = names.len();
                names.push(self.people[id].username.clone());
                offsets.push(self.people[id].offset);
                proof {
                    ids = ids.push(id);
                    assert(names@ =~= ids.map_values(|id: usize| people[id as int].username));
                    assert(offsets@ =~= ids.map_values(|id: usize| people[id as int].offset));
                    assert forall|k: int| #![trigger ids[k]] 0 <= k < ids.len() implies exists|
                        j: int,
                    |
                        0 <= j < i + 1 && (#[trigger] list@[j]).1 == ids[k] by {
                        if k == before.len() {
                            assert(list@[i as int].1 == ids[k]);
                        } else {
                            assert(before[k] == ids[k]);
                        }
                    }
                    assert forall|k: int| #![trigger ids[k]]
                        0 <= k < ids.len() implies self.people@[ids[k] as int] == (User {
                        consumer_idx: k as usize,
                        ..people[ids[k] as int]
                    }) by {
                        if k < before.len() {
                            assert(before[k] == ids[k]);
                            assert(before.contains(before[k]));
                        }
                    }
                    assert forall|p: int| #![trigger self.people@[p]]
                        0 <= p < people.len() && !ids.contains(p as usize) implies self.people@[p]
                        == people[p] by {
                        assert(ids[before.len() as int] == id);
                        if before.contains(p as usize) {
                            let k = before.index_of(p as usize);
                            assert(ids[k] == p as usize);
                        }
                        assert(people_before[p] == people[p]);
                    }
                }
            } else {
                gone.push(key);
            }
            i = i + 1;
        }
        assert(list@.take(i as int) =~= list@);
        slots_retain(&mut self.users, &gone);
        proof {
            lemma_without(old(self).present(), gone@);
            lemma_freed_keeps_layout(old(self).present(), old(self).free(), gone@);
            assert(self.people.len() == people.len());
            assert forall|i: int| #![trigger self.present()[i]]
                0 <= i < self.present().len() implies self.present()[i].1 < self.people@.len()
                && self.people@[self.present()[i].1 as int].key == self.present()[i].0 by {
                let k = old(self).present().index_of(self.present()[i]);
                assert(old(self).present()[k] == self.present()[i]);
                lemma_keys_kept(people, self.people@, ids, self.present()[i].1 as int);
            }
            assert forall|i: int| 0 <= i < self.people@.len() implies is_key(
                (#[trigger] self.people@[i]).key,
            ) by {
                lemma_keys_kept(people, self.people@, ids, i);
                assert(is_key(people[i].key));
            }
        }
        (names, offsets)
    }

    /// The count-in can be computed: there is a tempo, and the product fits.
    pub open spec fn can_count_in(self) -> bool {
        self.bpm > 0 && MINUTE * self.counts <= u32::MAX
    }

    /// Whether the count-in can be computed.
    pub fn has_count_in(&self) -> (r: bool)
        ensures
            r == self.can_count_in(),
    {
        proof {
            assert(MINUTE * self.counts <= MINUTE * u32::MAX) by (nonlinear_arith);
        }
        self.bpm > 0 && (MINUTE as u64) * (self.counts as u64) <= u32::MAX as u64
    }

    /// The length of the count-in in samples.
    pub open spec fn count_in_len(self) -> u32 {
        (MINUTE * self.counts / self.bpm as int) as u32
    }

    /// The length of the count-in in samples.
    pub fn count_in(&self) -> (n: u32)
        requires
            self.can_count_in(),
        ensures
            n == self.count_in_len(),
            n == MINUTE * self.counts / self.bpm as int,
    {
        (MINUTE as u32) * self.counts / self.bpm
    }

    /// The backing track that is heard can be made.
    pub open spec fn has_track(self, beats: Seq<usize>, up_raw: Seq<u8>, tick_raw: Seq<u8>) -> bool {
        self.audience_hears ==> self.backing.decodable(beats, up_raw, tick_raw)
    }

    /// The backing track that is heard can come to `r`: there is none where the audience is not to
    /// hear one.
    pub open spec fn hears(
        self,
        beats: Seq<usize>,
        up_raw: Seq<u8>,
        tick_raw: Seq<u8>,
        r: Result<(Seq<i16>, u16), DecodeFault>,
    ) -> bool {
        if self.audience_hears {
            self.backing.decodes_to(beats, up_raw, tick_raw, r)
        } else {
            r == Ok::<(Seq<i16>, u16), DecodeFault>((seq![], 1))
        }
    }

    /// With a backing track, this is what comes of preparing a recording.
    pub open spec fn prepared(
        self,
        users: Vec<(Stream, String)>,
        offsets: Vec<usize>,
        track: Result<(Seq<i16>, u16), DecodeFault>,
        r: Result<(Message, AudioMessage), StartFault>,
    ) -> bool {
        match track {
            Err(e) => r == Err::<(Message, AudioMessage), StartFault>(StartFault::Backing(e)),
            Ok((samples, channels)) => if start_fits(self.count_in_len(), channels) {
                &&& r matches Ok((m, AudioMessage::StartRecording(u, o, c, b, i)))
                &&& m@ == Wire::Text("srt:"@ + decimal(self.count_in_len() as nat))
                &&& (u, o, c) == (users, offsets, channels)
                &&& b@ == samples
                &&& i == start_of(self.count_in_len(), channels)
            } else {
                r == Err::<(Message, AudioMessage), StartFault>(StartFault::TooFar)
            },
        }
    }

    /// Whether a recording can be prepared: the count-in can be computed, and the backing track can
    /// be made.
    pub fn can_prepare(&self, beats: &Vec<usize>, up_raw: &Vec<u8>, tick_raw: &Vec<u8>) -> (r: bool)
        ensures
            r == (self.can_count_in() && self.has_track(beats@, up_raw@, tick_raw@)),
    {
        self.has_count_in() && (!self.audience_hears || self.backing.can_decode(
            beats,
            up_raw,
            tick_raw,
        ))
    }

    /// Prepares a recording: what everybody is told, which is the length of the count-in, and what
    /// the thread that plays the audio is told.
    pub fn prepare(
        &self,
        users: Vec<(Stream, String)>,
        offsets: Vec<usize>,
        beats: &Vec<usize>,
        up_raw: &Vec<u8>,
        tick_raw: &Vec<u8>,
    ) -> (r: Result<(Message, AudioMessage), StartFault>)
        requires
            self.can_count_in(),
            self.has_track(beats@, up_raw@, tick_raw@),
        ensures
            exists|track: Result<(Seq<i16>, u16), DecodeFault>| #[trigger]
                self.hears(beats@, up_raw@, tick_raw@, track) && self.prepared(
                    users,
                    offsets,
                    track,
                    r,
                ),
    {
        let count_in: u32 = self.count_in();
        let track = if self.audience_hears {
            self.backing.decode(beats, up_raw, tick_raw)
        } else {
            Ok((Vec::new(), 1))
        };
        assert(self.hears(beats@, up_raw@, tick_raw@, track_view(track)));
        match track {
            Ok((samples, channels)) => {
                if !has_start_place(count_in, channels) {
                    return Err(StartFault::TooFar);
                }
                let index: i32 = start_place(count_in, channels);
                Ok(
                    (
                        number_message("srt:", count_in as u64),
                        AudioMessage::StartRecording(users, offsets, channels, samples, index),
                    ),
                )
            },
            Err(e) => Err(StartFault::Backing(e)),
        }
    }

    /// The first place at or after `from` of a user in the room who has this name, or the number of
    /// users in the room.
    pub open spec fn named_from(self, name: Seq<char>, from: int) -> int
        decreases self.present().len() - from,
    {
        if from < 0 || from >= self.present().len() || self.names()[from] == name {
            from
        } else {
            self.named_from(name, from + 1)
        }
    }

    /// The place in the recording of the first user in the room who has this name, or, where none
    /// has, of the user with number `id`.
    pub open spec fn place_of(self, name: Seq<char>, id: usize) -> usize {
        let i = self.named_from(name, 0);
        if i < self.present().len() {
            self.people@[self.present()[i].1 as int].consumer_idx
        } else {
            self.people@[id as int].consumer_idx
        }
    }

    /// Finds the place in the recording of the first user in the room who has this name, or, where
    /// none has, of the user with number `id`.
    pub fn find_place(&self, name: &String, id: usize) -> (n: usize)
        requires
            self.wf(),
            id < self.people@.len(),
        ensures
            n == self.place_of(name@, id),
    {
        let list = slots_list(&self.users);
        let mut i: usize = 0;
        while i < list.len()
            invariant
                self.wf(),
                list@ == self.present(),
                i <= list@.len(),
                self.named_from(name@, i as int) == self.named_from(name@, 0),
            decreases list@.len() - i,
        {
            let other: usize = list[i].1;
            assert(self.present()[i as int].1 < self.people@.len());
            assert(self.names()[i as int] == self.people@[other as int].username@);
            if self.people[other].username == *name {
                return self.people[other].consumer_idx;
            }
            i = i + 1;
        }
        self.people[id].consumer_idx
    }
}

/// The numbers of the users who have been reached, in order.
pub open spec fn reached(list: Seq<(u64, usize)>, accepted: Seq<bool>) -> Seq<usize>
    decreases list.len(),
{
    if list.len() == 0 {
        seq![]
    } else if accepted[list.len() - 1] {
        reached(list.drop_last(), accepted).push(list.last().1)
    } else {
        reached(list.drop_last(), accepted)
    }
}

/// The keys of the users who have not been reached, in order.
pub open spec fn missed(list: Seq<(u64, usize)>, accepted: Seq<bool>) -> Seq<u64>
    decreases list.len(),
{
    if list.len() == 0 {
        seq![]
    } else if accepted[list.len() - 1] {
        missed(list.drop_last(), accepted)
    } else {
        missed(list.drop_last(), accepted).push(list.last().0)
    }
}

/// Of users with different keys, those have been missed who have not been reached.
proof fn lemma_missed(list: Seq<(u64, usize)>, accepted: Seq<bool>, key: u64)
    requires
        accepted.len() >= list.len(),
    ensures
        missed(list, accepted).contains(key) <==> exists|j: int|
            0 <= j < list.len() && (#[trigger] list[j]).0 == key && !accepted[j],
    decreases list.len(),
{
    if list.len() > 0 {
        let fore = list.drop_last();
        let gone = missed(fore, accepted);
        lemma_missed(fore, accepted, key);
        if !accepted[list.len() - 1] {
            assert(gone.push(list.last().0).contains(key) <==> gone.contains(key) || list.last().0
                == key) by {
                if gone.contains(key) {
                    let k = gone.index_of(key);
                    assert(gone.push(list.last().0)[k] == key);
                }
                assert(gone.push(list.last().0)[gone.len() as int] == list.last().0);
            }
        }
        assert forall|j: int| 0 <= j < fore.len() implies fore[j] == list[j] by {}
        if exists|j: int| 0 <= j < list.len() && (#[trigger] list[j]).0 == key && !accepted[j] {
            let j = choose|j: int|
                0 <= j < list.len() && (#[trigger] list[j]).0 == key && !accepted[j];
            if j < fore.len() {
                assert(fore[j].0 == key);
            }
        }
        if exists|j: int| 0 <= j < fore.len() && (#[trigger] fore[j]).0 == key && !accepted[j] {
            let j = choose|j: int|
                0 <= j < fore.len() && (#[trigger] fore[j]).0 == key && !accepted[j];
            assert(list[j].0 == key);
        }
        assert(list[list.len() - 1] == list.last());
    }
}

/// Of the first `n` users, those who are left when the missed have gone are those who have been
/// reached, in order.
proof fn lemma_left_are_reached(list: Seq<(u64, usize)>, accepted: Seq<bool>, n: int)
    requires
        accepted.len() == list.len(),
        in_slot_order(list),
        0 <= n <= list.len(),
    ensures
        without(list.take(n), missed(list, accepted)).map_values(|e: (u64, usize)| e.1) == reached(
            list.take(n),
            accepted,
        ),
    decreases n,
{
    let gone = missed(list, accepted);
    let number = |e: (u64, usize)| e.1;
    if n > 0 {
        lemma_left_are_reached(list, accepted, n - 1);
        let now = list.take(n);
        let fore = list.take(n - 1);
        let e = list[n - 1];
        assert(now.drop_last() =~= fore);
        assert(now =~= fore.push(e));
        assert(gone.contains(e.0) == !accepted[n - 1]) by {
            lemma_missed(list, accepted, e.0);
            if gone.contains(e.0) {
                let j = choose|j: int|
                    0 <= j < list.len() && (#[trigger] list[j]).0 == e.0 && !accepted[j];
                if j < n - 1 {
                    assert(slot(list[j].0) < slot(list[n - 1].0));
                } else if j > n - 1 {
                    assert(slot(list[n - 1].0) < slot(list[j].0));
                }
            }
        }
        lemma_without_push(fore, e, gone);
        if accepted[n - 1] {
            let w = without(fore, gone);
            assert(w.push(e).map_values(number) =~= w.map_values(number).push(e.1));
        }
    } else {
        assert(list.take(0) =~= Seq::<(u64, usize)>::empty());
        lemma_without(list.take(0), gone);
        assert(without(list.take(0), gone).len() == 0) by {
            if without(list.take(0), gone).len() > 0 {
                assert(list.take(0).contains(without(list.take(0), gone)[0]));
            }
        }
        assert(without(list.take(0), gone).map_values(number) =~= Seq::<usize>::empty());
    }
}

/// Entries in the order of their slots have slots that are not below their places.
proof fn lemma_slot_grows(s: Seq<(u64, usize)>, i: int)
    requires
        in_slot_order(s),
        0 <= i < s.len(),
    ensures
        slot(s[i].0) >= i,
    decreases i,
{
    if i > 0 {
        lemma_slot_grows(s, i - 1);
        assert(slot(s[i - 1].0) < slot(s[i].0));
    }
}

/// The first user at or after `from` who has this name is found.
proof fn lemma_named_from(room: Room, name: Seq<char>, from: int, k: int)
    requires
        0 <= from <= k < room.present().len(),
        room.names()[k] == name,
        forall|j: int| from <= j < k ==> room.names()[j] != name,
    ensures
        room.named_from(name, from) == k,
    decreases k - from,
{
    if from < k {
        lemma_named_from(room, name, from + 1, k);
    }
}

/// After a call-up, whoever asks for a user by name gets the place of that user in the recording,
/// unless another user of that name comes before.
pub proof fn lemma_names_lead_to_places(
    before: Room,
    accepted: Seq<bool>,
    after: Room,
    k: int,
    id: usize,
)
    requires
        before.wf(),
        accepted.len() == before.present().len(),
        Room::called_up(before, accepted, after),
        0 <= k < reached(before.present(), accepted).len(),
        forall|j: int|
            0 <= j < k ==> before.people@[#[trigger] reached(
                before.present(),
                accepted,
            )[j] as int].username@ != before.people@[reached(
                before.present(),
                accepted,
            )[k] as int].username@,
    ensures
        after.place_of(
            before.people@[reached(before.present(), accepted)[k] as int].username@,
            id,
        ) == k,
{
    let list = before.present();
    let ids = reached(list, accepted);
    let name = before.people@[ids[k] as int].username@;
    lemma_left_are_reached(list, accepted, list.len() as int);
    assert(list.take(list.len() as int) =~= list);
    let numbers = after.numbers();
    assert(numbers == ids);
    assert forall|j: int| 0 <= j < ids.len() implies #[trigger] after.names()[j]
        == before.people@[ids[j] as int].username@ by {
        assert(numbers[j] == after.present()[j].1);
        assert(after.people@[ids[j] as int].username == before.people@[ids[j] as int].username);
    }
    assert(after.names()[k] == name);
    lemma_named_from(after, name, 0, k);
    assert(numbers[k] == after.present()[k].1);
    lemma_without(list, missed(list, accepted));
    lemma_slot_grows(after.present(), k);
}

/// Getting a place in a recording changes nobody's key.
proof fn lemma_keys_kept(before: Seq<User>, after: Seq<User>, ids: Seq<usize>, i: int)
    requires
        0 <= i < before.len(),
        before.len() == after.len(),
        before.len() <= usize::MAX,
        forall|k: int| #![trigger ids[k]]
            0 <= k < ids.len() ==> after[ids[k] as int] == (User {
                consumer_idx: k as usize,
                ..before[ids[k] as int]
            }),
        forall|p: int| #![trigger after[p]]
            0 <= p < before.len() && !ids.contains(p as usize) ==> after[p] == before[p],
    ensures
        after[i].key == before[i].key,
{
    if ids.contains(i as usize) {
        let k = ids.index_of(i as usize);
        assert(ids[k] == i as usize);
    }
}

/// The place in the backing track that a recording can start from: it and the count-in fit.
pub open spec fn start_fits(count_in: u32, channels: u16) -> bool {
    let delay = count_in as i32;
    delay > i32::MIN && i32::MIN <= -delay * channels <= i32::MAX
}

/// The place in the backing track from which a recording starts: so far before its beginning as
/// the count-in is long, in every channel.
pub open spec fn start_of(count_in: u32, channels: u16) -> int {
    -(count_in as i32) * channels
}

/// Whether the place in the backing track can be computed.
pub fn has_start_place(count_in: u32, channels: u16) -> (r: bool)
    ensures
        r == start_fits(count_in, channels),
{
    let delay: i32 = count_in as i32;
    if delay == i32::MIN {
        return false;
    }
    proof {
        let minus = -(delay as int);
        assert(-0x8000_0000 * 0xffff <= minus * channels <= 0x8000_0000 * 0xffff)
            by (nonlinear_arith)
            requires
                -0x8000_0000 <= minus <= 0x8000_0000,
                0 <= channels <= 0xffff,
        ;
    }
    let place: i64 = -(delay as i64) * (channels as i64);
    i32::MIN as i64 <= place && place <= i32::MAX as i64
}

/// The place in the backing track from which a recording starts.
pub fn start_place(count_in: u32, channels: u16) -> (n: i32)
    requires
        start_fits(count_in, channels),
    ensures
        n == start_of(count_in, channels),
{
    let delay: i32 = count_in as i32;
    -delay * (channels as i32)
}

/// The backing track begins exactly when the count-in is over, at the first channel.
pub proof fn lemma_backing_follows_count_in(source: MultisyncSource, count_in: u32)
    requires
        source.channels > 0,
        source.current_channel == 0,
        source.backing_index == start_of(count_in, source.channels),
        count_in <= i32::MAX,
    ensures
        ({
            let then = source.advanced_by((count_in * source.channels) as nat);
            then.backing_index == 0 && then.current_channel == 0
        }),
{
    let n = count_in * source.channels;
    assert(n >= 0) by (nonlinear_arith)
        requires
            n == count_in * source.channels,
    ;
    assert(-(count_in as int) * source.channels == -n) by (nonlinear_arith)
        requires
            n == count_in * source.channels,
    ;
    lemma_place(source, n as nat);
    vstd::arithmetic::div_mod::lemma_mod_multiples_basic(count_in as int, source.channels as int);
}

/// Those whose connections did not take all messages are those who have been missed.
proof fn lemma_lost_are_missed(list: Seq<(u64, usize)>, messages: nat, taken: Seq<nat>, n: int)
    requires
        taken.len() == list.len(),
        0 <= n <= list.len(),
    ensures
        lost(list, messages, taken.take(n)) == missed(
            list.take(n),
            taken.map_values(|t: nat| t >= messages),
        ),
    decreases n,
{
    if n > 0 {
        lemma_lost_are_missed(list, messages, taken, n - 1);
        assert(taken.take(n).drop_last() =~= taken.take(n - 1));
        assert(list.take(n).drop_last() =~= list.take(n - 1));
    }
}

/// After everybody has been told something, those are left in the room, in order, whose connections
/// took all of it.
pub proof fn lemma_those_told_are_left(before: Room, messages: nat, taken: Seq<nat>, after: Room)
    requires
        before.wf(),
        taken.len() == before.present().len(),
        after.present() == without(
            before.present(),
            lost(before.present(), messages, taken),
        ),
    ensures
        after.numbers() == reached(before.present(), taken.map_values(|t: nat| t >= messages)),
{
    let list = before.present();
    let n = list.len() as int;
    lemma_lost_are_missed(list, messages, taken, n);
    lemma_left_are_reached(list, taken.map_values(|t: nat| t >= messages), n);
    assert(list.take(n) =~= list);
    assert(taken.take(n) =~= taken);
}

/// Letting users go leaves the rest of the room in order.
proof fn lemma_without_keeps_wf(before: Room, after: Room, gone: Seq<u64>)
    requires
        before.wf(),
        after == (Room { users: after.users, ..before }),
        after.present() == without(before.present(), gone),
        after.free() == before.free() + freed(before.present(), gone),
    ensures
        after.wf(),
{
    lemma_without(before.present(), gone);
    lemma_freed_keeps_layout(before.present(), before.free(), gone);
    assert forall|i: int| #![trigger after.present()[i]]
        0 <= i < after.present().len() implies after.present()[i].1 < after.people@.len()
        && after.people@[after.present()[i].1 as int].key == after.present()[i].0 by {
        let k = before.present().index_of(after.present()[i]);
        assert(before.present()[k] == after.present()[i]);
    }
}

/// Leaving undoes joining: whoever comes and goes leaves the room as it was, but for the record of
/// the visit.
pub proof fn lemma_leave_undoes_join(before: Room, joined: Room, left: Room, id: usize)
    requires
        before.wf(),
        Room::joined(before, joined, id),
        left.present() == without(joined.present(), seq![joined.people@[id as int].key]),
    ensures
        left.present() == before.present(),
{
    let key = joined.people@[id as int].key;
    let i = place_for(before.present(), slot(key));
    lemma_place_in_range(before.present(), slot(key));
    lemma_remove_undoes_insert(before.present(), i, key, id);
}

/// As long as no place has been given up, whoever comes is listed last.
pub proof fn lemma_who_comes_is_listed_last(before: Room, after: Room, id: usize)
    requires
        before.wf(),
        before.free().len() == 0,
        Room::joined(before, after, id),
    ensures
        after.present() == before.present().push((after.people@.last().key, id)),
        after.numbers() == before.numbers().push(id),
        after.names() == before.names().push(unnamed()),
        after.free().len() == 0,
{
    let e = (after.people@.last().key, id);
    assert(before.free() =~= Seq::<int>::empty());
    lemma_no_free_slot_comes_last(before.present());
    assert(after.present() =~= before.present().push(e));
    assert(after.numbers() =~= before.numbers().push(id));
    assert forall|i: int| 0 <= i < before.present().len() implies #[trigger] after.names()[i]
        == before.names()[i] by {
        assert(before.present()[i].1 < before.people@.len());
        assert(after.present()[i] == before.present()[i]);
    }
    assert(after.names() =~= before.names().push(unnamed()));
}

/// Users who only come are in the room in the order in which they came.
pub proof fn lemma_order_of_coming(rooms: Seq<Room>, k: int)
    requires
        0 <= k < rooms.len(),
        forall|i: int| 0 <= i < rooms.len() ==> (#[trigger] rooms[i]).wf(),
        rooms[0].present().len() == 0,
        rooms[0].free().len() == 0,
        rooms[0].people@.len() == 0,
        forall|i: int| #![trigger rooms[i]]
            0 < i < rooms.len() ==> Room::joined(rooms[i - 1], rooms[i], (i - 1) as usize),
    ensures
        rooms[k].numbers() == Seq::new(k as nat, |i: int| i as usize),
        rooms[k].free().len() == 0,
    decreases k,
{
    if k > 0 {
        lemma_order_of_coming(rooms, k - 1);
        assert(Room::joined(rooms[k - 1], rooms[k], (k - 1) as usize));
        lemma_who_comes_is_listed_last(rooms[k - 1], rooms[k], (k - 1) as usize);
    }
    assert(rooms[k].numbers() =~= Seq::new(k as nat, |i: int| i as usize));
}

/// The count-in is as long as its counts last at the tempo: 2880000 samples make a minute. What is
/// left of a sample is dropped.
pub proof fn lemma_count_in_length(room: Room)
    requires
        room.can_count_in(),
    ensures
        room.count_in_len() * room.bpm <= 2880000 * room.counts,
        2880000 * room.counts < (room.count_in_len() + 1) * room.bpm,
{
    let all = 2880000 * room.counts;
    let bpm = room.bpm as int;
    vstd::arithmetic::div_mod::lemma_fundamental_div_mod(all, bpm);
    let q = all / bpm;
    assert(0 <= q <= all) by (nonlinear_arith)
        requires
            bpm >= 1,
            all >= 0,
            q == all / bpm,
    ;
    assert(room.count_in_len() == q);
    assert(q * bpm == bpm * q) by (nonlinear_arith);
    assert((q + 1) * bpm == bpm * q + bpm) by (nonlinear_arith);
}

/// There is a count-in for every tempo but zero, up to 1491 counts.
pub proof fn lemma_what_can_be_counted_in(room: Room)
    ensures
        room.can_count_in() <==> room.bpm > 0 && room.counts <= 1491,
{
}

/// The recording starts so far before the backing track as the count-in is long, in every channel.
pub proof fn lemma_start_lies_before(count_in: u32, channels: u16)
    requires
        count_in <= i32::MAX,
        count_in * channels <= i32::MAX,
    ensures
        start_fits(count_in, channels),
        start_of(count_in, channels) + count_in * channels == 0,
{
    let n = count_in as int;
    let c = channels as int;
    assert(-n * c == -(n * c)) by (nonlinear_arith);
    assert(n * c >= 0) by (nonlinear_arith)
        requires
            n >= 0,
            c >= 0,
    ;
}

/// How many of the first `k` have accepted.
pub open spec fn accepted_before(accepted: Seq<bool>, k: int) -> int
    decreases k,
{
    if k <= 0 {
        0
    } else {
        accepted_before(accepted, k - 1) + if accepted[k - 1] {
            1int
        } else {
            0int
        }
    }
}

/// Of the first `n` users, those who have accepted have been reached, each behind those before, and
/// the others have been missed.
proof fn lemma_reached_up_to(list: Seq<(u64, usize)>, accepted: Seq<bool>, n: int, j: int)
    requires
        accepted.len() >= list.len(),
        0 <= n <= list.len(),
    ensures
        reached(list.take(n), accepted).len() == accepted_before(accepted, n),
        missed(list.take(n), accepted).len() == n - accepted_before(accepted, n),
        0 <= j < n && accepted[j] ==> 0 <= accepted_before(accepted, j) < accepted_before(
            accepted,
            n,
        ) && reached(list.take(n), accepted)[accepted_before(accepted, j)] == list[j].1,
        0 <= j < n && !accepted[j] ==> 0 <= j - accepted_before(accepted, j) < n
            - accepted_before(accepted, n) && missed(list.take(n), accepted)[j - accepted_before(
            accepted,
            j,
        )] == list[j].0,
    decreases n,
{
    if n > 0 {
        lemma_reached_up_to(list, accepted, n - 1, j);
        assert(list.take(n).drop_last() =~= list.take(n - 1));
        assert(list.take(n).last() == list[n - 1]);
    }
}

/// Whoever has accepted is reached, and has as many users before as have accepted before; whoever has
/// not is missed.
pub proof fn lemma_who_is_reached(list: Seq<(u64, usize)>, accepted: Seq<bool>, j: int)
    requires
        accepted.len() == list.len(),
        0 <= j < list.len(),
    ensures
        reached(list, accepted).len() == accepted_before(accepted, list.len() as int),
        accepted[j] ==> 0 <= accepted_before(accepted, j) < reached(list, accepted).len()
            && reached(list, accepted)[accepted_before(accepted, j)] == list[j].1,
        !accepted[j] ==> missed(list, accepted).contains(list[j].0),
{
    let n = list.len() as int;
    lemma_reached_up_to(list, accepted, n, j);
    assert(list.take(n) =~= list);
    if !accepted[j] {
        assert(missed(list, accepted)[j - accepted_before(accepted, j)] == list[j].0);
    }
}

/// At a call-up each user who is reached gets the place in the recording behind those who were
/// reached before, and stays in the room; whoever is missed is gone. Nobody's name, key or offset
/// changes.
pub proof fn lemma_call_up(before: Room, accepted: Seq<bool>, after: Room, j: int, p: int)
    requires
        before.wf(),
        accepted.len() == before.present().len(),
        Room::called_up(before, accepted, after),
        0 <= j < before.present().len(),
        0 <= p < before.people@.len(),
        before.people@.len() <= usize::MAX,
    ensures
        accepted[j] ==> after.people@[before.present()[j].1 as int].consumer_idx as int
            == accepted_before(accepted, j),
        accepted[j] ==> after.numbers().contains(before.present()[j].1),
        !accepted[j] ==> !has_key(after.present(), before.present()[j].0),
        after.people@[p].username == before.people@[p].username,
        after.people@[p].key == before.people@[p].key,
        after.people@[p].offset == before.people@[p].offset,
        after.numbers().len() == accepted_before(accepted, accepted.len() as int),
{
    let list = before.present();
    let ids = reached(list, accepted);
    let n = list.len() as int;
    lemma_who_is_reached(list, accepted, j);
    lemma_left_are_reached(list, accepted, n);
    assert(list.take(n) =~= list);
    assert(after.numbers() == ids);
    if accepted[j] {
        let k = accepted_before(accepted, j);
        assert(ids[k] == list[j].1);
        lemma_without(list, missed(list, accepted));
        lemma_slot_grows(after.present(), k);
        assert(after.numbers()[k] == after.present()[k].1);
    } else {
        lemma_without(list, missed(list, accepted));
        let w = after.present();
        if has_key(w, list[j].0) {
            let i = choose|i: int| 0 <= i < w.len() && (#[trigger] w[i]).0 == list[j].0;
            assert(!missed(list, accepted).contains(w[i].0));
        }
    }
    if ids.contains(p as usize) {
        let k = ids.index_of(p as usize);
        assert(ids[k] == p as usize);
    }
}

/// Whoever leaves is gone, and everybody else stays, in order.
pub proof fn lemma_who_leaves(before: Room, after: Room, k: int)
    requires
        before.wf(),
        0 <= k < before.present().len(),
        after.present() == without(before.present(), seq![before.present()[k].0]),
    ensures
        after.present() == before.present().remove(k),
        !has_key(after.present(), before.present()[k].0),
{
    let s = before.present();
    lemma_without_one(s, k);
    lemma_without(s, seq![s[k].0]);
    assert(seq![s[k].0][0] == s[k].0);
    if has_key(after.present(), s[k].0) {
        let i = choose|i: int|
            0 <= i < after.present().len() && (#[trigger] after.present()[i]).0 == s[k].0;
        assert(!seq![s[k].0].contains(after.present()[i].0));
    }
}

/// Whoever comes next takes the place of the user who left last.
pub proof fn lemma_place_is_taken_again(
    before: Room,
    left: Room,
    after: Room,
    k: int,
    id: usize,
)
    requires
        before.wf(),
        0 <= k < before.present().len(),
        left.present() == without(before.present(), seq![before.present()[k].0]),
        left.free() == before.free() + freed(before.present(), seq![before.present()[k].0]),
        Room::joined(left, after, id),
    ensures
        after.present() == before.present().update(k, (after.people@.last().key, id)),
        after.free() == before.free(),
{
    let s = before.present();
    lemma_without_one(s, k);
    lemma_freed_one(s, k);
    let rest = s.remove(k);
    let e = (after.people@.last().key, id);
    assert forall|j: int| 0 <= j < k implies slot((#[trigger] rest[j]).0) < slot(s[k].0) by {
        assert(rest[j] == s[j]);
    }
    assert forall|j: int| k <= j < rest.len() implies slot((#[trigger] rest[j]).0) >= slot(
        s[k].0,
    ) by {
        assert(rest[j] == s[j + 1]);
    }
    lemma_place_for(rest, k, slot(s[k].0));
    assert(left.free().last() == slot(s[k].0));
    assert(after.present() =~= s.update(k, e));
    assert(after.free() =~= before.free());
}

/// Whoever comes is told of as connecting, and has no offset and the first place in a recording.
pub proof fn lemma_who_comes(before: Room, after: Room, id: usize)
    requires
        Room::joined(before, after, id),
    ensures
        id == before.people@.len(),
        after.people@.len() == id + 1,
        after.people@[id as int].username@ == "(user is connecting)"@,
        after.people@[id as int].offset == 0,
        after.people@[id as int].consumer_idx == 0,
        after.present().len() == before.present().len() + 1,
        after.numbers().contains(id),
        forall|p: int| 0 <= p < id ==> #[trigger] after.people@[p] == before.people@[p],
        after.bpm == before.bpm,
        after.counts == before.counts,
        after.min_buf_len == before.min_buf_len,
        after.backing == before.backing,
        after.audience_hears == before.audience_hears,
{
    let i = place_for(before.present(), slot(after.people@.last().key));
    lemma_place_in_range(before.present(), slot(after.people@.last().key));
    assert(after.present()[i].1 == id);
    assert(after.numbers()[i] == id);
}

/// A name leads to the first user in the room who has it; where nobody has it, whoever asks is meant.
pub proof fn lemma_who_is_meant(room: Room, name: Seq<char>, id: usize, k: int)
    requires
        forall|j: int| 0 <= j < k ==> room.names()[j] != name,
        0 <= k <= room.present().len(),
        k < room.present().len() ==> room.names()[k] == name,
    ensures
        room.place_of(name, id) == if k < room.present().len() {
            room.people@[room.present()[k].1 as int].consumer_idx
        } else {
            room.people@[id as int].consumer_idx
        },
{
    if k < room.present().len() {
        lemma_named_from(room, name, 0, k);
    } else {
        lemma_nobody_named(room, name, 0);
    }
}

proof fn lemma_nobody_named(room: Room, name: Seq<char>, from: int)
    requires
        0 <= from <= room.present().len(),
        forall|j: int| from <= j < room.present().len() ==> room.names()[j] != name,
    ensures
        room.named_from(name, from) == room.present().len(),
    decreases room.present().len() - from,
{
    if from < room.present().len() {
        lemma_nobody_named(room, name, from + 1);
    }
}

/// What a recording is started with: everybody who was called up, with the offsets, and the backing
/// track as it came out, from so far before its beginning as the count-in is long. The users are
/// told the length of the count-in.
pub proof fn lemma_what_a_recording_starts_with(
    room: Room,
    users: Vec<(Stream, String)>,
    offsets: Vec<usize>,
    samples: Seq<i16>,
    channels: u16,
    r: Result<(Message, AudioMessage), StartFault>,
)
    requires
        room.prepared(users, offsets, Ok((samples, channels)), r),
        room.count_in_len() <= i32::MAX,
        room.count_in_len() * channels <= i32::MAX,
    ensures
        r matches Ok((m, AudioMessage::StartRecording(u, o, c, b, i))) && m@ == Wire::Text(
            "srt:"@ + decimal(room.count_in_len() as nat),
        ) && u == users && o == offsets && c == channels && b@ == samples && i
            + room.count_in_len() * channels == 0,
{
    lemma_start_lies_before(room.count_in_len(), channels);
}

/// An audience that is not to hear a backing track hears none; otherwise the track of the room.
pub proof fn lemma_what_the_audience_hears(
    room: Room,
    beats: Seq<usize>,
    up_raw: Seq<u8>,
    tick_raw: Seq<u8>,
    r: Result<(Seq<i16>, u16), DecodeFault>,
)
    requires
        room.hears(beats, up_raw, tick_raw, r),
    ensures
        !room.audience_hears ==> r is Ok && r->Ok_0.0.len() == 0 && r->Ok_0.1 == 1,
        room.audience_hears ==> room.backing.decodes_to(beats, up_raw, tick_raw, r),
{
}

/// What everybody is told about the room: five lines, and then the backing track if it is new.
pub proof fn lemma_what_everybody_is_told(room: Room, backing: bool)
    ensures
        ({
            let told = room.info(backing);
            &&& told.len() == 5 + if backing {
                room.backing.news().len()
            } else {
                0
            }
            &&& told[0] == Wire::Text("onl:"@ + joined(room.names(), ", "@))
            &&& told[1] == Wire::Text("bpm:"@ + decimal(room.bpm as nat))
            &&& told[2] == Wire::Text("cnt:"@ + decimal(room.counts as nat))
            &&& told[3] == Wire::Text("buf:"@ + decimal(room.min_buf_len as nat))
            &&& told[4] == Wire::Text(
                "abk:"@ + if room.audience_hears {
                    "true"@
                } else {
                    "false"@
                },
            )
            &&& backing ==> told.skip(5) == room.backing.news()
        }),
        room.names().len() == room.present().len(),
        forall|i: int|
            0 <= i < room.present().len() ==> #[trigger] room.names()[i]
                == room.people@[room.present()[i].1 as int].username@,
{
    if backing {
        assert(room.info(backing).skip(5) =~= room.backing.news());
    }
}

/// Everybody is told of a new file by a heading and the bytes of it, and of a metronome by its tempo
/// and its beats; whoever comes gets the bytes alone, or the same of the metronome.
pub proof fn lemma_what_is_told_of_the_backing(backing: Backing)
    ensures
        backing matches Backing::File(f) ==> backing.news() == seq![
            Wire::Text("bck:"@),
            Wire::Binary(f@),
        ] && backing.welcome() == Wire::Binary(f@),
        backing matches Backing::Metronome(bpm, sig) ==> backing.news() == seq![
            Wire::Text("met:"@ + bpm@ + ":"@ + decimal(sig as nat)),
        ] && backing.welcome() == Wire::Text("met:"@ + bpm@ + ":"@ + decimal(sig as nat)),
{
}

/// Where the audience is not to hear a backing track, none has to be made; otherwise the one of the
/// room has to.
pub proof fn lemma_which_track_is_needed(
    room: Room,
    beats: Seq<usize>,
    up_raw: Seq<u8>,
    tick_raw: Seq<u8>,
)
    ensures
        !room.audience_hears ==> room.has_track(beats, up_raw, tick_raw),
        room.audience_hears ==> room.has_track(beats, up_raw, tick_raw)
            == room.backing.decodable(beats, up_raw, tick_raw),
{
}

} // verus!
