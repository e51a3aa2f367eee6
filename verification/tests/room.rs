use multisync::audio::AudioMessage;
use multisync::backing::{Backing, DecodeFault};
use multisync::broadcast::Broadcast;
use multisync::message::{text_message, Message};
use multisync::room::{has_start_place, start_place, Room, StartFault};
use multisync::source::MultisyncSource;
use multisync::stream::open_stream;

fn text(s: &str) -> Message {
    Message::Text(s.to_string())
}

fn room_of(names: &[&str]) -> Room {
    let mut room = Room::new();
    for name in names {
        assert!(room.has_room());
        let id = room.join();
        room.people[id].username = name.to_string();
    }
    room
}

/// Sends to everybody but one user.
fn send_round(mut round: Broadcast, deaf: usize) -> Broadcast {
    while let Some((id, _)) = round.next_send() {
        round.report(id != deaf);
    }
    round
}

#[test]
fn a_new_room_is_empty() {
    let room = Room::new();
    assert_eq!(room.list_numbers(), Vec::<usize>::new());
    assert_eq!(
        room.info_messages(false),
        vec![text("onl:"), text("bpm:60"), text("cnt:10"), text("buf:240000"), text("abk:true")]
    );
}

#[test]
fn who_comes_has_no_name_yet() {
    let mut room = Room::new();
    assert_eq!(room.join(), 0);
    assert_eq!(room.join(), 1);
    assert_eq!(
        room.info_messages(false)[0],
        text("onl:(user is connecting), (user is connecting)")
    );
    assert_ne!(room.people[0].key, room.people[1].key);
    assert_eq!(room.people[1].offset, 0);
    assert_eq!(room.people[1].consumer_idx, 0);
}

#[test]
fn leaving_undoes_joining() {
    let mut room = room_of(&["ann", "bob"]);
    let before = room.info_messages(false);
    let id = room.join();
    assert_eq!(room.list_numbers(), vec![0, 1, 2]);
    room.leave(id);
    assert_eq!(room.info_messages(false), before);
    assert_eq!(room.list_numbers(), vec![0, 1]);
    room.leave(id);
    assert_eq!(room.list_numbers(), vec![0, 1]);
}

#[test]
fn a_place_that_is_free_is_taken_again() {
    let mut room = room_of(&["ann", "bob", "cy"]);
    room.leave(1);
    assert_eq!(room.info_messages(false)[0], text("onl:ann, cy"));
    let id = room.join();
    assert_eq!(id, 3);
    room.people[id].username = "dee".to_string();
    assert_ne!(room.people[3].key, room.people[1].key);
    room.leave(1);
    assert_eq!(room.list_numbers().len(), 3);
    assert!(room.list_numbers().contains(&3));
}

#[test]
fn everybody_is_told_about_the_room() {
    let mut room = room_of(&["ann", "bob"]);
    room.audience_hears = false;
    room.backing = Backing::File(vec![1, 2]);
    let round = room.update_info(true);
    assert_eq!(round.targets.len(), 2);
    assert_eq!(
        round.messages,
        vec![
            text("onl:ann, bob"),
            text("bpm:60"),
            text("cnt:10"),
            text("buf:240000"),
            text("abk:false"),
            text("bck:"),
            Message::Binary(vec![1, 2]),
        ]
    );
}

#[test]
fn who_does_not_take_the_news_is_let_go() {
    let mut room = room_of(&["ann", "bob", "cy"]);
    let round = send_round(room.update_info(false), 1);
    room.let_go(&round.gone);
    assert_eq!(room.list_numbers(), vec![0, 2]);
    let round = send_round(room.send_to_all(text_message("stp:")), 0);
    assert_eq!(round.messages, vec![text("stp:")]);
    room.let_go(&round.gone);
    assert_eq!(room.list_numbers(), vec![2]);
    assert_eq!(room.people.len(), 3);
}

#[test]
fn a_call_up_gives_places() {
    let mut room = room_of(&["ann", "bob", "cy"]);
    room.people[2].offset = 7;
    let (names, offsets) = room.call_up(&vec![true, false, true]);
    assert_eq!(names, vec!["ann".to_string(), "cy".to_string()]);
    assert_eq!(offsets, vec![0, 7]);
    assert_eq!(room.list_numbers(), vec![0, 2]);
    assert_eq!(room.people[0].consumer_idx, 0);
    assert_eq!(room.people[2].consumer_idx, 1);
}

#[test]
fn names_lead_to_places() {
    let mut room = room_of(&["ann", "bob", "cy", "bob"]);
    let _ = room.call_up(&vec![true, true, true, true]);
    assert_eq!(room.find_place(&"cy".to_string(), 0), 2);
    assert_eq!(room.find_place(&"bob".to_string(), 0), 1);
    assert_eq!(room.find_place(&"nobody".to_string(), 3), 3);
}

#[test]
fn the_count_in_follows_the_tempo() {
    let mut room = Room::new();
    assert_eq!(room.count_in(), 480000);
    room.bpm = 7;
    room.counts = 3;
    assert_eq!(room.count_in(), 1234285);
    room.bpm = 0;
    assert!(!room.has_count_in());
    room.bpm = 1;
    room.counts = 1491;
    assert!(room.has_count_in());
    room.counts = 1492;
    assert!(!room.has_count_in());
}

#[test]
fn a_recording_starts_before_the_backing_track() {
    assert!(has_start_place(480000, 2));
    assert_eq!(start_place(480000, 2), -960000);
    assert_eq!(start_place(0, 2), 0);
    assert_eq!(start_place(u32::MAX, 3), 3);
    assert!(!has_start_place(1 << 31, 1));
    assert!(!has_start_place(i32::MAX as u32, 2));
    assert!(has_start_place(i32::MAX as u32, 1));
}

#[test]
fn the_backing_track_follows_the_count_in() {
    let place = start_place(3, 2);
    let mut source = MultisyncSource::start(vec![], &vec![], 2, vec![1], place);
    source.syncing = false;
    for _ in 0..6 {
        let _ = source.play_on(false);
    }
    assert_eq!(source.backing_index, 0);
    assert_eq!(source.current_channel, 0);
    assert_eq!(source.play_on(false), (1, 1));
}

#[test]
fn a_recording_is_prepared() {
    let mut room = room_of(&["ann"]);
    room.take_metronome(Some("120".to_string()), 2);
    let (beats, up, tick) = (vec![0, 2], vec![1, 0], vec![2, 0]);
    assert!(room.can_prepare(&beats, &up, &tick));
    let users = vec![(open_stream().1, "ann".to_string())];
    match room.prepare(users, vec![5], &beats, &up, &tick) {
        Ok((message, AudioMessage::StartRecording(users, offsets, channels, backing, index))) => {
            assert_eq!(message, text("srt:480000"));
            assert_eq!(users.len(), 1);
            assert_eq!(offsets, vec![5]);
            assert_eq!(channels, 1);
            assert_eq!(backing, vec![1, 0, 2]);
            assert_eq!(index, -480000);
        }
        _ => panic!("no recording"),
    }
}

#[test]
fn an_audience_that_hears_no_track_gets_none() {
    let mut room = Room::new();
    room.take_metronome(Some("120".to_string()), 0);
    let (beats, none) = (vec![0, 2], vec![]);
    assert!(!room.can_prepare(&beats, &none, &none));
    room.audience_hears = false;
    assert!(room.can_prepare(&beats, &none, &none));
    match room.prepare(vec![], vec![], &beats, &none, &none) {
        Ok((_, AudioMessage::StartRecording(_, _, channels, backing, _))) => {
            assert_eq!(channels, 1);
            assert_eq!(backing, Vec::<i16>::new());
        }
        _ => panic!("no recording"),
    }
}

/// A WAV file of 16-bit samples that says it holds `len` bytes of them.
fn wav(channels: u8, len: u8, data: &[u8]) -> Backing {
    let mut bytes = vec![];
    bytes.extend_from_slice(b"RIFF\x24\0\0\0WAVEfmt \x10\0\0\0\x01\0");
    bytes.extend_from_slice(&[channels, 0]);
    bytes.extend_from_slice(&48000u32.to_le_bytes());
    bytes.extend_from_slice(&(96000 * channels as u32).to_le_bytes());
    bytes.extend_from_slice(&[2 * channels, 0, 16, 0]);
    bytes.extend_from_slice(b"data");
    bytes.extend_from_slice(&[len, 0, 0, 0]);
    bytes.extend_from_slice(data);
    Backing::File(bytes)
}

#[test]
fn a_recording_can_fail_to_start() {
    let none = vec![];
    let mut room = Room::new();
    room.bpm = 2;
    room.counts = 1000;
    room.backing = wav(2, 0, &[]);
    assert!(room.can_prepare(&vec![], &none, &none));
    assert_eq!(
        room.prepare(vec![], vec![], &vec![], &none, &none).err(),
        Some(StartFault::TooFar)
    );
    room.counts = 1;
    room.backing = wav(1, 4, &[1, 0]);
    assert_eq!(
        room.prepare(vec![], vec![], &vec![], &none, &none).err(),
        Some(StartFault::Backing(DecodeFault::BadSample))
    );
    room.backing = wav(2, 4, &[1, 0, 2, 0]);
    match room.prepare(vec![], vec![], &vec![], &none, &none) {
        Ok((_, AudioMessage::StartRecording(_, _, channels, backing, index))) => {
            assert_eq!((channels, backing, index), (2, vec![1, 2], -2880000));
        }
        _ => panic!("no recording"),
    }
}

#[test]
fn a_metronome_needs_a_tempo() {
    let mut room = Room::new();
    assert!(!room.take_metronome(None, 4));
    assert!(matches!(&room.backing, Backing::File(f) if f.is_empty()));
    assert!(room.take_metronome(Some("92.5".to_string()), 3));
    assert_eq!(room.info_messages(true)[5], text("met:92.5:3"));
}

#[test]
fn users_who_only_come_are_listed_in_order() {
    let room = room_of(&["dee", "cy", "bob", "ann"]);
    assert_eq!(room.list_numbers(), vec![0, 1, 2, 3]);
    assert_eq!(room.info_messages(false)[0], text("onl:dee, cy, bob, ann"));
}

#[test]
fn the_place_that_was_given_up_last_is_taken_first() {
    let mut room = room_of(&["ann", "bob", "cy"]);
    room.leave(0);
    room.leave(1);
    assert_eq!(room.join(), 3);
    assert_eq!(room.list_numbers(), vec![3, 2]);
    assert_eq!(room.join(), 4);
    assert_eq!(room.list_numbers(), vec![4, 3, 2]);
    assert_eq!(room.join(), 5);
    assert_eq!(room.list_numbers(), vec![4, 3, 2, 5]);
}

#[test]
fn places_of_those_let_go_are_given_up_in_order() {
    let mut room = room_of(&["ann", "bob", "cy"]);
    let gone = vec![room.people[2].key, room.people[0].key];
    room.let_go(&gone);
    assert_eq!(room.list_numbers(), vec![1]);
    assert_eq!(room.join(), 3);
    assert_eq!(room.list_numbers(), vec![1, 3]);
    assert_eq!(room.join(), 4);
    assert_eq!(room.list_numbers(), vec![4, 1, 3]);
}
