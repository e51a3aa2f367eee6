use multisync::audio::AudioMessage;
use multisync::backing::Backing;
use multisync::message::Message;
use multisync::room::Room;
use multisync::session::{Reaction, Session};

fn text(s: &str) -> Message {
    Message::Text(s.to_string())
}

fn two_users() -> (Room, Session) {
    let mut room = Room::new();
    let _ = room.join();
    let id = room.join();
    (room, Session::new(id))
}

fn send(session: &mut Session, room: &mut Room, s: &str) -> Reaction {
    assert!(session.can_receive(room, &text(s)));
    session.receive(room, text(s), false)
}

#[test]
fn a_ping_is_answered() {
    let (mut room, mut session) = two_users();
    match session.receive(&mut room, Message::Ping(vec![1, 2]), true) {
        Reaction::Reply(m) => assert_eq!(m, Message::Pong(vec![1, 2])),
        _ => panic!("no reply"),
    }
    assert!(matches!(
        session.receive(&mut room, Message::Pong(vec![]), false),
        Reaction::Nothing
    ));
    assert!(matches!(session.receive(&mut room, Message::Close, false), Reaction::Leave));
}

#[test]
fn a_user_takes_a_name() {
    let (mut room, mut session) = two_users();
    assert!(matches!(send(&mut session, &mut room, "usr:bob"), Reaction::Announce(false)));
    assert_eq!(room.people[1].username, "bob");
    assert_eq!(room.people[0].username, "(user is connecting)");
}

#[test]
fn settings_change_the_room() {
    let (mut room, mut session) = two_users();
    assert!(matches!(send(&mut session, &mut room, "bpm:90"), Reaction::Announce(false)));
    assert!(matches!(send(&mut session, &mut room, "cnt:3"), Reaction::Announce(false)));
    assert!(matches!(
        send(&mut session, &mut room, "buf:9"),
        Reaction::AnnounceAndTell(AudioMessage::MinBuf(9))
    ));
    assert!(matches!(send(&mut session, &mut room, "nbk:"), Reaction::Announce(false)));
    assert_eq!((room.bpm, room.counts, room.min_buf_len), (90, 3, 9));
    assert!(!room.audience_hears);
    assert!(matches!(send(&mut session, &mut room, "abk:"), Reaction::Announce(false)));
    assert!(room.audience_hears);
    assert!(matches!(send(&mut session, &mut room, "bpm:fast"), Reaction::Nothing));
    assert_eq!(room.bpm, 90);
    assert!(matches!(send(&mut session, &mut room, "off:44"), Reaction::Nothing));
    assert_eq!((room.people[0].offset, room.people[1].offset), (0, 44));
}

#[test]
fn a_metronome_is_proposed() {
    let (mut room, mut session) = two_users();
    match send(&mut session, &mut room, "met:92.5:3") {
        Reaction::TakeMetronome(tempo, sig) => assert_eq!((tempo.as_str(), sig), ("92.5", 3)),
        _ => panic!("no metronome"),
    }
}

#[test]
fn a_recording_is_started_and_stopped() {
    let (mut room, mut session) = two_users();
    assert!(matches!(send(&mut session, &mut room, "srt:"), Reaction::Start));
    assert!(matches!(
        send(&mut session, &mut room, "sts:"),
        Reaction::Tell(AudioMessage::StopSync)
    ));
    assert!(matches!(send(&mut session, &mut room, "stp:t"), Reaction::Nothing));
    assert!(matches!(session.receive(&mut room, text("stp:t"), true), Reaction::Stop(true)));
    assert!(matches!(session.receive(&mut room, text("stp:"), true), Reaction::Stop(false)));
}

#[test]
fn times_are_kept_until_the_end() {
    let (mut room, mut session) = two_users();
    assert!(matches!(send(&mut session, &mut room, "tim:77"), Reaction::Nothing));
    assert_eq!(session.packet_time, Some(77));
    session.current_time = 5;
    assert!(matches!(send(&mut session, &mut room, "end:"), Reaction::EndTimes));
    assert_eq!(session.packet_time, None);
    assert_eq!(session.current_time, 0);
}

#[test]
fn audio_may_be_packed() {
    let (mut room, mut session) = two_users();
    assert!(!session.using_opus);
    assert!(matches!(send(&mut session, &mut room, "ops:"), Reaction::Nothing));
    assert!(session.using_opus);
    assert!(matches!(send(&mut session, &mut room, "nps:"), Reaction::Nothing));
    assert!(!session.using_opus);
}

#[test]
fn an_emergency_names_a_place() {
    let (mut room, mut session) = two_users();
    let _ = send(&mut session, &mut room, "usr:bob");
    let _ = room.call_up(&vec![true, true]);
    assert!(matches!(
        send(&mut session, &mut room, "emg:bob"),
        Reaction::Tell(AudioMessage::Override(1))
    ));
    assert!(matches!(
        send(&mut session, &mut room, "emg:(user is connecting):256"),
        Reaction::Tell(AudioMessage::Override(256))
    ));
    assert!(matches!(
        send(&mut session, &mut room, "emg:nobody:2"),
        Reaction::Tell(AudioMessage::Override(3))
    ));
    assert!(session.can_receive(&room, &text("emg:x:18446744073709551614")));
    assert!(!session.can_receive(&room, &text("emg:x:18446744073709551615")));
    assert!(!session.can_receive(&room, &text("emg:x:")));
    assert!(!session.can_receive(&room, &text("usr\u{e9}")));
}

#[test]
fn a_file_that_was_announced_is_the_backing_track() {
    let (mut room, mut session) = two_users();
    let file = Message::Binary(vec![1, 2, 3]);
    assert!(matches!(session.receive(&mut room, file.clone(), false), Reaction::Nothing));
    assert!(matches!(send(&mut session, &mut room, "bck:"), Reaction::Nothing));
    match session.receive(&mut room, file.clone(), true) {
        Reaction::TakeAudio(bytes) => assert_eq!(bytes, vec![1, 2, 3]),
        _ => panic!("no audio"),
    }
    assert!(session.sending_backing);
    assert!(matches!(session.receive(&mut room, file.clone(), false), Reaction::Announce(true)));
    assert!(!session.sending_backing);
    assert!(matches!(&room.backing, Backing::File(f) if *f == vec![1, 2, 3]));
    assert!(matches!(session.receive(&mut room, file, false), Reaction::Nothing));
}
