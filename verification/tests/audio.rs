use multisync::audio::{
    audio_handler, first_short, has_buffer, index_message, AudioAction, AudioMessage, AudioState,
    Warmup, WarmupStep, DEFAULT_MIN_BUF_LEN,
};
use multisync::message::Message;
use multisync::packet::write_audio;
use multisync::stream::{open_stream, Stream};

fn users(names: &[&str]) -> Vec<(Stream, String)> {
    names.iter().map(|name| (open_stream().1, name.to_string())).collect()
}

fn start(names: &[&str]) -> AudioMessage {
    AudioMessage::StartRecording(users(names), vec![3; names.len()], 2, vec![1, 2], -4)
}

#[test]
fn a_recording_starts_when_none_plays() {
    let mut state = AudioState::new();
    assert_eq!(state.minbuf, DEFAULT_MIN_BUF_LEN);
    match audio_handler(&mut state, start(&["ann", "bob"])) {
        AudioAction::Play(w) => {
            assert_eq!(w.index, Message::Text("idx:ann;bob".to_string()));
            assert!(!w.told);
            assert_eq!(w.ready, 0);
            assert_eq!(w.minbuf, 240000);
            assert_eq!(w.users.len(), 2);
            assert_eq!(w.users[1].1, "bob");
            assert_eq!(w.offsets, vec![3, 3]);
            assert_eq!(w.channels, 2);
            assert_eq!(w.backing, vec![1, 2]);
            assert_eq!(w.backing_index, -4);
        }
        _ => panic!("nothing plays"),
    }
    assert!(state.sink && state.overrider && state.syncer && state.stopper);
}

#[test]
fn a_second_recording_does_not_start() {
    let mut state = AudioState::new();
    let _ = audio_handler(&mut state, start(&["ann"]));
    let _ = audio_handler(&mut state, AudioMessage::StopRecording(false));
    assert!(matches!(audio_handler(&mut state, start(&["ann"])), AudioAction::Nothing));
    assert!(matches!(
        audio_handler(&mut state, AudioMessage::StopRecording(true)),
        AudioAction::Silence
    ));
    assert_eq!(state, AudioState::new());
    assert!(matches!(audio_handler(&mut state, start(&["ann"])), AudioAction::Play(_)));
}

#[test]
fn the_end_is_asked_for_once() {
    let mut state = AudioState::new();
    assert!(matches!(
        audio_handler(&mut state, AudioMessage::StopRecording(false)),
        AudioAction::Nothing
    ));
    let _ = audio_handler(&mut state, start(&[]));
    assert!(matches!(
        audio_handler(&mut state, AudioMessage::StopRecording(false)),
        AudioAction::AskToStop
    ));
    assert!(matches!(
        audio_handler(&mut state, AudioMessage::StopRecording(false)),
        AudioAction::Nothing
    ));
}

#[test]
fn the_end_of_syncing_is_asked_for_once() {
    let mut state = AudioState::new();
    assert!(matches!(audio_handler(&mut state, AudioMessage::StopSync), AudioAction::Nothing));
    let _ = audio_handler(&mut state, start(&[]));
    assert!(matches!(audio_handler(&mut state, AudioMessage::StopSync), AudioAction::AskToStopSync));
    assert!(matches!(audio_handler(&mut state, AudioMessage::StopSync), AudioAction::Nothing));
}

#[test]
fn an_override_belongs_to_a_recording() {
    let mut state = AudioState::new();
    assert!(matches!(audio_handler(&mut state, AudioMessage::Override(3)), AudioAction::Nothing));
    let _ = audio_handler(&mut state, start(&[]));
    assert!(matches!(
        audio_handler(&mut state, AudioMessage::Override(3)),
        AudioAction::SetOverride(3)
    ));
}

#[test]
fn the_buffer_length_is_kept() {
    let mut state = AudioState::new();
    assert!(matches!(audio_handler(&mut state, AudioMessage::MinBuf(7)), AudioAction::Nothing));
    let _ = audio_handler(&mut state, AudioMessage::StopRecording(true));
    assert_eq!(state.minbuf, 7);
    match audio_handler(&mut state, start(&[])) {
        AudioAction::Play(w) => assert_eq!(w.minbuf, 7),
        _ => panic!("nothing plays"),
    }
    assert!(matches!(audio_handler(&mut state, AudioMessage::Beep), AudioAction::Beep));
}

#[test]
fn the_index_lists_the_names() {
    assert_eq!(index_message(&users(&[])), Message::Text("idx:".to_string()));
    assert_eq!(index_message(&users(&["", "b", "c"])), Message::Text("idx:b;c".to_string()));
}

#[test]
fn a_recording_waits_for_samples() {
    let (mut producer, mut stream) = open_stream();
    assert!(has_buffer(&mut stream, 0));
    assert!(!has_buffer(&mut stream, 2));
    assert!(write_audio(&mut producer, 1, &vec![1], 1).is_ok());
    assert!(has_buffer(&mut stream, 2));
    assert!(!has_buffer(&mut stream, 3));
}

fn warmup(minbuf: usize, users: Vec<(Stream, String)>) -> Warmup {
    let offsets = vec![1; users.len()];
    let mut state = AudioState::new();
    let _ = audio_handler(&mut state, AudioMessage::MinBuf(minbuf));
    let message = AudioMessage::StartRecording(users, offsets, 1, vec![9], -2);
    match audio_handler(&mut state, message) {
        AudioAction::Play(w) => w,
        _ => panic!("nothing plays"),
    }
}

#[test]
fn everybody_is_waited_for() {
    let (mut ann_end, ann) = open_stream();
    let (mut bob_end, bob) = open_stream();
    let mut w = warmup(2, vec![(ann, "ann".to_string()), (bob, "bob".to_string())]);
    match w.step() {
        WarmupStep::Tell(m) => assert_eq!(m, Message::Text("idx:ann;bob".to_string())),
        _ => panic!("nobody is told"),
    }
    assert!(write_audio(&mut bob_end, 0, &vec![1], 1).is_ok());
    assert!(matches!(w.step(), WarmupStep::Wait(0)));
    assert!(write_audio(&mut ann_end, 0, &vec![5, 6, 7], 3).is_ok());
    assert!(matches!(w.step(), WarmupStep::Wait(1)));
    assert!(matches!(w.step(), WarmupStep::Wait(1)));
    assert!(!w.can_begin());
    assert!(write_audio(&mut bob_end, 0, &vec![2], 1).is_ok());
    assert!(matches!(w.step(), WarmupStep::Play));
    assert!(w.can_begin());
    let mut source = w.begin();
    assert!(source.syncing);
    assert_eq!(source.users[0].0.buffered(), 3);
    assert_eq!(source.users[1].0.buffered(), 2);
    assert_eq!(source.users[1].0.current_lag(), 1);
    assert_eq!(source.backing_index, -2);
}

#[test]
fn nobody_is_waited_for_without_need() {
    let mut w = warmup(0, users(&["ann"]));
    assert!(matches!(w.step(), WarmupStep::Tell(_)));
    assert!(matches!(w.step(), WarmupStep::Play));
    let mut w = warmup(5, vec![]);
    assert!(matches!(w.step(), WarmupStep::Tell(_)));
    assert!(matches!(w.step(), WarmupStep::Play));
}

#[test]
fn the_first_stream_that_is_short_is_found() {
    let mut list = users(&["ann", "bob", "cy"]);
    let (mut producer, stream) = open_stream();
    assert!(write_audio(&mut producer, 0, &vec![1, 2], 2).is_ok());
    list[1].0 = stream;
    assert_eq!(first_short(&mut list, 0, 1), Some(0));
    assert_eq!(first_short(&mut list, 1, 1), Some(2));
    assert_eq!(first_short(&mut list, 1, 3), Some(1));
    assert_eq!(first_short(&mut list, 3, 1), None);
    assert_eq!(first_short(&mut list, 0, 0), None);
}
