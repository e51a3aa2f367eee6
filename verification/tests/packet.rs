use multisync::packet::{cut_into_words, write_audio, RingFull};
use multisync::session::Session;
use multisync::stream::{open_stream, RING_CAPACITY};

fn session_at(current_time: usize, packet_time: Option<usize>) -> Session {
    let mut session = Session::new(0);
    session.current_time = current_time;
    session.packet_time = packet_time;
    session
}

#[test]
fn words_have_their_lowest_byte_first() {
    assert_eq!(
        cut_into_words(&vec![1, 2, 3, 4, 0, 0, 128, 63]),
        vec![0x0403_0201, 0x3f80_0000]
    );
    assert_eq!(f32::from_bits(0x3f80_0000), 1.0);
    assert_eq!(cut_into_words(&vec![]), Vec::<u32>::new());
    assert_eq!(cut_into_words(&vec![255, 255, 255, 255]), vec![u32::MAX]);
}

#[test]
fn a_packet_without_a_time_is_taken_as_it_is() {
    let mut session = session_at(10, None);
    let timed = session.bring_into_time(vec![1, 2, 3]);
    assert_eq!(timed.silence, 0);
    assert_eq!(timed.samples, vec![1, 2, 3]);
    assert_eq!(timed.label, None);
    assert_eq!(session.current_time, 13);
}

#[test]
fn a_packet_in_time_is_taken_as_it_is() {
    let mut session = session_at(10, Some(10));
    let timed = session.bring_into_time(vec![1, 2]);
    assert_eq!(timed.silence, 0);
    assert_eq!(timed.samples, vec![1, 2]);
    assert_eq!(timed.label, Some(10));
    assert_eq!(session.current_time, 12);
    assert_eq!(session.packet_time, None);
}

#[test]
fn silence_comes_before_a_packet_that_is_early() {
    let mut session = session_at(10, Some(14));
    let timed = session.bring_into_time(vec![1, 2]);
    assert_eq!(timed.silence, 4);
    assert_eq!(timed.samples, vec![1, 2]);
    assert_eq!(session.current_time, 12);
}

#[test]
fn a_packet_that_is_late_is_cut() {
    let mut session = session_at(10, Some(8));
    let timed = session.bring_into_time(vec![1, 2, 3, 4, 5]);
    assert_eq!(timed.silence, 0);
    assert_eq!(timed.samples, vec![3, 4, 5]);
    assert_eq!(timed.label, Some(8));
    assert_eq!(session.current_time, 13);
}

#[test]
fn nothing_is_left_of_a_packet_that_is_over() {
    let mut session = session_at(10, Some(2));
    let timed = session.bring_into_time(vec![1, 2, 3]);
    assert_eq!(timed.samples, Vec::<i16>::new());
    assert_eq!(session.current_time, 10);
}

#[test]
fn only_as_much_can_be_taken_as_there_is() {
    let session = session_at(10, Some(8));
    assert!(session.can_take_audio(&vec![1, 2, 3], 3));
    assert!(!session.can_take_audio(&vec![1, 2, 3], 4));
    assert!(session.can_take_audio(&vec![1, 2], 0));
    assert!(!session_at(usize::MAX, None).can_take_audio(&vec![1], 0));
    assert!(session_at(usize::MAX - 1, None).can_take_audio(&vec![1], 1));
}

#[test]
fn less_is_added_of_a_packet_that_is_late() {
    let (mut producer, mut stream) = open_stream();
    let mut session = session_at(10, Some(8));
    assert!(session.can_take_audio(&vec![1, 2, 3, 4], 4));
    assert_eq!(session.take_audio(&mut producer, vec![1, 2, 3, 4], 4), Ok(Some(8)));
    assert_eq!(session.current_time, 12);
    assert_eq!(stream.buffered(), 2);
    assert_eq!(stream.pop_many(2), vec![3, 4]);
    session.packet_time = Some(11);
    assert_eq!(session.take_audio(&mut producer, vec![5, 6, 7], 1), Ok(Some(11)));
    assert_eq!(session.current_time, 14);
    assert_eq!(stream.pop(), 6);
    session.packet_time = Some(1);
    assert_eq!(session.take_audio(&mut producer, vec![8, 9], 2), Ok(Some(1)));
    assert_eq!(stream.buffered(), 0);
}

#[test]
fn packets_follow_each_other() {
    let (mut producer, mut stream) = open_stream();
    assert_eq!(write_audio(&mut producer, 1, &vec![2, 3], 2), Ok(()));
    assert_eq!(write_audio(&mut producer, 2, &vec![4], 1), Ok(()));
    assert_eq!(stream.pop_many(6), vec![0, 2, 3, 0, 0, 4]);
}

#[test]
fn audio_is_written_behind_its_silence() {
    let (mut producer, mut stream) = open_stream();
    let mut session = session_at(0, Some(2));
    assert!(session.can_take_audio(&vec![7, 8, 9], 2));
    assert_eq!(session.take_audio(&mut producer, vec![7, 8, 9], 2), Ok(Some(2)));
    assert_eq!(session.current_time, 3);
    assert_eq!(stream.buffered(), 4);
    assert_eq!(stream.pop_many(4), vec![0, 0, 7, 8]);
    assert_eq!(session.take_audio(&mut producer, vec![4], 1), Ok(None));
    assert_eq!(stream.pop(), 4);
}

#[test]
fn silence_needs_room() {
    let (mut producer, _stream) = open_stream();
    let mut session = session_at(0, Some(RING_CAPACITY + 1));
    assert_eq!(session.take_audio(&mut producer, vec![], 0), Err(RingFull));
    let (mut other, mut stream) = open_stream();
    assert_eq!(write_audio(&mut other, RING_CAPACITY, &vec![5], 1), Ok(()));
    assert_eq!(stream.buffered(), RING_CAPACITY);
}

#[test]
fn a_packet_is_heard_as_it_was_sent() {
    let (mut producer, mut stream) = open_stream();
    let mut session = session_at(0, None);
    assert_eq!(session.take_audio(&mut producer, vec![1, 2], 2), Ok(None));
    assert_eq!(stream.pop_many(3), vec![1, 2, 0]);
    session.packet_time = Some(3);
    assert_eq!(session.take_audio(&mut producer, vec![5, 6, 7], 3), Ok(Some(3)));
    assert_eq!(stream.pop_many(3), vec![5, 6, 7]);
    assert_eq!(stream.current_lag(), 0);
}
