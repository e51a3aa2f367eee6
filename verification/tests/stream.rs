use multisync::packet::write_audio;
use multisync::stream::{open_stream, Stream, RING_CAPACITY, STOPPED_LAG};

fn stream_with(samples: &[i16]) -> Stream {
    let (mut producer, stream) = open_stream();
    assert!(write_audio(&mut producer, 0, &samples.to_vec(), samples.len()).is_ok());
    stream
}

#[test]
fn samples_come_in_order() {
    let mut stream = stream_with(&[5, -6, 7]);
    assert_eq!(stream.pop(), 5);
    assert_eq!(stream.pop(), -6);
    assert_eq!(stream.pop(), 7);
    assert_eq!(stream.current_lag(), 0);
}

#[test]
fn an_empty_ring_plays_silence_and_falls_behind() {
    let mut stream = stream_with(&[9]);
    assert_eq!(stream.pop(), 9);
    assert_eq!(stream.pop(), 0);
    assert_eq!(stream.pop(), 0);
    assert_eq!(stream.current_lag(), 2);
}

#[test]
fn samples_that_come_late_are_skipped() {
    let (mut producer, mut stream) = open_stream();
    assert_eq!(stream.pop(), 0);
    assert_eq!(stream.pop(), 0);
    assert!(write_audio(&mut producer, 0, &vec![1, 2, 3, 4], 4).is_ok());
    assert_eq!(stream.pop(), 3);
    assert_eq!(stream.current_lag(), 0);
    assert_eq!(stream.pop(), 4);
}

#[test]
fn a_lag_is_worked_off_as_far_as_samples_go() {
    let mut stream = stream_with(&[1, 2]);
    stream.shift(5);
    assert_eq!(stream.pop(), 0);
    assert_eq!(stream.current_lag(), 4);
    assert_eq!(stream.buffered(), 0);
}

#[test]
fn a_stream_that_is_early_waits_in_silence() {
    let mut stream = stream_with(&[8, 9]);
    stream.shift(-2);
    assert_eq!(stream.pop_many(4), vec![0, 0, 8, 9]);
    assert_eq!(stream.current_lag(), 0);
}

#[test]
fn playback_is_the_recording_shifted() {
    let mut stream = stream_with(&[10, 11, 12, 13, 14, 15]);
    stream.shift(2);
    assert_eq!(stream.pop_many(4), vec![12, 13, 14, 15]);
    assert_eq!(stream.current_lag(), 0);
}

#[test]
fn every_pop_is_one_moment() {
    let mut stream = stream_with(&[1, 2, 3]);
    stream.shift(1);
    let before = stream.buffered();
    let lag = stream.current_lag();
    let _ = stream.pop();
    let taken = (before - stream.buffered()) as isize;
    assert_eq!(stream.current_lag(), lag + 1 - taken);
}

#[test]
fn a_stream_stops_when_it_is_late_and_empty() {
    let mut stream = stream_with(&[]);
    stream.shift(STOPPED_LAG - 1);
    assert!(!stream.stopped());
    stream.shift(1);
    assert!(stream.stopped());
    assert!(stream.stopped_if(true));
    assert!(!stream.stopped_if(false));
}

#[test]
fn a_stream_with_samples_has_not_stopped() {
    let mut stream = stream_with(&[1]);
    stream.shift(STOPPED_LAG);
    assert!(!stream.stopped());
}

#[test]
fn a_draw_settles_the_moment() {
    let mut stream = stream_with(&[]);
    assert_eq!(stream.settle(Some(-3)), -3);
    assert_eq!(stream.current_lag(), 0);
    assert_eq!(stream.settle(None), 0);
    assert_eq!(stream.current_lag(), 1);
}

#[test]
fn the_ring_holds_its_capacity() {
    let (mut producer, mut stream) = open_stream();
    let many = vec![3i16; RING_CAPACITY + 5];
    assert!(write_audio(&mut producer, 0, &many, many.len()).is_ok());
    assert_eq!(stream.buffered(), RING_CAPACITY);
    assert!(write_audio(&mut producer, 1, &vec![], 0).is_err());
}

#[test]
fn a_stream_keeps_its_place() {
    let (mut producer, mut stream) = open_stream();
    let mut heard = Vec::new();
    for chunk in [vec![], vec![1, 2], vec![], vec![3, 4, 5], vec![6]] {
        assert!(write_audio(&mut producer, 0, &chunk, chunk.len()).is_ok());
        heard.push(stream.pop());
    }
    assert_eq!(heard, vec![0, 2, 0, 4, 5]);
}
