use multisync::envelope::{SECOND, SECTIONS};
use multisync::message::Message;
use multisync::packet::write_audio;
use multisync::source::{Controls, MultisyncSource, NO_OVERRIDE, SHIFT_CODE};
use multisync::stream::{open_stream, Stream, STOPPED_LAG};

fn user(name: &str, samples: &[i16]) -> (Stream, String) {
    let (mut producer, stream) = open_stream();
    assert!(write_audio(&mut producer, 0, &samples.to_vec(), samples.len()).is_ok());
    (stream, name.to_string())
}

fn quiet() -> Controls {
    Controls { stop_sync: false, override_code: NO_OVERRIDE, stopping: false }
}

/// A source whose syncing phase is over.
fn recording(
    users: Vec<(Stream, String)>,
    channels: u16,
    backing: Vec<i16>,
    backing_index: i32,
) -> MultisyncSource {
    let offsets = vec![0usize; users.len()];
    let mut source = MultisyncSource::start(users, &offsets, channels, backing, backing_index);
    source.syncing = false;
    source
}

fn outputs(source: &mut MultisyncSource, controls: &Controls, n: usize) -> Vec<Option<i16>> {
    let mut r = Vec::new();
    for _ in 0..n {
        assert!(source.can_take(controls));
        r.push(source.next(controls).output);
    }
    r
}

#[test]
fn users_are_mixed() {
    let users = vec![user("ann", &[100, -50]), user("bob", &[1, 2]), user("cy", &[10, 20])];
    let mut source = recording(users, 1, vec![], 0);
    let tick = source.next(&quiet());
    assert_eq!(tick.user_samples, vec![100, 1, 10]);
    assert_eq!(tick.total_sample, Some(111));
    assert_eq!(tick.output, Some(111));
    assert_eq!(tick.backing_sample, Some(0));
    assert_eq!(tick.messages, Vec::<Message>::new());
    assert_eq!(source.next(&quiet()).output, Some(-28));
}

#[test]
fn the_mix_saturates_user_by_user() {
    let users = vec![user("a", &[30000, -30000]), user("b", &[30000, -30000]), user("c", &[-1, 1])];
    let mut source = recording(users, 1, vec![], 0);
    assert_eq!(outputs(&mut source, &quiet(), 2), vec![Some(32766), Some(-32767)]);
}

#[test]
fn the_backing_track_is_mixed_in() {
    let mut source = recording(vec![user("ann", &[1, 2, 3, 4])], 1, vec![100, 32767], -1);
    assert_eq!(
        outputs(&mut source, &quiet(), 4),
        vec![Some(1), Some(102), Some(32767), Some(4)]
    );
}

#[test]
fn users_are_heard_in_every_channel() {
    let mut source = recording(vec![user("ann", &[10, 20])], 2, vec![1, 2, 3, 4], 0);
    assert_eq!(
        outputs(&mut source, &quiet(), 4),
        vec![Some(11), Some(12), Some(23), Some(24)]
    );
    assert_eq!(source.current_channel, 0);
    assert_eq!(source.backing_index, 4);
}

#[test]
fn the_tracks_of_the_users_get_a_sample_at_the_first_channel_only() {
    let mut source = recording(vec![user("ann", &[10])], 2, vec![], 0);
    assert_eq!(source.next(&quiet()).user_samples, vec![10]);
    assert_eq!(source.next(&quiet()).user_samples, Vec::<i16>::new());
}

#[test]
fn one_user_can_be_played_alone() {
    let users = vec![user("ann", &[10, 11]), user("bob", &[20, 21])];
    let mut source = recording(users, 2, vec![1, 2, 3, 4], 0);
    let alone = Controls { override_code: 1, ..quiet() };
    let tick = source.next(&alone);
    assert_eq!(tick.output, Some(20));
    assert_eq!(tick.backing_sample, Some(0));
    assert_eq!(tick.user_samples, Vec::<i16>::new());
    assert!(!tick.shifted);
    assert_eq!(source.next(&alone).output, Some(22));
    assert_eq!(source.users[0].0.buffered(), 2);
    assert_eq!(source.users[1].0.buffered(), 1);
}

#[test]
fn a_shift_moves_one_stream() {
    let users = vec![user("ann", &[10, 11, 12]), user("bob", &[20, 21, 22])];
    let mut source = recording(users, 1, vec![5], 0);
    source.last_mono = 7;
    let later = Controls { override_code: SHIFT_CODE + 1 + 256 * 2, ..quiet() };
    assert!(source.can_take(&later));
    let tick = source.next(&later);
    assert!(tick.shifted);
    assert_eq!(tick.output, Some(12));
    assert_eq!(source.users[1].0.current_lag(), 2);
    assert_eq!(source.next(&quiet()).user_samples, vec![10, 22]);
}

#[test]
fn a_shift_can_be_negative() {
    let mut source = recording(vec![user("ann", &[10])], 1, vec![], 0);
    let earlier = Controls { override_code: SHIFT_CODE + 256 * 0xffff, ..quiet() };
    assert!(source.next(&earlier).shifted);
    assert_eq!(source.users[0].0.current_lag(), -1);
    assert_eq!(outputs(&mut source, &quiet(), 2), vec![Some(0), Some(10)]);
}

#[test]
fn a_shift_waits_for_the_first_channel() {
    let mut source = recording(vec![user("ann", &[10])], 2, vec![], 0);
    let _ = source.next(&quiet());
    let shift = Controls { override_code: SHIFT_CODE, ..quiet() };
    assert!(!source.next(&shift).shifted);
    assert!(source.next(&shift).shifted);
}

#[test]
fn a_shift_has_to_name_a_user() {
    let source = recording(vec![user("ann", &[10])], 1, vec![], 0);
    let nobody = Controls { override_code: SHIFT_CODE + 1, ..quiet() };
    assert!(!source.can_take(&nobody));
    let mut second = recording(vec![user("ann", &[10])], 2, vec![], 0);
    let _ = second.next(&quiet());
    assert!(second.can_take(&nobody));
}

#[test]
fn counters_at_their_limits_are_not_taken_further() {
    let mut source = recording(vec![user("ann", &[])], 1, vec![], i32::MAX);
    assert!(!source.can_take(&quiet()));
    source.backing_index = 0;
    assert!(source.can_take(&quiet()));
    source.users[0].0.shift(isize::MAX);
    assert!(!source.can_take(&quiet()));
    let earlier = Controls { override_code: SHIFT_CODE + 256 * 0xffff, ..quiet() };
    let later = Controls { override_code: SHIFT_CODE + 256, ..quiet() };
    assert!(source.can_take(&earlier));
    assert!(!source.can_take(&later));
    source.users[0].0.shift(isize::MIN);
    source.users[0].0.shift(isize::MIN + 1);
    assert!(source.can_take(&quiet()));
    assert!(!source.can_take(&earlier));
}

#[test]
fn the_recording_ends_when_everybody_has_stopped() {
    let users = vec![user("ann", &[]), user("bob", &[1])];
    let mut source = recording(users, 1, vec![5, 6], 0);
    source.users[0].0.shift(STOPPED_LAG);
    let stop = Controls { stopping: true, ..quiet() };
    assert_eq!(outputs(&mut source, &stop, 3), vec![Some(6), Some(6), Some(0)]);
    source.users[1].0.shift(STOPPED_LAG);
    let tick = source.next(&stop);
    assert_eq!(tick.output, None);
    assert_eq!(tick.total_sample, None);
    assert_eq!(tick.backing_sample, None);
    assert_eq!(tick.user_samples, vec![0, 0]);
}

#[test]
fn nothing_ends_unasked() {
    let mut source = recording(vec![user("ann", &[])], 1, vec![], 0);
    source.users[0].0.shift(2 * STOPPED_LAG);
    assert_eq!(source.next(&quiet()).output, Some(0));
}

#[test]
fn the_backing_track_is_played_to_its_end() {
    let mut source = recording(vec![], 1, vec![5, 6], 0);
    let stop = Controls { stopping: true, ..quiet() };
    assert_eq!(outputs(&mut source, &stop, 3), vec![Some(5), Some(6), None]);
}

#[test]
fn a_user_who_is_played_alone_ends_the_recording() {
    let users = vec![user("ann", &[1, 2]), user("bob", &[])];
    let mut source = recording(users, 1, vec![5, 6], 0);
    source.users[1].0.shift(STOPPED_LAG);
    let stop = Controls { stopping: true, override_code: 1, ..quiet() };
    assert_eq!(source.next(&stop).output, None);
    let other = Controls { stopping: true, override_code: 0, ..quiet() };
    assert_eq!(source.next(&other).output, Some(1));
}

#[test]
fn the_answers_decide_on_the_end() {
    let source = recording(vec![], 1, vec![], 0);
    assert!(source.ends(true, false, &vec![true, true]));
    assert!(!source.ends(true, false, &vec![true, false]));
    assert!(!source.ends(false, false, &vec![true]));
    let early = recording(vec![], 1, vec![1], 0);
    assert!(!early.ends(true, false, &vec![true]));
    assert!(early.ends(true, true, &vec![true]));
    assert!(!early.ends(true, true, &vec![false]));
}

#[test]
fn offsets_make_streams_late() {
    let users = vec![user("ann", &[1, 2, 3]), user("bob", &[4, 5, 6])];
    let source = MultisyncSource::start(users, &vec![2, 0], 2, vec![9], -4);
    assert!(source.syncing);
    assert_eq!(source.users[0].0.current_lag(), 2);
    assert_eq!(source.users[1].0.current_lag(), 0);
    assert_eq!(source.users[1].1, "bob");
    assert_eq!(source.channels(), 2);
    assert_eq!(source.sample_rate(), 48000);
    assert_eq!(source.backing_index, -4);
    assert_eq!(source.backing, vec![9]);
}

#[test]
fn offsets_have_to_fit() {
    let mut users = vec![user("ann", &[]), user("bob", &[])];
    assert!(MultisyncSource::can_start(&users, &vec![0, usize::MAX]));
    users[1].0.shift(1);
    assert!(MultisyncSource::can_start(&users, &vec![0, usize::MAX]));
    assert!(!MultisyncSource::can_start(&users, &vec![0, isize::MAX as usize]));
    assert!(MultisyncSource::can_start(&users, &vec![isize::MAX as usize]));
}

#[test]
fn each_second_of_syncing_sends_the_outlines() {
    let users = vec![user("ann", &[512; SECOND]), user("bob", &[-1; 10])];
    let mut source = MultisyncSource::start(users, &vec![0, 0], 1, vec![], 0);
    let tick = source.next(&quiet());
    assert_eq!(tick.output, Some(0));
    assert_eq!(tick.total_sample, None);
    assert_eq!(tick.messages.len(), 3);
    assert_eq!(tick.messages[0], Message::Text("syncnewf".to_string()));
    assert_eq!(tick.messages[1], Message::Binary(vec![2; 2 * SECTIONS]));
    let mut bob = vec![0u8; 2 * SECTIONS];
    bob[0] = 255;
    bob[SECTIONS] = 255;
    assert_eq!(tick.messages[2], Message::Binary(bob));
    assert_eq!(source.users[0].0.current_lag(), 0);
    assert_eq!(source.users[1].0.current_lag(), SECOND as isize - 10);
    assert_eq!(source.syncing_index, 1);
    for _ in 1..SECOND {
        let tick = source.next(&quiet());
        assert_eq!(tick.messages.len(), 0);
        assert_eq!(tick.output, Some(0));
    }
    assert_eq!(source.syncing_index, 0);
    assert_eq!(source.next(&quiet()).messages.len(), 3);
    assert_eq!(source.sync_seconds, 2);
}

#[test]
fn syncing_ends_after_its_notice() {
    let mut source = MultisyncSource::start(vec![], &vec![], 1, vec![77], 0);
    assert!(source.wants_stop_sync());
    let stop = Controls { stop_sync: true, ..quiet() };
    let tick = source.next(&stop);
    assert_eq!(tick.messages[0], Message::Text("syncstop8".to_string()));
    assert_eq!(tick.messages[1], Message::Text("syncnewf".to_string()));
    assert_eq!(source.stop_syncing_seconds, 9);
    for _ in 1..8 * SECOND {
        assert_eq!(source.next(&quiet()).output, Some(0));
    }
    assert!(source.syncing);
    assert_eq!(source.next(&quiet()).output, Some(77));
    assert!(!source.syncing);
    assert_eq!(source.sync_seconds, 9);
}

#[test]
fn the_end_of_syncing_is_heard_in_odd_seconds() {
    let mut source = MultisyncSource::start(vec![], &vec![], 1, vec![], 0);
    for _ in 0..SECOND {
        let _ = source.next(&quiet());
    }
    assert!(!source.wants_stop_sync());
    let stop = Controls { stop_sync: true, ..quiet() };
    assert_eq!(source.next(&stop).messages, vec![Message::Text("syncnewf".to_string())]);
    assert_eq!(source.stop_syncing_seconds, 0);
}

#[test]
fn a_shift_is_carried_out_while_syncing() {
    let users = vec![user("ann", &[0; 20])];
    let mut source = MultisyncSource::start(users, &vec![0], 1, vec![], 0);
    source.syncing_index = 5;
    let later = Controls { override_code: SHIFT_CODE + 256 * 20, ..quiet() };
    let tick = source.next(&later);
    assert!(tick.shifted);
    assert_eq!(tick.output, Some(0));
    assert_eq!(source.users[0].0.current_lag(), 20);
    assert_eq!(source.syncing_index, 6);
}

#[test]
fn users_stay_in_step() {
    let (mut early, ann) = open_stream();
    let (mut late, bob) = open_stream();
    let users = vec![(ann, "ann".to_string()), (bob, "bob".to_string())];
    let mut source = recording(users, 1, vec![], 0);
    assert!(write_audio(&mut early, 0, &vec![11, 12, 13, 14, 15], 5).is_ok());
    assert_eq!(source.next(&quiet()).user_samples, vec![11, 0]);
    assert_eq!(source.next(&quiet()).user_samples, vec![12, 0]);
    assert!(write_audio(&mut late, 0, &vec![21, 22, 23, 24, 25], 5).is_ok());
    assert_eq!(source.next(&quiet()).user_samples, vec![13, 23]);
    assert_eq!(source.next(&quiet()).user_samples, vec![14, 24]);
}

#[test]
fn syncing_keeps_step() {
    let users = vec![user("ann", &[7; SECOND + 2]), user("bob", &[8; SECOND + 2])];
    let mut source = MultisyncSource::start(users, &vec![0, 0], 1, vec![], 0);
    let shift = Controls { override_code: SHIFT_CODE + 1 + 256, ..quiet() };
    let _ = source.next(&shift);
    assert_eq!(source.users[0].0.buffered(), 2);
    assert_eq!(source.users[1].0.buffered(), 1);
    assert_eq!(source.users[1].0.current_lag(), 0);
}
