use multisync::broadcast::Broadcast;
use multisync::message::{number_message, text_message, Message};

fn two_messages() -> Vec<Message> {
    vec![text_message("bck:"), number_message("cnt:", 4)]
}

#[test]
fn everybody_gets_every_message_in_order() {
    let mut round = Broadcast::new(vec![(11, 0), (12, 3)], two_messages());
    let mut sends = Vec::new();
    while let Some(send) = round.next_send() {
        sends.push(send);
        round.report(true);
    }
    assert_eq!(sends, vec![(0, 0), (0, 1), (3, 0), (3, 1)]);
    assert_eq!(round.gone, Vec::<u64>::new());
    assert_eq!(round.messages[1], Message::Text("cnt:4".to_string()));
}

#[test]
fn who_refuses_a_message_gets_no_further_one() {
    let mut round = Broadcast::new(vec![(11, 0), (12, 3), (13, 5)], two_messages());
    round.report(false);
    assert_eq!(round.next_send(), Some((3, 0)));
    round.report(true);
    round.report(false);
    assert_eq!(round.next_send(), Some((5, 0)));
    round.report(true);
    round.report(true);
    assert_eq!(round.next_send(), None);
    assert_eq!(round.gone, vec![11, 12]);
    round.report(false);
    assert_eq!(round.gone, vec![11, 12]);
}

#[test]
fn a_round_without_messages_or_users_is_over() {
    assert_eq!(Broadcast::new(vec![(11, 0)], vec![]).next_send(), None);
    assert_eq!(Broadcast::new(vec![], two_messages()).next_send(), None);
}
