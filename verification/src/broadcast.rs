//! Sending the same messages to everybody in the room.

use crate::message::Message;
use vstd::prelude::*;

verus! {

/// A round of sending: each user gets the messages in order. A user whose connection refuses one
/// gets no further one and is given up.
pub struct Broadcast {
    /// Key and number of each user, in order.
    pub targets: Vec<(u64, usize)>,
    pub messages: Vec<Message>,
    /// The user whose turn it is.
    pub user: usize,
    /// The message whose turn it is.
    pub message: usize,
    /// The keys of the users who have been given up.
    pub gone: Vec<u64>,
}

/// How far a round of sending is.
pub ghost struct Progress {
    pub user: int,
    pub message: int,
    pub gone: Seq<u64>,
}

impl View for Broadcast {
    type V = Progress;

    open spec fn view(&self) -> Progress {
        Progress { user: self.user as int, message: self.message as int, gone: self.gone@ }
    }
}

/// The beginning of a round. It is over at once where there is no message.
pub open spec fn beginning(targets: Seq<(u64, usize)>, messages: nat) -> Progress {
    Progress {
        user: if messages == 0 {
            targets.len() as int
        } else {
            0
        },
        message: 0,
        gone: seq![],
    }
}

/// The next point of a round, after a message has been sent or refused.
pub open spec fn after_send(
    p: Progress,
    targets: Seq<(u64, usize)>,
    messages: nat,
    sent: bool,
) -> Progress {
    if p.user >= targets.len() {
        p
    } else if !sent {
        Progress { user: p.user + 1, message: 0, gone: p.gone.push(targets[p.user].0) }
    } else if p.message + 1 == messages {
        Progress { user: p.user + 1, message: 0, ..p }
    } else {
        Progress { message: p.message + 1, ..p }
    }
}

/// The point of a round after some messages have been sent or refused.
pub open spec fn after_sends(
    p: Progress,
    targets: Seq<(u64, usize)>,
    messages: nat,
    sends: Seq<bool>,
) -> Progress
    decreases sends.len(),
{
    if sends.len() == 0 {
        p
    } else {
        after_send(
            after_sends(p, targets, messages, sends.drop_last()),
            targets,
            messages,
            sends.last(),
        )
    }
}

/// What is reported of a user whose connection takes `taken` messages and no more.
pub open spec fn sends_to_one(messages: nat, taken: nat) -> Seq<bool> {
    if taken >= messages {
        Seq::new(messages, |i: int| true)
    } else {
        Seq::new(taken, |i: int| true).push(false)
    }
}

/// What is reported of all users in turn.
pub open spec fn sends_to_all(messages: nat, taken: Seq<nat>) -> Seq<bool>
    decreases taken.len(),
{
    if taken.len() == 0 {
        seq![]
    } else {
        sends_to_all(messages, taken.drop_last()) + sends_to_one(messages, taken.last())
    }
}

/// The keys of the first users, as many as `taken` is long, whose connections did not take all.
pub open spec fn lost(targets: Seq<(u64, usize)>, messages: nat, taken: Seq<nat>) -> Seq<u64>
    decreases taken.len(),
{
    if taken.len() == 0 {
        seq![]
    } else {
        let fore = lost(targets, messages, taken.drop_last());
        if taken.last() >= messages {
            fore
        } else {
            fore.push(targets[taken.len() - 1].0)
        }
    }
}

impl Broadcast {
    /// The round is at a message to a user, or it is over.
    pub open spec fn wf(self) -> bool {
        if self.user < self.targets@.len() {
            self.message < self.messages@.len()
        } else {
            self.user == self.targets@.len() && self.message == 0
        }
    }

    /// The round is over.
    pub open spec fn over(self) -> bool {
        self.user >= self.targets@.len()
    }

    pub fn new(targets: Vec<(u64, usize)>, messages: Vec<Message>) -> (b: Broadcast)
        ensures
            b.targets == targets,
            b.messages == messages,
            b@ == beginning(targets@, messages@.len()),
            b.wf(),
    {
        let user: usize = if messages.len() == 0 {
            targets.len()
        } else {
            0
        };
        Broadcast { targets, messages, user, message: 0, gone: Vec::new() }
    }

    /// The number of the user and the place of the message that are to be sent next.
    pub fn next_send(&self) -> (r: Option<(usize, usize)>)
        requires
            self.wf(),
        ensures
            r is None == self.over(),
            r matches Some((id, m)) ==> id == self.targets@[self.user as int].1 && m
                == self.message && m < self.messages@.len(),
    {
        if self.user < self.targets.len() {
            Some((self.targets[self.user].1, self.message))
        } else {
            None
        }
    }

    /// Notes that the message has been sent, or refused.
    pub fn report(&mut self, sent: bool)
        requires
            old(self).wf(),
        ensures
            final(self).targets == old(self).targets,
            final(self).messages == old(self).messages,
            final(self)@ == after_send(
                old(self)@,
                old(self).targets@,
                old(self).messages@.len(),
                sent,
            ),
            final(self).wf(),
    {
        let count: usize = self.messages.len();
        if self.user >= self.targets.len() {
            return;
        }
        if !sent {
            self.gone.push(self.targets[self.user].0);
            self.user = self.user + 1;
            self.message = 0;
        } else if self.message + 1 == count {
            self.user = self.user + 1;
            self.message = 0;
        } else {
            self.message = self.message + 1;
        }
    }
}

/// Reports in two parts come to the same as in one.
proof fn lemma_sends_concat(
    p: Progress,
    targets: Seq<(u64, usize)>,
    messages: nat,
    a: Seq<bool>,
    b: Seq<bool>,
)
    ensures
        after_sends(p, targets, messages, a + b) == after_sends(
            after_sends(p, targets, messages, a),
            targets,
            messages,
            b,
        ),
    decreases b.len(),
{
    if b.len() == 0 {
        assert(a + b =~= a);
    } else {
        assert((a + b).drop_last() =~= a + b.drop_last());
        lemma_sends_concat(p, targets, messages, a, b.drop_last());
    }
}

/// A user whose connection takes `k` messages, and there are more, is at the message after them.
proof fn lemma_sends_taken(p: Progress, targets: Seq<(u64, usize)>, messages: nat, k: nat)
    requires
        0 <= p.user < targets.len(),
        p.message == 0,
        k < messages,
    ensures
        after_sends(p, targets, messages, Seq::new(k, |i: int| true)) == (Progress {
            message: k as int,
            ..p
        }),
    decreases k,
{
    if k > 0 {
        let s = Seq::new(k, |i: int| true);
        assert(s.drop_last() =~= Seq::new((k - 1) as nat, |i: int| true));
        lemma_sends_taken(p, targets, messages, (k - 1) as nat);
    }
}

/// After a round, those users have been given up whose connections did not take all messages, and
/// no others. Each of the others has been sent all messages, and each of these the messages before
/// the one that was refused.
pub proof fn lemma_round(targets: Seq<(u64, usize)>, messages: nat, taken: Seq<nat>)
    requires
        messages > 0,
        taken.len() <= targets.len(),
    ensures
        after_sends(
            beginning(targets, messages),
            targets,
            messages,
            sends_to_all(messages, taken),
        ) == (Progress {
            user: taken.len() as int,
            message: 0,
            gone: lost(targets, messages, taken),
        }),
    decreases taken.len(),
{
    if taken.len() > 0 {
        let fore = taken.drop_last();
        let k = taken.last();
        lemma_round(targets, messages, fore);
        let p = after_sends(
            beginning(targets, messages),
            targets,
            messages,
            sends_to_all(messages, fore),
        );
        let one = sends_to_one(messages, k);
        lemma_sends_concat(
            beginning(targets, messages),
            targets,
            messages,
            sends_to_all(messages, fore),
            one,
        );
        if k >= messages {
            let n = (messages - 1) as nat;
            lemma_sends_taken(p, targets, messages, n);
            assert(one.drop_last() =~= Seq::new(n, |i: int| true));
        } else {
            lemma_sends_taken(p, targets, messages, k);
            assert(one.drop_last() =~= Seq::new(k, |i: int| true));
        }
    }
}

} // verus!
