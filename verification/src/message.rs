//! What goes over a connection.

use crate::text::tagged_number;
use vstd::prelude::*;

verus! {

/// A message of a websocket.
#[derive(Debug, PartialEq, Eq)]
pub enum Message {
    Text(String),
    Binary(Vec<u8>),
    Close,
    Ping(Vec<u8>),
    Pong(Vec<u8>),
}

/// What a message holds.
pub ghost enum Wire {
    Text(Seq<char>),
    Binary(Seq<u8>),
    Close,
    Ping(Seq<u8>),
    Pong(Seq<u8>),
}

impl View for Message {
    type V = Wire;

    open spec fn view(&self) -> Wire {
        match self {
            Message::Text(t) => Wire::Text(t@),
            Message::Binary(b) => Wire::Binary(b@),
            Message::Close => Wire::Close,
            Message::Ping(p) => Wire::Ping(p@),
            Message::Pong(p) => Wire::Pong(p@),
        }
    }
}

impl Clone for Message {
    /// The same message once more, for another user.
    fn clone(&self) -> (m: Message)
        ensures
            m@ == self@,
    {
        match self {
            Message::Text(t) => Message::Text(t.clone()),
            Message::Binary(b) => {
                let copy = b.clone();
                assert(copy@ =~= b@);
                Message::Binary(copy)
            },
            Message::Close => Message::Close,
            Message::Ping(p) => {
                let copy = p.clone();
                assert(copy@ =~= p@);
                Message::Ping(copy)
            },
            Message::Pong(p) => {
                let copy = p.clone();
                assert(copy@ =~= p@);
                Message::Pong(copy)
            },
        }
    }
}

/// What some messages hold, in order.
pub open spec fn wires(messages: Seq<Message>) -> Seq<Wire> {
    messages.map_values(|m: Message| m@)
}

/// A text message of a tag with a number behind it.
pub fn number_message(tag: &str, n: u64) -> (m: Message)
    ensures
        m@ == Wire::Text(tag@ + crate::text::decimal(n as nat)),
{
    Message::Text(tagged_number(tag, n))
}

/// A text message.
pub fn text_message(text: &str) -> (m: Message)
    ensures
        m@ == Wire::Text(text@),
{
    Message::Text(text.to_string())
}

} // verus!
