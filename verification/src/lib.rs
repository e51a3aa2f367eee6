//! The logic of a server that records musicians together who play at different places.
//!
//! Each user sends audio over a connection. It goes through a ring buffer into a [`stream`], which
//! knows by how much it runs late. A [`source`] first brings the streams into step and then mixes
//! them with the [`backing`] track. The [`room`] knows who takes part and what is agreed on, and a
//! [`session`] says what is done with each message of a user.

pub mod audio;
pub mod backing;
pub mod broadcast;
pub mod command;
pub mod envelope;
pub mod media;
pub mod message;
pub mod packet;
pub mod ring;
pub mod room;
pub mod session;
pub mod slots;
pub mod source;
pub mod stream;
pub mod text;
