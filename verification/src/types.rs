//! Plain data carried between the session core and its surroundings.
//!
//! The wire codec and the message grammar live outside the library; they
//! hand the core already-parsed [`Message`] values and take back [`Reply`]
//! values to render. A connection's outbound queue is named by an integer
//! sink handle, and a [`Delivery`] pairs a sink with the event to enqueue
//! on it.

use vstd::prelude::*;

verus! {

/// A connection-level failure reported by the wire codec while reading.
#[derive(PartialEq, Eq, Structural, Clone, Copy, Debug)]
pub enum ConnError {
    /// The peer vanished (broken pipe).
    Lost,
    /// The peer closed the stream (end of input).
    Closed,
    /// The codec could not frame the incoming bytes.
    MalformedBytes,
}

/// What a read-loop iteration should do next.
#[derive(PartialEq, Eq, Structural, Clone, Copy, Debug)]
pub enum LoopControlError {
    /// Leave the loop and tear the session down.
    Break,
    /// Skip this input and read again.
    Continue,
}

/// The namespace an addressed message means: a nick or a channel name.
#[derive(Debug, PartialEq, Eq)]
pub enum Target {
    User(String),
    Channel(String),
}

/// An inbound command, already parsed by the message grammar.
#[derive(Debug, PartialEq, Eq)]
pub enum Message {
    /// `NICK <nick>`
    Nick(String),
    /// `USER <user> <mode> <unused> :<real name>` (real name only)
    User(String),
    /// `PING <token>`
    Ping(String),
    /// `PRIVMSG <target> :<text>`
    PrivMsg(Target, String),
    /// `JOIN <channel>`
    Join(String),
    /// `PART <channel>`
    Part(String),
    /// `QUIT [:<reason>]`
    Quit(Option<String>),
}

/// The error replies the core can select (the codec renders the numerics).
#[derive(PartialEq, Eq, Structural, Clone, Copy, Debug)]
pub enum ErrorType {
    /// `436`: the requested nick is already claimed.
    NickCollision,
    /// `401`: PRIVMSG to a nick that is not registered.
    NoSuchNick,
    /// `403`: PRIVMSG to a channel that does not exist.
    NoSuchChannel,
}

/// An outbound reply, selected by the core; its text rendering is the
/// codec's business.
#[derive(Debug, PartialEq, Eq)]
pub enum Reply {
    /// `001`: sent once, at the moment a session completes login.
    Welcome { target_nick: String, real_name: String },
    /// Answer to a PING, carrying the same token back.
    Pong { token: String },
    /// A private or channel message, relayed to a recipient.
    PrivMsg { sender: String, target: Target, text: String },
    /// Announces that `sender` joined `channel`.
    Join { sender: String, channel: String },
    /// Announces that `sender` left `channel`.
    Part { sender: String, channel: String },
    /// Announces that `sender` quit, with the reason they gave.
    Quit { sender: String, reason: Option<String> },
    /// One of the numeric error replies.
    Error { kind: ErrorType },
    /// The textual explanation of a grammar error, echoed to the sender.
    Grammar { text: String },
}

/// An event on a connection's outbound queue.
#[derive(Debug, PartialEq, Eq)]
pub enum OutboundEvent {
    /// Hand a reply to the writer to put on the wire.
    Send(Reply),
    /// Make the writer exit after draining what is already queued.
    Terminate,
}

/// One enqueue request: put `event` on the queue that `to` names.
#[derive(Debug, PartialEq, Eq)]
pub struct Delivery {
    /// The sink handle of the recipient connection.
    pub to: u64,
    /// The event to enqueue there.
    pub event: OutboundEvent,
}

/// The observable phases of a session.
#[derive(PartialEq, Eq, Structural, Clone, Copy, Debug)]
pub enum SessionPhase {
    /// Reading the handshake; not yet in the clients registry.
    Login,
    /// Logged in: nick claimed, commands dispatched.
    SteadyState,
    /// Torn down: nick released, `Terminate` enqueued.
    Closing,
}

} // verus!
