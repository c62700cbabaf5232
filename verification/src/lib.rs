//! Core of a multi-user IRC-style chat relay.
//!
//! The library holds the verified heart of the server: the per-connection
//! session state machine (login handshake, steady-state command dispatch,
//! teardown), the two shared registries (clients by nick, channels with
//! members), and the fan-out rules that decide which reply is enqueued on
//! which recipient's outbound sink.
//!
//! Everything here is pure data-in, data-out: a sink is an integer handle,
//! a command arrives as an already-parsed [`types::Message`], and each
//! handler returns the deliveries it wants enqueued. The surrounding
//! program owns the sockets, the threads and the real queues, and merely
//! drives these functions.

pub mod types;
pub mod handler;
pub mod registry;
pub mod session;
pub mod queue;
pub mod laws;
