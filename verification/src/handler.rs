//! The handler abstraction: one `handle` per message type.
//!
//! The dispatching functions on [`Client`] take the registries they
//! mutate as explicit arguments, so only the handler that needs nothing
//! but the session itself still fits this trait's shape.

use vstd::prelude::*;
use crate::session::Client;
use crate::types::{Delivery, OutboundEvent, Reply};

verus! {

pub trait Handler<T> {
    type Result;

    fn handle(&mut self, message: T) -> Self::Result;
}

/// PING's handler: a Pong with the same token, for the sender's own
/// sink; the session itself is left untouched.
impl Handler<String> for Client {
    type Result = Delivery;

    fn handle(&mut self, message: String) -> (r: Self::Result)
        ensures
            r == (Delivery {
                to: old(self).sink,
                event: OutboundEvent::Send(Reply::Pong { token: message }),
            }),
            *final(self) == *old(self),
    {
        self.send(Reply::Pong { token: message })
    }
}

} // verus!
