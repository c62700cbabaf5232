//! The per-connection outbound queue and the writer's decision.
//!
//! Producers (the owning session and any peer fanning out to it) enqueue
//! at the tail; the single writer drains from the head, writing each
//! `Send` and exiting at `Terminate`. The model here is what the design's
//! ordering guarantee rests on: per recipient, replies hit the wire in
//! enqueue order.

use vstd::prelude::*;
use crate::types::{OutboundEvent, Reply};

verus! {

/// A connection's outbound FIFO of events.
pub struct OutboundQueue {
    events: Vec<OutboundEvent>,
}

impl OutboundQueue {
    pub fn new() -> (q: OutboundQueue)
        ensures
            q@ == Seq::<OutboundEvent>::empty(),
    {
        OutboundQueue { events: Vec::new() }
    }

    pub fn len(&self) -> (n: usize)
        ensures
            n == self@.len(),
    {
        self.events.len()
    }

    /// A producer appends at the tail.
    pub fn enqueue(&mut self, e: OutboundEvent)
        ensures
            final(self)@ == old(self)@.push(e),
    {
        self.events.push(e);
    }

    /// The writer takes from the head.
    pub fn dequeue(&mut self) -> (r: Option<OutboundEvent>)
        ensures
            old(self)@.len() == 0 ==> r is None && final(self)@ == old(self)@,
            old(self)@.len() > 0 ==> r == Some(old(self)@[0]) && final(self)@ == old(self)@.skip(
                1,
            ),
    {
        if self.events.len() == 0 {
            None
        } else {
            let e = self.events.remove(0);
            proof {
                assert(self.events@ =~= old(self)@.skip(1));
            }
            Some(e)
        }
    }
}

impl View for OutboundQueue {
    type V = Seq<OutboundEvent>;

    closed spec fn view(&self) -> Seq<OutboundEvent> {
        self.events@
    }
}

/// The writer task's decision for one dequeued event: the reply to put on
/// the wire, or nothing when the event says to exit.
pub fn writer_step(e: OutboundEvent) -> (r: Option<Reply>)
    ensures
        e matches OutboundEvent::Send(m) ==> r == Some(m),
        e is Terminate ==> r is None,
{
    match e {
        OutboundEvent::Send(m) => Some(m),
        OutboundEvent::Terminate => None,
    }
}

/// The exact sequence of replies a writer puts on the wire when it drains
/// this queue: every `Send` before the first `Terminate`, in queue order.
pub open spec fn written(q: Seq<OutboundEvent>) -> Seq<Reply>
    decreases q.len(),
{
    if q.len() == 0 {
        Seq::empty()
    } else {
        match q[0] {
            OutboundEvent::Terminate => Seq::empty(),
            OutboundEvent::Send(m) => seq![m] + written(q.skip(1)),
        }
    }
}

/// Law (per-sink order): as long as no `Terminate` sits in between, the
/// writer delivers events in the order they were enqueued: the reply
/// enqueued at position `i` is written before the one at position `j`.
pub proof fn lemma_per_sink_order(q: Seq<OutboundEvent>, j: int)
    requires
        0 <= j < q.len(),
        forall|k: int| 0 <= k <= j ==> (#[trigger] q[k]) is Send,
    ensures
        written(q).len() > j,
        forall|k: int|
            0 <= k <= j ==> ((#[trigger] q[k]) matches OutboundEvent::Send(m) && written(q)[k]
                == m),
    decreases j,
{
    assert(q[0] is Send);
    if j > 0 {
        let t = q.skip(1);
        assert forall|k: int| 0 <= k <= j - 1 implies (#[trigger] t[k]) is Send by {
            assert(t[k] == q[k + 1]);
        }
        lemma_per_sink_order(t, j - 1);
        assert forall|k: int| 0 <= k <= j implies ((#[trigger] q[k]) matches OutboundEvent::Send(
            m,
        ) && written(q)[k] == m) by {
            if k > 0 {
                assert(t[k - 1] == q[k]);
            }
        }
    }
}

} // verus!
