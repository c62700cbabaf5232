//! The global properties of the relay, proved from the contracts of the
//! registries and the session handlers.
//!
//! Each proof function here states one law of the design in the
//! vocabulary that the handlers' own `ensures` use — the channel map, the
//! clients map, and the delivery lists — so a caller that composes the
//! verified operations can carry these facts across a whole run.

use vstd::prelude::*;
use crate::registry::{
    has_key, join_effect, join_members, lemma_assoc_dom, lemma_assoc_index, lemma_assoc_strip,
    lemma_has_key_push, lemma_set_val_by_key, lemma_strip_subset, lemma_uniq_push, part_effect,
    quit_effect, strip, uniq_keys, Channels,
};
use crate::session::{fanout_to, login_finish, login_step, Client, LoginStatus};
use crate::types::{Delivery, Message, OutboundEvent, Reply};

verus! {

/// Law (nick uniqueness): the clients registry is a map, so two live
/// steady-state sessions whose registrations hold and whose sinks differ
/// cannot have claimed the same nick.
pub proof fn lemma_live_nicks_unique(c1: Client, c2: Client, clients: Map<Seq<char>, u64>)
    requires
        c1.phase is SteadyState,
        c2.phase is SteadyState,
        c1.registered(clients),
        c2.registered(clients),
        c1.sink != c2.sink,
    ensures
        c1.nick_view() != c2.nick_view(),
{
}

/// Law (registration stability): a claim or release of some other nick —
/// by any other session — leaves this session's registration intact.
pub proof fn lemma_registration_frame(
    c: Client,
    m1: Map<Seq<char>, u64>,
    m2: Map<Seq<char>, u64>,
    k: Seq<char>,
    s: u64,
)
    requires
        c.registered(m1),
        c.phase is SteadyState ==> k != c.nick_view(),
        m2 == m1.insert(k, s) || m2 == m1.remove(k),
    ensures
        c.registered(m2),
{
}

/// Law (login registers the session): a login step that reaches steady
/// state leaves the session registered under its nick, with its own sink.
pub proof fn lemma_login_registers(c: Client, clients: Map<Seq<char>, u64>, m: Message)
    requires
        c.phase is Login,
    ensures
        ({
            let o = login_step(c, clients, m);
            let c2 = Client {
                nick: o.nick,
                user: o.user,
                sink: c.sink,
                rid: c.rid,
                phase: o.phase,
            };
            o.phase is SteadyState ==> c2.registered(o.clients)
        }),
{
}

/// The channel-map invariant: a channel entry exists only while its
/// member list is non-empty, and member nicks stay pairwise distinct.
pub open spec fn channels_ok(m: Map<Seq<char>, Seq<(Seq<char>, u64)>>) -> bool {
    forall|c: Seq<char>| #[trigger] m.contains_key(c) ==> m[c].len() > 0 && uniq_keys(m[c])
}

/// Law (well-formed registry): the representation invariant of the
/// channels registry yields the channel-map invariant.
pub proof fn lemma_wf_channels_ok(ch: &Channels)
    requires
        ch.wf(),
    ensures
        channels_ok(ch@),
{
    lemma_assoc_dom(ch.gentries());
    assert forall|c: Seq<char>| #[trigger] ch@.contains_key(c) implies ch@[c].len() > 0
        && uniq_keys(ch@[c]) by {
        let i = choose|i: int| 0 <= i < ch.gentries().len() && (#[trigger] ch.gentries()[i]).0 == c;
        lemma_assoc_index(ch.gentries(), i);
    }
}

/// One channel-registry mutation, as the cleanup law quantifies over them.
pub enum ChanOp {
    Join { ch: Seq<char>, nick: Seq<char>, sink: u64 },
    Part { ch: Seq<char>, nick: Seq<char> },
    Quit { nick: Seq<char> },
}

pub open spec fn apply_op(m: Map<Seq<char>, Seq<(Seq<char>, u64)>>, op: ChanOp) -> Map<
    Seq<char>,
    Seq<(Seq<char>, u64)>,
> {
    match op {
        ChanOp::Join { ch, nick, sink } => join_effect(m, ch, nick, sink),
        ChanOp::Part { ch, nick } => part_effect(m, ch, nick),
        ChanOp::Quit { nick } => quit_effect(m, nick),
    }
}

pub open spec fn apply_ops(m: Map<Seq<char>, Seq<(Seq<char>, u64)>>, ops: Seq<ChanOp>) -> Map<
    Seq<char>,
    Seq<(Seq<char>, u64)>,
>
    decreases ops.len(),
{
    if ops.len() == 0 {
        m
    } else {
        apply_ops(apply_op(m, ops[0]), ops.skip(1))
    }
}

/// Law (empty-channel cleanup, one step): each of JOIN, PART and QUIT
/// keeps the channel-map invariant: a channel exists iff it has members.
pub proof fn lemma_op_preserves_channels_ok(m: Map<Seq<char>, Seq<(Seq<char>, u64)>>, op: ChanOp)
    requires
        channels_ok(m),
    ensures
        channels_ok(apply_op(m, op)),
{
    match op {
        ChanOp::Join { ch, nick, sink } => {
            let old_m = if m.contains_key(ch) {
                m[ch]
            } else {
                Seq::<(Seq<char>, u64)>::empty()
            };
            if has_key(old_m, nick) {
                lemma_set_val_by_key(old_m, nick, sink);
            } else {
                lemma_uniq_push(old_m, (nick, sink));
            }
        },
        ChanOp::Part { ch, nick } => {
            if m.contains_key(ch) && has_key(m[ch], nick) {
                lemma_assoc_strip(m[ch], nick);
            }
        },
        ChanOp::Quit { nick } => {
            assert forall|c: Seq<char>| #[trigger]
                quit_effect(m, nick).contains_key(c) implies quit_effect(m, nick)[c].len() > 0
                && uniq_keys(quit_effect(m, nick)[c]) by {
                lemma_assoc_strip(m[c], nick);
            }
        },
    }
}

/// Law (empty-channel cleanup): after any sequence of JOIN, PART and QUIT
/// operations, a channel exists iff its member list is non-empty.
pub proof fn lemma_ops_preserve_channels_ok(
    m: Map<Seq<char>, Seq<(Seq<char>, u64)>>,
    ops: Seq<ChanOp>,
)
    requires
        channels_ok(m),
    ensures
        channels_ok(apply_ops(m, ops)),
    decreases ops.len(),
{
    if ops.len() > 0 {
        lemma_op_preserves_channels_ok(m, ops[0]);
        lemma_ops_preserve_channels_ok(apply_op(m, ops[0]), ops.skip(1));
    }
}

/// Every channel member is a registered client.
pub open spec fn members_in_clients(
    chans: Map<Seq<char>, Seq<(Seq<char>, u64)>>,
    clients: Map<Seq<char>, u64>,
) -> bool {
    forall|c: Seq<char>, i: int|
        chans.contains_key(c) && 0 <= i < chans[c].len() ==> clients.contains_key(
            (#[trigger] chans[c][i]).0,
        )
}

/// Law (members are clients, JOIN): joining keeps the containment as long
/// as the joiner is itself a registered client.
pub proof fn lemma_join_preserves_members_in_clients(
    chans: Map<Seq<char>, Seq<(Seq<char>, u64)>>,
    clients: Map<Seq<char>, u64>,
    ch: Seq<char>,
    nick: Seq<char>,
    sink: u64,
)
    requires
        members_in_clients(chans, clients),
        clients.contains_key(nick),
    ensures
        members_in_clients(join_effect(chans, ch, nick, sink), clients),
{
    let old_m = if chans.contains_key(ch) {
        chans[ch]
    } else {
        Seq::<(Seq<char>, u64)>::empty()
    };
    let new_m = join_members(old_m, nick, sink);
    let post = join_effect(chans, ch, nick, sink);
    assert forall|c: Seq<char>, i: int|
        post.contains_key(c) && 0 <= i < post[c].len() implies clients.contains_key(
        (#[trigger] post[c][i]).0,
    ) by {
        if c == ch {
            if has_key(old_m, nick) {
                assert(new_m[i].0 == (if old_m[i].0 == nick {
                    nick
                } else {
                    old_m[i].0
                }));
            } else {
                if i < old_m.len() {
                    assert(new_m[i] == old_m[i]);
                } else {
                    assert(new_m[i].0 == nick);
                }
            }
        }
    }
}

/// Law (members are clients, PART): leaving a channel can only shrink its
/// member list, so the containment survives.
pub proof fn lemma_part_preserves_members_in_clients(
    chans: Map<Seq<char>, Seq<(Seq<char>, u64)>>,
    clients: Map<Seq<char>, u64>,
    ch: Seq<char>,
    nick: Seq<char>,
)
    requires
        members_in_clients(chans, clients),
    ensures
        members_in_clients(part_effect(chans, ch, nick), clients),
{
    let post = part_effect(chans, ch, nick);
    assert forall|c: Seq<char>, i: int|
        post.contains_key(c) && 0 <= i < post[c].len() implies clients.contains_key(
        (#[trigger] post[c][i]).0,
    ) by {
        if c == ch && chans.contains_key(ch) && has_key(chans[ch], nick) {
            lemma_strip_subset(chans[ch], nick);
            let w = choose|w: int| 0 <= w < chans[ch].len() && strip(chans[ch], nick)[i]
                == chans[ch][w];
            assert(clients.contains_key(chans[ch][w].0));
        }
    }
}

/// Law (members are clients, QUIT): after the quit sweep no member list
/// holds the quitter, so the containment holds even against the clients
/// registry with the quitter's nick released.
pub proof fn lemma_quit_preserves_members_in_clients(
    chans: Map<Seq<char>, Seq<(Seq<char>, u64)>>,
    clients: Map<Seq<char>, u64>,
    nick: Seq<char>,
)
    requires
        members_in_clients(chans, clients),
        channels_ok(chans),
    ensures
        members_in_clients(quit_effect(chans, nick), clients.remove(nick)),
{
    let post = quit_effect(chans, nick);
    assert forall|c: Seq<char>, i: int|
        post.contains_key(c) && 0 <= i < post[c].len() implies clients.remove(nick).contains_key(
        (#[trigger] post[c][i]).0,
    ) by {
        lemma_assoc_strip(chans[c], nick);
        lemma_strip_subset(chans[c], nick);
        let w = choose|w: int| 0 <= w < chans[c].len() && strip(chans[c], nick)[i] == chans[c][w];
        assert(clients.contains_key(chans[c][w].0));
        if post[c][i].0 == nick {
            assert(has_key(strip(chans[c], nick), nick));
        }
    }
}


/// Member sinks agree with the clients registry: every member of every
/// channel is registered, under the very sink its member entry stores.
pub open spec fn sinks_consistent(
    chans: Map<Seq<char>, Seq<(Seq<char>, u64)>>,
    clients: Map<Seq<char>, u64>,
) -> bool {
    forall|c: Seq<char>, i: int|
        chans.contains_key(c) && 0 <= i < chans[c].len() ==> clients.contains_key(
            (#[trigger] chans[c][i]).0,
        ) && clients[chans[c][i].0] == chans[c][i].1
}

/// Each sink value is registered under at most one nick: a sink handle
/// names one connection's queue, so no two live sessions share one.
pub open spec fn sink_injective(clients: Map<Seq<char>, u64>) -> bool {
    forall|n1: Seq<char>, n2: Seq<char>|
        clients.contains_key(n1) && clients.contains_key(n2) && #[trigger] clients[n1]
            == #[trigger] clients[n2] ==> n1 == n2
}

/// Law (consistency under JOIN): a registered session that joins with its
/// own sink keeps member sinks agreeing with the registry.
pub proof fn lemma_join_preserves_sinks_consistent(
    chans: Map<Seq<char>, Seq<(Seq<char>, u64)>>,
    clients: Map<Seq<char>, u64>,
    ch: Seq<char>,
    nick: Seq<char>,
    sink: u64,
)
    requires
        sinks_consistent(chans, clients),
        clients.contains_key(nick),
        clients[nick] == sink,
    ensures
        sinks_consistent(join_effect(chans, ch, nick, sink), clients),
{
    let old_m = if chans.contains_key(ch) {
        chans[ch]
    } else {
        Seq::<(Seq<char>, u64)>::empty()
    };
    let new_m = join_members(old_m, nick, sink);
    let post = join_effect(chans, ch, nick, sink);
    assert forall|c: Seq<char>, i: int|
        post.contains_key(c) && 0 <= i < post[c].len() implies clients.contains_key(
        (#[trigger] post[c][i]).0,
    ) && clients[post[c][i].0] == post[c][i].1 by {
        if c == ch {
            if has_key(old_m, nick) {
                assert(new_m[i] == (if old_m[i].0 == nick {
                    (nick, sink)
                } else {
                    old_m[i]
                }));
            } else {
                if i < old_m.len() {
                    assert(new_m[i] == old_m[i]);
                } else {
                    assert(new_m[i] == (nick, sink));
                }
            }
        }
    }
}

/// Law (consistency under PART): leaving only drops member entries.
pub proof fn lemma_part_preserves_sinks_consistent(
    chans: Map<Seq<char>, Seq<(Seq<char>, u64)>>,
    clients: Map<Seq<char>, u64>,
    ch: Seq<char>,
    nick: Seq<char>,
)
    requires
        sinks_consistent(chans, clients),
    ensures
        sinks_consistent(part_effect(chans, ch, nick), clients),
{
    let post = part_effect(chans, ch, nick);
    assert forall|c: Seq<char>, i: int|
        post.contains_key(c) && 0 <= i < post[c].len() implies clients.contains_key(
        (#[trigger] post[c][i]).0,
    ) && clients[post[c][i].0] == post[c][i].1 by {
        if c == ch && chans.contains_key(ch) && has_key(chans[ch], nick) {
            lemma_strip_subset(chans[ch], nick);
            let w = choose|w: int| 0 <= w < chans[ch].len() && strip(chans[ch], nick)[i]
                == chans[ch][w];
            assert(clients.contains_key(chans[ch][w].0));
        }
    }
}

/// Law (consistency under QUIT): after the sweep and the release of the
/// quitter's nick, the remaining members still agree with the registry.
pub proof fn lemma_quit_preserves_sinks_consistent(
    chans: Map<Seq<char>, Seq<(Seq<char>, u64)>>,
    clients: Map<Seq<char>, u64>,
    nick: Seq<char>,
)
    requires
        sinks_consistent(chans, clients),
        channels_ok(chans),
    ensures
        sinks_consistent(quit_effect(chans, nick), clients.remove(nick)),
{
    let post = quit_effect(chans, nick);
    assert forall|c: Seq<char>, i: int|
        post.contains_key(c) && 0 <= i < post[c].len() implies clients.remove(nick).contains_key(
        (#[trigger] post[c][i]).0,
    ) && clients.remove(nick)[post[c][i].0] == post[c][i].1 by {
        lemma_assoc_strip(chans[c], nick);
        lemma_strip_subset(chans[c], nick);
        let w = choose|w: int| 0 <= w < chans[c].len() && strip(chans[c], nick)[i] == chans[c][w];
        assert(clients.contains_key(chans[c][w].0));
        if post[c][i].0 == nick {
            assert(has_key(strip(chans[c], nick), nick));
        }
    }
}

/// Law (consistency under a claim): a nick that was free is no member of
/// any channel, so claiming it disturbs no member entry.
pub proof fn lemma_claim_preserves_sinks_consistent(
    chans: Map<Seq<char>, Seq<(Seq<char>, u64)>>,
    clients: Map<Seq<char>, u64>,
    nick: Seq<char>,
    sink: u64,
)
    requires
        sinks_consistent(chans, clients),
        !clients.contains_key(nick),
    ensures
        sinks_consistent(chans, clients.insert(nick, sink)),
{
    assert forall|c: Seq<char>, i: int|
        chans.contains_key(c) && 0 <= i < chans[c].len() implies clients.insert(
        nick,
        sink,
    ).contains_key((#[trigger] chans[c][i]).0) && clients.insert(nick, sink)[chans[c][i].0]
        == chans[c][i].1 by {
        assert(clients.contains_key(chans[c][i].0));
        assert(chans[c][i].0 != nick);
    }
}

/// Law (injectivity under claim and release): a claim with a sink no
/// registered nick holds keeps sinks per-session, and a release only
/// shrinks the registry.
pub proof fn lemma_claim_preserves_sink_injective(
    clients: Map<Seq<char>, u64>,
    nick: Seq<char>,
    sink: u64,
)
    requires
        sink_injective(clients),
        forall|n: Seq<char>| clients.contains_key(n) ==> #[trigger] clients[n] != sink,
    ensures
        sink_injective(clients.insert(nick, sink)),
{
}

pub proof fn lemma_release_preserves_sink_injective(clients: Map<Seq<char>, u64>, nick: Seq<char>)
    requires
        sink_injective(clients),
    ensures
        sink_injective(clients.remove(nick)),
{
}

/// A delivery that carries the Welcome reply.
pub open spec fn is_welcome(d: Delivery) -> bool {
    d.event matches OutboundEvent::Send(r) && r is Welcome
}

/// Law (one Welcome, exactly at the transition): a login step emits a
/// Welcome iff it moves the session to steady state, and then emits
/// exactly one event, the Welcome, addressed to the session itself.
pub proof fn lemma_welcome_exactly_at_transition(
    c: Client,
    clients: Map<Seq<char>, u64>,
    m: Message,
)
    requires
        c.phase is Login,
    ensures
        ({
            let o = login_step(c, clients, m);
            &&& (o.phase is SteadyState <==> o.status == LoginStatus::LoggedIn)
            &&& (o.phase is Login || o.phase is SteadyState)
            &&& (o.phase is SteadyState ==> o.sent.len() == 1 && is_welcome(o.sent[0])
                && o.sent[0].to == c.sink)
            &&& (!(o.phase is SteadyState) ==> forall|i: int|
                0 <= i < o.sent.len() ==> !is_welcome(#[trigger] o.sent[i]))
        }),
{
    let o = login_step(c, clients, m);
    match m {
        Message::Nick(n) => {
            if !clients.contains_key(n@) {
                let nick2 = if c.nick is None {
                    Some(n)
                } else {
                    c.nick
                };
                assert(o == login_finish(c.sink, nick2, c.user, clients));
            }
        },
        Message::User(u) => {
            let user2 = if c.user is None {
                Some(u)
            } else {
                c.user
            };
            assert(o == login_finish(c.sink, c.nick, user2, clients));
        },
        _ => {},
    }
}

/// Law (teardown erases the session): once a steady session has quit, its
/// nick is absent from the clients registry and from every member list.
pub proof fn lemma_quit_erases_nick(
    chans: Map<Seq<char>, Seq<(Seq<char>, u64)>>,
    clients: Map<Seq<char>, u64>,
    nick: Seq<char>,
)
    requires
        channels_ok(chans),
    ensures
        !clients.remove(nick).contains_key(nick),
        forall|c: Seq<char>| #[trigger]
            quit_effect(chans, nick).contains_key(c) ==> !has_key(
                quit_effect(chans, nick)[c],
                nick,
            ),
{
    assert forall|c: Seq<char>| #[trigger] quit_effect(chans, nick).contains_key(c) implies !has_key(
        quit_effect(chans, nick)[c],
        nick,
    ) by {
        lemma_assoc_strip(chans[c], nick);
    }
}

/// Law (PRIVMSG non-echo): a channel broadcast built by stripping the
/// sender's nick reaches no sink that only the sender's nick holds — in
/// particular, with per-session sinks, never the sender's own.
pub proof fn lemma_privmsg_non_echo(
    members: Seq<(Seq<char>, u64)>,
    sender: Seq<char>,
    sender_sink: u64,
    reply: Reply,
)
    requires
        uniq_keys(members),
        forall|i: int|
            0 <= i < members.len() && (#[trigger] members[i]).1 == sender_sink ==> members[i].0
                == sender,
    ensures
        forall|i: int|
            0 <= i < fanout_to(strip(members, sender), reply).len() ==> (#[trigger] fanout_to(
                strip(members, sender),
                reply,
            )[i]).to != sender_sink,
{
    lemma_assoc_strip(members, sender);
    lemma_strip_subset(members, sender);
    let rest = strip(members, sender);
    assert forall|i: int|
        0 <= i < fanout_to(rest, reply).len() implies (#[trigger] fanout_to(rest, reply)[i]).to
        != sender_sink by {
        let w = choose|w: int| 0 <= w < members.len() && rest[i] == members[w];
        if members[w].1 == sender_sink {
            assert(rest[i].0 == sender);
            assert(has_key(rest, sender));
        }
    }
}

/// Law (PRIVMSG non-echo): under the live invariants — member sinks
/// agree with the clients registry and sinks are per-session — a channel
/// broadcast from a registered sender reaches no sink at all of the
/// sender's, whichever channel and whatever the reply.
pub proof fn lemma_privmsg_never_echoed(
    chans: Map<Seq<char>, Seq<(Seq<char>, u64)>>,
    clients: Map<Seq<char>, u64>,
    ch: Seq<char>,
    sender: Seq<char>,
    reply: Reply,
)
    requires
        channels_ok(chans),
        sinks_consistent(chans, clients),
        sink_injective(clients),
        clients.contains_key(sender),
        chans.contains_key(ch),
    ensures
        forall|i: int|
            0 <= i < fanout_to(strip(chans[ch], sender), reply).len() ==> (#[trigger] fanout_to(
                strip(chans[ch], sender),
                reply,
            )[i]).to != clients[sender],
{
    assert forall|i: int|
        0 <= i < chans[ch].len() && (#[trigger] chans[ch][i]).1 == clients[sender] implies (
    chans[ch][i].0 == sender) by {
        assert(clients.contains_key(chans[ch][i].0));
        assert(clients[chans[ch][i].0] == chans[ch][i].1);
    }
    lemma_privmsg_non_echo(chans[ch], sender, clients[sender], reply);
}

/// Law (JOIN echo): the join broadcast goes to every member of the
/// channel as it stands after the join — the joiner included — one
/// delivery per member, carrying the Join reply.
pub proof fn lemma_join_echo(
    chans: Map<Seq<char>, Seq<(Seq<char>, u64)>>,
    ch: Seq<char>,
    nick: Seq<char>,
    sink: u64,
    reply: Reply,
)
    requires
        channels_ok(chans),
    ensures
        ({
            let post = join_effect(chans, ch, nick, sink);
            let ds = fanout_to(post[ch], reply);
            &&& has_key(post[ch], nick)
            &&& ds.len() == post[ch].len()
            &&& forall|i: int|
                0 <= i < ds.len() ==> #[trigger] ds[i] == (Delivery {
                    to: post[ch][i].1,
                    event: OutboundEvent::Send(reply),
                })
        }),
{
    let old_m = if chans.contains_key(ch) {
        chans[ch]
    } else {
        Seq::<(Seq<char>, u64)>::empty()
    };
    if has_key(old_m, nick) {
        lemma_set_val_by_key(old_m, nick, sink);
    } else {
        lemma_has_key_push(old_m, (nick, sink));
    }
}

} // verus!
