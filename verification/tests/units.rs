//! Unit checks of the smaller pieces: read classification, grammar-error
//! handling, the handshake corner cases, the outbound queue's order, and
//! the invariants on concrete registry states.

use iris::handler::Handler;
use iris::queue::{writer_step, OutboundQueue};
use iris::registry::{Channels, Clients};
use iris::session::{Client, LoginStatus};
use iris::types::{
    ConnError, Delivery, ErrorType, LoopControlError, Message, OutboundEvent, Reply, SessionPhase,
    Target,
};

fn s(x: &str) -> String {
    String::from(x)
}

fn logged_in(nick: &str, real: &str, sink: u64, clients: &mut Clients) -> Client {
    let mut c = Client::new(s("conn"), sink);
    let mut out: Vec<Delivery> = Vec::new();
    c.login(Message::Nick(s(nick)), clients, &mut out);
    c.login(Message::User(s(real)), clients, &mut out);
    c
}

#[test]
fn recv_classifies_connection_errors() {
    let c = Client::new(s("c1"), 1);
    assert_eq!(c.recv(Ok(s("NICK alice"))), Ok(s("NICK alice")));
    assert_eq!(c.recv(Err(ConnError::Lost)), Err(LoopControlError::Break));
    assert_eq!(c.recv(Err(ConnError::Closed)), Err(LoopControlError::Break));
    assert_eq!(
        c.recv(Err(ConnError::MalformedBytes)),
        Err(LoopControlError::Continue)
    );
}

#[test]
fn parse_echoes_grammar_errors() {
    let c = Client::new(s("c1"), 7);
    let mut out: Vec<Delivery> = Vec::new();
    let r = c.parse(Ok(Message::Ping(s("t"))), &mut out);
    assert_eq!(r, Ok(Message::Ping(s("t"))));
    assert!(out.is_empty());

    let r = c.parse(Err(s("unknown command")), &mut out);
    assert_eq!(r, Err(LoopControlError::Continue));
    assert_eq!(
        out,
        vec![Delivery {
            to: 7,
            event: OutboundEvent::Send(Reply::Grammar {
                text: s("unknown command"),
            }),
        }]
    );
}

#[test]
fn ping_pongs_to_sender_only() {
    let mut clients = Clients::new();
    let mut channels = Channels::new();
    let mut c = logged_in("alice", "Alice", 4, &mut clients);
    let mut out: Vec<Delivery> = Vec::new();
    c.handle_message(Message::Ping(s("tok")), &mut clients, &mut channels, &mut out)
        .unwrap();
    assert_eq!(
        out,
        vec![Delivery {
            to: 4,
            event: OutboundEvent::Send(Reply::Pong { token: s("tok") }),
        }]
    );
}

#[test]
fn handler_trait_pongs() {
    let mut clients = Clients::new();
    let mut c = logged_in("alice", "Alice", 4, &mut clients);
    let d = c.handle(s("tok"));
    assert_eq!(
        d,
        Delivery {
            to: 4,
            event: OutboundEvent::Send(Reply::Pong { token: s("tok") }),
        }
    );
}

#[test]
fn handshake_ignores_other_commands_and_repeats() {
    let mut clients = Clients::new();
    let mut out: Vec<Delivery> = Vec::new();
    let mut c = Client::new(s("c1"), 1);

    // anything but NICK, USER, QUIT is ignored while logging in
    let st = c.login(Message::Ping(s("x")), &mut clients, &mut out);
    assert_eq!(st, LoginStatus::Pending);
    let st = c.login(
        Message::PrivMsg(Target::User(s("bob")), s("hi")),
        &mut clients,
        &mut out,
    );
    assert_eq!(st, LoginStatus::Pending);
    assert!(out.is_empty());

    // the first NICK wins; a second is silently ignored
    c.login(Message::Nick(s("alice")), &mut clients, &mut out);
    c.login(Message::Nick(s("al")), &mut clients, &mut out);
    assert_eq!(c.nick, Some(s("alice")));

    // the first USER wins too, and completes the login
    let st = c.login(Message::User(s("Alice")), &mut clients, &mut out);
    assert_eq!(st, LoginStatus::LoggedIn);
    let st_nick = clients.lookup(&s("alice"));
    assert_eq!(st_nick, Some(1));
    let mut out2: Vec<Delivery> = Vec::new();
    let mut c2 = Client::new(s("c2"), 2);
    c2.login(Message::User(s("Bob")), &mut clients, &mut out2);
    let st = c2.login(Message::User(s("Robert")), &mut clients, &mut out2);
    assert_eq!(st, LoginStatus::Pending);
    assert_eq!(c2.user, Some(s("Bob")));
}

#[test]
fn steady_state_ignores_nick_and_user() {
    let mut clients = Clients::new();
    let mut channels = Channels::new();
    let mut c = logged_in("alice", "Alice", 1, &mut clients);
    let mut out: Vec<Delivery> = Vec::new();
    c.handle_message(Message::Nick(s("other")), &mut clients, &mut channels, &mut out)
        .unwrap();
    c.handle_message(Message::User(s("Other")), &mut clients, &mut channels, &mut out)
        .unwrap();
    assert!(out.is_empty());
    assert_eq!(c.nick, Some(s("alice")));
    assert_eq!(clients.lookup(&s("alice")), Some(1));
    assert_eq!(clients.lookup(&s("other")), None);
}

#[test]
fn repeated_join_is_idempotent_on_membership() {
    let mut clients = Clients::new();
    let mut channels = Channels::new();
    let mut c = logged_in("alice", "Alice", 1, &mut clients);
    let mut out: Vec<Delivery> = Vec::new();
    c.handle_message(Message::Join(s("#a")), &mut clients, &mut channels, &mut out)
        .unwrap();
    let mut out: Vec<Delivery> = Vec::new();
    c.handle_message(Message::Join(s("#a")), &mut clients, &mut channels, &mut out)
        .unwrap();
    // membership unchanged, but the join is still announced
    let snap = channels.members_snapshot(&s("#a")).unwrap();
    assert_eq!(snap, vec![(s("alice"), 1)]);
    assert_eq!(
        out,
        vec![Delivery {
            to: 1,
            event: OutboundEvent::Send(Reply::Join {
                sender: s("alice"),
                channel: s("#a"),
            }),
        }]
    );
}

#[test]
fn part_of_absent_channel_or_non_member_is_silent() {
    let mut clients = Clients::new();
    let mut channels = Channels::new();
    let mut alice = logged_in("alice", "Alice", 1, &mut clients);
    let mut bob = logged_in("bob", "Bob", 2, &mut clients);
    let mut out: Vec<Delivery> = Vec::new();
    alice
        .handle_message(Message::Part(s("#nowhere")), &mut clients, &mut channels, &mut out)
        .unwrap();
    assert!(out.is_empty());

    alice
        .handle_message(Message::Join(s("#a")), &mut clients, &mut channels, &mut out)
        .unwrap();
    let mut out: Vec<Delivery> = Vec::new();
    bob.handle_message(Message::Part(s("#a")), &mut clients, &mut channels, &mut out)
        .unwrap();
    assert!(out.is_empty());
    assert!(channels.contains(&s("#a")));
}

#[test]
fn empty_channel_cleanup_over_a_command_sequence() {
    let mut clients = Clients::new();
    let mut channels = Channels::new();
    let mut alice = logged_in("alice", "Alice", 1, &mut clients);
    let mut bob = logged_in("bob", "Bob", 2, &mut clients);
    let mut out: Vec<Delivery> = Vec::new();

    alice
        .handle_message(Message::Join(s("#a")), &mut clients, &mut channels, &mut out)
        .unwrap();
    alice
        .handle_message(Message::Join(s("#b")), &mut clients, &mut channels, &mut out)
        .unwrap();
    bob.handle_message(Message::Join(s("#b")), &mut clients, &mut channels, &mut out)
        .unwrap();
    alice
        .handle_message(Message::Part(s("#a")), &mut clients, &mut channels, &mut out)
        .unwrap();
    assert!(!channels.contains(&s("#a"))); // emptied, so deleted
    assert!(channels.contains(&s("#b")));

    alice
        .handle_message(Message::Quit(None), &mut clients, &mut channels, &mut out)
        .unwrap_err();
    assert!(channels.contains(&s("#b"))); // bob remains
    bob.handle_message(Message::Quit(None), &mut clients, &mut channels, &mut out)
        .unwrap_err();
    assert!(!channels.contains(&s("#b"))); // last member gone, channel gone
}

#[test]
fn members_are_always_registered_clients() {
    let mut clients = Clients::new();
    let mut channels = Channels::new();
    let mut alice = logged_in("alice", "Alice", 1, &mut clients);
    let mut bob = logged_in("bob", "Bob", 2, &mut clients);
    let mut out: Vec<Delivery> = Vec::new();
    alice
        .handle_message(Message::Join(s("#a")), &mut clients, &mut channels, &mut out)
        .unwrap();
    bob.handle_message(Message::Join(s("#a")), &mut clients, &mut channels, &mut out)
        .unwrap();
    for (nick, sink) in channels.members_snapshot(&s("#a")).unwrap() {
        assert_eq!(clients.lookup(&nick), Some(sink));
    }
    bob.handle_message(Message::Quit(None), &mut clients, &mut channels, &mut out)
        .unwrap_err();
    for (nick, sink) in channels.members_snapshot(&s("#a")).unwrap() {
        assert_eq!(clients.lookup(&nick), Some(sink));
    }
}

#[test]
fn late_claim_collision_resets_the_nick() {
    let mut clients = Clients::new();
    let mut out: Vec<Delivery> = Vec::new();

    // two sessions pick the same free nick during their handshakes
    let mut c1 = Client::new(s("c1"), 1);
    let mut c2 = Client::new(s("c2"), 2);
    c1.login(Message::Nick(s("alice")), &mut clients, &mut out);
    c2.login(Message::Nick(s("alice")), &mut clients, &mut out);
    assert!(out.is_empty());

    // the first to finish the handshake claims it
    let st = c1.login(Message::User(s("Alice")), &mut clients, &mut out);
    assert_eq!(st, LoginStatus::LoggedIn);

    // the second finds it taken at the claim, and may pick another
    let mut out: Vec<Delivery> = Vec::new();
    let st = c2.login(Message::User(s("Alia")), &mut clients, &mut out);
    assert_eq!(st, LoginStatus::Pending);
    assert_eq!(
        out,
        vec![Delivery {
            to: 2,
            event: OutboundEvent::Send(Reply::Error {
                kind: ErrorType::NickCollision,
            }),
        }]
    );
    assert!(c2.nick.is_none());
    let mut out: Vec<Delivery> = Vec::new();
    let st = c2.login(Message::Nick(s("alia")), &mut clients, &mut out);
    assert_eq!(st, LoginStatus::LoggedIn);
    assert_eq!(clients.lookup(&s("alia")), Some(2));
}

#[test]
fn outbound_queue_is_fifo_and_writer_obeys_it() {
    let mut q = OutboundQueue::new();
    let pong = |t: &str| Reply::Pong { token: s(t) };
    q.enqueue(OutboundEvent::Send(pong("one")));
    q.enqueue(OutboundEvent::Send(pong("two")));
    q.enqueue(OutboundEvent::Terminate);
    assert_eq!(q.len(), 3);

    let e1 = q.dequeue().unwrap();
    assert_eq!(writer_step(e1), Some(pong("one")));
    let e2 = q.dequeue().unwrap();
    assert_eq!(writer_step(e2), Some(pong("two")));
    let e3 = q.dequeue().unwrap();
    assert_eq!(writer_step(e3), None);
    assert_eq!(q.dequeue(), None);
}

#[test]
fn try_claim_and_release_are_first_come() {
    let mut clients = Clients::new();
    assert!(clients.try_claim(s("alice"), 1));
    assert!(!clients.try_claim(s("alice"), 2));
    assert_eq!(clients.lookup(&s("alice")), Some(1));
    clients.release(&s("alice"));
    clients.release(&s("alice")); // idempotent
    assert_eq!(clients.lookup(&s("alice")), None);
    assert!(clients.try_claim(s("alice"), 2));
    assert_eq!(clients.lookup(&s("alice")), Some(2));
}

#[test]
fn rid_is_kept_for_logs() {
    let c = Client::new(s("127.0.0.1:40000"), 9);
    assert_eq!(c.rid(), s("127.0.0.1:40000"));
    let t = c.terminate();
    assert_eq!(
        t,
        Delivery {
            to: 9,
            event: OutboundEvent::Terminate,
        }
    );
}
