//! End-to-end scenarios: sequences of parsed commands driven through the
//! session state machine and the shared registries, checking exactly which
//! replies are enqueued on which sinks.

use iris::registry::{Channels, Clients};
use iris::session::{Client, LoginStatus};
use iris::types::{Delivery, ErrorType, Message, OutboundEvent, Reply, SessionPhase, Target};

fn s(x: &str) -> String {
    String::from(x)
}

fn login_as(c: &mut Client, clients: &mut Clients, nick: &str, real: &str) {
    let mut out: Vec<Delivery> = Vec::new();
    let st = c.login(Message::Nick(s(nick)), clients, &mut out);
    assert_eq!(st, LoginStatus::Pending);
    let st = c.login(Message::User(s(real)), clients, &mut out);
    assert_eq!(st, LoginStatus::LoggedIn);
}

fn send_reply(to: u64, reply: Reply) -> Delivery {
    Delivery {
        to,
        event: OutboundEvent::Send(reply),
    }
}

#[test]
fn login_happy_path() {
    let mut clients = Clients::new();
    let mut out: Vec<Delivery> = Vec::new();
    let mut c1 = Client::new(s("c1"), 1);

    let st = c1.login(Message::Nick(s("alice")), &mut clients, &mut out);
    assert_eq!(st, LoginStatus::Pending);
    assert!(out.is_empty());

    let st = c1.login(Message::User(s("Alice")), &mut clients, &mut out);
    assert_eq!(st, LoginStatus::LoggedIn);
    assert_eq!(
        out,
        vec![send_reply(
            1,
            Reply::Welcome {
                target_nick: s("alice"),
                real_name: s("Alice"),
            }
        )]
    );
    assert_eq!(c1.phase, SessionPhase::SteadyState);
    assert_eq!(clients.lookup(&s("alice")), Some(1));
}

#[test]
fn nick_collision() {
    let mut clients = Clients::new();
    let mut c1 = Client::new(s("c1"), 1);
    login_as(&mut c1, &mut clients, "alice", "Alice");

    let mut out: Vec<Delivery> = Vec::new();
    let mut c2 = Client::new(s("c2"), 2);
    let st = c2.login(Message::Nick(s("alice")), &mut clients, &mut out);
    assert_eq!(st, LoginStatus::Pending);
    assert_eq!(
        out,
        vec![send_reply(
            2,
            Reply::Error {
                kind: ErrorType::NickCollision,
            }
        )]
    );
    assert_eq!(c2.phase, SessionPhase::Login);
    assert!(c2.nick.is_none());
    assert_eq!(clients.lookup(&s("alice")), Some(1));
}

#[test]
fn channel_broadcast() {
    let mut clients = Clients::new();
    let mut channels = Channels::new();
    let mut c1 = Client::new(s("c1"), 1);
    let mut c2 = Client::new(s("c2"), 2);
    login_as(&mut c1, &mut clients, "alice", "Alice");
    login_as(&mut c2, &mut clients, "bob", "Bob");

    // alice joins: the Join goes to alice alone (her cue of success)
    let mut out: Vec<Delivery> = Vec::new();
    let r = c1.handle_message(Message::Join(s("#rust")), &mut clients, &mut channels, &mut out);
    assert!(r.is_ok());
    assert_eq!(
        out,
        vec![send_reply(
            1,
            Reply::Join {
                sender: s("alice"),
                channel: s("#rust"),
            }
        )]
    );

    // bob joins: the Join goes to both members
    let mut out: Vec<Delivery> = Vec::new();
    let r = c2.handle_message(Message::Join(s("#rust")), &mut clients, &mut channels, &mut out);
    assert!(r.is_ok());
    let bob_join = Reply::Join {
        sender: s("bob"),
        channel: s("#rust"),
    };
    assert_eq!(
        out,
        vec![
            send_reply(
                1,
                Reply::Join {
                    sender: s("bob"),
                    channel: s("#rust"),
                }
            ),
            send_reply(2, bob_join),
        ]
    );

    // alice speaks: bob hears it, alice is not echoed
    let mut out: Vec<Delivery> = Vec::new();
    let r = c1.handle_message(
        Message::PrivMsg(Target::Channel(s("#rust")), s("hi")),
        &mut clients,
        &mut channels,
        &mut out,
    );
    assert!(r.is_ok());
    assert_eq!(
        out,
        vec![send_reply(
            2,
            Reply::PrivMsg {
                sender: s("alice"),
                target: Target::Channel(s("#rust")),
                text: s("hi"),
            }
        )]
    );
    assert!(out.iter().all(|d| d.to != 1));
}

#[test]
fn part_removes_and_may_delete() {
    let mut clients = Clients::new();
    let mut channels = Channels::new();
    let mut c1 = Client::new(s("c1"), 1);
    let mut c2 = Client::new(s("c2"), 2);
    login_as(&mut c1, &mut clients, "alice", "Alice");
    login_as(&mut c2, &mut clients, "bob", "Bob");

    let mut out: Vec<Delivery> = Vec::new();
    c1.handle_message(Message::Join(s("#rust")), &mut clients, &mut channels, &mut out)
        .unwrap();
    c2.handle_message(Message::Join(s("#rust")), &mut clients, &mut channels, &mut out)
        .unwrap();

    // alice parts: bob is told, the channel stays
    let mut out: Vec<Delivery> = Vec::new();
    c1.handle_message(Message::Part(s("#rust")), &mut clients, &mut channels, &mut out)
        .unwrap();
    assert_eq!(
        out,
        vec![send_reply(
            2,
            Reply::Part {
                sender: s("alice"),
                channel: s("#rust"),
            }
        )]
    );
    assert!(channels.contains(&s("#rust")));

    // bob parts: nobody is left to tell, the channel is deleted
    let mut out: Vec<Delivery> = Vec::new();
    c2.handle_message(Message::Part(s("#rust")), &mut clients, &mut channels, &mut out)
        .unwrap();
    assert!(out.is_empty());
    assert!(!channels.contains(&s("#rust")));
}

#[test]
fn privmsg_to_unknown_targets() {
    let mut clients = Clients::new();
    let mut channels = Channels::new();
    let mut c1 = Client::new(s("c1"), 1);
    login_as(&mut c1, &mut clients, "alice", "Alice");

    let mut out: Vec<Delivery> = Vec::new();
    c1.handle_message(
        Message::PrivMsg(Target::User(s("nobody")), s("hey")),
        &mut clients,
        &mut channels,
        &mut out,
    )
    .unwrap();
    assert_eq!(
        out,
        vec![send_reply(
            1,
            Reply::Error {
                kind: ErrorType::NoSuchNick,
            }
        )]
    );

    let mut out: Vec<Delivery> = Vec::new();
    c1.handle_message(
        Message::PrivMsg(Target::Channel(s("#nowhere")), s("hey")),
        &mut clients,
        &mut channels,
        &mut out,
    )
    .unwrap();
    assert_eq!(
        out,
        vec![send_reply(
            1,
            Reply::Error {
                kind: ErrorType::NoSuchChannel,
            }
        )]
    );
}

#[test]
fn quit_fan_out() {
    let mut clients = Clients::new();
    let mut channels = Channels::new();
    let mut c1 = Client::new(s("c1"), 1);
    let mut c2 = Client::new(s("c2"), 2);
    let mut c3 = Client::new(s("c3"), 3);
    login_as(&mut c1, &mut clients, "alice", "Alice");
    login_as(&mut c2, &mut clients, "bob", "Bob");
    login_as(&mut c3, &mut clients, "carol", "Carol");

    let mut out: Vec<Delivery> = Vec::new();
    c1.handle_message(Message::Join(s("#x")), &mut clients, &mut channels, &mut out)
        .unwrap();
    c2.handle_message(Message::Join(s("#x")), &mut clients, &mut channels, &mut out)
        .unwrap();
    c3.handle_message(Message::Join(s("#x")), &mut clients, &mut channels, &mut out)
        .unwrap();

    let mut out: Vec<Delivery> = Vec::new();
    let r = c1.handle_message(
        Message::Quit(Some(s("bye"))),
        &mut clients,
        &mut channels,
        &mut out,
    );
    assert!(r.is_err());
    let quit = |to: u64| {
        send_reply(
            to,
            Reply::Quit {
                sender: s("alice"),
                reason: Some(s("bye")),
            },
        )
    };
    assert_eq!(out, vec![quit(2), quit(3)]);
    assert!(out.iter().all(|d| d.to != 1));
    assert_eq!(c1.phase, SessionPhase::Closing);
    assert_eq!(clients.lookup(&s("alice")), None);

    // the channel survives with the two remaining members
    let snap = channels.members_snapshot(&s("#x")).unwrap();
    assert_eq!(snap, vec![(s("bob"), 2), (s("carol"), 3)]);
}

#[test]
fn teardown_after_disconnect_runs_quit_fan_out() {
    let mut clients = Clients::new();
    let mut channels = Channels::new();
    let mut c1 = Client::new(s("c1"), 1);
    let mut c2 = Client::new(s("c2"), 2);
    login_as(&mut c1, &mut clients, "alice", "Alice");
    login_as(&mut c2, &mut clients, "bob", "Bob");

    let mut out: Vec<Delivery> = Vec::new();
    c1.handle_message(Message::Join(s("#x")), &mut clients, &mut channels, &mut out)
        .unwrap();
    c2.handle_message(Message::Join(s("#x")), &mut clients, &mut channels, &mut out)
        .unwrap();

    // alice's connection drops: teardown must behave like a QUIT
    let mut out: Vec<Delivery> = Vec::new();
    c1.teardown(&mut clients, &mut channels, &mut out);
    assert_eq!(
        out,
        vec![
            send_reply(
                2,
                Reply::Quit {
                    sender: s("alice"),
                    reason: None,
                }
            ),
            Delivery {
                to: 1,
                event: OutboundEvent::Terminate,
            },
        ]
    );
    assert_eq!(clients.lookup(&s("alice")), None);
    let snap = channels.members_snapshot(&s("#x")).unwrap();
    assert_eq!(snap, vec![(s("bob"), 2)]);

    // a second teardown touches nothing but the writer
    let mut out: Vec<Delivery> = Vec::new();
    c1.teardown(&mut clients, &mut channels, &mut out);
    assert_eq!(
        out,
        vec![Delivery {
            to: 1,
            event: OutboundEvent::Terminate,
        }]
    );
    assert_eq!(clients.lookup(&s("bob")), Some(2));
}

#[test]
fn quit_during_login_registers_nothing() {
    let mut clients = Clients::new();
    let mut out: Vec<Delivery> = Vec::new();
    let mut c1 = Client::new(s("c1"), 1);
    c1.login(Message::Nick(s("alice")), &mut clients, &mut out);
    let st = c1.login(Message::Quit(None), &mut clients, &mut out);
    assert_eq!(st, LoginStatus::Quit);
    assert!(out.is_empty());
    assert_eq!(clients.lookup(&s("alice")), None);
}
