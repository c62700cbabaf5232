//! The per-connection session: login handshake, steady-state command
//! dispatch, and teardown.
//!
//! A session owns no socket here: the connection edge reads lines, has the
//! grammar parse them, and hands each [`Message`] to these functions
//! together with the shared registries. Each function returns, through the
//! `out` vector, the deliveries to enqueue on recipients' outbound queues,
//! in enqueue order. The surrounding program performs the enqueues after
//! it has released the registry locks.

use vstd::prelude::*;
use crate::types::{
    ConnError, Delivery, ErrorType, LoopControlError, Message, OutboundEvent, Reply, SessionPhase,
    Target,
};
use crate::registry::{
    affected, has_key, join_effect, lemma_strip_push, pair_entries, part_effect, quit_effect,
    str_eq, strip, Channels, Clients,
};

verus! {

/// The same reply, sent to each listed member, in list order.
pub open spec fn fanout_to(members: Seq<(Seq<char>, u64)>, reply: Reply) -> Seq<Delivery> {
    members.map_values(
        |p: (Seq<char>, u64)| Delivery { to: p.1, event: OutboundEvent::Send(reply) },
    )
}

/// The QUIT fan-out: the reply goes to the remaining members of each
/// affected channel, channel by channel in registry order.
pub open spec fn quit_fanout(
    aff: Seq<(Seq<char>, Seq<(Seq<char>, u64)>)>,
    reply: Reply,
) -> Seq<Delivery>
    decreases aff.len(),
{
    if aff.len() == 0 {
        Seq::empty()
    } else {
        quit_fanout(aff.drop_last(), reply) + fanout_to(aff.last().1, reply)
    }
}

pub proof fn lemma_quit_fanout_push(
    aff: Seq<(Seq<char>, Seq<(Seq<char>, u64)>)>,
    e: (Seq<char>, Seq<(Seq<char>, u64)>),
    reply: Reply,
)
    ensures
        quit_fanout(aff.push(e), reply) == quit_fanout(aff, reply) + fanout_to(e.1, reply),
{
    assert(aff.push(e).drop_last() =~= aff);
    assert(aff.push(e).last() == e);
}

fn clone_opt_string(s: &Option<String>) -> (r: Option<String>)
    ensures
        r == *s,
{
    match s {
        Some(x) => Some(x.clone()),
        None => None,
    }
}

fn clone_target(t: &Target) -> (r: Target)
    ensures
        r == *t,
{
    match t {
        Target::User(n) => Target::User(n.clone()),
        Target::Channel(c) => Target::Channel(c.clone()),
    }
}

fn clone_reply(r: &Reply) -> (c: Reply)
    ensures
        c == *r,
{
    match r {
        Reply::Welcome { target_nick, real_name } => Reply::Welcome {
            target_nick: target_nick.clone(),
            real_name: real_name.clone(),
        },
        Reply::Pong { token } => Reply::Pong { token: token.clone() },
        Reply::PrivMsg { sender, target, text } => Reply::PrivMsg {
            sender: sender.clone(),
            target: clone_target(target),
            text: text.clone(),
        },
        Reply::Join { sender, channel } => Reply::Join {
            sender: sender.clone(),
            channel: channel.clone(),
        },
        Reply::Part { sender, channel } => Reply::Part {
            sender: sender.clone(),
            channel: channel.clone(),
        },
        Reply::Quit { sender, reason } => Reply::Quit {
            sender: sender.clone(),
            reason: clone_opt_string(reason),
        },
        Reply::Error { kind } => Reply::Error { kind: *kind },
        Reply::Grammar { text } => Reply::Grammar { text: text.clone() },
    }
}

/// Enqueue one copy of the reply per snapshot member, in snapshot order.
#[verifier::loop_isolation(false)]
fn fanout_push(out: &mut Vec<Delivery>, snap: &Vec<(String, u64)>, reply: &Reply)
    ensures
        final(out)@ == old(out)@ + fanout_to(pair_entries(snap@), *reply),
{
    let ghost base = out@;
    let ghost entries = pair_entries(snap@);
    let mut j: usize = 0;
    while j < snap.len()
        invariant
            j <= snap.len(),
            out@ == base + fanout_to(entries.take(j as int), *reply),
        decreases snap.len() - j,
    {
        out.push(Delivery { to: snap[j].1, event: OutboundEvent::Send(clone_reply(reply)) });
        j += 1;
        proof {
            assert(entries.take(j as int) =~= entries.take(j as int - 1).push(
                entries[j as int - 1],
            ));
            assert(out@ =~= base + fanout_to(entries.take(j as int), *reply));
        }
    }
    proof {
        assert(entries.take(snap@.len() as int) =~= entries);
    }
}

/// Enqueue one copy of the reply per snapshot member whose nick is not
/// `skip`, in snapshot order: a channel broadcast that does not echo.
#[verifier::loop_isolation(false)]
fn fanout_except_push(out: &mut Vec<Delivery>, snap: &Vec<(String, u64)>, skip: &String, reply: &Reply)
    ensures
        final(out)@ == old(out)@ + fanout_to(strip(pair_entries(snap@), skip@), *reply),
{
    let ghost base = out@;
    let ghost entries = pair_entries(snap@);
    let mut j: usize = 0;
    while j < snap.len()
        invariant
            j <= snap.len(),
            out@ == base + fanout_to(strip(entries.take(j as int), skip@), *reply),
        decreases snap.len() - j,
    {
        proof {
            assert(entries.take(j as int + 1) =~= entries.take(j as int).push(entries[j as int]));
            lemma_strip_push(entries.take(j as int), entries[j as int], skip@);
        }
        if !str_eq(&snap[j].0, skip) {
            out.push(Delivery { to: snap[j].1, event: OutboundEvent::Send(clone_reply(reply)) });
            proof {
                assert(out@ =~= base + fanout_to(strip(entries.take(j as int + 1), skip@), *reply));
            }
        }
        j += 1;
    }
    proof {
        assert(entries.take(snap@.len() as int) =~= entries);
    }
}

/// What one login step returned and changed.
#[derive(PartialEq, Eq, Structural, Clone, Copy, Debug)]
pub enum LoginStatus {
    /// Still in the handshake.
    Pending,
    /// Both NICK and USER accepted and the nick claimed: steady state.
    LoggedIn,
    /// The client quit before completing login.
    Quit,
}

/// The full outcome of one login step, as one spec value.
pub struct LoginOutcome {
    pub nick: Option<String>,
    pub user: Option<String>,
    pub phase: SessionPhase,
    pub clients: Map<Seq<char>, u64>,
    pub sent: Seq<Delivery>,
    pub status: LoginStatus,
}

/// The transition attempt shared by the NICK and USER steps: once both
/// fields are set, claim the nick; on success emit exactly one Welcome and
/// enter steady state; if the nick was claimed meanwhile, emit the
/// collision error and give the nick up so another can be chosen.
pub open spec fn login_finish(
    sink: u64,
    nick: Option<String>,
    user: Option<String>,
    clients: Map<Seq<char>, u64>,
) -> LoginOutcome {
    if nick is Some && user is Some {
        if clients.contains_key(nick.unwrap()@) {
            LoginOutcome {
                nick: None,
                user,
                phase: SessionPhase::Login,
                clients,
                sent: seq![
                    Delivery {
                        to: sink,
                        event: OutboundEvent::Send(Reply::Error { kind: ErrorType::NickCollision }),
                    },
                ],
                status: LoginStatus::Pending,
            }
        } else {
            LoginOutcome {
                nick,
                user,
                phase: SessionPhase::SteadyState,
                clients: clients.insert(nick.unwrap()@, sink),
                sent: seq![
                    Delivery {
                        to: sink,
                        event: OutboundEvent::Send(
                            Reply::Welcome { target_nick: nick.unwrap(), real_name: user.unwrap() },
                        ),
                    },
                ],
                status: LoginStatus::LoggedIn,
            }
        }
    } else {
        LoginOutcome {
            nick,
            user,
            phase: SessionPhase::Login,
            clients,
            sent: Seq::empty(),
            status: LoginStatus::Pending,
        }
    }
}

/// One step of the login state machine: what [`Client::login`] does with
/// one parsed message.
pub open spec fn login_step(c: Client, clients: Map<Seq<char>, u64>, m: Message) -> LoginOutcome {
    match m {
        Message::Quit(_) => LoginOutcome {
            nick: c.nick,
            user: c.user,
            phase: c.phase,
            clients,
            sent: Seq::empty(),
            status: LoginStatus::Quit,
        },
        Message::Nick(n) => {
            if clients.contains_key(n@) {
                LoginOutcome {
                    nick: c.nick,
                    user: c.user,
                    phase: c.phase,
                    clients,
                    sent: seq![
                        Delivery {
                            to: c.sink,
                            event: OutboundEvent::Send(
                                Reply::Error { kind: ErrorType::NickCollision },
                            ),
                        },
                    ],
                    status: LoginStatus::Pending,
                }
            } else {
                let nick2 = if c.nick is None {
                    Some(n)
                } else {
                    c.nick
                };
                login_finish(c.sink, nick2, c.user, clients)
            }
        },
        Message::User(u) => {
            let user2 = if c.user is None {
                Some(u)
            } else {
                c.user
            };
            login_finish(c.sink, c.nick, user2, clients)
        },
        _ => LoginOutcome {
            nick: c.nick,
            user: c.user,
            phase: c.phase,
            clients,
            sent: Seq::empty(),
            status: LoginStatus::Pending,
        },
    }
}

/// The deliveries a PRIVMSG produces: to the named user if registered, to
/// every channel member but the sender if the channel exists, and the
/// matching error to the sender alone otherwise.
pub open spec fn privmsg_sent(
    sender: String,
    self_sink: u64,
    clients: Map<Seq<char>, u64>,
    channels: Map<Seq<char>, Seq<(Seq<char>, u64)>>,
    target: Target,
    text: String,
) -> Seq<Delivery> {
    match target {
        Target::User(n) => {
            if clients.contains_key(n@) {
                seq![
                    Delivery {
                        to: clients[n@],
                        event: OutboundEvent::Send(Reply::PrivMsg { sender, target, text }),
                    },
                ]
            } else {
                seq![
                    Delivery {
                        to: self_sink,
                        event: OutboundEvent::Send(Reply::Error { kind: ErrorType::NoSuchNick }),
                    },
                ]
            }
        },
        Target::Channel(c) => {
            if channels.contains_key(c@) {
                fanout_to(
                    strip(channels[c@], sender@),
                    Reply::PrivMsg { sender, target, text },
                )
            } else {
                seq![
                    Delivery {
                        to: self_sink,
                        event: OutboundEvent::Send(Reply::Error { kind: ErrorType::NoSuchChannel }),
                    },
                ]
            }
        },
    }
}

/// One connection's session state.
pub struct Client {
    /// The nick this session has chosen; never cleared once claimed.
    pub nick: Option<String>,
    /// The real name from USER; never cleared once set.
    pub user: Option<String>,
    /// The sink handle of this connection's own outbound queue.
    pub sink: u64,
    /// A stable connection identifier, used only for logs.
    pub rid: String,
    /// Login, steady state, or closing.
    pub phase: SessionPhase,
}

impl Client {
    /// The claimed nick, as its character sequence.
    pub open spec fn nick_view(&self) -> Seq<char> {
        self.nick.unwrap()@
    }

    /// In steady state both handshake fields are set.
    pub open spec fn wf(&self) -> bool {
        self.phase is SteadyState ==> self.nick is Some && self.user is Some
    }

    /// This session's registration: in steady state the clients registry
    /// maps its nick to its own sink.
    pub open spec fn registered(&self, clients: Map<Seq<char>, u64>) -> bool {
        self.phase is SteadyState ==> clients.contains_key(self.nick_view())
            && clients[self.nick_view()] == self.sink
    }

    pub fn new(rid: String, sink: u64) -> (c: Client)
        ensures
            c.nick is None,
            c.user is None,
            c.sink == sink,
            c.rid == rid,
            c.phase is Login,
    {
        Client { nick: None, user: None, sink, rid, phase: SessionPhase::Login }
    }

    /// The connection identifier, for logs.
    pub fn rid(&self) -> (r: String)
        ensures
            r == self.rid,
    {
        self.rid.clone()
    }

    /// An event for this session's own sink.
    pub fn send(&self, reply: Reply) -> (d: Delivery)
        ensures
            d == (Delivery { to: self.sink, event: OutboundEvent::Send(reply) }),
    {
        Delivery { to: self.sink, event: OutboundEvent::Send(reply) }
    }

    /// The terminate event for this session's own sink.
    pub fn terminate(&self) -> (d: Delivery)
        ensures
            d == (Delivery { to: self.sink, event: OutboundEvent::Terminate }),
    {
        Delivery { to: self.sink, event: OutboundEvent::Terminate }
    }

    /// Classify one read from the wire codec: connection loss breaks the
    /// session loop; a framing error skips the line and reads on.
    pub fn recv(&self, input: Result<String, ConnError>) -> (r: Result<String, LoopControlError>)
        ensures
            r == (match input {
                Ok(m) => Ok::<String, LoopControlError>(m),
                Err(ConnError::Lost) => Err::<String, LoopControlError>(LoopControlError::Break),
                Err(ConnError::Closed) => Err::<String, LoopControlError>(LoopControlError::Break),
                Err(ConnError::MalformedBytes) => Err::<String, LoopControlError>(
                    LoopControlError::Continue,
                ),
            }),
    {
        match input {
            Ok(m) => Ok(m),
            Err(ConnError::Lost) => Err(LoopControlError::Break),
            Err(ConnError::Closed) => Err(LoopControlError::Break),
            Err(ConnError::MalformedBytes) => Err(LoopControlError::Continue),
        }
    }

    /// Accept the grammar's verdict on one line: a parsed message passes
    /// through; a grammar error is echoed to this session alone and the
    /// line is skipped.
    pub fn parse(&self, parsed: Result<Message, String>, out: &mut Vec<Delivery>) -> (r: Result<
        Message,
        LoopControlError,
    >)
        ensures
            parsed matches Ok(m) ==> r == Ok::<Message, LoopControlError>(m) && final(out)@ == old(out)@,
            parsed matches Err(text) ==> r == Err::<Message, LoopControlError>(
                LoopControlError::Continue,
            ) && final(out)@ == old(out)@.push(
                (Delivery { to: self.sink, event: OutboundEvent::Send(Reply::Grammar { text }) }),
            ),
    {
        match parsed {
            Ok(m) => Ok(m),
            Err(text) => {
                out.push(self.send(Reply::Grammar { text }));
                Err(LoopControlError::Continue)
            },
        }
    }

    /// Emit the single Welcome that marks the transition to steady state.
    pub fn welcome(&self, out: &mut Vec<Delivery>)
        requires
            self.nick is Some,
            self.user is Some,
        ensures
            final(out)@ == old(out)@.push(
                (Delivery {
                    to: self.sink,
                    event: OutboundEvent::Send(
                        Reply::Welcome {
                            target_nick: self.nick.unwrap(),
                            real_name: self.user.unwrap(),
                        },
                    ),
                }),
            ),
    {
        let target_nick = self.nick.as_ref().unwrap().clone();
        let real_name = self.user.as_ref().unwrap().clone();
        out.push(Delivery {
            to: self.sink,
            event: OutboundEvent::Send(Reply::Welcome { target_nick, real_name }),
        });
    }

    /// Attempt the Login to SteadyState transition once a handshake field
    /// changed; see [`login_finish`] for exactly what it does.
    fn try_transition(&mut self, clients: &mut Clients, out: &mut Vec<Delivery>) -> (st:
        LoginStatus)
        requires
            old(self).phase is Login,
        ensures
            ({
                let o = login_finish(
                    old(self).sink,
                    old(self).nick,
                    old(self).user,
                    old(clients)@,
                );
                &&& final(self).nick == o.nick
                &&& final(self).user == o.user
                &&& final(self).phase == o.phase
                &&& final(self).sink == old(self).sink
                &&& final(self).rid == old(self).rid
                &&& final(clients)@ == o.clients
                &&& final(out)@ == old(out)@ + o.sent
                &&& st == o.status
            }),
    {
        if self.nick.is_some() && self.user.is_some() {
            let n = self.nick.as_ref().unwrap().clone();
            if clients.try_claim(n, self.sink) {
                self.welcome(out);
                self.phase = SessionPhase::SteadyState;
                proof {
                    assert(out@ =~= old(out)@ + login_finish(
                        old(self).sink,
                        old(self).nick,
                        old(self).user,
                        old(clients)@,
                    ).sent);
                }
                LoginStatus::LoggedIn
            } else {
                out.push(self.send(Reply::Error { kind: ErrorType::NickCollision }));
                self.nick = None;
                proof {
                    assert(out@ =~= old(out)@ + login_finish(
                        old(self).sink,
                        old(self).nick,
                        old(self).user,
                        old(clients)@,
                    ).sent);
                }
                LoginStatus::Pending
            }
        } else {
            proof {
                assert(out@ =~= old(out)@ + Seq::<Delivery>::empty());
            }
            LoginStatus::Pending
        }
    }

    /// One step of the login handshake, driven with one parsed message;
    /// [`login_step`] says exactly what happens. Only NICK, USER and QUIT
    /// are considered; anything else is ignored while logging in.
    pub fn login(&mut self, m: Message, clients: &mut Clients, out: &mut Vec<Delivery>) -> (st:
        LoginStatus)
        requires
            old(self).phase is Login,
        ensures
            ({
                let o = login_step(*old(self), old(clients)@, m);
                &&& final(self).nick == o.nick
                &&& final(self).user == o.user
                &&& final(self).phase == o.phase
                &&& final(self).sink == old(self).sink
                &&& final(self).rid == old(self).rid
                &&& final(clients)@ == o.clients
                &&& final(out)@ == old(out)@ + o.sent
                &&& st == o.status
            }),
    {
        match m {
            Message::Quit(_) => {
                proof {
                    assert(out@ =~= out@ + Seq::<Delivery>::empty());
                }
                LoginStatus::Quit
            },
            Message::Nick(n) => {
                if clients.contains(&n) {
                    out.push(self.send(Reply::Error { kind: ErrorType::NickCollision }));
                    proof {
                        assert(out@ =~= old(out)@ + login_step(*old(self), old(clients)@, Message::Nick(n)).sent);
                    }
                    LoginStatus::Pending
                } else {
                    if self.nick.is_none() {
                        self.nick = Some(n);
                    }
                    self.try_transition(clients, out)
                }
            },
            Message::User(u) => {
                if self.user.is_none() {
                    self.user = Some(u);
                }
                self.try_transition(clients, out)
            },
            _ => {
                proof {
                    assert(out@ =~= out@ + Seq::<Delivery>::empty());
                }
                LoginStatus::Pending
            },
        }
    }

    /// PING: answer with a Pong carrying the same token, to the sender
    /// alone; no effect on the registries.
    pub fn handle_ping(&self, token: String, out: &mut Vec<Delivery>)
        ensures
            final(out)@ == old(out)@.push(
                (Delivery { to: self.sink, event: OutboundEvent::Send(Reply::Pong { token }) }),
            ),
    {
        out.push(Delivery { to: self.sink, event: OutboundEvent::Send(Reply::Pong { token }) });
    }

    /// PRIVMSG: relay to the named user, or to every member of the channel
    /// but the sender; an unknown target earns the sender the matching
    /// error. Never echoed to the sender; no effect on the registries.
    pub fn handle_privmsg(
        &self,
        target: Target,
        text: String,
        clients: &Clients,
        channels: &Channels,
        out: &mut Vec<Delivery>,
    )
        requires
            self.nick is Some,
            channels.wf(),
        ensures
            final(out)@ == old(out)@ + privmsg_sent(
                self.nick.unwrap(),
                self.sink,
                clients@,
                channels@,
                target,
                text,
            ),
    {
        let ghost tgt = target;
        let ghost txt = text;
        let sender = self.nick.as_ref().unwrap().clone();
        match target {
            Target::User(n) => {
                match clients.lookup(&n) {
                    Some(sink) => {
                        out.push(Delivery {
                            to: sink,
                            event: OutboundEvent::Send(
                                Reply::PrivMsg { sender, target: Target::User(n), text },
                            ),
                        });
                        proof {
                            assert(out@ =~= old(out)@ + privmsg_sent(
                                self.nick.unwrap(),
                                self.sink,
                                clients@,
                                channels@,
                                tgt,
                                txt,
                            ));
                        }
                    },
                    None => {
                        out.push(self.send(Reply::Error { kind: ErrorType::NoSuchNick }));
                        proof {
                            assert(out@ =~= old(out)@ + privmsg_sent(
                                self.nick.unwrap(),
                                self.sink,
                                clients@,
                                channels@,
                                tgt,
                                txt,
                            ));
                        }
                    },
                }
            },
            Target::Channel(c) => {
                match channels.members_snapshot(&c) {
                    Some(snap) => {
                        let reply = Reply::PrivMsg {
                            sender: sender.clone(),
                            target: Target::Channel(c),
                            text,
                        };
                        fanout_except_push(out, &snap, &sender, &reply);
                        proof {
                            assert(reply == (Reply::PrivMsg {
                                sender: self.nick.unwrap(),
                                target: tgt,
                                text: txt,
                            }));
                            assert(out@ =~= old(out)@ + privmsg_sent(
                                self.nick.unwrap(),
                                self.sink,
                                clients@,
                                channels@,
                                tgt,
                                txt,
                            ));
                        }
                    },
                    None => {
                        out.push(self.send(Reply::Error { kind: ErrorType::NoSuchChannel }));
                        proof {
                            assert(out@ =~= old(out)@ + privmsg_sent(
                                self.nick.unwrap(),
                                self.sink,
                                clients@,
                                channels@,
                                tgt,
                                txt,
                            ));
                        }
                    },
                }
            },
        }
    }

    /// JOIN: become a member of the channel (created if absent) and
    /// announce the join to every current member, the joiner included.
    pub fn handle_join(&self, channel: String, channels: &mut Channels, out: &mut Vec<Delivery>)
        requires
            self.nick is Some,
            old(channels).wf(),
        ensures
            final(channels).wf(),
            final(channels)@ == join_effect(
                old(channels)@,
                channel@,
                self.nick_view(),
                self.sink,
            ),
            final(channels)@.contains_key(channel@),
            final(out)@ == old(out)@ + fanout_to(
                final(channels)@[channel@],
                (Reply::Join { sender: self.nick.unwrap(), channel }),
            ),
    {
        let nick = self.nick.as_ref().unwrap().clone();
        let reply = Reply::Join { sender: nick.clone(), channel: channel.clone() };
        let snap = channels.join(&channel, nick, self.sink);
        fanout_push(out, &snap, &reply);
    }

    /// PART: leave the channel if a member, announcing it to those who
    /// remain; silently ignored otherwise. A channel left empty is
    /// deleted.
    pub fn handle_part(&self, channel: String, channels: &mut Channels, out: &mut Vec<Delivery>)
        requires
            self.nick is Some,
            old(channels).wf(),
        ensures
            final(channels).wf(),
            final(channels)@ == part_effect(old(channels)@, channel@, self.nick_view()),
            (old(channels)@.contains_key(channel@) && has_key(
                old(channels)@[channel@],
                self.nick_view(),
            )) ==> final(out)@ == old(out)@ + fanout_to(
                strip(old(channels)@[channel@], self.nick_view()),
                (Reply::Part { sender: self.nick.unwrap(), channel }),
            ),
            !(old(channels)@.contains_key(channel@) && has_key(
                old(channels)@[channel@],
                self.nick_view(),
            )) ==> final(out)@ == old(out)@,
    {
        let nick = self.nick.as_ref().unwrap().clone();
        let reply = Reply::Part { sender: nick.clone(), channel: channel.clone() };
        let (was, snap) = channels.part(&channel, &nick);
        if was {
            fanout_push(out, &snap, &reply);
        }
    }

    /// QUIT: leave every channel, announcing it to each channel's
    /// remaining members (never to the quitter), delete channels left
    /// empty, release the nick, and close.
    #[verifier::loop_isolation(false)]
    pub fn handle_quit(
        &mut self,
        reason: Option<String>,
        clients: &mut Clients,
        channels: &mut Channels,
        out: &mut Vec<Delivery>,
    )
        requires
            old(self).nick is Some,
            old(channels).wf(),
        ensures
            final(self).phase is Closing,
            final(self).nick == old(self).nick,
            final(self).user == old(self).user,
            final(self).sink == old(self).sink,
            final(self).rid == old(self).rid,
            final(channels).wf(),
            final(channels)@ == quit_effect(old(channels)@, old(self).nick_view()),
            forall|c: Seq<char>| #[trigger]
                final(channels)@.contains_key(c) ==> !has_key(
                    final(channels)@[c],
                    old(self).nick_view(),
                ),
            final(clients)@ == old(clients)@.remove(old(self).nick_view()),
            final(out)@ == old(out)@ + quit_fanout(
                affected(old(channels).gentries(), old(self).nick_view()),
                (Reply::Quit { sender: old(self).nick.unwrap(), reason }),
            ),
    {
        let nick = self.nick.as_ref().unwrap().clone();
        let reply = Reply::Quit { sender: nick.clone(), reason };
        let snaps = channels.remove_member_everywhere(&nick);
        let ghost aff = affected(old(channels).gentries(), self.nick_view());
        let ghost snaps_view = crate::registry::snaps_entries(snaps@);
        let ghost base = out@;
        let mut j: usize = 0;
        proof {
            assert(base + quit_fanout(aff.take(0), reply) =~= base);
        }
        while j < snaps.len()
            invariant
                j <= snaps.len(),
                snaps_view == aff,
                snaps_view == crate::registry::snaps_entries(snaps@),
                out@ == base + quit_fanout(aff.take(j as int), reply),
            decreases snaps.len() - j,
        {
            fanout_push(out, &snaps[j].1, &reply);
            j += 1;
            proof {
                assert(aff.take(j as int) =~= aff.take(j as int - 1).push(aff[j as int - 1]));
                lemma_quit_fanout_push(aff.take(j as int - 1), aff[j as int - 1], reply);
                assert(pair_entries(snaps@[j as int - 1].1@) == aff[j as int - 1].1);
            }
        }
        proof {
            assert(aff.take(snaps@.len() as int) =~= aff);
        }
        clients.release(&nick);
        self.phase = SessionPhase::Closing;
    }

    /// Steady-state dispatch of one parsed message. NICK and USER are
    /// silently ignored after login; QUIT also tells the caller to leave
    /// the read loop.
    pub fn handle_message(
        &mut self,
        m: Message,
        clients: &mut Clients,
        channels: &mut Channels,
        out: &mut Vec<Delivery>,
    ) -> (r: Result<(), LoopControlError>)
        requires
            old(self).phase is SteadyState,
            old(self).wf(),
            old(channels).wf(),
        ensures
            final(self).wf(),
            final(self).nick == old(self).nick,
            final(self).user == old(self).user,
            final(self).sink == old(self).sink,
            final(self).rid == old(self).rid,
            final(channels).wf(),
            r == (if m is Quit {
                Err::<(), LoopControlError>(LoopControlError::Break)
            } else {
                Ok::<(), LoopControlError>(())
            }),
            m is Quit ==> final(self).phase is Closing,
            !(m is Quit) ==> final(self).phase is SteadyState,
            (m is Nick || m is User) ==> final(clients)@ == old(clients)@ && final(channels)@
                == old(channels)@ && final(out)@ == old(out)@,
            m matches Message::Ping(token) ==> final(clients)@ == old(clients)@ && final(channels)@
                == old(channels)@ && final(out)@ == old(out)@.push(
                (Delivery { to: old(self).sink, event: OutboundEvent::Send(Reply::Pong { token }) }),
            ),
            m matches Message::PrivMsg(target, text) ==> final(clients)@ == old(clients)@ && final(channels)@ == old(channels)@ && final(out)@ == old(out)@ + privmsg_sent(
                old(self).nick.unwrap(),
                old(self).sink,
                old(clients)@,
                old(channels)@,
                target,
                text,
            ),
            m matches Message::Join(channel) ==> final(clients)@ == old(clients)@ && final(channels)@ == join_effect(old(channels)@, channel@, old(self).nick_view(), old(self).sink)
                && final(out)@ == old(out)@ + fanout_to(
                final(channels)@[channel@],
                (Reply::Join { sender: old(self).nick.unwrap(), channel }),
            ),
            m matches Message::Part(channel) ==> final(clients)@ == old(clients)@ && final(channels)@ == part_effect(old(channels)@, channel@, old(self).nick_view()) && (if (old(channels)@.contains_key(channel@) && has_key(old(channels)@[channel@], old(self).nick_view())) {
                final(out)@ == old(out)@ + fanout_to(
                    strip(old(channels)@[channel@], old(self).nick_view()),
                    (Reply::Part { sender: old(self).nick.unwrap(), channel }),
                )
            } else {
                final(out)@ == old(out)@
            }),
            m matches Message::Quit(reason) ==> final(channels)@ == quit_effect(
                old(channels)@,
                old(self).nick_view(),
            ) && final(clients)@ == old(clients)@.remove(old(self).nick_view()) && final(out)@
                == old(out)@ + quit_fanout(
                affected(old(channels).gentries(), old(self).nick_view()),
                (Reply::Quit { sender: old(self).nick.unwrap(), reason }),
            ),
    {
        match m {
            Message::Nick(_) => Ok(()),
            Message::User(_) => Ok(()),
            Message::Ping(token) => {
                self.handle_ping(token, out);
                Ok(())
            },
            Message::PrivMsg(target, text) => {
                self.handle_privmsg(target, text, clients, channels, out);
                Ok(())
            },
            Message::Join(channel) => {
                self.handle_join(channel, channels, out);
                Ok(())
            },
            Message::Part(channel) => {
                self.handle_part(channel, channels, out);
                Ok(())
            },
            Message::Quit(reason) => {
                self.handle_quit(reason, clients, channels, out);
                Err(LoopControlError::Break)
            },
        }
    }

    /// Teardown, whether after QUIT or after connection loss: run the QUIT
    /// fan-out and release the nick if the session had reached steady
    /// state, then terminate the writer. Sessions that never logged in
    /// touch no registry.
    pub fn teardown(
        &mut self,
        clients: &mut Clients,
        channels: &mut Channels,
        out: &mut Vec<Delivery>,
    )
        requires
            old(self).wf(),
            old(channels).wf(),
        ensures
            final(self).phase is Closing,
            final(self).nick == old(self).nick,
            final(self).user == old(self).user,
            final(self).sink == old(self).sink,
            final(self).rid == old(self).rid,
            final(channels).wf(),
            old(self).phase is SteadyState ==> final(channels)@ == quit_effect(
                old(channels)@,
                old(self).nick_view(),
            ) && final(clients)@ == old(clients)@.remove(old(self).nick_view()) && final(out)@
                == old(out)@ + quit_fanout(
                affected(old(channels).gentries(), old(self).nick_view()),
                (Reply::Quit { sender: old(self).nick.unwrap(), reason: None }),
            ).push((Delivery { to: old(self).sink, event: OutboundEvent::Terminate })),
            !(old(self).phase is SteadyState) ==> final(channels)@ == old(channels)@ && final(clients)@ == old(clients)@ && final(out)@ == old(out)@.push(
                (Delivery { to: old(self).sink, event: OutboundEvent::Terminate }),
            ),
    {
        match self.phase {
            SessionPhase::SteadyState => {
                self.handle_quit(None, clients, channels, out);
            },
            _ => {},
        }
        self.phase = SessionPhase::Closing;
        let t = self.terminate();
        out.push(t);
    }
}

} // verus!
