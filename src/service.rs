//! The request-correlation core of the service. The service owns the
//! datagram socket and a task loop; every decision that loop takes is made
//! here, on plain values: a request to send is stamped and recorded, an
//! inbound datagram is answered or matched against what is pending, and a
//! clock tick fails what has waited too long. Each outcome is handed back as
//! effects: at most one datagram to send, and the replies owed to callers,
//! who are known by ticket.

use crate::id::{same_id, Identifier};
use crate::kbucket::{add_all, add_spec, closest_except, KbucketTable};
use crate::message::{body_legal, message_bytes, BodyModel, Message, MessageBody, MessageModel};
use crate::node::{Peer, K};
use crate::socket::{encoded, SocketAddr};
use vstd::prelude::*;

verus! {

/// How long a request waits for its response, in milliseconds.
pub const REQUEST_TIMEOUT_MS: u64 = 3000;

/// The request a pending entry waits on.
#[derive(Clone, Copy, Debug, PartialEq, Eq, Structural)]
pub enum RequestKind {
    Ping,
    FindNode,
}

/// A request that was sent and awaits its response.
#[derive(Clone, Copy, Debug, PartialEq, Eq)]
pub struct Pending {
    /// The peer asked.
    pub peer: Identifier,
    pub session: u8,
    pub kind: RequestKind,
    /// The caller waiting on it.
    pub ticket: u64,
    /// The time, in milliseconds, after which it fails.
    pub deadline: u64,
}

/// Why a request failed.
#[derive(Clone, Copy, Debug, PartialEq, Eq, Structural)]
pub enum ServiceError {
    /// No peer to ask.
    NotFound,
    /// No correlated response came in time.
    Timeout,
    /// The datagram could not be sent.
    TransportError,
    /// The caller gave up waiting.
    Cancelled,
    /// A request to the same peer under the same session tag is in flight.
    Busy,
}

/// What a caller receives.
#[derive(Clone, Debug)]
pub enum Reply {
    /// The peer answered a ping.
    Pong,
    /// The peer answered a find-node request with these peers.
    Peers(Vec<Peer>),
    Failed(ServiceError),
}

/// The reply owed to the caller holding `ticket`.
#[derive(Clone, Debug)]
pub struct Completion {
    pub ticket: u64,
    pub reply: Reply,
}

/// A datagram to send.
#[derive(Clone, Debug)]
pub struct Outbound {
    pub to: SocketAddr,
    pub bytes: Vec<u8>,
}

/// What one event asks of the loop around the service.
pub struct Effects {
    pub send: Option<Outbound>,
    pub completions: Vec<Completion>,
}

/// The state of a service: its own record, the pending requests, and the
/// next ticket to hand out.
pub struct Service {
    pub local_record: Peer,
    k: usize,
    pending: Vec<Pending>,
    next_ticket: u64,
    decode_failures: u64,
    dropped_responses: u64,
}

/// Value of a service: its own record, how many peers it returns to a
/// find-node request, the pending requests, the next ticket, and how many
/// datagrams could not be decoded and how many responses matched nothing.
pub struct ServiceView {
    pub local: Peer,
    pub k: nat,
    pub pending: Seq<Pending>,
    pub next_ticket: u64,
    pub decode_failures: u64,
    pub dropped_responses: u64,
}

impl View for Service {
    type V = ServiceView;

    closed spec fn view(&self) -> ServiceView {
        ServiceView {
            local: self.local_record,
            k: self.k as nat,
            pending: self.pending@,
            next_ticket: self.next_ticket,
            decode_failures: self.decode_failures,
            dropped_responses: self.dropped_responses,
        }
    }
}

/// Tickets of pending requests, in order.
pub open spec fn tickets(s: Seq<Pending>) -> Seq<u64> {
    s.map_values(|p: Pending| p.ticket)
}

/// Tickets of completions, in order.
pub open spec fn completed(c: Seq<Completion>) -> Seq<u64> {
    c.map_values(|c: Completion| c.ticket)
}

/// A request to `peer` under `session` is pending.
pub open spec fn has_key(s: Seq<Pending>, peer: Identifier, session: u8) -> bool {
    exists|j: int| 0 <= j < s.len() && (#[trigger] s[j]).peer@ == peer@ && s[j].session == session
}

/// The invariant of a service: tickets below the next one and never
/// shared, and at most one pending request per peer and session tag.
pub open spec fn service_wf(v: ServiceView) -> bool {
    &&& v.k <= 255
    &&& forall|i: int| 0 <= i < v.pending.len() ==> (#[trigger] v.pending[i]).ticket < v.next_ticket
    &&& forall|i: int, j: int|
        0 <= i < v.pending.len() && 0 <= j < v.pending.len() && i != j ==> (#[trigger] v.pending[i]).ticket
            != (#[trigger] v.pending[j]).ticket
    &&& forall|i: int, j: int|
        0 <= i < v.pending.len() && 0 <= j < v.pending.len() && i != j ==> !((
        #[trigger] v.pending[i]).peer@ == (#[trigger] v.pending[j]).peer@ && v.pending[i].session
            == v.pending[j].session)
}

/// The replies of one step: `done` names each caller answered, once; a
/// caller is answered exactly when its request was pending before the step
/// (or was submitted by it, as `submitted`) and is not pending after it. No
/// other request becomes pending, and tickets are never handed out twice.
pub open spec fn answers(
    before: ServiceView,
    after: ServiceView,
    done: Seq<u64>,
    submitted: Option<u64>,
) -> bool {
    &&& after.local == before.local
    &&& after.k == before.k
    &&& submitted is Some ==> submitted->0 == before.next_ticket && after.next_ticket
        == before.next_ticket + 1
    &&& submitted is None ==> after.next_ticket == before.next_ticket
    &&& done.no_duplicates()
    &&& forall|x: u64|
        #[trigger] done.contains(x) <==> ((tickets(before.pending).contains(x) || submitted == Some(
            x,
        )) && !tickets(after.pending).contains(x))
    &&& forall|x: u64|
        #[trigger] tickets(after.pending).contains(x) ==> tickets(before.pending).contains(x)
            || submitted == Some(x)
}

/// The request kind a body asks for, if it is a request.
pub open spec fn request_kind(b: BodyModel) -> Option<RequestKind> {
    match b {
        BodyModel::Ping(_) => Some(RequestKind::Ping),
        BodyModel::FindNode(_, _) => Some(RequestKind::FindNode),
        _ => None,
    }
}

/// The counters of `a` and `b` agree.
pub open spec fn same_counters(a: ServiceView, b: ServiceView) -> bool {
    a.decode_failures == b.decode_failures && a.dropped_responses == b.dropped_responses
}

/// One more than `n`, staying at the largest value.
pub open spec fn bumped(n: u64) -> u64 {
    if n < u64::MAX {
        (n + 1) as u64
    } else {
        n
    }
}

/// The deadline of a request sent at `now`.
pub open spec fn deadline_after(now: u64) -> u64 {
    if now + REQUEST_TIMEOUT_MS <= u64::MAX {
        (now + REQUEST_TIMEOUT_MS) as u64
    } else {
        u64::MAX
    }
}

/// How the service reacts to the message `m` from `from`: a ping is
/// answered with a pong and its sender learned; a find-node request is
/// answered with the `k` closest known peers other than the requester; a
/// response completes the pending request of the same peer, session tag and
/// kind, and is dropped when there is none. Peers that a correlated
/// find-node response returns are learned.
pub open spec fn reacts(
    before: ServiceView,
    table0: crate::kbucket::TableView,
    m: MessageModel,
    from: SocketAddr,
    after: ServiceView,
    table1: crate::kbucket::TableView,
    eff: Effects,
) -> bool {
    let local_id = before.local.id;
    match m.body {
        BodyModel::Ping(id) => {
            let sender = Peer { id, socket_addr: from };
            &&& table1 == add_spec(table0, sender)
            &&& after.pending == before.pending
            &&& after.dropped_responses == before.dropped_responses
            &&& eff.completions@.len() == 0
            &&& eff.send is Some
            &&& eff.send->0.to == from
            &&& eff.send->0.bytes@ == message_bytes(
                MessageModel { target: sender, session: m.session, body: BodyModel::Pong(local_id) },
            )
        },
        BodyModel::FindNode(id, t) => {
            &&& table1 == table0
            &&& after.pending == before.pending
            &&& after.dropped_responses == before.dropped_responses
            &&& eff.completions@.len() == 0
            &&& eff.send is Some
            &&& eff.send->0.to == from
            &&& exists|peers: Seq<Peer>|
                closest_except(table0, t, before.k, id, peers) && eff.send->0.bytes@ == message_bytes(
                    MessageModel {
                        target: Peer { id, socket_addr: from },
                        session: m.session,
                        body: BodyModel::FoundNode(local_id, peers.len() as u8, peers),
                    },
                )
        },
        BodyModel::Pong(id) => {
            &&& table1 == table0
            &&& eff.send is None
            &&& if exists|j: int| matches_at(before.pending, j, id, m.session, RequestKind::Ping) {
                exists|j: int|
                    matches_at(before.pending, j, id, m.session, RequestKind::Ping)
                        && after.pending == before.pending.remove(j) && eff.completions@.len() == 1
                        && eff.completions@[0].ticket == before.pending[j].ticket
                        && eff.completions@[0].reply is Pong
                        && after.dropped_responses == before.dropped_responses
            } else {
                after.pending == before.pending && eff.completions@.len() == 0
                    && after.dropped_responses == bumped(before.dropped_responses)
            }
        },
        BodyModel::FoundNode(id, _, peers) => {
            &&& eff.send is None
            &&& if exists|j: int| matches_at(before.pending, j, id, m.session, RequestKind::FindNode) {
                &&& table1 == add_all(table0, peers)
                &&& exists|j: int|
                    matches_at(before.pending, j, id, m.session, RequestKind::FindNode)
                        && after.pending == before.pending.remove(j) && eff.completions@.len() == 1
                        && eff.completions@[0].ticket == before.pending[j].ticket
                        && eff.completions@[0].reply is Peers
                        && eff.completions@[0].reply->Peers_0@ == peers
                        && after.dropped_responses == before.dropped_responses
            } else {
                &&& table1 == table0
                &&& after.pending == before.pending
                &&& eff.completions@.len() == 0
                &&& after.dropped_responses == bumped(before.dropped_responses)
            }
        },
    }
}

/// Entry `j` of `s` is a request of kind `kind` to `peer` under `session`.
pub open spec fn matches_at(s: Seq<Pending>, j: int, peer: Identifier, session: u8, kind: RequestKind) -> bool {
    0 <= j < s.len() && s[j].peer@ == peer@ && s[j].session == session && s[j].kind == kind
}

proof fn lemma_remove_answers(before: ServiceView, after: ServiceView, j: int)
    requires
        service_wf(before),
        0 <= j < before.pending.len(),
        after.pending == before.pending.remove(j),
        after.local == before.local,
        after.k == before.k,
        after.next_ticket == before.next_ticket,
    ensures
        service_wf(after),
        answers(before, after, seq![before.pending[j].ticket], None),
{
    let t = before.pending[j].ticket;
    let b = before.pending;
    let a = after.pending;
    assert forall|i: int| 0 <= i < a.len() implies #[trigger] a[i] == if i < j {
        b[i]
    } else {
        b[i + 1]
    } by {}
    assert forall|x: u64| #[trigger] seq![t].contains(x) <==> (tickets(b).contains(x) && !tickets(
        a,
    ).contains(x)) by {
        if x == t {
            assert(tickets(b)[j] == t);
            if tickets(a).contains(x) {
                let i = choose|i: int| 0 <= i < tickets(a).len() && tickets(a)[i] == x;
                if i < j {
                    assert(b[i].ticket == t);
                } else {
                    assert(b[i + 1].ticket == t);
                }
            }
            assert(seq![t][0] == t);
        } else {
            if tickets(b).contains(x) {
                let i = choose|i: int| 0 <= i < tickets(b).len() && tickets(b)[i] == x;
                if i < j {
                    assert(tickets(a)[i] == x);
                } else if i > j {
                    assert(tickets(a)[i - 1] == x);
                }
            }
        }
    }
    assert forall|x: u64| #[trigger] tickets(a).contains(x) implies tickets(b).contains(x) by {
        let i = choose|i: int| 0 <= i < tickets(a).len() && tickets(a)[i] == x;
        if i < j {
            assert(tickets(b)[i] == x);
        } else {
            assert(tickets(b)[i + 1] == x);
        }
    }
    assert forall|i: int, k: int|
        0 <= i < a.len() && 0 <= k < a.len() && i != k implies (#[trigger] a[i]).ticket != (
    #[trigger] a[k]).ticket && !(a[i].peer@ == a[k].peer@ && a[i].session == a[k].session) by {
        let bi = if i < j { i } else { i + 1 };
        let bk = if k < j { k } else { k + 1 };
        assert(a[i] == b[bi] && a[k] == b[bk]);
    }
}

impl Service {
    /// The service's invariant holds.
    pub open spec fn wf(&self) -> bool {
        service_wf(self@)
    }

    /// A service for the node `local_record`, with nothing pending, that
    /// answers find-node requests with `K` peers.
    pub fn new(local_record: Peer) -> (r: Service)
        ensures
            r.wf(),
            r@.local == local_record,
            r@.k == K,
            r@.pending == Seq::<Pending>::empty(),
            r@.next_ticket == 0,
            r@.decode_failures == 0,
            r@.dropped_responses == 0,
    {
        Self::with_k(local_record, K)
    }

    /// As `new`, answering find-node requests with `k` peers; the count
    /// travels as one byte.
    pub fn with_k(local_record: Peer, k: usize) -> (r: Service)
        requires
            k <= 255,
        ensures
            r.wf(),
            r@.local == local_record,
            r@.k == k,
            r@.pending == Seq::<Pending>::empty(),
            r@.next_ticket == 0,
            r@.decode_failures == 0,
            r@.dropped_responses == 0,
    {
        Service {
            local_record,
            k,
            pending: Vec::new(),
            next_ticket: 0,
            decode_failures: 0,
            dropped_responses: 0,
        }
    }

    /// Number of requests awaiting a response.
    pub fn pending_count(&self) -> (r: usize)
        ensures
            r == self@.pending.len(),
    {
        self.pending.len()
    }

    /// Number of inbound datagrams that could not be decoded.
    pub fn decode_failures(&self) -> (r: u64)
        ensures
            r == self@.decode_failures,
    {
        self.decode_failures
    }

    /// Number of responses that matched no pending request.
    pub fn dropped_responses(&self) -> (r: u64)
        ensures
            r == self@.dropped_responses,
    {
        self.dropped_responses
    }

    /// Whether a ticket is left for another request.
    pub fn can_submit(&self) -> (r: bool)
        ensures
            r == (self@.next_ticket < u64::MAX),
    {
        self.next_ticket < u64::MAX
    }

    /// Index of the pending request to `peer` under `session`, if any.
    fn find(&self, peer: &Identifier, session: u8) -> (r: Option<usize>)
        ensures
            r is Some ==> r->0 < self@.pending.len() && self@.pending[r->0 as int].peer@ == peer@
                && self@.pending[r->0 as int].session == session,
            r is None ==> !has_key(self@.pending, *peer, session),
    {
        let mut j: usize = 0;
        while j < self.pending.len()
            invariant
                j <= self.pending@.len(),
                forall|m: int|
                    0 <= m < j ==> !((#[trigger] self.pending@[m]).peer@ == peer@
                        && self.pending@[m].session == session),
            decreases self.pending@.len() - j,
        {
            if self.pending[j].session == session && same_id(&self.pending[j].peer, peer) {
                return Some(j);
            }
            j = j + 1;
        }
        None
    }

    /// Removes pending request `j`, giving its caller `reply`.
    fn resolve(&mut self, j: usize, reply: Reply) -> (c: Completion)
        requires
            old(self).wf(),
            j < old(self)@.pending.len(),
        ensures
            final(self).wf(),
            final(self)@.pending == old(self)@.pending.remove(j as int),
            final(self)@.local == old(self)@.local,
            final(self)@.next_ticket == old(self)@.next_ticket,
            final(self)@.decode_failures == old(self)@.decode_failures,
            final(self)@.dropped_responses == old(self)@.dropped_responses,
            c.ticket == old(self)@.pending[j as int].ticket,
            c.reply == reply,
            answers(old(self)@, final(self)@, seq![c.ticket], None),
    {
        let entry = self.pending.remove(j);
        proof {
            lemma_remove_answers(old(self)@, self@, j as int);
        }
        Completion { ticket: entry.ticket, reply }
    }

    /// Fails the pending request of `ticket`, if there is one, with `err`.
    fn fail(&mut self, ticket: u64, err: ServiceError) -> (r: Vec<Completion>)
        requires
            old(self).wf(),
        ensures
            same_counters(old(self)@, final(self)@),
            final(self).wf(),
            final(self)@.local == old(self)@.local,
            answers(old(self)@, final(self)@, completed(r@), None),
            tickets(old(self)@.pending).contains(ticket) ==> r@.len() == 1 && r@[0].ticket == ticket
                && r@[0].reply == Reply::Failed(err),
            !tickets(old(self)@.pending).contains(ticket) ==> r@.len() == 0 && final(self)@
                == old(self)@,
    {
        let mut j: usize = 0;
        while j < self.pending.len()
            invariant
                j <= self.pending@.len(),
                self@ == old(self)@,
                self.wf(),
                forall|m: int| 0 <= m < j ==> (#[trigger] self.pending@[m]).ticket != ticket,
            decreases self.pending@.len() - j,
        {
            if self.pending[j].ticket == ticket {
                assert(tickets(old(self)@.pending)[j as int] == ticket);
                let c = self.resolve(j, Reply::Failed(err));
                let mut r: Vec<Completion> = Vec::new();
                r.push(c);
                assert(completed(r@) =~= seq![c.ticket]);
                return r;
            }
            j = j + 1;
        }
        proof {
            if tickets(self@.pending).contains(ticket) {
                let i = choose|i: int| 0 <= i < tickets(self@.pending).len() && tickets(self@.pending)[i]
                    == ticket;
                assert(self@.pending[i].ticket == ticket);
            }
            assert(completed(Seq::<Completion>::empty()) =~= Seq::<u64>::empty());
        }
        Vec::new()
    }

    /// The datagram for the request of `ticket` could not be sent: its
    /// caller fails with `TransportError` and nothing stays pending for it.
    pub fn send_failed(&mut self, ticket: u64) -> (r: Vec<Completion>)
        requires
            old(self).wf(),
        ensures
            same_counters(old(self)@, final(self)@),
            final(self).wf(),
            final(self)@.local == old(self)@.local,
            answers(old(self)@, final(self)@, completed(r@), None),
            tickets(old(self)@.pending).contains(ticket) ==> r@.len() == 1 && r@[0].ticket == ticket
                && r@[0].reply == Reply::Failed(ServiceError::TransportError),
            !tickets(old(self)@.pending).contains(ticket) ==> r@.len() == 0 && final(self)@
                == old(self)@,
    {
        self.fail(ticket, ServiceError::TransportError)
    }

    /// The caller of `ticket` gave up: its pending request is evicted, so a
    /// late response is dropped.
    pub fn cancel(&mut self, ticket: u64) -> (r: Vec<Completion>)
        requires
            old(self).wf(),
        ensures
            same_counters(old(self)@, final(self)@),
            final(self).wf(),
            final(self)@.local == old(self)@.local,
            answers(old(self)@, final(self)@, completed(r@), None),
            tickets(old(self)@.pending).contains(ticket) ==> r@.len() == 1 && r@[0].ticket == ticket
                && r@[0].reply == Reply::Failed(ServiceError::Cancelled),
            !tickets(old(self)@.pending).contains(ticket) ==> r@.len() == 0 && final(self)@
                == old(self)@,
    {
        self.fail(ticket, ServiceError::Cancelled)
    }
}

impl Service {
    /// Hands a message to the service at time `now` (in milliseconds). A
    /// request (ping or find-node) gets the next ticket: it is recorded as
    /// pending until `deadline_after(now)` and its datagram is to be sent,
    /// unless a request to the same peer under the same session tag is in
    /// flight, in which case its caller fails at once with `Busy`. A
    /// response is only sent.
    pub fn submit(&mut self, msg: &Message, now: u64) -> (r: (Option<u64>, Effects))
        requires
            old(self).wf(),
            old(self)@.next_ticket < u64::MAX,
        ensures
            same_counters(old(self)@, final(self)@),
            final(self).wf(),
            final(self)@.local == old(self)@.local,
            request_kind(msg@.body) is None ==> {
                &&& r.0 is None
                &&& final(self)@ == old(self)@
                &&& r.1.completions@.len() == 0
                &&& r.1.send is Some
                &&& r.1.send->0.to == msg.target.socket_addr
                &&& r.1.send->0.bytes@ == message_bytes(msg@)
                &&& answers(old(self)@, final(self)@, completed(r.1.completions@), None)
            },
            request_kind(msg@.body) is Some ==> {
                let t = old(self)@.next_ticket;
                &&& r.0 == Some(t)
                &&& answers(old(self)@, final(self)@, completed(r.1.completions@), Some(t))
                &&& !has_key(old(self)@.pending, msg.target.id, msg.session) ==> {
                    &&& final(self)@.pending == old(self)@.pending.push(
                        Pending {
                            peer: msg.target.id,
                            session: msg.session,
                            kind: request_kind(msg@.body)->0,
                            ticket: t,
                            deadline: deadline_after(now),
                        },
                    )
                    &&& r.1.completions@.len() == 0
                    &&& r.1.send is Some
                    &&& r.1.send->0.to == msg.target.socket_addr
                    &&& r.1.send->0.bytes@ == message_bytes(msg@)
                }
                &&& has_key(old(self)@.pending, msg.target.id, msg.session) ==> {
                    &&& final(self)@.pending == old(self)@.pending
                    &&& r.1.send is None
                    &&& r.1.completions@.len() == 1
                    &&& r.1.completions@[0].ticket == t
                    &&& r.1.completions@[0].reply == Reply::Failed(ServiceError::Busy)
                }
            },
    {
        let kind = match &msg.body {
            MessageBody::Ping(_) => RequestKind::Ping,
            MessageBody::FindNode(_, _) => RequestKind::FindNode,
            _ => {
                let bytes = encoded(msg);
                let eff = Effects {
                    send: Some(Outbound { to: msg.target.socket_addr, bytes }),
                    completions: Vec::new(),
                };
                assert(completed(eff.completions@) =~= Seq::<u64>::empty());
                return (None, eff);
            },
        };
        let ticket = self.next_ticket;
        let ghost before = self@;
        if self.find(&msg.target.id, msg.session).is_some() {
            self.next_ticket = ticket + 1;
            let mut completions: Vec<Completion> = Vec::new();
            completions.push(
                Completion { ticket, reply: Reply::Failed(ServiceError::Busy) },
            );
            proof {
                assert(completed(completions@) =~= seq![ticket]);
                assert forall|x: u64| #[trigger] seq![ticket].contains(x) <==> ((tickets(
                    before.pending,
                ).contains(x) || Some(ticket) == Some(x)) && !tickets(self@.pending).contains(x)) by {
                    if tickets(before.pending).contains(x) {
                        let i = choose|i: int|
                            0 <= i < tickets(before.pending).len() && tickets(before.pending)[i]
                                == x;
                        assert(before.pending[i].ticket == x);
                    }
                    if x == ticket {
                        assert(seq![ticket][0] == x);
                    }
                }
            }
            return (Some(ticket), Effects { send: None, completions });
        }
        let deadline = if now <= u64::MAX - REQUEST_TIMEOUT_MS {
            now + REQUEST_TIMEOUT_MS
        } else {
            u64::MAX
        };
        let entry = Pending { peer: msg.target.id, session: msg.session, kind, ticket, deadline };
        self.pending.push(entry);
        self.next_ticket = ticket + 1;
        let bytes = encoded(msg);
        let eff = Effects {
            send: Some(Outbound { to: msg.target.socket_addr, bytes }),
            completions: Vec::new(),
        };
        proof {
            let a = self@.pending;
            let b = before.pending;
            assert(completed(eff.completions@) =~= Seq::<u64>::empty());
            assert(a[b.len() as int] == entry);
            assert(tickets(a)[b.len() as int] == ticket);
            assert forall|x: u64| #[trigger] tickets(b).contains(x) implies tickets(a).contains(x) by {
                let i = choose|i: int| 0 <= i < tickets(b).len() && tickets(b)[i] == x;
                assert(tickets(a)[i] == x);
            }
            assert forall|x: u64| #[trigger] tickets(a).contains(x) implies tickets(b).contains(x)
                || Some(ticket) == Some(x) by {
                let i = choose|i: int| 0 <= i < tickets(a).len() && tickets(a)[i] == x;
                if i < b.len() {
                    assert(tickets(b)[i] == x);
                }
            }
            assert forall|i: int, k: int|
                0 <= i < a.len() && 0 <= k < a.len() && i != k implies (#[trigger] a[i]).ticket != (
            #[trigger] a[k]).ticket && !(a[i].peer@ == a[k].peer@ && a[i].session == a[k].session) by {
                if i < b.len() && k < b.len() {
                    assert(a[i] == b[i] && a[k] == b[k]);
                } else if i < b.len() {
                    assert(a[i] == b[i]);
                } else {
                    assert(a[k] == b[k]);
                }
            }
        }
        (Some(ticket), eff)
    }

    /// The clock reads `now`: every pending request whose deadline has
    /// passed fails with `Timeout` and is removed; the others stay.
    pub fn tick(&mut self, now: u64) -> (r: Vec<Completion>)
        requires
            old(self).wf(),
        ensures
            same_counters(old(self)@, final(self)@),
            final(self).wf(),
            final(self)@.local == old(self)@.local,
            answers(old(self)@, final(self)@, completed(r@), None),
            forall|k: int|
                0 <= k < r@.len() ==> (#[trigger] r@[k]).reply == Reply::Failed(ServiceError::Timeout),
            forall|p: Pending|
                #[trigger] final(self)@.pending.contains(p) <==> (old(self)@.pending.contains(p)
                    && p.deadline > now),
    {
        let ghost o = self@.pending;
        let mut kept: Vec<Pending> = Vec::new();
        let mut comps: Vec<Completion> = Vec::new();
        let ghost mut ix: Seq<int> = Seq::empty();
        let ghost mut jx: Seq<int> = Seq::empty();
        let mut i: usize = 0;
        while i < self.pending.len()
            invariant
                self@ == old(self)@,
                o == self@.pending,
                service_wf(self@),
                i <= o.len(),
                ix.len() == kept@.len(),
                forall|k: int| 0 <= k < ix.len() ==> 0 <= #[trigger] ix[k] < i && kept@[k] == o[ix[k]]
                    && o[ix[k]].deadline > now,
                forall|k1: int, k2: int| 0 <= k1 < k2 < ix.len() ==> #[trigger] ix[k1] < #[trigger] ix[k2],
                forall|m: int| 0 <= m < i && (#[trigger] o[m]).deadline > now ==> kept@.contains(o[m]),
                jx.len() == comps@.len(),
                forall|k: int|
                    0 <= k < jx.len() ==> 0 <= #[trigger] jx[k] < i && comps@[k].ticket == o[jx[k]].ticket
                        && o[jx[k]].deadline <= now && comps@[k].reply == Reply::Failed(ServiceError::Timeout),
                forall|k1: int, k2: int| 0 <= k1 < k2 < jx.len() ==> #[trigger] jx[k1] < #[trigger] jx[k2],
                forall|m: int|
                    0 <= m < i && (#[trigger] o[m]).deadline <= now ==> completed(comps@).contains(o[m].ticket),
            decreases o.len() - i,
        {
            let entry = self.pending[i];
            if entry.deadline > now {
                let ghost before_kept = kept@;
                kept.push(entry);
                proof {
                    ix = ix.push(i as int);
                    assert forall|m: int| 0 <= m < i + 1 && (#[trigger] o[m]).deadline > now implies kept@.contains(
                        o[m],
                    ) by {
                        if m == i {
                            assert(kept@[kept@.len() - 1] == o[m]);
                        } else {
                            assert(before_kept.contains(o[m]));
                            let k = choose|k: int| 0 <= k < before_kept.len() && before_kept[k] == o[m];
                            assert(kept@[k] == o[m]);
                        }
                    }
                    assert forall|m: int| 0 <= m < i + 1 && (#[trigger] o[m]).deadline <= now implies completed(
                        comps@,
                    ).contains(o[m].ticket) by {}
                }
            } else {
                let ghost before = comps@;
                comps.push(Completion { ticket: entry.ticket, reply: Reply::Failed(ServiceError::Timeout) });
                proof {
                    jx = jx.push(i as int);
                    assert forall|m: int| 0 <= m < i + 1 && (#[trigger] o[m]).deadline <= now implies completed(
                        comps@,
                    ).contains(o[m].ticket) by {
                        if m == i {
                            assert(completed(comps@)[comps@.len() - 1] == o[m].ticket);
                        } else {
                            let k = choose|k: int| 0 <= k < completed(before).len() && completed(before)[k] == o[m].ticket;
                            assert(completed(comps@)[k] == o[m].ticket);
                        }
                    }
                    assert forall|m: int| 0 <= m < i + 1 && (#[trigger] o[m]).deadline > now implies kept@.contains(
                        o[m],
                    ) by {}
                }
            }
            i = i + 1;
        }
        self.pending = kept;
        proof {
            assert forall|k: int| 0 <= k < comps@.len() implies (#[trigger] comps@[k]).reply
                == Reply::Failed(ServiceError::Timeout) by {
                assert(0 <= jx[k]);
            }
            let a = self@.pending;
            let done = completed(comps@);
            assert forall|i1: int, i2: int|
                0 <= i1 < a.len() && 0 <= i2 < a.len() && i1 != i2 implies (#[trigger] a[i1]).ticket != (
            #[trigger] a[i2]).ticket && !(a[i1].peer@ == a[i2].peer@ && a[i1].session == a[i2].session) by {
                assert(ix[i1] != ix[i2]) by {
                    if i1 < i2 {
                        assert(ix[i1] < ix[i2]);
                    } else {
                        assert(ix[i2] < ix[i1]);
                    }
                }
            }
            assert forall|i1: int| 0 <= i1 < a.len() implies (#[trigger] a[i1]).ticket < self@.next_ticket by {
                assert(a[i1] == o[ix[i1]]);
            }
            assert forall|k1: int, k2: int| 0 <= k1 < done.len() && 0 <= k2 < done.len() && k1 != k2 implies done[k1] != done[k2] by {
                assert(jx[k1] != jx[k2]) by {
                    if k1 < k2 {
                        assert(jx[k1] < jx[k2]);
                    } else {
                        assert(jx[k2] < jx[k1]);
                    }
                }
                assert(done[k1] == o[jx[k1]].ticket);
                assert(done[k2] == o[jx[k2]].ticket);
            }
            assert forall|x: u64| #[trigger] done.contains(x) <==> (tickets(o).contains(x) && !tickets(a).contains(x)) by {
                if done.contains(x) {
                    let k = choose|k: int| 0 <= k < done.len() && done[k] == x;
                    let m = jx[k];
                    assert(tickets(o)[m] == x);
                    if tickets(a).contains(x) {
                        let i1 = choose|i1: int| 0 <= i1 < tickets(a).len() && tickets(a)[i1] == x;
                        assert(a[i1] == o[ix[i1]]);
                        assert(o[ix[i1]].ticket == o[m].ticket);
                    }
                }
                if tickets(o).contains(x) && !tickets(a).contains(x) {
                    let m = choose|m: int| 0 <= m < tickets(o).len() && tickets(o)[m] == x;
                    if o[m].deadline > now {
                        assert(a.contains(o[m]));
                        let i1 = choose|i1: int| 0 <= i1 < a.len() && a[i1] == o[m];
                        assert(tickets(a)[i1] == x);
                    }
                }
            }
            assert forall|x: u64| #[trigger] tickets(a).contains(x) implies tickets(o).contains(x) by {
                let i1 = choose|i1: int| 0 <= i1 < tickets(a).len() && tickets(a)[i1] == x;
                assert(tickets(o)[ix[i1]] == x);
            }
            assert forall|p: Pending| #[trigger] a.contains(p) <==> (o.contains(p) && p.deadline > now) by {
                if a.contains(p) {
                    let i1 = choose|i1: int| 0 <= i1 < a.len() && a[i1] == p;
                    assert(o[ix[i1]] == p);
                }
                if o.contains(p) && p.deadline > now {
                    let m = choose|m: int| 0 <= m < o.len() && o[m] == p;
                    assert(kept@.contains(o[m]));
                }
            }
        }
        comps
    }
}

impl Service {
    /// Counts one more response that matched no pending request.
    fn count_dropped(&mut self)
        ensures
            final(self)@ == (ServiceView {
                dropped_responses: bumped(old(self)@.dropped_responses),
                ..old(self)@
            }),
    {
        if self.dropped_responses < u64::MAX {
            self.dropped_responses = self.dropped_responses + 1;
        }
    }

    /// Handles the datagram `data` that arrived from `from`. A datagram that
    /// is not the wire form of a legal message is dropped (and counted);
    /// otherwise the service reacts to the message as `reacts` says.
    pub fn handle_datagram(&mut self, table: &mut KbucketTable, data: &[u8], from: SocketAddr) -> (r:
        Effects)
        requires
            old(self).wf(),
            old(table).wf(),
        ensures
            final(self).wf(),
            final(table).wf(),
            final(self)@.local == old(self)@.local,
            answers(old(self)@, final(self)@, completed(r.completions@), None),
            final(self)@.decode_failures == if (forall|m: MessageModel|
                body_legal(m.body) ==> data@ != #[trigger] message_bytes(m)) {
                bumped(old(self)@.decode_failures)
            } else {
                old(self)@.decode_failures
            },
            (forall|m: MessageModel| body_legal(m.body) ==> data@ != #[trigger] message_bytes(m))
                ==> final(self)@.pending == old(self)@.pending && final(self)@.dropped_responses
                == old(self)@.dropped_responses && final(table)@ == old(table)@ && r.send is None
                && r.completions@.len() == 0,
            forall|m: MessageModel|
                body_legal(m.body) && data@ == #[trigger] message_bytes(m) ==> reacts(
                    old(self)@,
                    old(table)@,
                    m,
                    from,
                    final(self)@,
                    final(table)@,
                    r,
                ),
    {
        let msg = match Message::decode(data) {
            Ok(m) => m,
            Err(_) => {
                if self.decode_failures < u64::MAX {
                    self.decode_failures = self.decode_failures + 1;
                }
                let r = Effects { send: None, completions: Vec::new() };
                assert(completed(r.completions@) =~= Seq::<u64>::empty());
                return r;
            },
        };
        let ghost m0 = msg@;
        let ghost before = self@;
        let ghost table0 = table@;
        let session = msg.session;
        let local_id = self.local_record.id;
        let r = match msg.body {
            MessageBody::Ping(id) => {
                let sender = Peer { id, socket_addr: from };
                table.add(sender);
                let reply = Message { target: sender, session, body: MessageBody::Pong(local_id) };
                Effects {
                    send: Some(Outbound { to: from, bytes: encoded(&reply) }),
                    completions: Vec::new(),
                }
            },
            MessageBody::FindNode(id, t) => {
                let peers = table.get_closest_nodes_excluding(&t, self.k, &id);
                let ghost found = peers@;
                let n = peers.len() as u8;
                let reply = Message {
                    target: Peer { id, socket_addr: from },
                    session,
                    body: MessageBody::FoundNode(local_id, n, peers),
                };
                let bytes = encoded(&reply);
                assert(closest_except(table0, t, before.k, id, found) && bytes@ == message_bytes(
                    MessageModel {
                        target: Peer { id, socket_addr: from },
                        session,
                        body: BodyModel::FoundNode(local_id, found.len() as u8, found),
                    },
                ));
                Effects { send: Some(Outbound { to: from, bytes }), completions: Vec::new() }
            },
            MessageBody::Pong(id) => {
                match self.find(&id, session) {
                    Some(j) => {
                        if self.pending[j].kind == RequestKind::Ping {
                            let c = self.resolve(j, Reply::Pong);
                            let mut completions: Vec<Completion> = Vec::new();
                            completions.push(c);
                            assert(completed(completions@) =~= seq![c.ticket]);
                            proof {
                                assert(matches_at(before.pending, j as int, id, session, RequestKind::Ping));
                            }
                            Effects { send: None, completions }
                        } else {
                            proof {
                                assert forall|j2: int| !matches_at(before.pending, j2, id, session, RequestKind::Ping) by {
                                    if matches_at(before.pending, j2, id, session, RequestKind::Ping) {
                                        assert(j2 != j);
                                    }
                                }
                            }
                            self.count_dropped();
                            Effects { send: None, completions: Vec::new() }
                        }
                    },
                    None => {
                        proof {
                            assert forall|j2: int| !matches_at(before.pending, j2, id, session, RequestKind::Ping) by {
                                if matches_at(before.pending, j2, id, session, RequestKind::Ping) {
                                    assert(has_key(before.pending, id, session));
                                }
                            }
                        }
                        self.count_dropped();
                        Effects { send: None, completions: Vec::new() }
                    },
                }
            },
            MessageBody::FoundNode(id, _, peers) => {
                match self.find(&id, session) {
                    Some(j) => {
                        if self.pending[j].kind == RequestKind::FindNode {
                            table.add_peers(&peers);
                            let c = self.resolve(j, Reply::Peers(peers));
                            let mut completions: Vec<Completion> = Vec::new();
                            completions.push(c);
                            assert(completed(completions@) =~= seq![c.ticket]);
                            proof {
                                assert(matches_at(before.pending, j as int, id, session, RequestKind::FindNode));
                            }
                            Effects { send: None, completions }
                        } else {
                            proof {
                                assert forall|j2: int| !matches_at(before.pending, j2, id, session, RequestKind::FindNode) by {
                                    if matches_at(before.pending, j2, id, session, RequestKind::FindNode) {
                                        assert(j2 != j);
                                    }
                                }
                            }
                            self.count_dropped();
                            Effects { send: None, completions: Vec::new() }
                        }
                    },
                    None => {
                        proof {
                            assert forall|j2: int| !matches_at(before.pending, j2, id, session, RequestKind::FindNode) by {
                                if matches_at(before.pending, j2, id, session, RequestKind::FindNode) {
                                    assert(has_key(before.pending, id, session));
                                }
                            }
                        }
                        self.count_dropped();
                        Effects { send: None, completions: Vec::new() }
                    },
                }
            },
        };
        proof {
            if r.completions@.len() == 0 {
                assert(completed(r.completions@) =~= Seq::<u64>::empty());
            }
            assert(reacts(before, table0, m0, from, self@, table@, r));
        }
        r
    }
}

/// A run of a service: each state is well formed, and state `k + 1`
/// follows state `k` by one event that answered the callers `done[k]` and
/// handed out the ticket `submitted[k]`, if any.
pub open spec fn is_run(states: Seq<ServiceView>, done: Seq<Seq<u64>>, submitted: Seq<Option<u64>>) -> bool {
    &&& states.len() == done.len() + 1
    &&& submitted.len() == done.len()
    &&& forall|k: int| 0 <= k < states.len() ==> service_wf(#[trigger] states[k])
    &&& forall|k: int|
        0 <= k < done.len() ==> answers(#[trigger] states[k], states[k + 1], done[k], submitted[k])
}

proof fn lemma_next_ticket_grows(
    states: Seq<ServiceView>,
    done: Seq<Seq<u64>>,
    submitted: Seq<Option<u64>>,
    a: int,
    b: int,
)
    requires
        is_run(states, done, submitted),
        0 <= a <= b < states.len(),
    ensures
        states[a].next_ticket <= states[b].next_ticket,
    decreases b - a,
{
    if a < b {
        lemma_next_ticket_grows(states, done, submitted, a, b - 1);
        assert(answers(states[b - 1], states[b], done[b - 1], submitted[b - 1]));
    }
}

proof fn lemma_gone_stays_gone(
    states: Seq<ServiceView>,
    done: Seq<Seq<u64>>,
    submitted: Seq<Option<u64>>,
    x: u64,
    a: int,
    b: int,
)
    requires
        is_run(states, done, submitted),
        0 <= a <= b < states.len(),
        !tickets(states[a].pending).contains(x),
        forall|k: int| a <= k < b ==> submitted[k] != Some(x),
    ensures
        !tickets(states[b].pending).contains(x),
    decreases b - a,
{
    if a < b {
        lemma_gone_stays_gone(states, done, submitted, x, a, b - 1);
        assert(answers(states[b - 1], states[b], done[b - 1], submitted[b - 1]));
    }
}

proof fn lemma_find_completion(
    states: Seq<ServiceView>,
    done: Seq<Seq<u64>>,
    submitted: Seq<Option<u64>>,
    x: u64,
    k: int,
) -> (j: int)
    requires
        is_run(states, done, submitted),
        0 <= k < states.len(),
        tickets(states[k].pending).contains(x),
        !tickets(states.last().pending).contains(x),
    ensures
        k <= j < done.len(),
        done[j].contains(x),
    decreases states.len() - k,
{
    assert(answers(states[k], states[k + 1], done[k], submitted[k]));
    if tickets(states[k + 1].pending).contains(x) {
        lemma_find_completion(states, done, submitted, x, k + 1)
    } else {
        k
    }
}

/// Every request is answered exactly once: in a run, the caller given
/// ticket `x` at step `i` is answered at exactly one step, once its request
/// is no longer pending at the end of the run (`tick` sees to that by its
/// deadline).
pub proof fn lemma_reply_exactly_once(
    states: Seq<ServiceView>,
    done: Seq<Seq<u64>>,
    submitted: Seq<Option<u64>>,
    i: int,
    x: u64,
)
    requires
        is_run(states, done, submitted),
        0 <= i < submitted.len(),
        submitted[i] == Some(x),
        !tickets(states.last().pending).contains(x),
    ensures
        exists|j: int|
            i <= j < done.len() && (#[trigger] done[j]).contains(x) && forall|j2: int|
                0 <= j2 < done.len() && j2 != j ==> !(#[trigger] done[j2]).contains(x),
{
    assert(answers(states[i], states[i + 1], done[i], submitted[i]));
    let j = if done[i].contains(x) {
        i
    } else {
        lemma_find_completion(states, done, submitted, x, i + 1)
    };
    // Tickets handed out after step `i` are all larger than `x`.
    assert forall|k: int| i < k < submitted.len() implies submitted[k] != Some(x) by {
        lemma_next_ticket_grows(states, done, submitted, i + 1, k);
        assert(answers(states[k], states[k + 1], done[k], submitted[k]));
    }
    assert forall|j2: int| 0 <= j2 < done.len() && j2 != j implies !(#[trigger] done[j2]).contains(
        x,
    ) by {
        assert(answers(states[j2], states[j2 + 1], done[j2], submitted[j2]));
        if done[j2].contains(x) {
            if j2 < i {
                lemma_next_ticket_grows(states, done, submitted, j2 + 1, i);
                if tickets(states[j2].pending).contains(x) {
                    let m = choose|m: int|
                        0 <= m < tickets(states[j2].pending).len() && tickets(states[j2].pending)[m]
                            == x;
                    assert(states[j2].pending[m].ticket == x);
                }
            } else {
                let (a, b) = if j < j2 {
                    (j, j2)
                } else {
                    (j2, j)
                };
                assert(answers(states[a], states[a + 1], done[a], submitted[a]));
                assert(answers(states[b], states[b + 1], done[b], submitted[b]));
                lemma_gone_stays_gone(states, done, submitted, x, a + 1, b);
            }
        }
    }
}

} // verus!
