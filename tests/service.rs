use kademlia::kbucket::KbucketTable;
use kademlia::message::{Message, MessageBody};
use kademlia::node::{find_node_message, find_node_request, ping_request, FindNodeStep, Peer};
use kademlia::service::{Completion, Reply, Service, ServiceError, REQUEST_TIMEOUT_MS};
use kademlia::socket::{encoded, IpAddr, SocketAddr};

fn id(n: u64) -> [u8; 32] {
    let mut out = [0u8; 32];
    out[24..].copy_from_slice(&n.to_be_bytes());
    out
}

fn localhost(port: u16) -> SocketAddr {
    SocketAddr {
        ip: IpAddr::V4([127, 0, 0, 1]),
        port,
    }
}

fn numbered_peer(i: u64) -> Peer {
    let port = "600".to_string() + &i.to_string();
    Peer {
        id: id(i),
        socket_addr: localhost(port.parse::<u16>().unwrap()),
    }
}

/// A node of an in-process network: its record, table and service.
struct Sim {
    me: Peer,
    table: KbucketTable,
    service: Service,
}

impl Sim {
    fn new(n: u64, port: u16, k: usize) -> Sim {
        let me = Peer {
            id: id(n),
            socket_addr: localhost(port),
        };
        Sim {
            me,
            table: KbucketTable::new(me.id),
            service: Service::with_k(me, k),
        }
    }
}

/// Sends `msg` from `a`, lets `b` answer it, and hands the answer back to
/// `a`; returns what `a`'s caller receives.
fn round_trip(a: &mut Sim, b: &mut Sim, msg: &Message, now: u64) -> Vec<Completion> {
    let (ticket, eff) = a.service.submit(msg, now);
    assert!(ticket.is_some());
    let out = eff.send.expect("request is sent");
    assert_eq!(out.to, b.me.socket_addr);
    let answer = b
        .service
        .handle_datagram(&mut b.table, &out.bytes, a.me.socket_addr);
    let back = answer.send.expect("request is answered");
    assert_eq!(back.to, a.me.socket_addr);
    let done = a
        .service
        .handle_datagram(&mut a.table, &back.bytes, b.me.socket_addr);
    assert!(done.send.is_none());
    for c in &done.completions {
        assert_eq!(Some(c.ticket), ticket);
    }
    done.completions
}

fn remote_with_numbered_peers(k: usize) -> Sim {
    let mut remote = Sim::new(1, 6001, k);
    for i in 2..30 {
        if i == 13 {
            continue;
        }
        remote.table.add(numbered_peer(i));
    }
    remote
}

fn expected_peers() -> Vec<Peer> {
    let mut expected: Vec<Peer> = Vec::new();
    for i in 8..16 {
        if i == 13 {
            continue;
        }
        expected.push(numbered_peer(i));
    }
    expected
}

#[test]
fn ping_rpc() {
    let mut local = Sim::new(0, 6000, 7);
    let mut remote = Sim::new(1, 6001, 7);
    local.table.add(remote.me);

    let msg = ping_request(&local.table, &local.me.id, &remote.me.id, 17).unwrap();
    let done = round_trip(&mut local, &mut remote, &msg, 0);
    assert!(matches!(done[..], [Completion { reply: Reply::Pong, .. }]));
    assert_eq!(remote.table.get(&local.me.id), Some(local.me));

    let dummy = id(2);
    assert!(ping_request(&local.table, &local.me.id, &dummy, 18).is_none());
}

#[test]
fn find_node_rpc() {
    let mut local = Sim::new(0, 6000, 7);
    let mut remote = remote_with_numbered_peers(7);
    local.table.add(remote.me);

    let step = find_node_request(&local.table, &local.me.id, &id(13), 3);
    let msg = match step {
        FindNodeStep::Ask(m) => m,
        _ => panic!(),
    };
    assert_eq!(msg.target, remote.me);
    let done = round_trip(&mut local, &mut remote, &msg, 0);
    if let [Completion {
        reply: Reply::Peers(peers),
        ..
    }] = &done[..]
    {
        let mut closest_nodes = peers.clone();
        closest_nodes.sort_by(|a, b| a.id.partial_cmp(&b.id).unwrap());
        assert_eq!(closest_nodes, expected_peers());
    } else {
        panic!()
    }
    for p in expected_peers() {
        assert_eq!(local.table.get(&p.id), Some(p));
    }
}

#[test]
fn find_node_targeted() {
    let mut local = Sim::new(0, 6000, 7);
    let mut remote = remote_with_numbered_peers(7);
    let remote_peer = remote.me;
    local.table.add(remote.me);

    let msg = find_node_message(&local.me.id, &id(13), remote_peer, 200);
    let done = round_trip(&mut local, &mut remote, &msg, 0);
    if let [Completion {
        reply: Reply::Peers(peers),
        ..
    }] = &done[..]
    {
        let mut closest_nodes = peers.clone();
        closest_nodes.sort_by(|a, b| a.id.partial_cmp(&b.id).unwrap());
        assert_eq!(closest_nodes, expected_peers());
    } else {
        panic!()
    }
}

#[test]
fn find_node_known_peer_returns_at_once() {
    let mut local = Sim::new(0, 6000, 7);
    local.table.add(numbered_peer(9));
    match find_node_request(&local.table, &local.me.id, &id(9), 0) {
        FindNodeStep::Known(p) => assert_eq!(p, numbered_peer(9)),
        _ => panic!(),
    }
    let empty = KbucketTable::new(id(0));
    assert!(matches!(
        find_node_request(&empty, &id(0), &id(9), 0),
        FindNodeStep::NoHop
    ));
}

#[test]
fn find_node_answer_skips_requester() {
    let mut remote = remote_with_numbered_peers(3);
    let requester = numbered_peer(12);
    let msg = Message {
        target: remote.me,
        session: 4,
        body: MessageBody::FindNode(requester.id, id(13)),
    };
    let eff = remote
        .service
        .handle_datagram(&mut remote.table, &encoded(&msg), requester.socket_addr);
    let reply = Message::decode(&eff.send.unwrap().bytes).unwrap();
    assert_eq!(reply.session, 4);
    match reply.body {
        MessageBody::FoundNode(from, n, peers) => {
            assert_eq!(from, remote.me.id);
            assert_eq!(n, 3);
            let ids: Vec<u8> = peers.iter().map(|p| p.id[31]).collect();
            assert_eq!(ids, vec![15, 14, 9]);
        }
        _ => panic!(),
    }
}

#[test]
fn timeout_on_silent_peer() {
    let mut local = Sim::new(0, 6000, 7);
    let silent = numbered_peer(3);
    local.table.add(silent);
    let msg = ping_request(&local.table, &local.me.id, &silent.id, 9).unwrap();
    let (ticket, eff) = local.service.submit(&msg, 1_000);
    assert!(eff.send.is_some());
    assert_eq!(local.service.pending_count(), 1);
    assert!(local.service.tick(1_000 + REQUEST_TIMEOUT_MS - 1).is_empty());
    let done = local.service.tick(1_000 + REQUEST_TIMEOUT_MS);
    assert_eq!(done.len(), 1);
    assert_eq!(Some(done[0].ticket), ticket);
    assert!(matches!(done[0].reply, Reply::Failed(ServiceError::Timeout)));
    assert_eq!(local.service.pending_count(), 0);

    let late = Message {
        target: local.me,
        session: 9,
        body: MessageBody::Pong(silent.id),
    };
    let eff = local
        .service
        .handle_datagram(&mut local.table, &encoded(&late), silent.socket_addr);
    assert!(eff.completions.is_empty());
    assert_eq!(local.service.dropped_responses(), 1);
}

#[test]
fn session_mismatch_is_dropped() {
    let mut local = Sim::new(0, 6000, 7);
    let p = numbered_peer(3);
    let msg = ping_request(
        &{
            let mut t = KbucketTable::new(id(0));
            t.add(p);
            t
        },
        &local.me.id,
        &p.id,
        1,
    )
    .unwrap();
    local.service.submit(&msg, 0);
    let wrong = Message {
        target: local.me,
        session: 2,
        body: MessageBody::Pong(p.id),
    };
    let eff = local
        .service
        .handle_datagram(&mut local.table, &encoded(&wrong), p.socket_addr);
    assert!(eff.completions.is_empty());
    assert_eq!(local.service.pending_count(), 1);
    let wrong_kind = Message {
        target: local.me,
        session: 1,
        body: MessageBody::FoundNode(p.id, 0, vec![]),
    };
    let eff = local
        .service
        .handle_datagram(&mut local.table, &encoded(&wrong_kind), p.socket_addr);
    assert!(eff.completions.is_empty());
    assert_eq!(local.service.pending_count(), 1);
    assert_eq!(local.service.dropped_responses(), 2);
}

#[test]
fn undecodable_datagram_is_counted() {
    let mut local = Sim::new(0, 6000, 7);
    let eff = local
        .service
        .handle_datagram(&mut local.table, &[0xc1, 0xff], localhost(1));
    assert!(eff.send.is_none() && eff.completions.is_empty());
    assert_eq!(local.service.decode_failures(), 1);
}

#[test]
fn busy_and_failures() {
    let mut local = Sim::new(0, 6000, 7);
    let p = numbered_peer(3);
    let msg = Message {
        target: p,
        session: 7,
        body: MessageBody::Ping(local.me.id),
    };
    let (t1, _) = local.service.submit(&msg, 0);
    let (t2, eff) = local.service.submit(&msg, 0);
    assert_ne!(t1, t2);
    assert!(eff.send.is_none());
    assert_eq!(eff.completions.len(), 1);
    assert_eq!(Some(eff.completions[0].ticket), t2);
    assert!(matches!(
        eff.completions[0].reply,
        Reply::Failed(ServiceError::Busy)
    ));

    let failed = local.service.send_failed(t1.unwrap());
    assert!(matches!(
        failed[..],
        [Completion {
            reply: Reply::Failed(ServiceError::TransportError),
            ..
        }]
    ));
    assert!(local.service.send_failed(t1.unwrap()).is_empty());

    let (t3, _) = local.service.submit(&msg, 0);
    let cancelled = local.service.cancel(t3.unwrap());
    assert!(matches!(
        cancelled[..],
        [Completion {
            reply: Reply::Failed(ServiceError::Cancelled),
            ..
        }]
    ));
    assert_eq!(local.service.pending_count(), 0);
}

#[test]
fn responses_are_sent_without_ticket() {
    let mut local = Sim::new(0, 6000, 7);
    let msg = Message {
        target: numbered_peer(3),
        session: 7,
        body: MessageBody::Pong(local.me.id),
    };
    let (ticket, eff) = local.service.submit(&msg, 0);
    assert!(ticket.is_none());
    assert_eq!(eff.send.unwrap().bytes, encoded(&msg));
    assert_eq!(local.service.pending_count(), 0);
}

#[test]
fn thousand_requests_with_reorder_and_drop() {
    let mut local = Sim::new(0, 6000, 7);
    let mut seed: u64 = 7;
    let mut next = || {
        seed = seed.wrapping_mul(6364136223846793005).wrapping_add(1442695040888963407);
        seed >> 33
    };
    let mut answers: Vec<(u64, Vec<u8>, SocketAddr)> = Vec::new();
    let mut tickets: Vec<(u64, bool)> = Vec::new();
    for i in 0..1000u64 {
        let p = Peer {
            id: id(1_000_000 + i),
            socket_addr: localhost((i % 60000) as u16 + 1),
        };
        let session = next() as u8;
        let msg = Message {
            target: p,
            session,
            body: MessageBody::Ping(local.me.id),
        };
        let now = i;
        let (ticket, eff) = local.service.submit(&msg, now);
        assert!(eff.send.is_some());
        let dropped = next() % 10 == 0;
        tickets.push((ticket.unwrap(), dropped));
        if !dropped {
            let pong = Message {
                target: local.me,
                session,
                body: MessageBody::Pong(p.id),
            };
            let at = now + next() % (REQUEST_TIMEOUT_MS - 1);
            answers.push((at, encoded(&pong), p.socket_addr));
        }
    }
    answers.sort_by_key(|a| a.0);
    let mut completed: Vec<(u64, bool)> = Vec::new();
    for (at, bytes, from) in &answers {
        for c in local.service.tick(*at) {
            completed.push((c.ticket, matches!(c.reply, Reply::Pong)));
        }
        let eff = local.service.handle_datagram(&mut local.table, bytes, *from);
        for c in eff.completions {
            completed.push((c.ticket, matches!(c.reply, Reply::Pong)));
        }
    }
    for c in local.service.tick(1000 + REQUEST_TIMEOUT_MS) {
        assert!(matches!(c.reply, Reply::Failed(ServiceError::Timeout)));
        completed.push((c.ticket, false));
    }
    assert_eq!(local.service.pending_count(), 0);
    assert_eq!(completed.len(), 1000);
    for (ticket, dropped) in tickets {
        let hits: Vec<_> = completed.iter().filter(|c| c.0 == ticket).collect();
        assert_eq!(hits.len(), 1);
        assert_eq!(hits[0].1, !dropped);
    }
}

#[test]
fn fresh_requests_carry_the_request() {
    let mut table = KbucketTable::new(id(0));
    table.add(numbered_peer(4));
    let msg = kademlia::node::fresh_ping_request(&table, &id(0), &id(4)).unwrap();
    assert_eq!(msg.target, numbered_peer(4));
    assert!(matches!(msg.body, MessageBody::Ping(x) if x == id(0)));
    assert!(kademlia::node::fresh_ping_request(&table, &id(0), &id(5)).is_none());
    match kademlia::node::fresh_find_node_request(&table, &id(0), &id(6)) {
        FindNodeStep::Ask(m) => {
            assert_eq!(m.target, numbered_peer(4));
            assert!(matches!(m.body, MessageBody::FindNode(a, b) if a == id(0) && b == id(6)));
        }
        _ => panic!(),
    }
    let m = kademlia::node::fresh_find_node_message(&id(0), &id(6), numbered_peer(4));
    assert!(matches!(m.body, MessageBody::FindNode(a, b) if a == id(0) && b == id(6)));
}
