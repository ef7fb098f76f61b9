use kademlia::message::{DecoderError, Message, MessageBody};
use kademlia::node::Peer;
use kademlia::socket::{encoded, IpAddr, SocketAddr};

fn make_peer(i: u8) -> Peer {
    let mut id = [0u8; 32];
    id[31] = i;
    Peer {
        id,
        socket_addr: SocketAddr {
            ip: IpAddr::V4([127, 0, 0, 1]),
            port: 6000 + i as u16,
        },
    }
}

fn body_bytes(body: &MessageBody) -> Vec<u8> {
    let mut out = Vec::new();
    body.encode(&mut out);
    out
}

fn decode_body(bytes: &[u8]) -> Result<MessageBody, DecoderError> {
    match MessageBody::decode_prefix(bytes) {
        Ok((body, rest)) => {
            assert!(rest.is_empty());
            Ok(body)
        }
        Err(e) => Err(e),
    }
}

fn same_body(a: &MessageBody, b: &MessageBody) -> bool {
    match (a, b) {
        (MessageBody::Ping(x), MessageBody::Ping(y)) => x == y,
        (MessageBody::Pong(x), MessageBody::Pong(y)) => x == y,
        (MessageBody::FindNode(x, t), MessageBody::FindNode(y, u)) => x == y && t == u,
        (MessageBody::FoundNode(x, n, p), MessageBody::FoundNode(y, m, q)) => {
            x == y && n == m && p == q
        }
        _ => false,
    }
}

#[test]
fn serialize_ping() {
    let id = [0u8; 32];
    let body = MessageBody::Ping(id);
    let out = body_bytes(&body);
    let result = decode_body(&out);
    assert!(result.is_ok());
}

#[test]
fn serialize_pong() {
    let id = [0u8; 32];
    let body = MessageBody::Pong(id);
    let out = body_bytes(&body);
    let result = decode_body(&out);
    assert!(result.is_ok());
}

#[test]
fn serialize_find_node() {
    let id = [0u8; 32];
    let target = [1u8; 32];
    let body = MessageBody::FindNode(id, target);
    let out = body_bytes(&body);
    let result = decode_body(&out);
    assert!(result.is_ok());
}

#[test]
fn serialize_found_node() {
    let local_id = [0u8; 32];
    let total = 2;
    let mut closest_peers = Vec::new();
    closest_peers.push(make_peer(1));
    closest_peers.push(make_peer(2));
    let body = MessageBody::FoundNode(local_id, total, closest_peers);
    let out = body_bytes(&body);
    let result = decode_body(&out);
    assert!(result.is_ok());
}

#[test]
fn socket_addr_serialization() {
    let socket_addr = SocketAddr {
        ip: IpAddr::V4([1, 1, 1, 1]),
        port: 69,
    };
    let mut out = Vec::new();
    socket_addr.encode(&mut out);
    let result = SocketAddr::decode(&out);
    assert_eq!(result.unwrap(), socket_addr);
}

#[test]
fn socket_addr_serialization_vec() {
    let foo = SocketAddr {
        ip: IpAddr::V4([1, 1, 1, 1]),
        port: 8080,
    };
    let foos = vec![foo.clone(), foo];
    let mut payload = Vec::new();
    for f in &foos {
        f.encode(&mut payload);
    }
    let mut out = Vec::new();
    alloy_rlp::Header {
        list: true,
        payload_length: payload.len(),
    }
    .encode(&mut out);
    out.extend_from_slice(&payload);

    let mut buf = out.as_slice();
    let mut items = alloy_rlp::Header::decode_bytes(&mut buf, true).unwrap();
    let mut recovered = Vec::new();
    while !items.is_empty() {
        let (addr, rest) = SocketAddr::decode_prefix(items).unwrap();
        recovered.push(addr);
        items = rest;
    }
    assert_eq!(foos, recovered);
}

#[test]
fn socket_addr_exact_bytes() {
    let a = SocketAddr {
        ip: IpAddr::V4([1, 1, 1, 1]),
        port: 69,
    };
    let mut out = Vec::new();
    a.encode(&mut out);
    assert_eq!(out, vec![0xc7, 0x80, 0x84, 1, 1, 1, 1, 0x45]);
}

#[test]
fn socket_addr_v6_round_trip() {
    let a = SocketAddr {
        ip: IpAddr::V6([0x20, 0x01, 0x0d, 0xb8, 0, 0, 0, 0, 0, 0, 0, 0, 0, 0, 0, 1]),
        port: 30303,
    };
    let mut out = Vec::new();
    a.encode(&mut out);
    assert_eq!(out[1], 0x01);
    assert_eq!(out[2], 0x90);
    assert_eq!(SocketAddr::decode(&out).unwrap(), a);
}

#[test]
fn socket_addr_unknown_family() {
    let bytes = vec![0xc7, 0x02, 0x84, 1, 1, 1, 1, 0x45];
    assert_eq!(SocketAddr::decode(&bytes), Err(DecoderError::Malformed));
}

#[test]
fn socket_addr_trailing_bytes() {
    let bytes = vec![0xc7, 0x80, 0x84, 1, 1, 1, 1, 0x45, 0x00];
    assert_eq!(SocketAddr::decode(&bytes), Err(DecoderError::Malformed));
}

#[test]
fn ping_body_exact_bytes() {
    let out = body_bytes(&MessageBody::Ping([0u8; 32]));
    let mut expected = vec![0xe2, 0x80, 0xa0];
    expected.extend_from_slice(&[0u8; 32]);
    assert_eq!(out, expected);
}

#[test]
fn found_node_peer_count_mismatch_is_malformed() {
    let body = MessageBody::FoundNode([0u8; 32], 3, vec![make_peer(1), make_peer(2)]);
    let out = body_bytes(&body);
    assert!(matches!(decode_body(&out), Err(DecoderError::Malformed)));
}

#[test]
fn unknown_body_tag_is_malformed() {
    let mut out = body_bytes(&MessageBody::Pong([7u8; 32]));
    assert_eq!(out[1], 0x01);
    out[1] = 0x04;
    assert!(matches!(decode_body(&out), Err(DecoderError::Malformed)));
}

#[test]
fn message_round_trip_every_variant() {
    let target = make_peer(9);
    let bodies = vec![
        MessageBody::Ping([3u8; 32]),
        MessageBody::Pong([4u8; 32]),
        MessageBody::FindNode([5u8; 32], [6u8; 32]),
        MessageBody::FoundNode([0u8; 32], 0, vec![]),
        MessageBody::FoundNode([0u8; 32], 3, vec![make_peer(1), make_peer(2), make_peer(200)]),
    ];
    for (session, body) in bodies.into_iter().enumerate() {
        let msg = Message {
            target,
            session: session as u8 * 100,
            body,
        };
        let bytes = encoded(&msg);
        let back = Message::decode(&bytes).unwrap();
        assert_eq!(back.target, msg.target);
        assert_eq!(back.session, msg.session);
        assert!(same_body(&back.body, &msg.body));
    }
}

#[test]
fn message_round_trip_pseudo_random() {
    let mut seed: u64 = 0x9e3779b97f4a7c15;
    let mut next = || {
        seed ^= seed << 13;
        seed ^= seed >> 7;
        seed ^= seed << 17;
        seed
    };
    for _ in 0..200 {
        let mut id = [0u8; 32];
        for b in id.iter_mut() {
            *b = next() as u8;
        }
        let n = (next() % 25) as usize;
        let mut peers = Vec::new();
        for _ in 0..n {
            let mut pid = [0u8; 32];
            for b in pid.iter_mut() {
                *b = next() as u8;
            }
            let ip = if next() % 2 == 0 {
                IpAddr::V4([next() as u8, next() as u8, next() as u8, next() as u8])
            } else {
                let mut o = [0u8; 16];
                for b in o.iter_mut() {
                    *b = next() as u8;
                }
                IpAddr::V6(o)
            };
            peers.push(Peer {
                id: pid,
                socket_addr: SocketAddr {
                    ip,
                    port: next() as u16,
                },
            });
        }
        let body = match next() % 4 {
            0 => MessageBody::Ping(id),
            1 => MessageBody::Pong(id),
            2 => MessageBody::FindNode(id, [next() as u8; 32]),
            _ => MessageBody::FoundNode(id, peers.len() as u8, peers),
        };
        let msg = Message {
            target: make_peer(next() as u8),
            session: next() as u8,
            body,
        };
        let bytes = encoded(&msg);
        let back = Message::decode(&bytes).unwrap();
        assert_eq!(back.target, msg.target);
        assert_eq!(back.session, msg.session);
        assert!(same_body(&back.body, &msg.body));
        let again = encoded(&back);
        assert_eq!(again, bytes);
    }
}

#[test]
fn truncated_message_is_malformed() {
    let msg = Message {
        target: make_peer(1),
        session: 5,
        body: MessageBody::Ping([1u8; 32]),
    };
    let bytes = encoded(&msg);
    for cut in 0..bytes.len() {
        assert!(Message::decode(&bytes[..cut]).is_err());
    }
}
