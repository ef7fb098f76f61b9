use kademlia::id::{closer, same_id, xor_bucket_index};
use kademlia::kbucket::KbucketTable;
use kademlia::node::Peer;
use kademlia::socket::{IpAddr, SocketAddr};

fn id(n: u64) -> [u8; 32] {
    let mut out = [0u8; 32];
    out[24..].copy_from_slice(&n.to_be_bytes());
    out
}

fn localhost(port: u16) -> SocketAddr {
    SocketAddr {
        ip: IpAddr::V4([127, 0, 0, 1]),
        port,
    }
}

fn peer(i: u64) -> Peer {
    let port = "600".to_string() + &i.to_string();
    Peer {
        id: id(i),
        socket_addr: localhost(port.parse::<u16>().unwrap()),
    }
}

#[test]
fn get_closest_nodes() {
    let local_id = id(0);
    let node_to_find = id(13);
    let mut table = KbucketTable::new(local_id);
    for i in 2..30 {
        if i == 13 {
            continue;
        }
        table.add(peer(i));
    }
    let mut expected_peers: Vec<Peer> = Vec::new();
    for i in 8..16 {
        if i == 13 {
            continue;
        }
        expected_peers.push(peer(i));
    }
    let mut closest_nodes = table.get_closest_nodes(&node_to_find, 7);
    closest_nodes.sort_by(|a, b| a.id.partial_cmp(&b.id).unwrap());
    assert_eq!(closest_nodes, expected_peers);
}

#[test]
fn closest_nodes_in_distance_order() {
    let mut table = KbucketTable::new(id(0));
    for i in 2..30 {
        if i != 13 {
            table.add(peer(i));
        }
    }
    let got: Vec<u64> = table
        .get_closest_nodes(&id(13), 7)
        .iter()
        .map(|p| p.id[31] as u64)
        .collect();
    assert_eq!(got, vec![12, 15, 14, 9, 8, 11, 10]);
}

#[test]
fn bucket_placement() {
    assert_eq!(xor_bucket_index(&id(0), &id(1)), 0);
    assert_eq!(xor_bucket_index(&id(0), &id(2)), 1);
    assert_eq!(xor_bucket_index(&id(0), &id(3)), 1);
    assert_eq!(xor_bucket_index(&id(0), &id(13)), 3);
    assert_eq!(xor_bucket_index(&id(0), &[0xffu8; 32]), 255);
    let mut high = [0u8; 32];
    high[0] = 0x80;
    assert_eq!(xor_bucket_index(&id(0), &high), 255);
    high[0] = 0x01;
    assert_eq!(xor_bucket_index(&id(0), &high), 248);
}

#[test]
fn bucket_index_in_range_for_distinct_ids() {
    let mut seed: u64 = 12345;
    for _ in 0..500 {
        let mut a = [0u8; 32];
        let mut b = [0u8; 32];
        for k in 0..32 {
            seed = seed.wrapping_mul(6364136223846793005).wrapping_add(1442695040888963407);
            a[k] = (seed >> 33) as u8;
            seed = seed.wrapping_mul(6364136223846793005).wrapping_add(1442695040888963407);
            b[k] = if k < 10 { a[k] } else { (seed >> 33) as u8 };
        }
        if a != b {
            let i = xor_bucket_index(&a, &b);
            assert!(i <= 255);
            assert!(i < 256 - 80);
        }
    }
}

#[test]
fn closer_and_same_id() {
    assert!(closer(&id(12), &id(15), &id(13)));
    assert!(!closer(&id(15), &id(12), &id(13)));
    assert!(!closer(&id(12), &id(12), &id(13)));
    assert!(same_id(&id(7), &id(7)));
    assert!(!same_id(&id(7), &id(8)));
}

#[test]
fn add_then_get() {
    let mut table = KbucketTable::new(id(0));
    let p = peer(5);
    assert_eq!(table.get(&p.id), None);
    assert!(table.add(p));
    assert_eq!(table.get(&p.id), Some(p));
    assert_eq!(table.get(&p.id).unwrap().socket_addr, p.socket_addr);
}

#[test]
fn add_existing_is_noop() {
    let mut table = KbucketTable::new(id(0));
    assert!(table.add(peer(5)));
    let other = Peer {
        id: id(5),
        socket_addr: localhost(1),
    };
    assert!(!table.add(other));
    assert_eq!(table.get(&id(5)), Some(peer(5)));
}

#[test]
fn add_local_id_rejected() {
    let mut table = KbucketTable::new(id(42));
    assert!(!table.add(Peer {
        id: id(42),
        socket_addr: localhost(1),
    }));
    assert_eq!(table.get(&id(42)), None);
    assert!(table.get_closest_nodes(&id(42), 5).is_empty());
}

#[test]
fn full_bucket_rejects() {
    let mut table = KbucketTable::with_limit(id(0), 2);
    assert!(table.add(peer(16)));
    assert!(table.add(peer(17)));
    assert!(!table.add(peer(18)));
    assert_eq!(table.get(&id(18)), None);
    assert!(table.add(peer(8)));
}

#[test]
fn closest_on_empty_table() {
    let table = KbucketTable::new(id(0));
    assert!(table.get_closest_nodes(&id(5), 3).is_empty());
}

#[test]
fn closest_with_stored_target_comes_first() {
    let mut table = KbucketTable::new(id(0));
    for i in 1..40 {
        table.add(peer(i));
    }
    let got = table.get_closest_nodes(&id(21), 4);
    assert_eq!(got[0], peer(21));
    assert_eq!(got.len(), 4);
}

#[test]
fn closest_with_local_target_fans_out_from_bucket_zero() {
    let mut table = KbucketTable::new(id(0));
    for i in [1u64, 2, 3, 4, 9, 33] {
        table.add(peer(i));
    }
    let got: Vec<u8> = table
        .get_closest_nodes(&id(0), 10)
        .iter()
        .map(|p| p.id[31])
        .collect();
    assert_eq!(got, vec![1, 2, 3, 4, 9, 33]);
}

#[test]
fn closest_excluding_requester() {
    let mut table = KbucketTable::new(id(0));
    for i in 2..30 {
        table.add(peer(i));
    }
    let got = table.get_closest_nodes_excluding(&id(13), 3, &id(13));
    let ids: Vec<u8> = got.iter().map(|p| p.id[31]).collect();
    assert_eq!(ids, vec![12, 15, 14]);
}

#[test]
fn closest_matches_brute_force() {
    let mut seed: u64 = 99;
    let mut next = || {
        seed = seed.wrapping_mul(6364136223846793005).wrapping_add(1442695040888963407);
        seed >> 33
    };
    for _ in 0..30 {
        let local = id(next());
        let mut table = KbucketTable::new(local);
        let mut known: Vec<Peer> = Vec::new();
        for _ in 0..150 {
            let mut pid = [0u8; 32];
            for b in pid.iter_mut() {
                *b = next() as u8;
            }
            let p = Peer {
                id: pid,
                socket_addr: localhost(next() as u16),
            };
            if table.add(p) {
                known.push(p);
            }
        }
        let mut t = [0u8; 32];
        for b in t.iter_mut() {
            *b = next() as u8;
        }
        let n = (next() % 30) as usize;
        let got = table.get_closest_nodes(&t, n);
        let dist = |p: &Peer| {
            let mut d = [0u8; 32];
            for k in 0..32 {
                d[k] = p.id[k] ^ t[k];
            }
            d
        };
        known.sort_by(|a, b| dist(a).cmp(&dist(b)));
        known.truncate(n);
        assert_eq!(got, known);
    }
}
