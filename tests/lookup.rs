use kademlia::kbucket::KbucketTable;
use kademlia::lookup::Lookup;
use kademlia::node::{Peer, ALPHA, K};
use kademlia::socket::{IpAddr, SocketAddr};

fn id(n: u64) -> [u8; 32] {
    let mut out = [0u8; 32];
    out[24..].copy_from_slice(&n.to_be_bytes());
    out
}

fn peer(n: u64) -> Peer {
    Peer {
        id: id(n),
        socket_addr: SocketAddr {
            ip: IpAddr::V4([127, 0, 0, 1]),
            port: (n % 60000) as u16 + 1,
        },
    }
}

fn dist(a: &[u8; 32], b: &[u8; 32]) -> [u8; 32] {
    let mut d = [0u8; 32];
    for k in 0..32 {
        d[k] = a[k] ^ b[k];
    }
    d
}

/// Runs a lookup from `local` against the tables of `nodes`; a peer with no
/// table does not answer.
fn run(local: &KbucketTable, target: [u8; 32], nodes: &[(u64, KbucketTable)], k: usize) -> Lookup {
    let seeds = local.get_closest_nodes(&target, ALPHA);
    let mut lookup = Lookup::new(local.local_id(), target, &seeds, k, ALPHA);
    let mut guard = 0;
    while !lookup.is_finished() {
        guard += 1;
        assert!(guard < 100);
        let asked = lookup.next_round();
        for p in asked {
            let answer = nodes
                .iter()
                .find(|(n, _)| id(*n) == p.id)
                .map(|(_, t)| t.get_closest_nodes_excluding(&target, k, &local.local_id()));
            lookup.on_response(&p.id, answer);
        }
    }
    lookup
}

#[test]
fn node_lookup() {
    let mut local = KbucketTable::new(id(0));
    let mut nodes = Vec::new();
    for n in [1u64, 5, 7, 20] {
        local.add(peer(n));
        let mut t = KbucketTable::new(id(n));
        for i in 2..30 {
            if i == 13 {
                continue;
            }
            t.add(peer(i));
        }
        nodes.push((n, t));
    }
    let lookup = run(&local, id(3), &nodes, K);
    let found = lookup.result();
    assert_eq!(found[0].id, id(3));
    assert!(found.len() <= K);
    for w in found.windows(2) {
        assert!(dist(&w[0].id, &id(3)) < dist(&w[1].id, &id(3)));
    }
}

#[test]
fn iterative_convergence_on_a_ring() {
    let target = id(1 << 40);
    let ring: Vec<u64> = [30u32, 24, 18, 12, 8, 4, 1]
        .iter()
        .map(|b| (1u64 << 40) ^ (1u64 << b))
        .collect();
    let mut nodes = Vec::new();
    for (i, n) in ring.iter().enumerate() {
        let mut t = KbucketTable::new(id(*n));
        if i + 1 < ring.len() {
            t.add(peer(ring[i + 1]));
        }
        if i > 0 {
            t.add(peer(ring[i - 1]));
        }
        nodes.push((*n, t));
    }
    let mut local = KbucketTable::new(id(3 << 50));
    local.add(peer(ring[0]));
    let lookup = run(&local, target, &nodes, 3);
    let found = lookup.result();
    let best = ring
        .iter()
        .map(|n| dist(&id(*n), &target))
        .min()
        .unwrap();
    assert_eq!(dist(&found[0].id, &target), best);
    assert!(lookup.rounds() >= 7);
}

#[test]
fn lookup_with_empty_table_finishes_at_once() {
    let local = KbucketTable::new(id(0));
    let lookup = run(&local, id(9), &[], K);
    assert!(lookup.result().is_empty());
    assert_eq!(lookup.rounds(), 0);
}

#[test]
fn silent_peers_are_not_asked_again() {
    let mut local = KbucketTable::new(id(0));
    for n in [1u64, 2, 3, 4] {
        local.add(peer(n));
    }
    let seeds = local.get_closest_nodes(&id(6), 4);
    let mut lookup = Lookup::new(id(0), id(6), &seeds, K, 2);
    let first = lookup.next_round();
    assert_eq!(first.len(), 2);
    assert!(!lookup.is_finished());
    for p in &first {
        lookup.on_response(&p.id, None);
    }
    let second = lookup.next_round();
    assert_eq!(second.len(), 2);
    for p in &second {
        assert!(first.iter().all(|q| q.id != p.id));
        lookup.on_response(&p.id, None);
    }
    assert!(lookup.next_round().is_empty());
    assert!(lookup.is_finished());
}
