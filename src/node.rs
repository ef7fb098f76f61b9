//! Peers, protocol constants, and the decisions of the node façade.

use crate::id::Identifier;
use crate::kbucket::{closest_of, gets, KbucketTable};
use crate::message::{BodyModel, DecoderError, Message, MessageBody, MessageModel};
use crate::rlp::{put_bytes, put_list_header, rlp_list, rlp_string, take_array, take_list};
use crate::socket::{socket_addr_bytes, SocketAddr};
use rand::Rng;
use vstd::prelude::*;

verus! {

/// Bucket capacity and width of a lookup's answer.
pub const K: usize = 20;

/// Parallelism of an iterative lookup.
pub const ALPHA: usize = 3;

/// Number of buckets in a routing table: one per bit of an identifier.
pub const MAX_BUCKETS: usize = 256;

/// A participant of the overlay: its identifier and its endpoint.
#[derive(Clone, Copy, Debug, PartialEq, Eq)]
pub struct Peer {
    pub id: Identifier,
    pub socket_addr: SocketAddr,
}

/// Wire form of a peer: `list(bytes id, endpoint)`.
pub open spec fn peer_bytes(p: Peer) -> Seq<u8> {
    rlp_list(rlp_string(p.id@) + socket_addr_bytes(p.socket_addr))
}

impl Peer {
    /// Appends the wire form of the peer to `out`.
    pub fn encode(&self, out: &mut Vec<u8>)
        ensures
            final(out)@ == old(out)@ + peer_bytes(*self),
    {
        let mut payload: Vec<u8> = Vec::new();
        put_bytes(self.id.as_slice(), &mut payload);
        self.socket_addr.encode(&mut payload);
        assert(payload@ =~= rlp_string(self.id@) + socket_addr_bytes(self.socket_addr));
        put_list_header(payload.len(), out);
        out.append(&mut payload);
        assert(final(out)@ =~= old(out)@ + peer_bytes(*self));
    }

    /// Reads one peer off the front of `data`, returning it with the bytes
    /// that follow it.
    pub fn decode_prefix<'a>(data: &'a [u8]) -> (r: Result<(Peer, &'a [u8]), DecoderError>)
        ensures
            r is Ok ==> data@ == peer_bytes(r->Ok_0.0) + r->Ok_0.1@,
            forall|p: Peer, rest: Seq<u8>|
                data@ == #[trigger] (peer_bytes(p) + rest) ==> r is Ok && r->Ok_0.0 == p
                    && r->Ok_0.1@ == rest,
    {
        broadcast use vstd::array::group_array_axioms;

        let (payload, rest) = match take_list(data) {
            Ok(x) => x,
            Err(_) => {
                assert forall|p: Peer, rest: Seq<u8>|
                    data@ == #[trigger] (peer_bytes(p) + rest) implies false by {
                    assert(data@ == rlp_list(rlp_string(p.id@) + socket_addr_bytes(p.socket_addr))
                        + rest);
                }
                return Err(DecoderError::Malformed);
            },
        };
        let (id, p1) = match take_array::<32>(payload) {
            Ok(x) => x,
            Err(_) => {
                assert forall|p: Peer, rest: Seq<u8>|
                    data@ == #[trigger] (peer_bytes(p) + rest) implies false by {
                    assert(data@ == rlp_list(rlp_string(p.id@) + socket_addr_bytes(p.socket_addr))
                        + rest);
                    assert(payload@ == rlp_string(p.id@) + socket_addr_bytes(p.socket_addr));
                }
                return Err(DecoderError::Malformed);
            },
        };
        let (socket_addr, p2) = match SocketAddr::decode_prefix(p1) {
            Ok(x) => x,
            Err(_) => {
                assert forall|p: Peer, rest: Seq<u8>|
                    data@ == #[trigger] (peer_bytes(p) + rest) implies false by {
                    assert(data@ == rlp_list(rlp_string(p.id@) + socket_addr_bytes(p.socket_addr))
                        + rest);
                    assert(payload@ == rlp_string(p.id@) + socket_addr_bytes(p.socket_addr));
                    assert(p1@ == socket_addr_bytes(p.socket_addr) + Seq::<u8>::empty());
                }
                return Err(DecoderError::Malformed);
            },
        };
        if p2.len() != 0 {
            assert forall|p: Peer, rest: Seq<u8>|
                data@ == #[trigger] (peer_bytes(p) + rest) implies false by {
                assert(data@ == rlp_list(rlp_string(p.id@) + socket_addr_bytes(p.socket_addr))
                    + rest);
                assert(payload@ == rlp_string(p.id@) + socket_addr_bytes(p.socket_addr));
                assert(p1@ =~= socket_addr_bytes(p.socket_addr) + Seq::<u8>::empty());
            }
            return Err(DecoderError::Malformed);
        }
        let peer = Peer { id, socket_addr };
        assert(payload@ =~= rlp_string(peer.id@) + socket_addr_bytes(peer.socket_addr));
        assert forall|p: Peer, rest2: Seq<u8>|
            data@ == #[trigger] (peer_bytes(p) + rest2) implies peer == p && rest@ == rest2 by {
            assert(data@ == rlp_list(rlp_string(p.id@) + socket_addr_bytes(p.socket_addr))
                + rest2);
            assert(payload@ == rlp_string(p.id@) + socket_addr_bytes(p.socket_addr));
            assert(p1@ =~= socket_addr_bytes(p.socket_addr) + Seq::<u8>::empty());
            assert(id =~= p.id);
        }
        Ok((peer, rest))
    }
}

/// What `find_node` does next.
#[derive(Clone, Debug)]
pub enum FindNodeStep {
    /// The peer is known already.
    Known(Peer),
    /// Ask this request of its target, the known peer closest to the id.
    Ask(Message),
    /// The table is empty: there is no one to ask.
    NoHop,
}

/// The ping to the peer `p` looked up for `id`: none when the lookup failed.
pub open spec fn ping_for(p: Option<Peer>, local_id: Identifier, session: u8, r: Option<Message>) -> bool {
    match p {
        None => r is None,
        Some(peer) => r is Some && r->0@ == MessageModel {
            target: peer,
            session,
            body: BodyModel::Ping(local_id),
        },
    }
}

/// The ping to send to the known peer `id`, stamped with `session`; none
/// when `id` is not in `table`, and then nothing is sent.
pub fn ping_request(table: &KbucketTable, local_id: &Identifier, id: &Identifier, session: u8) -> (r:
    Option<Message>)
    requires
        table.wf(),
    ensures
        exists|p: Option<Peer>| gets(table@, *id, p) && ping_for(p, *local_id, session, r),
{
    let p = table.get(id);
    match p {
        Some(peer) => Some(Message { target: peer, session, body: MessageBody::Ping(*local_id) }),
        None => None,
    }
}

/// The find-node request for `id` sent to `target`, stamped with `session`.
pub fn find_node_message(local_id: &Identifier, id: &Identifier, target: Peer, session: u8) -> (r:
    Message)
    ensures
        r@ == (MessageModel { target, session, body: BodyModel::FindNode(*local_id, *id) }),
{
    Message { target, session, body: MessageBody::FindNode(*local_id, *id) }
}

/// The step taken for `id` given the lookup `p` of `id` and the answer
/// `hops` to a query for the one known peer closest to `id`.
pub open spec fn find_node_for(
    p: Option<Peer>,
    hops: Seq<Peer>,
    local_id: Identifier,
    id: Identifier,
    session: u8,
    r: FindNodeStep,
) -> bool {
    match p {
        Some(peer) => r == FindNodeStep::Known(peer),
        None => if hops.len() == 0 {
            r is NoHop
        } else {
            r is Ask && r->Ask_0@ == MessageModel {
                target: hops[0],
                session,
                body: BodyModel::FindNode(local_id, id),
            }
        },
    }
}

/// The first step of `find_node(id)`: a known peer is returned at once;
/// otherwise the request goes to the known peer closest to `id`, if any.
pub fn find_node_request(table: &KbucketTable, local_id: &Identifier, id: &Identifier, session: u8) -> (r:
    FindNodeStep)
    requires
        table.wf(),
    ensures
        exists|p: Option<Peer>, hops: Seq<Peer>|
            gets(table@, *id, p) && closest_of(table@, *id, 1, hops) && find_node_for(
                p,
                hops,
                *local_id,
                *id,
                session,
                r,
            ),
{
    let p = table.get(id);
    let hops = table.get_closest_nodes(id, 1);
    let ghost hv = hops@;
    let r = match p {
        Some(peer) => FindNodeStep::Known(peer),
        None => if hops.len() == 0 {
            FindNodeStep::NoHop
        } else {
            FindNodeStep::Ask(find_node_message(local_id, id, hops[0], session))
        },
    };
    assert(gets(table@, *id, p) && closest_of(table@, *id, 1, hv) && find_node_for(
        p,
        hv,
        *local_id,
        *id,
        session,
        r,
    ));
    r
}

/// Relies on `rand::Rng::gen_range` over `rand::thread_rng()`: a session tag
/// drawn uniformly from `0..=255`. Nothing is promised of its value.
#[verifier::external_body]
fn random_session() -> (r: u8) {
    rand::thread_rng().gen_range(0..=255)
}

/// As `ping_request`, stamped with a freshly drawn session tag.
pub fn fresh_ping_request(table: &KbucketTable, local_id: &Identifier, id: &Identifier) -> (r: Option<
    Message,
>)
    requires
        table.wf(),
    ensures
        exists|p: Option<Peer>, session: u8| gets(table@, *id, p) && ping_for(p, *local_id, session, r),
{
    let session = random_session();
    ping_request(table, local_id, id, session)
}

/// As `find_node_request`, stamped with a freshly drawn session tag.
pub fn fresh_find_node_request(table: &KbucketTable, local_id: &Identifier, id: &Identifier) -> (r:
    FindNodeStep)
    requires
        table.wf(),
    ensures
        exists|p: Option<Peer>, hops: Seq<Peer>, session: u8|
            gets(table@, *id, p) && closest_of(table@, *id, 1, hops) && find_node_for(
                p,
                hops,
                *local_id,
                *id,
                session,
                r,
            ),
{
    let session = random_session();
    find_node_request(table, local_id, id, session)
}

/// As `find_node_message`, stamped with a freshly drawn session tag.
pub fn fresh_find_node_message(local_id: &Identifier, id: &Identifier, target: Peer) -> (r: Message)
    ensures
        r@.target == target,
        r@.body == BodyModel::FindNode(*local_id, *id),
{
    let session = random_session();
    find_node_message(local_id, id, target, session)
}

} // verus!
