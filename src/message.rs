//! Protocol messages and their wire form:
//! `Message := list(Peer, u8 session, Body)` and
//! `Body := list(u8 tag, requester or responder id, ...)`.

use crate::id::Identifier;
use crate::node::{peer_bytes, Peer};
use crate::rlp::{
    put_bytes, put_list_header, put_u8, rlp_list, rlp_string, rlp_uint, take_array, take_list,
    take_u8,
};
use vstd::prelude::*;

verus! {

broadcast use vstd::array::group_array_axioms;

/// Why a frame could not be read.
#[derive(Clone, Copy, Debug, PartialEq, Eq, Structural)]
pub enum DecoderError {
    Malformed,
}

/// The body of a message. Requests are `Ping` and `FindNode`; `Pong` and
/// `FoundNode` answer them.
#[derive(Clone, Debug)]
pub enum MessageBody {
    /// Requester id.
    Ping(Identifier),
    /// Responder id.
    Pong(Identifier),
    /// Requester id and the id being looked for.
    FindNode(Identifier, Identifier),
    /// Responder id, number of peers, and the peers.
    FoundNode(Identifier, u8, Vec<Peer>),
}

/// A message addressed to `target`, stamped with a session tag.
#[derive(Clone, Debug)]
pub struct Message {
    pub target: Peer,
    pub session: u8,
    pub body: MessageBody,
}

/// Value of a message body.
pub enum BodyModel {
    Ping(Identifier),
    Pong(Identifier),
    FindNode(Identifier, Identifier),
    FoundNode(Identifier, u8, Seq<Peer>),
}

/// Value of a message.
pub struct MessageModel {
    pub target: Peer,
    pub session: u8,
    pub body: BodyModel,
}

impl View for MessageBody {
    type V = BodyModel;

    open spec fn view(&self) -> BodyModel {
        match self {
            MessageBody::Ping(id) => BodyModel::Ping(*id),
            MessageBody::Pong(id) => BodyModel::Pong(*id),
            MessageBody::FindNode(id, t) => BodyModel::FindNode(*id, *t),
            MessageBody::FoundNode(id, n, peers) => BodyModel::FoundNode(*id, *n, peers@),
        }
    }
}

impl View for Message {
    type V = MessageModel;

    open spec fn view(&self) -> MessageModel {
        MessageModel { target: self.target, session: self.session, body: self.body@ }
    }
}

/// Encoded peers, one after the other.
pub open spec fn peers_payload(s: Seq<Peer>) -> Seq<u8>
    decreases s.len(),
{
    if s.len() == 0 {
        Seq::empty()
    } else {
        peers_payload(s.drop_last()) + peer_bytes(s.last())
    }
}

/// Wire code of a body variant.
pub open spec fn body_tag(b: BodyModel) -> u8 {
    match b {
        BodyModel::Ping(_) => 0,
        BodyModel::Pong(_) => 1,
        BodyModel::FindNode(_, _) => 2,
        BodyModel::FoundNode(_, _, _) => 3,
    }
}

/// The id that every body carries first.
pub open spec fn body_sender(b: BodyModel) -> Identifier {
    match b {
        BodyModel::Ping(id) => id,
        BodyModel::Pong(id) => id,
        BodyModel::FindNode(id, _) => id,
        BodyModel::FoundNode(id, _, _) => id,
    }
}

/// The items of a body that follow its sender id.
pub open spec fn body_rest(b: BodyModel) -> Seq<u8> {
    match b {
        BodyModel::Ping(_) => Seq::empty(),
        BodyModel::Pong(_) => Seq::empty(),
        BodyModel::FindNode(_, t) => rlp_string(t@),
        BodyModel::FoundNode(_, n, s) => rlp_uint(n as nat) + rlp_list(peers_payload(s)),
    }
}

/// Wire form of a body.
pub open spec fn body_bytes(b: BodyModel) -> Seq<u8> {
    rlp_list(rlp_uint(body_tag(b) as nat) + (rlp_string(body_sender(b)@) + body_rest(b)))
}

/// A body that can travel: a peer list's declared count is its length.
pub open spec fn body_legal(b: BodyModel) -> bool {
    match b {
        BodyModel::FoundNode(_, n, s) => n == s.len(),
        _ => true,
    }
}

/// Wire form of a message.
pub open spec fn message_bytes(m: MessageModel) -> Seq<u8> {
    rlp_list(peer_bytes(m.target) + (rlp_uint(m.session as nat) + body_bytes(m.body)))
}

/// What a decoder of whole messages owes: it accepts exactly the wire forms
/// of legal messages, and gives back the message they encode.
pub open spec fn decodes_message(data: Seq<u8>, r: Result<Message, DecoderError>) -> bool {
    &&& r is Ok ==> body_legal(r->Ok_0@.body) && data == message_bytes(r->Ok_0@)
    &&& forall|m: MessageModel|
        body_legal(m.body) && data == #[trigger] message_bytes(m) ==> r is Ok && r->Ok_0@ == m
}

proof fn lemma_peers_payload_append(a: Seq<Peer>, b: Seq<Peer>)
    ensures
        peers_payload(a + b) == peers_payload(a) + peers_payload(b),
    decreases b.len(),
{
    if b.len() == 0 {
        assert(a + b =~= a);
        assert(peers_payload(a) + peers_payload(b) =~= peers_payload(a));
    } else {
        lemma_peers_payload_append(a, b.drop_last());
        assert((a + b).drop_last() =~= a + b.drop_last());
        assert((a + b).last() == b.last());
        assert(peers_payload(a + b) =~= peers_payload(a) + peers_payload(b));
    }
}

/// Encoding of a nonempty peer sequence starts with its first peer.
proof fn lemma_peers_payload_front(s: Seq<Peer>)
    requires
        s.len() > 0,
    ensures
        peers_payload(s) == peer_bytes(s[0]) + peers_payload(s.skip(1)),
{
    lemma_peers_payload_append(seq![s[0]], s.skip(1));
    assert(seq![s[0]] + s.skip(1) =~= s);
    lemma_peers_payload_single(s[0]);
}

proof fn lemma_peers_payload_single(x: Peer)
    ensures
        peers_payload(seq![x]) == peer_bytes(x),
{
    let one = seq![x];
    assert(one.drop_last() =~= Seq::<Peer>::empty());
    assert(peers_payload(one.drop_last()) == Seq::<u8>::empty());
    assert(peers_payload(one) == peers_payload(one.drop_last()) + peer_bytes(one.last()));
    assert(peers_payload(one) =~= peer_bytes(x));
}

/// A peer's wire form is never empty.
proof fn lemma_peers_payload_empty(s: Seq<Peer>)
    ensures
        peers_payload(s).len() == 0 <==> s.len() == 0,
{
    if s.len() > 0 {
        let p = s.last();
        assert(peer_bytes(p).len() > 0);
    }
}

/// Appends `list(peers...)` to `out`.
fn encode_peers(peers: &Vec<Peer>, out: &mut Vec<u8>)
    ensures
        final(out)@ == old(out)@ + rlp_list(peers_payload(peers@)),
{
    let mut payload: Vec<u8> = Vec::new();
    let mut i: usize = 0;
    while i < peers.len()
        invariant
            i <= peers@.len(),
            payload@ == peers_payload(peers@.take(i as int)),
        decreases peers@.len() - i,
    {
        peers[i].encode(&mut payload);
        assert(peers@.take(i + 1).drop_last() =~= peers@.take(i as int));
        i = i + 1;
    }
    assert(peers@.take(i as int) =~= peers@);
    put_list_header(payload.len(), out);
    out.append(&mut payload);
}

/// Reads `list(peers...)` off the front of `data`.
fn take_peers<'a>(data: &'a [u8]) -> (r: Result<(Vec<Peer>, &'a [u8]), DecoderError>)
    ensures
        r is Ok ==> data@ == rlp_list(peers_payload(r->Ok_0.0@)) + r->Ok_0.1@,
        forall|s: Seq<Peer>, rest: Seq<u8>|
            data@ == #[trigger] (rlp_list(peers_payload(s)) + rest) ==> r is Ok && r->Ok_0.0@ == s
                && r->Ok_0.1@ == rest,
{
    let (payload, rest) = match take_list(data) {
        Ok(x) => x,
        Err(_) => {
            return Err(DecoderError::Malformed);
        },
    };
    let ghost whole = payload@;
    let mut peers: Vec<Peer> = Vec::new();
    let mut p = payload;
    assert forall|s: Seq<Peer>| whole == #[trigger] peers_payload(s) implies 0 <= s.len() && s.take(
        0,
    ) == Seq::<Peer>::empty() && p@ == peers_payload(s.skip(0)) by {
        assert(s.take(0) =~= Seq::<Peer>::empty());
        assert(s.skip(0) =~= s);
    }
    assert(whole =~= peers_payload(peers@) + p@);
    while p.len() != 0
        invariant
            whole == peers_payload(peers@) + p@,
            forall|s: Seq<Peer>, r2: Seq<u8>|
                data@ == #[trigger] (rlp_list(peers_payload(s)) + r2) ==> whole == peers_payload(s)
                    && rest@ == r2,
            forall|s: Seq<Peer>|
                whole == #[trigger] peers_payload(s) ==> peers@.len() <= s.len() && s.take(
                    peers@.len() as int,
                ) == peers@ && p@ == peers_payload(s.skip(peers@.len() as int)),
        decreases p@.len(),
    {
        let (peer, q) = match Peer::decode_prefix(p) {
            Ok(x) => x,
            Err(_) => {
                assert forall|s: Seq<Peer>, rest: Seq<u8>|
                    data@ == #[trigger] (rlp_list(peers_payload(s)) + rest) implies false by {
                    let d = peers@.len() as int;
                    let tail = s.skip(d);
                    lemma_peers_payload_empty(tail);
                    lemma_peers_payload_front(tail);
                    assert(p@ == peer_bytes(tail[0]) + peers_payload(tail.skip(1)));
                }
                return Err(DecoderError::Malformed);
            },
        };
        proof {
            lemma_peers_payload_append(peers@, seq![peer]);
            lemma_peers_payload_single(peer);
            assert(peers@ + seq![peer] =~= peers@.push(peer));
            assert forall|s: Seq<Peer>| whole == #[trigger] peers_payload(s) implies peers@.len()
                + 1 <= s.len() && s.take(peers@.len() + 1 as int) == peers@.push(peer) && q@
                == peers_payload(s.skip(peers@.len() + 1 as int)) by {
                let d = peers@.len() as int;
                let tail = s.skip(d);
                lemma_peers_payload_empty(tail);
                lemma_peers_payload_front(tail);
                assert(p@ == peer_bytes(tail[0]) + peers_payload(tail.skip(1)));
                assert(tail.skip(1) =~= s.skip(d + 1));
                assert(s.take(d + 1) =~= s.take(d).push(s[d]));
            }
        }
        peers.push(peer);
        assert(whole =~= peers_payload(peers@) + q@);
        p = q;
    }
    assert(whole =~= peers_payload(peers@));
    assert forall|s: Seq<Peer>, rest2: Seq<u8>|
        data@ == #[trigger] (rlp_list(peers_payload(s)) + rest2) implies peers@ == s && rest@
            == rest2 by {
        lemma_peers_payload_empty(s.skip(peers@.len() as int));
        assert(s =~= s.take(peers@.len() as int));
    }
    Ok((peers, rest))
}

impl MessageBody {
    /// Appends the wire form of the body to `out`.
    pub fn encode(&self, out: &mut Vec<u8>)
        ensures
            final(out)@ == old(out)@ + body_bytes(self@),
    {
        let mut payload: Vec<u8> = Vec::new();
        match self {
            MessageBody::Ping(id) => {
                put_u8(0, &mut payload);
                put_bytes(id.as_slice(), &mut payload);
            },
            MessageBody::Pong(id) => {
                put_u8(1, &mut payload);
                put_bytes(id.as_slice(), &mut payload);
            },
            MessageBody::FindNode(id, target) => {
                put_u8(2, &mut payload);
                put_bytes(id.as_slice(), &mut payload);
                put_bytes(target.as_slice(), &mut payload);
            },
            MessageBody::FoundNode(id, total, peers) => {
                put_u8(3, &mut payload);
                put_bytes(id.as_slice(), &mut payload);
                put_u8(*total, &mut payload);
                encode_peers(peers, &mut payload);
            },
        }
        assert(payload@ =~= rlp_uint(body_tag(self@) as nat) + (rlp_string(body_sender(self@)@)
            + body_rest(self@)));
        put_list_header(payload.len(), out);
        out.append(&mut payload);
        assert(final(out)@ =~= old(out)@ + body_bytes(self@));
    }

    /// The first steps of reading a body that is there.
    proof fn lemma_steps(b: BodyModel, rest: Seq<u8>, data: Seq<u8>)
        requires
            data == body_bytes(b) + rest,
        ensures
            data == rlp_list(
                rlp_uint(body_tag(b) as nat) + (rlp_string(body_sender(b)@) + body_rest(b)),
            ) + rest,
            body_tag(b) == 0 ==> body_rest(b) == Seq::<u8>::empty(),
            body_tag(b) == 1 ==> body_rest(b) == Seq::<u8>::empty(),
            body_tag(b) <= 3,
    {
    }

    /// Reads one body off the front of `data`, returning it with the bytes
    /// that follow it.
    pub fn decode_prefix<'a>(data: &'a [u8]) -> (r: Result<(MessageBody, &'a [u8]), DecoderError>)
        ensures
            r is Ok ==> body_legal(r->Ok_0.0@) && data@ == body_bytes(r->Ok_0.0@) + r->Ok_0.1@,
            forall|b: BodyModel, rest: Seq<u8>|
                body_legal(b) && data@ == #[trigger] (body_bytes(b) + rest) ==> r is Ok
                    && r->Ok_0.0@ == b && r->Ok_0.1@ == rest,
    {
        let (payload, rest) = match take_list(data) {
            Ok(x) => x,
            Err(_) => {
                assert forall|b: BodyModel, rest: Seq<u8>|
                    body_legal(b) && data@ == #[trigger] (body_bytes(b) + rest) implies false by {
                    Self::lemma_steps(b, rest, data@);
                }
                return Err(DecoderError::Malformed);
            },
        };
        let (tag, p1) = match take_u8(payload) {
            Ok(x) => x,
            Err(_) => {
                assert forall|b: BodyModel, rest: Seq<u8>|
                    body_legal(b) && data@ == #[trigger] (body_bytes(b) + rest) implies false by {
                    Self::lemma_steps(b, rest, data@);
                }
                return Err(DecoderError::Malformed);
            },
        };
        let (id, p2) = match take_array::<32>(p1) {
            Ok(x) => x,
            Err(_) => {
                assert forall|b: BodyModel, rest: Seq<u8>|
                    body_legal(b) && data@ == #[trigger] (body_bytes(b) + rest) implies false by {
                    Self::lemma_steps(b, rest, data@);
                }
                return Err(DecoderError::Malformed);
            },
        };
        let body: MessageBody;
        let ghost mut count_and_peers: Seq<u8> = Seq::empty();
        if tag == 0 || tag == 1 {
            if p2.len() != 0 {
                assert forall|b: BodyModel, rest: Seq<u8>|
                    body_legal(b) && data@ == #[trigger] (body_bytes(b) + rest) implies false by {
                    Self::lemma_steps(b, rest, data@);
                }
                return Err(DecoderError::Malformed);
            }
            body = if tag == 0 {
                MessageBody::Ping(id)
            } else {
                MessageBody::Pong(id)
            };
        } else if tag == 2 {
            let (target, p3) = match take_array::<32>(p2) {
                Ok(x) => x,
                Err(_) => {
                    assert forall|b: BodyModel, rest: Seq<u8>|
                        body_legal(b) && data@ == #[trigger] (body_bytes(b) + rest) implies false by {
                        Self::lemma_steps(b, rest, data@);
                        if let BodyModel::FindNode(_, t) = b {
                            assert(p2@ == rlp_string(t@) + Seq::<u8>::empty());
                        }
                    }
                    return Err(DecoderError::Malformed);
                },
            };
            if p3.len() != 0 {
                assert forall|b: BodyModel, rest: Seq<u8>|
                    body_legal(b) && data@ == #[trigger] (body_bytes(b) + rest) implies false by {
                    Self::lemma_steps(b, rest, data@);
                    if let BodyModel::FindNode(_, t) = b {
                        assert(p2@ == rlp_string(t@) + Seq::<u8>::empty());
                    }
                }
                return Err(DecoderError::Malformed);
            }
            body = MessageBody::FindNode(id, target);
        } else if tag == 3 {
            let (total, p3) = match take_u8(p2) {
                Ok(x) => x,
                Err(_) => {
                    assert forall|b: BodyModel, rest: Seq<u8>|
                        body_legal(b) && data@ == #[trigger] (body_bytes(b) + rest) implies false by {
                        Self::lemma_steps(b, rest, data@);
                    }
                    return Err(DecoderError::Malformed);
                },
            };
            let (peers, p4) = match take_peers(p3) {
                Ok(x) => x,
                Err(_) => {
                    assert forall|b: BodyModel, rest: Seq<u8>|
                        body_legal(b) && data@ == #[trigger] (body_bytes(b) + rest) implies false by {
                        Self::lemma_steps(b, rest, data@);
                        if let BodyModel::FoundNode(_, _, s) = b {
                            assert(p3@ == rlp_list(peers_payload(s)) + Seq::<u8>::empty());
                        }
                    }
                    return Err(DecoderError::Malformed);
                },
            };
            if p4.len() != 0 || total as usize != peers.len() {
                assert forall|b: BodyModel, rest: Seq<u8>|
                    body_legal(b) && data@ == #[trigger] (body_bytes(b) + rest) implies false by {
                    Self::lemma_steps(b, rest, data@);
                    if let BodyModel::FoundNode(_, _, s) = b {
                        assert(p3@ == rlp_list(peers_payload(s)) + Seq::<u8>::empty());
                    }
                }
                return Err(DecoderError::Malformed);
            }
            proof {
                count_and_peers = p3@;
            }
            body = MessageBody::FoundNode(id, total, peers);
        } else {
            assert forall|b: BodyModel, rest: Seq<u8>|
                body_legal(b) && data@ == #[trigger] (body_bytes(b) + rest) implies false by {
                Self::lemma_steps(b, rest, data@);
            }
            return Err(DecoderError::Malformed);
        }
        assert(payload@ =~= rlp_uint(body_tag(body@) as nat) + (rlp_string(body_sender(body@)@)
            + body_rest(body@)));
        assert forall|b: BodyModel, rest2: Seq<u8>|
            body_legal(b) && data@ == #[trigger] (body_bytes(b) + rest2) implies body@ == b
                && rest@ == rest2 by {
            Self::lemma_steps(b, rest2, data@);
            assert(body_sender(b) =~= id);
            match b {
                BodyModel::FindNode(_, t) => {
                    assert(p2@ == rlp_string(t@) + Seq::<u8>::empty());
                    assert(t =~= body->FindNode_1);
                },
                BodyModel::FoundNode(_, _, s) => {
                    assert(count_and_peers == rlp_list(peers_payload(s)) + Seq::<u8>::empty());
                },
                _ => {},
            }
        }
        Ok((body, rest))
    }
}

impl Message {
    /// Appends the wire form of the message to `out`.
    pub fn encode(&self, out: &mut Vec<u8>)
        ensures
            final(out)@ == old(out)@ + message_bytes(self@),
    {
        let mut payload: Vec<u8> = Vec::new();
        self.target.encode(&mut payload);
        put_u8(self.session, &mut payload);
        self.body.encode(&mut payload);
        assert(payload@ =~= peer_bytes(self.target) + (rlp_uint(self.session as nat) + body_bytes(
            self.body@,
        )));
        put_list_header(payload.len(), out);
        out.append(&mut payload);
        assert(final(out)@ =~= old(out)@ + message_bytes(self@));
    }

    proof fn lemma_steps(m: MessageModel, data: Seq<u8>)
        requires
            data == message_bytes(m),
        ensures
            data == rlp_list(
                peer_bytes(m.target) + (rlp_uint(m.session as nat) + body_bytes(m.body)),
            ) + Seq::<u8>::empty(),
    {
        assert(data =~= data + Seq::<u8>::empty());
    }

    /// Reads a message that fills `data` exactly: one datagram.
    pub fn decode(data: &[u8]) -> (r: Result<Message, DecoderError>)
        ensures
            decodes_message(data@, r),
    {
        let (payload, rest) = match take_list(data) {
            Ok(x) => x,
            Err(_) => {
                assert forall|m: MessageModel|
                    body_legal(m.body) && data@ == #[trigger] message_bytes(m) implies false by {
                    Self::lemma_steps(m, data@);
                }
                return Err(DecoderError::Malformed);
            },
        };
        if rest.len() != 0 {
            assert forall|m: MessageModel|
                body_legal(m.body) && data@ == #[trigger] message_bytes(m) implies false by {
                Self::lemma_steps(m, data@);
            }
            return Err(DecoderError::Malformed);
        }
        let (target, p1) = match Peer::decode_prefix(payload) {
            Ok(x) => x,
            Err(_) => {
                assert forall|m: MessageModel|
                    body_legal(m.body) && data@ == #[trigger] message_bytes(m) implies false by {
                    Self::lemma_steps(m, data@);
                }
                return Err(DecoderError::Malformed);
            },
        };
        let (session, p2) = match take_u8(p1) {
            Ok(x) => x,
            Err(_) => {
                assert forall|m: MessageModel|
                    body_legal(m.body) && data@ == #[trigger] message_bytes(m) implies false by {
                    Self::lemma_steps(m, data@);
                }
                return Err(DecoderError::Malformed);
            },
        };
        let (body, p3) = match MessageBody::decode_prefix(p2) {
            Ok(x) => x,
            Err(_) => {
                assert forall|m: MessageModel|
                    body_legal(m.body) && data@ == #[trigger] message_bytes(m) implies false by {
                    Self::lemma_steps(m, data@);
                    assert(p2@ == body_bytes(m.body) + Seq::<u8>::empty());
                }
                return Err(DecoderError::Malformed);
            },
        };
        if p3.len() != 0 {
            assert forall|m: MessageModel|
                body_legal(m.body) && data@ == #[trigger] message_bytes(m) implies false by {
                Self::lemma_steps(m, data@);
                assert(p2@ == body_bytes(m.body) + Seq::<u8>::empty());
            }
            return Err(DecoderError::Malformed);
        }
        let msg = Message { target, session, body };
        assert(data@ =~= message_bytes(msg@));
        assert forall|m: MessageModel|
            body_legal(m.body) && data@ == #[trigger] message_bytes(m) implies msg@ == m by {
            Self::lemma_steps(m, data@);
            assert(p2@ == body_bytes(m.body) + Seq::<u8>::empty());
        }
        Ok(msg)
    }
}

/// Decoding the wire form of a legal message gives the message back: a
/// decoder that meets its contract on `message_bytes(m)` returns `m`.
pub proof fn lemma_round_trip(m: MessageModel, r: Result<Message, DecoderError>)
    requires
        body_legal(m.body),
        decodes_message(message_bytes(m), r),
    ensures
        r is Ok,
        r->Ok_0@ == m,
{
}

} // verus!
