//! Transport endpoints (IP address and UDP port) and their wire form:
//! `list(u8 family, bytes ip, u16 port)`, family 0 for IPv4 and 1 for IPv6.

use crate::message::{message_bytes, DecoderError, Message};
use crate::rlp::{
    put_bytes, put_list_header, put_u16, put_u8, rlp_list, rlp_string, rlp_uint, take_array, take_list,
    take_u16, take_u8,
};
use vstd::prelude::*;

verus! {

broadcast use vstd::array::group_array_axioms;

/// An IP address, tagged by family.
#[derive(Clone, Copy, Debug, PartialEq, Eq)]
pub enum IpAddr {
    V4([u8; 4]),
    V6([u8; 16]),
}

/// A transport address: IP address and UDP port.
#[derive(Clone, Copy, Debug, PartialEq, Eq)]
pub struct SocketAddr {
    pub ip: IpAddr,
    pub port: u16,
}

/// Family tag of an address on the wire.
pub open spec fn ip_family(ip: IpAddr) -> u8 {
    match ip {
        IpAddr::V4(_) => 0,
        IpAddr::V6(_) => 1,
    }
}

/// Octets of an address (4 or 16).
pub open spec fn ip_octets(ip: IpAddr) -> Seq<u8> {
    match ip {
        IpAddr::V4(b) => b@,
        IpAddr::V6(b) => b@,
    }
}

/// The items of an endpoint's list, encoded one after the other.
pub open spec fn socket_addr_payload(a: SocketAddr) -> Seq<u8> {
    rlp_uint(ip_family(a.ip) as nat) + (rlp_string(ip_octets(a.ip)) + rlp_uint(a.port as nat))
}

/// Wire form of an endpoint.
pub open spec fn socket_addr_bytes(a: SocketAddr) -> Seq<u8> {
    rlp_list(socket_addr_payload(a))
}

impl SocketAddr {
    /// Appends the wire form of the endpoint to `out`.
    pub fn encode(&self, out: &mut Vec<u8>)
        ensures
            final(out)@ == old(out)@ + socket_addr_bytes(*self),
    {
        let mut payload: Vec<u8> = Vec::new();
        match &self.ip {
            IpAddr::V4(b) => {
                put_u8(0, &mut payload);
                put_bytes(b.as_slice(), &mut payload);
            },
            IpAddr::V6(b) => {
                put_u8(1, &mut payload);
                put_bytes(b.as_slice(), &mut payload);
            },
        }
        put_u16(self.port, &mut payload);
        assert(payload@ =~= socket_addr_payload(*self));
        put_list_header(payload.len(), out);
        out.append(&mut payload);
        assert(final(out)@ =~= old(out)@ + socket_addr_bytes(*self));
    }

    /// Reads one endpoint off the front of `data`, returning it with the
    /// bytes that follow it.
    pub fn decode_prefix<'a>(data: &'a [u8]) -> (r: Result<(SocketAddr, &'a [u8]), DecoderError>)
        ensures
            r is Ok ==> data@ == socket_addr_bytes(r->Ok_0.0) + r->Ok_0.1@,
            forall|a: SocketAddr, rest: Seq<u8>|
                data@ == #[trigger] (socket_addr_bytes(a) + rest) ==> r is Ok && r->Ok_0.0 == a
                    && r->Ok_0.1@ == rest,
    {
        let (payload, rest) = match take_list(data) {
            Ok(x) => x,
            Err(_) => {
                assert forall|a: SocketAddr, rest: Seq<u8>|
                    data@ == #[trigger] (socket_addr_bytes(a) + rest) implies false by {
                    assert(data@ == rlp_list(socket_addr_payload(a)) + rest);
                }
                return Err(DecoderError::Malformed);
            },
        };
        let (family, p1) = match take_u8(payload) {
            Ok(x) => x,
            Err(_) => {
                assert forall|a: SocketAddr, rest: Seq<u8>|
                    data@ == #[trigger] (socket_addr_bytes(a) + rest) implies false by {
                    assert(data@ == rlp_list(socket_addr_payload(a)) + rest);
                    assert(payload@ == rlp_uint(ip_family(a.ip) as nat) + (rlp_string(
                        ip_octets(a.ip),
                    ) + rlp_uint(a.port as nat)));
                }
                return Err(DecoderError::Malformed);
            },
        };
        let ip: IpAddr;
        let p2: &[u8];
        if family == 0 {
            match take_array::<4>(p1) {
                Ok((b, q)) => {
                    ip = IpAddr::V4(b);
                    p2 = q;
                },
                Err(_) => {
                    assert forall|a: SocketAddr, rest: Seq<u8>|
                        data@ == #[trigger] (socket_addr_bytes(a) + rest) implies false by {
                        Self::lemma_steps(a, rest, data@, payload@);
                        if let IpAddr::V4(b) = a.ip {
                            assert(p1@ == rlp_string(b@) + rlp_uint(a.port as nat));
                        }
                    }
                    return Err(DecoderError::Malformed);
                },
            }
        } else if family == 1 {
            match take_array::<16>(p1) {
                Ok((b, q)) => {
                    ip = IpAddr::V6(b);
                    p2 = q;
                },
                Err(_) => {
                    assert forall|a: SocketAddr, rest: Seq<u8>|
                        data@ == #[trigger] (socket_addr_bytes(a) + rest) implies false by {
                        Self::lemma_steps(a, rest, data@, payload@);
                        if let IpAddr::V6(b) = a.ip {
                            assert(p1@ == rlp_string(b@) + rlp_uint(a.port as nat));
                        }
                    }
                    return Err(DecoderError::Malformed);
                },
            }
        } else {
            assert forall|a: SocketAddr, rest: Seq<u8>|
                data@ == #[trigger] (socket_addr_bytes(a) + rest) implies false by {
                Self::lemma_steps(a, rest, data@, payload@);
                assert(payload@ == rlp_uint(ip_family(a.ip) as nat) + (rlp_string(
                    ip_octets(a.ip),
                ) + rlp_uint(a.port as nat)));
            }
            return Err(DecoderError::Malformed);
        }
        let (port, p3) = match take_u16(p2) {
            Ok(x) => x,
            Err(_) => {
                assert forall|a: SocketAddr, rest: Seq<u8>|
                    data@ == #[trigger] (socket_addr_bytes(a) + rest) implies false by {
                    Self::lemma_steps(a, rest, data@, payload@);
                    assert(payload@ == rlp_uint(ip_family(a.ip) as nat) + (rlp_string(
                        ip_octets(a.ip),
                    ) + rlp_uint(a.port as nat)));
                    Self::lemma_ip_step(a, p1@, ip, p2@);
                    assert(p2@ == rlp_uint(a.port as nat) + Seq::<u8>::empty());
                }
                return Err(DecoderError::Malformed);
            },
        };
        if p3.len() != 0 {
            assert forall|a: SocketAddr, rest: Seq<u8>|
                data@ == #[trigger] (socket_addr_bytes(a) + rest) implies false by {
                Self::lemma_steps(a, rest, data@, payload@);
                assert(payload@ == rlp_uint(ip_family(a.ip) as nat) + (rlp_string(
                    ip_octets(a.ip),
                ) + rlp_uint(a.port as nat)));
                Self::lemma_ip_step(a, p1@, ip, p2@);
                assert(p2@ == rlp_uint(a.port as nat) + Seq::<u8>::empty());
            }
            return Err(DecoderError::Malformed);
        }
        let addr = SocketAddr { ip, port };
        assert(payload@ =~= socket_addr_payload(addr));
        assert forall|a: SocketAddr, rest2: Seq<u8>|
            data@ == #[trigger] (socket_addr_bytes(a) + rest2) implies addr == a && rest@
                == rest2 by {
            Self::lemma_steps(a, rest2, data@, payload@);
            assert(payload@ == rlp_uint(ip_family(a.ip) as nat) + (rlp_string(ip_octets(a.ip))
                + rlp_uint(a.port as nat)));
            Self::lemma_ip_step(a, p1@, ip, p2@);
            assert(p2@ == rlp_uint(a.port as nat) + Seq::<u8>::empty());
        }
        Ok((addr, rest))
    }

    /// The first steps of reading an endpoint that is there: the list's
    /// payload and its family tag.
    proof fn lemma_steps(a: SocketAddr, rest: Seq<u8>, data: Seq<u8>, payload: Seq<u8>)
        requires
            data == socket_addr_bytes(a) + rest,
        ensures
            data == rlp_list(socket_addr_payload(a)) + rest,
            socket_addr_payload(a) == rlp_uint(ip_family(a.ip) as nat) + (rlp_string(
                ip_octets(a.ip),
            ) + rlp_uint(a.port as nat)),
    {
    }

    /// Reading the address octets of an endpoint that is there.
    proof fn lemma_ip_step(a: SocketAddr, p1: Seq<u8>, ip: IpAddr, p2: Seq<u8>)
        requires
            p1 == rlp_string(ip_octets(a.ip)) + rlp_uint(a.port as nat),
            p1 == rlp_string(ip_octets(ip)) + p2,
            ip_family(ip) == ip_family(a.ip),
            forall|b: [u8; 4], q: Seq<u8>|
                ip is V4 && p1 == #[trigger] (rlp_string(b@) + q) ==> ip->V4_0@ == b@ && p2 == q,
            forall|b: [u8; 16], q: Seq<u8>|
                ip is V6 && p1 == #[trigger] (rlp_string(b@) + q) ==> ip->V6_0@ == b@ && p2 == q,
        ensures
            ip == a.ip,
            p2 == rlp_uint(a.port as nat),
    {
        match a.ip {
            IpAddr::V4(b) => {
                assert(p1 == rlp_string(b@) + rlp_uint(a.port as nat));
                assert(ip->V4_0 =~= b);
            },
            IpAddr::V6(b) => {
                assert(p1 == rlp_string(b@) + rlp_uint(a.port as nat));
                assert(ip->V6_0 =~= b);
            },
        }
    }

    /// Reads an endpoint that fills `data` exactly.
    pub fn decode(data: &[u8]) -> (r: Result<SocketAddr, DecoderError>)
        ensures
            r is Ok ==> data@ == socket_addr_bytes(r->Ok_0),
            forall|a: SocketAddr| data@ == #[trigger] socket_addr_bytes(a) ==> r == Ok::<
                SocketAddr,
                DecoderError,
            >(a),
    {
        match Self::decode_prefix(data) {
            Ok((a, rest)) => {
                if rest.len() == 0 {
                    assert(data@ =~= socket_addr_bytes(a));
                    Ok(a)
                } else {
                    assert forall|b: SocketAddr| data@ == #[trigger] socket_addr_bytes(b) implies false by {
                        assert(data@ =~= socket_addr_bytes(b) + Seq::<u8>::empty());
                    }
                    Err(DecoderError::Malformed)
                }
            },
            Err(e) => {
                assert forall|b: SocketAddr| data@ == #[trigger] socket_addr_bytes(b) implies false by {
                    assert(data@ =~= socket_addr_bytes(b) + Seq::<u8>::empty());
                }
                Err(e)
            },
        }
    }
}

/// The datagram that carries `msg`.
pub fn encoded(msg: &Message) -> (r: Vec<u8>)
    ensures
        r@ == message_bytes(msg@),
{
    let mut out: Vec<u8> = Vec::new();
    msg.encode(&mut out);
    assert(out@ =~= message_bytes(msg@));
    out
}

} // verus!
