//! Recursive length-prefix framing: what a byte string, a small integer and a
//! list header look like on the wire, and the alloy-rlp calls that write and
//! read them.

use vstd::prelude::*;

verus! {

/// The error type of alloy-rlp's decoders.
#[verifier::external_type_specification]
#[verifier::external_body]
pub struct ExRlpError(alloy_rlp::Error);

/// Minimal big-endian bytes of a number (empty for zero).
pub open spec fn be_trimmed(n: nat) -> Seq<u8>
    decreases n,
{
    if n == 0 {
        Seq::empty()
    } else {
        be_trimmed(n / 256).push((n % 256) as u8)
    }
}

/// Header of an item whose payload has `len` bytes; `list` tells a list from
/// a byte string.
pub open spec fn rlp_header(list: bool, len: nat) -> Seq<u8> {
    let short: nat = if list { 0xc0 } else { 0x80 };
    if len < 56 {
        seq![(short + len) as u8]
    } else {
        seq![(short + 55 + be_trimmed(len).len()) as u8] + be_trimmed(len)
    }
}

/// Encoding of a byte string: a single byte below 0x80 stands for itself.
pub open spec fn rlp_string(b: Seq<u8>) -> Seq<u8> {
    if b.len() == 1 && b[0] < 0x80 {
        b
    } else {
        rlp_header(false, b.len()) + b
    }
}

/// Encoding of an unsigned integer: the byte string of its minimal
/// big-endian bytes.
pub open spec fn rlp_uint(n: nat) -> Seq<u8> {
    rlp_string(be_trimmed(n))
}

/// Encoding of a list whose items, encoded one after the other, are `payload`.
pub open spec fn rlp_list(payload: Seq<u8>) -> Seq<u8> {
    rlp_header(true, payload.len()) + payload
}

/// Relies on `<u8 as alloy_rlp::Encodable>::encode`: appends the canonical
/// encoding of the integer.
#[verifier::external_body]
pub(crate) fn put_u8(x: u8, out: &mut Vec<u8>)
    ensures
        final(out)@ == old(out)@ + rlp_uint(x as nat),
{
    alloy_rlp::Encodable::encode(&x, out)
}

/// Relies on `<u16 as alloy_rlp::Encodable>::encode`: appends the canonical
/// encoding of the integer.
#[verifier::external_body]
pub(crate) fn put_u16(x: u16, out: &mut Vec<u8>)
    ensures
        final(out)@ == old(out)@ + rlp_uint(x as nat),
{
    alloy_rlp::Encodable::encode(&x, out)
}

/// Relies on `<[u8] as alloy_rlp::Encodable>::encode`: appends the byte
/// string with its header.
#[verifier::external_body]
pub(crate) fn put_bytes(b: &[u8], out: &mut Vec<u8>)
    ensures
        final(out)@ == old(out)@ + rlp_string(b@),
{
    alloy_rlp::Encodable::encode(b, out)
}

/// Relies on `alloy_rlp::Header::encode`: appends the header of a list whose
/// payload has `payload_length` bytes.
#[verifier::external_body]
pub(crate) fn put_list_header(payload_length: usize, out: &mut Vec<u8>)
    ensures
        final(out)@ == old(out)@ + rlp_header(true, payload_length as nat),
{
    alloy_rlp::Header { list: true, payload_length }.encode(out)
}

/// Relies on `<u8 as alloy_rlp::Decodable>::decode`, which accepts exactly
/// the canonical encodings: reads one integer off the front of `data`.
#[verifier::external_body]
pub(crate) fn take_u8<'a>(data: &'a [u8]) -> (r: Result<(u8, &'a [u8]), alloy_rlp::Error>)
    ensures
        r is Ok ==> data@ == rlp_uint(r->Ok_0.0 as nat) + r->Ok_0.1@,
        forall|v: u8, rest: Seq<u8>|
            data@ == #[trigger] (rlp_uint(v as nat) + rest) ==> r is Ok && r->Ok_0.0 == v
                && r->Ok_0.1@ == rest,
{
    let mut buf = data;
    match <u8 as alloy_rlp::Decodable>::decode(&mut buf) {
        Ok(v) => Ok((v, buf)),
        Err(e) => Err(e),
    }
}

/// Relies on `<u16 as alloy_rlp::Decodable>::decode`, which accepts exactly
/// the canonical encodings: reads one integer off the front of `data`.
#[verifier::external_body]
pub(crate) fn take_u16<'a>(data: &'a [u8]) -> (r: Result<(u16, &'a [u8]), alloy_rlp::Error>)
    ensures
        r is Ok ==> data@ == rlp_uint(r->Ok_0.0 as nat) + r->Ok_0.1@,
        forall|v: u16, rest: Seq<u8>|
            data@ == #[trigger] (rlp_uint(v as nat) + rest) ==> r is Ok && r->Ok_0.0 == v
                && r->Ok_0.1@ == rest,
{
    let mut buf = data;
    match <u16 as alloy_rlp::Decodable>::decode(&mut buf) {
        Ok(v) => Ok((v, buf)),
        Err(e) => Err(e),
    }
}

/// Relies on `<[u8; N] as alloy_rlp::Decodable>::decode`, which accepts
/// exactly a canonical byte string of `N` bytes: reads it off the front of
/// `data`.
#[verifier::external_body]
pub(crate) fn take_array<'a, const N: usize>(data: &'a [u8]) -> (r: Result<
    ([u8; N], &'a [u8]),
    alloy_rlp::Error,
>)
    ensures
        r is Ok ==> data@ == rlp_string(r->Ok_0.0@) + r->Ok_0.1@,
        forall|a: [u8; N], rest: Seq<u8>|
            data@ == #[trigger] (rlp_string(a@) + rest) ==> r is Ok && r->Ok_0.0@ == a@
                && r->Ok_0.1@ == rest,
{
    let mut buf = data;
    match <[u8; N] as alloy_rlp::Decodable>::decode(&mut buf) {
        Ok(a) => Ok((a, buf)),
        Err(e) => Err(e),
    }
}

/// Relies on `alloy_rlp::Header::decode_bytes` for a list, which accepts
/// exactly a canonical list header followed by its whole payload: splits
/// `data` into the payload and what follows it.
#[verifier::external_body]
pub(crate) fn take_list<'a>(data: &'a [u8]) -> (r: Result<(&'a [u8], &'a [u8]), alloy_rlp::Error>)
    ensures
        r is Ok ==> data@ == rlp_list(r->Ok_0.0@) + r->Ok_0.1@,
        forall|payload: Seq<u8>, rest: Seq<u8>|
            data@ == #[trigger] (rlp_list(payload) + rest) ==> r is Ok && r->Ok_0.0@ == payload
                && r->Ok_0.1@ == rest,
{
    let mut buf = data;
    match alloy_rlp::Header::decode_bytes(&mut buf, true) {
        Ok(payload) => Ok((payload, buf)),
        Err(e) => Err(e),
    }
}

} // verus!
