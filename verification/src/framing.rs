//! Length-prefix framing.
//!
//! Every message travels as a four-byte big-endian length followed by
//! exactly that many payload bytes, in both directions.  The framing knows
//! nothing about what the payload means; decoding the payload is the
//! codec's job ([`crate::proto`]).
//!
//! A buffer that ends before the declared payload length is a transport
//! fault ([`FramingError`]), kept apart from a payload that fails to parse
//! ([`crate::proto::DecodeError`]).

use vstd::prelude::*;

verus! {

use crate::proto::copy_range;

/// A payload too long for its four-byte length prefix.
#[derive(Clone, Copy, PartialEq, Eq, Structural, Debug)]
pub struct EncodeError;

/// A buffer that holds fewer bytes than its length prefix declares, or no
/// whole prefix at all.
#[derive(Clone, Copy, PartialEq, Eq, Structural, Debug)]
pub struct FramingError;

/// The four prefix bytes for `n`, most significant first.
pub open spec fn spec_len_be(n: u32) -> Seq<u8> {
    seq![
        (n / 0x100_0000) as u8,
        ((n / 0x1_0000) % 0x100) as u8,
        ((n / 0x100) % 0x100) as u8,
        (n % 0x100) as u8,
    ]
}

/// The value carried by the first four bytes of `s`, most significant
/// first.
pub open spec fn be32_value(s: Seq<u8>) -> int {
    (s[0] as int) * 0x100_0000 + (s[1] as int) * 0x1_0000 + (s[2] as int) * 0x100 + (
    s[3] as int)
}

/// A framed message: the length prefix, then the payload.
pub open spec fn spec_frame(payload: Seq<u8>) -> Seq<u8> {
    spec_len_be(payload.len() as u32) + payload
}

/// One frame read off the front of a buffer: the payload it carries and
/// how many bytes it spans.  Nothing if the buffer ends too early.
pub open spec fn spec_unframe(s: Seq<u8>) -> Option<(Seq<u8>, int)> {
    if s.len() < 4 {
        None
    } else {
        let l = be32_value(s);
        if 4 + l <= s.len() {
            Some((s.subrange(4, 4 + l), 4 + l))
        } else {
            None
        }
    }
}

/// The prefix encodes the value it was made from.
proof fn lemma_len_be_value(n: u32)
    ensures
        be32_value(spec_len_be(n)) == n,
{
    assert((n / 0x100_0000) * 0x100_0000 + ((n / 0x1_0000) % 0x100) * 0x1_0000 + ((n
        / 0x100) % 0x100) * 0x100 + (n % 0x100) == n) by (bit_vector);
}

/// Framing a payload and reading the frame back gives the payload.
pub proof fn lemma_frame_round_trip(payload: Seq<u8>)
    requires
        payload.len() <= u32::MAX,
    ensures
        spec_unframe(spec_frame(payload)) == Some((payload, 4 + payload.len() as int)),
{
    let n = payload.len() as u32;
    let s = spec_frame(payload);
    lemma_len_be_value(n);
    assert(s[0] == spec_len_be(n)[0]);
    assert(s[1] == spec_len_be(n)[1]);
    assert(s[2] == spec_len_be(n)[2]);
    assert(s[3] == spec_len_be(n)[3]);
    assert(be32_value(s) == n);
    assert(s.subrange(4, 4 + n as int) =~= payload);
}

/// The four prefix bytes for `n`.
pub fn u32_to_be_bytes(n: u32) -> (out: Vec<u8>)
    ensures
        out@ == spec_len_be(n),
{
    let mut out: Vec<u8> = Vec::new();
    out.push((n / 0x100_0000) as u8);
    out.push(((n / 0x1_0000) % 0x100) as u8);
    out.push(((n / 0x100) % 0x100) as u8);
    out.push((n % 0x100) as u8);
    proof {
        assert(out@ =~= spec_len_be(n));
    }
    out
}

/// The value carried by four big-endian bytes.
pub fn u32_from_be_bytes(b0: u8, b1: u8, b2: u8, b3: u8) -> (n: u32)
    ensures
        n as int == be32_value(seq![b0, b1, b2, b3]),
{
    let n: u32 = (b0 as u32) * 0x100_0000 + (b1 as u32) * 0x1_0000 + (b2 as u32) * 0x100
        + (b3 as u32);
    proof {
        let s = seq![b0, b1, b2, b3];
        assert(s[0] == b0 && s[1] == b1 && s[2] == b2 && s[3] == b3);
    }
    n
}

/// Wraps a payload in a frame.  Fails exactly when the payload is too long
/// for the four-byte prefix.
pub fn frame_payload(payload: &Vec<u8>) -> (r: Result<Vec<u8>, EncodeError>)
    ensures
        r is Ok <==> payload@.len() <= u32::MAX,
        r matches Ok(out) ==> out@ == spec_frame(payload@),
{
    if payload.len() > 0xFFFF_FFFFusize {
        return Err(EncodeError);
    }
    let n = payload.len() as u32;
    let mut out = u32_to_be_bytes(n);
    crate::proto::push_bytes(&mut out, payload);
    Ok(out)
}

/// Reads one frame off the front of `buf`: the payload and the bytes the
/// frame spans.  Fails exactly when the buffer ends before the declared
/// payload length, the transport fault kept apart from a payload that does
/// not parse.
pub fn unframe_payload(buf: &Vec<u8>) -> (r: Result<(Vec<u8>, usize), FramingError>)
    ensures
        match r {
            Ok((payload, consumed)) => spec_unframe(buf@) == Some(
                (payload@, consumed as int),
            ),
            Err(e) => spec_unframe(buf@) is None,
        },
{
    if buf.len() < 4 {
        return Err(FramingError);
    }
    let n = u32_from_be_bytes(buf[0], buf[1], buf[2], buf[3]);
    proof {
        assert(seq![buf@[0], buf@[1], buf@[2], buf@[3]] =~= buf@.subrange(0, 4));
        assert(be32_value(seq![buf@[0], buf@[1], buf@[2], buf@[3]]) == be32_value(buf@));
    }
    if (n as usize) > buf.len() - 4 {
        return Err(FramingError);
    }
    let payload = copy_range(buf, 4, n as usize);
    proof {
        assert(buf@.subrange(4, 4 + n as int) =~= payload@);
    }
    Ok((payload, 4 + n as usize))
}

} // verus!
