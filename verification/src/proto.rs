//! Wire protocol codec.
//!
//! Every message travels as a protobuf-style record: a sequence of fields,
//! each introduced by a key varint holding a field number and a wire type.
//! A request holds a command ordinal (field 1, varint) and a list of paths
//! (field 2, length-delimited, one occurrence per path); a response holds a
//! status token (field 1, length-delimited) and the same path list (field 2).
//! Paths and the status token are byte strings: the codec never inspects
//! their contents.
//!
//! The codec is pure data transformation: it knows nothing about sockets,
//! and the length-prefix framing around a message lives in [`crate::framing`].

use vstd::prelude::*;

verus! {

use vstd::arithmetic::div_mod::lemma_div_denominator;
use vstd::arithmetic::div_mod::lemma_mod_multiples_vanish;
use vstd::arithmetic::div_mod::lemma_small_mod;
use vstd::arithmetic::mul::lemma_mul_inequality;

// ---------------------------------------------------------------------------
// Varints: little-endian base-128 integers with continuation bits.
// ---------------------------------------------------------------------------

/// 128^i, the weight of the i-th base-128 digit of a varint.
pub open spec fn pow128(i: int) -> int
    decreases i,
{
    if i <= 0 {
        1
    } else {
        128 * pow128(i - 1)
    }
}

/// The canonical encoding of `v`: low seven bits first, the high bit of a
/// byte set exactly on the bytes that another byte follows.
pub open spec fn varint_bytes(v: u64) -> Seq<u8>
    decreases v,
{
    if v < 128 {
        seq![v as u8]
    } else {
        seq![(v % 128 + 128) as u8] + varint_bytes(v / 128)
    }
}

/// Index of the byte that ends a varint read from index `k` on: the first
/// byte below 128 among the ten bytes a varint may span at most.
pub open spec fn varint_end(s: Seq<u8>, k: int) -> Option<int>
    decreases 10 - k,
{
    if k < 0 || k >= s.len() || k >= 10 {
        None
    } else if s[k] < 128 {
        Some(k)
    } else {
        varint_end(s, k + 1)
    }
}

/// Value of the first `k` base-128 digits of `s`, low digits first.
pub open spec fn varint_val(s: Seq<u8>, k: int) -> int
    decreases k,
{
    if k <= 0 {
        0
    } else {
        varint_val(s, k - 1) + (s[k - 1] % 128) * pow128(k - 1)
    }
}

/// Parses one varint from the front of `s`: at most ten bytes, and a tenth
/// byte of at most 1 so that the value fits in 64 bits.  Yields the value
/// and the number of bytes consumed.
pub open spec fn parse_varint(s: Seq<u8>) -> Option<(u64, int)> {
    match varint_end(s, 0) {
        None => None,
        Some(k) => {
            if k == 9 && s[9] >= 2 {
                None
            } else {
                Some((varint_val(s, k + 1) as u64, k + 1))
            }
        },
    }
}

proof fn lemma_pow128_pos(i: int)
    ensures
        pow128(i) >= 1,
    decreases i,
{
    if i > 0 {
        lemma_pow128_pos(i - 1);
    }
}

proof fn lemma_pow128_mono(i: int, j: int)
    requires
        i <= j,
    ensures
        pow128(i) <= pow128(j),
    decreases j - i,
{
    if i < j {
        lemma_pow128_mono(i, j - 1);
        lemma_pow128_pos(j - 1);
        if j > 0 {
            assert(pow128(j) == 128 * pow128(j - 1));
        }
    }
}

proof fn lemma_pow128_9()
    ensures
        pow128(9) == 0x8000_0000_0000_0000,
        pow128(8) == 0x100_0000_0000_0000,
{
    reveal_with_fuel(pow128, 11);
}

/// The first `k` digits are worth less than `128^k`.
proof fn lemma_varint_val_bound(s: Seq<u8>, k: int)
    requires
        0 <= k,
    ensures
        0 <= varint_val(s, k) < pow128(k),
    decreases k,
{
    if k > 0 {
        lemma_varint_val_bound(s, k - 1);
        lemma_pow128_pos(k - 1);
        let d = (s[k - 1] % 128) as int;
        lemma_mul_inequality(0, d, pow128(k - 1));
        lemma_mul_inequality(d, 127, pow128(k - 1));
    }
}

/// A run of continuation bytes does not move the end of a varint.
proof fn lemma_varint_end_skip(s: Seq<u8>, k: int, e: int)
    requires
        0 <= k <= e <= 10,
        e <= s.len(),
        forall|j: int| k <= j < e ==> s[j] >= 128,
    ensures
        varint_end(s, k) == varint_end(s, e),
    decreases e - k,
{
    if k < e {
        lemma_varint_end_skip(s, k + 1, e);
    }
}

/// What a successful end search guarantees.
proof fn lemma_varint_end_some(s: Seq<u8>, k: int, e: int)
    requires
        varint_end(s, k) == Some(e),
        0 <= k,
    ensures
        k <= e < 10,
        e < s.len(),
        s[e] < 128,
        forall|j: int| k <= j < e ==> s[j] >= 128,
    decreases 10 - k,
{
    if !(k >= s.len() || k >= 10) && s[k] >= 128 {
        lemma_varint_end_some(s, k + 1, e);
    }
}

/// A parsed varint consumes between one and ten bytes, never more than the
/// sequence holds.
pub proof fn lemma_parse_varint_len(s: Seq<u8>)
    ensures
        parse_varint(s) matches Some(r) ==> 1 <= r.1 <= 10 && r.1 <= s.len(),
{
    if let Some(e) = varint_end(s, 0) {
        lemma_varint_end_some(s, 0, e);
    }
}

/// The value of `k + 1` digits of `[b] + t` in terms of `k` digits of `t`.
proof fn lemma_varint_val_prepend(b: u8, t: Seq<u8>, k: int)
    requires
        0 <= k <= t.len(),
    ensures
        varint_val(seq![b] + t, k + 1) == (b % 128) + 128 * varint_val(t, k),
    decreases k,
{
    let s = seq![b] + t;
    assert(s.len() == 1 + t.len());
    assert(s[0] == b);
    if k == 0 {
        assert(varint_val(s, 0) == 0);
        assert(varint_val(s, 1) == varint_val(s, 0) + (s[0] % 128) * pow128(0));
    } else {
        lemma_varint_val_prepend(b, t, k - 1);
        assert(s[k] == t[k - 1]);
        let d = (t[k - 1] % 128) as int;
        let p = pow128(k - 1);
        assert(pow128(k) == 128 * p);
        assert(d * (128 * p) == 128 * (d * p)) by (nonlinear_arith);
    }
}

/// Two sequences that agree on their first `k` bytes carry the same digits.
proof fn lemma_varint_val_prefix(s1: Seq<u8>, s2: Seq<u8>, k: int)
    requires
        0 <= k <= s1.len(),
        k <= s2.len(),
        forall|i: int| 0 <= i < k ==> s1[i] == s2[i],
    ensures
        varint_val(s1, k) == varint_val(s2, k),
    decreases k,
{
    if k > 0 {
        lemma_varint_val_prefix(s1, s2, k - 1);
    }
}

/// Shape of the canonical encoding: one to ten bytes, continuation bits on
/// every byte but the last, and the last byte holding the top digit.
proof fn lemma_varint_bytes_shape(v: u64)
    ensures
        1 <= varint_bytes(v).len() <= 10,
        forall|i: int|
            0 <= i < varint_bytes(v).len() - 1 ==> varint_bytes(v)[i] >= 128,
        varint_bytes(v)[varint_bytes(v).len() - 1] < 128,
        varint_bytes(v)[varint_bytes(v).len() - 1] as int == v as int / pow128(
            varint_bytes(v).len() - 1,
        ),
        v < pow128(varint_bytes(v).len() as int),
        varint_bytes(v).len() >= 2 ==> pow128(varint_bytes(v).len() - 1) <= v,
        varint_val(varint_bytes(v), varint_bytes(v).len() as int) == v,
    decreases v,
{
    let bs = varint_bytes(v);
    if v < 128 {
        assert(varint_val(bs, 0) == 0);
        assert(varint_val(bs, 1) == varint_val(bs, 0) + (bs[0] % 128) * pow128(0));
    } else {
        lemma_varint_bytes_shape(v / 128);
        let t = varint_bytes(v / 128);
        let n = t.len() as int;
        // t spans at most nine bytes, since its value is below 2^57.
        if n >= 10 {
            lemma_pow128_9();
            lemma_pow128_mono(9, n - 1);
            assert(pow128(n - 1) <= v as int / 128);
            lemma_mul_inequality(pow128(9), v as int / 128, 128);
            assert(128 * (v as int / 128) <= v as int);
            assert(false);
        }
        // The length bound of the result.
        if n == 1 {
            assert(pow128(1) == 128 * pow128(0));
        } else {
            assert(pow128(n) == 128 * pow128(n - 1));
            lemma_mul_inequality(pow128(n - 1), v as int / 128, 128);
            assert(128 * (v as int / 128) <= v as int);
        }
        assert(bs == seq![(v % 128 + 128) as u8] + t);
        assert(bs.len() == n + 1);
        // The last byte is the top digit of v.
        assert(bs[n] == t[n - 1]);
        lemma_div_denominator(v as int, 128, pow128(n - 1));
        assert(128 * pow128(n - 1) == pow128(n));
        assert(v as int / pow128(n) == (v as int / 128) / pow128(n - 1));
        // v is below 128^(n + 1) because v / 128 is below 128^n.
        assert(v as int == 128 * (v as int / 128) + v as int % 128);
        lemma_mul_inequality(v as int / 128, pow128(n) - 1, 128);
        // The digits of bs recompose to v.
        lemma_varint_val_prepend((v % 128 + 128) as u8, t, n);
        assert(varint_val(bs, n + 1) == (v % 128) + 128 * varint_val(t, n));
    }
}

/// Parsing a canonical encoding followed by anything else yields the value
/// back and consumes exactly the encoding.
proof fn lemma_parse_varint_concat(v: u64, rest: Seq<u8>)
    ensures
        parse_varint(varint_bytes(v) + rest) == Some(
            (v, varint_bytes(v).len() as int),
        ),
{
    let bs = varint_bytes(v);
    let s = bs + rest;
    let n = bs.len() as int;
    lemma_varint_bytes_shape(v);
    assert(forall|j: int| 0 <= j < n - 1 ==> s[j] >= 128);
    lemma_varint_end_skip(s, 0, n - 1);
    assert(varint_end(s, n - 1) == Some(n - 1));
    if n == 10 {
        // The tenth byte is the top digit of a 64-bit value, hence 0 or 1.
        lemma_pow128_9();
        assert(bs[9] as int == v as int / pow128(9));
        assert(v as int / 0x8000_0000_0000_0000 <= 1);
    }
    lemma_varint_val_prefix(s, bs, n);
    assert(varint_val(s, n) == v);
}

/// Reads one varint that starts at `pos`.  Mirrors [`parse_varint`] on the
/// byte suffix from `pos` on.
pub fn decode_varint(buf: &Vec<u8>, pos: usize) -> (r: Option<(u64, usize)>)
    requires
        pos <= buf.len(),
    ensures
        ({
            let s = buf@.subrange(pos as int, buf@.len() as int);
            match r {
                None => parse_varint(s) is None,
                Some((v, n)) => {
                    &&& parse_varint(s) == Some((v, n as int))
                    &&& 1 <= n <= 10
                    &&& pos + n <= buf.len()
                },
            }
        }),
{
    let ghost s = buf@.subrange(pos as int, buf@.len() as int);
    let len = buf.len();
    let mut i: usize = 0;
    let mut acc: u64 = 0;
    let mut mult: u64 = 1;
    while i < 10
        invariant
            0 <= i <= 10,
            pos + i <= len,
            len == buf.len(),
            s == buf@.subrange(pos as int, buf@.len() as int),
            forall|j: int| 0 <= j < i ==> s[j] >= 128,
            i <= 9 ==> acc == varint_val(s, i as int),
            i <= 9 ==> mult == pow128(i as int),
        decreases 10 - i,
    {
        if len - pos <= i {
            // The bytes ran out while every byte so far asked for another.
            proof {
                lemma_varint_end_skip(s, 0, i as int);
            }
            return None;
        }
        let b = buf[pos + i];
        assert(s[i as int] == b);
        if b < 128 {
            if i == 9 && b >= 2 {
                proof {
                    lemma_varint_end_skip(s, 0, 9);
                }
                return None;
            }
            proof {
                lemma_varint_end_skip(s, 0, i as int);
                lemma_varint_val_bound(s, i as int);
                lemma_pow128_9();
                if i < 9 {
                    lemma_pow128_mono(i as int + 1, 9);
                    lemma_mul_inequality(b as int, 127, pow128(i as int));
                } else {
                    lemma_mul_inequality(b as int, 1, pow128(9));
                }
                assert(varint_val(s, i as int + 1) == acc + (b % 128) * pow128(
                    i as int,
                ));
            }
            let value = acc + (b as u64) * mult;
            return Some((value, i + 1));
        }
        if i == 9 {
            // Ten continuation bytes: more than a varint may span.
            proof {
                assert(s[9] >= 128);
                lemma_varint_end_skip(s, 0, 10);
            }
            return None;
        }
        proof {
            lemma_varint_val_bound(s, i as int);
            lemma_pow128_9();
            lemma_pow128_mono(i as int + 1, 9);
            lemma_mul_inequality((b % 128) as int, 127, pow128(i as int));
            assert(varint_val(s, i as int + 1) == acc + (b % 128) * pow128(
                i as int,
            ));
        }
        acc = acc + ((b % 128) as u64) * mult;
        mult = mult * 128;
        i = i + 1;
    }
    proof {
        lemma_varint_end_skip(s, 0, 10);
    }
    None
}

/// Appends the canonical encoding of `v` to `out`.
pub fn encode_varint(out: &mut Vec<u8>, v: u64)
    ensures
        final(out)@ == old(out)@ + varint_bytes(v),
{
    let ghost out0 = old(out)@;
    let mut x = v;
    while x >= 128
        invariant
            out@ + varint_bytes(x) == out0 + varint_bytes(v),
        decreases x,
    {
        let ghost xpre = x;
        out.push(((x % 128) + 128) as u8);
        x = x / 128;
        proof {
            assert(varint_bytes(xpre) == seq![(xpre % 128 + 128) as u8]
                + varint_bytes(xpre / 128));
            assert(out@ + varint_bytes(x) == out0 + varint_bytes(v));
        }
    }
    out.push(x as u8);
    proof {
        assert(varint_bytes(x) == seq![x as u8]);
        assert(out@ == out0 + varint_bytes(v));
    }
}

// ---------------------------------------------------------------------------
// Commands and messages.
// ---------------------------------------------------------------------------

/// The operations a client may ask of the daemon.  On the wire a command is
/// an ordinal; ordinals outside this set still decode, and the handler
/// answers them with the "unknown" status.
#[derive(Clone, Copy, PartialEq, Eq, Structural, Debug)]
pub enum Command {
    Copy,
    Cut,
    Clear,
    GetCopy,
    GetCut,
}

impl Command {
    /// The wire ordinal of this command.
    pub open spec fn spec_ordinal(self) -> i32 {
        match self {
            Command::Copy => 0,
            Command::Cut => 1,
            Command::Clear => 2,
            Command::GetCopy => 3,
            Command::GetCut => 4,
        }
    }

    #[verifier::when_used_as_spec(spec_ordinal)]
    pub fn ordinal(self) -> (c: i32)
        ensures
            c == self.spec_ordinal(),
    {
        match self {
            Command::Copy => 0,
            Command::Cut => 1,
            Command::Clear => 2,
            Command::GetCopy => 3,
            Command::GetCut => 4,
        }
    }
}

/// A request: the command ordinal and the path list.  For `Copy` and `Cut`
/// the list is the complete intended contents of the addressed selection
/// set; for the other commands it is ignored.  Paths are byte strings,
/// compared by exact byte value and never normalized.
pub struct Request {
    pub command: i32,
    pub files: Vec<Vec<u8>>,
}

/// A response: a status token (one of `success`, `unknown`, `error`) and
/// the path list, which is populated only when a `GetCopy` or `GetCut`
/// succeeds.  Its order carries no meaning.
pub struct Response {
    pub status: Vec<u8>,
    pub files: Vec<Vec<u8>>,
}

/// A payload that does not parse into a valid request or response.
#[derive(Clone, Copy, PartialEq, Eq, Structural, Debug)]
pub struct DecodeError;

// ---------------------------------------------------------------------------
// Conversion between a command ordinal and its varint value.
// ---------------------------------------------------------------------------

/// The 64-bit varint value that carries a 32-bit command ordinal: negative
/// ordinals travel sign-extended, as two's complement.
pub open spec fn cmd_to_u64(c: i32) -> u64 {
    if c >= 0 {
        c as u64
    } else {
        (c + 0x1_0000_0000_0000_0000) as u64
    }
}

/// The command ordinal carried by a 64-bit varint value: the low 32 bits,
/// read as two's complement.
pub open spec fn low32_to_i32(v: u64) -> i32 {
    let low = v % 0x1_0000_0000;
    if low < 0x8000_0000 {
        low as i32
    } else {
        (low - 0x1_0000_0000) as i32
    }
}

/// Carrying an ordinal through its varint value is lossless.
proof fn lemma_cmd_u64_inverse(c: i32)
    ensures
        low32_to_i32(cmd_to_u64(c)) == c,
{
    if c >= 0 {
        lemma_small_mod(c as nat, 0x1_0000_0000);
    } else {
        let v = cmd_to_u64(c) as int;
        assert(v == 0x1_0000_0000 * 0xFFFF_FFFF + (0x1_0000_0000 + c));
        lemma_mod_multiples_vanish(0xFFFF_FFFF, 0x1_0000_0000 + c, 0x1_0000_0000);
        lemma_small_mod((0x1_0000_0000 + c) as nat, 0x1_0000_0000);
    }
}

pub fn cmd_to_u64_exec(c: i32) -> (v: u64)
    ensures
        v == cmd_to_u64(c),
{
    if c >= 0 {
        c as u64
    } else {
        let neg: u64 = (-(c as i64)) as u64;
        (u64::MAX - neg) + 1
    }
}

pub fn low32_to_i32_exec(v: u64) -> (c: i32)
    ensures
        c == low32_to_i32(v),
{
    let low: u64 = v % 0x1_0000_0000;
    if low < 0x8000_0000 {
        low as i32
    } else {
        ((low as i64) - 0x1_0000_0000i64) as i32
    }
}

// ---------------------------------------------------------------------------
// Parsing messages: a loop over fields.
// ---------------------------------------------------------------------------

/// Parses one length-delimited field body from the front of `s`: a varint
/// length, then that many bytes.
pub open spec fn parse_len_payload(s: Seq<u8>) -> Option<(Seq<u8>, int)> {
    match parse_varint(s) {
        None => None,
        Some((l, n)) => {
            if n + l <= s.len() {
                Some((s.subrange(n, n + l as int), n + l as int))
            } else {
                None
            }
        },
    }
}

pub proof fn lemma_parse_len_payload_len(s: Seq<u8>)
    ensures
        parse_len_payload(s) matches Some(r) ==> 1 <= r.1 <= s.len(),
{
    lemma_parse_varint_len(s);
}

/// How many bytes a field of an unknown number spans, by wire type: varint,
/// eight bytes, length-delimited or four bytes.  The long-retired group
/// wire types are not accepted.
pub open spec fn skip_len(wire: u64, t: Seq<u8>) -> Option<int> {
    if wire == 0 {
        match parse_varint(t) {
            None => None,
            Some((v, n)) => Some(n),
        }
    } else if wire == 1 {
        if t.len() >= 8 {
            Some(8)
        } else {
            None
        }
    } else if wire == 2 {
        match parse_len_payload(t) {
            None => None,
            Some((d, n)) => Some(n),
        }
    } else if wire == 5 {
        if t.len() >= 4 {
            Some(4)
        } else {
            None
        }
    } else {
        None
    }
}

pub proof fn lemma_skip_len_bounds(wire: u64, t: Seq<u8>)
    ensures
        skip_len(wire, t) matches Some(n) ==> 0 <= n <= t.len(),
{
    lemma_parse_varint_len(t);
    lemma_parse_len_payload_len(t);
}

/// Walks the fields of a request.  Field 1 (a varint) replaces the command
/// ordinal, each field 2 occurrence (length-delimited) appends one path,
/// fields of other numbers are skipped by wire type.  A key above 32 bits,
/// a field number of zero, a wrong wire type on a known field or a
/// truncated field rejects the payload.
pub open spec fn parse_request_loop(
    s: Seq<u8>,
    cmd: i32,
    files: Seq<Seq<u8>>,
) -> Option<(i32, Seq<Seq<u8>>)>
    decreases s.len(),
{
    if s.len() == 0 {
        Some((cmd, files))
    } else {
        match parse_varint(s) {
            None => None,
            Some((key, n)) => {
                proof {
                    lemma_parse_varint_len(s);
                }
                if key > u32::MAX as u64 {
                    None
                } else {
                    let tag = key / 8;
                    let wire = key % 8;
                    let t = s.subrange(n, s.len() as int);
                    if tag == 0 {
                        None
                    } else if tag == 1 {
                        if wire != 0 {
                            None
                        } else {
                            match parse_varint(t) {
                                None => None,
                                Some((v, m)) => {
                                    proof {
                                        lemma_parse_varint_len(t);
                                    }
                                    parse_request_loop(
                                        t.subrange(m, t.len() as int),
                                        low32_to_i32(v),
                                        files,
                                    )
                                },
                            }
                        }
                    } else if tag == 2 {
                        if wire != 2 {
                            None
                        } else {
                            match parse_len_payload(t) {
                                None => None,
                                Some((data, m)) => {
                                    proof {
                                        lemma_parse_len_payload_len(t);
                                    }
                                    parse_request_loop(
                                        t.subrange(m, t.len() as int),
                                        cmd,
                                        files.push(data),
                                    )
                                },
                            }
                        }
                    } else {
                        match skip_len(wire, t) {
                            None => None,
                            Some(m) => {
                                proof {
                                    lemma_skip_len_bounds(wire, t);
                                }
                                parse_request_loop(
                                    t.subrange(m, t.len() as int),
                                    cmd,
                                    files,
                                )
                            },
                        }
                    }
                }
            },
        }
    }
}

/// Walks the fields of a response.  Field 1 (length-delimited) replaces the
/// status token, field 2 appends one path, other fields are skipped.
pub open spec fn parse_response_loop(
    s: Seq<u8>,
    status: Seq<u8>,
    files: Seq<Seq<u8>>,
) -> Option<(Seq<u8>, Seq<Seq<u8>>)>
    decreases s.len(),
{
    if s.len() == 0 {
        Some((status, files))
    } else {
        match parse_varint(s) {
            None => None,
            Some((key, n)) => {
                proof {
                    lemma_parse_varint_len(s);
                }
                if key > u32::MAX as u64 {
                    None
                } else {
                    let tag = key / 8;
                    let wire = key % 8;
                    let t = s.subrange(n, s.len() as int);
                    if tag == 0 {
                        None
                    } else if tag == 1 || tag == 2 {
                        if wire != 2 {
                            None
                        } else {
                            match parse_len_payload(t) {
                                None => None,
                                Some((data, m)) => {
                                    proof {
                                        lemma_parse_len_payload_len(t);
                                    }
                                    if tag == 1 {
                                        parse_response_loop(
                                            t.subrange(m, t.len() as int),
                                            data,
                                            files,
                                        )
                                    } else {
                                        parse_response_loop(
                                            t.subrange(m, t.len() as int),
                                            status,
                                            files.push(data),
                                        )
                                    }
                                },
                            }
                        }
                    } else {
                        match skip_len(wire, t) {
                            None => None,
                            Some(m) => {
                                proof {
                                    lemma_skip_len_bounds(wire, t);
                                }
                                parse_response_loop(
                                    t.subrange(m, t.len() as int),
                                    status,
                                    files,
                                )
                            },
                        }
                    }
                }
            },
        }
    }
}

/// What a request payload means: a command ordinal and a path list, the
/// fields read over an empty starting point.
pub open spec fn spec_parse_request(s: Seq<u8>) -> Option<(i32, Seq<Seq<u8>>)> {
    parse_request_loop(s, 0, Seq::empty())
}

/// What a response payload means: a status token and a path list.
pub open spec fn spec_parse_response(s: Seq<u8>) -> Option<(Seq<u8>, Seq<Seq<u8>>)> {
    parse_response_loop(s, Seq::empty(), Seq::empty())
}

// ---------------------------------------------------------------------------
// Encoding messages.
// ---------------------------------------------------------------------------

/// The bytes of the command field: key 8 (field 1, varint) and the ordinal.
/// An ordinal of zero is the default and is left off the wire.
pub open spec fn cmd_field_bytes(c: i32) -> Seq<u8> {
    if c == 0 {
        Seq::empty()
    } else {
        seq![8u8] + varint_bytes(cmd_to_u64(c))
    }
}

/// The bytes of one path field: key 18 (field 2, length-delimited), the
/// length and the path bytes.
pub open spec fn file_field_bytes(f: Seq<u8>) -> Seq<u8> {
    seq![18u8] + varint_bytes(f.len() as u64) + f
}

/// The path fields, one per list entry, in list order.
pub open spec fn files_bytes(files: Seq<Seq<u8>>) -> Seq<u8>
    decreases files.len(),
{
    if files.len() == 0 {
        Seq::empty()
    } else {
        file_field_bytes(files[0]) + files_bytes(files.drop_first())
    }
}

/// The bytes of the status field: key 10 (field 1, length-delimited).  An
/// empty token is the default and is left off the wire.
pub open spec fn status_field_bytes(st: Seq<u8>) -> Seq<u8> {
    if st.len() == 0 {
        Seq::empty()
    } else {
        seq![10u8] + varint_bytes(st.len() as u64) + st
    }
}

/// The payload of a request.
pub open spec fn spec_encode_request(cmd: i32, files: Seq<Seq<u8>>) -> Seq<u8> {
    cmd_field_bytes(cmd) + files_bytes(files)
}

/// The payload of a response.
pub open spec fn spec_encode_response(status: Seq<u8>, files: Seq<Seq<u8>>) -> Seq<u8> {
    status_field_bytes(status) + files_bytes(files)
}

/// Appending a path appends its field bytes.
proof fn lemma_files_bytes_push(files: Seq<Seq<u8>>, f: Seq<u8>)
    ensures
        files_bytes(files.push(f)) == files_bytes(files) + file_field_bytes(f),
    decreases files.len(),
{
    if files.len() == 0 {
        assert(files.push(f).drop_first() =~= files);
        assert(files.push(f)[0] == f);
        assert(files_bytes(files.push(f)) == file_field_bytes(f) + files_bytes(files));
        assert(file_field_bytes(f) + files_bytes(files) =~= file_field_bytes(f));
        assert(files_bytes(files) + file_field_bytes(f) =~= file_field_bytes(f));
    } else {
        lemma_files_bytes_push(files.drop_first(), f);
        assert(files.push(f).drop_first() =~= files.drop_first().push(f));
        assert(files.push(f)[0] == files[0]);
        assert(files_bytes(files.push(f)) == file_field_bytes(files[0]) + (files_bytes(
            files.drop_first(),
        ) + file_field_bytes(f)));
        assert(file_field_bytes(files[0]) + (files_bytes(files.drop_first())
            + file_field_bytes(f)) =~= (file_field_bytes(files[0]) + files_bytes(
            files.drop_first(),
        )) + file_field_bytes(f));
    }
}

// ---------------------------------------------------------------------------
// Executable encoding.
// ---------------------------------------------------------------------------

/// Appends a copy of `data` to `out`.
pub fn push_bytes(out: &mut Vec<u8>, data: &Vec<u8>)
    ensures
        final(out)@ == old(out)@ + data@,
{
    let ghost base = out@;
    let mut i: usize = 0;
    while i < data.len()
        invariant
            i <= data.len(),
            out@ == base + data@.take(i as int),
        decreases data.len() - i,
    {
        out.push(data[i]);
        proof {
            assert(out@ =~= base + data@.take(i + 1));
        }
        i = i + 1;
    }
    proof {
        assert(data@.take(data@.len() as int) =~= data@);
    }
}

/// Turns a request into its payload bytes.
pub fn serialize_request(request: &Request) -> (out: Vec<u8>)
    ensures
        out@ == spec_encode_request(request.command, request.files.deep_view()),
{
    let ghost fs = request.files.deep_view();
    let mut out: Vec<u8> = Vec::new();
    if request.command != 0 {
        out.push(8u8);
        let v = cmd_to_u64_exec(request.command);
        encode_varint(&mut out, v);
        proof {
            assert(out@ =~= cmd_field_bytes(request.command));
        }
    }
    proof {
        assert(fs.take(0) =~= Seq::<Seq<u8>>::empty());
        assert(out@ =~= cmd_field_bytes(request.command) + files_bytes(fs.take(0)));
    }
    let mut i: usize = 0;
    while i < request.files.len()
        invariant
            i <= request.files.len(),
            fs == request.files.deep_view(),
            fs.len() == request.files.len(),
            out@ == cmd_field_bytes(request.command) + files_bytes(fs.take(i as int)),
        decreases request.files.len() - i,
    {
        let ghost pre = out@;
        out.push(18u8);
        let f: &Vec<u8> = &request.files[i];
        encode_varint(&mut out, f.len() as u64);
        push_bytes(&mut out, f);
        proof {
            assert(f@ == fs[i as int]);
            assert(out@ =~= pre + file_field_bytes(fs[i as int]));
            lemma_files_bytes_push(fs.take(i as int), fs[i as int]);
            assert(fs.take(i + 1) =~= fs.take(i as int).push(fs[i as int]));
            assert(out@ =~= cmd_field_bytes(request.command) + files_bytes(fs.take(i + 1)));
        }
        i = i + 1;
    }
    proof {
        assert(fs.take(fs.len() as int) =~= fs);
    }
    out
}

/// Turns a response into its payload bytes.
pub fn serialize_response(response: &Response) -> (out: Vec<u8>)
    ensures
        out@ == spec_encode_response(response.status@, response.files.deep_view()),
{
    let ghost fs = response.files.deep_view();
    let mut out: Vec<u8> = Vec::new();
    if response.status.len() != 0 {
        out.push(10u8);
        encode_varint(&mut out, response.status.len() as u64);
        push_bytes(&mut out, &response.status);
        proof {
            assert(out@ =~= status_field_bytes(response.status@));
        }
    }
    proof {
        assert(fs.take(0) =~= Seq::<Seq<u8>>::empty());
        assert(out@ =~= status_field_bytes(response.status@) + files_bytes(fs.take(0)));
    }
    let mut i: usize = 0;
    while i < response.files.len()
        invariant
            i <= response.files.len(),
            fs == response.files.deep_view(),
            fs.len() == response.files.len(),
            out@ == status_field_bytes(response.status@) + files_bytes(fs.take(i as int)),
        decreases response.files.len() - i,
    {
        let ghost pre = out@;
        out.push(18u8);
        let f: &Vec<u8> = &response.files[i];
        encode_varint(&mut out, f.len() as u64);
        push_bytes(&mut out, f);
        proof {
            assert(f@ == fs[i as int]);
            assert(out@ =~= pre + file_field_bytes(fs[i as int]));
            lemma_files_bytes_push(fs.take(i as int), fs[i as int]);
            assert(fs.take(i + 1) =~= fs.take(i as int).push(fs[i as int]));
            assert(out@ =~= status_field_bytes(response.status@) + files_bytes(
                fs.take(i + 1),
            ));
        }
        i = i + 1;
    }
    proof {
        assert(fs.take(fs.len() as int) =~= fs);
    }
    out
}

// ---------------------------------------------------------------------------
// Executable decoding.
// ---------------------------------------------------------------------------

/// Copies `count` bytes of `buf` from `start` on into a fresh vector.
pub(crate) fn copy_range(buf: &Vec<u8>, start: usize, count: usize) -> (out: Vec<u8>)
    requires
        start + count <= buf.len(),
    ensures
        out@ == buf@.subrange(start as int, start as int + count as int),
{
    let mut out: Vec<u8> = Vec::new();
    let mut i: usize = 0;
    while i < count
        invariant
            i <= count,
            start + count <= buf.len(),
            out@ == buf@.subrange(start as int, start as int + i as int),
        decreases count - i,
    {
        out.push(buf[start + i]);
        proof {
            assert(out@ =~= buf@.subrange(start as int, start as int + i + 1));
        }
        i = i + 1;
    }
    out
}

/// Reads one length-delimited field body that starts at `pos`.  Mirrors
/// [`parse_len_payload`] on the byte suffix from `pos` on.
pub fn decode_len_payload(buf: &Vec<u8>, pos: usize) -> (r: Option<(Vec<u8>, usize)>)
    requires
        pos <= buf.len(),
    ensures
        ({
            let s = buf@.subrange(pos as int, buf@.len() as int);
            match r {
                None => parse_len_payload(s) is None,
                Some((data, consumed)) => {
                    &&& parse_len_payload(s) == Some((data@, consumed as int))
                    &&& 1 <= consumed
                    &&& pos + consumed <= buf.len()
                },
            }
        }),
{
    let ghost s = buf@.subrange(pos as int, buf@.len() as int);
    match decode_varint(buf, pos) {
        None => None,
        Some((l, n)) => {
            let pos2 = pos + n;
            if l > (buf.len() - pos2) as u64 {
                proof {
                    assert(n + l > s.len());
                }
                return None;
            }
            let count = l as usize;
            let data = copy_range(buf, pos2, count);
            proof {
                assert(s.subrange(n as int, n as int + l as int) =~= buf@.subrange(
                    pos2 as int,
                    pos2 as int + count as int,
                ));
            }
            Some((data, n + count))
        },
    }
}

/// Decodes a request payload.  Succeeds exactly when the bytes parse as a
/// request record, and then returns what they parse to.
#[verifier::rlimit(50)]
pub fn decode_request(payload: &Vec<u8>) -> (r: Result<Request, DecodeError>)
    ensures
        ({
            let p = spec_parse_request(payload@);
            match r {
                Ok(req) => p == Some((req.command, req.files.deep_view())),
                Err(e) => p is None,
            }
        }),
{
    let len = payload.len();
    let mut pos: usize = 0;
    let mut cmd: i32 = 0;
    let mut files: Vec<Vec<u8>> = Vec::new();
    proof {
        assert(files.deep_view() =~= Seq::<Seq<u8>>::empty());
        assert(payload@.subrange(0, len as int) =~= payload@);
    }
    while pos < len
        invariant
            pos <= len,
            len == payload.len(),
            parse_request_loop(
                payload@.subrange(pos as int, len as int),
                cmd,
                files.deep_view(),
            ) == spec_parse_request(payload@),
        decreases len - pos,
    {
        let ghost s = payload@.subrange(pos as int, len as int);
        let (key, n) = match decode_varint(payload, pos) {
            None => {
                return Err(DecodeError);
            },
            Some(kn) => kn,
        };
        if key > 0xFFFF_FFFFu64 {
            return Err(DecodeError);
        }
        let tag: u64 = key / 8;
        let wire: u64 = key % 8;
        let pos2 = pos + n;
        let ghost t = s.subrange(n as int, s.len() as int);
        proof {
            assert(t =~= payload@.subrange(pos2 as int, len as int));
        }
        if tag == 0 {
            return Err(DecodeError);
        } else if tag == 1 {
            if wire != 0 {
                return Err(DecodeError);
            }
            let (v, m) = match decode_varint(payload, pos2) {
                None => {
                    return Err(DecodeError);
                },
                Some(vm) => vm,
            };
            cmd = low32_to_i32_exec(v);
            pos = pos2 + m;
            proof {
                assert(t.subrange(m as int, t.len() as int) =~= payload@.subrange(
                    pos as int,
                    len as int,
                ));
            }
        } else if tag == 2 {
            if wire != 2 {
                return Err(DecodeError);
            }
            let (data, m) = match decode_len_payload(payload, pos2) {
                None => {
                    return Err(DecodeError);
                },
                Some(dm) => dm,
            };
            let ghost pre_files = files.deep_view();
            let ghost dataview = data@;
            files.push(data);
            pos = pos2 + m;
            proof {
                assert(files.deep_view() =~~= pre_files.push(dataview));
                assert(t.subrange(m as int, t.len() as int) =~= payload@.subrange(
                    pos as int,
                    len as int,
                ));
            }
        } else {
            let m: usize;
            if wire == 0 {
                m = match decode_varint(payload, pos2) {
                    None => {
                        return Err(DecodeError);
                    },
                    Some((v2, m2)) => m2,
                };
            } else if wire == 1 {
                if len - pos2 < 8 {
                    return Err(DecodeError);
                }
                m = 8;
            } else if wire == 2 {
                m = match decode_len_payload(payload, pos2) {
                    None => {
                        return Err(DecodeError);
                    },
                    Some((d2, m2)) => m2,
                };
            } else if wire == 5 {
                if len - pos2 < 4 {
                    return Err(DecodeError);
                }
                m = 4;
            } else {
                return Err(DecodeError);
            }
            pos = pos2 + m;
            proof {
                assert(skip_len(wire, t) == Some(m as int));
                assert(t.subrange(m as int, t.len() as int) =~= payload@.subrange(
                    pos as int,
                    len as int,
                ));
            }
        }
    }
    proof {
        assert(payload@.subrange(pos as int, len as int) =~= Seq::<u8>::empty());
    }
    Ok(Request { command: cmd, files })
}

/// Decodes a response payload.  Succeeds exactly when the bytes parse as a
/// response record, and then returns what they parse to.
#[verifier::rlimit(50)]
pub fn decode_response(payload: &Vec<u8>) -> (r: Result<Response, DecodeError>)
    ensures
        ({
            let p = spec_parse_response(payload@);
            match r {
                Ok(resp) => p == Some((resp.status@, resp.files.deep_view())),
                Err(e) => p is None,
            }
        }),
{
    let len = payload.len();
    let mut pos: usize = 0;
    let mut status: Vec<u8> = Vec::new();
    let mut files: Vec<Vec<u8>> = Vec::new();
    proof {
        assert(files.deep_view() =~= Seq::<Seq<u8>>::empty());
        assert(status@ =~= Seq::<u8>::empty());
        assert(payload@.subrange(0, len as int) =~= payload@);
    }
    while pos < len
        invariant
            pos <= len,
            len == payload.len(),
            parse_response_loop(
                payload@.subrange(pos as int, len as int),
                status@,
                files.deep_view(),
            ) == spec_parse_response(payload@),
        decreases len - pos,
    {
        let ghost s = payload@.subrange(pos as int, len as int);
        let (key, n) = match decode_varint(payload, pos) {
            None => {
                return Err(DecodeError);
            },
            Some(kn) => kn,
        };
        if key > 0xFFFF_FFFFu64 {
            return Err(DecodeError);
        }
        let tag: u64 = key / 8;
        let wire: u64 = key % 8;
        let pos2 = pos + n;
        let ghost t = s.subrange(n as int, s.len() as int);
        proof {
            assert(t =~= payload@.subrange(pos2 as int, len as int));
        }
        if tag == 0 {
            return Err(DecodeError);
        } else if tag == 1 || tag == 2 {
            if wire != 2 {
                return Err(DecodeError);
            }
            let (data, m) = match decode_len_payload(payload, pos2) {
                None => {
                    return Err(DecodeError);
                },
                Some(dm) => dm,
            };
            let ghost pre_files = files.deep_view();
            let ghost dataview = data@;
            if tag == 1 {
                status = data;
            } else {
                files.push(data);
                proof {
                    assert(files.deep_view() =~~= pre_files.push(dataview));
                }
            }
            pos = pos2 + m;
            proof {
                assert(t.subrange(m as int, t.len() as int) =~= payload@.subrange(
                    pos as int,
                    len as int,
                ));
            }
        } else {
            let m: usize;
            if wire == 0 {
                m = match decode_varint(payload, pos2) {
                    None => {
                        return Err(DecodeError);
                    },
                    Some((v2, m2)) => m2,
                };
            } else if wire == 1 {
                if len - pos2 < 8 {
                    return Err(DecodeError);
                }
                m = 8;
            } else if wire == 2 {
                m = match decode_len_payload(payload, pos2) {
                    None => {
                        return Err(DecodeError);
                    },
                    Some((d2, m2)) => m2,
                };
            } else if wire == 5 {
                if len - pos2 < 4 {
                    return Err(DecodeError);
                }
                m = 4;
            } else {
                return Err(DecodeError);
            }
            pos = pos2 + m;
            proof {
                assert(skip_len(wire, t) == Some(m as int));
                assert(t.subrange(m as int, t.len() as int) =~= payload@.subrange(
                    pos as int,
                    len as int,
                ));
            }
        }
    }
    proof {
        assert(payload@.subrange(pos as int, len as int) =~= Seq::<u8>::empty());
    }
    Ok(Response { status, files })
}
// ---------------------------------------------------------------------------
// Round trips: decoding an encoded message gives the message back.
// ---------------------------------------------------------------------------

/// Reading a command field moves its ordinal into the accumulator.
proof fn lemma_parse_cmd_field(c: i32, rest: Seq<u8>, cmd0: i32, files: Seq<Seq<u8>>)
    requires
        c != 0,
    ensures
        parse_request_loop(cmd_field_bytes(c) + rest, cmd0, files) == parse_request_loop(
            rest,
            c,
            files,
        ),
{
    let u = cmd_to_u64(c);
    let s = cmd_field_bytes(c) + rest;
    assert(varint_bytes(8u64) =~= seq![8u8]);
    assert(s =~= varint_bytes(8u64) + (varint_bytes(u) + rest));
    lemma_parse_varint_concat(8u64, varint_bytes(u) + rest);
    assert(parse_varint(s) == Some((8u64, 1int)));
    let t = s.subrange(1, s.len() as int);
    assert(t =~= varint_bytes(u) + rest);
    lemma_parse_varint_concat(u, rest);
    let nb = varint_bytes(u).len() as int;
    assert(parse_varint(t) == Some((u, nb)));
    lemma_cmd_u64_inverse(c);
    assert(t.subrange(nb, t.len() as int) =~= rest);
}

/// Reading a path field appends the path to the accumulator.
proof fn lemma_parse_file_field(f: Seq<u8>, rest: Seq<u8>, cmd: i32, files: Seq<Seq<u8>>)
    requires
        f.len() <= u64::MAX,
    ensures
        parse_request_loop(file_field_bytes(f) + rest, cmd, files) == parse_request_loop(
            rest,
            cmd,
            files.push(f),
        ),
{
    let lf = f.len() as u64;
    let s = file_field_bytes(f) + rest;
    assert(varint_bytes(18u64) =~= seq![18u8]);
    assert(s =~= varint_bytes(18u64) + (varint_bytes(lf) + (f + rest)));
    lemma_parse_varint_concat(18u64, varint_bytes(lf) + (f + rest));
    assert(parse_varint(s) == Some((18u64, 1int)));
    let t = s.subrange(1, s.len() as int);
    assert(t =~= varint_bytes(lf) + (f + rest));
    lemma_parse_varint_concat(lf, f + rest);
    let nb = varint_bytes(lf).len() as int;
    assert(parse_varint(t) == Some((lf, nb)));
    assert(t.subrange(nb, nb + lf as int) =~= f);
    assert(parse_len_payload(t) == Some((f, nb + lf as int)));
    assert(t.subrange(nb + lf as int, t.len() as int) =~= rest);
}

/// Reading a whole run of path fields appends them all, in order.
proof fn lemma_parse_files_req(files: Seq<Seq<u8>>, cmd: i32, acc: Seq<Seq<u8>>)
    requires
        forall|i: int| 0 <= i < files.len() ==> #[trigger] files[i].len() <= u64::MAX,
    ensures
        parse_request_loop(files_bytes(files), cmd, acc) == Some((cmd, acc + files)),
    decreases files.len(),
{
    if files.len() == 0 {
        assert(files_bytes(files) == Seq::<u8>::empty());
        assert(parse_request_loop(Seq::<u8>::empty(), cmd, acc) == Some((cmd, acc)));
        assert(acc + files =~= acc);
    } else {
        let f0 = files[0];
        let rest = files.drop_first();
        assert(files_bytes(files) == file_field_bytes(f0) + files_bytes(rest));
        lemma_parse_file_field(f0, files_bytes(rest), cmd, acc);
        assert(forall|i: int|
            0 <= i < rest.len() ==> #[trigger] rest[i].len() <= u64::MAX) by {
            assert(forall|i: int| 0 <= i < rest.len() ==> rest[i] == files[i + 1]);
        }
        lemma_parse_files_req(rest, cmd, acc.push(f0));
        assert(acc.push(f0) + rest =~= acc + files);
    }
}

/// Decoding an encoded request gives the request back.  The length of each
/// path must fit the 64-bit length prefix it is written with.
pub proof fn lemma_request_round_trip(cmd: i32, files: Seq<Seq<u8>>)
    requires
        forall|i: int| 0 <= i < files.len() ==> #[trigger] files[i].len() <= u64::MAX,
    ensures
        spec_parse_request(spec_encode_request(cmd, files)) == Some((cmd, files)),
{
    lemma_parse_files_req(files, cmd, Seq::empty());
    assert(Seq::<Seq<u8>>::empty() + files =~= files);
    if cmd == 0 {
        assert(spec_encode_request(0, files) =~= files_bytes(files));
        lemma_parse_files_req(files, 0, Seq::empty());
    } else {
        lemma_parse_cmd_field(cmd, files_bytes(files), 0, Seq::empty());
    }
}

/// Reading a status field moves the token into the accumulator.
proof fn lemma_parse_status_field(st: Seq<u8>, rest: Seq<u8>, st0: Seq<u8>, files: Seq<Seq<u8>>)
    requires
        1 <= st.len() <= u64::MAX,
    ensures
        parse_response_loop(status_field_bytes(st) + rest, st0, files) == parse_response_loop(
            rest,
            st,
            files,
        ),
{
    let ls = st.len() as u64;
    let s = status_field_bytes(st) + rest;
    assert(varint_bytes(10u64) =~= seq![10u8]);
    assert(s =~= varint_bytes(10u64) + (varint_bytes(ls) + (st + rest)));
    lemma_parse_varint_concat(10u64, varint_bytes(ls) + (st + rest));
    assert(parse_varint(s) == Some((10u64, 1int)));
    let t = s.subrange(1, s.len() as int);
    assert(t =~= varint_bytes(ls) + (st + rest));
    lemma_parse_varint_concat(ls, st + rest);
    let nb = varint_bytes(ls).len() as int;
    assert(parse_varint(t) == Some((ls, nb)));
    assert(t.subrange(nb, nb + ls as int) =~= st);
    assert(parse_len_payload(t) == Some((st, nb + ls as int)));
    assert(t.subrange(nb + ls as int, t.len() as int) =~= rest);
}

/// Reading a path field of a response appends the path.
proof fn lemma_parse_file_field_resp(f: Seq<u8>, rest: Seq<u8>, st: Seq<u8>, files: Seq<Seq<u8>>)
    requires
        f.len() <= u64::MAX,
    ensures
        parse_response_loop(file_field_bytes(f) + rest, st, files) == parse_response_loop(
            rest,
            st,
            files.push(f),
        ),
{
    let lf = f.len() as u64;
    let s = file_field_bytes(f) + rest;
    assert(varint_bytes(18u64) =~= seq![18u8]);
    assert(s =~= varint_bytes(18u64) + (varint_bytes(lf) + (f + rest)));
    lemma_parse_varint_concat(18u64, varint_bytes(lf) + (f + rest));
    assert(parse_varint(s) == Some((18u64, 1int)));
    let t = s.subrange(1, s.len() as int);
    assert(t =~= varint_bytes(lf) + (f + rest));
    lemma_parse_varint_concat(lf, f + rest);
    let nb = varint_bytes(lf).len() as int;
    assert(parse_varint(t) == Some((lf, nb)));
    assert(t.subrange(nb, nb + lf as int) =~= f);
    assert(parse_len_payload(t) == Some((f, nb + lf as int)));
    assert(t.subrange(nb + lf as int, t.len() as int) =~= rest);
}

/// Reading a whole run of response path fields appends them all, in order.
proof fn lemma_parse_files_resp(files: Seq<Seq<u8>>, st: Seq<u8>, acc: Seq<Seq<u8>>)
    requires
        forall|i: int| 0 <= i < files.len() ==> #[trigger] files[i].len() <= u64::MAX,
    ensures
        parse_response_loop(files_bytes(files), st, acc) == Some((st, acc + files)),
    decreases files.len(),
{
    if files.len() == 0 {
        assert(files_bytes(files) == Seq::<u8>::empty());
        assert(parse_response_loop(Seq::<u8>::empty(), st, acc) == Some((st, acc)));
        assert(acc + files =~= acc);
    } else {
        let f0 = files[0];
        let rest = files.drop_first();
        assert(files_bytes(files) == file_field_bytes(f0) + files_bytes(rest));
        lemma_parse_file_field_resp(f0, files_bytes(rest), st, acc);
        assert(forall|i: int|
            0 <= i < rest.len() ==> #[trigger] rest[i].len() <= u64::MAX) by {
            assert(forall|i: int| 0 <= i < rest.len() ==> rest[i] == files[i + 1]);
        }
        lemma_parse_files_resp(rest, st, acc.push(f0));
        assert(acc.push(f0) + rest =~= acc + files);
    }
}

/// Decoding an encoded response gives the response back.
pub proof fn lemma_response_round_trip(status: Seq<u8>, files: Seq<Seq<u8>>)
    requires
        status.len() <= u64::MAX,
        forall|i: int| 0 <= i < files.len() ==> #[trigger] files[i].len() <= u64::MAX,
    ensures
        spec_parse_response(spec_encode_response(status, files)) == Some((status, files)),
{
    if status.len() == 0 {
        assert(spec_encode_response(status, files) =~= files_bytes(files));
        lemma_parse_files_resp(files, Seq::empty(), Seq::empty());
        assert(Seq::<Seq<u8>>::empty() + files =~= files);
        assert(status =~= Seq::<u8>::empty());
    } else {
        lemma_parse_status_field(status, files_bytes(files), Seq::empty(), Seq::empty());
        lemma_parse_files_resp(files, status, Seq::empty());
        assert(Seq::<Seq<u8>>::empty() + files =~= files);
    }
}

} // verus!
