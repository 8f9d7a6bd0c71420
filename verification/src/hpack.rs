//! HPACK (RFC 7541) header compression as HTTP/2 uses it: prefixed
//! variable-length integers, indexed and literal header fields, the static
//! table and a decoder with a dynamic table.
use crate::text::{from_utf8_lossy, utf8_lossy};
use vstd::arithmetic::power2::pow2;
use vstd::prelude::*;
use vstd::string::StringSliceAdditionalSpecFns;

verus! {

// ---------------------------------------------------------------------------
// Static table (RFC 7541 Appendix A)
// ---------------------------------------------------------------------------

/// Name of static-table entry `i` (1-based, RFC 7541 Appendix A).
pub open spec fn static_name(i: int) -> Seq<char> {
    if i < 1 {
        Seq::empty()
    } else if i == 1 {
        ":authority"@
    } else if i == 2 {
        ":method"@
    } else if i == 3 {
        ":method"@
    } else if i == 4 {
        ":path"@
    } else if i == 5 {
        ":path"@
    } else if i == 6 {
        ":scheme"@
    } else if i == 7 {
        ":scheme"@
    } else if i == 8 {
        ":status"@
    } else if i == 9 {
        ":status"@
    } else if i == 10 {
        ":status"@
    } else if i == 11 {
        ":status"@
    } else if i == 12 {
        ":status"@
    } else if i == 13 {
        ":status"@
    } else if i == 14 {
        ":status"@
    } else if i == 15 {
        "accept-charset"@
    } else if i == 16 {
        "accept-encoding"@
    } else if i == 17 {
        "accept-language"@
    } else if i == 18 {
        "accept-ranges"@
    } else if i == 19 {
        "accept"@
    } else if i == 20 {
        "access-control-allow-origin"@
    } else if i == 21 {
        "age"@
    } else if i == 22 {
        "allow"@
    } else if i == 23 {
        "authorization"@
    } else if i == 24 {
        "cache-control"@
    } else if i == 25 {
        "content-disposition"@
    } else if i == 26 {
        "content-encoding"@
    } else if i == 27 {
        "content-language"@
    } else if i == 28 {
        "content-length"@
    } else if i == 29 {
        "content-location"@
    } else if i == 30 {
        "content-range"@
    } else if i == 31 {
        "content-type"@
    } else if i == 32 {
        "cookie"@
    } else if i == 33 {
        "date"@
    } else if i == 34 {
        "etag"@
    } else if i == 35 {
        "expect"@
    } else if i == 36 {
        "expires"@
    } else if i == 37 {
        "from"@
    } else if i == 38 {
        "host"@
    } else if i == 39 {
        "if-match"@
    } else if i == 40 {
        "if-modified-since"@
    } else if i == 41 {
        "if-none-match"@
    } else if i == 42 {
        "if-range"@
    } else if i == 43 {
        "if-unmodified-since"@
    } else if i == 44 {
        "last-modified"@
    } else if i == 45 {
        "link"@
    } else if i == 46 {
        "location"@
    } else if i == 47 {
        "max-forwards"@
    } else if i == 48 {
        "proxy-authenticate"@
    } else if i == 49 {
        "proxy-authorization"@
    } else if i == 50 {
        "range"@
    } else if i == 51 {
        "referer"@
    } else if i == 52 {
        "refresh"@
    } else if i == 53 {
        "retry-after"@
    } else if i == 54 {
        "server"@
    } else if i == 55 {
        "set-cookie"@
    } else if i == 56 {
        "strict-transport-security"@
    } else if i == 57 {
        "transfer-encoding"@
    } else if i == 58 {
        "user-agent"@
    } else if i == 59 {
        "vary"@
    } else if i == 60 {
        "via"@
    } else if i == 61 {
        "www-authenticate"@
    } else {
        Seq::empty()
    }
}

/// Value of static-table entry `i` (1-based, RFC 7541 Appendix A).
pub open spec fn static_value(i: int) -> Seq<char> {
    if i < 1 {
        Seq::empty()
    } else if i == 1 {
        ""@
    } else if i == 2 {
        "GET"@
    } else if i == 3 {
        "POST"@
    } else if i == 4 {
        "/"@
    } else if i == 5 {
        "/index.html"@
    } else if i == 6 {
        "http"@
    } else if i == 7 {
        "https"@
    } else if i == 8 {
        "200"@
    } else if i == 9 {
        "204"@
    } else if i == 10 {
        "206"@
    } else if i == 11 {
        "304"@
    } else if i == 12 {
        "400"@
    } else if i == 13 {
        "404"@
    } else if i == 14 {
        "500"@
    } else if i == 15 {
        ""@
    } else if i == 16 {
        "gzip, deflate"@
    } else if i == 17 {
        ""@
    } else if i == 18 {
        ""@
    } else if i == 19 {
        ""@
    } else if i == 20 {
        ""@
    } else if i == 21 {
        ""@
    } else if i == 22 {
        ""@
    } else if i == 23 {
        ""@
    } else if i == 24 {
        ""@
    } else if i == 25 {
        ""@
    } else if i == 26 {
        ""@
    } else if i == 27 {
        ""@
    } else if i == 28 {
        ""@
    } else if i == 29 {
        ""@
    } else if i == 30 {
        ""@
    } else if i == 31 {
        ""@
    } else if i == 32 {
        ""@
    } else if i == 33 {
        ""@
    } else if i == 34 {
        ""@
    } else if i == 35 {
        ""@
    } else if i == 36 {
        ""@
    } else if i == 37 {
        ""@
    } else if i == 38 {
        ""@
    } else if i == 39 {
        ""@
    } else if i == 40 {
        ""@
    } else if i == 41 {
        ""@
    } else if i == 42 {
        ""@
    } else if i == 43 {
        ""@
    } else if i == 44 {
        ""@
    } else if i == 45 {
        ""@
    } else if i == 46 {
        ""@
    } else if i == 47 {
        ""@
    } else if i == 48 {
        ""@
    } else if i == 49 {
        ""@
    } else if i == 50 {
        ""@
    } else if i == 51 {
        ""@
    } else if i == 52 {
        ""@
    } else if i == 53 {
        ""@
    } else if i == 54 {
        ""@
    } else if i == 55 {
        ""@
    } else if i == 56 {
        ""@
    } else if i == 57 {
        ""@
    } else if i == 58 {
        ""@
    } else if i == 59 {
        ""@
    } else if i == 60 {
        ""@
    } else if i == 61 {
        ""@
    } else {
        Seq::empty()
    }
}

/// The static table shared by every HTTP/2 client and server: 61 common
/// header fields.
pub fn static_entry(index: usize) -> (e: (&'static str, &'static str))
    requires
        1 <= index <= 61,
    ensures
        e.0@ == static_name(index as int),
        e.1@ == static_value(index as int),
{
    match index {
        1 => (":authority", ""),
        2 => (":method", "GET"),
        3 => (":method", "POST"),
        4 => (":path", "/"),
        5 => (":path", "/index.html"),
        6 => (":scheme", "http"),
        7 => (":scheme", "https"),
        8 => (":status", "200"),
        9 => (":status", "204"),
        10 => (":status", "206"),
        11 => (":status", "304"),
        12 => (":status", "400"),
        13 => (":status", "404"),
        14 => (":status", "500"),
        15 => ("accept-charset", ""),
        16 => ("accept-encoding", "gzip, deflate"),
        17 => ("accept-language", ""),
        18 => ("accept-ranges", ""),
        19 => ("accept", ""),
        20 => ("access-control-allow-origin", ""),
        21 => ("age", ""),
        22 => ("allow", ""),
        23 => ("authorization", ""),
        24 => ("cache-control", ""),
        25 => ("content-disposition", ""),
        26 => ("content-encoding", ""),
        27 => ("content-language", ""),
        28 => ("content-length", ""),
        29 => ("content-location", ""),
        30 => ("content-range", ""),
        31 => ("content-type", ""),
        32 => ("cookie", ""),
        33 => ("date", ""),
        34 => ("etag", ""),
        35 => ("expect", ""),
        36 => ("expires", ""),
        37 => ("from", ""),
        38 => ("host", ""),
        39 => ("if-match", ""),
        40 => ("if-modified-since", ""),
        41 => ("if-none-match", ""),
        42 => ("if-range", ""),
        43 => ("if-unmodified-since", ""),
        44 => ("last-modified", ""),
        45 => ("link", ""),
        46 => ("location", ""),
        47 => ("max-forwards", ""),
        48 => ("proxy-authenticate", ""),
        49 => ("proxy-authorization", ""),
        50 => ("range", ""),
        51 => ("referer", ""),
        52 => ("refresh", ""),
        53 => ("retry-after", ""),
        54 => ("server", ""),
        55 => ("set-cookie", ""),
        56 => ("strict-transport-security", ""),
        57 => ("transfer-encoding", ""),
        58 => ("user-agent", ""),
        59 => ("vary", ""),
        60 => ("via", ""),
        _ => ("www-authenticate", ""),
    }
}

// ---------------------------------------------------------------------------
// Prefixed integers (RFC 7541 section 5.1)
// ---------------------------------------------------------------------------

/// The largest value the N-bit prefix holds directly: 2^N - 1.
pub open spec fn prefix_max(prefix_bits: u8) -> int {
    pow2(prefix_bits as nat) - 1
}

/// The continuation bytes of a remainder: 7 bits each, least significant
/// first, the top bit set on all but the last.
pub open spec fn continuation_bytes(r: nat) -> Seq<u8>
    decreases r,
{
    if r >= 128 {
        seq![((r % 128) + 128) as u8] + continuation_bytes(r / 128)
    } else {
        seq![r as u8]
    }
}

/// `value` with an N-bit prefix under the flag bits `flags`.
pub open spec fn int_encoding(value: nat, prefix_bits: u8, flags: u8) -> Seq<u8> {
    let max = prefix_max(prefix_bits);
    if value < max {
        seq![flags | (value as u8)]
    } else {
        seq![flags | (max as u8)] + continuation_bytes((value - max) as nat)
    }
}

proof fn lemma_prefix_max(prefix_bits: u8)
    requires
        (prefix_bits as u32) < usize::BITS,
    ensures
        0 <= prefix_max(prefix_bits) < usize::MAX,
        (1usize << prefix_bits) == prefix_max(prefix_bits) + 1,
{
    vstd::arithmetic::power2::lemma2_to64();
    vstd::arithmetic::power2::lemma_pow2_pos(prefix_bits as nat);
    vstd::arithmetic::power2::lemma_pow2_strictly_increases(prefix_bits as nat, usize::BITS as nat);
    assert(usize::MAX == pow2(usize::BITS as nat) - 1) by {
        if usize::BITS == 32 {
        } else {
        }
    }
    vstd::bits::lemma_usize_shl_is_mul(1, prefix_bits as usize);
}

/// Encodes `value` with an N-bit prefix: in the first byte when it is below
/// 2^N - 1, otherwise the prefix is all ones and the rest follows 7 bits
/// per byte.
pub fn encode_integer(value: usize, prefix_bits: u8, flags: u8) -> (out: Vec<u8>)
    requires
        (prefix_bits as u32) < usize::BITS,
    ensures
        out@ == int_encoding(value as nat, prefix_bits, flags),
{
    proof {
        lemma_prefix_max(prefix_bits);
    }
    let max_prefix: usize = (1usize << prefix_bits) - 1;
    let mut out: Vec<u8> = Vec::new();
    if value < max_prefix {
        out.push(flags | value as u8);
        assert(out@ =~= int_encoding(value as nat, prefix_bits, flags));
    } else {
        out.push(flags | max_prefix as u8);
        let mut remainder: usize = value - max_prefix;
        let ghost total = (value - max_prefix) as nat;
        let ghost mut emitted: Seq<u8> = Seq::empty();
        while remainder >= 128
            invariant
                out@ == seq![flags | (max_prefix as u8)] + emitted,
                continuation_bytes(total) == emitted + continuation_bytes(remainder as nat),
            decreases remainder,
        {
            let low: u8 = (remainder % 128) as u8;
            let byte: u8 = low | 0x80;
            assert(byte == low + 128) by (bit_vector)
                requires
                    low < 128,
                    byte == low | 0x80,
            ;
            out.push(byte);
            proof {
                assert(continuation_bytes(remainder as nat) == seq![byte] + continuation_bytes(
                    (remainder / 128) as nat,
                ));
                assert(emitted + continuation_bytes(remainder as nat) =~= emitted.push(byte)
                    + continuation_bytes((remainder / 128) as nat));
                emitted = emitted.push(byte);
            }
            remainder = remainder / 128;
        }
        out.push(remainder as u8);
        proof {
            assert(continuation_bytes(remainder as nat) == seq![remainder as u8]);
            assert(out@ =~= int_encoding(value as nat, prefix_bits, flags));
        }
    }
    out
}

/// Decoding the continuation bytes from `pos` with `value` so far and the
/// next 7-bit group landing at `shift`: the value and where it ends, or
/// `None` where decoding would index past the end, shift by the word size or
/// overflow.
pub open spec fn continuation_decoding(buf: Seq<u8>, pos: int, value: int, shift: int) -> Option<
    (int, int),
>
    decreases buf.len() - pos,
{
    if pos < 0 || pos >= buf.len() || shift < 0 || shift >= usize::BITS {
        None
    } else {
        let term = ((buf[pos] & 0x7f) as usize) << (shift as usize);
        if value + term > usize::MAX {
            None
        } else if buf[pos] & 0x80 == 0 {
            Some((value + term, pos + 1))
        } else {
            continuation_decoding(buf, pos + 1, value + term, shift + 7)
        }
    }
}

/// The value an N-bit-prefixed integer at the start of `buf` encodes and
/// the bytes it takes, or `None` where decoding it fails.
pub open spec fn int_decoding(buf: Seq<u8>, prefix_bits: u8) -> Option<(int, int)> {
    if buf.len() == 0 {
        None
    } else {
        let v = (buf[0] as usize) & (prefix_max(prefix_bits) as usize);
        if v < prefix_max(prefix_bits) {
            Some((v as int, 1))
        } else {
            continuation_decoding(buf, 1, v as int, 0)
        }
    }
}

proof fn lemma_continuation_bounds(buf: Seq<u8>, pos: int, value: int, shift: int)
    ensures
        continuation_decoding(buf, pos, value, shift) matches Some((v, end)) ==> pos < end
            <= buf.len() && v <= usize::MAX,
    decreases buf.len() - pos,
{
    if 0 <= pos < buf.len() && 0 <= shift < usize::BITS {
        let term = ((buf[pos] & 0x7f) as usize) << (shift as usize);
        if value + term <= usize::MAX && buf[pos] & 0x80 != 0 {
            lemma_continuation_bounds(buf, pos + 1, value + term, shift + 7);
        }
    }
}

proof fn lemma_continuation_roundtrip(r: nat, prefix: Seq<u8>, value: int, shift: int)
    requires
        0 <= shift < usize::BITS,
        0 <= value,
        value + r * pow2(shift as nat) <= usize::MAX,
    ensures
        continuation_decoding(prefix + continuation_bytes(r), prefix.len() as int, value, shift)
            == Some(
            (
                value + r * pow2(shift as nat),
                (prefix.len() + continuation_bytes(r).len()) as int,
            ),
        ),
    decreases r,
{
    let buf = prefix + continuation_bytes(r);
    let pos = prefix.len() as int;
    let p = pow2(shift as nat);
    vstd::arithmetic::power2::lemma_pow2_pos(shift as nat);
    let low = r % 128;
    assert(r == 128 * (r / 128) + low);
    assert(low * p <= r * p) by (nonlinear_arith)
        requires
            low <= r,
            p > 0,
    ;
    let lo: u8 = low as u8;
    vstd::bits::lemma_usize_shl_is_mul(lo as usize, shift as usize);
    assert(((lo as usize) << (shift as usize)) == low * p);
    if r >= 128 {
        let b: u8 = ((r % 128) + 128) as u8;
        assert(buf[pos] == b);
        assert(b & 0x7f == lo && b & 0x80 != 0) by (bit_vector)
            requires
                lo < 128,
                b == lo + 128,
        ;
        let q = r / 128;
        assert(r * p == low * p + q * (128 * p)) by (nonlinear_arith)
            requires
                r == 128 * q + low,
        ;
        vstd::arithmetic::power2::lemma_pow2_adds(shift as nat, 7);
        vstd::arithmetic::power2::lemma2_to64();
        assert(pow2((shift + 7) as nat) == 128 * p);
        assert(q * (128 * p) >= 128 * p) by (nonlinear_arith)
            requires
                q >= 1,
                p > 0,
        ;
        assert(shift + 7 < usize::BITS) by {
            if shift + 7 >= usize::BITS {
                if shift + 7 > usize::BITS {
                    vstd::arithmetic::power2::lemma_pow2_strictly_increases(
                        usize::BITS as nat,
                        (shift + 7) as nat,
                    );
                }
                assert(usize::MAX < pow2(usize::BITS as nat)) by {
                    if usize::BITS == 32 {
                    } else {
                    }
                }
            }
        }
        lemma_continuation_roundtrip(q, prefix.push(b), value + low * p, shift + 7);
        assert(prefix.push(b) + continuation_bytes(q) =~= buf);
    } else {
        assert(buf[pos] == lo);
        assert(lo & 0x7f == lo && lo & 0x80 == 0) by (bit_vector)
            requires
                lo < 128,
        ;
    }
}

/// Decodes an N-bit-prefixed integer at the start of `buf` when it can be
/// decoded (as `int_decoding` says), or `None`.
pub fn try_decode_integer(buf: &[u8], prefix_bits: u8) -> (r: Option<(usize, usize)>)
    requires
        (prefix_bits as u32) < usize::BITS,
    ensures
        match int_decoding(buf@, prefix_bits) {
            Some((v, c)) => r == Some((v as usize, c as usize)) && 0 <= v <= usize::MAX && 1 <= c
                <= buf@.len(),
            None => r is None,
        },
{
    if buf.len() == 0 {
        return None;
    }
    proof {
        lemma_prefix_max(prefix_bits);
    }
    let max_prefix: usize = (1usize << prefix_bits) - 1;
    let mut value: usize = (buf[0] as usize) & max_prefix;
    if value < max_prefix {
        return Some((value, 1));
    }
    let mut consumed: usize = 1;
    let mut shift: usize = 0;
    loop
        invariant
            1 <= consumed,
            int_decoding(buf@, prefix_bits) == continuation_decoding(
                buf@,
                consumed as int,
                value as int,
                shift as int,
            ),
            int_decoding(buf@, prefix_bits) == continuation_decoding(
                buf@,
                1,
                (buf@[0] as usize & max_prefix) as int,
                0,
            ),
        decreases buf@.len() - consumed,
    {
        if consumed >= buf.len() || shift >= usize::BITS as usize {
            return None;
        }
        let b = buf[consumed];
        let term: usize = ((b & 0x7f) as usize) << shift;
        if term > usize::MAX - value {
            return None;
        }
        value = value + term;
        consumed = consumed + 1;
        if b & 0x80 == 0 {
            proof {
                lemma_continuation_bounds(buf@, 1, (buf@[0] as usize & max_prefix) as int, 0);
            }
            return Some((value, consumed));
        }
        shift = shift + 7;
    }
}

/// Decoding an encoded integer, with whatever bytes follow it, gives back
/// its value and the length of its encoding (decoding stops where the
/// encoding ends, and the flag bits are masked off), for any prefix width up
/// to a byte and flag bits that stay out of the prefix.
pub proof fn integer_roundtrip(value: nat, prefix_bits: u8, flags: u8, rest: Seq<u8>)
    requires
        prefix_bits <= 8,
        flags & (prefix_max(prefix_bits) as u8) == 0,
        value <= usize::MAX,
    ensures
        int_decoding(int_encoding(value, prefix_bits, flags) + rest, prefix_bits) == Some(
            (value as int, int_encoding(value, prefix_bits, flags).len() as int),
        ),
{
    lemma_bare_roundtrip(value, prefix_bits, flags);
    lemma_int_decoding_extend(int_encoding(value, prefix_bits, flags), rest, prefix_bits);
}

proof fn lemma_bare_roundtrip(value: nat, prefix_bits: u8, flags: u8)
    requires
        prefix_bits <= 8,
        flags & (prefix_max(prefix_bits) as u8) == 0,
        value <= usize::MAX,
    ensures
        int_decoding(int_encoding(value, prefix_bits, flags), prefix_bits) == Some(
            (value as int, int_encoding(value, prefix_bits, flags).len() as int),
        ),
{
    vstd::arithmetic::power2::lemma2_to64();
    let m = prefix_max(prefix_bits);
    assert(m == 0 || m == 1 || m == 3 || m == 7 || m == 15 || m == 31 || m == 63 || m == 127
        || m == 255);
    let mm: u8 = m as u8;
    assert(mm as usize == m as usize);
    assert(mm as int == m);
    let enc = int_encoding(value, prefix_bits, flags);
    if value < m {
        let v: u8 = value as u8;
        let b: u8 = flags | v;
        assert(((b as usize) & (mm as usize)) == v as usize) by (bit_vector)
            requires
                b == flags | v,
                flags & mm == 0,
                v < mm,
                mm == 0 || mm == 1 || mm == 3 || mm == 7 || mm == 15 || mm == 31 || mm == 63
                    || mm == 127 || mm == 255,
        ;
        assert(enc == seq![b]);
    } else {
        let b: u8 = flags | mm;
        assert(((b as usize) & (mm as usize)) == mm as usize) by (bit_vector)
            requires
                b == flags | mm,
        ;
        let r = (value - m) as nat;
        assert(pow2(0) == 1);
        assert(m + r * pow2(0) == value);
        lemma_continuation_roundtrip(r, seq![b], m, 0);
        assert(seq![b] + continuation_bytes(r) =~= enc);
    }
}

/// Decodes an N-bit-prefixed integer at the start of `buf`: the value and
/// how many bytes it took.
pub fn decode_integer(buf: &[u8], prefix_bits: u8) -> (r: (usize, usize))
    requires
        (prefix_bits as u32) < usize::BITS,
        int_decoding(buf@, prefix_bits) is Some,
    ensures
        int_decoding(buf@, prefix_bits) == Some((r.0 as int, r.1 as int)),
        1 <= r.1 <= buf@.len(),
{
    proof {
        lemma_prefix_max(prefix_bits);
    }
    let max_prefix: usize = (1usize << prefix_bits) - 1;
    let mut value: usize = (buf[0] as usize) & max_prefix;
    if value < max_prefix {
        return (value, 1);
    }
    proof {
        lemma_continuation_bounds(buf@, 1, value as int, 0);
    }
    let mut consumed: usize = 1;
    let mut shift: usize = 0;
    loop
        invariant
            1 <= consumed,
            int_decoding(buf@, prefix_bits) == continuation_decoding(
                buf@,
                consumed as int,
                value as int,
                shift as int,
            ),
            continuation_decoding(buf@, consumed as int, value as int, shift as int) is Some,
        decreases buf@.len() - consumed,
    {
        proof {
            lemma_continuation_bounds(buf@, consumed as int, value as int, shift as int);
        }
        let b = buf[consumed];
        let term: usize = ((b & 0x7f) as usize) << shift;
        value = value + term;
        consumed = consumed + 1;
        if b & 0x80 == 0 {
            proof {
                lemma_continuation_bounds(buf@, 1, (buf@[0] as usize & max_prefix) as int, 0);
            }
            return (value, consumed);
        }
        shift = shift + 7;
    }
}

/// An indexed header field (section 6.1): the index with a 7-bit prefix
/// under the flag 0x80.
pub fn encode_indexed(index: usize) -> (out: Vec<u8>)
    ensures
        out@ == int_encoding(index as nat, 7, 0x80),
{
    encode_integer(index, 7, 0x80)
}

/// A literal header field with incremental indexing and a new name
/// (section 6.2.1): 0x40, the name's length and bytes, the value's length and
/// bytes (no Huffman coding).
pub open spec fn literal_new_name(name: Seq<u8>, value: Seq<u8>) -> Seq<u8> {
    seq![0x40u8] + int_encoding((name.len() as usize) as nat, 7, 0) + name + int_encoding(
        (value.len() as usize) as nat,
        7,
        0,
    ) + value
}

pub fn encode_literal_new_name(name: &str, value: &str) -> (out: Vec<u8>)
    ensures
        out@ == literal_new_name(name.spec_bytes(), value.spec_bytes()),
{
    let mut out: Vec<u8> = Vec::new();
    out.push(0x40);
    let mut n = encode_integer(name.len(), 7, 0x00);
    out.append(&mut n);
    out.extend_from_slice(name.as_bytes());
    let mut v = encode_integer(value.len(), 7, 0x00);
    out.append(&mut v);
    out.extend_from_slice(value.as_bytes());
    assert(out@ =~= literal_new_name(name.spec_bytes(), value.spec_bytes()));
    out
}

// ---------------------------------------------------------------------------
// Decoder
// ---------------------------------------------------------------------------

/// A header field as text.
pub open spec fn field_view(e: (String, String)) -> (Seq<char>, Seq<char>) {
    (e.0@, e.1@)
}

pub open spec fn table_view(t: Seq<(String, String)>) -> Seq<(Seq<char>, Seq<char>)> {
    t.map_values(|e: (String, String)| field_view(e))
}

/// Entry `index` of the combined table: 1..=61 static, 62 and up dynamic
/// (newest first).
pub open spec fn table_entry(index: int, dynamic: Seq<(Seq<char>, Seq<char>)>) -> Option<
    (Seq<char>, Seq<char>),
> {
    if 1 <= index <= 61 {
        Some((static_name(index), static_value(index)))
    } else if 62 <= index < 62 + dynamic.len() {
        Some(dynamic[index - 62])
    } else {
        None
    }
}

/// The static table is the one of RFC 7541, Appendix A: indices 1 to 61
/// name these header fields, whatever the dynamic table holds.
pub proof fn static_table_is_rfc7541(dynamic: Seq<(Seq<char>, Seq<char>)>)
    ensures
        table_entry(1, dynamic) == Some((":authority"@, ""@)),
        table_entry(2, dynamic) == Some((":method"@, "GET"@)),
        table_entry(3, dynamic) == Some((":method"@, "POST"@)),
        table_entry(4, dynamic) == Some((":path"@, "/"@)),
        table_entry(5, dynamic) == Some((":path"@, "/index.html"@)),
        table_entry(6, dynamic) == Some((":scheme"@, "http"@)),
        table_entry(7, dynamic) == Some((":scheme"@, "https"@)),
        table_entry(8, dynamic) == Some((":status"@, "200"@)),
        table_entry(9, dynamic) == Some((":status"@, "204"@)),
        table_entry(10, dynamic) == Some((":status"@, "206"@)),
        table_entry(11, dynamic) == Some((":status"@, "304"@)),
        table_entry(12, dynamic) == Some((":status"@, "400"@)),
        table_entry(13, dynamic) == Some((":status"@, "404"@)),
        table_entry(14, dynamic) == Some((":status"@, "500"@)),
        table_entry(15, dynamic) == Some(("accept-charset"@, ""@)),
        table_entry(16, dynamic) == Some(("accept-encoding"@, "gzip, deflate"@)),
        table_entry(17, dynamic) == Some(("accept-language"@, ""@)),
        table_entry(18, dynamic) == Some(("accept-ranges"@, ""@)),
        table_entry(19, dynamic) == Some(("accept"@, ""@)),
        table_entry(20, dynamic) == Some(("access-control-allow-origin"@, ""@)),
        table_entry(21, dynamic) == Some(("age"@, ""@)),
        table_entry(22, dynamic) == Some(("allow"@, ""@)),
        table_entry(23, dynamic) == Some(("authorization"@, ""@)),
        table_entry(24, dynamic) == Some(("cache-control"@, ""@)),
        table_entry(25, dynamic) == Some(("content-disposition"@, ""@)),
        table_entry(26, dynamic) == Some(("content-encoding"@, ""@)),
        table_entry(27, dynamic) == Some(("content-language"@, ""@)),
        table_entry(28, dynamic) == Some(("content-length"@, ""@)),
        table_entry(29, dynamic) == Some(("content-location"@, ""@)),
        table_entry(30, dynamic) == Some(("content-range"@, ""@)),
        table_entry(31, dynamic) == Some(("content-type"@, ""@)),
        table_entry(32, dynamic) == Some(("cookie"@, ""@)),
        table_entry(33, dynamic) == Some(("date"@, ""@)),
        table_entry(34, dynamic) == Some(("etag"@, ""@)),
        table_entry(35, dynamic) == Some(("expect"@, ""@)),
        table_entry(36, dynamic) == Some(("expires"@, ""@)),
        table_entry(37, dynamic) == Some(("from"@, ""@)),
        table_entry(38, dynamic) == Some(("host"@, ""@)),
        table_entry(39, dynamic) == Some(("if-match"@, ""@)),
        table_entry(40, dynamic) == Some(("if-modified-since"@, ""@)),
        table_entry(41, dynamic) == Some(("if-none-match"@, ""@)),
        table_entry(42, dynamic) == Some(("if-range"@, ""@)),
        table_entry(43, dynamic) == Some(("if-unmodified-since"@, ""@)),
        table_entry(44, dynamic) == Some(("last-modified"@, ""@)),
        table_entry(45, dynamic) == Some(("link"@, ""@)),
        table_entry(46, dynamic) == Some(("location"@, ""@)),
        table_entry(47, dynamic) == Some(("max-forwards"@, ""@)),
        table_entry(48, dynamic) == Some(("proxy-authenticate"@, ""@)),
        table_entry(49, dynamic) == Some(("proxy-authorization"@, ""@)),
        table_entry(50, dynamic) == Some(("range"@, ""@)),
        table_entry(51, dynamic) == Some(("referer"@, ""@)),
        table_entry(52, dynamic) == Some(("refresh"@, ""@)),
        table_entry(53, dynamic) == Some(("retry-after"@, ""@)),
        table_entry(54, dynamic) == Some(("server"@, ""@)),
        table_entry(55, dynamic) == Some(("set-cookie"@, ""@)),
        table_entry(56, dynamic) == Some(("strict-transport-security"@, ""@)),
        table_entry(57, dynamic) == Some(("transfer-encoding"@, ""@)),
        table_entry(58, dynamic) == Some(("user-agent"@, ""@)),
        table_entry(59, dynamic) == Some(("vary"@, ""@)),
        table_entry(60, dynamic) == Some(("via"@, ""@)),
        table_entry(61, dynamic) == Some(("www-authenticate"@, ""@)),
{
}

/// Looks up a table index. Index 0 and indices past the dynamic table do
/// not exist.
pub fn table_lookup(index: usize, dynamic: &[(String, String)]) -> (e: (String, String))
    requires
        1 <= index,
        index <= 61 || index - 62 < dynamic@.len(),
    ensures
        table_entry(index as int, table_view(dynamic@)) == Some(field_view(e)),
{
    if 1 <= index && index <= 61 {
        let (n, v) = static_entry(index);
        (n.to_owned(), v.to_owned())
    } else {
        let pos = index - 61 - 1;
        (dynamic[pos].0.clone(), dynamic[pos].1.clone())
    }
}

/// Byte length of a text (as `str::len` reports it).
pub open spec fn text_len(s: Seq<char>) -> nat {
    (vstd::utf8::encode_utf8(s).len() as usize) as nat
}

/// Where the literal's name ends and what it is, for a literal at `i`.
pub open spec fn literal_name(wire: Seq<u8>, i: int, dynamic: Seq<(Seq<char>, Seq<char>)>) -> Option<
    (Seq<char>, int),
> {
    match int_decoding(wire.subrange(i, wire.len() as int), 6) {
        None => None,
        Some((ni, c1)) => {
            let j = i + c1;
            if ni == 0 {
                match int_decoding(wire.subrange(j, wire.len() as int), 7) {
                    None => None,
                    Some((len, c2)) => {
                        let k = j + c2;
                        if k + len > wire.len() {
                            None
                        } else {
                            Some((utf8_lossy(wire.subrange(k, k + len)), k + len))
                        }
                    },
                }
            } else {
                match table_entry(ni, dynamic) {
                    None => None,
                    Some(e) => Some((e.0, j)),
                }
            }
        },
    }
}

/// Where the literal's value ends and what it is, for a value at `j`.
pub open spec fn literal_value(wire: Seq<u8>, j: int) -> Option<(Seq<char>, int)> {
    match int_decoding(wire.subrange(j, wire.len() as int), 7) {
        None => None,
        Some((len, c)) => {
            let m = j + c;
            if m + len > wire.len() {
                None
            } else {
                Some((utf8_lossy(wire.subrange(m, m + len)), m + len))
            }
        },
    }
}

/// Decoding from `i` with the dynamic table `dynamic`: the headers, the total
/// bytes of their names and values, and the final dynamic table; `None`
/// where decoding would index out of range, meet a missing table entry or
/// overflow an integer. Indexed fields
/// start with bit 0x80, literals with incremental indexing with 01; any other
/// representation ends decoding.
pub open spec fn decode_from(wire: Seq<u8>, i: int, dynamic: Seq<(Seq<char>, Seq<char>)>) -> Option<
    (Seq<(Seq<char>, Seq<char>)>, int, Seq<(Seq<char>, Seq<char>)>),
>
    decreases wire.len() - i,
{
    if i < 0 || i >= wire.len() {
        Some((Seq::empty(), 0, dynamic))
    } else if wire[i] & 0x80 != 0 {
        match int_decoding(wire.subrange(i, wire.len() as int), 7) {
            None => None,
            Some((index, c)) => if c < 1 || i + c > wire.len() {
                None
            } else {
                match table_entry(index, dynamic) {
                    None => None,
                    Some(h) => match decode_from(wire, i + c, dynamic) {
                        None => None,
                        Some((hs, r, d)) => Some(
                            (seq![h] + hs, text_len(h.0) + text_len(h.1) + r, d),
                        ),
                    },
                }
            },
        }
    } else if wire[i] & 0x40 != 0 {
        match literal_name(wire, i, dynamic) {
            None => None,
            Some((name, j)) => match literal_value(wire, j) {
                None => None,
                Some((value, next)) => if next <= i || next > wire.len() {
                    None
                } else {
                    match decode_from(wire, next, seq![(name, value)] + dynamic) {
                        None => None,
                        Some((hs, r, d)) => Some(
                            (seq![(name, value)] + hs, text_len(name) + text_len(value) + r, d),
                        ),
                    }
                },
            },
        }
    } else {
        Some((Seq::empty(), 0, dynamic))
    }
}

/// `s` repeated `k` times.
pub open spec fn repeat_bytes(s: Seq<u8>, k: nat) -> Seq<u8>
    decreases k,
{
    if k == 0 {
        Seq::empty()
    } else {
        s + repeat_bytes(s, (k - 1) as nat)
    }
}

proof fn lemma_continuation_extend(buf: Seq<u8>, rest: Seq<u8>, pos: int, value: int, shift: int)
    requires
        continuation_decoding(buf, pos, value, shift) is Some,
    ensures
        continuation_decoding(buf + rest, pos, value, shift) == continuation_decoding(
            buf,
            pos,
            value,
            shift,
        ),
    decreases buf.len() - pos,
{
    assert((buf + rest)[pos] == buf[pos]);
    let term = ((buf[pos] & 0x7f) as usize) << (shift as usize);
    if value + term <= usize::MAX && buf[pos] & 0x80 != 0 {
        lemma_continuation_extend(buf, rest, pos + 1, value + term, shift + 7);
    }
}

/// Bytes after a complete integer do not change how it decodes.
proof fn lemma_int_decoding_extend(buf: Seq<u8>, rest: Seq<u8>, prefix_bits: u8)
    requires
        int_decoding(buf, prefix_bits) is Some,
    ensures
        int_decoding(buf + rest, prefix_bits) == int_decoding(buf, prefix_bits),
{
    assert((buf + rest)[0] == buf[0]);
    let v = (buf[0] as usize) & (prefix_max(prefix_bits) as usize);
    if v >= prefix_max(prefix_bits) {
        lemma_continuation_extend(buf, rest, 1, v as int, 0);
    }
}

/// An encoded length followed by anything decodes to that length.
proof fn lemma_length_prefix(len: nat, rest: Seq<u8>)
    requires
        len <= usize::MAX,
    ensures
        int_decoding(int_encoding(len, 7, 0) + rest, 7) == Some(
            (len as int, int_encoding(len, 7, 0).len() as int),
        ),
{
    vstd::arithmetic::power2::lemma2_to64();
    assert(0u8 & (prefix_max(7) as u8) == 0) by (bit_vector);
    integer_roundtrip(len, 7, 0, rest);
}

/// The references that follow position `p.len()` each decode to entry 62.
proof fn lemma_references(
    p: Seq<u8>,
    m: nat,
    h: (Seq<char>, Seq<char>),
    d: Seq<(Seq<char>, Seq<char>)>,
)
    requires
        d.len() > 0,
        d[0] == h,
    ensures
        decode_from(p + repeat_bytes(int_encoding(62, 7, 0x80), m), p.len() as int, d) == Some(
            (Seq::new(m, |_i: int| h), (m * (text_len(h.0) + text_len(h.1))) as int, d),
        ),
    decreases m,
{
    let wire = p + repeat_bytes(int_encoding(62, 7, 0x80), m);
    let i = p.len() as int;
    vstd::arithmetic::power2::lemma2_to64();
    let r = int_encoding(62, 7, 0x80);
    assert(r == seq![0xBEu8]) by {
        assert(prefix_max(7) == 127);
        assert((0x80u8 | (62u8)) == 0xBEu8) by (bit_vector);
    }
    if m == 0 {
        assert(wire =~= p);
        assert(Seq::new(0, |_i: int| h) =~= Seq::<(Seq<char>, Seq<char>)>::empty());
    } else {
        let p2 = p + r;
        assert(wire =~= p2 + repeat_bytes(r, (m - 1) as nat));
        lemma_references(p2, (m - 1) as nat, h, d);
        assert(wire[i] == 0xBEu8);
        assert(0xBEu8 & 0x80 != 0) by (bit_vector);
        assert(wire.subrange(i, wire.len() as int) =~= seq![0xBEu8] + wire.subrange(
            i + 1,
            wire.len() as int,
        ));
        assert(((0xBEu8 as usize) & (127usize)) == 62usize) by (bit_vector);
        assert(int_decoding(wire.subrange(i, wire.len() as int), 7) == Some((62int, 1int)));
        assert(table_entry(62, d) == Some(h));
        let tl = text_len(h.0) + text_len(h.1);
        assert(Seq::new(m, |_i: int| h) =~= seq![h] + Seq::new((m - 1) as nat, |_i: int| h));
        assert(tl + (m - 1) * tl == m * tl) by (nonlinear_arith);
    }
}

/// Amplification: a literal with incremental indexing for a header followed
/// by `k` one-byte indexed references to entry 62 decodes, against any
/// dynamic table, to k + 1 copies of the header, amounting to k + 1 times
/// its name and value bytes, and leaves the header at the front of the
/// table.
pub proof fn amplification(
    name: Seq<u8>,
    value: Seq<u8>,
    k: nat,
    dynamic: Seq<(Seq<char>, Seq<char>)>,
)
    requires
        name.len() <= usize::MAX,
        value.len() <= usize::MAX,
    ensures
        ({
            let h = (utf8_lossy(name), utf8_lossy(value));
            decode_from(
                literal_new_name(name, value) + repeat_bytes(int_encoding(62, 7, 0x80), k),
                0,
                dynamic,
            ) == Some(
                (
                    Seq::new(k + 1, |_i: int| h),
                    ((k + 1) * (text_len(h.0) + text_len(h.1))) as int,
                    seq![h] + dynamic,
                ),
            )
        }),
{
    vstd::arithmetic::power2::lemma2_to64();
    let h = (utf8_lossy(name), utf8_lossy(value));
    let lit = literal_new_name(name, value);
    let refs = repeat_bytes(int_encoding(62, 7, 0x80), k);
    let wire = lit + refs;
    let en = int_encoding(name.len(), 7, 0);
    let ev = int_encoding(value.len(), 7, 0);
    assert((name.len() as usize) as nat == name.len());
    assert((value.len() as usize) as nat == value.len());
    assert(lit =~= seq![0x40u8] + en + name + ev + value);
    // The literal's first byte: no 0x80 bit, the 0x40 bit, and index 0.
    assert(wire[0] == 0x40u8);
    assert(0x40u8 & 0x80 == 0 && 0x40u8 & 0x40 != 0) by (bit_vector);
    assert(((0x40u8 as usize) & (63usize)) == 0usize) by (bit_vector);
    assert(prefix_max(6) == 63);
    assert(int_decoding(wire.subrange(0, wire.len() as int), 6) == Some((0int, 1int)));
    // The name: its length, then its bytes.
    let j = 1int;
    assert(wire.subrange(j, wire.len() as int) =~= en + (name + ev + value + refs));
    lemma_length_prefix(name.len(), name + ev + value + refs);
    let kk = j + en.len();
    assert(wire.subrange(kk, kk + name.len()) =~= name);
    assert(literal_name(wire, 0, dynamic) == Some((h.0, kk + name.len())));
    // The value: its length, then its bytes.
    let j2 = kk + name.len();
    assert(wire.subrange(j2, wire.len() as int) =~= ev + (value + refs));
    lemma_length_prefix(value.len(), value + refs);
    let mm = j2 + ev.len();
    assert(wire.subrange(mm, mm + value.len()) =~= value);
    let next = mm + value.len();
    assert(literal_value(wire, j2) == Some((h.1, next)));
    assert(next == lit.len());
    // Then the references against the table with the header in front.
    let d = seq![h] + dynamic;
    lemma_references(lit, k, h, d);
    let tl = text_len(h.0) + text_len(h.1);
    assert(seq![h] + Seq::new(k, |_i: int| h) =~= Seq::new(k + 1, |_i: int| h));
    assert(tl + k * tl == (k + 1) * tl) by (nonlinear_arith);
}

} // verus!

verus! {

/// Index validity of the combined table with `dlen` dynamic entries.
pub open spec fn index_exists(index: int, dlen: nat) -> bool {
    1 <= index && (index <= 61 || index - 62 < dlen)
}

pub open spec fn literal_name_end(wire: Seq<u8>, i: int, dlen: nat) -> Option<int> {
    match int_decoding(wire.subrange(i, wire.len() as int), 6) {
        None => None,
        Some((ni, c1)) => {
            let j = i + c1;
            if ni == 0 {
                match int_decoding(wire.subrange(j, wire.len() as int), 7) {
                    None => None,
                    Some((len, c2)) => {
                        let k = j + c2;
                        if k + len > wire.len() {
                            None
                        } else {
                            Some(k + len)
                        }
                    },
                }
            } else if index_exists(ni, dlen) {
                Some(j)
            } else {
                None
            }
        },
    }
}

pub open spec fn literal_value_end(wire: Seq<u8>, j: int) -> Option<int> {
    match int_decoding(wire.subrange(j, wire.len() as int), 7) {
        None => None,
        Some((len, c)) => {
            let m = j + c;
            if m + len > wire.len() {
                None
            } else {
                Some(m + len)
            }
        },
    }
}

/// Decoding from `i` with `dlen` dynamic entries never indexes out of range,
/// never refers to a missing table entry and never overflows an integer.
pub open spec fn decode_ok(wire: Seq<u8>, i: int, dlen: nat) -> bool
    decreases wire.len() - i,
{
    if i < 0 || i >= wire.len() {
        true
    } else if wire[i] & 0x80 != 0 {
        match int_decoding(wire.subrange(i, wire.len() as int), 7) {
            None => false,
            Some((index, c)) => c >= 1 && i + c <= wire.len() && index_exists(index, dlen)
                && decode_ok(wire, i + c, dlen),
        }
    } else if wire[i] & 0x40 != 0 {
        match literal_name_end(wire, i, dlen) {
            None => false,
            Some(j) => match literal_value_end(wire, j) {
                None => false,
                Some(next) => next > i && next <= wire.len() && decode_ok(wire, next, dlen + 1),
            },
        }
    } else {
        true
    }
}

/// Whether `decode` can decode `wire` with `dlen` entries in the dynamic
/// table, as `decode_ok` says.
pub fn decodable(wire: &[u8], dlen: usize) -> (b: bool)
    requires
        dlen + wire@.len() <= usize::MAX,
    ensures
        b == decode_ok(wire@, 0, dlen as nat),
{
    let mut i: usize = 0;
    let mut d: usize = dlen;
    loop
        invariant
            i <= wire@.len(),
            dlen <= d <= dlen + i,
            dlen + wire@.len() <= usize::MAX,
            decode_ok(wire@, 0, dlen as nat) == decode_ok(wire@, i as int, d as nat),
        decreases wire@.len() - i,
    {
        if i >= wire.len() {
            return true;
        }
        let ghost rest = wire@.subrange(i as int, wire@.len() as int);
        let b = wire[i];
        if b & 0x80 != 0 {
            match try_decode_integer(&wire[i..wire.len()], 7) {
                None => {
                    return false;
                },
                Some((index, c)) => {
                    if !(1 <= index && (index <= 61 || index - 62 < d)) {
                        return false;
                    }
                    i = i + c;
                },
            }
        } else if b & 0x40 != 0 {
            let name_end: usize = match try_decode_integer(&wire[i..wire.len()], 6) {
                None => {
                    return false;
                },
                Some((ni, c1)) => {
                    let j = i + c1;
                    if ni == 0 {
                        match try_decode_integer(&wire[j..wire.len()], 7) {
                            None => {
                                return false;
                            },
                            Some((len, c2)) => {
                                let k = j + c2;
                                if len > wire.len() - k {
                                    return false;
                                }
                                k + len
                            },
                        }
                    } else if 1 <= ni && (ni <= 61 || ni - 62 < d) {
                        j
                    } else {
                        return false;
                    }
                },
            };
            assert(literal_name_end(wire@, i as int, d as nat) == Some(name_end as int));
            let next: usize = match try_decode_integer(&wire[name_end..wire.len()], 7) {
                None => {
                    return false;
                },
                Some((len, c)) => {
                    let m = name_end + c;
                    if len > wire.len() - m {
                        return false;
                    }
                    m + len
                },
            };
            assert(literal_value_end(wire@, name_end as int) == Some(next as int));
            if !(next > i && next <= wire.len()) {
                return false;
            }
            i = next;
            d = d + 1;
        } else {
            return true;
        }
    }
}

proof fn lemma_decode_ok(wire: Seq<u8>, i: int, dynamic: Seq<(Seq<char>, Seq<char>)>)
    requires
        decode_ok(wire, i, dynamic.len()),
    ensures
        decode_from(wire, i, dynamic) is Some,
    decreases wire.len() - i,
{
    if 0 <= i < wire.len() {
        if wire[i] & 0x80 != 0 {
            let (index, c) = int_decoding(wire.subrange(i, wire.len() as int), 7)->Some_0;
            lemma_decode_ok(wire, i + c, dynamic);
        } else if wire[i] & 0x40 != 0 {
            let j = literal_name_end(wire, i, dynamic.len())->Some_0;
            let next = literal_value_end(wire, j)->Some_0;
            let (name, j2) = literal_name(wire, i, dynamic)->Some_0;
            let (value, n2) = literal_value(wire, j)->Some_0;
            lemma_decode_ok(wire, next, seq![(name, value)] + dynamic);
        }
    }
}

proof fn lemma_wrapping_accumulate(total: int, y: int, m: int)
    requires
        m > 0,
        total >= 0,
        0 <= y < m,
    ensures
        (if total % m + y >= m {
            total % m + y - m
        } else {
            total % m + y
        }) == (total + y) % m,
{
    vstd::arithmetic::div_mod::lemma_add_mod_noop(total, y, m);
    vstd::arithmetic::div_mod::lemma_small_mod(y as nat, m as nat);
    let s = total % m + y;
    assert(0 <= total % m < m) by {
        vstd::arithmetic::div_mod::lemma_mod_pos_bound(total, m);
    }
    if s >= m {
        vstd::arithmetic::div_mod::lemma_mod_add_multiples_vanish(s - m, m);
        vstd::arithmetic::div_mod::lemma_small_mod((s - m) as nat, m as nat);
    } else {
        vstd::arithmetic::div_mod::lemma_small_mod(s as nat, m as nat);
    }
}

fn wrapping_accumulate(acc: usize, y: usize, Ghost(total): Ghost<int>) -> (r: usize)
    requires
        total >= 0,
        acc == total % (usize::MAX + 1),
    ensures
        r == (total + y) % (usize::MAX + 1),
{
    proof {
        lemma_wrapping_accumulate(total, y as int, usize::MAX + 1);
    }
    acc.wrapping_add(y)
}

fn indexed_step(wire: &[u8], i: usize, dynamic: &Vec<(String, String)>) -> (r: (
    (String, String),
    usize,
))
    requires
        i < wire@.len(),
        wire@[i as int] & 0x80 != 0,
        decode_ok(wire@, i as int, dynamic@.len()),
    ensures
        ({
            let (index, c) = int_decoding(wire@.subrange(i as int, wire@.len() as int), 7)->Some_0;
            &&& r.1 == i + c
            &&& Some(field_view(r.0)) == table_entry(index, table_view(dynamic@))
            &&& decode_ok(wire@, r.1 as int, dynamic@.len())
            &&& decode_from(wire@, i as int, table_view(dynamic@)) == match decode_from(
                wire@,
                r.1 as int,
                table_view(dynamic@),
            ) {
                Some((hs, rr, d)) => Some(
                    (
                        seq![field_view(r.0)] + hs,
                        text_len(field_view(r.0).0) + text_len(field_view(r.0).1) + rr,
                        d,
                    ),
                ),
                None => None,
            }
        }),
{
    let (index, consumed) = decode_integer(&wire[i..wire.len()], 7);
    let h = table_lookup(index, dynamic.as_slice());
    (h, i + consumed)
}

fn literal_step(wire: &[u8], i: usize, dynamic: &mut Vec<(String, String)>) -> (r: (
    (String, String),
    usize,
))
    requires
        i < wire@.len(),
        wire@[i as int] & 0x80 == 0,
        wire@[i as int] & 0x40 != 0,
        decode_ok(wire@, i as int, old(dynamic)@.len()),
    ensures
        ({
            let (name, j) = literal_name(wire@, i as int, table_view(old(dynamic)@))->Some_0;
            let (value, next) = literal_value(wire@, j)->Some_0;
            &&& field_view(r.0) == (name, value)
            &&& r.1 == next
            &&& table_view(final(dynamic)@) == seq![(name, value)] + table_view(old(dynamic)@)
            &&& decode_ok(wire@, r.1 as int, final(dynamic)@.len())
            &&& decode_from(wire@, i as int, table_view(old(dynamic)@)) == match decode_from(
                wire@,
                r.1 as int,
                table_view(final(dynamic)@),
            ) {
                Some((hs, rr, d)) => Some(
                    (seq![(name, value)] + hs, text_len(name) + text_len(value) + rr, d),
                ),
                None => None,
            }
        }),
{
    let (name_index, c1) = decode_integer(&wire[i..wire.len()], 6);
    let mut j = i + c1;
    let name = if name_index == 0 {
        let (len, c2) = decode_integer(&wire[j..wire.len()], 7);
        let k = j + c2;
        let s = from_utf8_lossy(&wire[k..k + len]);
        j = k + len;
        s
    } else {
        let e = table_lookup(name_index, dynamic.as_slice());
        e.0
    };
    let (vlen, c3) = decode_integer(&wire[j..wire.len()], 7);
    let m = j + c3;
    let value = from_utf8_lossy(&wire[m..m + vlen]);
    let next = m + vlen;
    let entry = (name.clone(), value.clone());
    let ghost old_dyn = dynamic@;
    dynamic.insert(0, entry);
    proof {
        assert(table_view(dynamic@) =~= seq![field_view((name, value))] + table_view(old_dyn));
    }
    ((name, value), next)
}

/// Decodes an HPACK block against the dynamic table `dynamic`, adding each
/// literal with incremental indexing at the front of the table. Returns the
/// headers and how many name and value bytes they amount to (the memory a
/// server must build; the count wraps at the word size, which no real
/// header list reaches). Decoding stops at a representation other than
/// indexed fields and literals with incremental indexing.
pub fn decode(wire: &[u8], dynamic: &mut Vec<(String, String)>) -> (r: (
    Vec<(String, String)>,
    usize,
))
    requires
        decode_ok(wire@, 0, old(dynamic)@.len()),
    ensures
        ({
            let res = decode_from(wire@, 0, table_view(old(dynamic)@))->Some_0;
            &&& table_view(r.0@) == res.0
            &&& r.1 == res.1 % (usize::MAX + 1)
            &&& table_view(final(dynamic)@) == res.2
        }),
{
    proof {
        lemma_decode_ok(wire@, 0, table_view(dynamic@));
    }
    let ghost d0 = table_view(dynamic@);
    let ghost full = decode_from(wire@, 0, d0);
    let mut headers: Vec<(String, String)> = Vec::new();
    let mut reconstructed: usize = 0;
    let ghost mut total: int = 0;
    let mut i: usize = 0;
    assert(table_view(headers@) =~= Seq::<(Seq<char>, Seq<char>)>::empty());
    loop
        invariant
            i <= wire@.len(),
            decode_ok(wire@, i as int, dynamic@.len()),
            total >= 0,
            reconstructed == total % (usize::MAX + 1),
            full == (match decode_from(wire@, i as int, table_view(dynamic@)) {
                Some((hs, rr, d)) => Some((table_view(headers@) + hs, total + rr, d)),
                None => None,
            }),
        ensures
            full == Some((table_view(headers@), total, table_view(dynamic@))),
            reconstructed == total % (usize::MAX + 1),
        decreases wire@.len() - i,
    {
        proof {
            lemma_decode_ok(wire@, i as int, table_view(dynamic@));
        }
        if i >= wire.len() {
            assert(table_view(headers@) + Seq::empty() =~= table_view(headers@));
            break;
        }
        let b = wire[i];
        let ghost hv = table_view(headers@);
        let (h, next) = if b & 0x80 != 0 {
            indexed_step(wire, i, dynamic)
        } else if b & 0x40 != 0 {
            literal_step(wire, i, dynamic)
        } else {
            assert(table_view(headers@) + Seq::empty() =~= table_view(headers@));
            break;
        };
        let ghost fv = field_view(h);
        let name_len = h.0.as_str().len();
        let value_len = h.1.as_str().len();
        reconstructed = wrapping_accumulate(reconstructed, name_len, Ghost(total));
        proof {
            total = total + name_len;
        }
        reconstructed = wrapping_accumulate(reconstructed, value_len, Ghost(total));
        proof {
            total = total + value_len;
        }
        headers.push(h);
        proof {
            assert(table_view(headers@) =~= hv.push(fv));
            let rest = decode_from(wire@, next as int, table_view(dynamic@))->Some_0;
            assert(hv + (seq![fv] + rest.0) =~= hv.push(fv) + rest.0);
        }
        i = next;
    }
    (headers, reconstructed)
}

} // verus!
