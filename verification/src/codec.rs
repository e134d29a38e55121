//! Binary codec: fixed-width integers with explicit endianness,
//! length-prefixed strings, and 128-bit identifiers, written to and read
//! from in-memory byte buffers.
//!
//! Readers take the buffer and a position and return the decoded value with
//! the position just past it, or nothing on truncation; every reader has a
//! specification-level twin, and reading back what was written yields the
//! written value.

use vstd::prelude::*;

use vstd::utf8::{decode_utf8, encode_utf8, valid_utf8};

verus! {

broadcast use vstd::utf8::encode_utf8_valid_utf8, vstd::utf8::encode_utf8_decode_utf8;

/// The two bytes of `n` in little-endian order.
pub open spec fn le16(n: u16) -> Seq<u8> {
    seq![(n & 0xff) as u8, ((n >> 8) & 0xff) as u8]
}

/// The two bytes of `n` in big-endian order.
pub open spec fn be16(n: u16) -> Seq<u8> {
    seq![((n >> 8) & 0xff) as u8, (n & 0xff) as u8]
}

/// The four bytes of `n` in little-endian order.
pub open spec fn le32(n: u32) -> Seq<u8> {
    seq![
        (n & 0xff) as u8,
        ((n >> 8) & 0xff) as u8,
        ((n >> 16) & 0xff) as u8,
        ((n >> 24) & 0xff) as u8,
    ]
}

/// The four bytes of `n` in little-endian two's-complement order.
pub open spec fn le32i(n: i32) -> Seq<u8> {
    le32(n as u32)
}

/// The sixteen bytes of an identifier, most significant first.
pub open spec fn ide(n: u128) -> Seq<u8> {
    Seq::new(16, |i: int| ((n >> (((15 - i) * 8) as u128)) & 0xff) as u8)
}

/// A length-prefixed string: four little-endian length bytes, then the
/// UTF-8 encoding of the text.
pub open spec fn str32(s: Seq<char>) -> Seq<u8> {
    le32(encode_utf8(s).len() as u32) + encode_utf8(s)
}

// ------------------------------------------------------------- writers

/// Appends one byte.
pub fn push_u8(out: &mut Vec<u8>, n: u8)
    ensures
        final(out)@ == old(out)@ + seq![n],
{
    out.push(n);
    assert(out@ =~= old(out)@ + seq![n]);
}

/// Appends `n` in little-endian order.
pub fn push_u16_le(out: &mut Vec<u8>, n: u16)
    ensures
        final(out)@ == old(out)@ + le16(n),
{
    out.push((n & 0xff) as u8);
    out.push(((n >> 8) & 0xff) as u8);
    assert(out@ =~= old(out)@ + le16(n));
}

/// Appends `n` in big-endian order.
pub fn push_u16_be(out: &mut Vec<u8>, n: u16)
    ensures
        final(out)@ == old(out)@ + be16(n),
{
    out.push(((n >> 8) & 0xff) as u8);
    out.push((n & 0xff) as u8);
    assert(out@ =~= old(out)@ + be16(n));
}

/// Appends `n` in little-endian order.
pub fn push_u32_le(out: &mut Vec<u8>, n: u32)
    ensures
        final(out)@ == old(out)@ + le32(n),
{
    out.push((n & 0xff) as u8);
    out.push(((n >> 8) & 0xff) as u8);
    out.push(((n >> 16) & 0xff) as u8);
    out.push(((n >> 24) & 0xff) as u8);
    assert(out@ =~= old(out)@ + le32(n));
}

/// Appends `n` as four little-endian two's-complement bytes.
pub fn push_i32_le(out: &mut Vec<u8>, n: i32)
    ensures
        final(out)@ == old(out)@ + le32i(n),
{
    push_u32_le(out, n as u32);
}

/// Appends an identifier as exactly sixteen raw bytes, most significant
/// first.
pub fn push_id(out: &mut Vec<u8>, n: u128)
    ensures
        final(out)@ == old(out)@ + ide(n),
{
    let mut k: usize = 0;
    while k < 16
        invariant
            0 <= k <= 16,
            out@ == old(out)@ + ide(n).take(k as int),
        decreases 16 - k,
    {
        let shift: u128 = (15 - k as u128) * 8;
        out.push(((n >> shift) & 0xff) as u8);
        proof {
            assert(ide(n).take(k + 1) =~= ide(n).take(k as int).push(ide(n)[k as int]));
            assert(out@ =~= old(out)@ + ide(n).take(k + 1));
        }
        k = k + 1;
    }
    proof {
        assert(ide(n).take(16) =~= ide(n));
    }
}

/// Appends the bytes of `b`.
pub fn push_bytes(out: &mut Vec<u8>, b: &Vec<u8>)
    ensures
        final(out)@ == old(out)@ + b@,
{
    let mut k: usize = 0;
    while k < b.len()
        invariant
            0 <= k <= b@.len(),
            out@ == old(out)@ + b@.take(k as int),
        decreases b@.len() - k,
    {
        out.push(b[k]);
        proof {
            assert(b@.take(k + 1) =~= b@.take(k as int).push(b@[k as int]));
            assert(out@ =~= old(out)@ + b@.take(k + 1));
        }
        k = k + 1;
    }
    proof {
        assert(b@.take(b@.len() as int) =~= b@);
    }
}

/// Appends a length-prefixed string.  The length must fit the four-byte
/// prefix; `str_fits32` checks that bound.
pub fn push_str32(out: &mut Vec<u8>, s: &String)
    requires
        encode_utf8(s@).len() <= u32::MAX,
    ensures
        final(out)@ == old(out)@ + str32(s@),
{
    let bytes = s.as_str().as_bytes_vec();
    push_u32_le(out, bytes.len() as u32);
    push_bytes(out, &bytes);
    assert(out@ =~= old(out)@ + str32(s@));
}

/// Whether a text's UTF-8 encoding fits a four-byte length prefix.
pub fn str_fits32(s: &String) -> (r: bool)
    ensures
        r == (encode_utf8(s@).len() <= u32::MAX),
{
    let bytes = s.as_str().as_bytes_vec();
    bytes.len() as u64 <= u32::MAX as u64
}

/// Whether a text's UTF-8 encoding fits a two-byte length prefix.
pub fn str_fits16(s: &String) -> (r: bool)
    ensures
        r == (encode_utf8(s@).len() <= u16::MAX),
{
    let bytes = s.as_str().as_bytes_vec();
    bytes.len() <= u16::MAX as usize
}

// ------------------------------------------------------------- readers

/// Reads one byte.
pub open spec fn rd_u8(b: Seq<u8>, p: int) -> Option<(u8, int)> {
    if 0 <= p && p + 1 <= b.len() {
        Some((b[p], p + 1))
    } else {
        None
    }
}

/// Reads two little-endian bytes.
pub open spec fn rd_u16_le(b: Seq<u8>, p: int) -> Option<(u16, int)> {
    if 0 <= p && p + 2 <= b.len() {
        Some(((b[p] as u16 + (b[p + 1] as u16) * 0x100) as u16, p + 2))
    } else {
        None
    }
}

/// Reads four little-endian bytes.
pub open spec fn rd_u32_le(b: Seq<u8>, p: int) -> Option<(u32, int)> {
    if 0 <= p && p + 4 <= b.len() {
        Some(
            (
                (b[p] as u32 + (b[p + 1] as u32) * 0x100 + (b[p + 2] as u32) * 0x10000 + (b[p
                    + 3] as u32) * 0x1000000) as u32,
                p + 4,
            ),
        )
    } else {
        None
    }
}

/// Reads four little-endian bytes as a signed value.
pub open spec fn rd_i32_le(b: Seq<u8>, p: int) -> Option<(i32, int)> {
    match rd_u32_le(b, p) {
        Some((n, q)) => Some((n as i32, q)),
        _ => None,
    }
}

/// Reads sixteen raw bytes as an identifier, most significant first.
pub open spec fn rd_id(b: Seq<u8>, p: int) -> Option<(u128, int)> {
    if 0 <= p && p + 16 <= b.len() {
        Some((id_of_bytes(b.subrange(p, p + 16)), p + 16))
    } else {
        None
    }
}

/// The identifier sixteen big-endian bytes denote.
pub open spec fn id_of_bytes(b: Seq<u8>) -> u128 {
    partial_id(b, 16)
}

/// What `String::from_utf8_lossy` makes of a byte sequence: a function of
/// the bytes alone.
pub uninterp spec fn lossy_chars(b: Seq<u8>) -> Seq<char>;

/// Relies on String::from_utf8_lossy (and Cow::into_owned, a conversion):
/// the result depends on the bytes alone, and bytes that are valid UTF-8
/// decode to the text they encode.
#[verifier::external_body]
fn string_from_bytes_lossy(v: &Vec<u8>) -> (r: String)
    ensures
        r@ == lossy_chars(v@),
        valid_utf8(v@) ==> r@ == decode_utf8(v@),
{
    String::from_utf8_lossy(v).into_owned()
}

/// Reads a length-prefixed string: four little-endian length bytes, then
/// that many bytes of text, decoded permissively.
pub open spec fn rd_str32(b: Seq<u8>, p: int) -> Option<(Seq<char>, int)> {
    match rd_u32_le(b, p) {
        Some((len, q)) => {
            if q + len <= b.len() {
                let sub = b.subrange(q, q + len);
                if valid_utf8(sub) {
                    Some((decode_utf8(sub), q + len))
                } else {
                    Some((lossy_chars(sub), q + len))
                }
            } else {
                None
            }
        },
        _ => None,
    }
}

/// Reads one byte.
pub fn read_u8(b: &Vec<u8>, p: usize) -> (r: Option<(u8, usize)>)
    ensures
        match r {
            Some((v, q)) => rd_u8(b@, p as int) == Some((v, q as int)),
            _ => rd_u8(b@, p as int) is None,
        },
{
    if p < b.len() {
        Some((b[p], p + 1))
    } else {
        None
    }
}

/// Reads two little-endian bytes.
pub fn read_u16_le(b: &Vec<u8>, p: usize) -> (r: Option<(u16, usize)>)
    ensures
        match r {
            Some((v, q)) => rd_u16_le(b@, p as int) == Some((v, q as int)),
            _ => rd_u16_le(b@, p as int) is None,
        },
{
    if p < b.len() && 2 <= b.len() - p {
        let v = b[p] as u16 + (b[p + 1] as u16) * 0x100;
        Some((v, p + 2))
    } else {
        None
    }
}

/// Reads four little-endian bytes.
pub fn read_u32_le(b: &Vec<u8>, p: usize) -> (r: Option<(u32, usize)>)
    ensures
        match r {
            Some((v, q)) => rd_u32_le(b@, p as int) == Some((v, q as int)),
            _ => rd_u32_le(b@, p as int) is None,
        },
{
    if p < b.len() && 4 <= b.len() - p {
        let v = b[p] as u32 + (b[p + 1] as u32) * 0x100 + (b[p + 2] as u32) * 0x10000 + (b[p
            + 3] as u32) * 0x1000000;
        Some((v, p + 4))
    } else {
        None
    }
}

/// Reads four little-endian bytes as a signed value.
pub fn read_i32_le(b: &Vec<u8>, p: usize) -> (r: Option<(i32, usize)>)
    ensures
        match r {
            Some((v, q)) => rd_i32_le(b@, p as int) == Some((v, q as int)),
            _ => rd_i32_le(b@, p as int) is None,
        },
{
    match read_u32_le(b, p) {
        Some((n, q)) => Some((n as i32, q)),
        _ => None,
    }
}

/// Reads sixteen raw bytes as an identifier.
pub fn read_id(b: &Vec<u8>, p: usize) -> (r: Option<(u128, usize)>)
    ensures
        match r {
            Some((v, q)) => rd_id(b@, p as int) == Some((v, q as int)),
            _ => rd_id(b@, p as int) is None,
        },
{
    if p < b.len() && 16 <= b.len() - p {
        let mut acc: u128 = 0;
        let mut k: usize = 0;
        while k < 16
            invariant
                0 <= k <= 16,
                p + 16 <= b@.len(),
                b@.len() <= usize::MAX,
                acc == partial_id(b@.subrange(p as int, p + 16), k as int),
            decreases 16 - k,
        {
            acc = (acc << 8) | (b[p + k] as u128);
            proof {
                assert(b@.subrange(p as int, p + 16)[k as int] == b@[p + k]);
            }
            k = k + 1;
        }
        Some((acc, p + 16))
    } else {
        None
    }
}

/// The identifier denoted by the first `k` bytes of a sixteen-byte group.
pub open spec fn partial_id(b: Seq<u8>, k: int) -> u128
    decreases k,
{
    if k <= 0 {
        0
    } else {
        (partial_id(b, k - 1) << 8) | (b[k - 1] as u128)
    }
}

/// The first `k` bytes of an identifier's sixteen decode to its top `k`
/// bytes.
proof fn lemma_ide_partial(n: u128, k: int)
    requires
        1 <= k <= 16,
    ensures
        partial_id(ide(n), k) == n >> (((16 - k) * 8) as u128),
    decreases k,
{
    let s = ide(n);
    if k == 1 {
        assert(s[0] == ((n >> 120u128) & 0xff) as u8);
        assert(partial_id(s, 1) == (partial_id(s, 0) << 8u128) | (s[0] as u128));
        assert((0u128 << 8u128) | ((((n >> 120u128) & 0xff) as u8) as u128) == n >> 120u128)
            by (bit_vector);
    } else {
        lemma_ide_partial(n, k - 1);
        let t = ((16 - k) * 8) as u128;
        let h = ((17 - k) * 8) as u128;
        assert(s[k - 1] == ((n >> t) & 0xff) as u8);
        assert((((n >> t) & 0xff) as u8) as u128 == (n >> t) & 0xff) by (bit_vector);
        assert(((n >> h) << 8u128) | ((n >> t) & 0xff) == n >> t) by (bit_vector)
            requires
                t <= 112 && h == t + 8,
        ;
        assert(partial_id(s, k) == (partial_id(s, k - 1) << 8u128) | (s[k - 1] as u128));
    }
}

/// Reads a length-prefixed string.
pub fn read_str32(b: &Vec<u8>, p: usize) -> (r: Option<(String, usize)>)
    ensures
        match r {
            Some((v, q)) => rd_str32(b@, p as int) == Some((v@, q as int)),
            _ => rd_str32(b@, p as int) is None,
        },
{
    match read_u32_le(b, p) {
        Some((len, q)) => {
            if (len as usize) <= b.len() && q <= b.len() - (len as usize) {
                let mut sub: Vec<u8> = Vec::new();
                let mut k: usize = 0;
                while k < len as usize
                    invariant
                        0 <= k <= len,
                        q + len <= b@.len(),
                        b@.len() <= usize::MAX,
                        sub@ == b@.subrange(q as int, q + k as int),
                    decreases len as usize - k,
                {
                    sub.push(b[q + k]);
                    proof {
                        assert(b@.subrange(q as int, q + k + 1) =~= b@.subrange(
                            q as int,
                            q + k as int,
                        ).push(b@[q + k]));
                    }
                    k = k + 1;
                }
                let s = string_from_bytes_lossy(&sub);
                Some((s, q + len as usize))
            } else {
                None
            }
        },
        _ => None,
    }
}

// --------------------------------------------------------- round trips

/// Reading a little-endian pair back from where it was written yields the
/// written value.
pub proof fn lemma_rd_le16(pre: Seq<u8>, n: u16, rest: Seq<u8>)
    ensures
        rd_u16_le(pre + le16(n) + rest, pre.len() as int) == Some(
            (n, pre.len() as int + 2),
        ),
{
    let b = pre + le16(n) + rest;
    let p = pre.len() as int;
    assert(b[p] == (n & 0xff) as u8);
    assert(b[p + 1] == ((n >> 8) & 0xff) as u8);
    assert((n & 0xff) as u8 as u16 + (((n >> 8) & 0xff) as u8 as u16) * 0x100 == n)
        by (bit_vector);
}

/// Reading four little-endian bytes back yields the written value.
pub proof fn lemma_rd_le32(pre: Seq<u8>, n: u32, rest: Seq<u8>)
    ensures
        rd_u32_le(pre + le32(n) + rest, pre.len() as int) == Some(
            (n, pre.len() as int + 4),
        ),
{
    let b = pre + le32(n) + rest;
    let p = pre.len() as int;
    assert(b[p] == (n & 0xff) as u8);
    assert(b[p + 1] == ((n >> 8) & 0xff) as u8);
    assert(b[p + 2] == ((n >> 16) & 0xff) as u8);
    assert(b[p + 3] == ((n >> 24) & 0xff) as u8);
    assert((n & 0xff) as u8 as u32 + (((n >> 8) & 0xff) as u8 as u32) * 0x100 + (((n >> 16)
        & 0xff) as u8 as u32) * 0x10000 + (((n >> 24) & 0xff) as u8 as u32) * 0x1000000 == n)
        by (bit_vector);
}

/// Reading a signed value back yields the written value.
pub proof fn lemma_rd_le32i(pre: Seq<u8>, n: i32, rest: Seq<u8>)
    ensures
        rd_i32_le(pre + le32i(n) + rest, pre.len() as int) == Some(
            (n, pre.len() as int + 4),
        ),
{
    lemma_rd_le32(pre, n as u32, rest);
    assert((n as u32) as i32 == n) by (bit_vector);
}

/// Reading an identifier back yields the written value.
pub proof fn lemma_rd_id(pre: Seq<u8>, n: u128, rest: Seq<u8>)
    ensures
        rd_id(pre + ide(n) + rest, pre.len() as int) == Some((n, pre.len() as int + 16)),
{
    let b = pre + ide(n) + rest;
    let p = pre.len() as int;
    assert(b.subrange(p, p + 16) =~= ide(n));
    lemma_ide_partial(n, 16);
    assert(n >> 0u128 == n) by (bit_vector);
}

/// Reading a length-prefixed string back yields the written text.
pub proof fn lemma_rd_str32(pre: Seq<u8>, s: Seq<char>, rest: Seq<u8>)
    requires
        encode_utf8(s).len() <= u32::MAX,
    ensures
        rd_str32(pre + str32(s) + rest, pre.len() as int) == Some(
            (s, pre.len() as int + str32(s).len()),
        ),
{
    let bytes = encode_utf8(s);
    let n = bytes.len() as u32;
    assert(pre + str32(s) + rest =~= pre + le32(n) + (bytes + rest));
    lemma_rd_le32(pre, n, bytes + rest);
    let b = pre + str32(s) + rest;
    let q = pre.len() + 4;
    assert(b.subrange(q as int, q + n) =~= bytes);
    assert(valid_utf8(bytes));
    assert(decode_utf8(bytes) == s);
}

} // verus!
