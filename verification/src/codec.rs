//! Big-endian encoding of the fixed-width integers that the record formats use.
use vstd::prelude::*;
use byteorder::{BigEndian, ByteOrder};

verus! {

/// The four bytes of `n`, most significant first.
pub open spec fn be_bytes_u32(n: u32) -> Seq<u8> {
    seq![(n >> 24u32) as u8, (n >> 16u32) as u8, (n >> 8u32) as u8, n as u8]
}

/// The eight bytes of `n`, most significant first.
pub open spec fn be_bytes_u64(n: u64) -> Seq<u8> {
    seq![
        (n >> 56u64) as u8, (n >> 48u64) as u8, (n >> 40u64) as u8, (n >> 32u64) as u8,
        (n >> 24u64) as u8, (n >> 16u64) as u8, (n >> 8u64) as u8, n as u8,
    ]
}

/// The eight bytes of `n` in two's complement, most significant first.
pub open spec fn be_bytes_i64(n: i64) -> Seq<u8> {
    be_bytes_u64(n as u64)
}

/// The number whose big-endian bytes are the first four of `b`.
pub open spec fn be_value_u32(b: Seq<u8>) -> u32
    recommends
        b.len() >= 4,
{
    ((b[0] as u32) << 24u32) | ((b[1] as u32) << 16u32) | ((b[2] as u32) << 8u32) | (b[3] as u32)
}

/// The number whose big-endian bytes are the first eight of `b`.
pub open spec fn be_value_u64(b: Seq<u8>) -> u64
    recommends
        b.len() >= 8,
{
    ((b[0] as u64) << 56u64) | ((b[1] as u64) << 48u64) | ((b[2] as u64) << 40u64) | ((b[3] as u64)
        << 32u64) | ((b[4] as u64) << 24u64) | ((b[5] as u64) << 16u64) | ((b[6] as u64) << 8u64)
        | (b[7] as u64)
}

/// The signed number whose two's complement big-endian bytes are the first eight of `b`.
pub open spec fn be_value_i64(b: Seq<u8>) -> i64
    recommends
        b.len() >= 8,
{
    be_value_u64(b) as i64
}

/// `byteorder::BigEndian::write_u32`: stores the four big-endian bytes of `n`.
#[verifier::external_body]
pub(crate) fn encode_u32(n: u32) -> (r: Vec<u8>)
    ensures
        r@ == be_bytes_u32(n),
{
    let mut buf = vec![0u8; 4];
    BigEndian::write_u32(&mut buf, n);
    buf
}

/// `byteorder::BigEndian::write_u64`: stores the eight big-endian bytes of `n`.
#[verifier::external_body]
pub(crate) fn encode_u64(n: u64) -> (r: Vec<u8>)
    ensures
        r@ == be_bytes_u64(n),
{
    let mut buf = vec![0u8; 8];
    BigEndian::write_u64(&mut buf, n);
    buf
}

/// `byteorder::BigEndian::write_i64`: stores the eight big-endian bytes of `n` in two's
/// complement, which is `write_u64` of `n as u64`.
#[verifier::external_body]
pub(crate) fn encode_i64(n: i64) -> (r: Vec<u8>)
    ensures
        r@ == be_bytes_i64(n),
{
    let mut buf = vec![0u8; 8];
    BigEndian::write_i64(&mut buf, n);
    buf
}

/// `byteorder::BigEndian::read_u32`: the number whose big-endian bytes are the first four
/// of `buf` (it panics on a shorter slice, which `requires` rules out).
#[verifier::external_body]
pub(crate) fn decode_u32(buf: &[u8]) -> (r: u32)
    requires
        buf@.len() >= 4,
    ensures
        r == be_value_u32(buf@),
{
    BigEndian::read_u32(buf)
}

/// `byteorder::BigEndian::read_u64`: the number whose big-endian bytes are the first eight
/// of `buf` (it panics on a shorter slice, which `requires` rules out).
#[verifier::external_body]
pub(crate) fn decode_u64(buf: &[u8]) -> (r: u64)
    requires
        buf@.len() >= 8,
    ensures
        r == be_value_u64(buf@),
{
    BigEndian::read_u64(buf)
}

/// `byteorder::BigEndian::read_i64`: `read_u64` of the first eight bytes, taken as a two's
/// complement number (it panics on a shorter slice, which `requires` rules out).
#[verifier::external_body]
pub(crate) fn decode_i64(buf: &[u8]) -> (r: i64)
    requires
        buf@.len() >= 8,
    ensures
        r == be_value_i64(buf@),
{
    BigEndian::read_i64(buf)
}

/// Decoding the big-endian bytes of a `u32` gives the number back.
pub proof fn lemma_u32_roundtrip(n: u32)
    ensures
        be_bytes_u32(n).len() == 4,
        be_value_u32(be_bytes_u32(n)) == n,
{
    let b = be_bytes_u32(n);
    let (b0, b1, b2, b3) = (b[0], b[1], b[2], b[3]);
    assert(b0 == (n >> 24u32) as u8 && b1 == (n >> 16u32) as u8 && b2 == (n >> 8u32) as u8 && b3
        == n as u8);
    assert(((((n >> 24u32) as u8) as u32) << 24u32) | ((((n >> 16u32) as u8) as u32) << 16u32) | (
    (((n >> 8u32) as u8) as u32) << 8u32) | ((n as u8) as u32) == n) by (bit_vector);
}

/// Encoding the number that four bytes denote gives the bytes back.
pub proof fn lemma_u32_bytes_roundtrip(b: Seq<u8>)
    requires
        b.len() == 4,
    ensures
        be_bytes_u32(be_value_u32(b)) == b,
{
    let (b0, b1, b2, b3) = (b[0], b[1], b[2], b[3]);
    let n = be_value_u32(b);
    assert(n == ((b0 as u32) << 24u32) | ((b1 as u32) << 16u32) | ((b2 as u32) << 8u32) | (b3 as u32));
    assert({
        let m = ((b0 as u32) << 24u32) | ((b1 as u32) << 16u32) | ((b2 as u32) << 8u32) | (b3 as u32);
        &&& (m >> 24u32) as u8 == b0
        &&& (m >> 16u32) as u8 == b1
        &&& (m >> 8u32) as u8 == b2
        &&& m as u8 == b3
    }) by (bit_vector);
    assert(be_bytes_u32(n) =~= b);
}

/// Decoding the big-endian bytes of a `u64` gives the number back.
pub proof fn lemma_u64_roundtrip(n: u64)
    ensures
        be_bytes_u64(n).len() == 8,
        be_value_u64(be_bytes_u64(n)) == n,
{
    assert(((((n >> 56u64) as u8) as u64) << 56u64) | ((((n >> 48u64) as u8) as u64) << 48u64) | (
    (((n >> 40u64) as u8) as u64) << 40u64) | ((((n >> 32u64) as u8) as u64) << 32u64) | ((((n
        >> 24u64) as u8) as u64) << 24u64) | ((((n >> 16u64) as u8) as u64) << 16u64) | ((((n
        >> 8u64) as u8) as u64) << 8u64) | ((n as u8) as u64) == n) by (bit_vector);
}

/// Decoding the big-endian bytes of an `i64` gives the number back.
pub proof fn lemma_i64_roundtrip(n: i64)
    ensures
        be_bytes_i64(n).len() == 8,
        be_value_i64(be_bytes_i64(n)) == n,
{
    lemma_u64_roundtrip(n as u64);
    assert((n as u64) as i64 == n) by (bit_vector);
}

} // verus!
