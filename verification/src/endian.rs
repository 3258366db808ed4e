//! Little-endian integers in byte buffers, read and written with `byteorder`.
use byteorder::{ByteOrder, LittleEndian};
use vstd::bytes::{
    lemma_auto_spec_u16_to_from_le_bytes, lemma_auto_spec_u64_to_from_le_bytes,
    spec_u16_to_le_bytes, spec_u64_from_le_bytes, spec_u64_to_le_bytes,
};
use vstd::prelude::*;
use vstd::slice::slice_subrange;

verus! {

/// The four bytes of `x`, least significant first.
pub open spec fn le_bytes_u32(x: u32) -> Seq<u8> {
    seq![
        (x & 0xff) as u8,
        ((x >> 8) & 0xff) as u8,
        ((x >> 16) & 0xff) as u8,
        ((x >> 24) & 0xff) as u8,
    ]
}

/// The `u32` whose bytes, least significant first, are the first four of `s`.
pub open spec fn u32_from_le(s: Seq<u8>) -> u32 {
    (s[0] as u32) | (s[1] as u32) << 8 | (s[2] as u32) << 16 | (s[3] as u32) << 24
}

/// Decoding the bytes of `x` gives `x`.
pub proof fn lemma_u32_le(x: u32)
    ensures
        le_bytes_u32(x).len() == 4,
        u32_from_le(le_bytes_u32(x)) == x,
{
    let s = le_bytes_u32(x);
    let b0 = (x & 0xff) as u8;
    let b1 = ((x >> 8) & 0xff) as u8;
    let b2 = ((x >> 16) & 0xff) as u8;
    let b3 = ((x >> 24) & 0xff) as u8;
    assert(s[0] == b0 && s[1] == b1 && s[2] == b2 && s[3] == b3);
    assert((b0 as u32) | (b1 as u32) << 8 | (b2 as u32) << 16 | (b3 as u32) << 24 == x)
        by (bit_vector)
        requires
            b0 == (x & 0xff) as u8,
            b1 == ((x >> 8) & 0xff) as u8,
            b2 == ((x >> 16) & 0xff) as u8,
            b3 == ((x >> 24) & 0xff) as u8,
    ;
}

/// Four zero bytes are the `u32` zero.
pub proof fn lemma_u32_le_zero(s: Seq<u8>)
    requires
        s.len() >= 4,
        s[0] == 0,
        s[1] == 0,
        s[2] == 0,
        s[3] == 0,
    ensures
        u32_from_le(s) == 0,
{
    let z: u8 = 0;
    assert((z as u32) | (z as u32) << 8 | (z as u32) << 16 | (z as u32) << 24 == 0) by (bit_vector)
        requires
            z == 0,
    ;
}

/// The `u32` stored little-endian at `p` in `s`.
pub open spec fn u32_at(s: Seq<u8>, p: int) -> u32 {
    u32_from_le(s.subrange(p, p + 4))
}

/// The `i32` stored little-endian (two's complement) at `p` in `s`.
pub open spec fn i32_at(s: Seq<u8>, p: int) -> i32 {
    u32_at(s, p) as i32
}

/// The `u64` stored little-endian at `p` in `s`.
pub open spec fn u64_at(s: Seq<u8>, p: int) -> u64 {
    spec_u64_from_le_bytes(s.subrange(p, p + 8))
}

/// The four bytes of an `i32` in little-endian two's complement.
pub open spec fn i32_bytes(v: i32) -> Seq<u8> {
    le_bytes_u32(v as u32)
}

/// The encoded bytes have the expected lengths.
pub proof fn lemma_le_lengths()
    ensures
        forall|v: u16| #[trigger] spec_u16_to_le_bytes(v).len() == 2,
        forall|v: u32| #[trigger] le_bytes_u32(v).len() == 4,
        forall|v: u64| #[trigger] spec_u64_to_le_bytes(v).len() == 8,
        forall|v: i32| #[trigger] i32_bytes(v).len() == 4,
{
    lemma_auto_spec_u16_to_from_le_bytes();
    lemma_auto_spec_u64_to_from_le_bytes();
    assert forall|v: u32| #[trigger] le_bytes_u32(v).len() == 4 by {
        lemma_u32_le(v);
    }
    assert forall|v: i32| #[trigger] i32_bytes(v).len() == 4 by {
        lemma_u32_le(v as u32);
    }
}

/// Reading back an encoded `u32`.
pub proof fn lemma_u32_at(s: Seq<u8>, p: int, v: u32)
    requires
        0 <= p,
        p + 4 <= s.len(),
        s.subrange(p, p + 4) == le_bytes_u32(v),
    ensures
        u32_at(s, p) == v,
{
    lemma_u32_le(v);
    assert(s.subrange(p, p + 4) =~= le_bytes_u32(v));
}

/// Reading back an encoded `i32`.
pub proof fn lemma_i32_at(s: Seq<u8>, p: int, v: i32)
    requires
        0 <= p,
        p + 4 <= s.len(),
        s.subrange(p, p + 4) == i32_bytes(v),
    ensures
        i32_at(s, p) == v,
{
    lemma_u32_le(v as u32);
    assert((v as u32) as i32 == v) by (bit_vector);
}

/// Reading back an encoded `u64`.
pub proof fn lemma_u64_at(s: Seq<u8>, p: int, v: u64)
    requires
        0 <= p,
        p + 8 <= s.len(),
        s.subrange(p, p + 8) == spec_u64_to_le_bytes(v),
    ensures
        u64_at(s, p) == v,
{
    lemma_auto_spec_u64_to_from_le_bytes();
}

/// `LittleEndian::read_u32` of byteorder: the first four bytes of `buf`,
/// least significant first. It panics on fewer than four bytes.
#[verifier::external_body]
fn read_u32_le(buf: &[u8]) -> (v: u32)
    requires
        buf@.len() >= 4,
    ensures
        v == u32_from_le(buf@.subrange(0, 4)),
{
    LittleEndian::read_u32(buf)
}

/// `LittleEndian::read_u64` of byteorder: the first eight bytes of `buf`,
/// least significant first. It panics on fewer than eight bytes.
#[verifier::external_body]
fn read_u64_le(buf: &[u8]) -> (v: u64)
    requires
        buf@.len() >= 8,
    ensures
        v == spec_u64_from_le_bytes(buf@.subrange(0, 8)),
{
    LittleEndian::read_u64(buf)
}

/// `LittleEndian::write_u16` of byteorder, into a fresh two-byte buffer:
/// the bytes of `n`, least significant first.
#[verifier::external_body]
fn write_u16_le(n: u16) -> (b: Vec<u8>)
    ensures
        b@ == spec_u16_to_le_bytes(n),
{
    let mut b = vec![0u8; 2];
    LittleEndian::write_u16(&mut b, n);
    b
}

/// `LittleEndian::write_u32` of byteorder, into a fresh four-byte buffer:
/// the bytes of `n`, least significant first.
#[verifier::external_body]
fn write_u32_le(n: u32) -> (b: Vec<u8>)
    ensures
        b@ == le_bytes_u32(n),
{
    let mut b = vec![0u8; 4];
    LittleEndian::write_u32(&mut b, n);
    b
}

/// `LittleEndian::write_u64` of byteorder, into a fresh eight-byte buffer:
/// the bytes of `n`, least significant first.
#[verifier::external_body]
fn write_u64_le(n: u64) -> (b: Vec<u8>)
    ensures
        b@ == spec_u64_to_le_bytes(n),
{
    let mut b = vec![0u8; 8];
    LittleEndian::write_u64(&mut b, n);
    b
}

/// The `u32` at `pos`, or `None` where fewer than four bytes are left.
pub fn get_u32(buf: &[u8], pos: usize) -> (r: Option<u32>)
    ensures
        pos + 4 <= buf@.len() ==> r == Some(u32_at(buf@, pos as int)),
        pos + 4 > buf@.len() ==> r is None,
{
    if buf.len() < 4 || pos > buf.len() - 4 {
        None
    } else {
        let v = read_u32_le(slice_subrange(buf, pos, pos + 4));
        proof {
            assert(buf@.subrange(pos as int, pos + 4).subrange(0, 4) =~= buf@.subrange(
                pos as int,
                pos + 4,
            ));
        }
        Some(v)
    }
}

/// The `i32` at `pos`, or `None` where fewer than four bytes are left.
pub fn get_i32(buf: &[u8], pos: usize) -> (r: Option<i32>)
    ensures
        pos + 4 <= buf@.len() ==> r == Some(i32_at(buf@, pos as int)),
        pos + 4 > buf@.len() ==> r is None,
{
    match get_u32(buf, pos) {
        Some(v) => Some(v as i32),
        None => None,
    }
}

/// The `u64` at `pos`, or `None` where fewer than eight bytes are left.
pub fn get_u64(buf: &[u8], pos: usize) -> (r: Option<u64>)
    ensures
        pos + 8 <= buf@.len() ==> r == Some(u64_at(buf@, pos as int)),
        pos + 8 > buf@.len() ==> r is None,
{
    if buf.len() < 8 || pos > buf.len() - 8 {
        None
    } else {
        let v = read_u64_le(slice_subrange(buf, pos, pos + 8));
        proof {
            assert(buf@.subrange(pos as int, pos + 8).subrange(0, 8) =~= buf@.subrange(
                pos as int,
                pos + 8,
            ));
        }
        Some(v)
    }
}

/// Appends the bytes of `bytes` to `buf`.
pub fn put_bytes(buf: &mut Vec<u8>, bytes: &[u8])
    ensures
        final(buf)@ == old(buf)@ + bytes@,
{
    buf.extend_from_slice(bytes);
    assert(buf@ =~= old(buf)@ + bytes@);
}

/// Appends `v` as two little-endian bytes.
pub fn put_u16(buf: &mut Vec<u8>, v: u16)
    ensures
        final(buf)@ == old(buf)@ + spec_u16_to_le_bytes(v),
{
    let b = write_u16_le(v);
    put_bytes(buf, b.as_slice());
}

/// Appends `v` as four little-endian bytes.
pub fn put_u32(buf: &mut Vec<u8>, v: u32)
    ensures
        final(buf)@ == old(buf)@ + le_bytes_u32(v),
{
    let b = write_u32_le(v);
    put_bytes(buf, b.as_slice());
}

/// Appends `v` as four little-endian two's complement bytes.
pub fn put_i32(buf: &mut Vec<u8>, v: i32)
    ensures
        final(buf)@ == old(buf)@ + i32_bytes(v),
{
    put_u32(buf, v as u32);
}

/// Appends `v` as eight little-endian bytes.
pub fn put_u64(buf: &mut Vec<u8>, v: u64)
    ensures
        final(buf)@ == old(buf)@ + spec_u64_to_le_bytes(v),
{
    let b = write_u64_le(v);
    put_bytes(buf, b.as_slice());
}

} // verus!
