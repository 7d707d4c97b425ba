//! Big-endian integers and byte buffers.
//!
//! Integers go through the `byteorder` crate, buffers are those of the `bytes`
//! crate. What a buffer holds is a sequence of bytes.

use vstd::prelude::*;
use vstd::arithmetic::power::pow;
use byteorder::{ByteOrder, WriteBytesExt};
use bytes::{Buf, BufMut};

verus! {

/// The number that `s` spells in base 256, most significant byte first.
pub open spec fn be_value(s: Seq<u8>) -> nat
    decreases s.len(),
{
    if s.len() == 0 {
        0
    } else {
        be_value(s.drop_last()) * 256 + s.last() as nat
    }
}

/// The `len` low bytes of `n`, most significant byte first.
pub open spec fn be_bytes(n: nat, len: nat) -> Seq<u8>
    decreases len,
{
    if len == 0 {
        Seq::empty()
    } else {
        be_bytes(n / 256, (len - 1) as nat).push((n % 256) as u8)
    }
}

pub proof fn lemma_be_bytes_len(n: nat, len: nat)
    ensures
        be_bytes(n, len).len() == len,
    decreases len,
{
    if len > 0 {
        lemma_be_bytes_len(n / 256, (len - 1) as nat);
    }
}

/// Decoding what was encoded gives the number back, as long as it fits.
pub proof fn lemma_decode_encode(n: nat, len: nat)
    requires
        n < pow(256, len),
    ensures
        be_value(be_bytes(n, len)) == n,
    decreases len,
{
    reveal(pow);
    if len > 0 {
        let m = pow(256, (len - 1) as nat);
        assert(n / 256 < m) by (nonlinear_arith)
            requires
                n < 256 * m,
        ;
        lemma_decode_encode(n / 256, (len - 1) as nat);
        let s = be_bytes(n, len);
        assert(s.drop_last() =~= be_bytes(n / 256, (len - 1) as nat));
    }
}

/// Encoding what was decoded gives the bytes back.
pub proof fn lemma_encode_decode(s: Seq<u8>)
    ensures
        be_bytes(be_value(s), s.len()) == s,
        be_value(s) < pow(256, s.len()),
    decreases s.len(),
{
    reveal(pow);
    if s.len() > 0 {
        lemma_encode_decode(s.drop_last());
        let v = be_value(s.drop_last());
        let b = s.last() as nat;
        let m = pow(256, (s.len() - 1) as nat);
        assert((v * 256 + b) / 256 == v && (v * 256 + b) % 256 == b) by (nonlinear_arith)
            requires
                b < 256,
        ;
        assert(v * 256 + b < 256 * m) by (nonlinear_arith)
            requires
                v < m,
                b < 256,
                v >= 0,
        ;
        assert(be_bytes(be_value(s), s.len()) =~= s);
    }
}

/// The powers of 256 that bound the integer types.
pub proof fn lemma_pow_256()
    ensures
        pow(256, 1) == 0x100,
        pow(256, 2) == 0x1_0000,
        pow(256, 4) == 0x1_0000_0000,
        pow(256, 8) == 0x1_0000_0000_0000_0000,
{
    reveal_with_fuel(pow, 9);
    assert(pow(256, 2) == 0x1_0000);
    assert(pow(256, 4) == 0x1_0000_0000);
}

/// Four bytes, written out.
pub proof fn lemma_be_value_4(s: Seq<u8>)
    requires
        s.len() == 4,
    ensures
        be_value(s) == s[0] * 0x100_0000 + s[1] * 0x1_0000 + s[2] * 0x100 + s[3],
{
    reveal_with_fuel(be_value, 5);
}

/// Eight bytes, written out.
pub proof fn lemma_be_value_8(s: Seq<u8>)
    requires
        s.len() == 8,
    ensures
        be_value(s) == s[0] * 0x100_0000_0000_0000 + s[1] * 0x1_0000_0000_0000 + s[2]
            * 0x100_0000_0000 + s[3] * 0x1_0000_0000 + s[4] * 0x100_0000 + s[5] * 0x1_0000 + s[6]
            * 0x100 + s[7],
{
    reveal_with_fuel(be_value, 9);
}

/// `byteorder::BigEndian::read_u16`: the first two bytes, most significant
/// first.
#[verifier::external_body]
pub(crate) fn read_u16(buf: &[u8]) -> (n: u16)
    requires
        buf@.len() >= 2,
    ensures
        n == be_value(buf@.take(2)),
{
    byteorder::BigEndian::read_u16(buf)
}

/// `byteorder::BigEndian::read_u32`: the first four bytes, most significant
/// first.
#[verifier::external_body]
pub(crate) fn read_u32(buf: &[u8]) -> (n: u32)
    requires
        buf@.len() >= 4,
    ensures
        n == be_value(buf@.take(4)),
{
    byteorder::BigEndian::read_u32(buf)
}

/// `byteorder::BigEndian::read_u64`: the first eight bytes, most significant
/// first.
#[verifier::external_body]
pub(crate) fn read_u64(buf: &[u8]) -> (n: u64)
    requires
        buf@.len() >= 8,
    ensures
        n == be_value(buf@.take(8)),
{
    byteorder::BigEndian::read_u64(buf)
}

/// `byteorder::BigEndian::write_u16`: overwrites the first two bytes and leaves
/// the others.
#[verifier::external_body]
pub(crate) fn write_u16(buf: &mut [u8], n: u16)
    requires
        old(buf)@.len() >= 2,
    ensures
        final(buf)@ == be_bytes(n as nat, 2) + old(buf)@.skip(2),
{
    byteorder::BigEndian::write_u16(buf, n)
}

/// `byteorder::BigEndian::write_u32`: overwrites the first four bytes and leaves
/// the others.
#[verifier::external_body]
pub(crate) fn write_u32(buf: &mut [u8], n: u32)
    requires
        old(buf)@.len() >= 4,
    ensures
        final(buf)@ == be_bytes(n as nat, 4) + old(buf)@.skip(4),
{
    byteorder::BigEndian::write_u32(buf, n)
}

/// `byteorder::BigEndian::write_u64`: overwrites the first eight bytes and
/// leaves the others.
#[verifier::external_body]
pub(crate) fn write_u64(buf: &mut [u8], n: u64)
    requires
        old(buf)@.len() >= 8,
    ensures
        final(buf)@ == be_bytes(n as nat, 8) + old(buf)@.skip(8),
{
    byteorder::BigEndian::write_u64(buf, n)
}

/// `byteorder::WriteBytesExt::write_u32` on a `Vec<u8>`: appends the integer,
/// most significant byte first. Writing to a `Vec` does not fail.
#[verifier::external_body]
pub(crate) fn append_u32(v: &mut Vec<u8>, n: u32)
    requires
        old(v)@.len() + 4 <= isize::MAX,
    ensures
        final(v)@ == old(v)@ + be_bytes(n as nat, 4),
{
    let _ = v.write_u32::<byteorder::BigEndian>(n);
}

/// `bytes::Bytes`, a shared immutable byte buffer.
#[verifier::external_type_specification]
#[verifier::external_body]
pub struct ExBytes(bytes::Bytes);

/// `bytes::BytesMut`, a growable byte buffer.
#[verifier::external_type_specification]
#[verifier::external_body]
pub struct ExBytesMut(bytes::BytesMut);

/// The bytes that a `bytes::Bytes` holds.
pub uninterp spec fn bytes_seq(b: bytes::Bytes) -> Seq<u8>;

/// The bytes that a `bytes::BytesMut` holds.
pub uninterp spec fn buffer_seq(b: bytes::BytesMut) -> Seq<u8>;

/// `bytes::BytesMut::with_capacity`: an empty buffer. An allocation cannot be
/// larger than `isize::MAX`.
#[verifier::external_body]
pub(crate) fn buffer_with_capacity(capacity: usize) -> (b: bytes::BytesMut)
    requires
        capacity <= isize::MAX,
    ensures
        buffer_seq(b) == Seq::<u8>::empty(),
{
    bytes::BytesMut::with_capacity(capacity)
}

/// `bytes::BufMut::put_u16` on a `BytesMut`: appends the integer, most
/// significant byte first.
#[verifier::external_body]
pub(crate) fn put_u16(b: &mut bytes::BytesMut, n: u16)
    requires
        buffer_seq(*old(b)).len() + 2 <= isize::MAX,
    ensures
        buffer_seq(*final(b)) == buffer_seq(*old(b)) + be_bytes(n as nat, 2),
{
    b.put_u16(n)
}

/// `bytes::BufMut::put_u32` on a `BytesMut`: appends the integer, most
/// significant byte first.
#[verifier::external_body]
pub(crate) fn put_u32(b: &mut bytes::BytesMut, n: u32)
    requires
        buffer_seq(*old(b)).len() + 4 <= isize::MAX,
    ensures
        buffer_seq(*final(b)) == buffer_seq(*old(b)) + be_bytes(n as nat, 4),
{
    b.put_u32(n)
}

/// `bytes::BufMut::put_u64` on a `BytesMut`: appends the integer, most
/// significant byte first.
#[verifier::external_body]
pub(crate) fn put_u64(b: &mut bytes::BytesMut, n: u64)
    requires
        buffer_seq(*old(b)).len() + 8 <= isize::MAX,
    ensures
        buffer_seq(*final(b)) == buffer_seq(*old(b)) + be_bytes(n as nat, 8),
{
    b.put_u64(n)
}

/// `bytes::BufMut::put_slice` on a `BytesMut`: appends the bytes.
#[verifier::external_body]
pub(crate) fn put_slice(b: &mut bytes::BytesMut, src: &[u8])
    requires
        buffer_seq(*old(b)).len() + src@.len() <= isize::MAX,
    ensures
        buffer_seq(*final(b)) == buffer_seq(*old(b)) + src@,
{
    b.put_slice(src)
}

/// `bytes::BytesMut::freeze`: the same bytes, immutable.
#[verifier::external_body]
pub(crate) fn freeze(b: bytes::BytesMut) -> (r: bytes::Bytes)
    ensures
        bytes_seq(r) == buffer_seq(b),
{
    b.freeze()
}

/// `Deref` of `bytes::Bytes`: its bytes as a slice.
#[verifier::external_body]
pub(crate) fn as_slice(b: &bytes::Bytes) -> (s: &[u8])
    ensures
        s@ == bytes_seq(*b),
{
    b
}

/// `bytes::Bytes::slice` from a position to the end.
#[verifier::external_body]
pub(crate) fn slice_from(b: &bytes::Bytes, begin: usize) -> (r: bytes::Bytes)
    requires
        begin <= bytes_seq(*b).len(),
    ensures
        bytes_seq(r) == bytes_seq(*b).skip(begin as int),
{
    b.slice(begin..)
}

/// `bytes::Buf::get_u16` on a `Bytes`: takes two bytes off the front.
#[verifier::external_body]
pub(crate) fn get_u16(b: &mut bytes::Bytes) -> (n: u16)
    requires
        bytes_seq(*old(b)).len() >= 2,
    ensures
        n == be_value(bytes_seq(*old(b)).take(2)),
        bytes_seq(*final(b)) == bytes_seq(*old(b)).skip(2),
{
    b.get_u16()
}

/// `bytes::Buf::get_u32` on a `Bytes`: takes four bytes off the front.
#[verifier::external_body]
pub(crate) fn get_u32(b: &mut bytes::Bytes) -> (n: u32)
    requires
        bytes_seq(*old(b)).len() >= 4,
    ensures
        n == be_value(bytes_seq(*old(b)).take(4)),
        bytes_seq(*final(b)) == bytes_seq(*old(b)).skip(4),
{
    b.get_u32()
}

/// `bytes::Buf::get_u64` on a `Bytes`: takes eight bytes off the front.
#[verifier::external_body]
pub(crate) fn get_u64(b: &mut bytes::Bytes) -> (n: u64)
    requires
        bytes_seq(*old(b)).len() >= 8,
    ensures
        n == be_value(bytes_seq(*old(b)).take(8)),
        bytes_seq(*final(b)) == bytes_seq(*old(b)).skip(8),
{
    b.get_u64()
}

} // verus!
