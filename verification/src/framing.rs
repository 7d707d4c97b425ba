//! Messages on a stream, each behind its length.

use vstd::prelude::*;
use crate::wire;

verus! {

/// A message behind its length on 32 bits.
pub open spec fn frame(msg: Seq<u8>) -> Seq<u8> {
    wire::be_bytes(msg.len(), 4) + msg
}

/// How many bytes a length takes on this machine: 8 where it has 64 bits, and 4
/// where it has 32.
pub open spec fn size_len() -> nat {
    if usize::BITS == 64 {
        8
    } else {
        4
    }
}

/// A message behind its length, as long as lengths are on this machine.
pub open spec fn long_frame(msg: Seq<u8>) -> Seq<u8> {
    wire::be_bytes(msg.len(), size_len()) + msg
}

/// The first message of a stream and what follows it, given how many bytes its
/// length takes; nothing if the stream ends before the message does.
pub open spec fn unframed(stream: Seq<u8>, size_len: nat) -> Option<(Seq<u8>, Seq<u8>)> {
    let end = size_len + wire::be_value(stream.take(size_len as int));
    if stream.len() < size_len || stream.len() < end {
        None
    } else {
        Some((stream.subrange(size_len as int, end as int), stream.skip(end as int)))
    }
}

/// The length in front of a message on a control stream.
pub fn frame_header(len: u32) -> (header: [u8; 4])
    ensures
        header@ == wire::be_bytes(len as nat, 4),
{
    let mut header: [u8; 4] = [0; 4];
    proof {
        wire::lemma_be_bytes_len(len as nat, 4);
    }
    wire::write_u32(&mut header, len);
    assert(header@ =~= wire::be_bytes(len as nat, 4));
    header
}

/// A message as it is sent on a control stream.
pub fn write_frame(msg: &[u8]) -> (r: Vec<u8>)
    requires
        msg@.len() <= u32::MAX,
        msg@.len() + 4 <= isize::MAX,
    ensures
        r@ == frame(msg@),
{
    let header = frame_header(msg.len() as u32);
    let mut r: Vec<u8> = Vec::new();
    r.extend_from_slice(&header);
    r.extend_from_slice(msg);
    assert(r@ =~= frame(msg@));
    r
}

/// How long the message behind this header is.
pub fn frame_len(header: &[u8]) -> (r: u32)
    requires
        header@.len() == 4,
    ensures
        r == wire::be_value(header@),
{
    assert(header@.take(4) =~= header@);
    wire::read_u32(header)
}

/// How many bytes a length takes on this machine.
pub fn buf_header_len() -> (r: usize)
    ensures
        r == size_len(),
{
    if usize::BITS == 64 {
        8
    } else {
        4
    }
}

/// A message as it is sent behind its length, as long as lengths are on this
/// machine.
pub fn write_buf(msg: &[u8]) -> (r: Vec<u8>)
    requires
        msg@.len() + 8 <= isize::MAX,
    ensures
        r@ == long_frame(msg@),
{
    let mut r: Vec<u8> = Vec::new();
    if usize::BITS == 64 {
        let mut header: [u8; 8] = [0; 8];
        proof {
            wire::lemma_be_bytes_len(msg@.len(), 8);
        }
        wire::write_u64(&mut header, msg.len() as u64);
        assert(header@ =~= wire::be_bytes(msg@.len(), 8));
        r.extend_from_slice(&header);
    } else {
        let header = frame_header(msg.len() as u32);
        r.extend_from_slice(&header);
    }
    r.extend_from_slice(msg);
    assert(r@ =~= long_frame(msg@));
    r
}

/// How long the message behind this length is.
pub fn buf_len(header: &[u8]) -> (r: usize)
    requires
        header@.len() == size_len(),
    ensures
        r == wire::be_value(header@),
{
    if usize::BITS == 64 {
        assert(header@.take(8) =~= header@);
        wire::read_u64(header) as usize
    } else {
        assert(header@.take(4) =~= header@);
        wire::read_u32(header) as usize
    }
}

/// A message is read as it was written, and nothing of what follows is touched.
pub proof fn lemma_frame_roundtrip(msg: Seq<u8>, rest: Seq<u8>)
    requires
        msg.len() <= u32::MAX,
    ensures
        unframed(frame(msg) + rest, 4) == Some((msg, rest)),
{
    let stream = frame(msg) + rest;
    wire::lemma_pow_256();
    wire::lemma_be_bytes_len(msg.len(), 4);
    wire::lemma_decode_encode(msg.len(), 4);
    assert(stream.take(4) =~= wire::be_bytes(msg.len(), 4));
    assert(stream.subrange(4, (4 + msg.len()) as int) =~= msg);
    assert(stream.skip((4 + msg.len()) as int) =~= rest);
}

/// A message behind a length of this machine is read as it was written.
pub proof fn lemma_long_frame_roundtrip(msg: Seq<u8>, rest: Seq<u8>)
    requires
        msg.len() <= usize::MAX,
    ensures
        unframed(long_frame(msg) + rest, size_len()) == Some((msg, rest)),
{
    let stream = long_frame(msg) + rest;
    let n = size_len();
    wire::lemma_pow_256();
    wire::lemma_be_bytes_len(msg.len(), n);
    wire::lemma_decode_encode(msg.len(), n);
    assert(stream.take(n as int) =~= wire::be_bytes(msg.len(), n));
    assert(stream.subrange(n as int, (n + msg.len()) as int) =~= msg);
    assert(stream.skip((n + msg.len()) as int) =~= rest);
}

/// What a message is sent as: its length in four bytes, and then its bytes.
pub proof fn lemma_frame_layout(msg: Seq<u8>)
    requires
        msg.len() <= u32::MAX,
    ensures
        frame(msg).len() == 4 + msg.len(),
        wire::be_value(frame(msg).subrange(0, 4)) == msg.len(),
        frame(msg).skip(4) == msg,
{
    wire::lemma_pow_256();
    wire::lemma_be_bytes_len(msg.len(), 4);
    wire::lemma_decode_encode(msg.len(), 4);
    assert(frame(msg).subrange(0, 4) =~= wire::be_bytes(msg.len(), 4));
    assert(frame(msg).skip(4) =~= msg);
}

/// What a message is sent as behind a length of this machine: its length in as many bytes
/// as a size takes, and then its bytes.
pub proof fn lemma_long_frame_layout(msg: Seq<u8>)
    requires
        msg.len() <= usize::MAX,
    ensures
        8 * size_len() == usize::BITS,
        long_frame(msg).len() == size_len() + msg.len(),
        wire::be_value(long_frame(msg).subrange(0, size_len() as int)) == msg.len(),
        long_frame(msg).skip(size_len() as int) == msg,
{
    let n = size_len();
    wire::lemma_pow_256();
    wire::lemma_be_bytes_len(msg.len(), n);
    wire::lemma_decode_encode(msg.len(), n);
    assert(long_frame(msg).subrange(0, n as int) =~= wire::be_bytes(msg.len(), n));
    assert(long_frame(msg).skip(n as int) =~= msg);
}

/// A message that is cut short is not read.
pub proof fn lemma_cut_frame_is_not_read(msg: Seq<u8>, n: int)
    requires
        msg.len() <= u32::MAX,
        0 <= n < 4 + msg.len(),
    ensures
        unframed(frame(msg).take(n), 4) is None,
{
    lemma_frame_layout(msg);
    if n >= 4 {
        assert(frame(msg).take(n).take(4) =~= frame(msg).subrange(0, 4));
    }
}

} // verus!
