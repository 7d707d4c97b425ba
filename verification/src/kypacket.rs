//! Packets as clients exchange them with the multiplexer.
//!
//! A packet starts with a 16-byte header: the stream id (32 bits), flags and
//! timestamp (64 bits), and the payload size (32 bits). The bit after the stream
//! id tells a media packet (set) from a codec packet (clear), which is its
//! header alone.

use vstd::prelude::*;
use crate::wire;

verus! {

pub const HEADER_SIZE: usize = 16;

#[derive(Debug)]
pub enum Packet {
    Codec(CodecPacket),
    Media(MediaPacket),
}

#[derive(Debug)]
pub struct CodecPacket {
    pub header: Vec<u8>,
}

/// The data are the header and the payload.
#[derive(Debug)]
pub struct MediaPacket {
    pub data: Vec<u8>,
    pub header: MediaPacketHeader,
}

#[derive(Clone, Copy, Debug, PartialEq, Eq, Structural)]
pub struct MediaPacketHeader {
    pub stream_id: u32,
    pub is_config: bool,
    pub is_key: bool,
    pub pts: u64,
    pub size: u32,
}

/// What a packet carries.
#[verifier::ext_equal]
pub enum PacketView {
    Codec { codec: Seq<u8> },
    Media { data: Seq<u8>, header: MediaPacketHeader },
}

impl View for Packet {
    type V = PacketView;

    open spec fn view(&self) -> PacketView {
        match self {
            Packet::Codec(packet) => PacketView::Codec { codec: packet.header@ },
            Packet::Media(packet) => packet.view(),
        }
    }
}

impl View for MediaPacket {
    type V = PacketView;

    open spec fn view(&self) -> PacketView {
        PacketView::Media { data: self.data@, header: self.header }
    }
}

impl PacketView {
    /// The packet on the wire.
    pub open spec fn bytes(self) -> Seq<u8> {
        match self {
            PacketView::Codec { codec } => codec,
            PacketView::Media { data, .. } => data,
        }
    }
}

/// The header is that of a media packet.
pub open spec fn is_media(head: Seq<u8>) -> bool {
    head[4] >= 0x80
}

/// The header that the first sixteen bytes spell.
pub open spec fn spec_header(head: Seq<u8>) -> MediaPacketHeader {
    let n = wire::be_value(head.subrange(4, 12));
    MediaPacketHeader {
        stream_id: wire::be_value(head.take(4)) as u32,
        is_config: (n / 0x4000_0000_0000_0000) % 2 == 1,
        is_key: (n / 0x2000_0000_0000_0000) % 2 == 1,
        pts: (n % 0x2000_0000_0000_0000) as u64,
        size: wire::be_value(head.subrange(12, 16)) as u32,
    }
}

/// How long the packet with this header is.
pub open spec fn spec_size(head: Seq<u8>) -> nat {
    if is_media(head) {
        (HEADER_SIZE + spec_header(head).size) as nat
    } else {
        HEADER_SIZE as nat
    }
}

/// The packet that the bytes spell.
pub open spec fn spec_packet(bytes: Seq<u8>) -> PacketView {
    if is_media(bytes) {
        PacketView::Media { data: bytes, header: spec_header(bytes) }
    } else {
        PacketView::Codec { codec: bytes }
    }
}

fn has_media_bit(buf: &[u8]) -> (r: bool)
    requires
        buf@.len() > 4,
    ensures
        r == is_media(buf@),
{
    let flags: u8 = buf[4];
    assert((flags & 0x80 != 0) == (flags >= 0x80)) by (bit_vector);
    flags & 0x80 != 0
}

impl Packet {
    pub fn parse_media_packet_header(buf: &[u8]) -> (header: MediaPacketHeader)
        requires
            buf@.len() >= HEADER_SIZE,
            is_media(buf@),
        ensures
            header == spec_header(buf@),
    {
        let stream_id: u32 = wire::read_u32(buf);
        let n: u64 = wire::read_u64(&buf[4..12]);
        let size: u32 = wire::read_u32(&buf[12..16]);
        assert(buf@.subrange(4, 12).take(8) =~= buf@.subrange(4, 12));
        assert(buf@.subrange(12, 16).take(4) =~= buf@.subrange(12, 16));
        assert((n & 0x4000_0000_0000_0000 != 0) == ((n / 0x4000_0000_0000_0000) % 2 == 1))
            by (bit_vector);
        assert((n & 0x2000_0000_0000_0000 != 0) == ((n / 0x2000_0000_0000_0000) % 2 == 1))
            by (bit_vector);
        assert(n & 0x1FFF_FFFF_FFFF_FFFF == n % 0x2000_0000_0000_0000) by (bit_vector);
        MediaPacketHeader {
            stream_id,
            is_config: n & 0x4000_0000_0000_0000 != 0,
            is_key: n & 0x2000_0000_0000_0000 != 0,
            pts: n & 0x1FFF_FFFF_FFFF_FFFF,
            size,
        }
    }

    /// How many bytes follow the header of a packet.
    pub fn payload_size(head: &[u8]) -> (r: u32)
        requires
            head@.len() == HEADER_SIZE,
        ensures
            HEADER_SIZE + r == spec_size(head@),
    {
        if has_media_bit(head) {
            Self::parse_media_packet_header(head).size
        } else {
            0
        }
    }

    /// The packet that the bytes are, all of them.
    pub fn read(buf: Vec<u8>) -> (packet: Packet)
        requires
            buf@.len() >= HEADER_SIZE,
            buf@.len() == spec_size(buf@.take(16)),
        ensures
            packet@ == spec_packet(buf@),
            packet@.bytes() == buf@,
    {
        if has_media_bit(buf.as_slice()) {
            let header = Self::parse_media_packet_header(buf.as_slice());
            Packet::Media(MediaPacket { data: buf, header })
        } else {
            Packet::Codec(CodecPacket { header: buf })
        }
    }
}

/// The bytes are one packet: as long as its header says.
pub open spec fn is_packet(bytes: Seq<u8>) -> bool {
    bytes.len() >= HEADER_SIZE && bytes.len() == spec_size(bytes.take(16))
}

/// The first packet of a stream, and what follows it; nothing if the stream ends
/// before the packet does.
pub open spec fn first_packet(stream: Seq<u8>) -> Option<(PacketView, Seq<u8>)> {
    if stream.len() < HEADER_SIZE || stream.len() < spec_size(stream.take(16)) {
        None
    } else {
        let end = spec_size(stream.take(16)) as int;
        Some((spec_packet(stream.take(end)), stream.skip(end)))
    }
}

/// The packets of a stream.
pub open spec fn packets(stream: Seq<u8>) -> Seq<PacketView>
    decreases stream.len(),
{
    match first_packet(stream) {
        None => Seq::empty(),
        Some((packet, rest)) => if rest.len() < stream.len() {
            seq![packet] + packets(rest)
        } else {
            Seq::empty()
        },
    }
}

/// The bytes of packets, one after the other.
pub open spec fn stream_of(sent: Seq<Seq<u8>>) -> Seq<u8>
    decreases sent.len(),
{
    if sent.len() == 0 {
        Seq::empty()
    } else {
        sent[0] + stream_of(sent.skip(1))
    }
}

/// A packet at the head of a stream is read as it was written: the first bytes give
/// its length, and nothing of what follows is touched.
pub proof fn lemma_first_packet(bytes: Seq<u8>, rest: Seq<u8>)
    requires
        is_packet(bytes),
    ensures
        spec_size((bytes + rest).take(16)) == bytes.len(),
        first_packet(bytes + rest) == Some((spec_packet(bytes), rest)),
        spec_packet(bytes).bytes() == bytes,
{
    let stream = bytes + rest;
    assert(stream.take(16) =~= bytes.take(16));
    assert(stream.take(bytes.len() as int) =~= bytes);
    assert(stream.skip(bytes.len() as int) =~= rest);
}

/// A stream gives back the packets that were written to it, in order.
pub proof fn lemma_stream_roundtrip(sent: Seq<Seq<u8>>)
    requires
        forall|i: int| 0 <= i < sent.len() ==> is_packet(#[trigger] sent[i]),
    ensures
        packets(stream_of(sent)) == sent.map_values(|bytes: Seq<u8>| spec_packet(bytes)),
    decreases sent.len(),
{
    let read = sent.map_values(|bytes: Seq<u8>| spec_packet(bytes));
    if sent.len() == 0 {
        assert(packets(stream_of(sent)) =~= read);
    } else {
        let rest = sent.skip(1);
        assert forall|i: int| 0 <= i < rest.len() implies is_packet(#[trigger] rest[i]) by {
            assert(rest[i] == sent[i + 1]);
        }
        lemma_stream_roundtrip(rest);
        assert(is_packet(sent[0]));
        lemma_first_packet(sent[0], stream_of(rest));
        assert(seq![read[0]] + rest.map_values(|bytes: Seq<u8>| spec_packet(bytes)) =~= read);
    }
}

/// A packet reads the same alone as at the head of a stream.
pub proof fn lemma_header_is_prefix(bytes: Seq<u8>)
    requires
        bytes.len() >= 16,
    ensures
        is_media(bytes) == is_media(bytes.take(16)),
        spec_header(bytes) == spec_header(bytes.take(16)),
{
    let head = bytes.take(16);
    assert(head.take(4) =~= bytes.take(4));
    assert(head.subrange(4, 12) =~= bytes.subrange(4, 12));
    assert(head.subrange(12, 16) =~= bytes.subrange(12, 16));
}

/// A media header is read as it was written: the stream id in the first four bytes, then
/// a set bit, the two flags and the timestamp in eight bytes, then the payload size in
/// four, whatever follows. The packet is as long as its header and its payload.
pub proof fn lemma_media_header_is_read_as_written(
    stream_id: u32,
    is_config: bool,
    is_key: bool,
    pts: u64,
    size: u32,
    rest: Seq<u8>,
)
    requires
        pts < 0x2000_0000_0000_0000,
    ensures
        ({
            let flags: nat = 0x8000_0000_0000_0000 + (if is_config {
                0x4000_0000_0000_0000nat
            } else {
                0
            }) + (if is_key {
                0x2000_0000_0000_0000nat
            } else {
                0
            });
            let bytes = wire::be_bytes(stream_id as nat, 4) + wire::be_bytes(
                flags + pts as nat,
                8,
            ) + wire::be_bytes(size as nat, 4) + rest;
            let header = MediaPacketHeader { stream_id, is_config, is_key, pts, size };
            &&& is_media(bytes)
            &&& spec_header(bytes) == header
            &&& spec_size(bytes) == 16 + size
            &&& is_packet(bytes) <==> rest.len() == size
            &&& spec_packet(bytes) == (PacketView::Media { data: bytes, header })
            &&& rest.len() >= size ==> first_packet(bytes) == Some(
                (
                    PacketView::Media { data: bytes.take(16 + size), header },
                    rest.skip(size as int),
                ),
            )
            &&& rest.len() < size ==> first_packet(bytes) is None
        }),
{
    let flags: nat = 0x8000_0000_0000_0000 + (if is_config {
        0x4000_0000_0000_0000nat
    } else {
        0
    }) + (if is_key {
        0x2000_0000_0000_0000nat
    } else {
        0
    });
    let n = flags + pts as nat;
    let id = wire::be_bytes(stream_id as nat, 4);
    let middle = wire::be_bytes(n, 8);
    let last = wire::be_bytes(size as nat, 4);
    let bytes = id + middle + last + rest;
    wire::lemma_pow_256();
    wire::lemma_be_bytes_len(stream_id as nat, 4);
    wire::lemma_be_bytes_len(n, 8);
    wire::lemma_be_bytes_len(size as nat, 4);
    wire::lemma_decode_encode(stream_id as nat, 4);
    wire::lemma_decode_encode(n, 8);
    wire::lemma_decode_encode(size as nat, 4);
    assert(bytes.take(4) =~= id);
    assert(bytes.subrange(4, 12) =~= middle);
    assert(bytes.subrange(12, 16) =~= last);
    wire::lemma_be_value_8(middle);
    assert(bytes[4] == middle[0]);
    lemma_header_is_prefix(bytes);
    assert(spec_size(bytes.take(16)) == 16 + size);
    if rest.len() >= size {
        let one = bytes.take(16 + size);
        assert(one.take(16) =~= bytes.take(16));
        lemma_header_is_prefix(one);
        assert(bytes.skip(16 + size) =~= rest.skip(size as int));
    }
}

/// A packet whose bit after the stream id is clear is a codec packet: its sixteen bytes,
/// and nothing of what follows.
pub proof fn lemma_codec_packet_is_its_header(stream_id: u32, n: u64, rest: Seq<u8>)
    requires
        n < 0x8000_0000_0000_0000,
        rest.len() >= 4,
    ensures
        ({
            let bytes = wire::be_bytes(stream_id as nat, 4) + wire::be_bytes(n as nat, 8) + rest;
            &&& !is_media(bytes)
            &&& spec_size(bytes) == 16
            &&& is_packet(bytes) <==> rest.len() == 4
            &&& first_packet(bytes) == Some(
                (PacketView::Codec { codec: bytes.take(16) }, rest.skip(4)),
            )
        }),
{
    let id = wire::be_bytes(stream_id as nat, 4);
    let middle = wire::be_bytes(n as nat, 8);
    let bytes = id + middle + rest;
    wire::lemma_pow_256();
    wire::lemma_be_bytes_len(stream_id as nat, 4);
    wire::lemma_be_bytes_len(n as nat, 8);
    wire::lemma_decode_encode(n as nat, 8);
    wire::lemma_be_value_8(middle);
    assert(bytes[4] == middle[0]);
    lemma_header_is_prefix(bytes);
    assert(bytes.take(16)[4] == bytes[4]);
    assert(bytes.skip(16) =~= rest.skip(4));
}

/// Every sixteen bytes are the header of one packet, codec or media, and nothing else is
/// read from them than what was written: the fields of a media header give its bytes
/// back.
pub proof fn lemma_media_header_is_written_as_read(bytes: Seq<u8>)
    requires
        bytes.len() == 16,
        is_media(bytes),
    ensures
        ({
            let header = spec_header(bytes);
            bytes == wire::be_bytes(header.stream_id as nat, 4) + wire::be_bytes(
                (0x8000_0000_0000_0000 + (if header.is_config {
                    0x4000_0000_0000_0000int
                } else {
                    0
                }) + (if header.is_key {
                    0x2000_0000_0000_0000int
                } else {
                    0
                }) + header.pts) as nat,
                8,
            ) + wire::be_bytes(header.size as nat, 4)
        }),
{
    wire::lemma_pow_256();
    let middle = bytes.subrange(4, 12);
    let n = wire::be_value(middle);
    wire::lemma_encode_decode(bytes.take(4));
    wire::lemma_encode_decode(middle);
    wire::lemma_encode_decode(bytes.subrange(12, 16));
    wire::lemma_be_value_8(middle);
    assert(middle[0] == bytes[4]);
    assert(n >= 0x8000_0000_0000_0000);
    assert(bytes =~= bytes.take(4) + middle + bytes.subrange(12, 16));
}

} // verus!
