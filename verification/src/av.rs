//! Audio and video packets.
//!
//! A packet starts with a 12-byte header. The most significant bit of the
//! header tells a media packet (set) from a codec packet (clear).

use vstd::prelude::*;
use bytes::Bytes;
use crate::wire;

verus! {

#[derive(Debug)]
pub enum AVPacket {
    Codec(CodecPacket),
    Media(MediaPacket),
}

#[derive(Debug)]
pub enum AVPacketHeader {
    Codec(CodecPacketHeader),
    Media(MediaPacketHeader),
}

#[derive(Debug)]
pub struct CodecPacket {
    pub header: CodecPacketHeader,
}

#[derive(Clone, Copy, Debug, PartialEq, Eq, Structural)]
pub struct CodecPacketHeader {
    pub codec: u32,
    pub rotation: u8,
    pub frame_size: u16,
}

#[derive(Debug)]
pub struct MediaPacket {
    pub header: MediaPacketHeader,
    pub payload: Bytes,
}

#[derive(Clone, Copy, Debug, PartialEq, Eq, Structural)]
pub struct MediaPacketHeader {
    pub is_config: bool,
    pub is_key: bool,
    pub pts: u64,
    pub size: u32,
}

/// What an `AVPacket` carries: the header, and for a media packet the payload.
#[verifier::ext_equal]
pub enum AVPacketView {
    Codec { codec_header: CodecPacketHeader },
    Media { header: MediaPacketHeader, payload: Seq<u8> },
}

impl View for AVPacket {
    type V = AVPacketView;

    open spec fn view(&self) -> AVPacketView {
        match self {
            AVPacket::Codec(packet) => AVPacketView::Codec { codec_header: packet.header },
            AVPacket::Media(packet) => packet.view(),
        }
    }
}

impl View for MediaPacket {
    type V = AVPacketView;

    open spec fn view(&self) -> AVPacketView {
        AVPacketView::Media { header: self.header, payload: wire::bytes_seq(self.payload) }
    }
}

/// The first bit of a header that is not a codec header.
pub open spec fn is_media(buf: Seq<u8>) -> bool {
    buf[0] >= 0x80
}

impl CodecPacketHeader {
    /// Codec (32 bits), rotation (8 bits), frame size (16 bits), 5 zero bytes.
    pub open spec fn spec_serialize(self) -> Seq<u8> {
        wire::be_bytes(self.codec as nat, 4) + seq![self.rotation] + wire::be_bytes(
            self.frame_size as nat,
            2,
        ) + seq![0u8, 0, 0, 0, 0]
    }

    /// The header that the first seven bytes of `buf` spell.
    pub open spec fn spec_deserialize(buf: Seq<u8>) -> CodecPacketHeader {
        CodecPacketHeader {
            codec: wire::be_value(buf.take(4)) as u32,
            rotation: buf[4],
            frame_size: wire::be_value(buf.subrange(5, 7)) as u16,
        }
    }

    pub fn serialize_to(&self, buf: &mut [u8])
        requires
            old(buf)@.len() == AVPacketHeader::SERIALIZED_SIZE,
        ensures
            final(buf)@ == self.spec_serialize(),
    {
        proof {
            wire::lemma_be_bytes_len(self.codec as nat, 4);
            wire::lemma_be_bytes_len(self.frame_size as nat, 2);
        }
        let (head, tail) = buf.split_at_mut(4);
        wire::write_u32(head, self.codec);
        tail[0] = self.rotation;
        let (_, tail) = tail.split_at_mut(1);
        let (middle, tail) = tail.split_at_mut(2);
        wire::write_u16(middle, self.frame_size);
        tail[0] = 0;
        tail[1] = 0;
        tail[2] = 0;
        tail[3] = 0;
        tail[4] = 0;
    }

    pub fn serialize(&self) -> (buf: [u8; 12])
        ensures
            buf@ == self.spec_serialize(),
    {
        let mut buf: [u8; 12] = [0; 12];
        self.serialize_to(&mut buf);
        buf
    }

    pub fn deserialize(buf: &[u8]) -> (header: Self)
        requires
            buf@.len() == AVPacketHeader::SERIALIZED_SIZE,
            !is_media(buf@),
        ensures
            header == Self::spec_deserialize(buf@),
    {
        let codec: u32 = wire::read_u32(buf);
        let rotation: u8 = buf[4];
        let frame_size: u16 = wire::read_u16(&buf[5..7]);
        assert(buf@.subrange(5, 7).take(2) =~= buf@.subrange(5, 7));
        Self { codec, rotation, frame_size }
    }
}

impl MediaPacketHeader {
    /// The first 64 bits: 1, the config flag, the key flag, then the timestamp
    /// on 61 bits.
    pub open spec fn spec_pts_and_flags(self) -> nat {
        0x8000_0000_0000_0000 + (if self.is_config {
            0x4000_0000_0000_0000nat
        } else {
            0
        }) + (if self.is_key {
            0x2000_0000_0000_0000nat
        } else {
            0
        }) + self.pts as nat
    }

    /// A timestamp has 61 bits.
    pub open spec fn wf(self) -> bool {
        self.pts < 0x2000_0000_0000_0000
    }

    /// Flags and timestamp (64 bits), payload size (32 bits).
    pub open spec fn spec_serialize(self) -> Seq<u8> {
        wire::be_bytes(self.spec_pts_and_flags(), 8) + wire::be_bytes(self.size as nat, 4)
    }

    /// The header that the twelve bytes of `buf` spell.
    pub open spec fn spec_deserialize(buf: Seq<u8>) -> MediaPacketHeader {
        let n = wire::be_value(buf.take(8));
        MediaPacketHeader {
            is_config: (n / 0x4000_0000_0000_0000) % 2 == 1,
            is_key: (n / 0x2000_0000_0000_0000) % 2 == 1,
            pts: (n % 0x2000_0000_0000_0000) as u64,
            size: wire::be_value(buf.subrange(8, 12)) as u32,
        }
    }

    pub fn serialize_to(&self, buf: &mut [u8])
        requires
            old(buf)@.len() == AVPacketHeader::SERIALIZED_SIZE,
            self.wf(),
        ensures
            final(buf)@ == self.spec_serialize(),
    {
        let mut pts_and_flags: u64 = self.pts;
        let ghost pts = pts_and_flags;
        pts_and_flags = pts_and_flags | 0x8000_0000_0000_0000;
        assert(pts < 0x2000_0000_0000_0000 ==> pts | 0x8000_0000_0000_0000 == pts
            + 0x8000_0000_0000_0000) by (bit_vector);
        if self.is_config {
            let ghost n = pts_and_flags;
            pts_and_flags = pts_and_flags | 0x4000_0000_0000_0000;
            assert(0x8000_0000_0000_0000 <= n < 0xA000_0000_0000_0000 ==> n | 0x4000_0000_0000_0000
                == n + 0x4000_0000_0000_0000) by (bit_vector);
        }
        if self.is_key {
            let ghost n = pts_and_flags;
            pts_and_flags = pts_and_flags | 0x2000_0000_0000_0000;
            assert(0x8000_0000_0000_0000 <= n < 0xA000_0000_0000_0000 || 0xC000_0000_0000_0000 <= n
                < 0xE000_0000_0000_0000 ==> n | 0x2000_0000_0000_0000 == n + 0x2000_0000_0000_0000)
                by (bit_vector);
        }
        proof {
            wire::lemma_be_bytes_len(pts_and_flags as nat, 8);
            wire::lemma_be_bytes_len(self.size as nat, 4);
        }
        let (head, tail) = buf.split_at_mut(8);
        wire::write_u64(head, pts_and_flags);
        wire::write_u32(tail, self.size);
    }

    pub fn serialize(&self) -> (buf: [u8; 12])
        requires
            self.wf(),
        ensures
            buf@ == self.spec_serialize(),
    {
        let mut buf: [u8; 12] = [0; 12];
        self.serialize_to(&mut buf);
        buf
    }

    pub fn deserialize(buf: &[u8]) -> (header: Self)
        requires
            buf@.len() == AVPacketHeader::SERIALIZED_SIZE,
            is_media(buf@),
        ensures
            header == Self::spec_deserialize(buf@),
            header.wf(),
    {
        let n: u64 = wire::read_u64(buf);
        assert((n & 0x4000_0000_0000_0000 != 0) == ((n / 0x4000_0000_0000_0000) % 2 == 1))
            by (bit_vector);
        assert((n & 0x2000_0000_0000_0000 != 0) == ((n / 0x2000_0000_0000_0000) % 2 == 1))
            by (bit_vector);
        assert(n & 0x1FFF_FFFF_FFFF_FFFF == n % 0x2000_0000_0000_0000) by (bit_vector);
        let size: u32 = wire::read_u32(&buf[8..12]);
        assert(buf@.subrange(8, 12).take(4) =~= buf@.subrange(8, 12));
        Self {
            is_config: n & 0x4000_0000_0000_0000 != 0,
            is_key: n & 0x2000_0000_0000_0000 != 0,
            pts: n & 0x1FFF_FFFF_FFFF_FFFF,
            size,
        }
    }
}

impl AVPacketHeader {
    pub const SERIALIZED_SIZE: usize = 12;

    pub open spec fn spec_deserialize(buf: Seq<u8>) -> AVPacketHeader {
        if is_media(buf) {
            AVPacketHeader::Media(MediaPacketHeader::spec_deserialize(buf))
        } else {
            AVPacketHeader::Codec(CodecPacketHeader::spec_deserialize(buf))
        }
    }

    pub fn deserialize(buf: &[u8]) -> (header: Self)
        requires
            buf@.len() == AVPacketHeader::SERIALIZED_SIZE,
        ensures
            header == Self::spec_deserialize(buf@),
    {
        let first: u8 = buf[0];
        assert((first & 0x80 == 0) == (first < 0x80)) by (bit_vector);
        let is_codec = first & 0x80 == 0;
        if is_codec {
            AVPacketHeader::Codec(CodecPacketHeader::deserialize(buf))
        } else {
            AVPacketHeader::Media(MediaPacketHeader::deserialize(buf))
        }
    }
}

/// The bytes of a packet on a stream: its header, then its payload.
pub open spec fn packet_bytes(packet: AVPacketView) -> Seq<u8> {
    match packet {
        AVPacketView::Codec { codec_header } => codec_header.spec_serialize(),
        AVPacketView::Media { header, payload } => header.spec_serialize() + payload,
    }
}

/// A codec header survives the wire when the top bit of its codec is clear (the
/// bit that tells media packets).
pub proof fn lemma_codec_header_roundtrip(header: CodecPacketHeader)
    requires
        header.codec < 0x8000_0000,
    ensures
        header.spec_serialize().len() == 12,
        AVPacketHeader::spec_deserialize(header.spec_serialize()) == AVPacketHeader::Codec(header),
{
    let s = header.spec_serialize();
    wire::lemma_pow_256();
    wire::lemma_be_bytes_len(header.codec as nat, 4);
    wire::lemma_be_bytes_len(header.frame_size as nat, 2);
    wire::lemma_decode_encode(header.codec as nat, 4);
    wire::lemma_decode_encode(header.frame_size as nat, 2);
    assert(s.take(4) =~= wire::be_bytes(header.codec as nat, 4));
    assert(s.subrange(5, 7) =~= wire::be_bytes(header.frame_size as nat, 2));
    wire::lemma_be_value_4(s.take(4));
}

/// A media header survives the wire.
pub proof fn lemma_media_header_roundtrip(header: MediaPacketHeader)
    requires
        header.wf(),
    ensures
        header.spec_serialize().len() == 12,
        is_media(header.spec_serialize()),
        MediaPacketHeader::spec_deserialize(header.spec_serialize()) == header,
{
    let s = header.spec_serialize();
    wire::lemma_pow_256();
    wire::lemma_be_bytes_len(header.spec_pts_and_flags(), 8);
    wire::lemma_be_bytes_len(header.size as nat, 4);
    wire::lemma_decode_encode(header.spec_pts_and_flags(), 8);
    wire::lemma_decode_encode(header.size as nat, 4);
    assert(s.take(8) =~= wire::be_bytes(header.spec_pts_and_flags(), 8));
    assert(s.subrange(8, 12) =~= wire::be_bytes(header.size as nat, 4));
    wire::lemma_be_value_8(s.take(8));
}

/// Twelve bytes that start with a media bit are the header that they spell,
/// written again.
pub proof fn lemma_media_bytes_roundtrip(buf: Seq<u8>)
    requires
        buf.len() == 12,
        is_media(buf),
    ensures
        MediaPacketHeader::spec_deserialize(buf).wf(),
        MediaPacketHeader::spec_deserialize(buf).spec_serialize() == buf,
{
    let header = MediaPacketHeader::spec_deserialize(buf);
    let head = buf.take(8);
    let tail = buf.subrange(8, 12);
    wire::lemma_pow_256();
    wire::lemma_encode_decode(head);
    wire::lemma_encode_decode(tail);
    wire::lemma_be_value_8(head);
    let n = wire::be_value(head);
    assert(header.spec_pts_and_flags() == n);
    assert(head + tail =~= buf);
}

/// Twelve bytes that start with a clear bit and end with five zero bytes are
/// the codec header that they spell, written again.
pub proof fn lemma_codec_bytes_roundtrip(buf: Seq<u8>)
    requires
        buf.len() == 12,
        !is_media(buf),
        buf.skip(7) == seq![0u8, 0, 0, 0, 0],
    ensures
        CodecPacketHeader::spec_deserialize(buf).codec < 0x8000_0000,
        CodecPacketHeader::spec_deserialize(buf).spec_serialize() == buf,
{
    let header = CodecPacketHeader::spec_deserialize(buf);
    wire::lemma_pow_256();
    wire::lemma_encode_decode(buf.take(4));
    wire::lemma_encode_decode(buf.subrange(5, 7));
    wire::lemma_be_value_4(buf.take(4));
    let s = header.spec_serialize();
    assert(s.take(7) =~= buf.take(7));
    assert(s.skip(7) =~= seq![0u8, 0, 0, 0, 0]);
    assert(s =~= s.take(7) + s.skip(7));
    assert(buf =~= buf.take(7) + buf.skip(7));
}

/// A media packet on the wire: a set bit, the two flags and the timestamp in eight bytes,
/// the payload size in four, and then the payload.
pub proof fn lemma_media_packet_layout(header: MediaPacketHeader, payload: Seq<u8>)
    requires
        header.pts < 0x2000_0000_0000_0000,
    ensures
        header.wf(),
        ({
            let bytes = packet_bytes(AVPacketView::Media { header, payload });
            &&& bytes.len() == 12 + payload.len()
            &&& bytes[0] >= 0x80
            &&& wire::be_value(bytes.subrange(0, 8)) == 0x8000_0000_0000_0000 + (
            if header.is_config {
                0x4000_0000_0000_0000int
            } else {
                0
            }) + (if header.is_key {
                0x2000_0000_0000_0000int
            } else {
                0
            }) + header.pts
            &&& wire::be_value(bytes.subrange(8, 12)) == header.size
            &&& bytes.skip(12) == payload
        }),
{
    let bytes = packet_bytes(AVPacketView::Media { header, payload });
    let n = header.spec_pts_and_flags();
    wire::lemma_pow_256();
    wire::lemma_be_bytes_len(n, 8);
    wire::lemma_be_bytes_len(header.size as nat, 4);
    wire::lemma_decode_encode(n, 8);
    wire::lemma_decode_encode(header.size as nat, 4);
    wire::lemma_be_value_8(wire::be_bytes(n, 8));
    assert(bytes.subrange(0, 8) =~= wire::be_bytes(n, 8));
    assert(bytes[0] == wire::be_bytes(n, 8)[0]);
    assert(bytes.subrange(8, 12) =~= wire::be_bytes(header.size as nat, 4));
    assert(bytes.skip(12) =~= payload);
}

/// A codec packet on the wire: the codec in four bytes, the rotation in one, the frame
/// size in two, and five zero bytes.
pub proof fn lemma_codec_packet_layout(header: CodecPacketHeader)
    ensures
        ({
            let bytes = packet_bytes(AVPacketView::Codec { codec_header: header });
            &&& bytes.len() == 12
            &&& wire::be_value(bytes.subrange(0, 4)) == header.codec
            &&& bytes[4] == header.rotation
            &&& wire::be_value(bytes.subrange(5, 7)) == header.frame_size
            &&& forall|i: int| 7 <= i < 12 ==> #[trigger] bytes[i] == 0
        }),
{
    let bytes = header.spec_serialize();
    wire::lemma_pow_256();
    wire::lemma_be_bytes_len(header.codec as nat, 4);
    wire::lemma_be_bytes_len(header.frame_size as nat, 2);
    wire::lemma_decode_encode(header.codec as nat, 4);
    wire::lemma_decode_encode(header.frame_size as nat, 2);
    assert(bytes.subrange(0, 4) =~= wire::be_bytes(header.codec as nat, 4));
    assert(bytes.subrange(5, 7) =~= wire::be_bytes(header.frame_size as nat, 2));
}

/// A header with the first bit clear is a codec header, whatever its last five bytes are.
pub proof fn lemma_codec_header_is_read_as_written(header: CodecPacketHeader, tail: Seq<u8>)
    requires
        header.codec < 0x8000_0000,
        tail.len() == 5,
    ensures
        AVPacketHeader::spec_deserialize(
            wire::be_bytes(header.codec as nat, 4) + seq![header.rotation] + wire::be_bytes(
                header.frame_size as nat,
                2,
            ) + tail,
        ) == AVPacketHeader::Codec(header),
{
    let bytes = wire::be_bytes(header.codec as nat, 4) + seq![header.rotation] + wire::be_bytes(
        header.frame_size as nat,
        2,
    ) + tail;
    wire::lemma_pow_256();
    wire::lemma_be_bytes_len(header.codec as nat, 4);
    wire::lemma_be_bytes_len(header.frame_size as nat, 2);
    wire::lemma_decode_encode(header.codec as nat, 4);
    wire::lemma_decode_encode(header.frame_size as nat, 2);
    assert(bytes.take(4) =~= wire::be_bytes(header.codec as nat, 4));
    assert(bytes.subrange(5, 7) =~= wire::be_bytes(header.frame_size as nat, 2));
    wire::lemma_be_value_4(bytes.take(4));
}

} // verus!
