//! Packets over a single stream, one after the other.

use vstd::prelude::*;
use bytes::Bytes;
use crate::av;
use crate::av::{AVPacket, AVPacketHeader, AVPacketView, CodecPacket, MediaPacket};
use crate::error::{ProtocolError, ReadExactError};
use crate::wire;

verus! {

/// The most bytes that are read at once.
pub const MAX_READ: usize = 0x1_0000;

/// The header says how long the payload is.
pub open spec fn sized(packet: AVPacketView) -> bool {
    packet matches AVPacketView::Media { header, payload } ==> header.wf() && payload.len()
        == header.size
}

/// How many bytes follow the header `head`.
pub open spec fn spec_payload_size(head: Seq<u8>) -> nat {
    match AVPacketHeader::spec_deserialize(head) {
        AVPacketHeader::Media(header) => header.size as nat,
        AVPacketHeader::Codec(_) => 0,
    }
}

/// The packet with the header `head` and the payload `payload`.
pub open spec fn spec_read_packet(head: Seq<u8>, payload: Seq<u8>) -> AVPacketView {
    match AVPacketHeader::spec_deserialize(head) {
        AVPacketHeader::Media(header) => AVPacketView::Media { header, payload },
        AVPacketHeader::Codec(header) => AVPacketView::Codec { codec_header: header },
    }
}

/// The first packet of a stream, and what follows it; nothing if the stream
/// ends before the packet does.
pub open spec fn first_packet(stream: Seq<u8>) -> Option<(AVPacketView, Seq<u8>)> {
    if stream.len() < 12 || stream.len() < 12 + spec_payload_size(stream.take(12)) {
        None
    } else {
        let end = (12 + spec_payload_size(stream.take(12))) as int;
        Some((spec_read_packet(stream.take(12), stream.subrange(12, end)), stream.skip(end)))
    }
}

/// The packets of a stream.
pub open spec fn packets(stream: Seq<u8>) -> Seq<AVPacketView>
    decreases stream.len(),
{
    match first_packet(stream) {
        None => Seq::empty(),
        Some((packet, rest)) => if rest.len() < stream.len() {
            seq![packet] + packets(rest)
        } else {
            Seq::empty()
        },
    }
}

/// The bytes of packets, one after the other.
pub open spec fn stream_of(sent: Seq<AVPacketView>) -> Seq<u8>
    decreases sent.len(),
{
    if sent.len() == 0 {
        Seq::empty()
    } else {
        av::packet_bytes(sent[0]) + stream_of(sent.skip(1))
    }
}

/// How many bytes to read after the header of a packet.
pub fn payload_size(head: &[u8]) -> (r: u32)
    requires
        head@.len() == AVPacketHeader::SERIALIZED_SIZE,
    ensures
        r == spec_payload_size(head@),
{
    match AVPacketHeader::deserialize(head) {
        AVPacketHeader::Media(header) => header.size,
        AVPacketHeader::Codec(_) => 0,
    }
}

/// The packet with a given header and payload.
pub fn read_packet(head: &[u8], payload: Bytes) -> (packet: AVPacket)
    requires
        head@.len() == AVPacketHeader::SERIALIZED_SIZE,
        wire::bytes_seq(payload).len() == spec_payload_size(head@),
    ensures
        packet@ == spec_read_packet(head@, wire::bytes_seq(payload)),
{
    match AVPacketHeader::deserialize(head) {
        AVPacketHeader::Media(header) => AVPacket::Media(MediaPacket { header, payload }),
        AVPacketHeader::Codec(header) => AVPacket::Codec(CodecPacket { header }),
    }
}

/// Whether a stream that ends `read` bytes into a header ends cleanly: between
/// two packets.
pub fn is_clean_end(read: usize) -> (r: bool)
    ensures
        r == (read == 0),
{
    read == 0
}

/// How many bytes are still to be read of a packet that starts with `read`: the
/// rest of its header, and then the rest of its payload.
pub open spec fn spec_wanted(read: Seq<u8>) -> int {
    if read.len() < 12 {
        12 - read.len()
    } else {
        12 + spec_payload_size(read.take(12)) - read.len()
    }
}

/// Reads one packet from a stream, and nothing of what follows it.
#[derive(Debug)]
pub struct PacketReader {
    read: Vec<u8>,
}

impl View for PacketReader {
    type V = Seq<u8>;

    closed spec fn view(&self) -> Seq<u8> {
        self.read@
    }
}

impl PacketReader {
    /// Nothing was read that is not of the packet.
    pub open spec fn wf(&self) -> bool {
        spec_wanted(self@) >= 0
    }

    pub fn new() -> (r: Self)
        ensures
            r.wf(),
            r@ == Seq::<u8>::empty(),
    {
        PacketReader { read: Vec::new() }
    }

    /// How many bytes to read next. The packet is there once there are none.
    pub fn wanted(&self) -> (r: usize)
        requires
            self.wf(),
        ensures
            r == if spec_wanted(self@) <= MAX_READ {
                spec_wanted(self@)
            } else {
                MAX_READ as int
            },
    {
        let len: usize = self.read.len();
        if len < 12 {
            return 12 - len;
        }
        let size: usize = payload_size(&self.read.as_slice()[0..12]) as usize;
        assert(self.read@.subrange(0, 12) =~= self.read@.take(12));
        let missing: usize = size - (len - 12);
        if missing <= MAX_READ {
            missing
        } else {
            MAX_READ
        }
    }

    /// Takes bytes that were read.
    pub fn push(&mut self, bytes: &[u8])
        requires
            old(self).wf(),
            bytes@.len() <= spec_wanted(old(self)@),
        ensures
            final(self).wf(),
            final(self)@ == old(self)@ + bytes@,
    {
        let ghost before = self@;
        self.read.extend_from_slice(bytes);
        assert(self@ =~= before + bytes@);
        proof {
            if before.len() >= 12 {
                assert(self@.take(12) =~= before.take(12));
            }
        }
    }

    /// What it means that the stream has ended: it may end between two packets, and
    /// nowhere else.
    pub fn end(&self) -> (r: Result<(), ReadExactError>)
        requires
            self.wf(),
            spec_wanted(self@) > 0,
        ensures
            match r {
                Ok(_) => self@.len() == 0,
                Err(error) => self@.len() > 0 && error == ReadExactError::FinishedEarly(
                    if self@.len() < 12 {
                        self@.len() as usize
                    } else {
                        (self@.len() - 12) as usize
                    },
                ),
            },
    {
        let len: usize = self.read.len();
        if is_clean_end(len) {
            Ok(())
        } else if len < 12 {
            Err(ReadExactError::FinishedEarly(len))
        } else {
            Err(ReadExactError::FinishedEarly(len - 12))
        }
    }

    /// The packet that was read.
    pub fn packet(self) -> (packet: AVPacket)
        requires
            spec_wanted(self@) == 0,
            self@.len() <= isize::MAX,
        ensures
            packet@ == spec_read_packet(self@.take(12), self@.skip(12)),
    {
        let bytes = self.read.as_slice();
        let mut payload = wire::buffer_with_capacity(bytes.len() - 12);
        wire::put_slice(&mut payload, &bytes[12..bytes.len()]);
        let payload = wire::freeze(payload);
        assert(self.read@.subrange(0, 12) =~= self.read@.take(12));
        assert(wire::bytes_seq(payload) =~= self.read@.skip(12));
        read_packet(&bytes[0..12], payload)
    }
}

/// A reader that was given the start of a stream has its packet exactly when it was
/// given the first packet of the stream and nothing more. If the stream ends
/// before, it has no first packet.
pub proof fn lemma_reader_reads_first_packet(stream: Seq<u8>, read: int)
    requires
        0 <= read <= stream.len(),
        spec_wanted(stream.take(read)) >= 0,
    ensures
        spec_wanted(stream.take(read)) == 0 <==> (first_packet(stream) matches Some((_, rest))
            && rest.len() == stream.len() - read),
        spec_wanted(stream.take(read)) == 0 ==> first_packet(stream) == Some(
            (
                spec_read_packet(stream.take(read).take(12), stream.take(read).skip(12)),
                stream.skip(read),
            ),
        ),
        read == stream.len() && spec_wanted(stream.take(read)) > 0 ==> first_packet(stream) is None,
{
    let start = stream.take(read);
    if read >= 12 {
        assert(start.take(12) =~= stream.take(12));
        if spec_wanted(start) == 0 {
            assert(start.skip(12) =~= stream.subrange(12, read));
        }
    }
}

/// The bytes to write for a packet.
pub fn send(packet: &AVPacket) -> (bytes: Bytes)
    requires
        packet matches AVPacket::Media(media) ==> media.header.wf(),
        av::packet_bytes(packet@).len() <= isize::MAX,
    ensures
        wire::bytes_seq(bytes) == av::packet_bytes(packet@),
{
    match packet {
        AVPacket::Codec(packet) => {
            let header = packet.header.serialize();
            let mut buf = wire::buffer_with_capacity(header.len());
            wire::put_slice(&mut buf, &header);
            assert(wire::buffer_seq(buf) =~= header@);
            wire::freeze(buf)
        },
        AVPacket::Media(packet) => {
            let header = packet.header.serialize();
            let payload = wire::as_slice(&packet.payload);
            let mut buf = wire::buffer_with_capacity(header.len() + payload.len());
            wire::put_slice(&mut buf, &header);
            wire::put_slice(&mut buf, payload);
            assert(wire::buffer_seq(buf) =~= header@ + payload@);
            wire::freeze(buf)
        },
    }
}

/// What a channel brings before the stream of packets is there.
#[derive(Clone, Copy, Debug, PartialEq, Eq, Structural)]
pub enum Arrival {
    Uni,
    Bi,
    Datagram,
}

/// Whether an arrival is the stream of packets. Datagrams are ignored; a
/// bidirectional stream is an error.
pub fn start_recv(arrival: Arrival) -> (r: Result<bool, ProtocolError>)
    ensures
        match r {
            Ok(started) => arrival != Arrival::Bi && started == (arrival == Arrival::Uni),
            Err(error) => arrival == Arrival::Bi && error.0@ == "Unexpected accept_bi()"@,
        },
{
    match arrival {
        Arrival::Uni => Ok(true),
        Arrival::Bi => Err(ProtocolError::new("Unexpected accept_bi()")),
        Arrival::Datagram => Ok(false),
    }
}

/// A packet at the head of a stream is read as it was written, and nothing of
/// what follows is touched. A codec has its top bit clear.
pub proof fn lemma_first_packet(packet: AVPacketView, rest: Seq<u8>)
    requires
        sized(packet),
        packet matches AVPacketView::Codec { codec_header } ==> codec_header.codec < 0x8000_0000,
    ensures
        first_packet(av::packet_bytes(packet) + rest) == Some((packet, rest)),
        av::packet_bytes(packet).len() >= 12,
{
    let stream = av::packet_bytes(packet) + rest;
    match packet {
        AVPacketView::Codec { codec_header } => {
            av::lemma_codec_header_roundtrip(codec_header);
            assert(stream.take(12) =~= codec_header.spec_serialize());
            assert(stream.skip(12) =~= rest);
        },
        AVPacketView::Media { header, payload } => {
            av::lemma_media_header_roundtrip(header);
            let end = (12 + header.size) as int;
            assert(stream.take(12) =~= header.spec_serialize());
            assert(stream.subrange(12, end) =~= payload);
            assert(stream.skip(end) =~= rest);
        },
    }
}

/// A stream gives back the packets that were written to it, in order.
pub proof fn lemma_stream_roundtrip(sent: Seq<AVPacketView>)
    requires
        forall|i: int|
            0 <= i < sent.len() ==> {
                &&& sized(#[trigger] sent[i])
                &&& sent[i] matches AVPacketView::Codec { codec_header } ==> codec_header.codec
                    < 0x8000_0000
            },
    ensures
        packets(stream_of(sent)) == sent,
    decreases sent.len(),
{
    if sent.len() == 0 {
        assert(packets(stream_of(sent)) =~= sent);
    } else {
        let rest = sent.skip(1);
        assert forall|i: int| 0 <= i < rest.len() implies {
            &&& sized(#[trigger] rest[i])
            &&& rest[i] matches AVPacketView::Codec { codec_header } ==> codec_header.codec
                < 0x8000_0000
        } by {
            assert(rest[i] == sent[i + 1]);
        }
        lemma_stream_roundtrip(rest);
        assert(sized(sent[0]));
        lemma_first_packet(sent[0], stream_of(rest));
        assert(seq![sent[0]] + rest =~= sent);
    }
}

/// A packet that is cut short is not read.
pub proof fn lemma_cut_packet_is_not_read(packet: AVPacketView, n: int)
    requires
        sized(packet),
        packet matches AVPacketView::Codec { codec_header } ==> codec_header.codec < 0x8000_0000,
        0 <= n < av::packet_bytes(packet).len(),
    ensures
        first_packet(av::packet_bytes(packet).take(n)) is None,
{
    let bytes = av::packet_bytes(packet);
    let cut = bytes.take(n);
    if n >= 12 {
        assert(cut.take(12) =~= bytes.take(12));
        match packet {
            AVPacketView::Codec { codec_header } => {
                av::lemma_codec_header_roundtrip(codec_header);
            },
            AVPacketView::Media { header, payload } => {
                av::lemma_media_header_roundtrip(header);
                assert(bytes.take(12) =~= header.spec_serialize());
            },
        }
    }
}

/// Reading a packet asks for its header first and then for its payload, and for nothing
/// that is not of the packet: whatever was read of it, what is wanted is no more than what
/// is left of it.
pub proof fn lemma_reader_wants_only_the_packet(packet: AVPacketView, n: int)
    requires
        sized(packet),
        packet matches AVPacketView::Codec { codec_header } ==> codec_header.codec < 0x8000_0000,
        0 <= n <= av::packet_bytes(packet).len(),
    ensures
        ({
            let bytes = av::packet_bytes(packet);
            &&& n < 12 ==> spec_wanted(bytes.take(n)) == 12 - n
            &&& n >= 12 ==> spec_wanted(bytes.take(n)) == bytes.len() - n
            &&& 12 <= bytes.len()
        }),
{
    let bytes = av::packet_bytes(packet);
    match packet {
        AVPacketView::Codec { codec_header } => {
            av::lemma_codec_header_roundtrip(codec_header);
            assert(bytes.take(12) =~= codec_header.spec_serialize());
        },
        AVPacketView::Media { header, payload } => {
            av::lemma_media_header_roundtrip(header);
            assert(bytes.take(12) =~= header.spec_serialize());
        },
    }
    if n >= 12 {
        assert(bytes.take(n).take(12) =~= bytes.take(12));
    }
}

} // verus!
