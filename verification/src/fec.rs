//! Video over datagrams with forward error correction.
//!
//! Codec and config packets go over a stream. Every other packet is encoded into
//! more symbols than needed, one per datagram, so that the receiver can do
//! without some of them.

use vstd::prelude::*;
use vstd::string::*;
use bytes::Bytes;
use crate::audio_unreliable;
use crate::audio_unreliable::{Outgoing, OutgoingView};
use crate::error::Error;
use crate::kypacket;
use crate::kypacket::{MediaPacket, Packet, PacketView};
use crate::pending::{DatagramPacket, Keyed, Reassembly};
use crate::raptor;
use crate::wire;

verus! {

/// A datagram starts with the endpoint id (64 bits), the packet's sequence
/// number (32 bits), its group's (32 bits), the code's configuration (96 bits)
/// and the symbol's id (32 bits).
pub const HEADER_SIZE: usize = 32;

/// How many repair symbols go with `source` source symbols: 30 percent of them,
/// rounded up, and at least two.
pub open spec fn spec_repair_symbols(source: nat) -> nat {
    let share = raptor::div_ceil(3 * source, 10);
    if share < 2 {
        2
    } else {
        share
    }
}

pub fn repair_symbols(source: u32) -> (r: u32)
    requires
        source <= raptor::MAX_SYMBOLS,
    ensures
        r == spec_repair_symbols(source as nat),
        r <= raptor::MAX_REPAIR_SYMBOLS,
        r >= 2,
        10 * r >= 3 * source,
        r == 2 || 10 * (r - 1) < 3 * source,
{
    let share: u32 = (3 * source + 9) / 10;
    if share < 2 {
        2
    } else {
        share
    }
}

/// A datagram on the wire.
pub open spec fn datagram_bytes(
    endpoint_id: u64,
    kypacket_seq: u32,
    group_seq: u32,
    oti: Seq<u8>,
    packet: Seq<u8>,
) -> Seq<u8> {
    wire::be_bytes(endpoint_id as nat, 8) + wire::be_bytes(kypacket_seq as nat, 4)
        + wire::be_bytes(group_seq as nat, 4) + oti + packet
}

/// The datagrams of encoded packets.
pub open spec fn all_datagrams(
    endpoint_id: u64,
    kypacket_seq: u32,
    group_seq: u32,
    oti: Seq<u8>,
    packets: Seq<Seq<u8>>,
) -> Seq<Seq<u8>> {
    packets.map_values(
        |packet: Seq<u8>| datagram_bytes(endpoint_id, kypacket_seq, group_seq, oti, packet),
    )
}

/// How many repair symbols go with a packet of that length.
pub open spec fn repair_count(len: nat, max_datagram_size: usize) -> nat {
    spec_repair_symbols(source_count(len, max_datagram_size))
}

/// The configuration of the encoding of a packet of that length.
pub open spec fn encoding_config(len: nat, max_datagram_size: usize) -> Seq<u8> {
    raptor::raptorq_config(len, (max_datagram_size - HEADER_SIZE) as nat)
}

/// The symbols of the encoding of a packet, source and repair.
pub open spec fn encoding(data: Seq<u8>, max_datagram_size: usize) -> Seq<Seq<u8>> {
    raptor::raptorq_packets(
        data,
        (max_datagram_size - HEADER_SIZE) as nat,
        repair_count(data.len(), max_datagram_size),
    )
}

/// How many source symbols a packet of that length has.
pub open spec fn source_count(len: nat, max_datagram_size: usize) -> nat {
    raptor::div_ceil(len, raptor::aligned((max_datagram_size - HEADER_SIZE) as nat))
}

/// How many datagrams a packet of that length goes in: one for every source
/// symbol, and those of the repair symbols of every block. A packet of up to
/// `raptor::MAX_BLOCK_SYMBOLS` symbols has one block.
pub open spec fn datagram_count(len: nat, max_datagram_size: usize) -> nat {
    let source = source_count(len, max_datagram_size);
    source + raptor::div_ceil(source, raptor::MAX_BLOCK_SYMBOLS as nat) * repair_count(
        len,
        max_datagram_size,
    )
}

/// A packet can be recovered with the configuration of its encoding, and every
/// symbol fits it; there are as many symbols as there should be. Those of a packet
/// that has one block are its source symbols, and then the repair symbols.
pub open spec fn is_encoding(data: Seq<u8>, max_datagram_size: usize) -> bool {
    let config = encoding_config(data.len(), max_datagram_size);
    &&& raptor::usable_config(config)
    &&& config == raptor::canonical(config)
    &&& raptor::symbol_size(config) == raptor::aligned((max_datagram_size - HEADER_SIZE) as nat)
    &&& encoding(data, max_datagram_size).len() == datagram_count(data.len(), max_datagram_size)
    &&& source_count(data.len(), max_datagram_size) <= raptor::MAX_BLOCK_SYMBOLS ==> forall|
        i: int,
    |
        0 <= i < encoding(data, max_datagram_size).len() ==> raptor::is_source(
            config,
            #[trigger] encoding(data, max_datagram_size)[i],
        ) == (i < source_count(data.len(), max_datagram_size))
    &&& forall|i: int|
        0 <= i < encoding(data, max_datagram_size).len() ==> raptor::fits(
            config,
            #[trigger] encoding(data, max_datagram_size)[i],
        )
}

/// Wraps encoded packets into datagrams.
pub fn wrap_packets(
    endpoint_id: u64,
    kypacket_seq: u32,
    group_seq: u32,
    oti: &[u8; 12],
    packets: &Vec<Vec<u8>>,
) -> (datagrams: Vec<Bytes>)
    requires
        forall|i: int|
            0 <= i < packets@.len() ==> (#[trigger] packets@[i])@.len() + HEADER_SIZE <= isize::MAX,
    ensures
        audio_unreliable::bytes_seqs(datagrams@) == all_datagrams(
            endpoint_id,
            kypacket_seq,
            group_seq,
            oti@,
            raptor::seqs(packets@),
        ),
{
    let ghost expected = all_datagrams(
        endpoint_id,
        kypacket_seq,
        group_seq,
        oti@,
        raptor::seqs(packets@),
    );
    let mut datagrams: Vec<Bytes> = Vec::new();
    let mut i: usize = 0;
    while i < packets.len()
        invariant
            i <= packets.len(),
            expected == all_datagrams(
                endpoint_id,
                kypacket_seq,
                group_seq,
                oti@,
                raptor::seqs(packets@),
            ),
            forall|i: int|
                0 <= i < packets@.len() ==> (#[trigger] packets@[i])@.len() + HEADER_SIZE
                    <= isize::MAX,
            audio_unreliable::bytes_seqs(datagrams@) =~= expected.take(i as int),
        decreases packets.len() - i,
    {
        proof {
            wire::lemma_be_bytes_len(endpoint_id as nat, 8);
            wire::lemma_be_bytes_len(kypacket_seq as nat, 4);
            wire::lemma_be_bytes_len(group_seq as nat, 4);
        }
        let packet = packets[i].as_slice();
        assert(packets@[i as int]@ == packet@);
        let mut buf = wire::buffer_with_capacity(28 + packet.len());
        wire::put_u64(&mut buf, endpoint_id);
        wire::put_u32(&mut buf, kypacket_seq);
        wire::put_u32(&mut buf, group_seq);
        wire::put_slice(&mut buf, oti);
        wire::put_slice(&mut buf, packet);
        assert(wire::buffer_seq(buf) =~= datagram_bytes(
            endpoint_id,
            kypacket_seq,
            group_seq,
            oti@,
            packet@,
        ));
        let ghost before = audio_unreliable::bytes_seqs(datagrams@);
        let datagram = wire::freeze(buf);
        datagrams.push(datagram);
        assert(audio_unreliable::bytes_seqs(datagrams@) =~= before.push(
            wire::bytes_seq(datagram),
        ));
        i += 1;
    }
    assert(expected.take(i as int) =~= expected);
    datagrams
}

/// The sending side: the numbers of the next packet and of the current group.
/// Both wrap around.
#[derive(Debug)]
pub struct Sender {
    pub kypacket_seq: u32,
    pub group_seq: u32,
}

impl Sender {
    /// The first config packet opens group 0.
    pub fn new() -> (r: Self)
        ensures
            r.kypacket_seq == 0,
            r.group_seq == u32::MAX,
    {
        Sender { kypacket_seq: 0, group_seq: u32::MAX }
    }

    /// The symbol size leaves room for the header in datagrams whose size fits 16
    /// bits, and the packet is not too large for the code.
    pub open spec fn fits(data: Seq<u8>, max_datagram_size: usize) -> bool {
        &&& HEADER_SIZE < max_datagram_size < 0x1_0000
        &&& raptor::encodable(data.len(), (max_datagram_size - HEADER_SIZE) as nat)
    }

    /// Whether a packet of `len` bytes can be sent in datagrams of that size.
    pub fn can_send(len: usize, max_datagram_size: usize) -> (r: bool)
        ensures
            r == (HEADER_SIZE < max_datagram_size < 0x1_0000 && raptor::encodable(
                len as nat,
                (max_datagram_size - HEADER_SIZE) as nat,
            )),
    {
        if max_datagram_size <= HEADER_SIZE || max_datagram_size >= 0x1_0000 || len == 0 {
            return false;
        }
        let mtu: usize = max_datagram_size - HEADER_SIZE;
        let symbol_size: usize = if mtu >= 64 {
            mtu - mtu % 8
        } else {
            mtu
        };
        proof {
            lemma_div_ceil(len as nat, symbol_size as nat);
        }
        let whole: usize = len / symbol_size;
        if len % symbol_size == 0 {
            whole <= raptor::MAX_SYMBOLS as usize
        } else {
            whole < raptor::MAX_SYMBOLS as usize
        }
    }

    /// The datagrams of a packet: the packets of its encoding, source and repair.
    pub open spec fn spec_datagrams(
        self,
        data: Seq<u8>,
        endpoint_id: u64,
        max_datagram_size: usize,
    ) -> Seq<Seq<u8>> {
        all_datagrams(
            endpoint_id,
            self.kypacket_seq,
            self.group_seq,
            encoding_config(data.len(), max_datagram_size),
            encoding(data, max_datagram_size),
        )
    }

    fn send_datagrams(
        &self,
        packet: &MediaPacket,
        endpoint_id: u64,
        max_datagram_size: Option<usize>,
    ) -> (r: Result<Vec<Bytes>, Error>)
        requires
            max_datagram_size matches Some(max) ==> Self::fits(packet.data@, max),
        ensures
            match r {
                Ok(datagrams) => {
                    &&& max_datagram_size matches Some(max)
                    &&& audio_unreliable::bytes_seqs(datagrams@) == self.spec_datagrams(
                        packet.data@,
                        endpoint_id,
                        max,
                    )
                    &&& datagrams@.len() == datagram_count(packet.data@.len(), max)
                    &&& is_encoding(packet.data@, max)
                },
                Err(error) => {
                    &&& max_datagram_size is None
                    &&& error matches Error::KymuxProtocolError(text) && text@
                        == "Datagrams not supported"@
                },
            },
    {
        let max: usize = match max_datagram_size {
            None => return Err(
                Error::KymuxProtocolError("Datagrams not supported".to_owned()),
            ),
            Some(max) => max,
        };
        let max_payload_size: u16 = (max - HEADER_SIZE) as u16;
        let encoder = raptor::new_encoder(packet.data.as_slice(), max_payload_size);
        let oti = raptor::config_of(&encoder);
        let symbol_size: usize = wire::read_u16(&oti[6..8]) as usize;
        assert(oti@.subrange(6, 8).take(2) =~= oti@.subrange(6, 8));
        assert(symbol_size == raptor::aligned(max_payload_size as nat));
        let kypacket_size: usize = packet.data.len();
        let whole: usize = kypacket_size / symbol_size;
        proof {
            lemma_div_ceil(kypacket_size as nat, symbol_size as nat);
        }
        let source_symbols: usize = if kypacket_size % symbol_size == 0 {
            whole
        } else {
            whole + 1
        };
        let repair: u32 = repair_symbols(source_symbols as u32);
        let packets = raptor::packets_of(&encoder, repair);
        proof {
            assert forall|i: int| 0 <= i < packets@.len() implies (
            #[trigger] packets@[i])@.len() + HEADER_SIZE <= isize::MAX by {
                assert(raptor::seqs(packets@)[i] == packets@[i]@);
            }
        }
        let datagrams = wrap_packets(
            endpoint_id,
            self.kypacket_seq,
            self.group_seq,
            &oti,
            &packets,
        );
        assert(audio_unreliable::bytes_seqs(datagrams@).len() == datagrams@.len());
        Ok(datagrams)
    }

    /// The numbers after a packet. A codec packet has none. A config packet opens
    /// a new group.
    pub open spec fn after(self, packet: PacketView) -> Self {
        match packet {
            PacketView::Codec { .. } => self,
            PacketView::Media { header, .. } => Sender {
                kypacket_seq: audio_unreliable::next_u32(self.kypacket_seq),
                group_seq: if header.is_config {
                    audio_unreliable::next_u32(self.group_seq)
                } else {
                    self.group_seq
                },
            },
        }
    }

    /// The packet goes over datagrams.
    pub open spec fn needs_datagrams(packet: PacketView) -> bool {
        packet matches PacketView::Media { header, .. } && !header.is_config
    }

    /// A codec packet goes over the stream with meaningless numbers. A config
    /// packet goes over the stream with its number and its new group's. Any
    /// other packet goes in datagrams.
    pub open spec fn outgoing(
        self,
        packet: PacketView,
        endpoint_id: u64,
        max_datagram_size: usize,
    ) -> OutgoingView {
        match packet {
            PacketView::Codec { codec } => OutgoingView::Stream(stream_bytes(0, 0, codec)),
            PacketView::Media { data, header } => if header.is_config {
                OutgoingView::Stream(
                    stream_bytes(
                        self.kypacket_seq,
                        audio_unreliable::next_u32(self.group_seq),
                        data,
                    ),
                )
            } else {
                OutgoingView::Datagrams(self.spec_datagrams(data, endpoint_id, max_datagram_size))
            },
        }
    }

    /// Sends a packet: tells what goes out, and counts it.
    pub fn send_video(
        &mut self,
        packet: Packet,
        endpoint_id: u64,
        max_datagram_size: Option<usize>,
    ) -> (r: Result<Outgoing, Error>)
        requires
            packet@.bytes().len() + 8 <= isize::MAX,
            Self::needs_datagrams(packet@) ==> (max_datagram_size matches Some(max) ==> Self::fits(
                packet@.bytes(),
                max,
            )),
        ensures
            match r {
                Ok(outgoing) => {
                    &&& Self::needs_datagrams(packet@) ==> max_datagram_size is Some
                    &&& outgoing@ == old(self).outgoing(
                        packet@,
                        endpoint_id,
                        max_datagram_size.unwrap(),
                    )
                    &&& *final(self) == old(self).after(packet@)
                    &&& Self::needs_datagrams(packet@) ==> is_encoding(
                        packet@.bytes(),
                        max_datagram_size.unwrap(),
                    )
                    &&& outgoing@ matches OutgoingView::Datagrams(datagrams) ==> datagrams.len()
                        == datagram_count(packet@.bytes().len(), max_datagram_size.unwrap())
                },
                Err(error) => {
                    &&& Self::needs_datagrams(packet@)
                    &&& max_datagram_size is None
                    &&& error matches Error::KymuxProtocolError(text) && text@
                        == "Datagrams not supported"@
                    &&& *final(self) == *old(self)
                },
            },
    {
        match packet {
            Packet::Codec(packet) => Ok(
                Outgoing::Stream(framed(0, 0, packet.header.as_slice())),
            ),
            Packet::Media(packet) => {
                let outgoing = if packet.header.is_config {
                    self.group_seq = if self.group_seq == u32::MAX {
                        0
                    } else {
                        self.group_seq + 1
                    };
                    Outgoing::Stream(
                        framed(self.kypacket_seq, self.group_seq, packet.data.as_slice()),
                    )
                } else {
                    match self.send_datagrams(&packet, endpoint_id, max_datagram_size) {
                        Err(error) => {
                            return Err(error);
                        },
                        Ok(datagrams) => Outgoing::Datagrams(datagrams),
                    }
                };
                self.kypacket_seq = if self.kypacket_seq == u32::MAX {
                    0
                } else {
                    self.kypacket_seq + 1
                };
                Ok(outgoing)
            },
        }
    }
}

/// A packet on the stream: its number, its group's, the packet itself.
pub open spec fn stream_bytes(kypacket_seq: u32, group_seq: u32, packet: Seq<u8>) -> Seq<u8> {
    wire::be_bytes(kypacket_seq as nat, 4) + wire::be_bytes(group_seq as nat, 4) + packet
}

/// A packet on the stream is read as it was written: its number, its group's, the
/// packet itself, and then what follows.
pub proof fn lemma_stream_packet_roundtrip(
    kypacket_seq: u32,
    group_seq: u32,
    packet: Seq<u8>,
    rest: Seq<u8>,
)
    requires
        kypacket::is_packet(packet),
    ensures
        ({
            let stream = stream_bytes(kypacket_seq, group_seq, packet) + rest;
            &&& wire::be_value(stream.take(8).take(4)) == kypacket_seq
            &&& wire::be_value(stream.take(8).skip(4)) == group_seq
            &&& kypacket::first_packet(stream.skip(8)) == Some(
                (kypacket::spec_packet(packet), rest),
            )
        }),
{
    let stream = stream_bytes(kypacket_seq, group_seq, packet) + rest;
    wire::lemma_pow_256();
    wire::lemma_be_bytes_len(kypacket_seq as nat, 4);
    wire::lemma_be_bytes_len(group_seq as nat, 4);
    wire::lemma_decode_encode(kypacket_seq as nat, 4);
    wire::lemma_decode_encode(group_seq as nat, 4);
    assert(stream.take(8).take(4) =~= wire::be_bytes(kypacket_seq as nat, 4));
    assert(stream.take(8).skip(4) =~= wire::be_bytes(group_seq as nat, 4));
    kypacket::lemma_first_packet(packet, rest);
    assert(stream.skip(8) =~= packet + rest);
}

fn framed(kypacket_seq: u32, group_seq: u32, packet: &[u8]) -> (r: Bytes)
    requires
        packet@.len() + 8 <= isize::MAX,
    ensures
        wire::bytes_seq(r) == stream_bytes(kypacket_seq, group_seq, packet@),
{
    proof {
        wire::lemma_be_bytes_len(kypacket_seq as nat, 4);
        wire::lemma_be_bytes_len(group_seq as nat, 4);
    }
    let mut buf = wire::buffer_with_capacity(8 + packet.len());
    wire::put_u32(&mut buf, kypacket_seq);
    wire::put_u32(&mut buf, group_seq);
    wire::put_slice(&mut buf, packet);
    assert(wire::buffer_seq(buf) =~= stream_bytes(kypacket_seq, group_seq, packet@));
    wire::freeze(buf)
}

/// Rounding up is rounding down, plus one unless the division is exact.
proof fn lemma_div_ceil(a: nat, b: nat)
    requires
        b > 0,
    ensures
        raptor::div_ceil(a, b) == a / b + if a % b == 0 {
            0nat
        } else {
            1
        },
{
    let q = a / b;
    let r = a % b;
    assert(a == b * q + r && r < b) by (nonlinear_arith)
        requires
            b > 0,
            q == a / b,
            r == a % b,
    ;
    let n = a + b - 1;
    if r == 0 {
        assert(n / b as int == q) by (nonlinear_arith)
            requires
                b > 0,
                n == b * q + b - 1,
        ;
    } else {
        assert(n / b as int == q + 1) by (nonlinear_arith)
            requires
                b > 0,
                n == b * q + r + b - 1,
                1 <= r < b,
        ;
    }
}

/// A symbol as a datagram brings it: the configuration, and the packet, which
/// is the symbol's id and the symbol.
#[derive(Debug)]
pub struct FecPart {
    pub oti: [u8; 12],
    pub packet: Bytes,
}

#[verifier::ext_equal]
pub struct FecPartView {
    pub oti: Seq<u8>,
    pub packet: Seq<u8>,
}

impl View for FecPart {
    type V = FecPartView;

    open spec fn view(&self) -> FecPartView {
        FecPartView { oti: self.oti@, packet: wire::bytes_seq(self.packet) }
    }
}

/// What is known of a packet under assembly: its configuration, and the symbols
/// that have arrived.
#[verifier::ext_equal]
pub struct FecView {
    pub config: Seq<u8>,
    pub packets: Seq<Seq<u8>>,
}

impl FecView {
    /// The data, once enough symbols have arrived.
    pub open spec fn decoded(self) -> Option<Seq<u8>> {
        if self.packets.len() == 0 {
            None
        } else {
            raptor::raptorq_decode(self.config, self.packets)
        }
    }

    /// A symbol belongs if it has the same configuration and is of a block that
    /// exists, and if nothing was recovered yet.
    pub open spec fn can_add(self, part: FecPartView) -> bool {
        &&& self.decoded() is None
        &&& raptor::canonical(part.oti) == self.config
        &&& part.packet.len() >= 4
        &&& part.packet[0] < raptor::source_blocks(self.config)
    }

    /// Something can be recovered from the symbol: blocks can be decoded, and no
    /// byte that the sub-blocks cover is missing.
    pub open spec fn is_useful(self, packet: Seq<u8>) -> bool {
        &&& raptor::usable_config(self.config)
        &&& packet.len() >= 4 + raptor::covered_size(self.config)
    }

    /// One more symbol. The bytes that it has too many are ignored. A symbol that
    /// nothing can be recovered from makes no difference.
    pub open spec fn added(self, part: FecPartView) -> FecView {
        if self.is_useful(part.packet) {
            let packet = resized(part.packet, 4 + raptor::symbol_size(self.config));
            FecView { packets: self.packets.push(packet), ..self }
        } else {
            self
        }
    }

    /// What was recovered is right, as far as the symbols are those of an
    /// encoding.
    pub open spec fn is_right(self) -> bool {
        self.packets.len() > 0 ==> raptor::decodes_right(self.config, self.packets, self.decoded())
    }

    /// The packet that was recovered, if it is a media packet.
    pub open spec fn assembled(self) -> Option<PacketView> {
        match self.decoded() {
            None => None,
            Some(data) => spec_media_packet(data),
        }
    }
}

/// The first `len` bytes, with zeros for those that are missing.
pub open spec fn resized(bytes: Seq<u8>, len: nat) -> Seq<u8> {
    Seq::new(
        len,
        |i: int|
            if i < bytes.len() {
                bytes[i]
            } else {
                0
            },
    )
}

/// The first `len` bytes, with zeros for those that are missing.
fn resize(bytes: &[u8], len: usize) -> (r: Vec<u8>)
    ensures
        r@ == resized(bytes@, len as nat),
{
    let mut r: Vec<u8> = Vec::new();
    let mut i: usize = 0;
    while i < len
        invariant
            i <= len,
            r@ == resized(bytes@, i as nat),
        decreases len - i,
    {
        let byte: u8 = if i < bytes.len() {
            bytes[i]
        } else {
            0
        };
        r.push(byte);
        i += 1;
        assert(r@ =~= resized(bytes@, i as nat));
    }
    r
}

/// The media packet that the bytes are, if they are one.
pub open spec fn spec_media_packet(data: Seq<u8>) -> Option<PacketView> {
    if data.len() >= kypacket::HEADER_SIZE && kypacket::is_media(data) {
        Some(PacketView::Media { data, header: kypacket::spec_header(data) })
    } else {
        None
    }
}

/// The media packet that the bytes are, if they are one.
pub fn media_packet(data: Vec<u8>) -> (r: Option<MediaPacket>)
    ensures
        match r {
            Some(packet) => spec_media_packet(data@) == Some(packet@),
            None => spec_media_packet(data@) is None,
        },
{
    if data.len() >= kypacket::HEADER_SIZE && data[4] >= 0x80 {
        let header = Packet::parse_media_packet_header(data.as_slice());
        Some(MediaPacket { data, header })
    } else {
        None
    }
}

/// A packet under assembly.
pub struct DatagramSegments {
    kypacket_seq: u64,
    oti: [u8; 12],
    decoder: raptorq::Decoder,
    assembled: Option<Vec<u8>>,
}

impl View for DatagramSegments {
    type V = FecView;

    closed spec fn view(&self) -> FecView {
        FecView {
            config: raptor::decoder_config(self.decoder),
            packets: raptor::decoder_packets(self.decoder),
        }
    }
}

impl Keyed for DatagramSegments {
    closed spec fn spec_key(&self) -> u64 {
        self.kypacket_seq
    }

    fn key(&self) -> u64 {
        self.kypacket_seq
    }
}

/// The reserved byte does not make a configuration valid or not.
proof fn lemma_canonical(config: Seq<u8>)
    requires
        config.len() == 12,
    ensures
        raptor::symbol_size(raptor::canonical(config)) == raptor::symbol_size(config),
        raptor::source_blocks(raptor::canonical(config)) == raptor::source_blocks(config),
        raptor::valid_config(raptor::canonical(config)) == raptor::valid_config(config),
        raptor::usable_config(raptor::canonical(config)) == raptor::usable_config(config),
        raptor::covered_size(raptor::canonical(config)) == raptor::covered_size(config),
{
    let c = raptor::canonical(config);
    assert(c.subrange(0, 5) =~= config.subrange(0, 5));
    assert(c.subrange(6, 8) =~= config.subrange(6, 8));
    assert(c.subrange(9, 11) =~= config.subrange(9, 11));
}

/// Whether a decoder can be made with a configuration.
pub fn is_valid_config(config: &[u8; 12]) -> (r: bool)
    ensures
        r == raptor::valid_config(config@),
{
    let high: u8 = config[0];
    let low: u32 = wire::read_u32(&config[1..5]);
    let length: u64 = high as u64 * 0x1_0000_0000 + low as u64;
    let size: u16 = wire::read_u16(&config[6..8]);
    let blocks: u8 = config[8];
    proof {
        let s = config@.subrange(0, 5);
        assert(config@.subrange(1, 5).take(4) =~= config@.subrange(1, 5));
        assert(config@.subrange(6, 8).take(2) =~= config@.subrange(6, 8));
        wire::lemma_be_value_4(config@.subrange(1, 5));
        reveal_with_fuel(wire::be_value, 6);
        assert(length == raptor::transfer_length(config@));
    }
    if size == 0 || blocks == 0 {
        return false;
    }
    let symbols: u64 = (length + size as u64 - 1) / size as u64 % 0x1_0000_0000;
    let per_block: u64 = (symbols + blocks as u64 - 1) / blocks as u64;
    per_block <= raptor::MAX_BLOCK_SYMBOLS as u64
}

/// How long a symbol has to be for something to be recovered from it: nothing can
/// be if blocks cannot be decoded.
fn least_size(config: &[u8; 12]) -> (r: Option<usize>)
    requires
        raptor::valid_config(config@),
    ensures
        match r {
            Some(size) => raptor::usable_config(config@) && size == raptor::covered_size(config@),
            None => !raptor::usable_config(config@),
        },
{
    let size: u16 = wire::read_u16(&config[6..8]);
    let subs: u16 = wire::read_u16(&config[9..11]);
    let alignment: u16 = config[11] as u16;
    proof {
        assert(config@.subrange(6, 8).take(2) =~= config@.subrange(6, 8));
        assert(config@.subrange(9, 11).take(2) =~= config@.subrange(9, 11));
    }
    if subs == 0 || alignment == 0 {
        return None;
    }
    let units: u16 = size / alignment;
    assert(units * alignment <= size) by (nonlinear_arith)
        requires
            units == size / alignment,
            alignment > 0,
    ;
    Some((units * alignment) as usize)
}

/// Whether two configurations are the same but for the reserved byte.
fn same_config(a: &[u8; 12], b: &[u8; 12]) -> (r: bool)
    ensures
        r == (raptor::canonical(a@) == raptor::canonical(b@)),
{
    let mut i: usize = 0;
    while i < 12
        invariant
            i <= 12,
            forall|j: int| 0 <= j < i ==> j == 5 || a@[j] == b@[j],
        decreases 12 - i,
    {
        if i != 5 && a[i] != b[i] {
            assert(raptor::canonical(a@)[i as int] != raptor::canonical(b@)[i as int]);
            return false;
        }
        i += 1;
    }
    assert(raptor::canonical(a@) =~= raptor::canonical(b@));
    true
}

impl DatagramSegments {
    pub closed spec fn is_wf(&self) -> bool {
        &&& self@.config == raptor::canonical(self.oti@)
        &&& raptor::valid_config(self@.config)
        &&& self@.is_right()
        &&& match self.assembled {
            Some(data) => self@.decoded() == Some(data@),
            None => self@.decoded() is None,
        }
    }

    pub fn new(kypacket_seq: u64, oti: [u8; 12]) -> (r: Self)
        requires
            raptor::valid_config(oti@),
        ensures
            r.is_wf(),
            r.spec_key() == kypacket_seq,
            r@.config == raptor::canonical(oti@),
            r@.packets == Seq::<Seq<u8>>::empty(),
    {
        proof {
            lemma_canonical(oti@);
        }
        let decoder = raptor::new_decoder(&oti);
        DatagramSegments { kypacket_seq, oti, decoder, assembled: None }
    }

    /// Takes one more symbol. Symbols of the encoding of a packet give nothing
    /// but that packet, and all source symbols do give it. Which repair symbols
    /// can stand for which source symbols is left unsaid.
    pub fn add_packet(&mut self, oti: &[u8; 12], packet: &[u8])
        requires
            old(self).is_wf(),
            old(self)@.can_add(FecPartView { oti: oti@, packet: packet@ }),
        ensures
            final(self).is_wf(),
            final(self).spec_key() == old(self).spec_key(),
            final(self)@ == old(self)@.added(FecPartView { oti: oti@, packet: packet@ }),
            final(self)@.is_right(),
    {
        proof {
            lemma_canonical(self.oti@);
            assert(self.oti@.subrange(6, 8).take(2) =~= self.oti@.subrange(6, 8));
        }
        if let Some(least) = least_size(&self.oti) {
            if packet.len() - 4 >= least {
                let size: usize = wire::read_u16(&self.oti[6..8]) as usize;
                let packet = resize(packet, 4 + size);
                self.assembled = raptor::decode(&mut self.decoder, packet.as_slice());
            }
        }
    }

    pub fn is_complete(&self) -> (r: bool)
        requires
            self.is_wf(),
        ensures
            r == (self@.decoded() is Some),
    {
        self.assembled.is_some()
    }

    /// The recovered packet, with the time it was put together.
    pub fn assemble(self, now: u64) -> (r: Option<DatagramPacket<MediaPacket>>)
        requires
            self.is_wf(),
            self@.decoded() is Some,
        ensures
            match r {
                Some(datagram) => {
                    &&& self@.assembled() == Some(datagram.packet@)
                    &&& datagram.kypacket_seq == self.spec_key()
                    &&& datagram.instant == now
                },
                None => self@.assembled() is None,
            },
    {
        match self.assembled {
            None => None,
            Some(data) => {
                match media_packet(data) {
                    None => None,
                    Some(packet) => Some(
                        DatagramPacket { packet, kypacket_seq: self.kypacket_seq, instant: now },
                    ),
                }
            },
        }
    }
}

impl Reassembly for DatagramSegments {
    type Part = FecPart;

    type Packet = MediaPacket;

    open spec fn wf(&self) -> bool {
        self.is_wf()
    }

    open spec fn can_start(part: FecPartView) -> bool {
        raptor::valid_config(part.oti)
    }

    open spec fn started(part: FecPartView) -> FecView {
        FecView { config: raptor::canonical(part.oti), packets: Seq::empty() }
    }

    open spec fn sound(v: FecView) -> bool {
        v.is_right()
    }

    open spec fn can_add(v: FecView, part: FecPartView) -> bool {
        v.can_add(part)
    }

    open spec fn added(v: FecView, part: FecPartView) -> FecView {
        v.added(part)
    }

    open spec fn complete(v: FecView) -> bool {
        v.decoded() is Some
    }

    open spec fn assembled(v: FecView) -> Option<PacketView> {
        v.assembled()
    }

    fn start(kypacket_seq: u64, part: &FecPart) -> (r: Option<Self>) {
        if is_valid_config(&part.oti) {
            Some(DatagramSegments::new(kypacket_seq, part.oti))
        } else {
            None
        }
    }

    fn add_part(&mut self, part: FecPart) -> (ok: bool) {
        let packet = wire::as_slice(&part.packet);
        proof {
            lemma_canonical(self.oti@);
        }
        if self.assembled.is_some() || !same_config(&part.oti, &self.oti) || packet.len() < 4
            || packet[0] >= self.oti[8] {
            return false;
        }
        self.add_packet(&part.oti, packet);
        true
    }

    fn has_all_parts(&self) -> (r: bool) {
        self.is_complete()
    }

    fn finish(self, now: u64) -> (r: Option<DatagramPacket<MediaPacket>>) {
        self.assemble(now)
    }
}

/// The share of repair symbols: at least two, and no fewer than three for every ten
/// source symbols; one less would be too few.
pub proof fn lemma_repair_share(source: nat)
    ensures
        spec_repair_symbols(source) >= 2,
        10 * spec_repair_symbols(source) >= 3 * source,
        spec_repair_symbols(source) == 2 || 10 * (spec_repair_symbols(source) - 1) < 3 * source,
{
}

/// Rounding up gives the least number that is enough.
pub proof fn lemma_least_multiple(a: nat, b: nat, n: nat)
    requires
        b > 0,
        a <= n * b,
        n > 0 ==> (n - 1) * b < a,
    ensures
        raptor::div_ceil(a, b) == n,
{
    assert(((a + b - 1) as nat) / b == n) by (nonlinear_arith)
        requires
            b > 0,
            a <= n * b,
            n > 0 ==> (n - 1) * b < a,
            a >= 0,
            n >= 0,
    ;
}

/// How many datagrams a packet goes in. Symbols are as large as datagrams allow, down to
/// a multiple of eight from 64 bytes on. There are as many source symbols as it takes to
/// hold the packet, and as few blocks of up to 56403 symbols as can be. Every block has
/// the share of repair symbols that goes with all source symbols.
pub proof fn lemma_how_many_datagrams(
    len: nat,
    max_datagram_size: usize,
    symbol_size: nat,
    source: nat,
    blocks: nat,
    repair: nat,
)
    requires
        32 < max_datagram_size,
        0 < len,
        symbol_size <= max_datagram_size - 32,
        max_datagram_size - 32 < 64 ==> symbol_size == max_datagram_size - 32,
        max_datagram_size - 32 >= 64 ==> symbol_size % 8 == 0 && symbol_size + 8
            > max_datagram_size - 32,
        0 < source,
        (source - 1) * symbol_size < len <= source * symbol_size,
        0 < blocks,
        (blocks - 1) * 56403 < source <= blocks * 56403,
        repair >= 2,
        10 * repair >= 3 * source,
        repair == 2 || 10 * (repair - 1) < 3 * source,
    ensures
        datagram_count(len, max_datagram_size) == source + blocks * repair,
        source_count(len, max_datagram_size) == source,
        repair_count(len, max_datagram_size) == repair,
{
    assert(raptor::aligned((max_datagram_size - HEADER_SIZE) as nat) == symbol_size);
    lemma_least_multiple(len, symbol_size, source);
    lemma_repair_share(source);
    lemma_least_multiple(source, 56403, blocks);
}

/// Every datagram of a packet is as long as the others, and no longer than datagrams can
/// be: 32 bytes and a symbol. It tells the endpoint, the packet, the group and the
/// configuration, and then holds its symbol.
pub proof fn lemma_datagrams_fit(
    sender: Sender,
    data: Seq<u8>,
    endpoint_id: u64,
    max_datagram_size: usize,
    i: int,
)
    requires
        Sender::fits(data, max_datagram_size),
        is_encoding(data, max_datagram_size),
        0 <= i < sender.spec_datagrams(data, endpoint_id, max_datagram_size).len(),
    ensures
        ({
            let mtu = (max_datagram_size - 32) as nat;
            let datagrams = sender.spec_datagrams(data, endpoint_id, max_datagram_size);
            let datagram = datagrams[i];
            &&& datagrams.len() == raptor::raptorq_packets(
                data,
                mtu,
                repair_count(data.len(), max_datagram_size),
            ).len()
            &&& 32 < datagram.len() <= max_datagram_size
            &&& max_datagram_size < 32 + 64 ==> datagram.len() == max_datagram_size
            &&& max_datagram_size >= 32 + 64 ==> datagram.len() % 8 == 0 && datagram.len() + 8
                > max_datagram_size
            &&& wire::be_value(datagram.subrange(0, 8)) == endpoint_id
            &&& wire::be_value(datagram.subrange(8, 12)) == sender.kypacket_seq
            &&& wire::be_value(datagram.subrange(12, 16)) == sender.group_seq
            &&& datagram.subrange(16, 28) == raptor::raptorq_config(data.len(), mtu)
            &&& datagram.skip(28) == raptor::raptorq_packets(
                data,
                mtu,
                repair_count(data.len(), max_datagram_size),
            )[i]
        }),
{
    let config = encoding_config(data.len(), max_datagram_size);
    let packet = encoding(data, max_datagram_size)[i];
    let datagram = datagram_bytes(
        endpoint_id,
        sender.kypacket_seq,
        sender.group_seq,
        config,
        packet,
    );
    assert(raptor::fits(config, packet));
    wire::lemma_pow_256();
    wire::lemma_be_bytes_len(endpoint_id as nat, 8);
    wire::lemma_be_bytes_len(sender.kypacket_seq as nat, 4);
    wire::lemma_be_bytes_len(sender.group_seq as nat, 4);
    wire::lemma_decode_encode(endpoint_id as nat, 8);
    wire::lemma_decode_encode(sender.kypacket_seq as nat, 4);
    wire::lemma_decode_encode(sender.group_seq as nat, 4);
    assert(datagram.subrange(0, 8) =~= wire::be_bytes(endpoint_id as nat, 8));
    assert(datagram.subrange(8, 12) =~= wire::be_bytes(sender.kypacket_seq as nat, 4));
    assert(datagram.subrange(12, 16) =~= wire::be_bytes(sender.group_seq as nat, 4));
    assert(datagram.subrange(16, 28) =~= config);
    assert(datagram.skip(28) =~= packet);
}

/// What goes out for a packet from a client, and with which numbers. A codec packet goes
/// over the stream and leaves the numbers as they are. A config packet goes over the
/// stream with its own number and that of the group it opens. Any other packet goes in
/// datagrams. Only a config packet opens a group; every packet but a codec packet takes a
/// number. Numbers wrap around.
pub proof fn lemma_what_goes_out(
    sender: Sender,
    packet: PacketView,
    endpoint_id: u64,
    max_datagram_size: usize,
)
    ensures
        ({
            let after = sender.after(packet);
            match packet {
                PacketView::Codec { codec } => {
                    &&& after == sender
                    &&& !Sender::needs_datagrams(packet)
                    &&& sender.outgoing(packet, endpoint_id, max_datagram_size) matches
                        OutgoingView::Stream(bytes) && bytes.len() == 8 + codec.len()
                        && bytes.skip(8) == codec
                },
                PacketView::Media { data, header } => {
                    &&& after.kypacket_seq == (sender.kypacket_seq + 1) % 0x1_0000_0000
                    &&& Sender::needs_datagrams(packet) == !header.is_config
                    &&& header.is_config ==> {
                        &&& after.group_seq == (sender.group_seq + 1) % 0x1_0000_0000
                        &&& sender.outgoing(packet, endpoint_id, max_datagram_size) matches
                            OutgoingView::Stream(bytes) && bytes.len() == 8 + data.len()
                            && wire::be_value(bytes.subrange(0, 4)) == sender.kypacket_seq
                            && wire::be_value(bytes.subrange(4, 8)) == after.group_seq
                            && bytes.skip(8) == data
                    }
                    &&& !header.is_config ==> {
                        &&& after.group_seq == sender.group_seq
                        &&& sender.outgoing(packet, endpoint_id, max_datagram_size)
                            == OutgoingView::Datagrams(
                            sender.spec_datagrams(data, endpoint_id, max_datagram_size),
                        )
                    }
                },
            }
        }),
{
    wire::lemma_pow_256();
    match packet {
        PacketView::Codec { codec } => {
            wire::lemma_be_bytes_len(0, 4);
            assert(stream_bytes(0, 0, codec).skip(8) =~= codec);
        },
        PacketView::Media { data, header } => {
            let number = sender.kypacket_seq;
            let group = sender.after(packet).group_seq;
            let bytes = stream_bytes(number, group, data);
            wire::lemma_be_bytes_len(number as nat, 4);
            wire::lemma_be_bytes_len(group as nat, 4);
            wire::lemma_decode_encode(number as nat, 4);
            wire::lemma_decode_encode(group as nat, 4);
            assert(bytes.subrange(0, 4) =~= wire::be_bytes(number as nat, 4));
            assert(bytes.subrange(4, 8) =~= wire::be_bytes(group as nat, 4));
            assert(bytes.skip(8) =~= data);
        },
    }
}

/// Rounded up, `a / b` is at most `n` exactly when `a` is at most `n * b`.
proof fn lemma_div_ceil_at_most(a: nat, b: nat, n: nat)
    requires
        b > 0,
    ensures
        raptor::div_ceil(a, b) <= n <==> a <= n * b,
{
    let q = raptor::div_ceil(a, b);
    let r = ((a + b - 1) as nat) % b;
    assert(a + b - 1 == q * b + r && r < b) by (nonlinear_arith)
        requires
            b > 0,
            q == ((a + b - 1) as nat) / b,
            r == ((a + b - 1) as nat) % b,
    ;
    if q <= n {
        assert(q * b <= n * b) by (nonlinear_arith)
            requires
                q <= n,
                b > 0,
        ;
    } else {
        assert(q * b >= n * b + b) by (nonlinear_arith)
            requires
                q >= n + 1,
                b > 0,
        ;
    }
}

/// An assembly starts with a configuration that has symbols and blocks, and not more
/// symbols than the blocks can have, which is 56403 each. Blocks can be decoded if there
/// are sub-blocks and an alignment. The configuration holds the length of the object in
/// five bytes, a reserved one, the symbol size in two, the number of blocks in one, that
/// of sub-blocks in two, and the alignment in one. The number of symbols fits 32 bits.
pub proof fn lemma_which_configs_are_valid(
    len: nat,
    reserved: u8,
    size: u16,
    blocks: u8,
    subs: u16,
    alignment: u8,
    packet: Seq<u8>,
)
    requires
        len < 0x100_0000_0000,
        len <= size * 0xFFFF_FFFFint,
    ensures
        ({
            let config = wire::be_bytes(len, 5) + seq![reserved] + wire::be_bytes(size as nat, 2)
                + seq![blocks] + wire::be_bytes(subs as nat, 2) + seq![alignment];
            &&& raptor::valid_config(config) <==> size > 0 && blocks > 0 && len <= blocks * 56403
                * size
            &&& raptor::usable_config(config) <==> raptor::valid_config(config) && subs > 0
                && alignment > 0
            &&& raptor::symbol_size(config) == size
            &&& raptor::transfer_length(config) == len
            &&& raptor::source_blocks(config) == blocks
            &&& <DatagramSegments as Reassembly>::can_start(FecPartView { oti: config, packet })
                <==> raptor::valid_config(config)
        }),
{
    let config = wire::be_bytes(len, 5) + seq![reserved] + wire::be_bytes(size as nat, 2)
        + seq![blocks] + wire::be_bytes(subs as nat, 2) + seq![alignment];
    wire::lemma_pow_256();
    assert(vstd::arithmetic::power::pow(256, 5) == 0x100_0000_0000) by {
        reveal_with_fuel(vstd::arithmetic::power::pow, 6);
    }
    wire::lemma_be_bytes_len(len, 5);
    wire::lemma_be_bytes_len(size as nat, 2);
    wire::lemma_be_bytes_len(subs as nat, 2);
    wire::lemma_decode_encode(len, 5);
    wire::lemma_decode_encode(size as nat, 2);
    wire::lemma_decode_encode(subs as nat, 2);
    assert(config.subrange(0, 5) =~= wire::be_bytes(len, 5));
    assert(config.subrange(6, 8) =~= wire::be_bytes(size as nat, 2));
    assert(config.subrange(9, 11) =~= wire::be_bytes(subs as nat, 2));
    assert(config.len() == 12);
    if size > 0 && blocks > 0 {
        let symbols = raptor::div_ceil(len, size as nat);
        assert(0xFFFF_FFFFnat * (size as nat) == size * 0xFFFF_FFFFint) by (nonlinear_arith);
        lemma_div_ceil_at_most(len, size as nat, 0xFFFF_FFFF);
        assert(symbols % 0x1_0000_0000 == symbols);
        assert(raptor::source_symbols(config) == symbols);
        lemma_div_ceil_at_most(symbols, blocks as nat, 56403);
        let most = 56403 * (blocks as nat);
        lemma_div_ceil_at_most(len, size as nat, most);
        assert(most * (size as nat) == blocks * 56403 * size) by (nonlinear_arith)
            requires
                most == 56403 * (blocks as nat),
        ;
    }
}

/// A symbol belongs to an assembly if nothing was recovered yet, if its configuration is
/// that of the assembly but for the reserved byte, and if its block exists. It is then
/// kept behind the others, with as many bytes as a symbol has, unless nothing can be
/// recovered from it: blocks cannot be decoded, or the symbol ends before the last whole
/// unit of the alignment.
pub proof fn lemma_symbol_is_kept(v: FecView, part: FecPartView)
    requires
        raptor::valid_config(v.config),
        v.config[5] == 0,
        part.oti.len() == 12,
    ensures
        <DatagramSegments as Reassembly>::can_add(v, part) <==> {
            &&& v.packets.len() == 0 || raptor::raptorq_decode(v.config, v.packets) is None
            &&& forall|i: int| 0 <= i < 12 && i != 5 ==> #[trigger] part.oti[i] == v.config[i]
            &&& part.packet.len() >= 4
            &&& part.packet[0] < v.config[8]
        },
        ({
            let after = <DatagramSegments as Reassembly>::added(v, part);
            let size = wire::be_value(v.config.subrange(6, 8));
            let subs = wire::be_value(v.config.subrange(9, 11));
            let alignment = v.config[11];
            &&& after.config == v.config
            &&& after.packets == v.packets || {
                &&& after.packets.len() == v.packets.len() + 1
                &&& after.packets.drop_last() == v.packets
                &&& after.packets.last().len() == 4 + size
                &&& forall|i: int|
                    0 <= i < 4 + size && i < part.packet.len()
                        ==> #[trigger] after.packets.last()[i] == part.packet[i]
                &&& forall|i: int|
                    part.packet.len() <= i < 4 + size ==> #[trigger] after.packets.last()[i] == 0
            }
            &&& subs > 0 && alignment > 0 && part.packet.len() >= 4 + size ==> after.packets.len()
                == v.packets.len() + 1
            &&& subs > 0 && alignment > 0 && part.packet.len() + alignment <= 4 + size
                ==> after.packets == v.packets
            &&& subs == 0 || alignment == 0 ==> after.packets == v.packets
        }),
{
    let canonical = raptor::canonical(part.oti);
    if forall|i: int| 0 <= i < 12 && i != 5 ==> #[trigger] part.oti[i] == v.config[i] {
        assert(canonical =~= v.config);
    }
    if canonical == v.config {
        assert forall|i: int| 0 <= i < 12 && i != 5 implies #[trigger] part.oti[i]
            == v.config[i] by {
            assert(canonical[i] == part.oti[i]);
        }
    }
    let after = v.added(part);
    let size = raptor::symbol_size(v.config);
    let alignment = raptor::alignment(v.config);
    if alignment > 0 {
        assert(raptor::covered_size(v.config) <= size && raptor::covered_size(v.config) + alignment
            > size) by (nonlinear_arith)
            requires
                alignment > 0,
                raptor::covered_size(v.config) == size / alignment * alignment,
        ;
    }
    if v.is_useful(part.packet) {
        assert(after.packets.drop_last() =~= v.packets);
    }
}

/// An assembly is complete once the symbols that it holds give something.
pub proof fn lemma_complete_when_recovered(v: FecView)
    ensures
        <DatagramSegments as Reassembly>::complete(v) <==> v.packets.len() > 0
            && raptor::raptorq_decode(v.config, v.packets) is Some,
{
}

/// What was recovered is handed on as it is, if it is long enough for a header and has the
/// bit of a media packet; else there is no packet.
pub proof fn lemma_recovered_packet_is_its_bytes(v: FecView, data: Seq<u8>)
    requires
        v.packets.len() > 0,
        raptor::raptorq_decode(v.config, v.packets) == Some(data),
    ensures
        <DatagramSegments as Reassembly>::complete(v),
        <DatagramSegments as Reassembly>::assembled(v) is Some <==> data.len() >= 16 && data[4]
            >= 0x80,
        <DatagramSegments as Reassembly>::assembled(v) matches Some(packet) ==> (packet matches
            PacketView::Media { data: bytes, header } && bytes == data && header
            == kypacket::spec_header(data)),
{
}

/// An assembly starts without any symbol, and with the configuration of the first one but
/// for the reserved byte, which is zero.
pub proof fn lemma_assembly_starts_empty(part: FecPartView)
    requires
        part.oti.len() == 12,
    ensures
        ({
            let v = <DatagramSegments as Reassembly>::started(part);
            &&& v.packets.len() == 0
            &&& v.config.len() == 12
            &&& v.config[5] == 0
            &&& forall|i: int| 0 <= i < 12 && i != 5 ==> #[trigger] v.config[i] == part.oti[i]
            &&& !<DatagramSegments as Reassembly>::complete(v)
        }),
{
}

/// Which packets can be sent in datagrams of a size: those that are not empty and that
/// 255 blocks of 56403 symbols can hold. A datagram has room for a symbol, and its size
/// has 16 bits. Symbols are as large as datagrams allow, down to a multiple of eight from
/// 64 bytes on.
pub proof fn lemma_which_packets_fit(data: Seq<u8>, max_datagram_size: usize, symbol_size: nat)
    requires
        max_datagram_size > 32 ==> {
            &&& symbol_size <= max_datagram_size - 32
            &&& max_datagram_size - 32 < 64 ==> symbol_size == max_datagram_size - 32
            &&& max_datagram_size - 32 >= 64 ==> symbol_size % 8 == 0 && symbol_size + 8
                > max_datagram_size - 32
        },
    ensures
        Sender::fits(data, max_datagram_size) <==> {
            &&& 32 < max_datagram_size < 0x1_0000
            &&& 0 < data.len() <= 255 * 56403 * symbol_size
        },
{
    if 32 < max_datagram_size {
        assert(raptor::aligned((max_datagram_size - HEADER_SIZE) as nat) == symbol_size);
        lemma_div_ceil_at_most(data.len(), symbol_size, 14_382_765);
    }
}

} // verus!
