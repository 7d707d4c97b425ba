//! Receiving video over datagrams with forward error correction, and forwarding
//! it to a client.

use vstd::prelude::*;
use vstd::string::*;
use bytes::Bytes;
use crate::delivery;
use crate::error::Error;
use crate::fec;
use crate::fec::{DatagramSegments, FecPart, FecPartView, FecView};
use crate::kypacket::{Packet, PacketView};
use crate::pending;
use crate::pending::{Action, BadDatagram, PendingGroups, StreamPacket};
use crate::sequencer;
use crate::sequencer::Sequencer;
use crate::wire;

verus! {

/// A packet from the stream, with its numbers as they were on the wire.
#[derive(Debug)]
pub struct StreamMsg {
    pub packet: Packet,
    pub raw_kypacket_seq: u32,
    pub raw_group_seq: u32,
}

/// A symbol from a datagram, with its numbers as they were on the wire.
#[derive(Debug)]
pub struct DatagramMsg {
    pub part: FecPart,
    pub raw_kypacket_seq: u32,
    pub raw_group_seq: u32,
}

/// What the bytes of a datagram spell.
#[verifier::ext_equal]
pub struct DatagramMsgView {
    pub part: FecPartView,
    pub raw_kypacket_seq: u32,
    pub raw_group_seq: u32,
}

impl View for DatagramMsg {
    type V = DatagramMsgView;

    open spec fn view(&self) -> DatagramMsgView {
        DatagramMsgView {
            part: self.part@,
            raw_kypacket_seq: self.raw_kypacket_seq,
            raw_group_seq: self.raw_group_seq,
        }
    }
}

/// The symbol that the bytes of a datagram spell.
pub open spec fn spec_parse_datagram(datagram: Seq<u8>) -> DatagramMsgView {
    DatagramMsgView {
        part: FecPartView { oti: datagram.subrange(16, 28), packet: datagram.skip(28) },
        raw_kypacket_seq: wire::be_value(datagram.subrange(8, 12)) as u32,
        raw_group_seq: wire::be_value(datagram.subrange(12, 16)) as u32,
    }
}

/// Reads a datagram.
pub fn parse_datagram(datagram: Bytes) -> (msg: DatagramMsg)
    requires
        wire::bytes_seq(datagram).len() >= fec::HEADER_SIZE,
    ensures
        msg@ == spec_parse_datagram(wire::bytes_seq(datagram)),
{
    let ghost all = wire::bytes_seq(datagram);
    let mut datagram = datagram;
    let _endpoint_id: u64 = wire::get_u64(&mut datagram);
    let raw_kypacket_seq: u32 = wire::get_u32(&mut datagram);
    let raw_group_seq: u32 = wire::get_u32(&mut datagram);
    assert(all.skip(8).take(4) =~= all.subrange(8, 12));
    assert(all.skip(8).skip(4).take(4) =~= all.subrange(12, 16));
    assert(all.skip(8).skip(4).skip(4) =~= all.skip(16));
    let mut oti: [u8; 12] = [0; 12];
    let rest = wire::as_slice(&datagram);
    let mut i: usize = 0;
    while i < 12
        invariant
            i <= 12,
            rest@ == all.skip(16),
            all.len() >= fec::HEADER_SIZE,
            forall|j: int| 0 <= j < i ==> oti@[j] == all[16 + j],
        decreases 12 - i,
    {
        oti[i] = rest[i];
        i += 1;
    }
    assert(oti@ =~= all.subrange(16, 28));
    let packet = wire::slice_from(&datagram, 12);
    assert(all.skip(16).skip(12) =~= all.skip(28));
    DatagramMsg { part: FecPart { oti, packet }, raw_kypacket_seq, raw_group_seq }
}

/// A datagram is read as it was written.
pub proof fn lemma_datagram_roundtrip(
    endpoint_id: u64,
    kypacket_seq: u32,
    group_seq: u32,
    oti: Seq<u8>,
    packet: Seq<u8>,
)
    requires
        oti.len() == 12,
    ensures
        fec::datagram_bytes(endpoint_id, kypacket_seq, group_seq, oti, packet).len() == 28
            + packet.len(),
        spec_parse_datagram(
            fec::datagram_bytes(endpoint_id, kypacket_seq, group_seq, oti, packet),
        ) == (DatagramMsgView {
            part: FecPartView { oti, packet },
            raw_kypacket_seq: kypacket_seq,
            raw_group_seq: group_seq,
        }),
        wire::be_value(
            fec::datagram_bytes(endpoint_id, kypacket_seq, group_seq, oti, packet).take(8),
        ) == endpoint_id,
{
    wire::lemma_pow_256();
    wire::lemma_be_bytes_len(endpoint_id as nat, 8);
    wire::lemma_be_bytes_len(kypacket_seq as nat, 4);
    wire::lemma_be_bytes_len(group_seq as nat, 4);
    wire::lemma_decode_encode(endpoint_id as nat, 8);
    wire::lemma_decode_encode(kypacket_seq as nat, 4);
    wire::lemma_decode_encode(group_seq as nat, 4);
    let s = fec::datagram_bytes(endpoint_id, kypacket_seq, group_seq, oti, packet);
    assert(s.take(8) =~= wire::be_bytes(endpoint_id as nat, 8));
    assert(s.subrange(8, 12) =~= wire::be_bytes(kypacket_seq as nat, 4));
    assert(s.subrange(12, 16) =~= wire::be_bytes(group_seq as nat, 4));
    assert(s.subrange(16, 28) =~= oti);
    assert(s.skip(28) =~= packet);
}

/// What a numbered datagram without error correction carries.
#[derive(Debug)]
pub struct NumberedDatagram {
    pub data: Bytes,
    pub raw_kypacket_seq: u32,
    pub raw_group_seq: u32,
    pub datagram_number: u32,
    pub end: bool,
}

/// What the channel brings to the receiver.
#[derive(Debug)]
pub enum ChannelMsg {
    AcceptUni,
    AcceptBi,
    Datagram(Bytes),
}

/// What the receiver does with it.
#[derive(Debug)]
pub enum ReceiverAction {
    /// Read packets from the stream.
    ReadPackets,
    /// Hand the datagram to the forwarder.
    Forward(NumberedDatagram),
}

/// What the receiver does with it where datagrams carry symbols.
#[derive(Debug)]
pub enum FecReceiverAction {
    /// Read packets from the stream.
    ReadPackets,
    /// Hand the symbol to the forwarder.
    Forward(DatagramMsg),
}

/// The receiver accepts one unidirectional stream, and datagrams.
#[derive(Clone, Copy, Debug, PartialEq, Eq, Structural)]
pub struct Receiver {
    pub has_stream: bool,
}

/// The datagram carries what its bytes spell: the endpoint id (64 bits), two
/// sequence numbers (32 bits each), a mark for the last datagram (1 bit), the
/// datagram's number (31 bits), and the data.
pub open spec fn is_numbered(datagram: NumberedDatagram, bytes: Seq<u8>) -> bool {
    let n = wire::be_value(bytes.subrange(16, 20));
    &&& datagram.raw_kypacket_seq == wire::be_value(bytes.subrange(8, 12))
    &&& datagram.raw_group_seq == wire::be_value(bytes.subrange(12, 16))
    &&& datagram.datagram_number == n % 0x8000_0000
    &&& datagram.end == (n >= 0x8000_0000)
    &&& wire::bytes_seq(datagram.data) == bytes.skip(20)
}

impl Receiver {
    pub fn new() -> (r: Self)
        ensures
            !r.has_stream,
    {
        Receiver { has_stream: false }
    }

    /// Takes the first unidirectional stream, and no other.
    fn accept_uni(&mut self) -> (r: Result<(), Error>)
        ensures
            final(self).has_stream,
            match r {
                Ok(_) => !old(self).has_stream,
                Err(error) => {
                    &&& old(self).has_stream
                    &&& error matches Error::KymuxProtocolError(text) && text@
                        == "Unexpected multiple unistreams"@
                },
            },
    {
        if self.has_stream {
            return Err(Error::KymuxProtocolError("Unexpected multiple unistreams".to_owned()));
        }
        self.has_stream = true;
        Ok(())
    }

    /// Handles what the channel brings: the first unidirectional stream and all
    /// datagrams, which carry symbols, are taken, anything else is an error.
    pub fn recv_fec_channel(&mut self, msg: ChannelMsg) -> (r: Result<FecReceiverAction, Error>)
        requires
            msg matches ChannelMsg::Datagram(buf) ==> wire::bytes_seq(buf).len()
                >= fec::HEADER_SIZE,
        ensures
            match msg {
                ChannelMsg::AcceptUni => {
                    &&& final(self).has_stream
                    &&& match r {
                        Ok(action) => !old(self).has_stream && action is ReadPackets,
                        Err(error) => {
                            &&& old(self).has_stream
                            &&& error matches Error::KymuxProtocolError(text) && text@
                                == "Unexpected multiple unistreams"@
                        },
                    }
                },
                ChannelMsg::Datagram(buf) => {
                    &&& *final(self) == *old(self)
                    &&& r matches Ok(FecReceiverAction::Forward(datagram)) && datagram@
                        == spec_parse_datagram(wire::bytes_seq(buf))
                },
                ChannelMsg::AcceptBi => {
                    &&& *final(self) == *old(self)
                    &&& r matches Err(Error::KymuxProtocolError(text)) && text@
                        == "Unexpected KyRecvMsg"@
                },
            },
    {
        match msg {
            ChannelMsg::AcceptUni => match self.accept_uni() {
                Ok(_) => Ok(FecReceiverAction::ReadPackets),
                Err(error) => Err(error),
            },
            ChannelMsg::Datagram(buf) => Ok(FecReceiverAction::Forward(parse_datagram(buf))),
            ChannelMsg::AcceptBi => Err(
                Error::KymuxProtocolError("Unexpected KyRecvMsg".to_owned()),
            ),
        }
    }

    /// Handles what the channel brings: the first unidirectional stream and all
    /// datagrams, which are numbered, are taken, anything else is an error.
    pub fn recv_ky_channel(&mut self, msg: ChannelMsg) -> (r: Result<ReceiverAction, Error>)
        requires
            msg matches ChannelMsg::Datagram(buf) ==> wire::bytes_seq(buf).len() >= 20,
        ensures
            match msg {
                ChannelMsg::AcceptUni => {
                    &&& final(self).has_stream
                    &&& match r {
                        Ok(action) => !old(self).has_stream && action is ReadPackets,
                        Err(error) => {
                            &&& old(self).has_stream
                            &&& error matches Error::KymuxProtocolError(text) && text@
                                == "Unexpected multiple unistreams"@
                        },
                    }
                },
                ChannelMsg::Datagram(buf) => {
                    &&& *final(self) == *old(self)
                    &&& r matches Ok(ReceiverAction::Forward(datagram)) && is_numbered(
                        datagram,
                        wire::bytes_seq(buf),
                    )
                },
                ChannelMsg::AcceptBi => {
                    &&& *final(self) == *old(self)
                    &&& r matches Err(Error::KymuxProtocolError(text)) && text@
                        == "Unexpected KyRecvMsg"@
                },
            },
    {
        match msg {
            ChannelMsg::AcceptUni => match self.accept_uni() {
                Ok(_) => Ok(ReceiverAction::ReadPackets),
                Err(error) => Err(error),
            },
            ChannelMsg::Datagram(buf) => {
                let ghost all = wire::bytes_seq(buf);
                let mut buf = buf;
                let _endpoint_id: u64 = wire::get_u64(&mut buf);
                let raw_kypacket_seq: u32 = wire::get_u32(&mut buf);
                let raw_group_seq: u32 = wire::get_u32(&mut buf);
                let n: u32 = wire::get_u32(&mut buf);
                assert(all.skip(8).take(4) =~= all.subrange(8, 12));
                assert(all.skip(8).skip(4).take(4) =~= all.subrange(12, 16));
                assert(all.skip(8).skip(4).skip(4).take(4) =~= all.subrange(16, 20));
                assert(all.skip(8).skip(4).skip(4).skip(4) =~= all.skip(20));
                assert(n & 0x7FFF_FFFF == n % 0x8000_0000) by (bit_vector);
                assert((n & 0x8000_0000 != 0) == (n >= 0x8000_0000)) by (bit_vector);
                Ok(
                    ReceiverAction::Forward(
                        NumberedDatagram {
                            data: buf,
                            raw_kypacket_seq,
                            raw_group_seq,
                            datagram_number: n & 0x7FFF_FFFF,
                            end: n & 0x8000_0000 != 0,
                        },
                    ),
                )
            },
            ChannelMsg::AcceptBi => Err(
                Error::KymuxProtocolError("Unexpected KyRecvMsg".to_owned()),
            ),
        }
    }
}

/// What the forwarder knows: the numbers seen last, the pending packets, the
/// number of the next packet to forward, and when to look again.
#[verifier::ext_equal]
pub struct ForwarderView {
    pub last_kypacket_seq: int,
    pub last_group_seq: int,
    pub groups: Seq<pending::GroupOf<DatagramSegments>>,
    pub next_kypacket_seq: u64,
    pub deadline: Option<u64>,
}

impl ForwarderView {
    pub open spec fn wf(self) -> bool {
        &&& pending::groups_wf(self.groups)
        &&& self.last_kypacket_seq >= 0
        &&& self.last_group_seq >= 0
        &&& self.next_kypacket_seq <= delivery::MAX_SEQ + 1
        &&& forall|i: int|
            0 <= i < self.groups.len() ==> delivery::group_in_range(#[trigger] self.groups[i])
    }

    pub open spec fn initial() -> ForwarderView {
        ForwarderView {
            last_kypacket_seq: 0,
            last_group_seq: 0,
            groups: Seq::empty(),
            next_kypacket_seq: 0,
            deadline: None,
        }
    }

    pub open spec fn has_room(self) -> bool {
        &&& self.last_kypacket_seq < 0x8000_0000_0000_0000
        &&& self.last_group_seq < 0x8000_0000_0000_0000
    }

    /// The forwarder once it has seen the numbers of a message.
    pub open spec fn sequenced(self, raw_kypacket_seq: u32, raw_group_seq: u32) -> ForwarderView {
        ForwarderView {
            last_kypacket_seq: sequencer::unwrapped(self.last_kypacket_seq, raw_kypacket_seq),
            last_group_seq: sequencer::unwrapped(self.last_group_seq, raw_group_seq),
            ..self
        }
    }

    /// A group has one config packet.
    pub open spec fn accepts_stream(
        self,
        packet: PacketView,
        raw_kypacket_seq: u32,
        raw_group_seq: u32,
    ) -> bool {
        packet is Codec || {
            let seen = self.sequenced(raw_kypacket_seq, raw_group_seq);
            &&& self.has_room()
            &&& seen.last_kypacket_seq >= self.next_kypacket_seq ==> pending::with_group(
                self.groups,
                seen.last_group_seq as u64,
            )[pending::slot(
                pending::group_keys(self.groups),
                seen.last_group_seq as u64,
            )].config_packet is Absent
        }
    }

    /// A packet from the stream. A codec packet is not kept; a config packet is,
    /// unless it comes too late.
    pub open spec fn on_stream(
        self,
        packet: PacketView,
        raw_kypacket_seq: u32,
        raw_group_seq: u32,
    ) -> ForwarderView {
        if packet is Codec {
            self
        } else {
            let seen = self.sequenced(raw_kypacket_seq, raw_group_seq);
            if seen.last_kypacket_seq >= self.next_kypacket_seq {
                ForwarderView {
                    groups: pending::with_config(
                        self.groups,
                        seen.last_group_seq as u64,
                        StreamPacket { packet, kypacket_seq: seen.last_kypacket_seq as u64 },
                    ),
                    ..seen
                }
            } else {
                seen
            }
        }
    }

    /// A datagram. One that comes too late is dropped. Tells whether it was
    /// dropped (`Ok(false)`), kept (`Ok(true)`) or bad.
    pub open spec fn on_datagram(self, msg: DatagramMsgView, now: u64) -> (
        ForwarderView,
        Result<bool, BadDatagram>,
    ) {
        let seen = self.sequenced(msg.raw_kypacket_seq, msg.raw_group_seq);
        if seen.last_kypacket_seq < self.next_kypacket_seq {
            (seen, Ok(false))
        } else {
            let (groups, good) = pending::with_datagram_in::<DatagramSegments>(
                self.groups,
                seen.last_group_seq as u64,
                seen.last_kypacket_seq as u64,
                msg.part,
                now,
            );
            (
                ForwarderView { groups, ..seen },
                if good {
                    Ok(true)
                } else {
                    Err(BadDatagram)
                },
            )
        }
    }

    /// The assembly that a datagram makes, if it is kept and goes to one.
    pub open spec fn assembly(self, msg: DatagramMsgView) -> Option<FecView> {
        let seen = self.sequenced(msg.raw_kypacket_seq, msg.raw_group_seq);
        if seen.last_kypacket_seq < self.next_kypacket_seq {
            None
        } else {
            pending::assembly_in::<DatagramSegments>(
                self.groups,
                seen.last_group_seq as u64,
                seen.last_kypacket_seq as u64,
                msg.part,
            )
        }
    }

    /// One look for the next packet: a packet that is taken moves the expected
    /// number past it; if there is none, the deadline is the one to wait for, if
    /// any.
    pub open spec fn processed(self, now: u64) -> (ForwarderView, Option<Seq<u8>>) {
        let (groups, action) = pending::spec_take(self.groups, self.next_kypacket_seq, now);
        match action {
            Action::Idle => (ForwarderView { groups, deadline: None, ..self }, None),
            Action::Deadline(instant) => (
                ForwarderView { groups, deadline: Some(instant), ..self },
                None,
            ),
            Action::Packet { kypacket_seq, packet } => (
                ForwarderView { groups, next_kypacket_seq: (kypacket_seq + 1) as u64, ..self },
                Some(packet.bytes()),
            ),
        }
    }
}

/// The forwarding side.
pub struct Forwarder {
    next_kypacket_seq: u64,
    group_sequencer: Sequencer,
    kypacket_sequencer: Sequencer,
    pending_groups: PendingGroups<DatagramSegments>,
    deadline: Option<u64>,
}

impl View for Forwarder {
    type V = ForwarderView;

    closed spec fn view(&self) -> ForwarderView {
        ForwarderView {
            last_kypacket_seq: self.kypacket_sequencer.last(),
            last_group_seq: self.group_sequencer.last(),
            groups: self.pending_groups@,
            next_kypacket_seq: self.next_kypacket_seq,
            deadline: self.deadline,
        }
    }
}

impl Forwarder {
    pub closed spec fn wf(&self) -> bool {
        self.pending_groups.wf() && self@.wf()
    }

    /// A well-formed forwarder is well formed as seen from outside, and holds no
    /// more groups than memory can index.
    pub proof fn lemma_wf(&self)
        requires
            self.wf(),
        ensures
            self@.wf(),
            self@.groups.len() <= usize::MAX,
    {
        self.pending_groups.lemma_len();
    }

    pub fn new() -> (r: Self)
        ensures
            r.wf(),
            r@ == ForwarderView::initial(),
    {
        Forwarder {
            next_kypacket_seq: 0,
            group_sequencer: Sequencer::new(),
            kypacket_sequencer: Sequencer::new(),
            pending_groups: PendingGroups::new(),
            deadline: None,
        }
    }

    /// When to wake the forwarder up, if no message does.
    pub fn deadline(&self) -> (r: Option<u64>)
        ensures
            r == self@.deadline,
    {
        self.deadline
    }

    /// Whether the forwarder has numbers left for a message.
    pub fn has_room(&self) -> (r: bool)
        ensures
            r == self@.has_room(),
    {
        self.kypacket_sequencer.has_room() && self.group_sequencer.has_room()
    }

    /// Whether the forwarder can take a packet from the stream.
    pub fn accepts_stream(&self, msg: &StreamMsg) -> (r: bool)
        requires
            self.wf(),
        ensures
            r == self@.accepts_stream(msg.packet@, msg.raw_kypacket_seq, msg.raw_group_seq),
    {
        if let Packet::Codec(_) = &msg.packet {
            return true;
        }
        if !self.has_room() {
            return false;
        }
        let mut kypacket_sequencer = self.kypacket_sequencer;
        let mut group_sequencer = self.group_sequencer;
        let kypacket_seq: u64 = kypacket_sequencer.seq(msg.raw_kypacket_seq);
        let group_seq: u64 = group_sequencer.seq(msg.raw_group_seq);
        kypacket_seq < self.next_kypacket_seq || self.pending_groups.awaits_config(group_seq)
    }

    /// Takes a packet from the stream. The bytes of a codec packet go to the
    /// client at once.
    pub fn on_new_stream_msg(&mut self, msg: StreamMsg) -> (r: Option<Vec<u8>>)
        requires
            old(self).wf(),
            old(self)@.accepts_stream(msg.packet@, msg.raw_kypacket_seq, msg.raw_group_seq),
        ensures
            final(self).wf(),
            final(self)@ == old(self)@.on_stream(
                msg.packet@,
                msg.raw_kypacket_seq,
                msg.raw_group_seq,
            ),
            match r {
                Some(bytes) => msg.packet@ is Codec && bytes@ == msg.packet@.bytes(),
                None => !(msg.packet@ is Codec),
            },
    {
        match msg.packet {
            Packet::Codec(packet) => Some(packet.header),
            Packet::Media(packet) => {
                let kypacket_seq: u64 = self.kypacket_sequencer.seq(msg.raw_kypacket_seq);
                let group_seq: u64 = self.group_sequencer.seq(msg.raw_group_seq);
                if kypacket_seq >= self.next_kypacket_seq {
                    proof {
                        delivery::lemma_with_group_in_range(self.pending_groups@, group_seq);
                    }
                    self.pending_groups.insert_stream_packet(group_seq, kypacket_seq, packet);
                    proof {
                        self.pending_groups.lemma_len();
                    }
                }
                None
            },
        }
    }

    /// Takes a datagram. Tells whether it was worth looking for the next packet.
    /// The symbols of a packet give nothing but that packet, and all source
    /// symbols do give it.
    pub fn on_new_datagram_msg(&mut self, msg: DatagramMsg, now: u64) -> (r: Result<
        bool,
        BadDatagram,
    >)
        requires
            old(self).wf(),
            old(self)@.has_room(),
            now <= pending::MAX_INSTANT,
        ensures
            final(self).wf(),
            final(self)@ == old(self)@.on_datagram(msg@, now).0,
            match r {
                Ok(kept) => old(self)@.on_datagram(msg@, now).1 == Ok::<bool, BadDatagram>(kept),
                Err(_) => old(self)@.on_datagram(msg@, now).1 is Err,
            },
            old(self)@.assembly(msg@) matches Some(assembly) ==> assembly.is_right(),
    {
        let group_seq: u64 = self.group_sequencer.seq(msg.raw_group_seq);
        let kypacket_seq: u64 = self.kypacket_sequencer.seq(msg.raw_kypacket_seq);
        if kypacket_seq >= self.next_kypacket_seq {
            proof {
                delivery::lemma_datagram_in_range::<DatagramSegments>(
                    self.pending_groups@,
                    group_seq,
                    kypacket_seq,
                    msg.part@,
                    now,
                );
            }
            let r = self.pending_groups.insert_datagram(group_seq, kypacket_seq, msg.part, now);
            proof {
                self.pending_groups.lemma_len();
            }
            match r {
                Ok(_) => Ok(true),
                Err(error) => Err(error),
            }
        } else {
            Ok(false)
        }
    }

    /// The deadline has passed.
    pub fn on_deadline(&mut self)
        requires
            old(self).wf(),
        ensures
            final(self).wf(),
            final(self)@ == (ForwarderView { deadline: None, ..old(self)@ }),
    {
        self.deadline = None;
    }

    /// Takes the next packet out, if its time has come, and gives its bytes for
    /// the client. To be repeated as long as there is one.
    pub fn process_next_packet(&mut self, now: u64) -> (r: Option<Vec<u8>>)
        requires
            old(self).wf(),
        ensures
            final(self).wf(),
            final(self)@ == old(self)@.processed(now).0,
            match r {
                Some(bytes) => old(self)@.processed(now).1 == Some(bytes@),
                None => old(self)@.processed(now).1 is None,
            },
    {
        proof {
            self.pending_groups.lemma_len();
            delivery::lemma_in_range(self.pending_groups@, self.next_kypacket_seq, now);
        }
        let action = self.pending_groups.take_next_packet(self.next_kypacket_seq, now);
        proof {
            self.pending_groups.lemma_len();
        }
        match action {
            Action::Idle => {
                self.deadline = None;
                None
            },
            Action::Deadline(instant) => {
                self.deadline = Some(instant);
                None
            },
            Action::Packet { kypacket_seq, packet } => {
                self.next_kypacket_seq = kypacket_seq + 1;
                Some(packet.data)
            },
        }
    }
}

/// The forwarder holds packets of a numbering, none before the expected one.
pub open spec fn holds_numbering(
    state: ForwarderView,
    group_of: spec_fn(int) -> int,
    is_config: spec_fn(int) -> bool,
) -> bool {
    delivery::follows(state.groups, state.next_kypacket_seq as int, group_of, is_config)
}

/// Packets reach the client by strictly increasing number, and there is an end
/// to those that are ready: each look that finds a packet moves the expected
/// number forward and leaves fewer packets waiting.
pub proof fn lemma_forwarding_in_order(
    state: ForwarderView,
    now: u64,
    group_of: spec_fn(int) -> int,
    is_config: spec_fn(int) -> bool,
)
    requires
        state.wf(),
        state.groups.len() <= usize::MAX,
        delivery::is_numbering(group_of, is_config),
        holds_numbering(state, group_of, is_config),
    ensures
        ({
            let (after, bytes) = state.processed(now);
            &&& after.wf()
            &&& after.groups.len() <= state.groups.len()
            &&& holds_numbering(after, group_of, is_config)
            &&& after.next_kypacket_seq >= state.next_kypacket_seq
            &&& after.next_kypacket_seq > state.next_kypacket_seq <==> bytes is Some
            &&& bytes is Some ==> delivery::waiting(after.groups) < delivery::waiting(state.groups)
        }),
{
    delivery::lemma_delivery_in_order(
        state.groups,
        state.next_kypacket_seq,
        now,
        group_of,
        is_config,
    );
    delivery::lemma_in_range(state.groups, state.next_kypacket_seq, now);
    delivery::lemma_fewer_packets_wait(state.groups, state.next_kypacket_seq, now);
    pending::lemma_take_wf(state.groups, state.next_kypacket_seq, now);
}

/// A config packet of the numbering keeps the forwarder in order.
pub proof fn lemma_stream_message_fits(
    state: ForwarderView,
    packet: PacketView,
    raw_kypacket_seq: u32,
    raw_group_seq: u32,
    group_of: spec_fn(int) -> int,
    is_config: spec_fn(int) -> bool,
)
    requires
        state.wf(),
        state.accepts_stream(packet, raw_kypacket_seq, raw_group_seq),
        holds_numbering(state, group_of, is_config),
        packet is Media ==> ({
            let seen = state.sequenced(raw_kypacket_seq, raw_group_seq);
            group_of(seen.last_kypacket_seq) == seen.last_group_seq && is_config(
                seen.last_kypacket_seq,
            )
        }),
    ensures
        holds_numbering(
            state.on_stream(packet, raw_kypacket_seq, raw_group_seq),
            group_of,
            is_config,
        ),
        state.on_stream(packet, raw_kypacket_seq, raw_group_seq).wf(),
        state.on_stream(packet, raw_kypacket_seq, raw_group_seq).groups.len()
            <= state.groups.len() + 1,
{
    let seen = state.sequenced(raw_kypacket_seq, raw_group_seq);
    sequencer::lemma_unwrapped_is_congruent(state.last_kypacket_seq, raw_kypacket_seq);
    sequencer::lemma_unwrapped_is_congruent(state.last_group_seq, raw_group_seq);
    if packet is Media && seen.last_kypacket_seq >= state.next_kypacket_seq {
        let stream_packet = StreamPacket { packet, kypacket_seq: seen.last_kypacket_seq as u64 };
        delivery::lemma_config_packet_fits(
            state.groups,
            state.next_kypacket_seq as int,
            seen.last_group_seq as u64,
            stream_packet,
            group_of,
            is_config,
        );
        delivery::lemma_with_config_kept(state.groups, seen.last_group_seq as u64, stream_packet);
    }
}

/// A datagram of the numbering keeps the forwarder in order.
pub proof fn lemma_datagram_message_fits(
    state: ForwarderView,
    msg: DatagramMsgView,
    now: u64,
    group_of: spec_fn(int) -> int,
    is_config: spec_fn(int) -> bool,
)
    requires
        state.wf(),
        state.has_room(),
        now <= pending::MAX_INSTANT,
        holds_numbering(state, group_of, is_config),
        ({
            let seen = state.sequenced(msg.raw_kypacket_seq, msg.raw_group_seq);
            group_of(seen.last_kypacket_seq) == seen.last_group_seq && !is_config(
                seen.last_kypacket_seq,
            )
        }),
    ensures
        holds_numbering(state.on_datagram(msg, now).0, group_of, is_config),
        state.on_datagram(msg, now).0.wf(),
        state.on_datagram(msg, now).0.groups.len() <= state.groups.len() + 1,
{
    let seen = state.sequenced(msg.raw_kypacket_seq, msg.raw_group_seq);
    sequencer::lemma_unwrapped_is_congruent(state.last_kypacket_seq, msg.raw_kypacket_seq);
    sequencer::lemma_unwrapped_is_congruent(state.last_group_seq, msg.raw_group_seq);
    if seen.last_kypacket_seq >= state.next_kypacket_seq {
        delivery::lemma_datagram_fits::<DatagramSegments>(
            state.groups,
            state.next_kypacket_seq as int,
            seen.last_group_seq as u64,
            seen.last_kypacket_seq as u64,
            msg.part,
            now,
            group_of,
            is_config,
        );
        delivery::lemma_datagram_in_range::<DatagramSegments>(
            state.groups,
            seen.last_group_seq as u64,
            seen.last_kypacket_seq as u64,
            msg.part,
            now,
        );
        pending::lemma_with_datagram_wf::<DatagramSegments>(
            state.groups,
            seen.last_group_seq as u64,
            seen.last_kypacket_seq as u64,
            msg.part,
            now,
        );
    }
}

/// A numbered datagram is read as it was written: the endpoint id in eight bytes, the two
/// sequence numbers in four each, a mark for the last datagram and the datagram's number in
/// four, and then the data.
pub proof fn lemma_numbered_datagram_is_read_as_written(
    datagram: NumberedDatagram,
    endpoint_id: u64,
    kypacket_seq: u32,
    group_seq: u32,
    number: u32,
    end: bool,
    data: Seq<u8>,
)
    requires
        number < 0x8000_0000,
        is_numbered(
            datagram,
            wire::be_bytes(endpoint_id as nat, 8) + wire::be_bytes(kypacket_seq as nat, 4)
                + wire::be_bytes(group_seq as nat, 4) + wire::be_bytes(
                number as nat + if end {
                    0x8000_0000nat
                } else {
                    0
                },
                4,
            ) + data,
        ),
    ensures
        datagram.raw_kypacket_seq == kypacket_seq,
        datagram.raw_group_seq == group_seq,
        datagram.datagram_number == number,
        datagram.end == end,
        wire::bytes_seq(datagram.data) == data,
{
    let n = number as nat + if end {
        0x8000_0000nat
    } else {
        0
    };
    let bytes = wire::be_bytes(endpoint_id as nat, 8) + wire::be_bytes(kypacket_seq as nat, 4)
        + wire::be_bytes(group_seq as nat, 4) + wire::be_bytes(n, 4) + data;
    wire::lemma_pow_256();
    wire::lemma_be_bytes_len(endpoint_id as nat, 8);
    wire::lemma_be_bytes_len(kypacket_seq as nat, 4);
    wire::lemma_be_bytes_len(group_seq as nat, 4);
    wire::lemma_be_bytes_len(n, 4);
    wire::lemma_decode_encode(kypacket_seq as nat, 4);
    wire::lemma_decode_encode(group_seq as nat, 4);
    wire::lemma_decode_encode(n, 4);
    assert(bytes.subrange(8, 12) =~= wire::be_bytes(kypacket_seq as nat, 4));
    assert(bytes.subrange(12, 16) =~= wire::be_bytes(group_seq as nat, 4));
    assert(bytes.subrange(16, 20) =~= wire::be_bytes(n, 4));
    assert(bytes.skip(20) =~= data);
}

} // verus!
