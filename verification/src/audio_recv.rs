//! Receiving audio over datagrams.
//!
//! The receiver takes messages from the stream and from datagrams, in whatever
//! order they arrive, and hands packets out one at a time.

use vstd::prelude::*;
use bytes::Bytes;
use crate::audio_unreliable;
use crate::audio_unreliable::{DatagramSegments, Segment, SegmentView};
use crate::av::{AVPacket, AVPacketView};
use crate::delivery;
use crate::error::ProtocolError;
use crate::pending;
use crate::pending::{Action, BadDatagram, PendingGroups, StreamPacket};
use crate::sequencer;
use crate::sequencer::Sequencer;
use crate::wire;

verus! {

/// A message from the stream or from a datagram.
#[derive(Debug)]
pub enum RecvMsg {
    Stream(StreamMsg),
    Datagram(DatagramMsg),
}

/// A packet from the stream, with its numbers as they were on the wire.
#[derive(Debug)]
pub struct StreamMsg {
    pub packet: AVPacket,
    pub raw_kypacket_seq: u32,
    pub raw_group_seq: u32,
}

/// A segment from a datagram, with its numbers as they were on the wire.
#[derive(Debug)]
pub struct DatagramMsg {
    pub data: Bytes,
    pub raw_kypacket_seq: u32,
    pub raw_group_seq: u32,
    pub datagram_number: u32,
    pub end: bool,
}

/// What a message holds.
#[verifier::ext_equal]
pub enum MsgView {
    Stream { packet: AVPacketView, raw_kypacket_seq: u32, raw_group_seq: u32 },
    Datagram { part: SegmentView, raw_kypacket_seq: u32, raw_group_seq: u32 },
}

impl DatagramMsg {
    pub open spec fn part(self) -> SegmentView {
        SegmentView {
            datagram_number: self.datagram_number as nat,
            end: self.end,
            data: wire::bytes_seq(self.data),
        }
    }
}

impl View for RecvMsg {
    type V = MsgView;

    open spec fn view(&self) -> MsgView {
        match self {
            RecvMsg::Stream(msg) => MsgView::Stream {
                packet: msg.packet@,
                raw_kypacket_seq: msg.raw_kypacket_seq,
                raw_group_seq: msg.raw_group_seq,
            },
            RecvMsg::Datagram(msg) => MsgView::Datagram {
                part: msg.part(),
                raw_kypacket_seq: msg.raw_kypacket_seq,
                raw_group_seq: msg.raw_group_seq,
            },
        }
    }
}

/// The message that the bytes of a datagram spell.
pub open spec fn spec_parse_datagram(datagram: Seq<u8>) -> MsgView {
    let number_and_end = wire::be_value(datagram.subrange(10, 14));
    MsgView::Datagram {
        part: SegmentView {
            datagram_number: number_and_end % 0x8000_0000,
            end: number_and_end >= 0x8000_0000,
            data: datagram.skip(14),
        },
        raw_kypacket_seq: wire::be_value(datagram.subrange(2, 6)) as u32,
        raw_group_seq: wire::be_value(datagram.subrange(6, 10)) as u32,
    }
}

/// Reads a datagram.
pub fn parse_datagram(datagram: Bytes) -> (msg: DatagramMsg)
    requires
        wire::bytes_seq(datagram).len() >= audio_unreliable::DATAGRAM_HEADER_SIZE,
    ensures
        RecvMsg::Datagram(msg)@ == spec_parse_datagram(wire::bytes_seq(datagram)),
        msg.datagram_number < audio_unreliable::MAX_DATAGRAMS,
{
    let ghost all = wire::bytes_seq(datagram);
    let mut datagram = datagram;
    let _endpoint_id: u16 = wire::get_u16(&mut datagram);
    let raw_kypacket_seq: u32 = wire::get_u32(&mut datagram);
    let raw_group_seq: u32 = wire::get_u32(&mut datagram);
    let n: u32 = wire::get_u32(&mut datagram);
    assert(all.skip(2).take(4) =~= all.subrange(2, 6));
    assert(all.skip(2).skip(4).take(4) =~= all.subrange(6, 10));
    assert(all.skip(2).skip(4).skip(4).take(4) =~= all.subrange(10, 14));
    assert(all.skip(2).skip(4).skip(4).skip(4) =~= all.skip(14));
    assert(n & 0x7FFF_FFFF == n % 0x8000_0000) by (bit_vector);
    assert((n & 0x8000_0000 != 0) == (n >= 0x8000_0000)) by (bit_vector);
    DatagramMsg {
        data: datagram,
        raw_kypacket_seq,
        raw_group_seq,
        datagram_number: n & 0x7FFF_FFFF,
        end: n & 0x8000_0000 != 0,
    }
}

/// Reads the two numbers in front of a packet on the stream.
pub fn parse_stream_seqs(seqs: &[u8]) -> (r: (u32, u32))
    requires
        seqs@.len() == 8,
    ensures
        r.0 == wire::be_value(seqs@.take(4)),
        r.1 == wire::be_value(seqs@.skip(4)),
{
    let raw_kypacket_seq: u32 = wire::read_u32(seqs);
    let raw_group_seq: u32 = wire::read_u32(&seqs[4..8]);
    assert(seqs@.subrange(4, 8).take(4) =~= seqs@.skip(4));
    (raw_kypacket_seq, raw_group_seq)
}

/// The message for a packet that was read behind its numbers. A stream that ends
/// right behind the numbers lacks a packet.
pub fn stream_msg(
    packet: Option<AVPacket>,
    raw_kypacket_seq: u32,
    raw_group_seq: u32,
) -> (r: Result<StreamMsg, ProtocolError>)
    ensures
        match r {
            Ok(msg) => {
                &&& packet == Some(msg.packet)
                &&& msg.raw_kypacket_seq == raw_kypacket_seq
                &&& msg.raw_group_seq == raw_group_seq
            },
            Err(error) => packet is None && error.0@ == "Missing packet data on stream"@,
        },
{
    match packet {
        None => Err(ProtocolError::new("Missing packet data on stream")),
        Some(packet) => Ok(StreamMsg { packet, raw_kypacket_seq, raw_group_seq }),
    }
}

/// A datagram is read as it was written.
pub proof fn lemma_datagram_roundtrip(
    endpoint_id: u16,
    kypacket_seq: u32,
    group_seq: u32,
    part: SegmentView,
)
    requires
        part.datagram_number < audio_unreliable::MAX_DATAGRAMS,
    ensures
        audio_unreliable::datagram_bytes(endpoint_id, kypacket_seq, group_seq, part).len() == 14
            + part.data.len(),
        spec_parse_datagram(
            audio_unreliable::datagram_bytes(endpoint_id, kypacket_seq, group_seq, part),
        ) == (MsgView::Datagram {
            part,
            raw_kypacket_seq: kypacket_seq,
            raw_group_seq: group_seq,
        }),
        wire::be_value(
            audio_unreliable::datagram_bytes(endpoint_id, kypacket_seq, group_seq, part).take(2),
        ) == endpoint_id,
{
    let n = part.datagram_number + if part.end {
        0x8000_0000nat
    } else {
        0
    };
    wire::lemma_pow_256();
    wire::lemma_be_bytes_len(endpoint_id as nat, 2);
    wire::lemma_be_bytes_len(kypacket_seq as nat, 4);
    wire::lemma_be_bytes_len(group_seq as nat, 4);
    wire::lemma_be_bytes_len(n, 4);
    wire::lemma_decode_encode(endpoint_id as nat, 2);
    wire::lemma_decode_encode(kypacket_seq as nat, 4);
    wire::lemma_decode_encode(group_seq as nat, 4);
    wire::lemma_decode_encode(n, 4);
    let s = audio_unreliable::datagram_bytes(endpoint_id, kypacket_seq, group_seq, part);
    assert(s.take(2) =~= wire::be_bytes(endpoint_id as nat, 2));
    assert(s.subrange(2, 6) =~= wire::be_bytes(kypacket_seq as nat, 4));
    assert(s.subrange(6, 10) =~= wire::be_bytes(group_seq as nat, 4));
    assert(s.subrange(10, 14) =~= wire::be_bytes(n, 4));
    assert(s.skip(14) =~= part.data);
}

/// What the receiver knows: the numbers seen last, the pending packets, the
/// number of the next packet to hand out, and when to look again.
#[verifier::ext_equal]
pub struct RecvView {
    pub last_kypacket_seq: int,
    pub last_group_seq: int,
    pub groups: Seq<pending::GroupOf<DatagramSegments>>,
    pub next_kypacket_seq: u64,
    pub deadline: Option<u64>,
}

/// What wakes the receiver up: a message, or the deadline.
#[derive(Debug)]
pub enum Event {
    Message(RecvMsg),
    Deadline,
}

/// What wakes the receiver up.
#[verifier::ext_equal]
pub enum EventView {
    Message(MsgView),
    Deadline,
}

impl View for Event {
    type V = EventView;

    open spec fn view(&self) -> EventView {
        match self {
            Event::Message(msg) => EventView::Message(msg@),
            Event::Deadline => EventView::Deadline,
        }
    }
}

impl RecvView {
    pub open spec fn wf(self) -> bool {
        &&& pending::groups_wf(self.groups)
        &&& self.last_kypacket_seq >= 0
        &&& self.last_group_seq >= 0
        &&& self.next_kypacket_seq <= delivery::MAX_SEQ + 1
        &&& forall|i: int|
            0 <= i < self.groups.len() ==> delivery::group_in_range(#[trigger] self.groups[i])
    }

    /// The receiver before any message.
    pub open spec fn initial() -> RecvView {
        RecvView {
            last_kypacket_seq: 0,
            last_group_seq: 0,
            groups: Seq::empty(),
            next_kypacket_seq: 0,
            deadline: None,
        }
    }

    /// The receiver once it has seen the numbers of a message.
    pub open spec fn sequenced(self, raw_kypacket_seq: u32, raw_group_seq: u32) -> RecvView {
        RecvView {
            last_kypacket_seq: sequencer::unwrapped(self.last_kypacket_seq, raw_kypacket_seq),
            last_group_seq: sequencer::unwrapped(self.last_group_seq, raw_group_seq),
            ..self
        }
    }

    /// The receiver looks for the next packet: a packet that is taken moves the
    /// expected number past it, a deadline is kept for later, and if there is
    /// neither the deadline stays as it was.
    pub open spec fn taken(self, now: u64) -> (RecvView, Option<AVPacketView>) {
        let (groups, action) = pending::spec_take(self.groups, self.next_kypacket_seq, now);
        match action {
            Action::Idle => (RecvView { groups, ..self }, None),
            Action::Deadline(instant) => (
                RecvView { groups, deadline: Some(instant), ..self },
                None,
            ),
            Action::Packet { kypacket_seq, packet } => (
                RecvView { groups, next_kypacket_seq: (kypacket_seq + 1) as u64, ..self },
                Some(packet),
            ),
        }
    }

    /// The event is one that the receiver can take: numbers that do not run out,
    /// and one config packet per group.
    pub open spec fn accepts(self, event: EventView) -> bool {
        match event {
            EventView::Message(
                MsgView::Stream { packet, raw_kypacket_seq, raw_group_seq },
            ) => packet is Codec || {
                let after = self.sequenced(raw_kypacket_seq, raw_group_seq);
                &&& self.has_room()
                &&& after.last_kypacket_seq >= self.next_kypacket_seq ==> pending::with_group(
                    self.groups,
                    after.last_group_seq as u64,
                )[pending::slot(
                    pending::group_keys(self.groups),
                    after.last_group_seq as u64,
                )].config_packet is Absent
            },
            EventView::Message(MsgView::Datagram { .. }) => self.has_room(),
            EventView::Deadline => true,
        }
    }

    pub open spec fn has_room(self) -> bool {
        &&& self.last_kypacket_seq < 0x8000_0000_0000_0000
        &&& self.last_group_seq < 0x8000_0000_0000_0000
    }

    /// One event. A codec packet is handed out at once. A packet or a datagram
    /// that comes too late is dropped; a late datagram does not even make the
    /// receiver look for the next packet. Anything else is kept, and the
    /// receiver looks for the next packet.
    pub open spec fn step(self, event: EventView, now: u64) -> (
        RecvView,
        Result<Option<AVPacketView>, BadDatagram>,
    ) {
        match event {
            EventView::Message(
                MsgView::Stream { packet, raw_kypacket_seq, raw_group_seq },
            ) => if packet is Codec {
                (self, Ok(Some(packet)))
            } else {
                let seen = self.sequenced(raw_kypacket_seq, raw_group_seq);
                let kept = if seen.last_kypacket_seq >= self.next_kypacket_seq {
                    RecvView {
                        groups: pending::with_config(
                            self.groups,
                            seen.last_group_seq as u64,
                            StreamPacket { packet, kypacket_seq: seen.last_kypacket_seq as u64 },
                        ),
                        ..seen
                    }
                } else {
                    seen
                };
                let (after, taken) = kept.taken(now);
                (after, Ok(taken))
            },
            EventView::Message(MsgView::Datagram { part, raw_kypacket_seq, raw_group_seq }) => {
                let seen = self.sequenced(raw_kypacket_seq, raw_group_seq);
                if seen.last_kypacket_seq < self.next_kypacket_seq {
                    (seen, Ok(None))
                } else {
                    let (groups, good) = pending::with_datagram_in::<DatagramSegments>(
                        self.groups,
                        seen.last_group_seq as u64,
                        seen.last_kypacket_seq as u64,
                        part,
                        now,
                    );
                    let kept = RecvView { groups, ..seen };
                    if good {
                        let (after, taken) = kept.taken(now);
                        (after, Ok(taken))
                    } else {
                        (kept, Err(BadDatagram))
                    }
                }
            },
            EventView::Deadline => {
                let (after, taken) = self.taken(now);
                (after, Ok(taken))
            },
        }
    }
}

/// The receiving side.
pub struct AudioUnreliableProtocolRecvDriver {
    group_sequencer: Sequencer,
    kypacket_sequencer: Sequencer,
    pending_groups: PendingGroups<DatagramSegments>,
    next_kypacket_seq: u64,
    deadline: Option<u64>,
}

impl View for AudioUnreliableProtocolRecvDriver {
    type V = RecvView;

    closed spec fn view(&self) -> RecvView {
        RecvView {
            last_kypacket_seq: self.kypacket_sequencer.last(),
            last_group_seq: self.group_sequencer.last(),
            groups: self.pending_groups@,
            next_kypacket_seq: self.next_kypacket_seq,
            deadline: self.deadline,
        }
    }
}

impl AudioUnreliableProtocolRecvDriver {
    pub closed spec fn wf(&self) -> bool {
        self.pending_groups.wf() && self@.wf()
    }

    /// A well-formed receiver is well formed as seen from outside, and holds no
    /// more groups than memory can index.
    pub proof fn lemma_wf(&self)
        requires
            self.wf(),
        ensures
            self@.wf(),
            self@.groups.len() <= usize::MAX,
    {
        self.pending_groups.lemma_len();
    }

    pub fn start() -> (r: Self)
        ensures
            r.wf(),
            r@ == RecvView::initial(),
    {
        AudioUnreliableProtocolRecvDriver {
            group_sequencer: Sequencer::new(),
            kypacket_sequencer: Sequencer::new(),
            pending_groups: PendingGroups::new(),
            next_kypacket_seq: 0,
            deadline: None,
        }
    }

    /// When to wake the receiver up, if no message does.
    pub fn deadline(&self) -> (r: Option<u64>)
        ensures
            r == self@.deadline,
    {
        self.deadline
    }

    /// Whether the receiver can take the event.
    pub fn accepts(&self, event: &Event) -> (r: bool)
        requires
            self.wf(),
        ensures
            r == self@.accepts(event@),
    {
        let (raw_kypacket_seq, raw_group_seq, is_stream) = match event {
            Event::Message(RecvMsg::Stream(msg)) => {
                if let AVPacket::Codec(_) = &msg.packet {
                    return true;
                }
                (msg.raw_kypacket_seq, msg.raw_group_seq, true)
            },
            Event::Message(RecvMsg::Datagram(msg)) => {
                (msg.raw_kypacket_seq, msg.raw_group_seq, false)
            },
            Event::Deadline => {
                return true;
            },
        };
        if !self.kypacket_sequencer.has_room() || !self.group_sequencer.has_room() {
            return false;
        }
        if !is_stream {
            return true;
        }
        let mut kypacket_sequencer = self.kypacket_sequencer;
        let mut group_sequencer = self.group_sequencer;
        let kypacket_seq: u64 = kypacket_sequencer.seq(raw_kypacket_seq);
        let group_seq: u64 = group_sequencer.seq(raw_group_seq);
        kypacket_seq < self.next_kypacket_seq || self.pending_groups.awaits_config(group_seq)
    }

    fn take(&mut self, now: u64) -> (r: Option<AVPacket>)
        requires
            old(self).wf(),
        ensures
            final(self).wf(),
            final(self)@ == old(self)@.taken(now).0,
            match r {
                Some(packet) => old(self)@.taken(now).1 == Some(packet@),
                None => old(self)@.taken(now).1 is None,
            },
    {
        proof {
            self.pending_groups.lemma_len();
            delivery::lemma_in_range(self.pending_groups@, self.next_kypacket_seq, now);
        }
        let action = self.pending_groups.take_next_packet(self.next_kypacket_seq, now);
        proof {
            self.pending_groups.lemma_len();
        }
        match action {
            Action::Idle => None,
            Action::Deadline(instant) => {
                self.deadline = Some(instant);
                None
            },
            Action::Packet { kypacket_seq, packet } => {
                self.next_kypacket_seq = kypacket_seq + 1;
                Some(packet)
            },
        }
    }

    /// Handles one event, and hands out at most one packet.
    pub fn process(&mut self, event: Event, now: u64) -> (r: Result<Option<AVPacket>, BadDatagram>)
        requires
            old(self).wf(),
            now <= pending::MAX_INSTANT,
            old(self)@.accepts(event@),
        ensures
            final(self).wf(),
            final(self)@ == old(self)@.step(event@, now).0,
            match r {
                Ok(Some(packet)) => old(self)@.step(event@, now).1 == Ok::<_, BadDatagram>(
                    Some(packet@),
                ),
                Ok(None) => old(self)@.step(event@, now).1 == Ok::<_, BadDatagram>(
                    None::<AVPacketView>,
                ),
                Err(error) => old(self)@.step(event@, now).1 is Err,
            },
    {
        match event {
            Event::Message(RecvMsg::Stream(msg)) => {
                if let AVPacket::Codec(_) = &msg.packet {
                    return Ok(Some(msg.packet));
                }
                let kypacket_seq: u64 = self.kypacket_sequencer.seq(msg.raw_kypacket_seq);
                let group_seq: u64 = self.group_sequencer.seq(msg.raw_group_seq);
                if kypacket_seq >= self.next_kypacket_seq {
                    proof {
                        delivery::lemma_with_group_in_range(self.pending_groups@, group_seq);
                    }
                    self.pending_groups.insert_stream_packet(group_seq, kypacket_seq, msg.packet);
                }
            },
            Event::Message(RecvMsg::Datagram(msg)) => {
                let kypacket_seq: u64 = self.kypacket_sequencer.seq(msg.raw_kypacket_seq);
                let group_seq: u64 = self.group_sequencer.seq(msg.raw_group_seq);
                if kypacket_seq < self.next_kypacket_seq {
                    return Ok(None);
                }
                let part = Segment {
                    datagram_number: msg.datagram_number,
                    end: msg.end,
                    data: msg.data,
                };
                proof {
                    delivery::lemma_datagram_in_range::<DatagramSegments>(
                        self.pending_groups@,
                        group_seq,
                        kypacket_seq,
                        part@,
                        now,
                    );
                }
                match self.pending_groups.insert_datagram(group_seq, kypacket_seq, part, now) {
                    Ok(_) => {},
                    Err(error) => {
                        proof {
                            self.pending_groups.lemma_len();
                        }
                        return Err(error);
                    },
                }
            },
            Event::Deadline => {},
        }
        proof {
            self.pending_groups.lemma_len();
        }
        Ok(self.take(now))
    }
}

/// The message is one of a numbering: a stream message is a config packet, a
/// datagram is a part of another packet, both with the group that the numbering
/// gives.
pub open spec fn is_of(
    state: RecvView,
    event: EventView,
    group_of: spec_fn(int) -> int,
    is_config: spec_fn(int) -> bool,
) -> bool {
    match event {
        EventView::Message(MsgView::Stream { packet, raw_kypacket_seq, raw_group_seq }) => {
            let seen = state.sequenced(raw_kypacket_seq, raw_group_seq);
            packet is Media ==> group_of(seen.last_kypacket_seq) == seen.last_group_seq
                && is_config(seen.last_kypacket_seq)
        },
        EventView::Message(MsgView::Datagram { raw_kypacket_seq, raw_group_seq, .. }) => {
            let seen = state.sequenced(raw_kypacket_seq, raw_group_seq);
            group_of(seen.last_kypacket_seq) == seen.last_group_seq && !is_config(
                seen.last_kypacket_seq,
            )
        },
        EventView::Deadline => true,
    }
}

/// Whatever messages of one numbering arrive, and in whatever order, media
/// packets are handed out by strictly increasing number: the expected number
/// never goes back, it moves exactly when a media packet is handed out, and
/// everything kept is at or after it.
pub proof fn lemma_process_in_order(
    state: RecvView,
    event: EventView,
    now: u64,
    group_of: spec_fn(int) -> int,
    is_config: spec_fn(int) -> bool,
)
    requires
        state.wf(),
        state.groups.len() < usize::MAX,
        now <= pending::MAX_INSTANT,
        state.accepts(event),
        delivery::is_numbering(group_of, is_config),
        is_of(state, event, group_of, is_config),
        delivery::follows(state.groups, state.next_kypacket_seq as int, group_of, is_config),
    ensures
        ({
            let (after, r) = state.step(event, now);
            let is_codec = event matches EventView::Message(
                MsgView::Stream { packet, .. },
            ) && packet is Codec;
            &&& after.wf()
            &&& after.groups.len() <= state.groups.len() + 1
            &&& delivery::follows(
                after.groups,
                after.next_kypacket_seq as int,
                group_of,
                is_config,
            )
            &&& after.next_kypacket_seq >= state.next_kypacket_seq
            &&& !is_codec ==> (after.next_kypacket_seq > state.next_kypacket_seq
                <==> r matches Ok(Some(_)))
            &&& is_codec ==> after == state
        }),
{
    let next = state.next_kypacket_seq as int;
    match event {
        EventView::Message(MsgView::Stream { packet, raw_kypacket_seq, raw_group_seq }) => {
            if packet is Media {
                sequencer::lemma_unwrapped_is_congruent(state.last_kypacket_seq, raw_kypacket_seq);
                sequencer::lemma_unwrapped_is_congruent(state.last_group_seq, raw_group_seq);
                let seen = state.sequenced(raw_kypacket_seq, raw_group_seq);
                if seen.last_kypacket_seq >= next {
                    let group_seq = seen.last_group_seq as u64;
                    let stream_packet = StreamPacket {
                        packet,
                        kypacket_seq: seen.last_kypacket_seq as u64,
                    };
                    delivery::lemma_with_config_kept(state.groups, group_seq, stream_packet);
                    delivery::lemma_config_packet_fits(
                        state.groups,
                        next,
                        group_seq,
                        stream_packet,
                        group_of,
                        is_config,
                    );
                    lemma_taken_in_order(
                        RecvView {
                            groups: pending::with_config(state.groups, group_seq, stream_packet),
                            ..seen
                        },
                        now,
                        group_of,
                        is_config,
                    );
                } else {
                    lemma_taken_in_order(seen, now, group_of, is_config);
                }
            }
        },
        EventView::Message(MsgView::Datagram { part, raw_kypacket_seq, raw_group_seq }) => {
            sequencer::lemma_unwrapped_is_congruent(state.last_kypacket_seq, raw_kypacket_seq);
            sequencer::lemma_unwrapped_is_congruent(state.last_group_seq, raw_group_seq);
            let seen = state.sequenced(raw_kypacket_seq, raw_group_seq);
            if seen.last_kypacket_seq >= next {
                let group_seq = seen.last_group_seq as u64;
                let kypacket_seq = seen.last_kypacket_seq as u64;
                let (groups, good) = pending::with_datagram_in::<DatagramSegments>(
                    state.groups,
                    group_seq,
                    kypacket_seq,
                    part,
                    now,
                );
                delivery::lemma_datagram_fits::<DatagramSegments>(
                    state.groups,
                    next,
                    group_seq,
                    kypacket_seq,
                    part,
                    now,
                    group_of,
                    is_config,
                );
                delivery::lemma_datagram_in_range::<DatagramSegments>(
                    state.groups,
                    group_seq,
                    kypacket_seq,
                    part,
                    now,
                );
                pending::lemma_with_datagram_wf::<DatagramSegments>(
                    state.groups,
                    group_seq,
                    kypacket_seq,
                    part,
                    now,
                );
                if good {
                    lemma_taken_in_order(RecvView { groups, ..seen }, now, group_of, is_config);
                }
            }
        },
        EventView::Deadline => {
            lemma_taken_in_order(state, now, group_of, is_config);
        },
    }
}

/// Looking for the next packet keeps the order.
proof fn lemma_taken_in_order(
    state: RecvView,
    now: u64,
    group_of: spec_fn(int) -> int,
    is_config: spec_fn(int) -> bool,
)
    requires
        state.wf(),
        state.groups.len() <= usize::MAX,
        delivery::is_numbering(group_of, is_config),
        delivery::follows(state.groups, state.next_kypacket_seq as int, group_of, is_config),
    ensures
        ({
            let (after, packet) = state.taken(now);
            &&& after.wf()
            &&& after.groups.len() <= state.groups.len()
            &&& delivery::follows(
                after.groups,
                after.next_kypacket_seq as int,
                group_of,
                is_config,
            )
            &&& after.next_kypacket_seq >= state.next_kypacket_seq
            &&& after.next_kypacket_seq > state.next_kypacket_seq <==> packet is Some
        }),
{
    delivery::lemma_delivery_in_order(
        state.groups,
        state.next_kypacket_seq,
        now,
        group_of,
        is_config,
    );
    delivery::lemma_in_range(state.groups, state.next_kypacket_seq, now);
    pending::lemma_take_wf(state.groups, state.next_kypacket_seq, now);
}

} // verus!
