//! Audio over datagrams.
//!
//! Codec and config packets go over a stream. Every other packet is cut into
//! numbered segments, one per datagram, and put together again by the receiver.

use vstd::prelude::*;
use bytes::Bytes;
use crate::av;
use crate::av::{AVPacket, AVPacketHeader, AVPacketView, MediaPacket, MediaPacketHeader};
use crate::error::ProtocolError;
use crate::pending;
use crate::pending::{DatagramPacket, Keyed, Reassembly};
use crate::wire;

verus! {

/// A datagram starts with the endpoint id (16 bits), the packet's sequence
/// number (32 bits), its group's (32 bits), and the datagram's number in the
/// packet (31 bits) below a bit that marks the last one.
pub const DATAGRAM_HEADER_SIZE: usize = 14;

/// Datagram numbers have 31 bits.
pub const MAX_DATAGRAMS: u32 = 0x8000_0000;

/// What is known of a packet under assembly: how many segments it has, once the
/// last one has arrived, and the segments.
#[verifier::ext_equal]
pub struct SegmentsView {
    pub total_segments: Option<nat>,
    pub segments: Seq<Option<Seq<u8>>>,
}

/// A segment as a datagram brings it.
#[derive(Debug)]
pub struct Segment {
    pub datagram_number: u32,
    pub end: bool,
    pub data: Bytes,
}

/// A segment: its place, whether it is the last one, its bytes.
#[verifier::ext_equal]
pub struct SegmentView {
    pub datagram_number: nat,
    pub end: bool,
    pub data: Seq<u8>,
}

impl View for Segment {
    type V = SegmentView;

    open spec fn view(&self) -> SegmentView {
        SegmentView {
            datagram_number: self.datagram_number as nat,
            end: self.end,
            data: wire::bytes_seq(self.data),
        }
    }
}

/// How many segments are there.
pub open spec fn count_present(segments: Seq<Option<Seq<u8>>>) -> nat
    decreases segments.len(),
{
    if segments.len() == 0 {
        0
    } else {
        count_present(segments.drop_last()) + if segments.last() is Some {
            1nat
        } else {
            0
        }
    }
}

/// All segments are there.
pub open spec fn all_present(segments: Seq<Option<Seq<u8>>>) -> bool {
    forall|i: int| 0 <= i < segments.len() ==> (#[trigger] segments[i]) is Some
}

/// The segments, end to end.
pub open spec fn joined(segments: Seq<Option<Seq<u8>>>) -> Seq<u8>
    decreases segments.len(),
{
    if segments.len() == 0 {
        Seq::empty()
    } else {
        joined(segments.drop_last()) + segments.last().unwrap()
    }
}

impl SegmentsView {
    pub open spec fn empty() -> SegmentsView {
        SegmentsView { total_segments: None, segments: Seq::empty() }
    }

    /// Room for segment `index`.
    pub open spec fn grown(self, index: nat) -> Seq<Option<Seq<u8>>> {
        if index < self.segments.len() {
            self.segments
        } else {
            self.segments + Seq::new((index + 1 - self.segments.len()) as nat, |i: int| None)
        }
    }

    /// Nothing is known of segment `index`.
    pub open spec fn is_vacant(self, index: nat) -> bool {
        index >= self.segments.len() || self.segments[index as int] is None
    }

    /// A packet has one last segment.
    pub open spec fn can_set(self, part: SegmentView) -> bool {
        self.is_vacant(part.datagram_number) && part.end ==> self.total_segments is None
    }

    /// The segment takes its place; if the place is taken, nothing changes.
    pub open spec fn set(self, part: SegmentView) -> SegmentsView {
        let index = part.datagram_number;
        if self.is_vacant(index) {
            SegmentsView {
                total_segments: if part.end {
                    Some(index + 1)
                } else {
                    self.total_segments
                },
                segments: self.grown(index).update(index as int, Some(part.data)),
            }
        } else {
            self
        }
    }

    /// As many segments are there as the packet has.
    pub open spec fn is_complete(self) -> bool {
        self.total_segments == Some(count_present(self.segments))
    }

    /// The packet that the segments make up. There is none if a segment is
    /// missing among them, or if they do not start with a media header.
    pub open spec fn assembled(self) -> Option<AVPacketView> {
        let data = joined(self.segments);
        if all_present(self.segments) && AVPacketHeader::SERIALIZED_SIZE <= data.len()
            <= isize::MAX && av::is_media(data) {
            Some(
                AVPacketView::Media {
                    header: MediaPacketHeader::spec_deserialize(data.take(12)),
                    payload: data.skip(12),
                },
            )
        } else {
            None
        }
    }
}

/// A packet under assembly.
#[derive(Debug)]
pub struct DatagramSegments {
    kypacket_seq: u64,
    total_segments: Option<usize>,
    segments: Vec<Option<Bytes>>,
    segments_count: usize,
}

pub open spec fn segment_view(segment: Option<Bytes>) -> Option<Seq<u8>> {
    match segment {
        Some(data) => Some(wire::bytes_seq(data)),
        None => None,
    }
}

pub open spec fn segments_view(segments: Seq<Option<Bytes>>) -> Seq<Option<Seq<u8>>> {
    segments.map_values(|s: Option<Bytes>| segment_view(s))
}

impl View for DatagramSegments {
    type V = SegmentsView;

    closed spec fn view(&self) -> SegmentsView {
        SegmentsView {
            total_segments: match self.total_segments {
                Some(n) => Some(n as nat),
                None => None,
            },
            segments: segments_view(self.segments@),
        }
    }
}

impl Keyed for DatagramSegments {
    closed spec fn spec_key(&self) -> u64 {
        self.kypacket_seq
    }

    fn key(&self) -> u64 {
        self.kypacket_seq
    }
}

/// Filling a vacant place adds one to the count.
proof fn lemma_count_update(segments: Seq<Option<Seq<u8>>>, index: int, data: Seq<u8>)
    requires
        0 <= index < segments.len(),
        segments[index] is None,
    ensures
        count_present(segments.update(index, Some(data))) == count_present(segments) + 1,
        count_present(segments) < segments.len(),
    decreases segments.len(),
{
    let after = segments.update(index, Some(data));
    lemma_count_bound(segments.drop_last());
    if index == segments.len() - 1 {
        assert(after.drop_last() =~= segments.drop_last());
    } else {
        assert(after.drop_last() =~= segments.drop_last().update(index, Some(data)));
        lemma_count_update(segments.drop_last(), index, data);
    }
}

proof fn lemma_count_bound(segments: Seq<Option<Seq<u8>>>)
    ensures
        count_present(segments) <= segments.len(),
    decreases segments.len(),
{
    if segments.len() > 0 {
        lemma_count_bound(segments.drop_last());
    }
}

/// Vacant places at the end do not count.
proof fn lemma_count_grown(segments: Seq<Option<Seq<u8>>>, extra: nat)
    ensures
        count_present(segments + Seq::new(extra, |i: int| None)) == count_present(segments),
    decreases extra,
{
    let after = segments + Seq::new(extra, |i: int| None);
    if extra == 0 {
        assert(after =~= segments);
    } else {
        assert(after.drop_last() =~= segments + Seq::new((extra - 1) as nat, |i: int| None));
        lemma_count_grown(segments, (extra - 1) as nat);
    }
}

impl DatagramSegments {
    pub closed spec fn is_wf(&self) -> bool {
        self.segments_count == count_present(self@.segments)
    }

    pub fn new(kypacket_seq: u64) -> (r: Self)
        ensures
            r.is_wf(),
            r.spec_key() == kypacket_seq,
            r@ == SegmentsView::empty(),
    {
        let r = DatagramSegments {
            kypacket_seq,
            total_segments: None,
            segments: Vec::new(),
            segments_count: 0,
        };
        assert(r@ =~= SegmentsView::empty());
        r
    }

    pub fn is_complete(&self) -> (r: bool)
        requires
            self.is_wf(),
        ensures
            r == self@.is_complete(),
    {
        match self.total_segments {
            Some(total) => total == self.segments_count,
            None => false,
        }
    }

    /// Whether nothing is known of segment `index`.
    fn is_vacant(&self, index: usize) -> (r: bool)
        ensures
            r == self@.is_vacant(index as nat),
    {
        if index >= self.segments.len() {
            true
        } else {
            match &self.segments[index] {
                Some(_) => false,
                None => true,
            }
        }
    }

    pub fn set_segment(&mut self, index: usize, segment: Bytes, end: bool)
        requires
            old(self).is_wf(),
            index < usize::MAX,
            old(self)@.can_set(
                SegmentView {
                    datagram_number: index as nat,
                    end,
                    data: wire::bytes_seq(segment),
                },
            ),
        ensures
            final(self).is_wf(),
            final(self).spec_key() == old(self).spec_key(),
            final(self)@ == old(self)@.set(
                SegmentView {
                    datagram_number: index as nat,
                    end,
                    data: wire::bytes_seq(segment),
                },
            ),
    {
        let ghost before = self@;
        let ghost data = wire::bytes_seq(segment);
        if self.is_vacant(index) {
            let ghost len = self.segments@.len();
            while index >= self.segments.len()
                invariant
                    len <= self.segments@.len(),
                    len <= index ==> self.segments@.len() <= index + 1,
                    len > index ==> self.segments@.len() == len,
                    len == before.segments.len(),
                    index < usize::MAX,
                    segments_view(self.segments@) =~= before.segments + Seq::new(
                        (self.segments@.len() - len) as nat,
                        |i: int| None,
                    ),
                    self.kypacket_seq == old(self).kypacket_seq,
                    self.total_segments == old(self).total_segments,
                    self.segments_count == old(self).segments_count,
                decreases index + 1 - self.segments@.len(),
            {
                let ghost view = segments_view(self.segments@);
                self.segments.push(None);
                assert(segments_view(self.segments@) =~= view.push(None));
            }
            proof {
                assert(segments_view(self.segments@) =~= before.grown(index as nat));
                lemma_count_grown(before.segments, (self.segments@.len() - len) as nat);
                lemma_count_update(segments_view(self.segments@), index as int, data);
            }
            let ghost grown = segments_view(self.segments@);
            self.segments[index] = Some(segment);
            assert(segments_view(self.segments@) =~= grown.update(index as int, Some(data)));
            self.segments_count = self.segments_count + 1;
            if end {
                self.total_segments = Some(index + 1);
            }
        }
    }

    /// The segments end to end.
    pub fn merge_segments(segments: &Vec<Option<Bytes>>) -> (bytes: Bytes)
        requires
            all_present(segments_view(segments@)),
            joined(segments_view(segments@)).len() <= isize::MAX,
        ensures
            wire::bytes_seq(bytes) == joined(segments_view(segments@)),
    {
        let ghost view = segments_view(segments@);
        let mut bytes = wire::buffer_with_capacity(0);
        let mut i: usize = 0;
        while i < segments.len()
            invariant
                i <= segments.len(),
                view == segments_view(segments@),
                all_present(view),
                joined(view).len() <= isize::MAX,
                wire::buffer_seq(bytes) == joined(view.take(i as int)),
            decreases segments.len() - i,
        {
            proof {
                assert(view[i as int] is Some);
                assert(view.take(i + 1).drop_last() =~= view.take(i as int));
                lemma_joined_take(view, i + 1);
            }
            if let Some(segment) = &segments[i] {
                wire::put_slice(&mut bytes, wire::as_slice(segment));
            }
            i += 1;
        }
        assert(view.take(i as int) =~= view);
        wire::freeze(bytes)
    }

    /// Whether the segments make up a media packet.
    fn is_media_packet(&self) -> (r: bool)
        ensures
            r == (self@.assembled() is Some),
    {
        let ghost view = self@.segments;
        let mut len: usize = 0;
        let mut first: u8 = 0;
        let mut i: usize = 0;
        while i < self.segments.len()
            invariant
                i <= self.segments.len(),
                view == self@.segments,
                all_present(view.take(i as int)),
                len == joined(view.take(i as int)).len(),
                len <= isize::MAX,
                len > 0 ==> first == joined(view.take(i as int))[0],
            decreases self.segments.len() - i,
        {
            proof {
                assert(view.take(i + 1).drop_last() =~= view.take(i as int));
                lemma_joined_take(view, i + 1);
            }
            match &self.segments[i] {
                None => {
                    assert(view[i as int] is None);
                    return false;
                },
                Some(segment) => {
                    let data = wire::as_slice(segment);
                    assert(view[i as int] == Some(data@));
                    if data.len() > isize::MAX as usize - len {
                        return false;
                    }
                    if len == 0 && data.len() > 0 {
                        first = data[0];
                    }
                    len = len + data.len();
                    assert forall|j: int| 0 <= j < i + 1 implies (#[trigger] view.take(
                        i + 1,
                    )[j]) is Some by {
                        if j < i {
                            assert(view.take(i as int)[j] is Some);
                        }
                    }
                },
            }
            i += 1;
        }
        assert(view.take(i as int) =~= view);
        len >= AVPacketHeader::SERIALIZED_SIZE && first >= 0x80
    }

    /// The packet that the segments make up, with the time it was put together.
    pub fn assemble(self, now: u64) -> (r: DatagramPacket<AVPacket>)
        requires
            self.is_wf(),
            self@.is_complete(),
            self@.assembled() is Some,
        ensures
            self@.assembled() == Some(r.packet@),
            r.kypacket_seq == self.spec_key(),
            r.instant == now,
    {
        let data = Self::merge_segments(&self.segments);
        let slice = wire::as_slice(&data);
        let header = MediaPacketHeader::deserialize(&slice[0..12]);
        assert(slice@.subrange(0, 12) =~= slice@.take(12));
        let payload = wire::slice_from(&data, AVPacketHeader::SERIALIZED_SIZE);
        let packet = AVPacket::Media(MediaPacket { header, payload });
        DatagramPacket { packet, kypacket_seq: self.kypacket_seq, instant: now }
    }
}

/// The first segments, end to end, are the start of all of them.
proof fn lemma_joined_take(segments: Seq<Option<Seq<u8>>>, n: int)
    requires
        0 <= n <= segments.len(),
    ensures
        joined(segments.take(n)).len() <= joined(segments).len(),
    decreases segments.len(),
{
    if n == segments.len() {
        assert(segments.take(n) =~= segments);
    } else {
        assert(segments.drop_last().take(n) =~= segments.take(n));
        lemma_joined_take(segments.drop_last(), n);
    }
}

impl Reassembly for DatagramSegments {
    type Part = Segment;

    type Packet = AVPacket;

    open spec fn wf(&self) -> bool {
        self.is_wf()
    }

    open spec fn can_start(part: SegmentView) -> bool {
        true
    }

    open spec fn started(part: SegmentView) -> SegmentsView {
        SegmentsView::empty()
    }

    open spec fn sound(v: SegmentsView) -> bool {
        true
    }

    open spec fn can_add(v: SegmentsView, part: SegmentView) -> bool {
        part.datagram_number < MAX_DATAGRAMS && v.can_set(part)
    }

    open spec fn added(v: SegmentsView, part: SegmentView) -> SegmentsView {
        v.set(part)
    }

    open spec fn complete(v: SegmentsView) -> bool {
        v.is_complete()
    }

    open spec fn assembled(v: SegmentsView) -> Option<AVPacketView> {
        v.assembled()
    }

    fn start(kypacket_seq: u64, part: &Segment) -> (r: Option<Self>) {
        Some(DatagramSegments::new(kypacket_seq))
    }

    fn add_part(&mut self, part: Segment) -> (ok: bool) {
        let index: usize = part.datagram_number as usize;
        if part.datagram_number >= MAX_DATAGRAMS {
            return false;
        }
        if part.end && self.total_segments.is_some() && self.is_vacant(index) {
            return false;
        }
        self.set_segment(index, part.data, part.end);
        true
    }

    fn has_all_parts(&self) -> (r: bool) {
        self.is_complete()
    }

    fn finish(self, now: u64) -> (r: Option<DatagramPacket<AVPacket>>) {
        if self.is_media_packet() {
            Some(self.assemble(now))
        } else {
            None
        }
    }
}

/// `data`, cut into pieces of `size` bytes; the last one may be shorter.
pub open spec fn chunks(data: Seq<u8>, size: nat) -> Seq<Seq<u8>>
    decreases data.len(),
{
    if data.len() == 0 || size == 0 {
        Seq::empty()
    } else if data.len() <= size {
        seq![data]
    } else {
        seq![data.take(size as int)] + chunks(data.skip(size as int), size)
    }
}

/// A datagram on the wire.
pub open spec fn datagram_bytes(
    endpoint_id: u16,
    kypacket_seq: u32,
    group_seq: u32,
    part: SegmentView,
) -> Seq<u8> {
    wire::be_bytes(endpoint_id as nat, 2) + wire::be_bytes(kypacket_seq as nat, 4)
        + wire::be_bytes(group_seq as nat, 4) + wire::be_bytes(
        part.datagram_number + if part.end {
            0x8000_0000nat
        } else {
            0
        },
        4,
    ) + part.data
}

/// The segments that `data` is cut into.
pub open spec fn segments_of(data: Seq<u8>, size: nat) -> Seq<SegmentView> {
    let pieces = chunks(data, size);
    Seq::new(
        pieces.len(),
        |i: int|
            SegmentView { datagram_number: i as nat, end: i == pieces.len() - 1, data: pieces[i] },
    )
}

/// The datagrams of a packet.
pub open spec fn packet_datagrams(
    endpoint_id: u16,
    kypacket_seq: u32,
    group_seq: u32,
    data: Seq<u8>,
    size: nat,
) -> Seq<Seq<u8>> {
    segments_of(data, size).map_values(
        |part: SegmentView| datagram_bytes(endpoint_id, kypacket_seq, group_seq, part),
    )
}

pub open spec fn bytes_seqs(v: Seq<Bytes>) -> Seq<Seq<u8>> {
    v.map_values(|b: Bytes| wire::bytes_seq(b))
}

/// What goes out for a packet: bytes on the stream, or datagrams.
#[derive(Debug)]
pub enum Outgoing {
    Stream(Bytes),
    Datagrams(Vec<Bytes>),
}

/// What goes out for a packet, as bytes.
#[verifier::ext_equal]
pub enum OutgoingView {
    Stream(Seq<u8>),
    Datagrams(Seq<Seq<u8>>),
}

impl View for Outgoing {
    type V = OutgoingView;

    open spec fn view(&self) -> OutgoingView {
        match self {
            Outgoing::Stream(bytes) => OutgoingView::Stream(wire::bytes_seq(*bytes)),
            Outgoing::Datagrams(datagrams) => OutgoingView::Datagrams(bytes_seqs(datagrams@)),
        }
    }
}

/// A packet on the stream: its number, its group's, the packet itself.
pub open spec fn stream_bytes(kypacket_seq: u32, group_seq: u32, packet: AVPacketView) -> Seq<u8> {
    wire::be_bytes(kypacket_seq as nat, 4) + wire::be_bytes(group_seq as nat, 4)
        + av::packet_bytes(packet)
}

/// The number after `n`, on 32 bits.
pub open spec fn next_u32(n: u32) -> u32 {
    if n == u32::MAX {
        0
    } else {
        (n + 1) as u32
    }
}

/// The sending side: the numbers of the next packet and of the current group.
/// Both wrap around.
#[derive(Debug)]
pub struct AudioUnreliableProtocolSendDriver {
    pub kypacket_seq: u32,
    pub group_seq: u32,
}

impl AudioUnreliableProtocolSendDriver {
    pub fn start() -> (r: Self)
        ensures
            r.kypacket_seq == 0,
            r.group_seq == 0,
    {
        AudioUnreliableProtocolSendDriver { kypacket_seq: 0, group_seq: 0 }
    }

    /// A datagram carries fewer than 2^16 bytes of a packet, and a packet has no
    /// more than 2^31 datagrams.
    pub open spec fn fits(packet: AVPacketView, max_datagram_size: usize) -> bool {
        let data = av::packet_bytes(packet);
        let size = max_datagram_size - DATAGRAM_HEADER_SIZE;
        &&& size > 0
        &&& size < 0x1_0000 || data.len() < 0x1_0000
        &&& chunks(data, size as nat).len() <= MAX_DATAGRAMS
        &&& data.len() + 20 <= isize::MAX
    }

    /// Cuts a packet into datagrams.
    fn send_datagrams(
        &self,
        packet: &MediaPacket,
        endpoint_id: u16,
        max_datagram_size: Option<usize>,
    ) -> (r: Result<Vec<Bytes>, ProtocolError>)
        requires
            packet.header.wf(),
            max_datagram_size matches Some(max) ==> Self::fits(packet@, max),
        ensures
            match r {
                Ok(datagrams) => max_datagram_size matches Some(max) && bytes_seqs(datagrams@)
                    == packet_datagrams(
                    endpoint_id,
                    self.kypacket_seq,
                    self.group_seq,
                    av::packet_bytes(packet@),
                    (max - DATAGRAM_HEADER_SIZE) as nat,
                ),
                Err(error) => max_datagram_size is None && error.0@ == "Datagram not supported"@,
            },
    {
        let max: usize = match max_datagram_size {
            None => return Err(ProtocolError::new("Datagram not supported")),
            Some(max) => max,
        };
        let size: usize = max - DATAGRAM_HEADER_SIZE;
        let header = packet.header.serialize();
        proof {
            av::lemma_media_header_roundtrip(packet.header);
        }
        let payload = wire::as_slice(&packet.payload);
        let mut data = wire::buffer_with_capacity(header.len() + payload.len());
        wire::put_slice(&mut data, &header);
        wire::put_slice(&mut data, payload);
        let data = wire::freeze(data);
        let data = wire::as_slice(&data);
        let ghost all = data@;
        assert(all =~= av::packet_bytes(packet@));
        let ghost whole = chunks(all, size as nat);
        let ghost expected = packet_datagrams(
            endpoint_id,
            self.kypacket_seq,
            self.group_seq,
            all,
            size as nat,
        );
        let mut datagrams: Vec<Bytes> = Vec::new();
        let mut offset: usize = 0;
        let mut number: u32 = 0;
        assert(all.skip(0) =~= all);
        assert(whole.skip(0) =~= whole);
        while offset < data.len()
            invariant
                0 < size,
                all == data@,
                all.len() + 20 <= isize::MAX,
                whole == chunks(all, size as nat),
                whole.len() <= MAX_DATAGRAMS,
                expected == packet_datagrams(
                    endpoint_id,
                    self.kypacket_seq,
                    self.group_seq,
                    all,
                    size as nat,
                ),
                offset <= data.len(),
                number <= whole.len(),
                datagrams.len() == number,
                chunks(all.skip(offset as int), size as nat) == whole.skip(number as int),
                bytes_seqs(datagrams@) =~= expected.take(number as int),
            decreases data.len() - offset,
        {
            let ghost rest = all.skip(offset as int);
            let left: usize = data.len() - offset;
            let payload_size: usize = if size < left {
                size
            } else {
                left
            };
            let end = payload_size == left;
            let ghost piece = rest.take(payload_size as int);
            proof {
                assert(rest.take(left as int) =~= rest);
                assert(whole.skip(number as int)[0] == piece);
                assert(whole.skip(number as int).len() > 0);
                if end {
                    assert(chunks(rest, size as nat) =~= seq![piece]);
                } else {
                    assert(chunks(rest, size as nat) =~= seq![piece] + chunks(
                        rest.skip(size as int),
                        size as nat,
                    ));
                    assert(rest.skip(size as int).len() > 0);
                    assert(chunks(rest.skip(size as int), size as nat).len() > 0);
                }
                assert(whole.skip(number + 1) =~= whole.skip(number as int).skip(1));
            }
            let ghost part = SegmentView { datagram_number: number as nat, end, data: piece };
            assert(segments_of(all, size as nat)[number as int] == part);
            assert(number & 0x8000_0000 == 0 && number | 0x8000_0000 == number + 0x8000_0000)
                by (bit_vector)
                requires
                    number < 0x8000_0000,
            ;
            let datagram_number_and_end: u32 = if end {
                number | 0x8000_0000
            } else {
                number
            };
            proof {
                wire::lemma_be_bytes_len(endpoint_id as nat, 2);
                wire::lemma_be_bytes_len(self.kypacket_seq as nat, 4);
                wire::lemma_be_bytes_len(self.group_seq as nat, 4);
                wire::lemma_be_bytes_len(datagram_number_and_end as nat, 4);
            }
            let mut buf = wire::buffer_with_capacity(DATAGRAM_HEADER_SIZE + payload_size);
            wire::put_u16(&mut buf, endpoint_id);
            wire::put_u32(&mut buf, self.kypacket_seq);
            wire::put_u32(&mut buf, self.group_seq);
            wire::put_u32(&mut buf, datagram_number_and_end);
            wire::put_slice(&mut buf, &data[offset..offset + payload_size]);
            assert(all.subrange(offset as int, offset + payload_size) =~= piece);
            assert(wire::buffer_seq(buf) =~= datagram_bytes(
                endpoint_id,
                self.kypacket_seq,
                self.group_seq,
                part,
            ));
            let ghost before = bytes_seqs(datagrams@);
            let datagram = wire::freeze(buf);
            datagrams.push(datagram);
            assert(bytes_seqs(datagrams@) =~= before.push(wire::bytes_seq(datagram)));
            assert(all.skip(offset as int).skip(payload_size as int) =~= all.skip(
                offset + payload_size,
            ));
            offset = offset + payload_size;
            number = number + 1;
        }
        assert(whole.skip(number as int).len() == 0);
        assert(expected.take(number as int) =~= expected);
        Ok(datagrams)
    }

    /// The numbers after a packet. A codec packet has none. A config packet opens
    /// a new group.
    pub open spec fn after(self, packet: AVPacketView) -> Self {
        match packet {
            AVPacketView::Codec { .. } => self,
            AVPacketView::Media { header, .. } => AudioUnreliableProtocolSendDriver {
                kypacket_seq: next_u32(self.kypacket_seq),
                group_seq: if header.is_config {
                    next_u32(self.group_seq)
                } else {
                    self.group_seq
                },
            },
        }
    }

    /// A codec packet goes over the stream with meaningless numbers. A config
    /// packet goes over the stream with its number and its new group's. Any
    /// other packet goes in datagrams.
    pub open spec fn outgoing(
        self,
        packet: AVPacketView,
        endpoint_id: u16,
        max_datagram_size: usize,
    ) -> OutgoingView {
        match packet {
            AVPacketView::Codec { .. } => OutgoingView::Stream(stream_bytes(0, 0, packet)),
            AVPacketView::Media { header, .. } => if header.is_config {
                OutgoingView::Stream(
                    stream_bytes(self.kypacket_seq, next_u32(self.group_seq), packet),
                )
            } else {
                OutgoingView::Datagrams(
                    packet_datagrams(
                        endpoint_id,
                        self.kypacket_seq,
                        self.group_seq,
                        av::packet_bytes(packet),
                        (max_datagram_size - DATAGRAM_HEADER_SIZE) as nat,
                    ),
                )
            },
        }
    }

    /// The packet goes over datagrams.
    pub open spec fn needs_datagrams(packet: AVPacketView) -> bool {
        packet matches AVPacketView::Media { header, .. } && !header.is_config
    }

    /// Sends a packet: tells what goes out, and counts it.
    pub fn send(
        &mut self,
        packet: AVPacket,
        endpoint_id: u16,
        max_datagram_size: Option<usize>,
    ) -> (r: Result<Outgoing, ProtocolError>)
        requires
            packet matches AVPacket::Media(media) ==> media.header.wf(),
            av::packet_bytes(packet@).len() + 20 <= isize::MAX,
            Self::needs_datagrams(packet@) ==> (max_datagram_size matches Some(max) ==> Self::fits(
                packet@,
                max,
            )),
        ensures
            match r {
                Ok(outgoing) => {
                    &&& Self::needs_datagrams(packet@) ==> max_datagram_size is Some
                    &&& outgoing@ == old(self).outgoing(
                        packet@,
                        endpoint_id,
                        max_datagram_size.unwrap(),
                    )
                    &&& *final(self) == old(self).after(packet@)
                },
                Err(error) => {
                    &&& Self::needs_datagrams(packet@)
                    &&& max_datagram_size is None
                    &&& error.0@ == "Datagram not supported"@
                    &&& *final(self) == *old(self)
                },
            },
    {
        match packet {
            AVPacket::Codec(packet) => {
                proof {
                    wire::lemma_be_bytes_len(0, 8);
                    lemma_zero_bytes();
                }
                let mut buf = wire::buffer_with_capacity(8 + AVPacketHeader::SERIALIZED_SIZE);
                wire::put_u64(&mut buf, 0);
                let header = packet.header.serialize();
                wire::put_slice(&mut buf, &header);
                let buf = wire::freeze(buf);
                Ok(Outgoing::Stream(buf))
            },
            AVPacket::Media(packet) => {
                if packet.header.is_config {
                    self.group_seq = self.group_seq.wrapping_add(1);
                    let payload = wire::as_slice(&packet.payload);
                    proof {
                        av::lemma_media_header_roundtrip(packet.header);
                        wire::lemma_be_bytes_len(self.kypacket_seq as nat, 4);
                        wire::lemma_be_bytes_len(self.group_seq as nat, 4);
                    }
                    let mut buf = wire::buffer_with_capacity(
                        8 + AVPacketHeader::SERIALIZED_SIZE + payload.len(),
                    );
                    wire::put_u32(&mut buf, self.kypacket_seq);
                    wire::put_u32(&mut buf, self.group_seq);
                    let header = packet.header.serialize();
                    wire::put_slice(&mut buf, &header);
                    wire::put_slice(&mut buf, payload);
                    let buf = wire::freeze(buf);
                    assert(wire::bytes_seq(buf) =~= stream_bytes(
                        self.kypacket_seq,
                        self.group_seq,
                        packet@,
                    ));
                    self.kypacket_seq = self.kypacket_seq.wrapping_add(1);
                    Ok(Outgoing::Stream(buf))
                } else {
                    match self.send_datagrams(&packet, endpoint_id, max_datagram_size) {
                        Err(error) => Err(error),
                        Ok(datagrams) => {
                            self.kypacket_seq = self.kypacket_seq.wrapping_add(1);
                            Ok(Outgoing::Datagrams(datagrams))
                        },
                    }
                }
            },
        }
    }
}

/// Eight zero bytes are twice four zero bytes.
proof fn lemma_zero_bytes()
    ensures
        wire::be_bytes(0, 8) == wire::be_bytes(0, 4) + wire::be_bytes(0, 4),
{
    reveal_with_fuel(wire::be_bytes, 9);
    assert(wire::be_bytes(0, 8) =~= wire::be_bytes(0, 4) + wire::be_bytes(0, 4));
}

/// The pieces that `data` is cut into: all but the last one have `size` bytes, the last
/// one has at least one byte and no more than `size`, and piece `i` is what stands
/// `i * size` bytes from the start.
pub proof fn lemma_pieces(data: Seq<u8>, size: nat)
    requires
        size > 0,
    ensures
        ({
            let pieces = chunks(data, size);
            &&& data.len() <= pieces.len() * size
            &&& data.len() == 0 ==> pieces.len() == 0
            &&& data.len() > 0 ==> (pieces.len() - 1) * size < data.len()
            &&& forall|i: int|
                0 <= i < pieces.len() ==> {
                    &&& 0 < (#[trigger] pieces[i]).len() <= size
                    &&& i < pieces.len() - 1 ==> pieces[i].len() == size
                    &&& 0 <= i * size
                    &&& i * size + pieces[i].len() <= data.len()
                    &&& pieces[i] == data.subrange(i * size, i * size + pieces[i].len())
                }
        }),
    decreases data.len(),
{
    let pieces = chunks(data, size);
    let n = pieces.len();
    if data.len() == 0 {
        assert(n * size == 0) by (nonlinear_arith)
            requires
                n == 0,
        ;
    } else if data.len() <= size {
        assert(pieces =~= seq![data]);
        assert(n * size == size && (n - 1) * size == 0 && 0 * size == 0) by (nonlinear_arith)
            requires
                n == 1,
        ;
        assert(data.subrange(0, data.len() as int) =~= data);
    } else {
        let rest = data.skip(size as int);
        let others = chunks(rest, size);
        lemma_pieces(rest, size);
        assert(pieces =~= seq![data.take(size as int)] + others);
        assert(n * size == others.len() * size + size && (n - 1) * size == (others.len() - 1)
            * size + size) by (nonlinear_arith)
            requires
                n == others.len() + 1,
        ;
        assert(0 * size == 0) by (nonlinear_arith);
        assert forall|i: int| 0 <= i < pieces.len() implies {
            &&& 0 < (#[trigger] pieces[i]).len() <= size
            &&& i < pieces.len() - 1 ==> pieces[i].len() == size
            &&& 0 <= i * size
            &&& i * size + pieces[i].len() <= data.len()
            &&& pieces[i] == data.subrange(i * size, i * size + pieces[i].len())
        } by {
            if i == 0 {
                assert(data.take(size as int) =~= data.subrange(0, size as int));
            } else {
                assert(pieces[i] == others[i - 1]);
                assert(i * size == (i - 1) * size + size) by (nonlinear_arith);
                assert(rest.subrange((i - 1) * size, (i - 1) * size + others[i - 1].len())
                    =~= data.subrange(i * size, i * size + pieces[i].len()));
            }
        }
    }
}

/// The datagrams that are sent for a packet. None is longer than datagrams can be, and
/// every one but the last is exactly that long. There are just enough of them. Each tells
/// the endpoint, the packet, the group, its own place and whether it is the last one;
/// then comes its part of the packet.
pub proof fn lemma_datagrams_are_full(
    sender: AudioUnreliableProtocolSendDriver,
    packet: AVPacketView,
    endpoint_id: u16,
    max_datagram_size: usize,
)
    requires
        AudioUnreliableProtocolSendDriver::needs_datagrams(packet),
        AudioUnreliableProtocolSendDriver::fits(packet, max_datagram_size),
    ensures
        sender.outgoing(packet, endpoint_id, max_datagram_size) matches OutgoingView::Datagrams(
            datagrams,
        ) && {
            let data = av::packet_bytes(packet);
            let size = max_datagram_size - 14;
            &&& data.len() <= datagrams.len() * size
            &&& data.len() == 0 ==> datagrams.len() == 0
            &&& data.len() > 0 ==> (datagrams.len() - 1) * size < data.len()
            &&& forall|i: int|
                0 <= i < datagrams.len() ==> {
                    let datagram = #[trigger] datagrams[i];
                    &&& 14 < datagram.len() <= max_datagram_size
                    &&& i < datagrams.len() - 1 ==> datagram.len() == max_datagram_size
                    &&& wire::be_value(datagram.subrange(0, 2)) == endpoint_id
                    &&& wire::be_value(datagram.subrange(2, 6)) == sender.kypacket_seq
                    &&& wire::be_value(datagram.subrange(6, 10)) == sender.group_seq
                    &&& wire::be_value(datagram.subrange(10, 14)) == i + if i
                        == datagrams.len() - 1 {
                        0x8000_0000int
                    } else {
                        0
                    }
                    &&& datagram.skip(14) == data.subrange(
                        i * size,
                        i * size + datagram.len() - 14,
                    )
                }
        },
{
    let data = av::packet_bytes(packet);
    let size = (max_datagram_size - DATAGRAM_HEADER_SIZE) as nat;
    let pieces = chunks(data, size);
    let datagrams = packet_datagrams(
        endpoint_id,
        sender.kypacket_seq,
        sender.group_seq,
        data,
        size,
    );
    lemma_pieces(data, size);
    assert(datagrams.len() == pieces.len());
    assert forall|i: int| 0 <= i < datagrams.len() implies {
        let datagram = #[trigger] datagrams[i];
        &&& 14 < datagram.len() <= max_datagram_size
        &&& i < datagrams.len() - 1 ==> datagram.len() == max_datagram_size
        &&& wire::be_value(datagram.subrange(0, 2)) == endpoint_id
        &&& wire::be_value(datagram.subrange(2, 6)) == sender.kypacket_seq
        &&& wire::be_value(datagram.subrange(6, 10)) == sender.group_seq
        &&& wire::be_value(datagram.subrange(10, 14)) == i + if i == datagrams.len() - 1 {
            0x8000_0000int
        } else {
            0
        }
        &&& datagram.skip(14) == data.subrange(i * size, i * size + datagram.len() - 14)
    } by {
        let part = segments_of(data, size)[i];
        let number = part.datagram_number + if part.end {
            0x8000_0000nat
        } else {
            0
        };
        let datagram = datagrams[i];
        assert(datagram == datagram_bytes(
            endpoint_id,
            sender.kypacket_seq,
            sender.group_seq,
            part,
        ));
        assert(part.data == pieces[i]);
        wire::lemma_pow_256();
        wire::lemma_be_bytes_len(endpoint_id as nat, 2);
        wire::lemma_be_bytes_len(sender.kypacket_seq as nat, 4);
        wire::lemma_be_bytes_len(sender.group_seq as nat, 4);
        wire::lemma_be_bytes_len(number, 4);
        wire::lemma_decode_encode(endpoint_id as nat, 2);
        wire::lemma_decode_encode(sender.kypacket_seq as nat, 4);
        wire::lemma_decode_encode(sender.group_seq as nat, 4);
        wire::lemma_decode_encode(number, 4);
        assert(datagram.subrange(0, 2) =~= wire::be_bytes(endpoint_id as nat, 2));
        assert(datagram.subrange(2, 6) =~= wire::be_bytes(sender.kypacket_seq as nat, 4));
        assert(datagram.subrange(6, 10) =~= wire::be_bytes(sender.group_seq as nat, 4));
        assert(datagram.subrange(10, 14) =~= wire::be_bytes(number, 4));
        assert(datagram.skip(14) =~= pieces[i]);
    }
}

/// What goes out for an audio packet, and with which numbers. A codec packet goes over the
/// stream and leaves the numbers as they are. A config packet goes over the stream with
/// its own number and that of the group it opens. Any other packet goes in datagrams. Only
/// a config packet opens a group; every packet but a codec packet takes a number. Numbers
/// wrap around.
pub proof fn lemma_what_goes_out(
    sender: AudioUnreliableProtocolSendDriver,
    packet: AVPacketView,
    endpoint_id: u16,
    max_datagram_size: usize,
)
    ensures
        ({
            let after = sender.after(packet);
            let data = av::packet_bytes(packet);
            match packet {
                AVPacketView::Codec { .. } => {
                    &&& after == sender
                    &&& !AudioUnreliableProtocolSendDriver::needs_datagrams(packet)
                    &&& sender.outgoing(packet, endpoint_id, max_datagram_size) matches
                        OutgoingView::Stream(bytes) && bytes.len() == 8 + data.len()
                        && bytes.skip(8) == data && wire::be_value(bytes.take(8)) == 0
                },
                AVPacketView::Media { header, .. } => {
                    &&& after.kypacket_seq == (sender.kypacket_seq + 1) % 0x1_0000_0000
                    &&& AudioUnreliableProtocolSendDriver::needs_datagrams(packet)
                        == !header.is_config
                    &&& header.is_config ==> {
                        &&& after.group_seq == (sender.group_seq + 1) % 0x1_0000_0000
                        &&& sender.outgoing(packet, endpoint_id, max_datagram_size) matches
                            OutgoingView::Stream(bytes) && bytes.len() == 8 + data.len()
                            && wire::be_value(bytes.subrange(0, 4)) == sender.kypacket_seq
                            && wire::be_value(bytes.subrange(4, 8)) == after.group_seq
                            && bytes.skip(8) == data
                    }
                    &&& !header.is_config ==> {
                        &&& after.group_seq == sender.group_seq
                        &&& sender.outgoing(packet, endpoint_id, max_datagram_size) is Datagrams
                    }
                },
            }
        }),
{
    wire::lemma_pow_256();
    let data = av::packet_bytes(packet);
    match packet {
        AVPacketView::Codec { .. } => {
            let bytes = stream_bytes(0, 0, packet);
            wire::lemma_be_bytes_len(0, 4);
            lemma_zero_bytes();
            wire::lemma_decode_encode(0, 8);
            assert(bytes.skip(8) =~= data);
            assert(bytes.take(8) =~= wire::be_bytes(0, 8));
        },
        AVPacketView::Media { header, .. } => {
            let number = sender.kypacket_seq;
            let group = sender.after(packet).group_seq;
            let bytes = stream_bytes(number, group, packet);
            wire::lemma_be_bytes_len(number as nat, 4);
            wire::lemma_be_bytes_len(group as nat, 4);
            wire::lemma_decode_encode(number as nat, 4);
            wire::lemma_decode_encode(group as nat, 4);
            assert(bytes.subrange(0, 4) =~= wire::be_bytes(number as nat, 4));
            assert(bytes.subrange(4, 8) =~= wire::be_bytes(group as nat, 4));
            assert(bytes.skip(8) =~= data);
        },
    }
}

/// Joining segments appends one to the others, in order.
pub proof fn lemma_joined_in_order(segments: Seq<Option<Seq<u8>>>, last: Seq<u8>)
    ensures
        joined(Seq::<Option<Seq<u8>>>::empty()) == Seq::<u8>::empty(),
        joined(segments.push(Some(last))) == joined(segments) + last,
{
    assert(segments.push(Some(last)).drop_last() =~= segments);
}

/// What is known of segment `index`.
pub open spec fn place(v: SegmentsView, index: nat) -> Option<Seq<u8>> {
    if index < v.segments.len() {
        v.segments[index as int]
    } else {
        None
    }
}

/// A segment is kept in its place, unless that is taken, and no other place changes. The
/// last segment tells how many there are. A second last segment is no part of the packet,
/// nor is a segment whose number has more than 31 bits.
pub proof fn lemma_segment_takes_its_place(v: SegmentsView, part: SegmentView, other: nat)
    ensures
        ({
            let n = part.datagram_number;
            let after = v.set(part);
            &&& place(v, n) is Some ==> after == v
            &&& place(v, n) is None ==> {
                &&& place(after, n) == Some(part.data)
                &&& part.end ==> after.total_segments == Some(n + 1)
                &&& !part.end ==> after.total_segments == v.total_segments
            }
            &&& other != n ==> place(after, other) == place(v, other)
            &&& <DatagramSegments as Reassembly>::added(v, part) == after
            &&& <DatagramSegments as Reassembly>::can_add(v, part) <==> n < 0x8000_0000 && !(
            part.end && place(v, n) is None && v.total_segments is Some)
        }),
{
}

/// As many segments are there as there can be exactly when none is missing.
proof fn lemma_all_present_counts(segments: Seq<Option<Seq<u8>>>)
    ensures
        count_present(segments) == segments.len() <==> all_present(segments),
    decreases segments.len(),
{
    lemma_count_bound(segments);
    if segments.len() > 0 {
        let before = segments.drop_last();
        lemma_count_bound(before);
        lemma_all_present_counts(before);
        if all_present(segments) {
            assert forall|i: int| 0 <= i < before.len() implies (#[trigger] before[i]) is Some by {
                assert(before[i] == segments[i]);
            }
            assert(segments[segments.len() - 1] is Some);
        }
        if count_present(segments) == segments.len() {
            assert forall|i: int| 0 <= i < segments.len() implies (
            #[trigger] segments[i]) is Some by {
                if i < before.len() {
                    assert(before[i] is Some);
                }
            }
        }
    }
}

/// A packet is complete when its last segment and all before it have arrived, as long as
/// no segment has a higher number than the last one.
pub proof fn lemma_complete_when_none_is_missing(v: SegmentsView, total: nat)
    requires
        v.segments.len() == total,
    ensures
        v.total_segments is None ==> !<DatagramSegments as Reassembly>::complete(v),
        v.total_segments == Some(total) ==> (<DatagramSegments as Reassembly>::complete(v)
            <==> forall|i: nat| i < total ==> (#[trigger] place(v, i)) is Some),
{
    lemma_all_present_counts(v.segments);
    if all_present(v.segments) {
        assert forall|i: nat| i < total implies (#[trigger] place(v, i)) is Some by {
            assert(v.segments[i as int] is Some);
        }
    }
    if forall|i: nat| i < total ==> (#[trigger] place(v, i)) is Some {
        assert forall|i: int| 0 <= i < v.segments.len() implies (
        #[trigger] v.segments[i]) is Some by {
            assert(place(v, i as nat) is Some);
        }
    }
}

/// The packet that segments make up is the one whose bytes they are, end to end. There is
/// none if one is missing, or if the bytes are too few for a header, or if the first bit
/// is not that of a media packet.
pub proof fn lemma_assembled_packet_is_its_bytes(v: SegmentsView)
    requires
        joined(v.segments).len() <= isize::MAX,
    ensures
        <DatagramSegments as Reassembly>::assembled(v) is Some <==> {
            &&& forall|i: nat| i < v.segments.len() ==> (#[trigger] place(v, i)) is Some
            &&& joined(v.segments).len() >= 12
            &&& joined(v.segments)[0] >= 0x80
        },
        <DatagramSegments as Reassembly>::assembled(v) matches Some(packet) ==> packet is Media
            && av::packet_bytes(packet) == joined(v.segments),
{
    let data = joined(v.segments);
    if all_present(v.segments) {
        assert forall|i: nat| i < v.segments.len() implies (#[trigger] place(v, i)) is Some by {
            assert(v.segments[i as int] is Some);
        }
    }
    if forall|i: nat| i < v.segments.len() ==> (#[trigger] place(v, i)) is Some {
        assert forall|i: int| 0 <= i < v.segments.len() implies (
        #[trigger] v.segments[i]) is Some by {
            assert(place(v, i as nat) is Some);
        }
    }
    if data.len() >= 12 && data[0] >= 0x80 {
        assert(data.take(12)[0] == data[0]);
        av::lemma_media_bytes_roundtrip(data.take(12));
        assert(data.take(12) + data.skip(12) =~= data);
    }
}

/// An assembly starts with nothing, whatever segment comes first.
pub proof fn lemma_assembly_starts_empty(part: SegmentView, index: nat)
    ensures
        ({
            let v = <DatagramSegments as Reassembly>::started(part);
            &&& <DatagramSegments as Reassembly>::can_start(part)
            &&& place(v, index) is None
            &&& v.total_segments is None
            &&& v.segments.len() == 0
        }),
{
}

/// Which packets fit in datagrams of a size: those that leave room for some of the packet,
/// for packets of up to 2^31 datagrams. Where a datagram takes 2^16 bytes of a packet or
/// more, the packet has to have fewer.
pub proof fn lemma_which_packets_fit(packet: AVPacketView, max_datagram_size: usize)
    requires
        av::packet_bytes(packet).len() + 20 <= isize::MAX,
    ensures
        ({
            let len = av::packet_bytes(packet).len();
            AudioUnreliableProtocolSendDriver::fits(packet, max_datagram_size) <==> {
                &&& max_datagram_size > 14
                &&& len <= 0x8000_0000 * (max_datagram_size - 14)
                &&& max_datagram_size < 14 + 0x1_0000 || len < 0x1_0000
            }
        }),
{
    let data = av::packet_bytes(packet);
    if max_datagram_size > 14 {
        let size = (max_datagram_size - 14) as nat;
        let n = chunks(data, size).len();
        lemma_pieces(data, size);
        if n <= 0x8000_0000 {
            assert(n * size <= 0x8000_0000 * size) by (nonlinear_arith)
                requires
                    n <= 0x8000_0000,
                    size > 0,
            ;
        } else {
            assert((n - 1) * size >= 0x8000_0000 * size) by (nonlinear_arith)
                requires
                    n - 1 >= 0x8000_0000,
                    size > 0,
            ;
        }
    }
}

} // verus!
