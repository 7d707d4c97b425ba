//! Laws of the segmentation of packets: whatever the order in which the
//! segments of a packet arrive, and however often, they make up that packet.

use vstd::prelude::*;
use crate::audio_unreliable;
use crate::audio_unreliable::{DatagramSegments, SegmentView, SegmentsView};
use crate::av;
use crate::av::{AVPacketView, MediaPacketHeader};
use crate::pending;
use crate::pending::{GroupOf, GroupView, Reassembly};

verus! {

/// The parts are numbered from zero, and the last one, and only it, is marked.
pub open spec fn is_numbered(parts: Seq<SegmentView>) -> bool {
    &&& parts.len() > 0
    &&& forall|i: int|
        0 <= i < parts.len() ==> {
            &&& (#[trigger] parts[i]).datagram_number == i
            &&& parts[i].end == (i == parts.len() - 1)
        }
}

/// The data of the parts, all of them there.
pub open spec fn all_of(parts: Seq<SegmentView>) -> Seq<Option<Seq<u8>>> {
    parts.map_values(|part: SegmentView| Some(part.data))
}

/// The parts are those that `data` was cut into, wherever it was cut.
pub open spec fn is_cut(parts: Seq<SegmentView>, data: Seq<u8>) -> bool {
    is_numbered(parts) && audio_unreliable::joined(all_of(parts)) == data
}

/// The assembly after the parts numbered by `order` have arrived.
pub open spec fn fed(parts: Seq<SegmentView>, order: Seq<int>) -> SegmentsView
    decreases order.len(),
{
    if order.len() == 0 {
        SegmentsView::empty()
    } else {
        fed(parts, order.drop_last()).set(parts[order.last()])
    }
}

/// All numbers are those of parts.
pub open spec fn in_parts(parts: Seq<SegmentView>, order: Seq<int>) -> bool {
    forall|k: int| 0 <= k < order.len() ==> 0 <= #[trigger] order[k] < parts.len()
}

/// Every part has arrived.
pub open spec fn covers(parts: Seq<SegmentView>, order: Seq<int>) -> bool {
    forall|i: int| 0 <= i < parts.len() ==> #[trigger] order.contains(i)
}

/// The pieces of `data`, end to end, are `data`.
pub proof fn lemma_chunks_join(data: Seq<u8>, size: nat, segments: Seq<Option<Seq<u8>>>)
    requires
        size > 0,
        segments.len() == audio_unreliable::chunks(data, size).len(),
        forall|i: int|
            0 <= i < segments.len() ==> #[trigger] segments[i] == Some(
                audio_unreliable::chunks(data, size)[i],
            ),
    ensures
        audio_unreliable::joined(segments) == data,
    decreases data.len(),
{
    let pieces = audio_unreliable::chunks(data, size);
    if data.len() == 0 {
        assert(audio_unreliable::joined(segments) =~= data);
    } else if data.len() <= size {
        assert(pieces[0] == data);
        assert(segments[0] == Some(data));
        lemma_join_first(segments);
        assert(segments.skip(1) =~= Seq::empty());
        assert(audio_unreliable::joined(segments) =~= data);
    } else {
        let rest = data.skip(size as int);
        let tail = segments.skip(1);
        assert forall|i: int| 0 <= i < tail.len() implies #[trigger] tail[i] == Some(
            audio_unreliable::chunks(rest, size)[i],
        ) by {
            assert(tail[i] == segments[i + 1]);
        }
        lemma_chunks_join(rest, size, tail);
        lemma_join_first(segments);
        assert(segments[0] == Some(data.take(size as int)));
        assert(data.take(size as int) + rest =~= data);
    }
}

/// Segments end to end are the first one, then the others.
proof fn lemma_join_first(segments: Seq<Option<Seq<u8>>>)
    requires
        segments.len() > 0,
    ensures
        audio_unreliable::joined(segments) == segments[0].unwrap() + audio_unreliable::joined(
            segments.skip(1),
        ),
    decreases segments.len(),
{
    if segments.len() == 1 {
        assert(segments.drop_last() =~= Seq::empty());
        assert(segments.skip(1) =~= Seq::empty());
        assert(audio_unreliable::joined(segments) =~= segments[0].unwrap()
            + audio_unreliable::joined(segments.skip(1)));
    } else {
        lemma_join_first(segments.drop_last());
        assert(segments.skip(1).drop_last() =~= segments.drop_last().skip(1));
        assert(audio_unreliable::joined(segments) =~= segments[0].unwrap()
            + audio_unreliable::joined(segments.skip(1)));
    }
}

/// The count reaches the length exactly when every segment is there.
proof fn lemma_count_full(segments: Seq<Option<Seq<u8>>>)
    ensures
        audio_unreliable::count_present(segments) <= segments.len(),
        audio_unreliable::count_present(segments) == segments.len()
            <==> audio_unreliable::all_present(segments),
    decreases segments.len(),
{
    if segments.len() > 0 {
        let rest = segments.drop_last();
        lemma_count_full(rest);
        if audio_unreliable::all_present(segments) {
            assert forall|i: int| 0 <= i < rest.len() implies (#[trigger] rest[i]) is Some by {
                assert(segments[i] is Some);
            }
            assert(segments[segments.len() - 1] is Some);
        }
        if audio_unreliable::count_present(segments) == segments.len() {
            assert forall|i: int| 0 <= i < segments.len() implies (
            #[trigger] segments[i]) is Some by {
                if i < rest.len() {
                    assert(rest[i] is Some);
                }
            }
        }
    }
}

/// What the assembly holds after some parts have arrived: those parts, and the
/// length once the last part is among them.
proof fn lemma_fed(parts: Seq<SegmentView>, order: Seq<int>)
    requires
        is_numbered(parts),
        in_parts(parts, order),
    ensures
        ({
            let v = fed(parts, order);
            &&& v.segments.len() <= parts.len()
            &&& forall|i: int|
                0 <= i < v.segments.len() ==> #[trigger] v.segments[i] == if order.contains(i) {
                    Some(parts[i].data)
                } else {
                    None
                }
            &&& forall|i: int| #[trigger] order.contains(i) ==> i < v.segments.len()
            &&& v.total_segments == if order.contains(parts.len() - 1) {
                Some(parts.len())
            } else {
                None
            }
        }),
    decreases order.len(),
{
    let v = fed(parts, order);
    if order.len() > 0 {
        let before = order.drop_last();
        let u = fed(parts, before);
        let n = order.last();
        assert(n == order[order.len() - 1]);
        lemma_fed(parts, before);
        assert(parts[n].datagram_number == n);
        assert(parts[n].end == (n == parts.len() - 1));
        assert forall|i: int| #[trigger] order.contains(i) implies i == n || before.contains(i) by {
            let k = choose|k: int| 0 <= k < order.len() && order[k] == i;
            if k < before.len() {
                assert(before[k] == i);
            }
        }
        assert forall|i: int| #[trigger] before.contains(i) implies order.contains(i) by {
            let k = choose|k: int| 0 <= k < before.len() && before[k] == i;
            assert(order[k] == i);
        }
        assert(order.contains(n));
        if !u.is_vacant(n as nat) {
            assert(before.contains(n));
        }
        assert forall|i: int| 0 <= i < v.segments.len() implies #[trigger] v.segments[i]
            == if order.contains(i) {
            Some(parts[i].data)
        } else {
            None
        } by {
            if i != n {
                assert(order.contains(i) == before.contains(i));
            }
        }
        assert(order.contains(parts.len() - 1) == (n == parts.len() - 1 || before.contains(
            parts.len() - 1,
        )));
        if u.is_vacant(n as nat) && before.contains(n) {
            assert(n < u.segments.len());
            assert(u.segments[n] == Some(parts[n].data));
        }
    } else {
        assert(!order.contains(parts.len() - 1));
    }
}

/// The pieces that a sender cuts data into, all of one size but for the last,
/// are a cut.
pub proof fn lemma_pieces_are_a_cut(data: Seq<u8>, size: nat)
    requires
        size > 0,
        data.len() > 0,
    ensures
        is_cut(audio_unreliable::segments_of(data, size), data),
{
    let parts = audio_unreliable::segments_of(data, size);
    lemma_chunks_nonempty(data, size);
    assert forall|i: int| 0 <= i < all_of(parts).len() implies #[trigger] all_of(parts)[i] == Some(
        audio_unreliable::chunks(data, size)[i],
    ) by {
        assert(parts[i].data == audio_unreliable::chunks(data, size)[i]);
    }
    lemma_chunks_join(data, size, all_of(parts));
}

/// The parts of a packet can be taken in any order and any number of times; the
/// assembly is complete exactly when each has arrived, and then it holds the data
/// that was cut, wherever it was cut.
pub proof fn lemma_segments_in_any_order(
    data: Seq<u8>,
    parts: Seq<SegmentView>,
    order: Seq<int>,
    next: int,
)
    requires
        is_cut(parts, data),
        in_parts(parts, order),
        0 <= next < parts.len(),
    ensures
        ({
            let v = fed(parts, order);
            &&& v.can_set(parts[next])
            &&& v.is_complete() <==> covers(parts, order)
            &&& v.is_complete() ==> audio_unreliable::all_present(v.segments)
                && audio_unreliable::joined(v.segments) == data
        }),
{
    let v = fed(parts, order);
    lemma_fed(parts, order);
    lemma_count_full(v.segments);
    assert(parts[next].datagram_number == next);
    if v.is_vacant(next as nat) && order.contains(next) {
        assert(v.segments[next] == Some(parts[next].data));
    }
    if covers(parts, order) {
        assert(order.contains(parts.len() - 1));
        assert forall|i: int| 0 <= i < v.segments.len() implies (
        #[trigger] v.segments[i]) is Some by {
            assert(order.contains(i));
        }
    }
    if v.is_complete() {
        assert(v.segments.len() == parts.len());
        assert forall|i: int| 0 <= i < parts.len() implies #[trigger] order.contains(i) by {
            assert(v.segments[i] is Some);
        }
        assert forall|i: int| 0 <= i < v.segments.len() implies #[trigger] v.segments[i]
            == all_of(parts)[i] by {
            assert(order.contains(i));
        }
        assert(v.segments =~= all_of(parts));
    }
}

/// The bytes of a media packet are put together again and read as that packet,
/// wherever they were cut, whatever the order in which the parts arrive, and
/// however often.
pub proof fn lemma_bytes_reassemble(data: Seq<u8>, parts: Seq<SegmentView>, order: Seq<int>)
    requires
        12 <= data.len() <= isize::MAX,
        av::is_media(data),
        is_cut(parts, data),
        in_parts(parts, order),
        covers(parts, order),
    ensures
        fed(parts, order).is_complete(),
        fed(parts, order).assembled() == Some(
            AVPacketView::Media {
                header: MediaPacketHeader::spec_deserialize(data.take(12)),
                payload: data.skip(12),
            },
        ),
{
    lemma_segments_in_any_order(data, parts, order, 0);
}

/// A packet that was cut is put together again, wherever it was cut and whatever
/// the order in which its parts arrive.
pub proof fn lemma_packet_roundtrip(
    packet: AVPacketView,
    parts: Seq<SegmentView>,
    order: Seq<int>,
)
    requires
        packet matches AVPacketView::Media { header, .. } && header.wf(),
        av::packet_bytes(packet).len() <= isize::MAX,
        is_cut(parts, av::packet_bytes(packet)),
        in_parts(parts, order),
        covers(parts, order),
    ensures
        fed(parts, order).is_complete(),
        fed(parts, order).assembled() == Some(packet),
{
    if let AVPacketView::Media { header, payload } = packet {
        let data = av::packet_bytes(packet);
        av::lemma_media_header_roundtrip(header);
        assert(data.take(12) =~= header.spec_serialize());
        assert(data.skip(12) =~= payload);
        lemma_bytes_reassemble(data, parts, order);
    }
}

proof fn lemma_chunks_nonempty(data: Seq<u8>, size: nat)
    requires
        size > 0,
        data.len() > 0,
    ensures
        audio_unreliable::chunks(data, size).len() > 0,
{
}

/// The group after the datagrams numbered by `order` have arrived, each at its
/// time, and whether all of them were good.
pub open spec fn group_fed<R: Reassembly>(
    group: GroupOf<R>,
    kypacket_seq: u64,
    parts: Seq<<R::Part as View>::V>,
    order: Seq<int>,
    now: spec_fn(int) -> u64,
) -> (GroupOf<R>, bool)
    decreases order.len(),
{
    if order.len() == 0 {
        (group, true)
    } else {
        let (before, good) = group_fed::<R>(group, kypacket_seq, parts, order.drop_last(), now);
        let (after, last_good) = pending::with_datagram::<R>(
            before,
            kypacket_seq,
            parts[order.last()],
            now(order.len() - 1),
        );
        (after, good && last_good)
    }
}

/// Every assembly on the way was sound.
pub open spec fn soundly_fed<R: Reassembly>(
    group: GroupOf<R>,
    kypacket_seq: u64,
    parts: Seq<<R::Part as View>::V>,
    order: Seq<int>,
    now: spec_fn(int) -> u64,
) -> bool {
    forall|n: int|
        0 <= n < order.len() ==> (pending::assembly_after::<R>(
            group_fed::<R>(group, kypacket_seq, parts, #[trigger] order.take(n), now).0,
            kypacket_seq,
            parts[order[n]],
        ) matches Some(assembly) ==> R::sound(assembly))
}

/// Every assembly on the way to the last part was sound too.
pub proof fn lemma_soundly_fed_before<R: Reassembly>(
    group: GroupOf<R>,
    kypacket_seq: u64,
    parts: Seq<<R::Part as View>::V>,
    order: Seq<int>,
    now: spec_fn(int) -> u64,
)
    requires
        order.len() > 0,
        soundly_fed::<R>(group, kypacket_seq, parts, order, now),
    ensures
        soundly_fed::<R>(group, kypacket_seq, parts, order.drop_last(), now),
{
    let prefix = order.drop_last();
    assert forall|n: int| 0 <= n < prefix.len() implies (pending::assembly_after::<R>(
        group_fed::<R>(group, kypacket_seq, parts, #[trigger] prefix.take(n), now).0,
        kypacket_seq,
        parts[prefix[n]],
    ) matches Some(assembly) ==> R::sound(assembly)) by {
        assert(prefix.take(n) =~= order.take(n));
    }
}

/// The packet is among the complete packets of the group.
pub open spec fn holds<V, S>(group: GroupView<V, S>, kypacket_seq: u64, packet: V) -> bool {
    let at = pending::slot(group.datagram_keys(), kypacket_seq);
    pending::found(group.datagram_keys(), kypacket_seq) && group.datagrams[at].packet == packet
}

/// The assembly of the packet is among the unfinished ones of the group.
pub open spec fn assembles<V, S>(group: GroupView<V, S>, kypacket_seq: u64, v: S) -> bool {
    let at = pending::slot(group.segment_keys(), kypacket_seq);
    pending::found(group.segment_keys(), kypacket_seq) && group.segments[at].1 == v
}

/// A group that has received every datagram of a packet, in any order and any
/// number of times, holds that packet, wherever it was cut; one that lacks a datagram does not hold
/// any packet of that number.
pub proof fn lemma_group_reassembles(
    group: GroupOf<DatagramSegments>,
    kypacket_seq: u64,
    packet: AVPacketView,
    parts: Seq<SegmentView>,
    order: Seq<int>,
    now: spec_fn(int) -> u64,
)
    requires
        group.wf(),
        !pending::found(group.datagram_keys(), kypacket_seq),
        !pending::found(group.segment_keys(), kypacket_seq),
        packet matches AVPacketView::Media { header, .. } && header.wf(),
        av::packet_bytes(packet).len() <= isize::MAX,
        is_cut(parts, av::packet_bytes(packet)),
        parts.len() <= audio_unreliable::MAX_DATAGRAMS,
        in_parts(parts, order),
        forall|k: int| #[trigger] now(k) <= pending::MAX_INSTANT,
    ensures
        ({
            let (after, good) = group_fed::<DatagramSegments>(
                group,
                kypacket_seq,
                parts,
                order,
                now,
            );
            &&& good
            &&& after.wf()
            &&& after.config_packet == group.config_packet
            &&& covers(parts, order) ==> holds(after, kypacket_seq, packet)
            &&& !covers(parts, order) ==> !pending::found(after.datagram_keys(), kypacket_seq)
        }),
{
    lemma_group_fed(group, kypacket_seq, packet, parts, order, now);
}

/// A number stands in its own slot.
pub proof fn lemma_slot_of(keys: Seq<u64>, at: int)
    requires
        pending::increasing(keys),
        0 <= at < keys.len(),
    ensures
        pending::found(keys, keys[at]),
        pending::slot(keys, keys[at]) == at,
{
    pending::lemma_slot(keys, keys[at]);
    let place = pending::slot(keys, keys[at]);
    if place < at {
        assert(keys[place] < keys[at]);
    }
}

proof fn lemma_group_fed(
    group: GroupOf<DatagramSegments>,
    kypacket_seq: u64,
    packet: AVPacketView,
    parts: Seq<SegmentView>,
    order: Seq<int>,
    now: spec_fn(int) -> u64,
)
    requires
        group.wf(),
        !pending::found(group.datagram_keys(), kypacket_seq),
        !pending::found(group.segment_keys(), kypacket_seq),
        packet matches AVPacketView::Media { header, .. } && header.wf(),
        av::packet_bytes(packet).len() <= isize::MAX,
        is_cut(parts, av::packet_bytes(packet)),
        parts.len() <= audio_unreliable::MAX_DATAGRAMS,
        in_parts(parts, order),
        forall|k: int| #[trigger] now(k) <= pending::MAX_INSTANT,
    ensures
        ({
            let (after, good) = group_fed::<DatagramSegments>(
                group,
                kypacket_seq,
                parts,
                order,
                now,
            );
            &&& good
            &&& after.wf()
            &&& after.config_packet == group.config_packet
            &&& covers(parts, order) ==> holds(after, kypacket_seq, packet)
            &&& !covers(parts, order) ==> !pending::found(after.datagram_keys(), kypacket_seq)
            &&& !covers(parts, order) && order.len() > 0 ==> assembles(
                after,
                kypacket_seq,
                fed(parts, order),
            )
            &&& order.len() == 0 ==> after == group
        }),
    decreases order.len(),
{
    let data = av::packet_bytes(packet);
    if order.len() == 0 {
        assert(!order.contains(0));
        assert(!covers(parts, order));
    } else {
        let prefix = order.drop_last();
        let n = order.last();
        assert(n == order[order.len() - 1]);
        assert(in_parts(parts, prefix)) by {
            assert forall|k: int| 0 <= k < prefix.len() implies 0 <= #[trigger] prefix[k]
                < parts.len() by {
                assert(prefix[k] == order[k]);
            }
        }
        lemma_group_fed(group, kypacket_seq, packet, parts, prefix, now);
        let (before, _) = group_fed::<DatagramSegments>(group, kypacket_seq, parts, prefix, now);
        let instant = now(order.len() - 1);
        let (after, _) = pending::with_datagram::<DatagramSegments>(
            before,
            kypacket_seq,
            parts[n],
            instant,
        );
        pending::lemma_group_with_datagram_wf::<DatagramSegments>(
            before,
            kypacket_seq,
            parts[n],
            instant,
        );
        lemma_segments_in_any_order(data, parts, prefix, n);
        lemma_segments_in_any_order(data, parts, order, n);
        if covers(parts, prefix) {
            assert forall|i: int| 0 <= i < parts.len() implies #[trigger] order.contains(i) by {
                assert(prefix.contains(i));
                let k = choose|k: int| 0 <= k < prefix.len() && prefix[k] == i;
                assert(order[k] == i);
            }
        } else {
            let v = fed(parts, prefix);
            pending::lemma_slot(before.segment_keys(), kypacket_seq);
            pending::lemma_slot(before.datagram_keys(), kypacket_seq);
            let at = pending::slot(before.segment_keys(), kypacket_seq);
            if prefix.len() == 0 {
                assert(v == SegmentsView::empty());
            }
            assert(fed(parts, order) == v.set(parts[n]));
            if covers(parts, order) {
                lemma_packet_roundtrip(packet, parts, order);
                let place = pending::slot(before.datagram_keys(), kypacket_seq);
                assert(after.datagrams[place].packet == packet);
                lemma_slot_of(after.datagram_keys(), place);
            } else {
                assert(after.datagrams == before.datagrams);
                assert(after.segments[at] == (kypacket_seq, fed(parts, order)));
                lemma_slot_of(after.segment_keys(), at);
            }
        }
    }
}

} // verus!
