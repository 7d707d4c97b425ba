//! Laws of waiting: what the groups keep of what arrives, when a packet is handed out,
//! which one, what stays, and until when to wait.
//!
//! All of them speak of what the groups hold. Times are in microseconds.

use vstd::prelude::*;
use crate::audio_recv::{EventView, MsgView, RecvView};
use crate::audio_unreliable;
use crate::audio_unreliable::SegmentView;
use crate::av::AVPacketView;
use crate::fec;
use crate::forwarder::{DatagramMsgView, ForwarderView};
use crate::kypacket::PacketView;
use crate::pending;
use crate::pending::{
    Action, ConfigPacket, DatagramPacket, GroupOf, GroupView, Reassembly, StreamPacket,
};
use crate::sequencer;

verus! {

/// The group holds the packet `next`: as its config packet, or as its first complete
/// packet.
pub open spec fn holds_expected<V, S>(group: GroupView<V, S>, next: u64) -> bool {
    ||| group.config_packet matches ConfigPacket::Ready(packet) && packet.kypacket_seq == next
    ||| group.datagrams.len() > 0 && group.datagrams[0].kypacket_seq == next
}

/// The group can bring a packet: its config packet has arrived, and either that is
/// the packet `next` or there is a complete packet.
pub open spec fn brings_packet<V, S>(group: GroupView<V, S>, next: u64) -> bool {
    &&& group.config_packet is Ready || group.config_packet is Sent
    &&& group.datagrams.len() > 0 || (group.config_packet matches ConfigPacket::Ready(packet)
        && packet.kypacket_seq == next)
}

/// The first group that can bring a packet stands at `at`.
pub open spec fn is_first<V, S>(groups: Seq<GroupView<V, S>>, next: u64, at: int) -> bool {
    &&& 0 <= at < groups.len()
    &&& brings_packet(groups[at], next)
    &&& forall|i: int| 0 <= i < at ==> !brings_packet(#[trigger] groups[i], next)
}

/// A complete packet was put together at time `instant`.
pub open spec fn has_instant<V, S>(groups: Seq<GroupView<V, S>>, instant: u64) -> bool {
    exists|a: int, b: int|
        0 <= a < groups.len() && 0 <= b < groups[a].datagrams.len() && (
        #[trigger] groups[a].datagrams[b]).instant == instant
}

/// No complete packet was put together before time `instant`.
pub open spec fn is_earliest<V, S>(groups: Seq<GroupView<V, S>>, instant: u64) -> bool {
    &&& has_instant(groups, instant)
    &&& forall|a: int, b: int|
        0 <= a < groups.len() && 0 <= b < groups[a].datagrams.len() ==> instant <= (
        #[trigger] groups[a].datagrams[b]).instant
}

/// The first group that can bring a packet decides.
proof fn lemma_first_decides<V, S>(groups: Seq<GroupView<V, S>>, next: u64, at: int)
    requires
        is_first(groups, next, at),
    ensures
        pending::candidate(groups, next) == at,
{
    pending::lemma_candidate(groups, next);
    let c = pending::candidate(groups, next);
    assert forall|i: int| 0 <= i < groups.len() implies pending::is_candidate(
        #[trigger] groups[i],
        next,
    ) == brings_packet(groups[i], next) by {}
    if c < at {
        assert(pending::is_candidate(groups[c], next));
    }
    if c > at {
        assert(!pending::is_candidate(groups[at], next));
    }
}

/// If some group can bring a packet, there is a first one.
pub proof fn lemma_there_is_a_first<V, S>(
    groups: Seq<GroupView<V, S>>,
    next: u64,
    i: int,
) -> (at: int)
    requires
        0 <= i < groups.len(),
        brings_packet(groups[i], next),
    ensures
        is_first(groups, next, at),
        at <= i,
    decreases i,
{
    if forall|j: int| 0 <= j < i ==> !brings_packet(#[trigger] groups[j], next) {
        i
    } else {
        let j = choose|j: int| 0 <= j < i && brings_packet(#[trigger] groups[j], next);
        lemma_there_is_a_first(groups, next, j)
    }
}

/// The earliest instant is the one that no packet is before.
proof fn lemma_min_is_earliest<V, S>(groups: Seq<GroupView<V, S>>, instant: u64)
    requires
        has_instant(groups, instant),
    ensures
        pending::spec_min_instant(groups) is Some,
        is_earliest(groups, pending::spec_min_instant(groups).unwrap()),
        pending::spec_min_instant(groups).unwrap() <= instant,
{
    pending::lemma_min_instant(groups);
    let (a, b) = choose|a: int, b: int|
        0 <= a < groups.len() && 0 <= b < groups[a].datagrams.len() && (
        #[trigger] groups[a].datagrams[b]).instant == instant;
    assert(groups[a].datagrams[b].instant == instant);
}

/// Past the deadline there is progress: if a group whose config packet has arrived
/// holds a complete packet, and some complete packet of any group has waited for
/// 50 ms, a packet is handed out, whatever number is expected and however many
/// packets are missing.
pub proof fn lemma_missing_packets_are_given_up<V, S>(
    groups: Seq<GroupView<V, S>>,
    next: u64,
    now: u64,
    i: int,
    instant: u64,
)
    requires
        pending::groups_wf(groups),
        groups.len() <= usize::MAX,
        0 <= i < groups.len(),
        !(groups[i].config_packet is Absent),
        groups[i].datagrams.len() > 0,
        has_instant(groups, instant),
        instant + 50_000 <= now,
    ensures
        pending::spec_take(groups, next, now).1 is Packet,
{
    let at = lemma_there_is_a_first(groups, next, i);
    lemma_first_decides(groups, next, at);
    lemma_min_is_earliest(groups, instant);
}

/// Before the deadline the wait goes on: if the first group that can bring a packet
/// does not hold the expected one, and no complete packet has waited for 50 ms,
/// nothing is handed out and nothing changes, and the answer is when the earliest
/// complete packet will have waited that long, which is later than now.
pub proof fn lemma_wait_goes_on<V, S>(
    groups: Seq<GroupView<V, S>>,
    next: u64,
    now: u64,
    at: int,
    earliest: u64,
)
    requires
        pending::groups_wf(groups),
        groups.len() <= usize::MAX,
        is_first(groups, next, at),
        !holds_expected(groups[at], next),
        is_earliest(groups, earliest),
        earliest + 50_000 > now,
    ensures
        pending::spec_take(groups, next, now).0 == groups,
        pending::spec_take(groups, next, now).1 matches Action::Deadline(deadline) && deadline
            == earliest + 50_000 && deadline > now,
{
    lemma_first_decides(groups, next, at);
    lemma_min_is_earliest(groups, earliest);
    let (a, b) = choose|a: int, b: int|
        0 <= a < groups.len() && 0 <= b < groups[a].datagrams.len() && (
        #[trigger] groups[a].datagrams[b]).instant == earliest;
    assert(groups[a].wf());
    assert(groups[a].datagrams[b].instant <= pending::MAX_INSTANT);
    let (c, d) = choose|c: int, d: int|
        0 <= c < groups.len() && 0 <= d < groups[c].datagrams.len() && (
        #[trigger] groups[c].datagrams[d]).instant == pending::spec_min_instant(groups).unwrap();
    assert(earliest <= groups[c].datagrams[d].instant);
}

/// If no group can bring a packet there is nothing to hand out or to wait for.
pub proof fn lemma_nothing_to_wait_for<V, S>(
    groups: Seq<GroupView<V, S>>,
    next: u64,
    now: u64,
)
    requires
        forall|i: int| 0 <= i < groups.len() ==> !brings_packet(#[trigger] groups[i], next),
    ensures
        pending::spec_take(groups, next, now).0 == groups,
        pending::spec_take(groups, next, now).1 is Idle,
{
    pending::lemma_candidate(groups, next);
    let c = pending::candidate(groups, next);
    if c < groups.len() {
        assert(pending::is_candidate(groups[c], next));
        assert(!brings_packet(groups[c], next));
    }
}

/// The expected packet does not wait: if the first group that can bring a packet
/// holds it, a packet is handed out at any time.
pub proof fn lemma_expected_packet_does_not_wait<V, S>(
    groups: Seq<GroupView<V, S>>,
    next: u64,
    now: u64,
    at: int,
)
    requires
        groups.len() <= usize::MAX,
        is_first(groups, next, at),
        holds_expected(groups[at], next),
    ensures
        pending::spec_take(groups, next, now).1 is Packet,
{
    lemma_first_decides(groups, next, at);
}

/// What is handed out comes from the first group that can bring a packet: its config
/// packet if that was not handed out yet, else its first complete packet. Groups
/// before it are forgotten, groups after it stay as they are. Of the group itself,
/// only what was handed out leaves, and with a complete packet the unfinished ones
/// of lower numbers.
pub proof fn lemma_what_is_handed_out<V, S>(
    groups: Seq<GroupView<V, S>>,
    next: u64,
    now: u64,
    at: int,
)
    requires
        pending::groups_wf(groups),
        groups.len() <= usize::MAX,
        is_first(groups, next, at),
    ensures
        pending::spec_take(groups, next, now).1 matches Action::Packet { kypacket_seq, packet }
            ==> {
            let group = groups[at];
            let left = pending::spec_take(groups, next, now).0;
            &&& left.len() == groups.len() - at
            &&& forall|i: int| 1 <= i < left.len() ==> #[trigger] left[i] == groups[at + i]
            &&& left[0].group_seq == group.group_seq
            &&& left[0].config_packet is Sent
            &&& match group.config_packet {
                ConfigPacket::Ready(config) => {
                    &&& kypacket_seq == config.kypacket_seq
                    &&& packet == config.packet
                    &&& left[0].datagrams == group.datagrams
                    &&& left[0].segments == group.segments
                },
                _ => {
                    &&& kypacket_seq == group.datagrams[0].kypacket_seq
                    &&& packet == group.datagrams[0].packet
                    &&& group.datagrams == seq![group.datagrams[0]] + left[0].datagrams
                    &&& left[0].segments == group.segments.filter(
                        |segment: (u64, S)| segment.0 >= kypacket_seq,
                    )
                },
            }
        },
{
    lemma_first_decides(groups, next, at);
    let (left, action) = pending::spec_take(groups, next, now);
    let group = groups[at];
    assert(group.wf());
    if let Action::Packet { kypacket_seq, packet } = action {
        if !(group.config_packet is Ready) {
            assert(group.datagrams =~= seq![group.datagrams[0]] + left[0].datagrams);
            lemma_filter_is_skip(group.segments, kypacket_seq);
            assert(group.segment_keys() =~= group.segments.map_values(|s: (u64, S)| s.0));
        }
    }
}

/// Keeping the items from a number on is leaving out the first ones.
proof fn lemma_filter_is_skip<S>(segments: Seq<(u64, S)>, from: u64)
    requires
        pending::increasing(segments.map_values(|s: (u64, S)| s.0)),
    ensures
        segments.filter(|segment: (u64, S)| segment.0 >= from) == segments.skip(
            pending::slot(segments.map_values(|s: (u64, S)| s.0), from),
        ),
    decreases segments.len(),
{
    reveal(Seq::filter);
    let keys = segments.map_values(|s: (u64, S)| s.0);
    let keep = |segment: (u64, S)| segment.0 >= from;
    pending::lemma_slot(keys, from);
    let at = pending::slot(keys, from);
    if segments.len() == 0 {
        assert(segments.filter(keep) =~= segments.skip(at));
    } else {
        let rest = segments.drop_last();
        let rest_keys = rest.map_values(|s: (u64, S)| s.0);
        assert(rest_keys =~= keys.drop_last());
        lemma_filter_is_skip(rest, from);
        pending::lemma_slot(rest_keys, from);
        let rest_at = pending::slot(rest_keys, from);
        assert(keys.last() == segments.last().0);
        if segments.last().0 >= from {
            assert(rest_at == at) by {
                if rest_at < at {
                    assert(rest_keys[rest_at] == keys[rest_at]);
                }
                if at < rest_at {
                    assert(rest_keys[at] == keys[at]);
                }
            }
            assert(segments.filter(keep) =~= rest.filter(keep).push(segments.last()));
            assert(segments.skip(at) =~= rest.skip(rest_at).push(segments.last()));
        } else {
            assert(at == segments.len()) by {
                if at < segments.len() {
                    assert(keys[segments.len() - 1] >= from);
                }
            }
            assert(rest_at == rest.len()) by {
                if rest_at < rest.len() {
                    assert(keys[rest_at] >= from);
                    assert(keys[rest_at] < keys.last());
                }
            }
            assert(segments.filter(keep) =~= rest.filter(keep));
            assert(segments.skip(at) =~= rest.skip(rest_at));
        }
    }
}

/// An audio receiver that is woken once a complete packet has waited for 50 ms hands
/// a packet out, however many packets are missing, and then expects the one after
/// it.
pub proof fn lemma_woken_receiver_gives_up(state: RecvView, now: u64, i: int, instant: u64)
    requires
        state.wf(),
        state.groups.len() <= usize::MAX,
        0 <= i < state.groups.len(),
        !(state.groups[i].config_packet is Absent),
        state.groups[i].datagrams.len() > 0,
        has_instant(state.groups, instant),
        instant + 50_000 <= now,
    ensures
        state.step(EventView::Deadline, now).1 matches Ok(Some(_)),
{
    lemma_missing_packets_are_given_up(
        state.groups,
        state.next_kypacket_seq,
        now,
        i,
        instant,
    );
}

/// An audio receiver that is woken earlier waits until the earliest complete packet
/// has waited for 50 ms, unless it holds the expected packet.
pub proof fn lemma_woken_receiver_waits(state: RecvView, now: u64, at: int, earliest: u64)
    requires
        state.wf(),
        state.groups.len() <= usize::MAX,
        is_first(state.groups, state.next_kypacket_seq, at),
        !holds_expected(state.groups[at], state.next_kypacket_seq),
        is_earliest(state.groups, earliest),
        earliest + 50_000 > now,
    ensures
        ({
            let (after, r) = state.step(EventView::Deadline, now);
            &&& r matches Ok(None)
            &&& after.deadline == Some((earliest + 50_000) as u64)
            &&& after.groups == state.groups
            &&& after.next_kypacket_seq == state.next_kypacket_seq
        }),
{
    lemma_wait_goes_on(state.groups, state.next_kypacket_seq, now, at, earliest);
}

/// A forwarder that looks once a complete packet has waited for 50 ms sends a packet,
/// however many packets are missing.
pub proof fn lemma_forwarder_gives_up(state: ForwarderView, now: u64, i: int, instant: u64)
    requires
        state.wf(),
        state.groups.len() <= usize::MAX,
        0 <= i < state.groups.len(),
        !(state.groups[i].config_packet is Absent),
        state.groups[i].datagrams.len() > 0,
        has_instant(state.groups, instant),
        instant + 50_000 <= now,
    ensures
        state.processed(now).1 is Some,
{
    lemma_missing_packets_are_given_up(
        state.groups,
        state.next_kypacket_seq,
        now,
        i,
        instant,
    );
}

/// A forwarder that looks earlier waits until the earliest complete packet has waited
/// for 50 ms, unless it holds the expected packet.
pub proof fn lemma_forwarder_waits(state: ForwarderView, now: u64, at: int, earliest: u64)
    requires
        state.wf(),
        state.groups.len() <= usize::MAX,
        is_first(state.groups, state.next_kypacket_seq, at),
        !holds_expected(state.groups[at], state.next_kypacket_seq),
        is_earliest(state.groups, earliest),
        earliest + 50_000 > now,
    ensures
        ({
            let (after, bytes) = state.processed(now);
            &&& bytes is None
            &&& after.deadline == Some((earliest + 50_000) as u64)
            &&& after.groups == state.groups
            &&& after.next_kypacket_seq == state.next_kypacket_seq
        }),
{
    lemma_wait_goes_on(state.groups, state.next_kypacket_seq, now, at, earliest);
}

/// A forwarder whose groups can bring nothing waits for no deadline.
pub proof fn lemma_forwarder_has_nothing_to_wait_for(state: ForwarderView, now: u64)
    requires
        forall|i: int|
            0 <= i < state.groups.len() ==> !brings_packet(
                #[trigger] state.groups[i],
                state.next_kypacket_seq,
            ),
    ensures
        state.processed(now).1 is None,
        state.processed(now).0.deadline is None,
        state.processed(now).0.groups == state.groups,
        state.processed(now).0.next_kypacket_seq == state.next_kypacket_seq,
{
    lemma_nothing_to_wait_for(state.groups, state.next_kypacket_seq, now);
}

/// There is a group with this number.
pub open spec fn has_group<V, S>(groups: Seq<GroupView<V, S>>, group_seq: u64) -> bool {
    exists|i: int| 0 <= i < groups.len() && (#[trigger] groups[i]).group_seq == group_seq
}

/// There is a complete packet with this number.
pub open spec fn has_packet<V, S>(group: GroupView<V, S>, kypacket_seq: u64) -> bool {
    exists|i: int|
        0 <= i < group.datagrams.len() && (#[trigger] group.datagrams[i]).kypacket_seq
            == kypacket_seq
}

/// There is an unfinished packet with this number.
pub open spec fn has_unfinished<V, S>(group: GroupView<V, S>, kypacket_seq: u64) -> bool {
    exists|i: int|
        0 <= i < group.segments.len() && (#[trigger] group.segments[i]).0 == kypacket_seq
}

/// One group may be new or changed, and stands in the slot of its number; the others are
/// those that were there.
proof fn lemma_one_group_changes<V, S>(
    groups: Seq<GroupView<V, S>>,
    group_seq: u64,
    changed: GroupView<V, S>,
    other: GroupView<V, S>,
)
    requires
        pending::groups_wf(groups),
        changed.group_seq == group_seq,
    ensures
        ({
            let at = pending::slot(pending::group_keys(groups), group_seq);
            let all = pending::with_group(groups, group_seq);
            let after = all.update(at, changed);
            &&& after.contains(changed)
            &&& other.group_seq != group_seq ==> (after.contains(other) <==> groups.contains(
                other,
            ))
            &&& other.group_seq == group_seq && groups.contains(other) ==> all[at] == other
            &&& !has_group(groups, group_seq) ==> all[at] == GroupView::<V, S>::empty(group_seq)
        }),
{
    pending::lemma_with_group(groups, group_seq);
    let keys = pending::group_keys(groups);
    let at = pending::slot(keys, group_seq);
    let all = pending::with_group(groups, group_seq);
    let after = all.update(at, changed);
    assert(after[at] == changed);
    pending::lemma_slot(keys, group_seq);
    let was = keys.contains(group_seq);
    if was {
        let i = choose|i: int| 0 <= i < keys.len() && keys[i] == group_seq;
        assert(groups[i].group_seq == group_seq);
    } else {
        assert forall|i: int| 0 <= i < groups.len() implies (#[trigger] groups[i]).group_seq
            != group_seq by {
            assert(keys[i] == groups[i].group_seq);
        }
    }
    if groups.contains(other) {
        let i = choose|i: int| 0 <= i < groups.len() && groups[i] == other;
        assert(keys[i] == other.group_seq);
        if other.group_seq == group_seq {
            if i < at {
                assert(keys[i] < group_seq);
            }
            if i > at {
                assert(keys[at] < keys[i]);
            }
        } else if was {
            assert(after[i] == other);
        } else {
            assert(all.remove(at) == groups);
            if i < at {
                assert(all.remove(at)[i] == all[i]);
                assert(after[i] == other);
            } else {
                assert(all.remove(at)[i] == all[i + 1]);
                assert(after[i + 1] == other);
            }
        }
    }
    if other.group_seq != group_seq && after.contains(other) {
        let j = choose|j: int| 0 <= j < after.len() && after[j] == other;
        assert(j != at);
        if was {
            assert(groups[j] == other);
        } else if j < at {
            assert(all.remove(at)[j] == all[j]);
            assert(groups[j] == other);
        } else {
            assert(all.remove(at)[j - 1] == all[j]);
            assert(groups[j - 1] == other);
        }
    }
}

/// A config packet is kept in its group, which may be new, and nothing else changes:
/// neither the other packets of the group nor any other group.
pub proof fn lemma_config_packet_is_kept<V, S>(
    groups: Seq<GroupView<V, S>>,
    group_seq: u64,
    packet: StreamPacket<V>,
    other: GroupView<V, S>,
)
    requires
        pending::groups_wf(groups),
    ensures
        ({
            let after = pending::with_config(groups, group_seq, packet);
            &&& pending::groups_wf(after)
            &&& other.group_seq != group_seq ==> (after.contains(other) <==> groups.contains(
                other,
            ))
            &&& other.group_seq == group_seq && groups.contains(other) ==> after.contains(
                GroupView { config_packet: ConfigPacket::Ready(packet), ..other },
            )
            &&& !has_group(groups, group_seq) ==> after.contains(
                GroupView {
                    group_seq,
                    config_packet: ConfigPacket::Ready(packet),
                    datagrams: Seq::empty(),
                    segments: Seq::empty(),
                },
            )
        }),
{
    pending::lemma_with_config_wf(groups, group_seq, packet);
    pending::lemma_with_group(groups, group_seq);
    let at = pending::slot(pending::group_keys(groups), group_seq);
    let all = pending::with_group(groups, group_seq);
    let changed = GroupView { config_packet: ConfigPacket::Ready(packet), ..all[at] };
    assert(pending::with_config(groups, group_seq, packet) == all.update(at, changed));
    lemma_one_group_changes(groups, group_seq, changed, other);
}

/// A datagram goes to its group, which may be new, and no other group changes.
pub proof fn lemma_datagram_goes_to_its_group<R: Reassembly>(
    groups: Seq<GroupOf<R>>,
    group_seq: u64,
    kypacket_seq: u64,
    part: <R::Part as View>::V,
    now: u64,
    other: GroupOf<R>,
)
    requires
        pending::groups_wf(groups),
        now <= 0xFFFF_FFFF_FFFF_3CAF,
    ensures
        ({
            let (after, good) = pending::with_datagram_in::<R>(
                groups,
                group_seq,
                kypacket_seq,
                part,
                now,
            );
            let new = GroupView {
                group_seq,
                config_packet: ConfigPacket::Absent,
                datagrams: Seq::empty(),
                segments: Seq::empty(),
            };
            &&& pending::groups_wf(after)
            &&& other.group_seq != group_seq ==> (after.contains(other) <==> groups.contains(
                other,
            ))
            &&& other.group_seq == group_seq && groups.contains(other) ==> {
                &&& after.contains(pending::with_datagram::<R>(other, kypacket_seq, part, now).0)
                &&& good == pending::with_datagram::<R>(other, kypacket_seq, part, now).1
                &&& pending::assembly_in::<R>(groups, group_seq, kypacket_seq, part)
                    == pending::assembly_after::<R>(other, kypacket_seq, part)
            }
            &&& !has_group(groups, group_seq) ==> {
                &&& after.contains(pending::with_datagram::<R>(new, kypacket_seq, part, now).0)
                &&& good == pending::with_datagram::<R>(new, kypacket_seq, part, now).1
                &&& pending::assembly_in::<R>(groups, group_seq, kypacket_seq, part)
                    == pending::assembly_after::<R>(new, kypacket_seq, part)
            }
        }),
{
    pending::lemma_with_datagram_wf::<R>(groups, group_seq, kypacket_seq, part, now);
    pending::lemma_with_group(groups, group_seq);
    let at = pending::slot(pending::group_keys(groups), group_seq);
    let all = pending::with_group(groups, group_seq);
    let changed = pending::with_datagram::<R>(all[at], kypacket_seq, part, now).0;
    lemma_one_group_changes(groups, group_seq, changed, other);
}

/// A number that items have is found among their numbers.
proof fn lemma_has_number<V, S>(group: GroupView<V, S>, kypacket_seq: u64)
    requires
        group.wf(),
    ensures
        pending::found(group.datagram_keys(), kypacket_seq) == has_packet(group, kypacket_seq),
        pending::found(group.segment_keys(), kypacket_seq) == has_unfinished(group, kypacket_seq),
{
    pending::lemma_slot(group.datagram_keys(), kypacket_seq);
    pending::lemma_slot(group.segment_keys(), kypacket_seq);
    if has_packet(group, kypacket_seq) {
        let i = choose|i: int|
            0 <= i < group.datagrams.len() && (#[trigger] group.datagrams[i]).kypacket_seq
                == kypacket_seq;
        assert(group.datagram_keys()[i] == kypacket_seq);
    }
    if group.datagram_keys().contains(kypacket_seq) {
        let i = choose|i: int|
            0 <= i < group.datagram_keys().len() && group.datagram_keys()[i] == kypacket_seq;
        assert(group.datagrams[i].kypacket_seq == kypacket_seq);
    }
    if has_unfinished(group, kypacket_seq) {
        let i = choose|i: int|
            0 <= i < group.segments.len() && (#[trigger] group.segments[i]).0 == kypacket_seq;
        assert(group.segment_keys()[i] == kypacket_seq);
    }
    if group.segment_keys().contains(kypacket_seq) {
        let i = choose|i: int|
            0 <= i < group.segment_keys().len() && group.segment_keys()[i] == kypacket_seq;
        assert(group.segments[i].0 == kypacket_seq);
    }
}

/// Inserting an item leaves the others.
proof fn lemma_insert_contains<T>(items: Seq<T>, at: int, item: T, other: T)
    requires
        0 <= at <= items.len(),
    ensures
        items.insert(at, item).contains(other) <==> other == item || items.contains(other),
{
    let after = items.insert(at, item);
    assert(after[at] == item);
    if items.contains(other) {
        let i = choose|i: int| 0 <= i < items.len() && items[i] == other;
        if i < at {
            assert(after[i] == other);
        } else {
            assert(after[i + 1] == other);
        }
    }
    if after.contains(other) && other != item {
        let j = choose|j: int| 0 <= j < after.len() && after[j] == other;
        if j < at {
            assert(items[j] == other);
        } else {
            assert(items[j - 1] == other);
        }
    }
}

/// Replacing an item leaves the others.
proof fn lemma_update_contains<T>(items: Seq<T>, at: int, item: T, other: T)
    requires
        0 <= at < items.len(),
        other != items[at],
    ensures
        items.update(at, item).contains(other) <==> other == item || items.contains(other),
{
    let after = items.update(at, item);
    assert(after[at] == item);
    if items.contains(other) {
        let i = choose|i: int| 0 <= i < items.len() && items[i] == other;
        assert(after[i] == other);
    }
    if after.contains(other) && other != item {
        let j = choose|j: int| 0 <= j < after.len() && after[j] == other;
        assert(items[j] == other);
    }
}

/// Removing an item leaves the others.
proof fn lemma_remove_contains<T>(items: Seq<T>, at: int, other: T)
    requires
        0 <= at < items.len(),
        other != items[at],
    ensures
        items.remove(at).contains(other) <==> items.contains(other),
{
    let after = items.remove(at);
    if items.contains(other) {
        let i = choose|i: int| 0 <= i < items.len() && items[i] == other;
        if i < at {
            assert(after[i] == other);
        } else {
            assert(after[i - 1] == other);
        }
    }
    if after.contains(other) {
        let j = choose|j: int| 0 <= j < after.len() && after[j] == other;
        if j < at {
            assert(items[j] == other);
        } else {
            assert(items[j + 1] == other);
        }
    }
}

/// A datagram changes nothing of its group but the packet that it belongs to.
pub proof fn lemma_other_packets_stay<R: Reassembly>(
    group: GroupOf<R>,
    kypacket_seq: u64,
    part: <R::Part as View>::V,
    now: u64,
    complete: DatagramPacket<<R::Packet as View>::V>,
    unfinished: (u64, R::V),
)
    requires
        group.wf(),
        now <= 0xFFFF_FFFF_FFFF_3CAF,
        complete.kypacket_seq != kypacket_seq,
        unfinished.0 != kypacket_seq,
    ensures
        ({
            let after = pending::with_datagram::<R>(group, kypacket_seq, part, now).0;
            &&& after.wf()
            &&& after.group_seq == group.group_seq
            &&& after.config_packet == group.config_packet
            &&& after.datagrams.contains(complete) <==> group.datagrams.contains(complete)
            &&& after.segments.contains(unfinished) <==> group.segments.contains(unfinished)
        }),
{
    pending::lemma_group_with_datagram_wf::<R>(group, kypacket_seq, part, now);
    pending::lemma_slot(group.segment_keys(), kypacket_seq);
    pending::lemma_slot(group.datagram_keys(), kypacket_seq);
    let after = pending::with_datagram::<R>(group, kypacket_seq, part, now).0;
    let keys = group.segment_keys();
    let at = pending::slot(keys, kypacket_seq);
    let fresh = (kypacket_seq, R::started(part));
    let segments = if pending::found(keys, kypacket_seq) {
        group.segments
    } else {
        group.segments.insert(at, fresh)
    };
    if pending::found(keys, kypacket_seq) {
        assert(keys[at] == kypacket_seq);
        assert(segments[at].0 == kypacket_seq);
    } else {
        lemma_insert_contains(group.segments, at, fresh, unfinished);
        assert(segments[at] == fresh);
    }
    let assembly = R::added(segments[at].1, part);
    lemma_update_contains(segments, at, (kypacket_seq, assembly), unfinished);
    lemma_remove_contains(segments, at, unfinished);
    if let Some(packet) = R::assembled(assembly) {
        let new = DatagramPacket { packet, kypacket_seq, instant: now };
        let place = pending::slot(group.datagram_keys(), kypacket_seq);
        lemma_insert_contains(group.datagrams, place, new, complete);
    }
}

/// A datagram of a packet that is complete already changes nothing, and is not a bad one.
pub proof fn lemma_repeated_datagram_changes_nothing<R: Reassembly>(
    group: GroupOf<R>,
    kypacket_seq: u64,
    part: <R::Part as View>::V,
    now: u64,
)
    requires
        group.wf(),
        has_packet(group, kypacket_seq),
    ensures
        pending::with_datagram::<R>(group, kypacket_seq, part, now) == (group, true),
{
    lemma_has_number(group, kypacket_seq);
}

/// A datagram that an assembly cannot start with changes nothing where there is none.
pub proof fn lemma_unfit_datagram_starts_nothing<R: Reassembly>(
    group: GroupOf<R>,
    kypacket_seq: u64,
    part: <R::Part as View>::V,
    now: u64,
)
    requires
        group.wf(),
        !has_packet(group, kypacket_seq),
        !has_unfinished(group, kypacket_seq),
        !R::can_start(part),
    ensures
        pending::with_datagram::<R>(group, kypacket_seq, part, now) == (group, false),
{
    lemma_has_number(group, kypacket_seq);
}

/// A datagram goes to the assembly of its packet, or starts one. Once the assembly has all
/// it needs, the packet stands in its place, with the time at which it was put together.
/// A datagram that is no part of the packet leaves the assembly as it was.
pub proof fn lemma_datagram_joins_its_packet<R: Reassembly>(
    group: GroupOf<R>,
    kypacket_seq: u64,
    part: <R::Part as View>::V,
    now: u64,
    assembly: R::V,
)
    requires
        group.wf(),
        now <= 0xFFFF_FFFF_FFFF_3CAF,
        !has_packet(group, kypacket_seq),
        group.segments.contains((kypacket_seq, assembly)) || (!has_unfinished(group, kypacket_seq)
            && R::can_start(part) && assembly == R::started(part)),
    ensures
        ({
            let (after, good) = pending::with_datagram::<R>(group, kypacket_seq, part, now);
            let added = R::added(assembly, part);
            if !R::can_add(assembly, part) {
                &&& !good
                &&& after.segments.contains((kypacket_seq, assembly))
                &&& !has_packet(after, kypacket_seq)
            } else if !R::complete(added) {
                &&& good
                &&& pending::assembly_after::<R>(group, kypacket_seq, part) == Some(added)
                &&& after.segments.contains((kypacket_seq, added))
                &&& !has_packet(after, kypacket_seq)
            } else {
                &&& good == (R::assembled(added) is Some)
                &&& pending::assembly_after::<R>(group, kypacket_seq, part) == Some(added)
                &&& !has_unfinished(after, kypacket_seq)
                &&& R::assembled(added) matches Some(packet) ==> after.datagrams.contains(
                    DatagramPacket { packet, kypacket_seq, instant: now },
                )
                &&& R::assembled(added) is None ==> !has_packet(after, kypacket_seq)
            }
        }),
{
    lemma_has_number(group, kypacket_seq);
    pending::lemma_group_with_datagram_wf::<R>(group, kypacket_seq, part, now);
    pending::lemma_slot(group.segment_keys(), kypacket_seq);
    pending::lemma_slot(group.datagram_keys(), kypacket_seq);
    let (after, good) = pending::with_datagram::<R>(group, kypacket_seq, part, now);
    lemma_has_number(after, kypacket_seq);
    let keys = group.segment_keys();
    let at = pending::slot(keys, kypacket_seq);
    let segments = if pending::found(keys, kypacket_seq) {
        group.segments
    } else {
        group.segments.insert(at, (kypacket_seq, R::started(part)))
    };
    if group.segments.contains((kypacket_seq, assembly)) {
        let i = choose|i: int|
            0 <= i < group.segments.len() && group.segments[i] == (kypacket_seq, assembly);
        assert(keys[i] == kypacket_seq);
        if i < at {
            assert(keys[i] < kypacket_seq);
        }
        if i > at {
            assert(keys[at] < keys[i]);
        }
    }
    assert(segments[at] == (kypacket_seq, assembly));
    let added = R::added(assembly, part);
    if !R::can_add(assembly, part) {
        assert(after.segments[at] == (kypacket_seq, assembly));
    } else if !R::complete(added) {
        assert(after.segments[at] == (kypacket_seq, added));
    } else {
        assert(after.segments == segments.remove(at));
        assert forall|j: int| 0 <= j < after.segments.len() implies (
        #[trigger] after.segments[j]).0 != kypacket_seq by {
            if pending::found(keys, kypacket_seq) {
                let i = if j < at {
                    j
                } else {
                    j + 1
                };
                assert(keys[i] == after.segments[j].0);
                assert(keys[at] == kypacket_seq);
                if j < at {
                    assert(keys[i] < keys[at]);
                } else {
                    assert(keys[at] < keys[i]);
                }
            } else {
                assert(after.segments[j] == group.segments[j]);
            }
        }
        if let Some(packet) = R::assembled(added) {
            let new = DatagramPacket { packet, kypacket_seq, instant: now };
            let place = pending::slot(group.datagram_keys(), kypacket_seq);
            assert(after.datagrams[place] == new);
        }
    }
}

/// What an audio receiver does when it looks: it takes what the groups have to hand out,
/// and expects the packet after it; or it waits; or, with nothing to wait for, it stays
/// as it was.
pub proof fn lemma_receiver_looks(state: RecvView, now: u64)
    ensures
        ({
            let (groups, action) = pending::spec_take(state.groups, state.next_kypacket_seq, now);
            let (after, r) = state.step(EventView::Deadline, now);
            &&& after.groups == groups
            &&& after.last_kypacket_seq == state.last_kypacket_seq
            &&& after.last_group_seq == state.last_group_seq
            &&& action matches Action::Packet { kypacket_seq, packet } ==> {
                &&& r == Ok::<_, pending::BadDatagram>(Some(packet))
                &&& kypacket_seq < u64::MAX ==> after.next_kypacket_seq == kypacket_seq + 1
                &&& after.deadline == state.deadline
            }
            &&& action matches Action::Deadline(deadline) ==> {
                &&& r == Ok::<_, pending::BadDatagram>(None::<AVPacketView>)
                &&& after.next_kypacket_seq == state.next_kypacket_seq
                &&& after.deadline == Some(deadline)
            }
            &&& action is Idle ==> {
                &&& r == Ok::<_, pending::BadDatagram>(None::<AVPacketView>)
                &&& after.next_kypacket_seq == state.next_kypacket_seq
                &&& after.deadline == state.deadline
            }
        }),
{
}

/// What an audio receiver does with a packet from the stream. A codec packet is handed out
/// at once and changes nothing. Any other is kept if it does not come too late, and in
/// either case the receiver looks, as it does when it is woken.
pub proof fn lemma_receiver_takes_packet(
    state: RecvView,
    packet: AVPacketView,
    raw_kypacket_seq: u32,
    raw_group_seq: u32,
    now: u64,
)
    ensures
        ({
            let event = EventView::Message(
                MsgView::Stream { packet, raw_kypacket_seq, raw_group_seq },
            );
            let number = sequencer::unwrapped(state.last_kypacket_seq, raw_kypacket_seq);
            let group = sequencer::unwrapped(state.last_group_seq, raw_group_seq);
            let kept = RecvView {
                last_kypacket_seq: number,
                last_group_seq: group,
                groups: if number < state.next_kypacket_seq {
                    state.groups
                } else {
                    pending::with_config(
                        state.groups,
                        group as u64,
                        StreamPacket { packet, kypacket_seq: number as u64 },
                    )
                },
                next_kypacket_seq: state.next_kypacket_seq,
                deadline: state.deadline,
            };
            &&& packet is Codec ==> state.step(event, now) == (
                state,
                Ok::<_, pending::BadDatagram>(Some(packet)),
            )
            &&& packet is Media ==> state.step(event, now) == kept.step(EventView::Deadline, now)
        }),
{
}

/// What an audio receiver does with a datagram. One that comes too late is forgotten but
/// for its numbers, and hands nothing out. Any other goes to its packet; if it is bad that
/// is the answer, and if it is not the receiver looks, as it does when it is woken.
pub proof fn lemma_receiver_takes_datagram(
    state: RecvView,
    part: SegmentView,
    raw_kypacket_seq: u32,
    raw_group_seq: u32,
    now: u64,
)
    ensures
        ({
            let event = EventView::Message(
                MsgView::Datagram { part, raw_kypacket_seq, raw_group_seq },
            );
            let number = sequencer::unwrapped(state.last_kypacket_seq, raw_kypacket_seq);
            let group = sequencer::unwrapped(state.last_group_seq, raw_group_seq);
            let (groups, good) = pending::with_datagram_in::<audio_unreliable::DatagramSegments>(
                state.groups,
                group as u64,
                number as u64,
                part,
                now,
            );
            let seen = RecvView {
                last_kypacket_seq: number,
                last_group_seq: group,
                groups: if number < state.next_kypacket_seq {
                    state.groups
                } else {
                    groups
                },
                next_kypacket_seq: state.next_kypacket_seq,
                deadline: state.deadline,
            };
            if number < state.next_kypacket_seq {
                state.step(event, now) == (
                    seen,
                    Ok::<_, pending::BadDatagram>(None::<AVPacketView>),
                )
            } else if good {
                state.step(event, now) == seen.step(EventView::Deadline, now)
            } else {
                state.step(event, now).0 == seen && state.step(event, now).1 is Err
            }
        }),
{
}

/// What a forwarder does when it looks: the bytes of the packet that the groups have to
/// hand out go to the client, and the packet after it is expected; or it waits, if there
/// is something to wait for.
pub proof fn lemma_forwarder_looks(state: ForwarderView, now: u64)
    ensures
        ({
            let (groups, action) = pending::spec_take(state.groups, state.next_kypacket_seq, now);
            let (after, bytes) = state.processed(now);
            &&& after.groups == groups
            &&& after.last_kypacket_seq == state.last_kypacket_seq
            &&& after.last_group_seq == state.last_group_seq
            &&& action matches Action::Packet { kypacket_seq, packet } ==> {
                &&& packet matches PacketView::Codec { codec } ==> bytes == Some(codec)
                &&& packet matches PacketView::Media { data, .. } ==> bytes == Some(data)
                &&& kypacket_seq < u64::MAX ==> after.next_kypacket_seq == kypacket_seq + 1
                &&& after.deadline == state.deadline
            }
            &&& action matches Action::Deadline(deadline) ==> {
                &&& bytes is None
                &&& after.next_kypacket_seq == state.next_kypacket_seq
                &&& after.deadline == Some(deadline)
            }
            &&& action is Idle ==> {
                &&& bytes is None
                &&& after.next_kypacket_seq == state.next_kypacket_seq
                &&& after.deadline is None
            }
        }),
{
}

/// What a forwarder does with a packet from the stream: a codec packet changes nothing,
/// any other is kept if it does not come too late.
pub proof fn lemma_forwarder_takes_packet(
    state: ForwarderView,
    packet: PacketView,
    raw_kypacket_seq: u32,
    raw_group_seq: u32,
)
    ensures
        ({
            let after = state.on_stream(packet, raw_kypacket_seq, raw_group_seq);
            let number = sequencer::unwrapped(state.last_kypacket_seq, raw_kypacket_seq);
            let group = sequencer::unwrapped(state.last_group_seq, raw_group_seq);
            &&& packet is Codec ==> after == state
            &&& packet is Media ==> {
                &&& after.last_kypacket_seq == number
                &&& after.last_group_seq == group
                &&& after.next_kypacket_seq == state.next_kypacket_seq
                &&& after.deadline == state.deadline
                &&& number < state.next_kypacket_seq ==> after.groups == state.groups
                &&& number >= state.next_kypacket_seq ==> after.groups == pending::with_config(
                    state.groups,
                    group as u64,
                    StreamPacket { packet, kypacket_seq: number as u64 },
                )
            }
        }),
{
}

/// What a forwarder does with a datagram: one that comes too late is forgotten but for its
/// numbers, any other goes to its packet. The answer tells which, and whether it was bad.
pub proof fn lemma_forwarder_takes_datagram(state: ForwarderView, msg: DatagramMsgView, now: u64)
    ensures
        ({
            let (after, r) = state.on_datagram(msg, now);
            let number = sequencer::unwrapped(state.last_kypacket_seq, msg.raw_kypacket_seq);
            let group = sequencer::unwrapped(state.last_group_seq, msg.raw_group_seq);
            let (groups, good) = pending::with_datagram_in::<fec::DatagramSegments>(
                state.groups,
                group as u64,
                number as u64,
                msg.part,
                now,
            );
            &&& after.last_kypacket_seq == number
            &&& after.last_group_seq == group
            &&& after.next_kypacket_seq == state.next_kypacket_seq
            &&& after.deadline == state.deadline
            &&& number < state.next_kypacket_seq ==> after.groups == state.groups && r == Ok::<
                _,
                pending::BadDatagram,
            >(false)
            &&& number >= state.next_kypacket_seq ==> {
                &&& after.groups == groups
                &&& state.assembly(msg) == pending::assembly_in::<fec::DatagramSegments>(
                    state.groups,
                    group as u64,
                    number as u64,
                    msg.part,
                )
                &&& good ==> r == Ok::<_, pending::BadDatagram>(true)
                &&& !good ==> r is Err
            }
        }),
{
}

/// There is a group with this number whose config packet has arrived.
pub open spec fn has_config<V, S>(groups: Seq<GroupView<V, S>>, group_seq: u64) -> bool {
    exists|i: int|
        0 <= i < groups.len() && (#[trigger] groups[i]).group_seq == group_seq && !(
        groups[i].config_packet is Absent)
}

/// A group waits for its config packet unless it is there with one.
proof fn lemma_awaits_config<V, S>(groups: Seq<GroupView<V, S>>, group_seq: u64)
    requires
        pending::groups_wf(groups),
    ensures
        pending::with_group(groups, group_seq)[pending::slot(
            pending::group_keys(groups),
            group_seq,
        )].config_packet is Absent <==> !has_config(groups, group_seq),
{
    pending::lemma_with_group(groups, group_seq);
    let keys = pending::group_keys(groups);
    pending::lemma_slot(keys, group_seq);
    let at = pending::slot(keys, group_seq);
    assert forall|i: int|
        0 <= i < groups.len() && (#[trigger] groups[i]).group_seq == group_seq implies i == at
        && keys.contains(group_seq) by {
        assert(keys[i] == group_seq);
        if i < at {
            assert(keys[i] < group_seq);
        }
        if i > at {
            assert(keys[at] < keys[i]);
        }
    }
    if keys.contains(group_seq) {
        assert(groups[at].group_seq == group_seq);
    }
}

/// What an audio receiver can take: anything, as long as numbers do not run out, but for a
/// second config packet of a group that does not come too late.
pub proof fn lemma_what_a_receiver_can_take(state: RecvView, event: EventView)
    requires
        state.wf(),
    ensures
        ({
            let room = state.last_kypacket_seq < 0x8000_0000_0000_0000 && state.last_group_seq
                < 0x8000_0000_0000_0000;
            match event {
                EventView::Deadline => state.accepts(event),
                EventView::Message(MsgView::Datagram { .. }) => state.accepts(event) <==> room,
                EventView::Message(
                    MsgView::Stream { packet, raw_kypacket_seq, raw_group_seq },
                ) => {
                    let number = sequencer::unwrapped(state.last_kypacket_seq, raw_kypacket_seq);
                    let group = sequencer::unwrapped(state.last_group_seq, raw_group_seq);
                    state.accepts(event) <==> packet is Codec || (room && (number
                        < state.next_kypacket_seq || !has_config(state.groups, group as u64)))
                },
            }
        }),
{
    if let EventView::Message(MsgView::Stream { raw_group_seq, .. }) = event {
        let group = sequencer::unwrapped(state.last_group_seq, raw_group_seq);
        lemma_awaits_config(state.groups, group as u64);
    }
}

/// What a forwarder can take from the stream: anything, as long as numbers do not run out,
/// but for a second config packet of a group that does not come too late.
pub proof fn lemma_what_a_forwarder_can_take(
    state: ForwarderView,
    packet: PacketView,
    raw_kypacket_seq: u32,
    raw_group_seq: u32,
)
    requires
        state.wf(),
    ensures
        ({
            let room = state.last_kypacket_seq < 0x8000_0000_0000_0000 && state.last_group_seq
                < 0x8000_0000_0000_0000;
            let number = sequencer::unwrapped(state.last_kypacket_seq, raw_kypacket_seq);
            let group = sequencer::unwrapped(state.last_group_seq, raw_group_seq);
            &&& state.has_room() <==> room
            &&& state.accepts_stream(packet, raw_kypacket_seq, raw_group_seq) <==> packet is Codec
                || (room && (number < state.next_kypacket_seq || !has_config(
                state.groups,
                group as u64,
            )))
        }),
{
    let group = sequencer::unwrapped(state.last_group_seq, raw_group_seq);
    lemma_awaits_config(state.groups, group as u64);
}

/// An audio receiver and a forwarder start without any packet, expect packet 0, compare
/// the first numbers with 0, and wait for no deadline; they can take any event.
pub proof fn lemma_start_empty(event: EventView)
    ensures
        RecvView::initial().groups.len() == 0,
        RecvView::initial().next_kypacket_seq == 0,
        RecvView::initial().last_kypacket_seq == 0,
        RecvView::initial().last_group_seq == 0,
        RecvView::initial().deadline is None,
        RecvView::initial().wf(),
        RecvView::initial().accepts(event),
        ForwarderView::initial().groups.len() == 0,
        ForwarderView::initial().next_kypacket_seq == 0,
        ForwarderView::initial().last_kypacket_seq == 0,
        ForwarderView::initial().last_group_seq == 0,
        ForwarderView::initial().deadline is None,
        ForwarderView::initial().wf(),
        ForwarderView::initial().has_room(),
{
    lemma_what_a_receiver_can_take(RecvView::initial(), event);
}

} // verus!
