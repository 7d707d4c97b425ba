//! Laws of the delivery of pending packets.
//!
//! A numbering says, for every sequence number, which group the packet belongs
//! to and whether it is a config packet. A sender opens a new group with every
//! config packet, so that groups never decrease and a config packet is the first
//! of its group. Whatever the network loses, repeats or reorders, a receiver
//! that holds packets of one numbering hands them out in order.

use vstd::prelude::*;
use crate::pending;
use crate::pending::{Action, ConfigPacket, GroupView, Reassembly, StreamPacket};

verus! {

/// Groups never decrease, and a config packet is the first of its group.
pub open spec fn is_numbering(
    group_of: spec_fn(int) -> int,
    is_config: spec_fn(int) -> bool,
) -> bool {
    &&& forall|s: int, t: int|
        #![trigger group_of(s), group_of(t)]
        s < t ==> group_of(s) <= group_of(t)
    &&& forall|s: int, t: int|
        #![trigger group_of(s), is_config(t)]
        s < t && is_config(t) ==> group_of(s) < group_of(t)
}

/// What a group holds is of the numbering, and not before `next`.
pub open spec fn group_follows<V, S>(
    group: GroupView<V, S>,
    next: int,
    group_of: spec_fn(int) -> int,
    is_config: spec_fn(int) -> bool,
) -> bool {
    &&& group.config_packet matches ConfigPacket::Ready(packet) ==> {
        &&& packet.kypacket_seq >= next
        &&& group_of(packet.kypacket_seq as int) == group.group_seq
        &&& is_config(packet.kypacket_seq as int)
    }
    &&& forall|j: int|
        0 <= j < group.datagrams.len() ==> {
            &&& (#[trigger] group.datagrams[j]).kypacket_seq >= next
            &&& group_of(group.datagrams[j].kypacket_seq as int) == group.group_seq
            &&& !is_config(group.datagrams[j].kypacket_seq as int)
        }
}

/// What the groups hold is of the numbering, and not before `next`.
pub open spec fn follows<V, S>(
    groups: Seq<GroupView<V, S>>,
    next: int,
    group_of: spec_fn(int) -> int,
    is_config: spec_fn(int) -> bool,
) -> bool {
    forall|i: int|
        0 <= i < groups.len() ==> group_follows(#[trigger] groups[i], next, group_of, is_config)
}

/// Packets come out in order: the packet that is taken is not before the one
/// expected, and everything that stays comes after it.
pub proof fn lemma_delivery_in_order<V, S>(
    groups: Seq<GroupView<V, S>>,
    next: u64,
    now: u64,
    group_of: spec_fn(int) -> int,
    is_config: spec_fn(int) -> bool,
)
    requires
        pending::groups_wf(groups),
        is_numbering(group_of, is_config),
        follows(groups, next as int, group_of, is_config),
        groups.len() <= usize::MAX,
    ensures
        match pending::spec_take(groups, next, now).1 {
            Action::Packet { kypacket_seq, .. } => {
                &&& kypacket_seq >= next
                &&& follows(
                    pending::spec_take(groups, next, now).0,
                    kypacket_seq + 1,
                    group_of,
                    is_config,
                )
            },
            _ => pending::spec_take(groups, next, now).0 == groups,
        },
{
    pending::lemma_candidate(groups, next);
    let at = pending::candidate(groups, next);
    let (after, action) = pending::spec_take(groups, next, now);
    if let Action::Packet { kypacket_seq, .. } = action {
        let group = groups[at];
        let rest = groups.skip(at);
        assert(group_follows(group, next as int, group_of, is_config));
        assert(group.wf());
        assert(group_of(kypacket_seq as int) == group.group_seq);
        assert forall|i: int| 0 <= i < after.len() implies group_follows(
            #[trigger] after[i],
            kypacket_seq + 1,
            group_of,
            is_config,
        ) by {
            let g = groups[at + i];
            assert(group_follows(g, next as int, group_of, is_config));
            if i > 0 {
                assert(after[i] == g);
                let keys = pending::group_keys(groups);
                assert(keys[at] < keys[at + i]);
                assert(group.group_seq < g.group_seq);
            } else {
                assert forall|j: int| 0 <= j < after[0].datagrams.len() implies {
                    &&& (#[trigger] after[0].datagrams[j]).kypacket_seq >= kypacket_seq + 1
                    &&& group_of(after[0].datagrams[j].kypacket_seq as int) == after[0].group_seq
                    &&& !is_config(after[0].datagrams[j].kypacket_seq as int)
                } by {
                    if group.config_packet is Ready {
                        assert(after[0].datagrams[j] == group.datagrams[j]);
                        let seq = group.datagrams[j].kypacket_seq as int;
                        assert(group_of(seq) == group_of(kypacket_seq as int));
                        assert(is_config(kypacket_seq as int));
                    } else {
                        let keys = group.datagram_keys();
                        assert(after[0].datagrams[j] == group.datagrams[j + 1]);
                        assert(keys[0] < keys[j + 1]);
                    }
                }
            }
        }
    }
}

/// A packet that is taken belongs to a group, whose number fits 64 bits.
pub proof fn lemma_taken_is_numbered<V, S>(
    groups: Seq<GroupView<V, S>>,
    next: u64,
    now: u64,
    group_of: spec_fn(int) -> int,
    is_config: spec_fn(int) -> bool,
)
    requires
        groups.len() <= usize::MAX,
        follows(groups, next as int, group_of, is_config),
    ensures
        pending::spec_take(groups, next, now).1 matches Action::Packet { kypacket_seq, .. } ==> 0
            <= group_of(kypacket_seq as int) <= u64::MAX,
{
    pending::lemma_candidate(groups, next);
    let at = pending::candidate(groups, next);
    if at < groups.len() {
        assert(group_follows(groups[at], next as int, group_of, is_config));
    }
}

/// The expected packet comes out at once, whatever the time, when its group has
/// its config packet.
pub proof fn lemma_expected_packet_is_delivered<V, S>(
    groups: Seq<GroupView<V, S>>,
    next: u64,
    now: u64,
    group_of: spec_fn(int) -> int,
    is_config: spec_fn(int) -> bool,
    i: int,
)
    requires
        pending::groups_wf(groups),
        is_numbering(group_of, is_config),
        follows(groups, next as int, group_of, is_config),
        groups.len() <= usize::MAX,
        0 <= i < groups.len(),
        groups[i].config_packet !is Absent,
        pending::config_is(groups[i], next) || groups[i].datagram_keys().contains(next),
    ensures
        pending::spec_take(groups, next, now).1 matches Action::Packet { kypacket_seq, .. }
            && kypacket_seq == next,
{
    pending::lemma_candidate(groups, next);
    let at = pending::candidate(groups, next);
    let group = groups[i];
    assert(group_follows(group, next as int, group_of, is_config));
    assert(group.wf());
    assert(pending::is_candidate(group, next));
    assert(at <= i);
    if !pending::config_is(group, next) {
        let keys = group.datagram_keys();
        let j = choose|j: int| 0 <= j < keys.len() && keys[j] == next;
        assert(group.datagrams[j].kypacket_seq == next);
        if j > 0 {
            assert(keys[0] < keys[j]);
            assert(group.datagrams[0].kypacket_seq >= next);
        }
    }
    assert(group_of(next as int) == group.group_seq);
    if at < i {
        let g = groups[at];
        let keys = pending::group_keys(groups);
        assert(keys[at] < keys[i]);
        assert(group_follows(g, next as int, group_of, is_config));
        if pending::config_is(g, next) {
        } else {
            assert(g.datagrams[0].kypacket_seq >= next);
            assert(group_of(g.datagrams[0].kypacket_seq as int) == g.group_seq);
        }
    }
}

/// A config packet that is not the expected packet comes out only if a complete
/// packet of its group waits behind it.
pub proof fn lemma_config_packet_is_not_sent_alone<V, S>(
    groups: Seq<GroupView<V, S>>,
    next: u64,
    now: u64,
)
    requires
        groups.len() <= usize::MAX,
    ensures
        pending::spec_next_packet(groups, next, now) matches pending::NextPacket::Ready(packet_ref)
            ==> {
            let group = groups[packet_ref.pending_group_index as int];
            &&& packet_ref.config_packet ==> group.config_packet is Ready && (pending::config_is(
                group,
                next,
            ) || group.datagrams.len() > 0)
            &&& !packet_ref.config_packet ==> group.config_packet is Sent && group.datagrams.len()
                > 0
        },
{
    pending::lemma_candidate(groups, next);
}

/// A config packet of the numbering that is not late keeps the groups in order.
pub proof fn lemma_config_packet_fits<V, S>(
    groups: Seq<GroupView<V, S>>,
    next: int,
    group_seq: u64,
    packet: StreamPacket<V>,
    group_of: spec_fn(int) -> int,
    is_config: spec_fn(int) -> bool,
)
    requires
        pending::groups_wf(groups),
        follows(groups, next, group_of, is_config),
        packet.kypacket_seq >= next,
        group_of(packet.kypacket_seq as int) == group_seq,
        is_config(packet.kypacket_seq as int),
    ensures
        follows(pending::with_config(groups, group_seq, packet), next, group_of, is_config),
{
    lemma_with_group(groups, next, group_seq, group_of, is_config);
}

/// A datagram of the numbering that is not late keeps the groups in order,
/// whatever it holds.
pub proof fn lemma_datagram_fits<R: Reassembly>(
    groups: Seq<pending::GroupOf<R>>,
    next: int,
    group_seq: u64,
    kypacket_seq: u64,
    part: <R::Part as View>::V,
    now: u64,
    group_of: spec_fn(int) -> int,
    is_config: spec_fn(int) -> bool,
)
    requires
        pending::groups_wf(groups),
        follows(groups, next, group_of, is_config),
        kypacket_seq >= next,
        group_of(kypacket_seq as int) == group_seq,
        !is_config(kypacket_seq as int),
    ensures
        follows(
            pending::with_datagram_in::<R>(groups, group_seq, kypacket_seq, part, now).0,
            next,
            group_of,
            is_config,
        ),
{
    lemma_with_group(groups, next, group_seq, group_of, is_config);
    let all = pending::with_group(groups, group_seq);
    let at = pending::slot(pending::group_keys(groups), group_seq);
    let group = all[at];
    let after = pending::with_datagram::<R>(group, kypacket_seq, part, now).0;
    assert(group_follows(group, next, group_of, is_config));
    let keys = group.datagram_keys();
    pending::lemma_slot(keys, kypacket_seq);
    assert(group_follows(after, next, group_of, is_config));
}

/// Adding an empty group changes nothing to what the groups hold.
proof fn lemma_with_group<V, S>(
    groups: Seq<GroupView<V, S>>,
    next: int,
    group_seq: u64,
    group_of: spec_fn(int) -> int,
    is_config: spec_fn(int) -> bool,
)
    requires
        pending::groups_wf(groups),
        follows(groups, next, group_of, is_config),
    ensures
        follows(pending::with_group(groups, group_seq), next, group_of, is_config),
        0 <= pending::slot(pending::group_keys(groups), group_seq) < pending::with_group(
            groups,
            group_seq,
        ).len(),
        pending::with_group(groups, group_seq)[pending::slot(
            pending::group_keys(groups),
            group_seq,
        )].group_seq == group_seq,
        pending::with_group(groups, group_seq)[pending::slot(
            pending::group_keys(groups),
            group_seq,
        )].wf(),
{
    let keys = pending::group_keys(groups);
    pending::lemma_slot(keys, group_seq);
    let at = pending::slot(keys, group_seq);
    let all = pending::with_group(groups, group_seq);
    if pending::found(keys, group_seq) {
        assert(keys[at] == group_seq);
    }
    assert forall|i: int| 0 <= i < all.len() implies group_follows(
        #[trigger] all[i],
        next,
        group_of,
        is_config,
    ) by {
        if !pending::found(keys, group_seq) {
            if i < at {
                assert(all[i] == groups[i]);
            } else if i > at {
                assert(all[i] == groups[i - 1]);
            }
        }
    }
}

/// The group that a number stands for is well formed, be it new or not.
pub proof fn lemma_group_wf<V, S>(groups: Seq<GroupView<V, S>>, group_seq: u64)
    requires
        pending::groups_wf(groups),
    ensures
        pending::with_group(groups, group_seq)[pending::slot(
            pending::group_keys(groups),
            group_seq,
        )].wf(),
{
    pending::lemma_slot(pending::group_keys(groups), group_seq);
}

/// Sequence numbers stay far from the end of their type.
pub const MAX_SEQ: u64 = 0x9000_0000_0000_0000;

/// The config packet and the complete packets of a group have numbers up to
/// `MAX_SEQ`.
pub open spec fn group_in_range<V, S>(group: GroupView<V, S>) -> bool {
    &&& group.config_packet matches ConfigPacket::Ready(packet) ==> packet.kypacket_seq
        <= MAX_SEQ
    &&& forall|j: int|
        0 <= j < group.datagrams.len() ==> (#[trigger] group.datagrams[j]).kypacket_seq <= MAX_SEQ
}

/// What the groups hold keeps its numbers in range.
pub proof fn lemma_in_range<V, S>(
    groups: Seq<GroupView<V, S>>,
    next: u64,
    now: u64,
)
    requires
        pending::groups_wf(groups),
        groups.len() <= usize::MAX,
        forall|i: int| 0 <= i < groups.len() ==> group_in_range(#[trigger] groups[i]),
    ensures
        forall|i: int|
            0 <= i < pending::spec_take(groups, next, now).0.len() ==> group_in_range(
                #[trigger] pending::spec_take(groups, next, now).0[i],
            ),
        pending::spec_take(groups, next, now).1 matches Action::Packet { kypacket_seq, .. }
            ==> kypacket_seq <= MAX_SEQ,
{
    pending::lemma_candidate(groups, next);
    let at = pending::candidate(groups, next);
    let (after, action) = pending::spec_take(groups, next, now);
    if at < groups.len() {
        assert(group_in_range(groups[at]));
    }
    assert forall|i: int| 0 <= i < after.len() implies group_in_range(#[trigger] after[i]) by {
        if let Action::Packet { .. } = action {
            assert(group_in_range(groups[at + i]));
        } else {
            assert(after[i] == groups[i]);
        }
    }
}

/// An empty group is in range.
pub proof fn lemma_with_group_in_range<V, S>(groups: Seq<GroupView<V, S>>, group_seq: u64)
    requires
        pending::groups_wf(groups),
        forall|i: int| 0 <= i < groups.len() ==> group_in_range(#[trigger] groups[i]),
    ensures
        forall|i: int|
            0 <= i < pending::with_group(groups, group_seq).len() ==> group_in_range(
                #[trigger] pending::with_group(groups, group_seq)[i],
            ),
        0 <= pending::slot(pending::group_keys(groups), group_seq) < pending::with_group(
            groups,
            group_seq,
        ).len(),
{
    let keys = pending::group_keys(groups);
    pending::lemma_slot(keys, group_seq);
    let at = pending::slot(keys, group_seq);
    let all = pending::with_group(groups, group_seq);
    assert forall|i: int| 0 <= i < all.len() implies group_in_range(#[trigger] all[i]) by {
        if !pending::found(keys, group_seq) {
            if i < at {
                assert(all[i] == groups[i]);
            } else if i > at {
                assert(all[i] == groups[i - 1]);
            }
        }
    }
}

/// A datagram with a number in range keeps the groups in range.
pub proof fn lemma_datagram_in_range<R: Reassembly>(
    groups: Seq<pending::GroupOf<R>>,
    group_seq: u64,
    kypacket_seq: u64,
    part: <R::Part as View>::V,
    now: u64,
)
    requires
        pending::groups_wf(groups),
        forall|i: int| 0 <= i < groups.len() ==> group_in_range(#[trigger] groups[i]),
        kypacket_seq <= MAX_SEQ,
    ensures
        ({
            let after = pending::with_datagram_in::<R>(
                groups,
                group_seq,
                kypacket_seq,
                part,
                now,
            ).0;
            forall|i: int| 0 <= i < after.len() ==> group_in_range(#[trigger] after[i])
        }),
{
    lemma_with_group_in_range(groups, group_seq);
    lemma_group_wf(groups, group_seq);
    let all = pending::with_group(groups, group_seq);
    let at = pending::slot(pending::group_keys(groups), group_seq);
    let group = all[at];
    pending::lemma_slot(group.datagram_keys(), kypacket_seq);
    let after = pending::with_datagram::<R>(group, kypacket_seq, part, now).0;
    assert(group_in_range(group));
    assert(group_in_range(after));
}

/// A config packet in range keeps the groups well formed and in range.
pub proof fn lemma_with_config_kept<V, S>(
    groups: Seq<GroupView<V, S>>,
    group_seq: u64,
    packet: StreamPacket<V>,
)
    requires
        pending::groups_wf(groups),
        forall|i: int| 0 <= i < groups.len() ==> group_in_range(#[trigger] groups[i]),
        packet.kypacket_seq <= MAX_SEQ,
    ensures
        pending::groups_wf(pending::with_config(groups, group_seq, packet)),
        pending::with_config(groups, group_seq, packet).len() <= groups.len() + 1,
        forall|i: int|
            0 <= i < pending::with_config(groups, group_seq, packet).len() ==> group_in_range(
                #[trigger] pending::with_config(groups, group_seq, packet)[i],
            ),
{
    lemma_with_group_in_range(groups, group_seq);
    pending::lemma_with_config_wf(groups, group_seq, packet);
}

/// How many packets of a group wait to be handed out.
pub open spec fn group_waiting<V, S>(group: GroupView<V, S>) -> nat {
    group.datagrams.len() + if group.config_packet is Ready {
        1nat
    } else {
        0
    }
}

/// How many packets wait to be handed out.
pub open spec fn waiting<V, S>(groups: Seq<GroupView<V, S>>) -> nat
    decreases groups.len(),
{
    if groups.len() == 0 {
        0
    } else {
        waiting(groups.drop_last()) + group_waiting(groups.last())
    }
}

/// What waits in all groups waits in the first ones or in the others.
proof fn lemma_waiting_split<V, S>(groups: Seq<GroupView<V, S>>, at: int)
    requires
        0 <= at <= groups.len(),
    ensures
        waiting(groups) == waiting(groups.take(at)) + waiting(groups.skip(at)),
    decreases groups.len(),
{
    if at == groups.len() {
        assert(groups.take(at) =~= groups);
        assert(groups.skip(at) =~= Seq::empty());
    } else {
        lemma_waiting_split(groups.drop_last(), at);
        assert(groups.drop_last().take(at) =~= groups.take(at));
        assert(groups.skip(at).drop_last() =~= groups.drop_last().skip(at));
        assert(groups.skip(at).last() == groups.last());
    }
}

proof fn lemma_waiting_first<V, S>(groups: Seq<GroupView<V, S>>)
    requires
        groups.len() > 0,
    ensures
        waiting(groups) == group_waiting(groups[0]) + waiting(groups.skip(1)),
{
    lemma_waiting_split(groups, 1);
    assert(groups.take(1).drop_last() =~= Seq::empty());
    assert(waiting(groups.take(1).drop_last()) == 0);
}

/// Every packet that is handed out leaves fewer behind, so that handing packets
/// out as long as there is one comes to an end.
pub proof fn lemma_fewer_packets_wait<V, S>(groups: Seq<GroupView<V, S>>, next: u64, now: u64)
    requires
        groups.len() <= usize::MAX,
    ensures
        pending::spec_take(groups, next, now).1 is Packet ==> waiting(
            pending::spec_take(groups, next, now).0,
        ) < waiting(groups),
{
    pending::lemma_candidate(groups, next);
    let at = pending::candidate(groups, next);
    let (after, action) = pending::spec_take(groups, next, now);
    if action is Packet {
        lemma_waiting_split(groups, at);
        let rest = groups.skip(at);
        lemma_waiting_first(rest);
        lemma_waiting_first(after);
        assert(after.skip(1) =~= rest.skip(1));
    }
}

} // verus!
