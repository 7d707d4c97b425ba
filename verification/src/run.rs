//! What pending groups hold while the messages of one sender arrive.

use vstd::prelude::*;
use crate::delivery;
use crate::pending;
use crate::pending::{Action, ConfigPacket, GroupOf, GroupView, Reassembly, StreamPacket};

verus! {

/// What is known of the groups of a run: which packets are media packets, which
/// groups' config packets were handed out, and which have arrived, and up to which
/// number there are groups.
#[verifier::reject_recursive_types(V)]
pub struct Known<V> {
    pub is_media: spec_fn(V) -> bool,
    pub sent: spec_fn(u64) -> bool,
    pub came: spec_fn(u64) -> bool,
    pub most: int,
}

/// A group holds media packets; its config packet has arrived if it is not absent,
/// and was handed out if it is marked so.
pub open spec fn group_kept<V, S>(group: GroupView<V, S>, known: Known<V>) -> bool {
    &&& group.config_packet matches ConfigPacket::Ready(packet) ==> (known.is_media)(packet.packet)
    &&& forall|j: int|
        0 <= j < group.datagrams.len() ==> (known.is_media)(
            (#[trigger] group.datagrams[j]).packet,
        )
    &&& group.config_packet is Sent ==> (known.sent)(group.group_seq)
    &&& group.config_packet !is Absent ==> (known.came)(group.group_seq)
    &&& group.group_seq <= known.most
}

pub open spec fn kept<V, S>(groups: Seq<GroupView<V, S>>, known: Known<V>) -> bool {
    forall|i: int| 0 <= i < groups.len() ==> group_kept(#[trigger] groups[i], known)
}

/// More may have been handed out and have arrived.
pub open spec fn grows<V>(before: Known<V>, after: Known<V>) -> bool {
    &&& before.is_media == after.is_media
    &&& before.most <= after.most
    &&& forall|g: u64| #[trigger] (before.sent)(g) ==> (after.sent)(g)
    &&& forall|g: u64| #[trigger] (before.came)(g) ==> (after.came)(g)
}

pub proof fn lemma_kept_grows<V, S>(
    groups: Seq<GroupView<V, S>>,
    before: Known<V>,
    after: Known<V>,
)
    requires
        kept(groups, before),
        grows(before, after),
    ensures
        kept(groups, after),
{
    assert forall|i: int| 0 <= i < groups.len() implies group_kept(#[trigger] groups[i], after) by {
        assert(group_kept(groups[i], before));
    }
}

/// Groups have different numbers, so that there are no more of them than numbers.
pub proof fn lemma_few_groups<V, S>(groups: Seq<GroupView<V, S>>, known: Known<V>)
    requires
        pending::groups_wf(groups),
        kept(groups, known),
        known.most >= 0,
    ensures
        groups.len() <= known.most + 1,
{
    if groups.len() > 0 {
        let last = groups.len() - 1;
        lemma_number_from_place(pending::group_keys(groups), last);
        assert(group_kept(groups[last], known));
    }
}

proof fn lemma_number_from_place(keys: Seq<u64>, i: int)
    requires
        pending::increasing(keys),
        0 <= i < keys.len(),
    ensures
        keys[i] >= i,
    decreases i,
{
    if i > 0 {
        lemma_number_from_place(keys, i - 1);
        assert(keys[i - 1] < keys[i]);
    }
}

pub proof fn lemma_with_group_kept<V, S>(
    groups: Seq<GroupView<V, S>>,
    group_seq: u64,
    known: Known<V>,
)
    requires
        pending::groups_wf(groups),
        kept(groups, known),
        group_seq <= known.most,
    ensures
        kept(pending::with_group(groups, group_seq), known),
{
    pending::lemma_with_group(groups, group_seq);
    let at = pending::slot(pending::group_keys(groups), group_seq);
    let all = pending::with_group(groups, group_seq);
    assert forall|i: int| 0 <= i < all.len() implies group_kept(#[trigger] all[i], known) by {
        if all != groups {
            if i < at {
                assert(all[i] == groups[i]);
            } else if i > at {
                assert(all[i] == groups[i - 1]);
            }
        }
    }
}

pub proof fn lemma_with_config_kept<V, S>(
    groups: Seq<GroupView<V, S>>,
    group_seq: u64,
    packet: StreamPacket<V>,
    known: Known<V>,
)
    requires
        pending::groups_wf(groups),
        kept(groups, known),
        (known.is_media)(packet.packet),
        (known.came)(group_seq),
        group_seq <= known.most,
    ensures
        kept(pending::with_config(groups, group_seq, packet), known),
{
    lemma_with_group_kept(groups, group_seq, known);
    pending::lemma_with_group(groups, group_seq);
    let at = pending::slot(pending::group_keys(groups), group_seq);
    let all = pending::with_group(groups, group_seq);
    let after = pending::with_config(groups, group_seq, packet);
    assert(group_kept(all[at], known));
    assert forall|i: int| 0 <= i < after.len() implies group_kept(#[trigger] after[i], known) by {
        if i != at {
            assert(after[i] == all[i]);
        }
    }
}

pub proof fn lemma_with_datagram_kept<R: Reassembly>(
    groups: Seq<GroupOf<R>>,
    group_seq: u64,
    kypacket_seq: u64,
    part: <R::Part as View>::V,
    now: u64,
    known: Known<<R::Packet as View>::V>,
)
    requires
        pending::groups_wf(groups),
        kept(groups, known),
        group_seq <= known.most,
        forall|v: R::V|
            #[trigger] R::assembled(v) matches Some(packet) ==> (known.is_media)(packet),
    ensures
        kept(
            pending::with_datagram_in::<R>(groups, group_seq, kypacket_seq, part, now).0,
            known,
        ),
{
    lemma_with_group_kept(groups, group_seq, known);
    pending::lemma_with_group(groups, group_seq);
    let at = pending::slot(pending::group_keys(groups), group_seq);
    let all = pending::with_group(groups, group_seq);
    let group = all[at];
    let changed = pending::with_datagram::<R>(group, kypacket_seq, part, now).0;
    let after = all.update(at, changed);
    assert(group_kept(group, known));
    assert(group.wf());
    pending::lemma_slot(group.datagram_keys(), kypacket_seq);
    assert(group_kept(changed, known)) by {
        if changed.datagrams.len() > group.datagrams.len() {
            let place = pending::slot(group.datagram_keys(), kypacket_seq);
            assert forall|j: int| 0 <= j < changed.datagrams.len() implies (known.is_media)(
                (#[trigger] changed.datagrams[j]).packet,
            ) by {
                if j < place {
                    assert(changed.datagrams[j] == group.datagrams[j]);
                } else if j > place {
                    assert(changed.datagrams[j] == group.datagrams[j - 1]);
                }
            }
        } else {
            assert(changed.datagrams == group.datagrams);
        }
    }
    assert forall|i: int| 0 <= i < after.len() implies group_kept(#[trigger] after[i], known) by {
        if i != at {
            assert(after[i] == all[i]);
        }
    }
}

/// What is taken is a media packet. A config packet marks its group; any other
/// packet is of a group whose config packet was handed out.
pub proof fn lemma_take_kept<V, S>(
    groups: Seq<GroupView<V, S>>,
    next: u64,
    now: u64,
    group_of: spec_fn(int) -> int,
    is_config: spec_fn(int) -> bool,
    known: Known<V>,
    after: Known<V>,
)
    requires
        pending::groups_wf(groups),
        groups.len() <= usize::MAX,
        delivery::follows(groups, next as int, group_of, is_config),
        kept(groups, known),
        grows(known, after),
        pending::spec_take(groups, next, now).1 matches Action::Packet { kypacket_seq, .. }
            ==> is_config(kypacket_seq as int) ==> (after.sent)(
            group_of(kypacket_seq as int) as u64,
        ),
    ensures
        kept(pending::spec_take(groups, next, now).0, after),
        pending::spec_take(groups, next, now).1 matches Action::Packet { kypacket_seq, packet }
            ==> {
            let seq = kypacket_seq as int;
            &&& (known.is_media)(packet)
            &&& 0 <= group_of(seq) <= u64::MAX
            &&& !is_config(seq) ==> (known.sent)(group_of(seq) as u64)
        },
{
    pending::lemma_candidate(groups, next);
    let at = pending::candidate(groups, next);
    let (left, action) = pending::spec_take(groups, next, now);
    if let Action::Packet { kypacket_seq, packet } = action {
        let group = groups[at];
        let seq = kypacket_seq as int;
        assert(delivery::group_follows(group, next as int, group_of, is_config));
        assert(group_kept(group, known));
        assert(pending::is_candidate(group, next));
        assert(group_of(seq) == group.group_seq);
        assert(is_config(seq) == (group.config_packet is Ready));
        assert forall|i: int| 0 <= i < left.len() implies group_kept(#[trigger] left[i], after) by {
            assert(group_kept(groups[at + i], known));
            if i > 0 {
                assert(left[i] == groups[at + i]);
            } else if !(group.config_packet is Ready) {
                assert forall|j: int| 0 <= j < left[0].datagrams.len() implies (after.is_media)(
                    (#[trigger] left[0].datagrams[j]).packet,
                ) by {
                    assert(left[0].datagrams[j] == group.datagrams[j + 1]);
                }
            }
        }
    } else {
        lemma_kept_grows(groups, known, after);
    }
}

/// Which packets, and which assemblies, are right under a number.
#[verifier::reject_recursive_types(V)]
#[verifier::reject_recursive_types(S)]
pub struct Right<V, S> {
    pub packet: spec_fn(u64, V) -> bool,
    pub assembly: spec_fn(u64, S) -> bool,
}

/// What a group holds is right.
pub open spec fn group_right<V, S>(group: GroupView<V, S>, right: Right<V, S>) -> bool {
    &&& group.config_packet matches ConfigPacket::Ready(packet) ==> (right.packet)(
        packet.kypacket_seq,
        packet.packet,
    )
    &&& forall|j: int|
        0 <= j < group.datagrams.len() ==> (right.packet)(
            (#[trigger] group.datagrams[j]).kypacket_seq,
            group.datagrams[j].packet,
        )
    &&& forall|j: int|
        0 <= j < group.segments.len() ==> (right.assembly)(
            (#[trigger] group.segments[j]).0,
            group.segments[j].1,
        )
}

pub open spec fn all_right<V, S>(groups: Seq<GroupView<V, S>>, right: Right<V, S>) -> bool {
    forall|i: int| 0 <= i < groups.len() ==> group_right(#[trigger] groups[i], right)
}

/// A part fits the assembly `v` of its packet, and what comes of it is right.
pub open spec fn part_is_right<R: Reassembly>(
    v: R::V,
    kypacket_seq: u64,
    part: <R::Part as View>::V,
    right: Right<<R::Packet as View>::V, R::V>,
) -> bool {
    let w = R::added(v, part);
    &&& R::can_add(v, part)
    &&& !R::complete(w) ==> (right.assembly)(kypacket_seq, w)
    &&& R::complete(w) ==> (R::assembled(w) matches Some(packet) && (right.packet)(
        kypacket_seq,
        packet,
    ))
}

/// The assembly that a part of a packet goes to.
pub open spec fn assembly_of<R: Reassembly>(
    group: GroupOf<R>,
    kypacket_seq: u64,
    part: <R::Part as View>::V,
) -> R::V {
    if pending::found(group.segment_keys(), kypacket_seq) {
        group.segments[pending::slot(group.segment_keys(), kypacket_seq)].1
    } else {
        R::started(part)
    }
}

/// The assembly that a part goes to is a new one, or a right one.
pub proof fn lemma_assembly_of<R: Reassembly>(
    groups: Seq<GroupOf<R>>,
    group_seq: u64,
    kypacket_seq: u64,
    part: <R::Part as View>::V,
    right: Right<<R::Packet as View>::V, R::V>,
)
    requires
        pending::groups_wf(groups),
        all_right(groups, right),
    ensures
        ({
            let group = pending::with_group(groups, group_seq)[pending::slot(
                pending::group_keys(groups),
                group_seq,
            )];
            let v = assembly_of::<R>(group, kypacket_seq, part);
            v == R::started(part) || (right.assembly)(kypacket_seq, v)
        }),
{
    lemma_with_group_right(groups, group_seq, right);
    pending::lemma_with_group(groups, group_seq);
    let at = pending::slot(pending::group_keys(groups), group_seq);
    let group = pending::with_group(groups, group_seq)[at];
    assert(group_right(group, right));
    pending::lemma_slot(group.segment_keys(), kypacket_seq);
    if pending::found(group.segment_keys(), kypacket_seq) {
        let place = pending::slot(group.segment_keys(), kypacket_seq);
        assert(group.segment_keys()[place] == group.segments[place].0);
    }
}

proof fn lemma_with_group_right<V, S>(
    groups: Seq<GroupView<V, S>>,
    group_seq: u64,
    right: Right<V, S>,
)
    requires
        pending::groups_wf(groups),
        all_right(groups, right),
    ensures
        all_right(pending::with_group(groups, group_seq), right),
{
    pending::lemma_with_group(groups, group_seq);
    let at = pending::slot(pending::group_keys(groups), group_seq);
    let all = pending::with_group(groups, group_seq);
    assert forall|i: int| 0 <= i < all.len() implies group_right(#[trigger] all[i], right) by {
        if all != groups {
            if i < at {
                assert(all[i] == groups[i]);
            } else if i > at {
                assert(all[i] == groups[i - 1]);
            }
        }
    }
}

pub proof fn lemma_with_config_right<V, S>(
    groups: Seq<GroupView<V, S>>,
    group_seq: u64,
    packet: StreamPacket<V>,
    right: Right<V, S>,
)
    requires
        pending::groups_wf(groups),
        all_right(groups, right),
        (right.packet)(packet.kypacket_seq, packet.packet),
    ensures
        all_right(pending::with_config(groups, group_seq, packet), right),
{
    lemma_with_group_right(groups, group_seq, right);
    pending::lemma_with_group(groups, group_seq);
    let at = pending::slot(pending::group_keys(groups), group_seq);
    let all = pending::with_group(groups, group_seq);
    let after = pending::with_config(groups, group_seq, packet);
    assert(group_right(all[at], right));
    assert forall|i: int| 0 <= i < after.len() implies group_right(#[trigger] after[i], right) by {
        if i != at {
            assert(after[i] == all[i]);
        }
    }
}

/// A datagram that brings a right part is good, and leaves the groups right.
pub proof fn lemma_with_datagram_right<R: Reassembly>(
    groups: Seq<GroupOf<R>>,
    group_seq: u64,
    kypacket_seq: u64,
    part: <R::Part as View>::V,
    now: u64,
    right: Right<<R::Packet as View>::V, R::V>,
)
    requires
        pending::groups_wf(groups),
        all_right(groups, right),
        R::can_start(part),
        ({
            let group = pending::with_group(groups, group_seq)[pending::slot(
                pending::group_keys(groups),
                group_seq,
            )];
            pending::found(group.datagram_keys(), kypacket_seq) || part_is_right::<R>(
                assembly_of::<R>(group, kypacket_seq, part),
                kypacket_seq,
                part,
                right,
            )
        }),
    ensures
        all_right(
            pending::with_datagram_in::<R>(groups, group_seq, kypacket_seq, part, now).0,
            right,
        ),
        pending::with_datagram_in::<R>(groups, group_seq, kypacket_seq, part, now).1,
{
    lemma_with_group_right(groups, group_seq, right);
    pending::lemma_with_group(groups, group_seq);
    let at = pending::slot(pending::group_keys(groups), group_seq);
    let all = pending::with_group(groups, group_seq);
    let group = all[at];
    let changed = pending::with_datagram::<R>(group, kypacket_seq, part, now).0;
    let after = all.update(at, changed);
    assert(group_right(group, right));
    assert(group.wf());
    lemma_changed_right::<R>(group, kypacket_seq, part, now, right);
    assert forall|i: int| 0 <= i < after.len() implies group_right(#[trigger] after[i], right) by {
        if i != at {
            assert(after[i] == all[i]);
        }
    }
}

proof fn lemma_changed_right<R: Reassembly>(
    group: GroupOf<R>,
    kypacket_seq: u64,
    part: <R::Part as View>::V,
    now: u64,
    right: Right<<R::Packet as View>::V, R::V>,
)
    requires
        group.wf(),
        group_right(group, right),
        R::can_start(part),
        pending::found(group.datagram_keys(), kypacket_seq) || part_is_right::<R>(
            assembly_of::<R>(group, kypacket_seq, part),
            kypacket_seq,
            part,
            right,
        ),
    ensures
        group_right(pending::with_datagram::<R>(group, kypacket_seq, part, now).0, right),
        pending::with_datagram::<R>(group, kypacket_seq, part, now).1,
{
    let changed = pending::with_datagram::<R>(group, kypacket_seq, part, now).0;
    if !pending::found(group.datagram_keys(), kypacket_seq) {
        pending::lemma_slot(group.datagram_keys(), kypacket_seq);
        pending::lemma_slot(group.segment_keys(), kypacket_seq);
        let at = pending::slot(group.segment_keys(), kypacket_seq);
        let place = pending::slot(group.datagram_keys(), kypacket_seq);
        let known = pending::found(group.segment_keys(), kypacket_seq);
        let v = assembly_of::<R>(group, kypacket_seq, part);
        let w = R::added(v, part);
        let segments = if known {
            group.segments
        } else {
            group.segments.insert(at, (kypacket_seq, R::started(part)))
        };
        assert(segments[at].1 == v);
        assert forall|j: int| 0 <= j < changed.segments.len() implies (right.assembly)(
            (#[trigger] changed.segments[j]).0,
            changed.segments[j].1,
        ) by {
            if R::complete(w) {
                let k = if j < at {
                    j
                } else {
                    j + 1
                };
                assert(changed.segments[j] == segments[k]);
                if known {
                    assert(segments[k] == group.segments[k]);
                } else {
                    assert(segments[k] == group.segments[j]);
                }
            } else if j != at {
                assert(changed.segments[j] == segments[j]);
                if known {
                    assert(segments[j] == group.segments[j]);
                } else if j < at {
                    assert(segments[j] == group.segments[j]);
                } else {
                    assert(segments[j] == group.segments[j - 1]);
                }
            }
        }
        assert forall|j: int| 0 <= j < changed.datagrams.len() implies (right.packet)(
            (#[trigger] changed.datagrams[j]).kypacket_seq,
            changed.datagrams[j].packet,
        ) by {
            if R::complete(w) {
                if j < place {
                    assert(changed.datagrams[j] == group.datagrams[j]);
                } else if j > place {
                    assert(changed.datagrams[j] == group.datagrams[j - 1]);
                }
            } else {
                assert(changed.datagrams[j] == group.datagrams[j]);
            }
        }
    }
}

/// What is taken from right groups is right, and leaves them right.
pub proof fn lemma_take_right<V, S>(
    groups: Seq<GroupView<V, S>>,
    next: u64,
    now: u64,
    right: Right<V, S>,
)
    requires
        pending::groups_wf(groups),
        groups.len() <= usize::MAX,
        all_right(groups, right),
    ensures
        all_right(pending::spec_take(groups, next, now).0, right),
        pending::spec_take(groups, next, now).1 matches Action::Packet { kypacket_seq, packet }
            ==> (right.packet)(kypacket_seq, packet),
{
    pending::lemma_candidate(groups, next);
    let at = pending::candidate(groups, next);
    let (left, action) = pending::spec_take(groups, next, now);
    if let Action::Packet { kypacket_seq, packet } = action {
        let group = groups[at];
        assert(group_right(group, right));
        assert(group.wf());
        assert(pending::is_candidate(group, next));
        assert forall|i: int| 0 <= i < left.len() implies group_right(
            #[trigger] left[i],
            right,
        ) by {
            assert(group_right(groups[at + i], right));
            if i > 0 {
                assert(left[i] == groups[at + i]);
            } else if !(group.config_packet is Ready) {
                let first = group.datagrams[0].kypacket_seq;
                pending::lemma_slot(group.segment_keys(), first);
                let cut = pending::slot(group.segment_keys(), first);
                assert forall|j: int| 0 <= j < left[0].datagrams.len() implies (right.packet)(
                    (#[trigger] left[0].datagrams[j]).kypacket_seq,
                    left[0].datagrams[j].packet,
                ) by {
                    assert(left[0].datagrams[j] == group.datagrams[j + 1]);
                }
                assert forall|j: int| 0 <= j < left[0].segments.len() implies (right.assembly)(
                    (#[trigger] left[0].segments[j]).0,
                    left[0].segments[j].1,
                ) by {
                    assert(left[0].segments[j] == group.segments[j + cut]);
                }
            }
        }
    }
}

} // verus!
