//! Laws of the error correction: whichever datagrams of a packet arrive, in
//! whatever order, they give that packet or nothing, and all that carry source
//! symbols give it.

use vstd::prelude::*;
use crate::fec;
use crate::fec::{DatagramSegments, FecPartView, FecView, Sender};
use crate::forwarder;
use crate::forwarder::{DatagramMsgView, ForwarderView};
use crate::kypacket::PacketView;
use crate::pending;
use crate::pending::{BadDatagram, GroupOf};
use crate::raptor;
use crate::reassembly;

verus! {

/// The symbols of a packet, as datagrams bring them.
pub open spec fn parts_of(data: Seq<u8>, max_datagram_size: usize) -> Seq<FecPartView> {
    let oti = fec::encoding_config(data.len(), max_datagram_size);
    fec::encoding(data, max_datagram_size).map_values(
        |packet: Seq<u8>| FecPartView { oti, packet },
    )
}

/// The assembly after the symbols numbered by `order` have arrived.
pub open spec fn fed(data: Seq<u8>, max_datagram_size: usize, order: Seq<int>) -> FecView {
    FecView {
        config: fec::encoding_config(data.len(), max_datagram_size),
        packets: order.map_values(|i: int| fec::encoding(data, max_datagram_size)[i]),
    }
}

/// All numbers are those of symbols.
pub open spec fn in_symbols(data: Seq<u8>, max_datagram_size: usize, order: Seq<int>) -> bool {
    forall|k: int|
        0 <= k < order.len() ==> 0 <= #[trigger] order[k] < fec::encoding(
            data,
            max_datagram_size,
        ).len()
}

/// Every source symbol has arrived.
pub open spec fn sources_arrived(
    data: Seq<u8>,
    max_datagram_size: usize,
    order: Seq<int>,
) -> bool {
    forall|i: int|
        0 <= i < fec::encoding(data, max_datagram_size).len() && raptor::is_source(
            fec::encoding_config(data.len(), max_datagram_size),
            fec::encoding(data, max_datagram_size)[i],
        ) ==> #[trigger] order.contains(i)
}

/// Of a packet that has one block, the source symbols are in its first datagrams.
pub proof fn lemma_first_datagrams_are_sources(
    data: Seq<u8>,
    max_datagram_size: usize,
    order: Seq<int>,
)
    requires
        fec::is_encoding(data, max_datagram_size),
        fec::source_count(data.len(), max_datagram_size) <= raptor::MAX_BLOCK_SYMBOLS,
        forall|i: int|
            0 <= i < fec::source_count(data.len(), max_datagram_size) ==> #[trigger] order.contains(
                i,
            ),
    ensures
        sources_arrived(data, max_datagram_size, order),
{
}

/// How far a group is with a packet whose symbols numbered by `order` have
/// arrived: it holds the packet, or an assembly with these symbols that have not
/// given it yet.
pub open spec fn is_recovering(
    group: GroupOf<DatagramSegments>,
    kypacket_seq: u64,
    packet: PacketView,
    max_datagram_size: usize,
    order: Seq<int>,
) -> bool {
    let v = fed(packet.bytes(), max_datagram_size, order);
    reassembly::holds(group, kypacket_seq, packet) || {
        &&& !pending::found(group.datagram_keys(), kypacket_seq)
        &&& if order.len() == 0 {
            !pending::found(group.segment_keys(), kypacket_seq)
        } else {
            reassembly::assembles(group, kypacket_seq, v) && v.decoded() is None
        }
    }
}

/// The packet goes in datagrams of that size, one for each of its symbols.
pub open spec fn is_sent_in_datagrams(packet: PacketView, max_datagram_size: usize) -> bool {
    &&& fec::spec_media_packet(packet.bytes()) == Some(packet)
    &&& Sender::fits(packet.bytes(), max_datagram_size)
    &&& fec::is_encoding(packet.bytes(), max_datagram_size)
}

/// A datagram of a packet brings its symbol, under the numbers that the sender
/// gave to the packet and its group.
pub proof fn lemma_datagram_brings_symbol(
    sender: Sender,
    data: Seq<u8>,
    endpoint_id: u64,
    max_datagram_size: usize,
    i: int,
)
    requires
        fec::is_encoding(data, max_datagram_size),
        0 <= i < sender.spec_datagrams(data, endpoint_id, max_datagram_size).len(),
    ensures
        sender.spec_datagrams(data, endpoint_id, max_datagram_size)[i].len() >= fec::HEADER_SIZE,
        forwarder::spec_parse_datagram(
            sender.spec_datagrams(data, endpoint_id, max_datagram_size)[i],
        ) == (DatagramMsgView {
            part: parts_of(data, max_datagram_size)[i],
            raw_kypacket_seq: sender.kypacket_seq,
            raw_group_seq: sender.group_seq,
        }),
{
    forwarder::lemma_datagram_roundtrip(
        endpoint_id,
        sender.kypacket_seq,
        sender.group_seq,
        fec::encoding_config(data.len(), max_datagram_size),
        fec::encoding(data, max_datagram_size)[i],
    );
}

/// The symbols of a packet give nothing but that packet, and all source symbols give
/// it.
pub proof fn lemma_symbols_recover(data: Seq<u8>, max_datagram_size: usize, order: Seq<int>)
    requires
        Sender::fits(data, max_datagram_size),
        in_symbols(data, max_datagram_size, order),
        order.len() > 0,
        fed(data, max_datagram_size, order).is_right(),
    ensures
        fed(data, max_datagram_size, order).decoded() matches Some(decoded) ==> decoded == data,
        sources_arrived(data, max_datagram_size, order) ==> fed(
            data,
            max_datagram_size,
            order,
        ).decoded() is Some,
{
    let v = fed(data, max_datagram_size, order);
    let mtu = (max_datagram_size - fec::HEADER_SIZE) as nat;
    let repair = fec::repair_count(data.len(), max_datagram_size);
    let symbols = fec::encoding(data, max_datagram_size);
    assert(raptor::decodes_right(v.config, v.packets, v.decoded()));
    assert(raptor::came_from(v.config, v.packets, data, mtu, repair)) by {
        assert forall|k: int| 0 <= k < v.packets.len() implies symbols.contains(
            #[trigger] v.packets[k],
        ) by {
            assert(v.packets[k] == symbols[order[k]]);
        }
    }
    if sources_arrived(data, max_datagram_size, order) {
        assert forall|i: int|
            0 <= i < symbols.len() && raptor::is_source(
                v.config,
                #[trigger] symbols[i],
            ) implies v.packets.contains(symbols[i]) by {
            assert(order.contains(i));
            let k = choose|k: int| 0 <= k < order.len() && order[k] == i;
            assert(v.packets[k] == symbols[i]);
        }
    }
}

/// A symbol of an encoding is taken as it is.
proof fn lemma_symbol_is_useful(data: Seq<u8>, max_datagram_size: usize, u: FecView, n: int)
    requires
        fec::is_encoding(data, max_datagram_size),
        0 <= n < fec::encoding(data, max_datagram_size).len(),
        u.config == fec::encoding_config(data.len(), max_datagram_size),
    ensures
        u.added(parts_of(data, max_datagram_size)[n]) == (FecView {
            packets: u.packets.push(fec::encoding(data, max_datagram_size)[n]),
            ..u
        }),
        u.decoded() is None ==> u.can_add(parts_of(data, max_datagram_size)[n]),
{
    let packet = fec::encoding(data, max_datagram_size)[n];
    let size = raptor::symbol_size(u.config);
    let alignment = raptor::alignment(u.config);
    assert(raptor::fits(u.config, packet));
    assert(size / alignment * alignment <= size) by (nonlinear_arith)
        requires
            alignment > 0,
    ;
    assert(fec::resized(packet, 4 + size) =~= packet);
}

/// One more symbol of a packet fits an assembly of symbols of that packet that have
/// not given it yet. If they now give something, it is that packet.
pub proof fn lemma_symbol_is_added(
    packet: PacketView,
    max_datagram_size: usize,
    order: Seq<int>,
    n: int,
)
    requires
        is_sent_in_datagrams(packet, max_datagram_size),
        in_symbols(packet.bytes(), max_datagram_size, order.push(n)),
        fed(packet.bytes(), max_datagram_size, order).decoded() is None,
    ensures
        ({
            let u = fed(packet.bytes(), max_datagram_size, order);
            let part = parts_of(packet.bytes(), max_datagram_size)[n];
            let v = fed(packet.bytes(), max_datagram_size, order.push(n));
            &&& raptor::valid_config(part.oti)
            &&& u.can_add(part)
            &&& u.added(part) == v
            &&& v.is_right() && v.decoded() is Some ==> v.assembled() == Some(packet)
        }),
{
    let data = packet.bytes();
    let u = fed(data, max_datagram_size, order);
    let v = fed(data, max_datagram_size, order.push(n));
    assert(order.push(n)[order.len() as int] == n);
    lemma_symbol_is_useful(data, max_datagram_size, u, n);
    assert(v =~= u.added(parts_of(data, max_datagram_size)[n]));
    if v.is_right() {
        lemma_symbols_recover(data, max_datagram_size, order.push(n));
    }
}

/// One more datagram of a packet, be it new or repeated, is good. What the group
/// then holds under the packet's number, if anything, is that packet, and if every
/// source symbol has arrived it does hold it.
pub proof fn lemma_symbol_arrives(
    group: GroupOf<DatagramSegments>,
    kypacket_seq: u64,
    packet: PacketView,
    max_datagram_size: usize,
    order: Seq<int>,
    n: int,
    now: u64,
)
    requires
        group.wf(),
        is_sent_in_datagrams(packet, max_datagram_size),
        in_symbols(packet.bytes(), max_datagram_size, order.push(n)),
        is_recovering(group, kypacket_seq, packet, max_datagram_size, order),
        pending::assembly_after::<DatagramSegments>(
            group,
            kypacket_seq,
            parts_of(packet.bytes(), max_datagram_size)[n],
        ) matches Some(assembly) ==> assembly.is_right(),
        now <= pending::MAX_INSTANT,
    ensures
        ({
            let (after, good) = pending::with_datagram::<DatagramSegments>(
                group,
                kypacket_seq,
                parts_of(packet.bytes(), max_datagram_size)[n],
                now,
            );
            &&& good
            &&& after.wf()
            &&& after.group_seq == group.group_seq
            &&& after.config_packet == group.config_packet
            &&& is_recovering(after, kypacket_seq, packet, max_datagram_size, order.push(n))
            &&& sources_arrived(
                packet.bytes(),
                max_datagram_size,
                order.push(n),
            ) ==> reassembly::holds(
                after,
                kypacket_seq,
                packet,
            )
        }),
{
    let data = packet.bytes();
    let parts = parts_of(data, max_datagram_size);
    let u = fed(data, max_datagram_size, order);
    let v = fed(data, max_datagram_size, order.push(n));
    let (after, good) = pending::with_datagram::<DatagramSegments>(
        group,
        kypacket_seq,
        parts[n],
        now,
    );
    assert(order.push(n)[order.len() as int] == n);
    pending::lemma_group_with_datagram_wf::<DatagramSegments>(group, kypacket_seq, parts[n], now);
    if !pending::found(group.datagram_keys(), kypacket_seq) {
        pending::lemma_slot(group.segment_keys(), kypacket_seq);
        pending::lemma_slot(group.datagram_keys(), kypacket_seq);
        let at = pending::slot(group.segment_keys(), kypacket_seq);
        lemma_symbol_is_useful(data, max_datagram_size, u, n);
        assert(v =~= u.added(parts[n]));
        if order.len() == 0 {
            assert(u =~= (FecView {
                config: raptor::canonical(parts[n].oti),
                packets: Seq::empty(),
            }));
        }
        assert(pending::assembly_after::<DatagramSegments>(group, kypacket_seq, parts[n]) == Some(
            v,
        ));
        lemma_symbols_recover(data, max_datagram_size, order.push(n));
        if v.decoded() is Some {
            let place = pending::slot(group.datagram_keys(), kypacket_seq);
            assert(v.assembled() == Some(packet));
            assert(after.datagrams[place].packet == packet);
            reassembly::lemma_slot_of(after.datagram_keys(), place);
        } else {
            assert(after.datagrams == group.datagrams);
            assert(after.segments[at] == (kypacket_seq, v));
            reassembly::lemma_slot_of(after.segment_keys(), at);
        }
    }
}

/// A group that receives datagrams of a packet, in any order and any number of
/// times, takes them all; what it then holds under the packet's number, if
/// anything, is that packet, and if every source symbol has arrived it does hold it.
pub proof fn lemma_group_recovers(
    group: GroupOf<DatagramSegments>,
    kypacket_seq: u64,
    packet: PacketView,
    max_datagram_size: usize,
    order: Seq<int>,
    now: spec_fn(int) -> u64,
)
    requires
        group.wf(),
        !pending::found(group.datagram_keys(), kypacket_seq),
        !pending::found(group.segment_keys(), kypacket_seq),
        is_sent_in_datagrams(packet, max_datagram_size),
        in_symbols(packet.bytes(), max_datagram_size, order),
        reassembly::soundly_fed::<DatagramSegments>(
            group,
            kypacket_seq,
            parts_of(packet.bytes(), max_datagram_size),
            order,
            now,
        ),
        forall|k: int| #[trigger] now(k) <= pending::MAX_INSTANT,
    ensures
        ({
            let (after, good) = reassembly::group_fed::<DatagramSegments>(
                group,
                kypacket_seq,
                parts_of(packet.bytes(), max_datagram_size),
                order,
                now,
            );
            &&& good
            &&& after.wf()
            &&& after.config_packet == group.config_packet
            &&& is_recovering(after, kypacket_seq, packet, max_datagram_size, order)
            &&& order.len() > 0 && sources_arrived(packet.bytes(), max_datagram_size, order)
                ==> reassembly::holds(after, kypacket_seq, packet)
        }),
    decreases order.len(),
{
    let data = packet.bytes();
    let parts = parts_of(data, max_datagram_size);
    if order.len() > 0 {
        let prefix = order.drop_last();
        let n = order.last();
        assert(prefix.push(n) =~= order);
        assert(order.take(order.len() - 1) =~= prefix);
        assert(in_symbols(data, max_datagram_size, prefix)) by {
            assert forall|k: int| 0 <= k < prefix.len() implies 0 <= #[trigger] prefix[k]
                < fec::encoding(data, max_datagram_size).len() by {
                assert(prefix[k] == order[k]);
            }
        }
        reassembly::lemma_soundly_fed_before::<DatagramSegments>(
            group,
            kypacket_seq,
            parts,
            order,
            now,
        );
        lemma_group_recovers(group, kypacket_seq, packet, max_datagram_size, prefix, now);
        let (before, _) = reassembly::group_fed::<DatagramSegments>(
            group,
            kypacket_seq,
            parts,
            prefix,
            now,
        );
        lemma_symbol_arrives(
            before,
            kypacket_seq,
            packet,
            max_datagram_size,
            prefix,
            n,
            now(order.len() - 1),
        );
    }
}

/// The group that a forwarder has, or would open, for a number.
pub open spec fn group_at(state: ForwarderView, group_seq: u64) -> GroupOf<DatagramSegments> {
    pending::with_group(state.groups, group_seq)[pending::slot(
        pending::group_keys(state.groups),
        group_seq,
    )]
}

/// A forwarder that receives one more datagram of a packet that it has not handed
/// out keeps it, and gets on with that packet as its group does.
pub proof fn lemma_forwarder_recovers(
    state: ForwarderView,
    sender: Sender,
    endpoint_id: u64,
    packet: PacketView,
    max_datagram_size: usize,
    order: Seq<int>,
    n: int,
    now: u64,
)
    requires
        state.wf(),
        state.has_room(),
        is_sent_in_datagrams(packet, max_datagram_size),
        in_symbols(packet.bytes(), max_datagram_size, order.push(n)),
        now <= pending::MAX_INSTANT,
        ({
            let seen = state.sequenced(sender.kypacket_seq, sender.group_seq);
            let msg = forwarder::spec_parse_datagram(
                sender.spec_datagrams(packet.bytes(), endpoint_id, max_datagram_size)[n],
            );
            &&& seen.last_kypacket_seq >= state.next_kypacket_seq
            &&& is_recovering(
                group_at(state, seen.last_group_seq as u64),
                seen.last_kypacket_seq as u64,
                packet,
                max_datagram_size,
                order,
            )
            &&& state.assembly(msg) matches Some(assembly) ==> assembly.is_right()
        }),
    ensures
        ({
            let seen = state.sequenced(sender.kypacket_seq, sender.group_seq);
            let msg = forwarder::spec_parse_datagram(
                sender.spec_datagrams(packet.bytes(), endpoint_id, max_datagram_size)[n],
            );
            let (after, r) = state.on_datagram(msg, now);
            let group = group_at(after, seen.last_group_seq as u64);
            &&& r == Ok::<bool, BadDatagram>(true)
            &&& is_recovering(
                group,
                seen.last_kypacket_seq as u64,
                packet,
                max_datagram_size,
                order.push(n),
            )
            &&& sources_arrived(
                packet.bytes(),
                max_datagram_size,
                order.push(n),
            ) ==> reassembly::holds(
                group,
                seen.last_kypacket_seq as u64,
                packet,
            )
        }),
{
    let data = packet.bytes();
    let seen = state.sequenced(sender.kypacket_seq, sender.group_seq);
    let group_seq = seen.last_group_seq as u64;
    let keys = pending::group_keys(state.groups);
    let at = pending::slot(keys, group_seq);
    let group = group_at(state, group_seq);
    assert(order.push(n)[order.len() as int] == n);
    lemma_datagram_brings_symbol(sender, data, endpoint_id, max_datagram_size, n);
    pending::lemma_with_group(state.groups, group_seq);
    lemma_symbol_arrives(
        group,
        seen.last_kypacket_seq as u64,
        packet,
        max_datagram_size,
        order,
        n,
        now,
    );
    let msg = forwarder::spec_parse_datagram(
        sender.spec_datagrams(data, endpoint_id, max_datagram_size)[n],
    );
    let after = state.on_datagram(msg, now).0;
    let all = pending::with_group(state.groups, group_seq);
    assert(pending::group_keys(after.groups) =~= pending::group_keys(all));
    assert(pending::group_keys(all)[at] == group_seq);
    reassembly::lemma_slot_of(pending::group_keys(after.groups), at);
}

} // verus!
