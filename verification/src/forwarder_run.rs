//! Laws of a whole run of the forwarder.
//!
//! One sender's messages arrive. Those over the stream come in order; datagrams are
//! lost, delayed, reordered or repeated at will. The forwarder looks for the next
//! packet whenever it likes.

use vstd::prelude::*;
use crate::delivery;
use crate::fec::{DatagramSegments, FecPartView, FecView};
use crate::forwarder;
use crate::forwarder::{DatagramMsgView, ForwarderView};
use crate::kypacket::PacketView;
use crate::numbering;
use crate::pending;
use crate::pending::{Action, StreamPacket};
use crate::raptor;
use crate::recovery;
use crate::run;
use crate::run::{Known, Right};

verus! {

/// What happens to the forwarder.
#[verifier::ext_equal]
pub enum Step {
    /// A packet from the stream.
    Stream { packet: PacketView, raw_kypacket_seq: u32, raw_group_seq: u32 },
    /// A datagram.
    Datagram { msg: DatagramMsgView, now: u64 },
    /// The deadline has passed.
    Deadline,
    /// A look for the next packet.
    Look { now: u64 },
}

impl Step {
    /// The packet is a codec packet.
    pub open spec fn is_codec(self) -> bool {
        self matches Step::Stream { packet, .. } && packet is Codec
    }

    /// The packet is a config packet.
    pub open spec fn is_config(self) -> bool {
        self matches Step::Stream { packet, .. } && packet is Media
    }

    /// The forwarder can do it.
    pub open spec fn is_accepted(self, state: ForwarderView) -> bool {
        match self {
            Step::Stream { packet, raw_kypacket_seq, raw_group_seq } => state.accepts_stream(
                packet,
                raw_kypacket_seq,
                raw_group_seq,
            ),
            Step::Datagram { .. } => state.has_room(),
            _ => true,
        }
    }

    /// The forwarder after it, and the bytes that go to the client.
    pub open spec fn done(self, state: ForwarderView) -> (ForwarderView, Option<Seq<u8>>) {
        match self {
            Step::Stream { packet, raw_kypacket_seq, raw_group_seq } => (
                state.on_stream(packet, raw_kypacket_seq, raw_group_seq),
                if packet is Codec {
                    Some(packet.bytes())
                } else {
                    None
                },
            ),
            Step::Datagram { msg, now } => (state.on_datagram(msg, now).0, None),
            Step::Deadline => (ForwarderView { deadline: None, ..state }, None),
            Step::Look { now } => state.processed(now),
        }
    }
}

/// The forwarder after the first `n` steps.
pub open spec fn ran(steps: Seq<Step>, n: int) -> ForwarderView
    decreases n,
{
    if n <= 0 {
        ForwarderView::initial()
    } else {
        steps[n - 1].done(ran(steps, n - 1)).0
    }
}

/// The bytes that step `n` sends to the client.
pub open spec fn output(steps: Seq<Step>, n: int) -> Option<Seq<u8>> {
    steps[n].done(ran(steps, n)).1
}

/// Step `n` sends a packet that bears a number.
pub open spec fn hands_out(steps: Seq<Step>, n: int) -> bool {
    output(steps, n) is Some && !steps[n].is_codec()
}

/// The number of the packet that step `n` sends.
pub open spec fn number(steps: Seq<Step>, n: int) -> int {
    ran(steps, n + 1).next_kypacket_seq - 1
}

/// The numbers are those that the sender gave to packet `k` and its group.
pub open spec fn is_numbered(
    packets: Seq<PacketView>,
    k: int,
    raw_kypacket_seq: u32,
    raw_group_seq: u32,
) -> bool {
    &&& 0 <= k < packets.len()
    &&& raw_kypacket_seq == numbering::video_sent(packets, k).kypacket_seq
    &&& raw_group_seq == numbering::video_sent(packets, k + 1).group_seq
}

/// The messages are codec packets, and messages of the packets of one sender, fewer
/// than 2^31, of which the first is a config packet: step `n` is a message of packet
/// `source(n)`. Config packets come in order, each once.
pub open spec fn is_run(
    packets: Seq<PacketView>,
    steps: Seq<Step>,
    source: spec_fn(int) -> int,
) -> bool {
    let is_config = numbering::packet_is_config(packets);
    &&& packets.len() < 0x8000_0000
    &&& packets.len() > 0 ==> is_config(0)
    &&& forall|i: int| 0 <= i < packets.len() ==> (#[trigger] packets[i]) is Media
    &&& forall|n: int|
        0 <= n < steps.len() ==> match #[trigger] steps[n] {
            Step::Stream { packet, raw_kypacket_seq, raw_group_seq } => packet is Codec || {
                &&& is_numbered(packets, source(n), raw_kypacket_seq, raw_group_seq)
                &&& is_config(source(n))
            },
            Step::Datagram { msg, now } => {
                &&& is_numbered(packets, source(n), msg.raw_kypacket_seq, msg.raw_group_seq)
                &&& !is_config(source(n))
                &&& now <= pending::MAX_INSTANT
            },
            _ => true,
        }
    &&& forall|m: int, n: int|
        0 <= m < n < steps.len() && (#[trigger] steps[m]).is_config() && (
        #[trigger] steps[n]).is_config() ==> source(m) < source(n)
}

/// The config packet of a group was sent before step `n`.
pub open spec fn config_sent(packets: Seq<PacketView>, steps: Seq<Step>, n: int) -> spec_fn(
    u64,
) -> bool {
    let is_config = numbering::packet_is_config(packets);
    let group_of = numbering::group_of(is_config, -1);
    |group: u64|
        exists|m: int|
            0 <= m < n && #[trigger] hands_out(steps, m) && is_config(number(steps, m)) && group_of(
                number(steps, m),
            ) == group
}

/// The config packet of a group arrived before step `n`.
pub open spec fn config_came(
    packets: Seq<PacketView>,
    steps: Seq<Step>,
    source: spec_fn(int) -> int,
    n: int,
) -> spec_fn(u64) -> bool {
    let group_of = numbering::group_of(numbering::packet_is_config(packets), -1);
    |group: u64|
        exists|m: int|
            0 <= m < n && (#[trigger] steps[m]).is_config() && group_of(source(m)) == group
}

/// What is known of the forwarder's groups before step `n`.
spec fn known(
    packets: Seq<PacketView>,
    steps: Seq<Step>,
    source: spec_fn(int) -> int,
    n: int,
) -> Known<PacketView> {
    Known {
        is_media: |packet: PacketView| packet is Media,
        sent: config_sent(packets, steps, n),
        came: config_came(packets, steps, source, n),
        most: packets.len() as int,
    }
}

/// What is known does not become less.
proof fn lemma_known_grows(
    packets: Seq<PacketView>,
    steps: Seq<Step>,
    source: spec_fn(int) -> int,
    n: int,
)
    ensures
        run::grows(known(packets, steps, source, n), known(packets, steps, source, n + 1)),
{
    let is_config = numbering::packet_is_config(packets);
    let group_of = numbering::group_of(is_config, -1);
    let sent = config_sent(packets, steps, n);
    let more_sent = config_sent(packets, steps, n + 1);
    let came = config_came(packets, steps, source, n);
    let more_came = config_came(packets, steps, source, n + 1);
    assert forall|g: u64| #[trigger] sent(g) implies more_sent(g) by {
        let m = choose|m: int|
            0 <= m < n && #[trigger] hands_out(steps, m) && is_config(number(steps, m)) && group_of(
                number(steps, m),
            ) == g;
        assert(hands_out(steps, m));
    }
    assert forall|g: u64| #[trigger] came(g) implies more_came(g) by {
        let m = choose|m: int|
            0 <= m < n && (#[trigger] steps[m]).is_config() && group_of(source(m)) == g;
        assert(steps[m].is_config());
    }
}

/// What holds of the forwarder during a run.
spec fn in_run(
    packets: Seq<PacketView>,
    steps: Seq<Step>,
    source: spec_fn(int) -> int,
    n: int,
) -> bool {
    let state = ran(steps, n);
    let is_config = numbering::packet_is_config(packets);
    let group_of = numbering::group_of(is_config, -1);
    &&& state.wf()
    &&& state.last_kypacket_seq < 0x8000_0000
    &&& state.last_group_seq < 0x8000_0000
    &&& forwarder::holds_numbering(state, group_of, is_config)
    &&& run::kept(state.groups, known(packets, steps, source, n))
}

/// What step `n` does, as far as the order of a run is concerned.
spec fn goes_on(packets: Seq<PacketView>, steps: Seq<Step>, n: int) -> bool {
    let is_config = numbering::packet_is_config(packets);
    let group_of = numbering::group_of(is_config, -1);
    &&& steps[n].is_accepted(ran(steps, n))
    &&& ran(steps, n + 1).next_kypacket_seq >= ran(steps, n).next_kypacket_seq
    &&& hands_out(steps, n) ==> {
        &&& ran(steps, n + 1).next_kypacket_seq > ran(steps, n).next_kypacket_seq
        &&& !is_config(number(steps, n)) ==> config_sent(packets, steps, n)(
            group_of(number(steps, n)) as u64,
        ) && 0 <= group_of(number(steps, n)) <= u64::MAX
    }
}

/// The numbers of a message are taken for what they are.
proof fn lemma_message_of_run(
    packets: Seq<PacketView>,
    steps: Seq<Step>,
    source: spec_fn(int) -> int,
    n: int,
    raw_kypacket_seq: u32,
    raw_group_seq: u32,
)
    requires
        is_run(packets, steps, source),
        0 <= n < steps.len(),
        in_run(packets, steps, source, n),
        is_numbered(packets, source(n), raw_kypacket_seq, raw_group_seq),
    ensures
        ({
            let seen = ran(steps, n).sequenced(raw_kypacket_seq, raw_group_seq);
            let group_of = numbering::group_of(numbering::packet_is_config(packets), -1);
            &&& seen.last_kypacket_seq == source(n)
            &&& seen.last_group_seq == group_of(source(n))
            &&& 0 <= group_of(source(n)) < packets.len()
        }),
{
    let k = source(n);
    let is_config = numbering::packet_is_config(packets);
    numbering::lemma_count_within(is_config, k + 1);
    numbering::lemma_count_from_config(is_config, k + 1);
    numbering::lemma_video_messages_are_of_numbering(packets, k, ran(steps, n));
}

/// A config packet of a run is the first of its group to arrive.
proof fn lemma_config_of_run(
    packets: Seq<PacketView>,
    steps: Seq<Step>,
    source: spec_fn(int) -> int,
    n: int,
)
    requires
        is_run(packets, steps, source),
        0 <= n < steps.len(),
        in_run(packets, steps, source, n),
    ensures
        steps[n].is_accepted(ran(steps, n)),
{
    let state = ran(steps, n);
    let is_config = numbering::packet_is_config(packets);
    let group_of = numbering::group_of(is_config, -1);
    if let Step::Stream { packet, raw_kypacket_seq, raw_group_seq } = steps[n] {
        if packet is Media {
            let k = source(n);
            lemma_message_of_run(packets, steps, source, n, raw_kypacket_seq, raw_group_seq);
            numbering::lemma_counting_is_numbering(is_config, -1);
            let group_seq = group_of(k) as u64;
            pending::lemma_with_group(state.groups, group_seq);
            let at = pending::slot(pending::group_keys(state.groups), group_seq);
            let group = pending::with_group(state.groups, group_seq)[at];
            if !(group.config_packet is Absent) {
                assert(group == state.groups[at]);
                assert(run::group_kept(group, known(packets, steps, source, n)));
                assert(config_came(packets, steps, source, n)(group_seq));
                let m = choose|m: int|
                    0 <= m < n && (#[trigger] steps[m]).is_config() && group_of(source(m))
                        == group_seq;
                assert(steps[n].is_config());
                assert(source(m) < source(n));
                assert(is_config(source(n)));
                assert(group_of(source(m)) < group_of(source(n)));
            }
        }
    }
}

proof fn lemma_message_goes_on(
    packets: Seq<PacketView>,
    steps: Seq<Step>,
    source: spec_fn(int) -> int,
    n: int,
)
    requires
        is_run(packets, steps, source),
        0 <= n < steps.len(),
        in_run(packets, steps, source, n),
        !(steps[n] is Look),
    ensures
        in_run(packets, steps, source, n + 1),
        goes_on(packets, steps, n),
{
    let state = ran(steps, n);
    let is_config = numbering::packet_is_config(packets);
    let group_of = numbering::group_of(is_config, -1);
    let more = known(packets, steps, source, n + 1);
    lemma_known_grows(packets, steps, source, n);
    run::lemma_kept_grows(state.groups, known(packets, steps, source, n), more);
    lemma_config_of_run(packets, steps, source, n);
    match steps[n] {
        Step::Stream { packet, raw_kypacket_seq, raw_group_seq } => {
            if packet is Media {
                lemma_message_of_run(packets, steps, source, n, raw_kypacket_seq, raw_group_seq);
                let seen = state.sequenced(raw_kypacket_seq, raw_group_seq);
                if seen.last_kypacket_seq >= state.next_kypacket_seq {
                    let group_seq = seen.last_group_seq as u64;
                    assert(steps[n].is_config());
                    assert((more.came)(group_seq));
                    run::lemma_with_config_kept(
                        state.groups,
                        group_seq,
                        StreamPacket { packet, kypacket_seq: seen.last_kypacket_seq as u64 },
                        more,
                    );
                }
            }
            forwarder::lemma_stream_message_fits(
                state,
                packet,
                raw_kypacket_seq,
                raw_group_seq,
                group_of,
                is_config,
            );
        },
        Step::Datagram { msg, now } => {
            lemma_message_of_run(
                packets,
                steps,
                source,
                n,
                msg.raw_kypacket_seq,
                msg.raw_group_seq,
            );
            let seen = state.sequenced(msg.raw_kypacket_seq, msg.raw_group_seq);
            if seen.last_kypacket_seq >= state.next_kypacket_seq {
                run::lemma_with_datagram_kept::<DatagramSegments>(
                    state.groups,
                    seen.last_group_seq as u64,
                    seen.last_kypacket_seq as u64,
                    msg.part,
                    now,
                    more,
                );
            }
            forwarder::lemma_datagram_message_fits(state, msg, now, group_of, is_config);
        },
        _ => {},
    }
}

proof fn lemma_look_goes_on(
    packets: Seq<PacketView>,
    steps: Seq<Step>,
    source: spec_fn(int) -> int,
    n: int,
)
    requires
        is_run(packets, steps, source),
        0 <= n < steps.len(),
        in_run(packets, steps, source, n),
        steps[n] is Look,
    ensures
        in_run(packets, steps, source, n + 1),
        goes_on(packets, steps, n),
{
    let state = ran(steps, n);
    let next = state.next_kypacket_seq;
    let is_config = numbering::packet_is_config(packets);
    let group_of = numbering::group_of(is_config, -1);
    let before = known(packets, steps, source, n);
    let more = known(packets, steps, source, n + 1);
    if let Step::Look { now } = steps[n] {
        lemma_known_grows(packets, steps, source, n);
        numbering::lemma_counting_is_numbering(is_config, -1);
        run::lemma_few_groups(state.groups, before);
        forwarder::lemma_forwarding_in_order(state, now, group_of, is_config);
        delivery::lemma_in_range(state.groups, next, now);
        delivery::lemma_taken_is_numbered(state.groups, next, now, group_of, is_config);
        if let Action::Packet { kypacket_seq, packet } = pending::spec_take(
            state.groups,
            next,
            now,
        ).1 {
            assert(hands_out(steps, n));
            assert(number(steps, n) == kypacket_seq);
        }
        run::lemma_take_kept(state.groups, next, now, group_of, is_config, before, more);
    }
}

proof fn lemma_in_run(
    packets: Seq<PacketView>,
    steps: Seq<Step>,
    source: spec_fn(int) -> int,
    n: int,
)
    requires
        is_run(packets, steps, source),
        0 <= n <= steps.len(),
    ensures
        in_run(packets, steps, source, n),
        n < steps.len() ==> goes_on(packets, steps, n),
    decreases n,
{
    if n > 0 {
        lemma_in_run(packets, steps, source, n - 1);
        if steps[n - 1] is Look {
            lemma_look_goes_on(packets, steps, source, n - 1);
        } else {
            lemma_message_goes_on(packets, steps, source, n - 1);
        }
    }
    if n < steps.len() {
        if steps[n] is Look {
            lemma_look_goes_on(packets, steps, source, n);
        } else {
            lemma_message_goes_on(packets, steps, source, n);
        }
    }
}

proof fn lemma_next_grows(
    packets: Seq<PacketView>,
    steps: Seq<Step>,
    source: spec_fn(int) -> int,
    m: int,
    n: int,
)
    requires
        is_run(packets, steps, source),
        0 <= m <= n <= steps.len(),
    ensures
        ran(steps, m).next_kypacket_seq <= ran(steps, n).next_kypacket_seq,
    decreases n - m,
{
    if m < n {
        lemma_next_grows(packets, steps, source, m, n - 1);
        lemma_in_run(packets, steps, source, n - 1);
    }
}

/// Every step of a run can be taken, and the forwarder stays well formed.
pub proof fn lemma_run_is_accepted(
    packets: Seq<PacketView>,
    steps: Seq<Step>,
    source: spec_fn(int) -> int,
    n: int,
)
    requires
        is_run(packets, steps, source),
        0 <= n < steps.len(),
    ensures
        ran(steps, n).wf(),
        steps[n].is_accepted(ran(steps, n)),
{
    lemma_in_run(packets, steps, source, n);
}

/// Packets reach the client by strictly increasing number: none twice, and none
/// after a later one.
pub proof fn lemma_numbers_increase(
    packets: Seq<PacketView>,
    steps: Seq<Step>,
    source: spec_fn(int) -> int,
    m: int,
    n: int,
)
    requires
        is_run(packets, steps, source),
        0 <= m < n < steps.len(),
        hands_out(steps, m),
        hands_out(steps, n),
    ensures
        number(steps, m) < number(steps, n),
{
    lemma_next_grows(packets, steps, source, m + 1, n);
    lemma_in_run(packets, steps, source, n);
}

/// A packet that is not a config packet reaches the client only after the config
/// packet of its group.
pub proof fn lemma_config_packet_comes_first(
    packets: Seq<PacketView>,
    steps: Seq<Step>,
    source: spec_fn(int) -> int,
    n: int,
)
    requires
        is_run(packets, steps, source),
        0 <= n < steps.len(),
        hands_out(steps, n),
        !numbering::packet_is_config(packets)(number(steps, n)),
    ensures
        ({
            let is_config = numbering::packet_is_config(packets);
            let group_of = numbering::group_of(is_config, -1);
            exists|m: int|
                0 <= m < n && #[trigger] hands_out(steps, m) && is_config(number(steps, m))
                    && group_of(number(steps, m)) == group_of(number(steps, n))
        }),
{
    lemma_in_run(packets, steps, source, n);
}

/// A codec packet goes to the client when it arrives, once, and changes nothing.
pub proof fn lemma_codec_packets_do_not_wait(steps: Seq<Step>, n: int)
    requires
        0 <= n < steps.len(),
    ensures
        steps[n] matches Step::Stream { packet, .. } ==> (packet is Codec ==> {
            &&& output(steps, n) == Some(packet.bytes())
            &&& ran(steps, n + 1) == ran(steps, n)
        }),
{
}

/// Messages carry what the sender sent: a stream message is its packet, and a
/// datagram is a symbol of its packet, which went in datagrams of size `size(k)`.
/// The decoder is right about the symbols so far, as the forwarder makes sure.
pub open spec fn is_faithful(
    packets: Seq<PacketView>,
    steps: Seq<Step>,
    source: spec_fn(int) -> int,
    size: spec_fn(int) -> usize,
) -> bool {
    &&& forall|k: int|
        0 <= k < packets.len() && !numbering::packet_is_config(packets)(k)
            ==> recovery::is_sent_in_datagrams(#[trigger] packets[k], size(k))
    &&& forall|n: int|
        0 <= n < steps.len() ==> match #[trigger] steps[n] {
            Step::Stream { packet, .. } => packet is Codec || packet == packets[source(n)],
            Step::Datagram { msg, .. } => {
                &&& recovery::parts_of(
                    packets[source(n)].bytes(),
                    size(source(n)),
                ).contains(msg.part)
                &&& ran(steps, n).assembly(msg) matches Some(assembly) ==> assembly.is_right()
            },
            _ => true,
        }
}

/// The packet that the sender gave this number, and an assembly of some of its
/// symbols.
spec fn sent_packets(packets: Seq<PacketView>, size: spec_fn(int) -> usize) -> Right<
    PacketView,
    FecView,
> {
    Right {
        packet: |seq: u64, packet: PacketView|
            seq < packets.len() && packet == packets[seq as int],
        assembly: |seq: u64, v: FecView|
            exists|order: Seq<int>| #[trigger]
                is_partial(packets[seq as int].bytes(), size(seq as int), order, v),
    }
}

/// The assembly holds some of the symbols, which have not given the packet yet.
spec fn is_partial(data: Seq<u8>, size: usize, order: Seq<int>, v: FecView) -> bool {
    &&& recovery::in_symbols(data, size, order)
    &&& v == recovery::fed(data, size, order)
    &&& v.decoded() is None
}

proof fn lemma_part_is_right(
    packets: Seq<PacketView>,
    size: spec_fn(int) -> usize,
    k: int,
    v: FecView,
    part: FecPartView,
)
    requires
        0 <= k < packets.len() < 0x8000_0000,
        recovery::is_sent_in_datagrams(packets[k], size(k)),
        recovery::parts_of(packets[k].bytes(), size(k)).contains(part),
        v == (FecView { config: raptor::canonical(part.oti), packets: Seq::empty() }) || (
        sent_packets(packets, size).assembly)(k as u64, v),
        v.can_add(part) ==> v.added(part).is_right(),
    ensures
        raptor::valid_config(part.oti),
        run::part_is_right::<DatagramSegments>(v, k as u64, part, sent_packets(packets, size)),
{
    let data = packets[k].bytes();
    let parts = recovery::parts_of(data, size(k));
    let i = choose|i: int| 0 <= i < parts.len() && parts[i] == part;
    let fresh = FecView { config: raptor::canonical(part.oti), packets: Seq::empty() };
    let order = if v == fresh {
        Seq::<int>::empty()
    } else {
        choose|order: Seq<int>| #[trigger] is_partial(data, size(k), order, v)
    };
    assert(recovery::fed(data, size(k), order) =~= v);
    assert(recovery::in_symbols(data, size(k), order.push(i)));
    recovery::lemma_symbol_is_added(packets[k], size(k), order, i);
    let w = v.added(part);
    if w.decoded() is None {
        assert(is_partial(data, size(k), order.push(i), w));
    }
}

proof fn lemma_run_is_right(
    packets: Seq<PacketView>,
    steps: Seq<Step>,
    source: spec_fn(int) -> int,
    size: spec_fn(int) -> usize,
    n: int,
)
    requires
        is_run(packets, steps, source),
        is_faithful(packets, steps, source, size),
        0 <= n <= steps.len(),
    ensures
        run::all_right(ran(steps, n).groups, sent_packets(packets, size)),
    decreases n,
{
    if n > 0 {
        lemma_run_is_right(packets, steps, source, size, n - 1);
        lemma_step_is_right(packets, steps, source, size, n - 1);
    }
}

proof fn lemma_datagram_is_right(
    packets: Seq<PacketView>,
    steps: Seq<Step>,
    source: spec_fn(int) -> int,
    size: spec_fn(int) -> usize,
    n: int,
)
    requires
        is_run(packets, steps, source),
        is_faithful(packets, steps, source, size),
        0 <= n < steps.len(),
        in_run(packets, steps, source, n),
        run::all_right(ran(steps, n).groups, sent_packets(packets, size)),
    ensures
        steps[n] matches Step::Datagram { msg, now } ==> {
            let (after, r) = ran(steps, n).on_datagram(msg, now);
            r is Ok && run::all_right(after.groups, sent_packets(packets, size))
        },
{
    let state = ran(steps, n);
    let right = sent_packets(packets, size);
    if let Step::Datagram { msg, now } = steps[n] {
        let k = source(n);
        let seq = k as u64;
        lemma_message_of_run(
            packets,
            steps,
            source,
            n,
            msg.raw_kypacket_seq,
            msg.raw_group_seq,
        );
        let seen = state.sequenced(msg.raw_kypacket_seq, msg.raw_group_seq);
        let group_seq = seen.last_group_seq as u64;
        if seen.last_kypacket_seq >= state.next_kypacket_seq {
            let group = pending::with_group(state.groups, group_seq)[pending::slot(
                pending::group_keys(state.groups),
                group_seq,
            )];
            let v = run::assembly_of::<DatagramSegments>(group, seq, msg.part);
            assert(recovery::is_sent_in_datagrams(packets[k], size(k)));
            run::lemma_assembly_of::<DatagramSegments>(
                state.groups,
                group_seq,
                seq,
                msg.part,
                right,
            );
            lemma_part_can_start(packets[k], size(k), msg.part);
            if !pending::found(group.datagram_keys(), seq) {
                assert(state.assembly(msg) == pending::assembly_after::<DatagramSegments>(
                    group,
                    seq,
                    msg.part,
                ));
                lemma_part_is_right(packets, size, k, v, msg.part);
            }
            run::lemma_with_datagram_right::<DatagramSegments>(
                state.groups,
                group_seq,
                seq,
                msg.part,
                now,
                right,
            );
        }
    }
}

#[verifier::rlimit(40)]
proof fn lemma_step_is_right(
    packets: Seq<PacketView>,
    steps: Seq<Step>,
    source: spec_fn(int) -> int,
    size: spec_fn(int) -> usize,
    n: int,
)
    requires
        is_run(packets, steps, source),
        is_faithful(packets, steps, source, size),
        0 <= n < steps.len(),
        run::all_right(ran(steps, n).groups, sent_packets(packets, size)),
    ensures
        run::all_right(ran(steps, n + 1).groups, sent_packets(packets, size)),
        steps[n] matches Step::Datagram { msg, now } ==> ran(steps, n).on_datagram(
            msg,
            now,
        ).1 is Ok,
        hands_out(steps, n) ==> 0 <= number(steps, n) < packets.len() && output(steps, n) == Some(
            packets[number(steps, n)].bytes(),
        ),
{
    let state = ran(steps, n);
    let right = sent_packets(packets, size);
    lemma_in_run(packets, steps, source, n);
    match steps[n] {
        Step::Stream { packet, raw_kypacket_seq, raw_group_seq } => {
            if packet is Media {
                lemma_message_of_run(packets, steps, source, n, raw_kypacket_seq, raw_group_seq);
                let seen = state.sequenced(raw_kypacket_seq, raw_group_seq);
                if seen.last_kypacket_seq >= state.next_kypacket_seq {
                    run::lemma_with_config_right(
                        state.groups,
                        seen.last_group_seq as u64,
                        StreamPacket { packet, kypacket_seq: seen.last_kypacket_seq as u64 },
                        right,
                    );
                }
            }
        },
        Step::Datagram { msg, now } => {
            lemma_datagram_is_right(packets, steps, source, size, n);
        },
        Step::Deadline => {},
        Step::Look { now } => {
            run::lemma_few_groups(state.groups, known(packets, steps, source, n));
            delivery::lemma_in_range(state.groups, state.next_kypacket_seq, now);
            run::lemma_take_right(state.groups, state.next_kypacket_seq, now, right);
        },
    }
}

proof fn lemma_part_can_start(packet: PacketView, size: usize, part: FecPartView)
    requires
        recovery::is_sent_in_datagrams(packet, size),
        recovery::parts_of(packet.bytes(), size).contains(part),
    ensures
        raptor::valid_config(part.oti),
{
}

/// The client gets the sender's packets: the one with number `s` is the one that the
/// sender sent as number `s`. No datagram that the sender sent is bad.
pub proof fn lemma_packets_come_back(
    packets: Seq<PacketView>,
    steps: Seq<Step>,
    source: spec_fn(int) -> int,
    size: spec_fn(int) -> usize,
    n: int,
)
    requires
        is_run(packets, steps, source),
        is_faithful(packets, steps, source, size),
        0 <= n < steps.len(),
    ensures
        steps[n] matches Step::Datagram { msg, now } ==> ran(steps, n).on_datagram(
            msg,
            now,
        ).1 is Ok,
        hands_out(steps, n) ==> 0 <= number(steps, n) < packets.len() && output(steps, n) == Some(
            packets[number(steps, n)].bytes(),
        ),
{
    lemma_run_is_right(packets, steps, source, size, n);
    lemma_step_is_right(packets, steps, source, size, n);
}

} // verus!
