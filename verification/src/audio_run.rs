//! Laws of a whole run of the audio receiver.
//!
//! One sender's messages arrive. Those over the stream come in order; datagrams are
//! lost, delayed, reordered or repeated at will.

use vstd::prelude::*;
use crate::audio_recv;
use crate::audio_recv::{EventView, MsgView, RecvView};
use crate::audio_unreliable;
use crate::audio_unreliable::{DatagramSegments, SegmentView, SegmentsView};
use crate::av;
use crate::av::AVPacketView;
use crate::delivery;
use crate::numbering;
use crate::pending;
use crate::pending::{Action, StreamPacket};
use crate::reassembly;
use crate::run;
use crate::run::{Known, Right};
use crate::sequencer;

verus! {

/// The receiver after the first `n` events, each at its time.
pub open spec fn ran(steps: Seq<(EventView, u64)>, n: int) -> RecvView
    decreases n,
{
    if n <= 0 {
        RecvView::initial()
    } else {
        ran(steps, n - 1).step(steps[n - 1].0, steps[n - 1].1).0
    }
}

/// What the receiver hands out on event `n`.
pub open spec fn output(steps: Seq<(EventView, u64)>, n: int) -> Option<AVPacketView> {
    match ran(steps, n).step(steps[n].0, steps[n].1).1 {
        Ok(packet) => packet,
        Err(_) => None,
    }
}

/// The event is a codec packet.
pub open spec fn is_codec(event: EventView) -> bool {
    event matches EventView::Message(MsgView::Stream { packet, .. }) && packet is Codec
}

/// The event is a config packet.
pub open spec fn is_config_message(event: EventView) -> bool {
    event matches EventView::Message(MsgView::Stream { packet, .. }) && packet is Media
}

/// Event `n` makes the receiver hand out a packet that bears a number.
pub open spec fn hands_out(steps: Seq<(EventView, u64)>, n: int) -> bool {
    output(steps, n) is Some && !is_codec(steps[n].0)
}

/// The number of the packet that event `n` makes the receiver hand out.
pub open spec fn number(steps: Seq<(EventView, u64)>, n: int) -> int {
    ran(steps, n + 1).next_kypacket_seq - 1
}

/// The events are codec packets, deadlines, and messages of the packets of one
/// sender, fewer than 2^31: event `n` is a message of packet `source(n)`. Config
/// packets come in order, each once.
pub open spec fn is_run(
    packets: Seq<AVPacketView>,
    steps: Seq<(EventView, u64)>,
    source: spec_fn(int) -> int,
) -> bool {
    &&& packets.len() < 0x8000_0000
    &&& forall|i: int| 0 <= i < packets.len() ==> (#[trigger] packets[i]) is Media
    &&& forall|n: int|
        0 <= n < steps.len() ==> {
            let (event, now) = #[trigger] steps[n];
            &&& now <= pending::MAX_INSTANT
            &&& event is Deadline || is_codec(event) || {
                &&& 0 <= source(n) < packets.len()
                &&& numbering::is_audio_message(packets, source(n), event)
            }
        }
    &&& forall|m: int, n: int|
        0 <= m < n < steps.len() && is_config_message((#[trigger] steps[m]).0)
            && is_config_message((#[trigger] steps[n]).0) ==> source(m) < source(n)
}

/// The config packet of a group was handed out before event `n`.
pub open spec fn config_sent(
    packets: Seq<AVPacketView>,
    steps: Seq<(EventView, u64)>,
    n: int,
) -> spec_fn(u64) -> bool {
    let is_config = numbering::av_is_config(packets);
    let group_of = numbering::group_of(is_config, 0);
    |group: u64|
        exists|m: int|
            0 <= m < n && #[trigger] hands_out(steps, m) && is_config(number(steps, m)) && group_of(
                number(steps, m),
            ) == group
}

/// The config packet of a group arrived before event `n`.
pub open spec fn config_came(
    packets: Seq<AVPacketView>,
    steps: Seq<(EventView, u64)>,
    source: spec_fn(int) -> int,
    n: int,
) -> spec_fn(u64) -> bool {
    let group_of = numbering::group_of(numbering::av_is_config(packets), 0);
    |group: u64|
        exists|m: int|
            0 <= m < n && is_config_message((#[trigger] steps[m]).0) && group_of(source(m)) == group
}

/// What is known of the receiver's groups: what was handed out before event `n`, and
/// what arrived before event `m`.
spec fn known(
    packets: Seq<AVPacketView>,
    steps: Seq<(EventView, u64)>,
    source: spec_fn(int) -> int,
    n: int,
    m: int,
) -> Known<AVPacketView> {
    Known {
        is_media: |packet: AVPacketView| packet is Media,
        sent: config_sent(packets, steps, n),
        came: config_came(packets, steps, source, m),
        most: packets.len() as int,
    }
}

/// What is known does not become less.
proof fn lemma_known_grows(
    packets: Seq<AVPacketView>,
    steps: Seq<(EventView, u64)>,
    source: spec_fn(int) -> int,
    n: int,
)
    ensures
        run::grows(known(packets, steps, source, n, n), known(packets, steps, source, n, n + 1)),
        run::grows(
            known(packets, steps, source, n, n + 1),
            known(packets, steps, source, n + 1, n + 1),
        ),
{
    let is_config = numbering::av_is_config(packets);
    let group_of = numbering::group_of(is_config, 0);
    let sent = config_sent(packets, steps, n);
    let more_sent = config_sent(packets, steps, n + 1);
    let came = config_came(packets, steps, source, n);
    let more_came = config_came(packets, steps, source, n + 1);
    assert forall|g: u64| #[trigger] sent(g) implies more_sent(g) by {
        let m = choose|m: int|
            0 <= m < n && #[trigger] hands_out(steps, m) && is_config(number(steps, m)) && group_of(
                number(steps, m),
            ) == g;
        assert(hands_out(steps, m));
    }
    assert forall|g: u64| #[trigger] came(g) implies more_came(g) by {
        let m = choose|m: int|
            0 <= m < n && is_config_message((#[trigger] steps[m]).0) && group_of(source(m)) == g;
        assert(is_config_message(steps[m].0));
    }
}

/// What holds of the receiver during a run.
spec fn in_run(
    packets: Seq<AVPacketView>,
    steps: Seq<(EventView, u64)>,
    source: spec_fn(int) -> int,
    n: int,
) -> bool {
    let state = ran(steps, n);
    let is_config = numbering::av_is_config(packets);
    let group_of = numbering::group_of(is_config, 0);
    &&& state.wf()
    &&& state.last_kypacket_seq < 0x8000_0000
    &&& state.last_group_seq < 0x8000_0000
    &&& delivery::follows(state.groups, state.next_kypacket_seq as int, group_of, is_config)
    &&& run::kept(state.groups, known(packets, steps, source, n, n))
}

/// What event `n` does, as far as the order of a run is concerned.
spec fn goes_on(packets: Seq<AVPacketView>, steps: Seq<(EventView, u64)>, n: int) -> bool {
    let is_config = numbering::av_is_config(packets);
    let group_of = numbering::group_of(is_config, 0);
    &&& ran(steps, n).accepts(steps[n].0)
    &&& ran(steps, n + 1).next_kypacket_seq >= ran(steps, n).next_kypacket_seq
    &&& is_codec(steps[n].0) ==> {
        &&& output(steps, n) == Some(steps[n].0->Message_0->packet)
        &&& ran(steps, n + 1) == ran(steps, n)
    }
    &&& hands_out(steps, n) ==> {
        &&& output(steps, n).unwrap() is Media
        &&& ran(steps, n + 1).next_kypacket_seq > ran(steps, n).next_kypacket_seq
        &&& !is_config(number(steps, n)) ==> config_sent(packets, steps, n)(
            group_of(number(steps, n)) as u64,
        ) && 0 <= group_of(number(steps, n)) <= u64::MAX
    }
}

proof fn lemma_event_of_run(
    packets: Seq<AVPacketView>,
    steps: Seq<(EventView, u64)>,
    source: spec_fn(int) -> int,
    n: int,
)
    requires
        is_run(packets, steps, source),
        0 <= n < steps.len(),
        in_run(packets, steps, source, n),
    ensures
        ({
            let state = ran(steps, n);
            let event = steps[n].0;
            let is_config = numbering::av_is_config(packets);
            let group_of = numbering::group_of(is_config, 0);
            &&& delivery::is_numbering(group_of, is_config)
            &&& audio_recv::is_of(state, event, group_of, is_config)
            &&& state.accepts(event)
            &&& event matches EventView::Message(msg) ==> is_codec(event) || {
                let seen = match msg {
                    MsgView::Stream { raw_kypacket_seq, raw_group_seq, .. } => state.sequenced(
                        raw_kypacket_seq,
                        raw_group_seq,
                    ),
                    MsgView::Datagram { raw_kypacket_seq, raw_group_seq, .. } => state.sequenced(
                        raw_kypacket_seq,
                        raw_group_seq,
                    ),
                };
                &&& seen.last_kypacket_seq == source(n)
                &&& seen.last_group_seq == group_of(source(n))
                &&& 0 <= group_of(source(n)) <= packets.len()
            }
        }),
{
    let state = ran(steps, n);
    let event = steps[n].0;
    let is_config = numbering::av_is_config(packets);
    let group_of = numbering::group_of(is_config, 0);
    numbering::lemma_counting_is_numbering(is_config, 0);
    if event is Message && !is_codec(event) {
        let k = source(n);
        numbering::lemma_count_within(is_config, k + 1);
        numbering::lemma_audio_messages_are_of_numbering(packets, k, state, event);
        numbering::lemma_audio_sender_counts(packets, k);
        numbering::lemma_audio_sender_counts(packets, k + 1);
        sequencer::lemma_unwrapped_follows(state.last_kypacket_seq, k);
        sequencer::lemma_unwrapped_follows(state.last_group_seq, group_of(k));
        if is_config_message(event) {
            let group_seq = group_of(k) as u64;
            pending::lemma_with_group(state.groups, group_seq);
            let keys = pending::group_keys(state.groups);
            let at = pending::slot(keys, group_seq);
            let group = pending::with_group(state.groups, group_seq)[at];
            if !(group.config_packet is Absent) {
                assert(group == state.groups[at]);
                assert(run::group_kept(group, known(packets, steps, source, n, n)));
                assert(config_came(packets, steps, source, n)(group_seq));
                let m = choose|m: int|
                    0 <= m < n && is_config_message((#[trigger] steps[m]).0) && group_of(source(m))
                        == group_seq;
                assert(source(m) < source(n));
                assert(is_config(source(n)));
                assert(group_of(source(m)) < group_of(source(n)));
            }
        }
    }
}

/// The receiver once it has taken an event in, and whether it then looks for the
/// next packet.
spec fn taken_in(state: RecvView, event: EventView, now: u64) -> (RecvView, bool) {
    match event {
        EventView::Message(
            MsgView::Stream { packet, raw_kypacket_seq, raw_group_seq },
        ) => if packet is Codec {
            (state, false)
        } else {
            let seen = state.sequenced(raw_kypacket_seq, raw_group_seq);
            if seen.last_kypacket_seq >= state.next_kypacket_seq {
                let packet = StreamPacket { packet, kypacket_seq: seen.last_kypacket_seq as u64 };
                (
                    RecvView {
                        groups: pending::with_config(
                            state.groups,
                            seen.last_group_seq as u64,
                            packet,
                        ),
                        ..seen
                    },
                    true,
                )
            } else {
                (seen, true)
            }
        },
        EventView::Message(MsgView::Datagram { part, raw_kypacket_seq, raw_group_seq }) => {
            let seen = state.sequenced(raw_kypacket_seq, raw_group_seq);
            if seen.last_kypacket_seq < state.next_kypacket_seq {
                (seen, false)
            } else {
                let (groups, good) = pending::with_datagram_in::<DatagramSegments>(
                    state.groups,
                    seen.last_group_seq as u64,
                    seen.last_kypacket_seq as u64,
                    part,
                    now,
                );
                (RecvView { groups, ..seen }, good)
            }
        },
        EventView::Deadline => (state, true),
    }
}

proof fn lemma_step_is_look(state: RecvView, event: EventView, now: u64)
    ensures
        ({
            let (look, looks) = taken_in(state, event, now);
            let (after, r) = state.step(event, now);
            &&& look.next_kypacket_seq == state.next_kypacket_seq
            &&& after == if looks {
                look.taken(now).0
            } else {
                look
            }
            &&& looks ==> r == Ok::<_, pending::BadDatagram>(look.taken(now).1)
            &&& !looks && !is_codec(event) ==> !(r matches Ok(Some(_)))
        }),
{
}

proof fn lemma_taken_in(
    packets: Seq<AVPacketView>,
    steps: Seq<(EventView, u64)>,
    source: spec_fn(int) -> int,
    n: int,
)
    requires
        is_run(packets, steps, source),
        0 <= n < steps.len(),
        in_run(packets, steps, source, n),
    ensures
        ({
            let state = ran(steps, n);
            let look = taken_in(state, steps[n].0, steps[n].1).0;
            let is_config = numbering::av_is_config(packets);
            let group_of = numbering::group_of(is_config, 0);
            &&& look.wf()
            &&& look.last_kypacket_seq < 0x8000_0000
            &&& look.last_group_seq < 0x8000_0000
            &&& delivery::follows(
                look.groups,
                look.next_kypacket_seq as int,
                group_of,
                is_config,
            )
            &&& run::kept(look.groups, known(packets, steps, source, n, n + 1))
        }),
{
    let state = ran(steps, n);
    let (event, now) = steps[n];
    let is_config = numbering::av_is_config(packets);
    let group_of = numbering::group_of(is_config, 0);
    let more = known(packets, steps, source, n, n + 1);
    lemma_event_of_run(packets, steps, source, n);
    lemma_known_grows(packets, steps, source, n);
    run::lemma_kept_grows(state.groups, known(packets, steps, source, n, n), more);
    match event {
        EventView::Message(MsgView::Stream { packet, raw_kypacket_seq, raw_group_seq }) => {
            let seen = state.sequenced(raw_kypacket_seq, raw_group_seq);
            if packet is Media && seen.last_kypacket_seq >= state.next_kypacket_seq {
                let group_seq = seen.last_group_seq as u64;
                let packet = StreamPacket { packet, kypacket_seq: seen.last_kypacket_seq as u64 };
                assert(is_config_message(steps[n].0));
                assert((more.came)(group_seq));
                run::lemma_with_config_kept(state.groups, group_seq, packet, more);
                delivery::lemma_with_config_kept(state.groups, group_seq, packet);
                delivery::lemma_config_packet_fits(
                    state.groups,
                    state.next_kypacket_seq as int,
                    group_seq,
                    packet,
                    group_of,
                    is_config,
                );
            }
        },
        EventView::Message(MsgView::Datagram { part, raw_kypacket_seq, raw_group_seq }) => {
            let seen = state.sequenced(raw_kypacket_seq, raw_group_seq);
            let group_seq = seen.last_group_seq as u64;
            let kypacket_seq = seen.last_kypacket_seq as u64;
            if seen.last_kypacket_seq >= state.next_kypacket_seq {
                run::lemma_with_datagram_kept::<DatagramSegments>(
                    state.groups,
                    group_seq,
                    kypacket_seq,
                    part,
                    now,
                    more,
                );
                pending::lemma_with_datagram_wf::<DatagramSegments>(
                    state.groups,
                    group_seq,
                    kypacket_seq,
                    part,
                    now,
                );
                delivery::lemma_datagram_in_range::<DatagramSegments>(
                    state.groups,
                    group_seq,
                    kypacket_seq,
                    part,
                    now,
                );
                delivery::lemma_datagram_fits::<DatagramSegments>(
                    state.groups,
                    state.next_kypacket_seq as int,
                    group_seq,
                    kypacket_seq,
                    part,
                    now,
                    group_of,
                    is_config,
                );
            }
        },
        EventView::Deadline => {},
    }
}

#[verifier::rlimit(40)]
proof fn lemma_run_goes_on(
    packets: Seq<AVPacketView>,
    steps: Seq<(EventView, u64)>,
    source: spec_fn(int) -> int,
    n: int,
)
    requires
        is_run(packets, steps, source),
        0 <= n < steps.len(),
        in_run(packets, steps, source, n),
    ensures
        in_run(packets, steps, source, n + 1),
        goes_on(packets, steps, n),
{
    let state = ran(steps, n);
    let (event, now) = steps[n];
    let is_config = numbering::av_is_config(packets);
    let group_of = numbering::group_of(is_config, 0);
    let before = known(packets, steps, source, n, n + 1);
    let more = known(packets, steps, source, n + 1, n + 1);
    let after = ran(steps, n + 1);
    let (look, looks) = taken_in(state, event, now);
    lemma_event_of_run(packets, steps, source, n);
    run::lemma_few_groups(state.groups, known(packets, steps, source, n, n));
    audio_recv::lemma_process_in_order(state, event, now, group_of, is_config);
    lemma_step_is_look(state, event, now);
    lemma_taken_in(packets, steps, source, n);
    lemma_known_grows(packets, steps, source, n);
    if looks {
        run::lemma_few_groups(look.groups, before);
        delivery::lemma_in_range(look.groups, look.next_kypacket_seq, now);
        let action = pending::spec_take(look.groups, look.next_kypacket_seq, now).1;
        if let Action::Packet { kypacket_seq, packet } = action {
            let seq = kypacket_seq as int;
            delivery::lemma_taken_is_numbered(
                look.groups,
                look.next_kypacket_seq,
                now,
                group_of,
                is_config,
            );
            assert(hands_out(steps, n));
            assert(number(steps, n) == seq);
        }
        run::lemma_take_kept(
            look.groups,
            look.next_kypacket_seq,
            now,
            group_of,
            is_config,
            before,
            more,
        );
    } else {
        run::lemma_kept_grows(after.groups, before, more);
    }
}

proof fn lemma_in_run(
    packets: Seq<AVPacketView>,
    steps: Seq<(EventView, u64)>,
    source: spec_fn(int) -> int,
    n: int,
)
    requires
        is_run(packets, steps, source),
        0 <= n <= steps.len(),
    ensures
        in_run(packets, steps, source, n),
        n < steps.len() ==> goes_on(packets, steps, n),
    decreases n,
{
    if n > 0 {
        lemma_in_run(packets, steps, source, n - 1);
        lemma_run_goes_on(packets, steps, source, n - 1);
    }
    if n < steps.len() {
        lemma_run_goes_on(packets, steps, source, n);
    }
}

proof fn lemma_next_grows(
    packets: Seq<AVPacketView>,
    steps: Seq<(EventView, u64)>,
    source: spec_fn(int) -> int,
    m: int,
    n: int,
)
    requires
        is_run(packets, steps, source),
        0 <= m <= n <= steps.len(),
    ensures
        ran(steps, m).next_kypacket_seq <= ran(steps, n).next_kypacket_seq,
    decreases n - m,
{
    if m < n {
        lemma_next_grows(packets, steps, source, m, n - 1);
        lemma_in_run(packets, steps, source, n - 1);
    }
}

/// Every event of a run can be taken, and the receiver stays well formed.
pub proof fn lemma_run_is_accepted(
    packets: Seq<AVPacketView>,
    steps: Seq<(EventView, u64)>,
    source: spec_fn(int) -> int,
    n: int,
)
    requires
        is_run(packets, steps, source),
        0 <= n < steps.len(),
    ensures
        ran(steps, n).wf(),
        ran(steps, n).accepts(steps[n].0),
{
    lemma_in_run(packets, steps, source, n);
}

/// A codec packet is handed out exactly once, when it arrives, without waiting for
/// anything and with nothing changed; no other event makes the receiver hand out a
/// codec packet.
pub proof fn lemma_codec_packets_do_not_wait(
    packets: Seq<AVPacketView>,
    steps: Seq<(EventView, u64)>,
    source: spec_fn(int) -> int,
    n: int,
)
    requires
        is_run(packets, steps, source),
        0 <= n < steps.len(),
    ensures
        is_codec(steps[n].0) ==> {
            &&& output(steps, n) == Some(steps[n].0->Message_0->packet)
            &&& ran(steps, n + 1) == ran(steps, n)
        },
        output(steps, n) matches Some(packet) ==> (packet is Codec <==> is_codec(steps[n].0)),
{
    lemma_in_run(packets, steps, source, n);
}

/// The other packets are handed out by strictly increasing number: none twice, and
/// none after a later one.
pub proof fn lemma_numbers_increase(
    packets: Seq<AVPacketView>,
    steps: Seq<(EventView, u64)>,
    source: spec_fn(int) -> int,
    m: int,
    n: int,
)
    requires
        is_run(packets, steps, source),
        0 <= m < n < steps.len(),
        hands_out(steps, m),
        hands_out(steps, n),
    ensures
        number(steps, m) < number(steps, n),
{
    lemma_next_grows(packets, steps, source, m + 1, n);
    lemma_in_run(packets, steps, source, n);
}

/// A packet that is not a config packet is handed out only after the config packet
/// of its group.
pub proof fn lemma_config_packet_comes_first(
    packets: Seq<AVPacketView>,
    steps: Seq<(EventView, u64)>,
    source: spec_fn(int) -> int,
    n: int,
)
    requires
        is_run(packets, steps, source),
        0 <= n < steps.len(),
        hands_out(steps, n),
        !numbering::av_is_config(packets)(number(steps, n)),
    ensures
        ({
            let is_config = numbering::av_is_config(packets);
            let group_of = numbering::group_of(is_config, 0);
            exists|m: int|
                0 <= m < n && #[trigger] hands_out(steps, m) && is_config(number(steps, m))
                    && group_of(number(steps, m)) == group_of(number(steps, n))
        }),
{
    lemma_in_run(packets, steps, source, n);
}

/// Messages carry what the sender sent: a stream message is its packet, and a
/// datagram is one of the parts that its packet was cut into, wherever it was cut.
pub open spec fn is_faithful(
    packets: Seq<AVPacketView>,
    steps: Seq<(EventView, u64)>,
    source: spec_fn(int) -> int,
    parts: spec_fn(int) -> Seq<SegmentView>,
) -> bool {
    &&& forall|k: int|
        0 <= k < packets.len() ==> {
            &&& (#[trigger] packets[k]) matches AVPacketView::Media { header, .. } && header.wf()
            &&& av::packet_bytes(packets[k]).len() <= isize::MAX
            &&& reassembly::is_cut(parts(k), av::packet_bytes(packets[k]))
            &&& parts(k).len() <= audio_unreliable::MAX_DATAGRAMS
        }
    &&& forall|n: int|
        0 <= n < steps.len() ==> match (#[trigger] steps[n]).0 {
            EventView::Message(MsgView::Stream { packet, .. }) => packet is Codec || packet
                == packets[source(n)],
            EventView::Message(MsgView::Datagram { part, .. }) => parts(source(n)).contains(part),
            EventView::Deadline => true,
        }
}

/// The packet that the sender gave this number, and an assembly of some of its parts.
spec fn sent_packets(
    packets: Seq<AVPacketView>,
    parts: spec_fn(int) -> Seq<SegmentView>,
) -> Right<AVPacketView, SegmentsView> {
    Right {
        packet: |seq: u64, packet: AVPacketView|
            seq < packets.len() && packet == packets[seq as int],
        assembly: |seq: u64, v: SegmentsView|
            exists|order: Seq<int>| #[trigger] is_partial(parts(seq as int), order, v),
    }
}

/// The assembly holds some of the parts, not all.
spec fn is_partial(parts: Seq<SegmentView>, order: Seq<int>, v: SegmentsView) -> bool {
    &&& reassembly::in_parts(parts, order)
    &&& !reassembly::covers(parts, order)
    &&& v == reassembly::fed(parts, order)
}

proof fn lemma_part_is_right(
    packets: Seq<AVPacketView>,
    parts: spec_fn(int) -> Seq<SegmentView>,
    k: int,
    v: SegmentsView,
    part: SegmentView,
)
    requires
        0 <= k < packets.len() < 0x8000_0000,
        packets[k] matches AVPacketView::Media { header, .. } && header.wf(),
        av::packet_bytes(packets[k]).len() <= isize::MAX,
        reassembly::is_cut(parts(k), av::packet_bytes(packets[k])),
        parts(k).len() <= audio_unreliable::MAX_DATAGRAMS,
        parts(k).contains(part),
        v == SegmentsView::empty() || (sent_packets(packets, parts).assembly)(k as u64, v),
    ensures
        run::part_is_right::<DatagramSegments>(v, k as u64, part, sent_packets(packets, parts)),
{
    let pieces = parts(k);
    let data = av::packet_bytes(packets[k]);
    let i = choose|i: int| 0 <= i < pieces.len() && pieces[i] == part;
    let order = if v == SegmentsView::empty() {
        Seq::<int>::empty()
    } else {
        choose|order: Seq<int>| #[trigger] is_partial(pieces, order, v)
    };
    assert(v == reassembly::fed(pieces, order));
    assert(pieces[i].datagram_number == i);
    let next = order.push(i);
    assert(next.drop_last() =~= order);
    assert(reassembly::in_parts(pieces, next));
    reassembly::lemma_segments_in_any_order(data, pieces, order, i);
    reassembly::lemma_segments_in_any_order(data, pieces, next, i);
    let w = v.set(part);
    assert(w == reassembly::fed(pieces, next));
    if w.is_complete() {
        reassembly::lemma_packet_roundtrip(packets[k], pieces, next);
    } else {
        assert(is_partial(pieces, next, w));
    }
}

proof fn lemma_run_is_right(
    packets: Seq<AVPacketView>,
    steps: Seq<(EventView, u64)>,
    source: spec_fn(int) -> int,
    parts: spec_fn(int) -> Seq<SegmentView>,
    n: int,
)
    requires
        is_run(packets, steps, source),
        is_faithful(packets, steps, source, parts),
        0 <= n <= steps.len(),
    ensures
        run::all_right(ran(steps, n).groups, sent_packets(packets, parts)),
    decreases n,
{
    if n > 0 {
        lemma_run_is_right(packets, steps, source, parts, n - 1);
        lemma_step_is_right(packets, steps, source, parts, n - 1);
    }
}

#[verifier::rlimit(40)]
proof fn lemma_step_is_right(
    packets: Seq<AVPacketView>,
    steps: Seq<(EventView, u64)>,
    source: spec_fn(int) -> int,
    parts: spec_fn(int) -> Seq<SegmentView>,
    n: int,
)
    requires
        is_run(packets, steps, source),
        is_faithful(packets, steps, source, parts),
        0 <= n < steps.len(),
        run::all_right(ran(steps, n).groups, sent_packets(packets, parts)),
    ensures
        run::all_right(ran(steps, n + 1).groups, sent_packets(packets, parts)),
        ran(steps, n).step(steps[n].0, steps[n].1).1 is Ok,
        hands_out(steps, n) ==> 0 <= number(steps, n) < packets.len() && output(steps, n) == Some(
            packets[number(steps, n)],
        ),
{
    let state = ran(steps, n);
    let (event, now) = steps[n];
    let right = sent_packets(packets, parts);
    let (look, looks) = taken_in(state, event, now);
    lemma_in_run(packets, steps, source, n);
    lemma_event_of_run(packets, steps, source, n);
    lemma_taken_in(packets, steps, source, n);
    lemma_step_is_look(state, event, now);
    match event {
        EventView::Message(MsgView::Stream { packet, raw_kypacket_seq, raw_group_seq }) => {
            let seen = state.sequenced(raw_kypacket_seq, raw_group_seq);
            if packet is Media && seen.last_kypacket_seq >= state.next_kypacket_seq {
                run::lemma_with_config_right(
                    state.groups,
                    seen.last_group_seq as u64,
                    StreamPacket { packet, kypacket_seq: seen.last_kypacket_seq as u64 },
                    right,
                );
            }
        },
        EventView::Message(MsgView::Datagram { part, raw_kypacket_seq, raw_group_seq }) => {
            let k = source(n);
            let seen = state.sequenced(raw_kypacket_seq, raw_group_seq);
            let group_seq = seen.last_group_seq as u64;
            if seen.last_kypacket_seq >= state.next_kypacket_seq {
                assert(packets[k] is Media);
                run::lemma_assembly_of::<DatagramSegments>(
                    state.groups,
                    group_seq,
                    k as u64,
                    part,
                    right,
                );
                let group = pending::with_group(state.groups, group_seq)[pending::slot(
                    pending::group_keys(state.groups),
                    group_seq,
                )];
                let v = run::assembly_of::<DatagramSegments>(group, k as u64, part);
                lemma_part_is_right(packets, parts, k, v, part);
                run::lemma_with_datagram_right::<DatagramSegments>(
                    state.groups,
                    group_seq,
                    k as u64,
                    part,
                    now,
                    right,
                );
            }
        },
        EventView::Deadline => {},
    }
    if looks {
        run::lemma_few_groups(look.groups, known(packets, steps, source, n, n + 1));
        delivery::lemma_in_range(look.groups, look.next_kypacket_seq, now);
        run::lemma_take_right(look.groups, look.next_kypacket_seq, now, right);
    }
}

/// The receiver hands out the sender's packets: the one with number `s` is the one
/// that the sender sent as number `s`. No message that the sender sent is bad.
pub proof fn lemma_packets_come_back(
    packets: Seq<AVPacketView>,
    steps: Seq<(EventView, u64)>,
    source: spec_fn(int) -> int,
    parts: spec_fn(int) -> Seq<SegmentView>,
    n: int,
)
    requires
        is_run(packets, steps, source),
        is_faithful(packets, steps, source, parts),
        0 <= n < steps.len(),
    ensures
        ran(steps, n).step(steps[n].0, steps[n].1).1 is Ok,
        hands_out(steps, n) ==> 0 <= number(steps, n) < packets.len() && output(steps, n) == Some(
            packets[number(steps, n)],
        ),
{
    lemma_run_is_right(packets, steps, source, parts, n);
    lemma_step_is_right(packets, steps, source, parts, n);
}

} // verus!
