//! Laws of the numbers that senders give to packets: they are the numbering that
//! receivers rely on, modulo 2^32.

use vstd::prelude::*;
use crate::audio_recv;
use crate::audio_recv::{EventView, MsgView, RecvView};
use crate::audio_unreliable::AudioUnreliableProtocolSendDriver;
use crate::av::AVPacketView;
use crate::delivery;
use crate::fec::Sender;
use crate::forwarder::ForwarderView;
use crate::kypacket::PacketView;
use crate::sequencer;

verus! {

/// How many of the first `n` packets are config packets.
pub open spec fn count_configs(is_config: spec_fn(int) -> bool, n: int) -> int
    decreases n,
{
    if n <= 0 {
        0
    } else {
        count_configs(is_config, n - 1) + if is_config(n - 1) {
            1int
        } else {
            0
        }
    }
}

/// The packet is a config packet.
pub open spec fn av_is_config(packets: Seq<AVPacketView>) -> spec_fn(int) -> bool {
    |n: int|
        0 <= n < packets.len() && (packets[n] matches AVPacketView::Media { header, .. }
            && header.is_config)
}

/// The packet is a config packet.
pub open spec fn packet_is_config(packets: Seq<PacketView>) -> spec_fn(int) -> bool {
    |n: int|
        0 <= n < packets.len() && (packets[n] matches PacketView::Media { header, .. }
            && header.is_config)
}

/// The group of a packet: a config packet is the first of its group, and the
/// groups are counted from `first`.
pub open spec fn group_of(is_config: spec_fn(int) -> bool, first: int) -> spec_fn(int) -> int {
    |n: int| first + count_configs(is_config, n + 1)
}

proof fn lemma_count_grows(is_config: spec_fn(int) -> bool, m: int, n: int)
    requires
        m <= n,
    ensures
        count_configs(is_config, m) <= count_configs(is_config, n),
        0 <= count_configs(is_config, n),
    decreases n - m, n,
{
    if m < n {
        lemma_count_grows(is_config, m, n - 1);
    } else if n > 0 {
        lemma_count_grows(is_config, n - 1, n - 1);
    }
}

/// There are no more config packets than packets.
pub proof fn lemma_count_within(is_config: spec_fn(int) -> bool, n: int)
    requires
        0 <= n,
    ensures
        0 <= count_configs(is_config, n) <= n,
    decreases n,
{
    if n > 0 {
        lemma_count_within(is_config, n - 1);
    }
}

/// Once the first packet is a config packet, there is one.
pub proof fn lemma_count_from_config(is_config: spec_fn(int) -> bool, n: int)
    requires
        1 <= n,
        is_config(0),
    ensures
        1 <= count_configs(is_config, n),
{
    lemma_count_grows(is_config, 1, n);
    assert(count_configs(is_config, 1) == count_configs(is_config, 0) + 1);
}

/// Counting packets and, for groups, config packets gives a numbering that
/// packets can be delivered by.
pub proof fn lemma_counting_is_numbering(is_config: spec_fn(int) -> bool, first: int)
    requires
        forall|n: int| n < 0 ==> !#[trigger] is_config(n),
    ensures
        delivery::is_numbering(group_of(is_config, first), is_config),
{
    let group = group_of(is_config, first);
    assert forall|s: int, t: int|
        #![trigger group(s), group(t)]
        s < t implies group(s) <= group(t) by {
        lemma_count_grows(is_config, s + 1, t + 1);
    }
    assert forall|s: int, t: int|
        #![trigger group(s), is_config(t)]
        s < t && is_config(t) implies group(s) < group(t) by {
        assert(t >= 0);
        lemma_count_grows(is_config, s + 1, t);
    }
}

/// The audio sender after the first `n` packets.
pub open spec fn audio_sent(packets: Seq<AVPacketView>, n: int) -> AudioUnreliableProtocolSendDriver
    decreases n,
{
    if n <= 0 {
        AudioUnreliableProtocolSendDriver { kypacket_seq: 0, group_seq: 0 }
    } else {
        audio_sent(packets, n - 1).after(packets[n - 1])
    }
}

/// The audio sender numbers media packets as they are counted, and gives each
/// the number of the config packets so far as its group.
pub proof fn lemma_audio_sender_counts(packets: Seq<AVPacketView>, n: int)
    requires
        0 <= n <= packets.len(),
        forall|i: int| 0 <= i < packets.len() ==> (#[trigger] packets[i]) is Media,
    ensures
        audio_sent(packets, n).kypacket_seq == n % 0x1_0000_0000,
        audio_sent(packets, n).group_seq == count_configs(av_is_config(packets), n)
            % 0x1_0000_0000,
    decreases n,
{
    if n > 0 {
        lemma_audio_sender_counts(packets, n - 1);
        lemma_count_grows(av_is_config(packets), 0, n - 1);
    }
}

/// The video sender after the first `n` packets.
pub open spec fn video_sent(packets: Seq<PacketView>, n: int) -> Sender
    decreases n,
{
    if n <= 0 {
        Sender { kypacket_seq: 0, group_seq: u32::MAX }
    } else {
        video_sent(packets, n - 1).after(packets[n - 1])
    }
}

/// The video sender numbers media packets as they are counted, and counts groups
/// from zero.
pub proof fn lemma_video_sender_counts(packets: Seq<PacketView>, n: int)
    requires
        0 <= n <= packets.len(),
        forall|i: int| 0 <= i < packets.len() ==> (#[trigger] packets[i]) is Media,
    ensures
        video_sent(packets, n).kypacket_seq == n % 0x1_0000_0000,
        video_sent(packets, n).group_seq == (count_configs(packet_is_config(packets), n) - 1)
            % 0x1_0000_0000,
    decreases n,
{
    if n > 0 {
        lemma_video_sender_counts(packets, n - 1);
        lemma_count_grows(packet_is_config(packets), 0, n - 1);
    }
}

/// The numbers are less than 2^31 apart.
pub open spec fn near(last: int, seq: int) -> bool {
    last - 0x8000_0000 <= seq < last + 0x8000_0000
}

/// The event is a message of the `n`th packet: it bears the number and the group
/// that the audio sender gave to it, and comes over the stream exactly if it is a
/// config packet.
pub open spec fn is_audio_message(
    packets: Seq<AVPacketView>,
    n: int,
    event: EventView,
) -> bool {
    let number = audio_sent(packets, n).kypacket_seq;
    let group = audio_sent(packets, n + 1).group_seq;
    match event {
        EventView::Message(MsgView::Stream { raw_kypacket_seq, raw_group_seq, .. }) => {
            raw_kypacket_seq == number && raw_group_seq == group && av_is_config(packets)(n)
        },
        EventView::Message(MsgView::Datagram { raw_kypacket_seq, raw_group_seq, .. }) => {
            raw_kypacket_seq == number && raw_group_seq == group && !av_is_config(packets)(n)
        },
        EventView::Deadline => false,
    }
}

/// The audio receiver takes the messages of a sender for what they are, however
/// often the numbers have wrapped around, as long as no message comes with a
/// number 2^31 away from that of the message before.
pub proof fn lemma_audio_messages_are_of_numbering(
    packets: Seq<AVPacketView>,
    n: int,
    state: RecvView,
    event: EventView,
)
    requires
        0 <= n < packets.len(),
        forall|i: int| 0 <= i < packets.len() ==> (#[trigger] packets[i]) is Media,
        state.wf(),
        is_audio_message(packets, n, event),
        near(state.last_kypacket_seq, n),
        near(state.last_group_seq, count_configs(av_is_config(packets), n + 1)),
    ensures
        delivery::is_numbering(group_of(av_is_config(packets), 0), av_is_config(packets)),
        audio_recv::is_of(
            state,
            event,
            group_of(av_is_config(packets), 0),
            av_is_config(packets),
        ),
{
    let is_config = av_is_config(packets);
    lemma_counting_is_numbering(is_config, 0);
    lemma_audio_sender_counts(packets, n);
    lemma_audio_sender_counts(packets, n + 1);
    lemma_count_grows(is_config, 0, n + 1);
    sequencer::lemma_unwrapped_follows(state.last_kypacket_seq, n);
    sequencer::lemma_unwrapped_follows(state.last_group_seq, count_configs(is_config, n + 1));
}

/// The forwarder takes the numbers of a message of the `n`th packet for what they
/// are, however often they have wrapped around, as long as no message comes with
/// a number 2^31 away from that of the message before. The first packet has to be
/// a config packet, or there is no group.
pub proof fn lemma_video_messages_are_of_numbering(
    packets: Seq<PacketView>,
    n: int,
    state: ForwarderView,
)
    requires
        0 <= n < packets.len(),
        forall|i: int| 0 <= i < packets.len() ==> (#[trigger] packets[i]) is Media,
        packet_is_config(packets)(0),
        state.wf(),
        near(state.last_kypacket_seq, n),
        near(state.last_group_seq, count_configs(packet_is_config(packets), n + 1) - 1),
    ensures
        delivery::is_numbering(group_of(packet_is_config(packets), -1), packet_is_config(packets)),
        ({
            let seen = state.sequenced(
                video_sent(packets, n).kypacket_seq,
                video_sent(packets, n + 1).group_seq,
            );
            &&& seen.last_kypacket_seq == n
            &&& seen.last_group_seq == group_of(packet_is_config(packets), -1)(n)
        }),
{
    let is_config = packet_is_config(packets);
    lemma_counting_is_numbering(is_config, -1);
    lemma_video_sender_counts(packets, n);
    lemma_video_sender_counts(packets, n + 1);
    lemma_count_grows(is_config, 1, n + 1);
    assert(count_configs(is_config, 1) == count_configs(is_config, 0) + 1);
    sequencer::lemma_unwrapped_follows(state.last_kypacket_seq, n);
    sequencer::lemma_unwrapped_follows(state.last_group_seq, count_configs(is_config, n + 1) - 1);
}

} // verus!
