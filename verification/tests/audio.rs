use bytes::Bytes;
use kymux::audio_recv::{
    parse_datagram, parse_stream_seqs, stream_msg, AudioUnreliableProtocolRecvDriver, Event,
    RecvMsg, StreamMsg,
};
use kymux::audio_unreliable::{AudioUnreliableProtocolSendDriver, DatagramSegments, Outgoing, Segment};
use kymux::av::{AVPacket, CodecPacket, CodecPacketHeader, MediaPacket, MediaPacketHeader};
use kymux::pending::{Action, NextPacket, PacketRef, PendingGroups, Reassembly};
use kymux::reliable;
use kymux::sequencer::Sequencer;

fn media(is_config: bool, pts: u64, payload: &[u8]) -> AVPacket {
    AVPacket::Media(MediaPacket {
        header: MediaPacketHeader {
            is_config,
            is_key: false,
            pts,
            size: payload.len() as u32,
        },
        payload: Bytes::copy_from_slice(payload),
    })
}

fn codec() -> AVPacket {
    AVPacket::Codec(CodecPacket {
        header: CodecPacketHeader {
            codec: 1,
            rotation: 2,
            frame_size: 3,
        },
    })
}

fn pts_of(packet: &AVPacket) -> u64 {
    match packet {
        AVPacket::Media(packet) => packet.header.pts,
        AVPacket::Codec(_) => panic!("not a media packet"),
    }
}

fn read_stream(bytes: &Bytes) -> RecvMsg {
    let (kypacket_seq, group_seq) = parse_stream_seqs(&bytes[..8]);
    let packet = reliable::read_packet(&bytes[8..20], bytes.slice(20..));
    RecvMsg::Stream(stream_msg(Some(packet), kypacket_seq, group_seq).unwrap())
}

fn datagrams(outgoing: Outgoing) -> Vec<Bytes> {
    match outgoing {
        Outgoing::Datagrams(datagrams) => datagrams,
        Outgoing::Stream(_) => panic!("not datagrams"),
    }
}

fn stream(outgoing: Outgoing) -> Bytes {
    match outgoing {
        Outgoing::Stream(bytes) => bytes,
        Outgoing::Datagrams(_) => panic!("not on the stream"),
    }
}

#[test]
fn codec_packet_goes_over_the_stream() {
    let mut sender = AudioUnreliableProtocolSendDriver::start();
    let bytes = stream(sender.send(codec(), 5, None).unwrap());
    assert_eq!(
        &bytes[..],
        [0, 0, 0, 0, 0, 0, 0, 0, 0, 0, 0, 1, 2, 0, 3, 0, 0, 0, 0, 0]
    );
    assert_eq!(sender.kypacket_seq, 0);
    assert_eq!(sender.group_seq, 0);
}

#[test]
fn config_packet_opens_a_group() {
    let mut sender = AudioUnreliableProtocolSendDriver {
        kypacket_seq: u32::MAX,
        group_seq: 6,
    };
    let bytes = stream(sender.send(media(true, 3, &[9, 8]), 5, None).unwrap());
    assert_eq!(
        &bytes[..],
        [
            0xFF, 0xFF, 0xFF, 0xFF, 0, 0, 0, 7, 0xC0, 0, 0, 0, 0, 0, 0, 3, 0, 0, 0, 2, 9, 8
        ]
    );
    assert_eq!(sender.kypacket_seq, 0);
    assert_eq!(sender.group_seq, 7);
}

#[test]
fn other_packets_go_in_datagrams() {
    let mut sender = AudioUnreliableProtocolSendDriver {
        kypacket_seq: 4,
        group_seq: 6,
    };
    // 14 bytes of header leave room for 10 bytes.
    let out = datagrams(sender.send(media(false, 3, &[9, 8]), 5, Some(24)).unwrap());
    assert_eq!(out.len(), 2);
    assert_eq!(
        &out[0][..],
        [0, 5, 0, 0, 0, 4, 0, 0, 0, 6, 0, 0, 0, 0, 0x80, 0, 0, 0, 0, 0, 0, 3, 0, 0]
    );
    assert_eq!(
        &out[1][..],
        [0, 5, 0, 0, 0, 4, 0, 0, 0, 6, 0x80, 0, 0, 1, 0, 2, 9, 8]
    );
    assert_eq!(sender.kypacket_seq, 5);
    assert_eq!(sender.group_seq, 6);
}

#[test]
fn datagrams_may_not_be_supported() {
    let mut sender = AudioUnreliableProtocolSendDriver::start();
    let error = sender.send(media(false, 3, &[9, 8]), 5, None).unwrap_err();
    assert_eq!(error.0, "Datagram not supported");
    assert_eq!(sender.kypacket_seq, 0);
}

#[test]
fn datagram_is_read_as_written() {
    let mut sender = AudioUnreliableProtocolSendDriver {
        kypacket_seq: 4,
        group_seq: 6,
    };
    let out = datagrams(sender.send(media(false, 3, &[9, 8]), 5, Some(24)).unwrap());
    let msg = parse_datagram(out[1].clone());
    assert_eq!(msg.raw_kypacket_seq, 4);
    assert_eq!(msg.raw_group_seq, 6);
    assert_eq!(msg.datagram_number, 1);
    assert!(msg.end);
    assert_eq!(&msg.data[..], [0, 2, 9, 8]);
    let msg = parse_datagram(out[0].clone());
    assert_eq!(msg.datagram_number, 0);
    assert!(!msg.end);
}

#[test]
fn stream_without_packet() {
    let error = stream_msg(None, 1, 2).unwrap_err();
    assert_eq!(error.0, "Missing packet data on stream");
}

#[test]
fn segments_in_any_order_and_repeated() {
    let mut sender = AudioUnreliableProtocolSendDriver::start();
    let payload: Vec<u8> = (0..23).collect();
    let out = datagrams(sender.send(media(false, 77, &payload), 5, Some(21)).unwrap());
    assert_eq!(out.len(), 5);
    for order in [[0, 1, 2, 3, 4], [4, 3, 2, 1, 0], [2, 4, 0, 3, 1]] {
        let mut segments = DatagramSegments::new(0);
        for (i, &n) in order.iter().enumerate() {
            for _ in 0..2 {
                let msg = parse_datagram(out[n].clone());
                assert!(segments.add_part(Segment {
                    datagram_number: msg.datagram_number,
                    end: msg.end,
                    data: msg.data,
                }));
            }
            assert_eq!(segments.is_complete(), i == 4);
        }
        let packet = segments.assemble(9);
        assert_eq!(packet.instant, 9);
        match packet.packet {
            AVPacket::Media(packet) => {
                assert_eq!(packet.header.pts, 77);
                assert_eq!(&packet.payload[..], &payload[..]);
            }
            AVPacket::Codec(_) => panic!("not a media packet"),
        }
    }
}

#[test]
fn second_last_segment_does_not_fit() {
    let mut segments = DatagramSegments::new(0);
    let part = |datagram_number, end| Segment {
        datagram_number,
        end,
        data: Bytes::from_static(&[1]),
    };
    assert!(segments.add_part(part(2, true)));
    assert!(!segments.add_part(part(3, true)));
    assert!(!segments.add_part(part(0x8000_0000, false)));
    // A repeated one is ignored.
    assert!(segments.add_part(part(2, true)));
    assert!(!segments.is_complete());
}

#[test]
fn segments_that_are_no_media_packet() {
    // Too short.
    let mut segments = DatagramSegments::new(0);
    segments.set_segment(0, Bytes::from_static(&[0x80, 1, 2]), true);
    assert!(segments.has_all_parts());
    assert!(segments.finish(0).is_none());
    // Not the media bit.
    let mut segments = DatagramSegments::new(0);
    segments.set_segment(0, Bytes::from_static(&[0; 12]), true);
    assert!(segments.finish(0).is_none());
    // The right number of segments, but with a hole.
    let mut segments = DatagramSegments::new(0);
    segments.set_segment(1, Bytes::from_static(&[0x80; 12]), true);
    segments.set_segment(5, Bytes::from_static(&[0x80; 12]), false);
    assert!(segments.is_complete());
    assert!(segments.finish(0).is_none());
}

/// A receiver, and what the sender sends for the packets 0 to 5: a config packet
/// first, another one as packet 3.
fn exchange() -> (AudioUnreliableProtocolRecvDriver, Vec<Vec<RecvMsg>>) {
    let mut sender = AudioUnreliableProtocolSendDriver::start();
    let mut sent = Vec::new();
    for pts in 0..6 {
        let is_config = pts % 3 == 0;
        let outgoing = sender.send(media(is_config, pts, &[1; 20]), 5, Some(30)).unwrap();
        sent.push(match outgoing {
            Outgoing::Stream(bytes) => vec![read_stream(&bytes)],
            Outgoing::Datagrams(datagrams) => datagrams
                .into_iter()
                .map(|datagram| RecvMsg::Datagram(parse_datagram(datagram)))
                .collect(),
        });
    }
    (AudioUnreliableProtocolRecvDriver::start(), sent)
}

fn feed(receiver: &mut AudioUnreliableProtocolRecvDriver, msgs: &mut Vec<RecvMsg>, now: u64) -> Vec<u64> {
    let mut out = Vec::new();
    for msg in msgs.drain(..) {
        let event = Event::Message(msg);
        assert!(receiver.accepts(&event));
        if let Some(packet) = receiver.process(event, now).unwrap() {
            out.push(pts_of(&packet));
        }
    }
    out
}

#[test]
fn packets_in_order_come_out_at_once() {
    let (mut receiver, mut sent) = exchange();
    for pts in 0..6 {
        assert_eq!(feed(&mut receiver, &mut sent[pts], 10), [pts as u64]);
    }
    assert_eq!(receiver.deadline(), None);
}

#[test]
fn codec_packet_comes_out_at_once() {
    let (mut receiver, _) = exchange();
    let event = Event::Message(RecvMsg::Stream(StreamMsg {
        packet: codec(),
        raw_kypacket_seq: 0,
        raw_group_seq: 0,
    }));
    assert!(receiver.accepts(&event));
    match receiver.process(event, 0).unwrap() {
        Some(AVPacket::Codec(packet)) => assert_eq!(packet.header.codec, 1),
        _ => panic!("not a codec packet"),
    }
}

#[test]
fn reordered_packets_come_out_in_order() {
    let (mut receiver, mut sent) = exchange();
    assert_eq!(feed(&mut receiver, &mut sent[0], 10), [0]);
    assert_eq!(feed(&mut receiver, &mut sent[2], 10), []);
    assert_eq!(receiver.deadline(), Some(50_010));
    assert_eq!(feed(&mut receiver, &mut sent[1], 20), [1]);
    let next = receiver.process(Event::Deadline, 30).unwrap().unwrap();
    assert_eq!(pts_of(&next), 2);
}

#[test]
fn lost_packet_is_given_up_after_the_deadline() {
    let (mut receiver, mut sent) = exchange();
    assert_eq!(feed(&mut receiver, &mut sent[0], 10), [0]);
    assert_eq!(feed(&mut receiver, &mut sent[2], 100), []);
    assert_eq!(receiver.deadline(), Some(50_100));
    assert!(receiver.process(Event::Deadline, 50_099).unwrap().is_none());
    let next = receiver.process(Event::Deadline, 50_100).unwrap().unwrap();
    assert_eq!(pts_of(&next), 2);
    // Too late.
    assert_eq!(feed(&mut receiver, &mut sent[1], 50_200), []);
    assert_eq!(feed(&mut receiver, &mut sent[3], 50_200), [3]);
}

#[test]
fn group_without_config_packet_waits() {
    let (mut receiver, mut sent) = exchange();
    assert_eq!(feed(&mut receiver, &mut sent[4], 0), []);
    assert_eq!(receiver.deadline(), None);
    assert!(receiver.process(Event::Deadline, 1_000_000).unwrap().is_none());
    // With its config packet, the group waits for what comes before it.
    assert_eq!(feed(&mut receiver, &mut sent[3], 10), []);
    assert_eq!(receiver.deadline(), Some(50_000));
    let next = receiver.process(Event::Deadline, 50_000).unwrap().unwrap();
    assert_eq!(pts_of(&next), 3);
    let next = receiver.process(Event::Deadline, 50_000).unwrap().unwrap();
    assert_eq!(pts_of(&next), 4);
}

#[test]
fn config_packet_alone_waits_for_earlier_packets() {
    let (mut receiver, mut sent) = exchange();
    assert_eq!(feed(&mut receiver, &mut sent[0], 0), [0]);
    assert_eq!(feed(&mut receiver, &mut sent[3], 0), []);
    assert!(receiver.process(Event::Deadline, 1_000_000).unwrap().is_none());
    assert_eq!(receiver.deadline(), None);
    assert_eq!(feed(&mut receiver, &mut sent[1], 0), [1]);
    assert_eq!(feed(&mut receiver, &mut sent[2], 0), [2]);
}

#[test]
fn second_config_packet_of_a_group_is_not_accepted() {
    let (mut receiver, mut sent) = exchange();
    assert_eq!(feed(&mut receiver, &mut sent[3], 0), []);
    let (_, mut again) = exchange();
    let event = Event::Message(again[3].remove(0));
    assert!(!receiver.accepts(&event));
}

#[test]
fn bad_datagram_is_reported() {
    let (mut receiver, mut sent) = exchange();
    assert_eq!(feed(&mut receiver, &mut sent[0], 0), [0]);
    let event = Event::Message(RecvMsg::Datagram(parse_datagram(Bytes::from_static(&[
        0, 5, 0, 0, 0, 1, 0, 0, 0, 1, 0x80, 0, 0, 0, 7,
    ]))));
    assert!(receiver.process(event, 0).is_err());
}

#[test]
fn pending_groups_by_hand() {
    let mut groups: PendingGroups<DatagramSegments> = PendingGroups::new();
    assert_eq!(groups.next_packet(0, 0), NextPacket::Nothing);
    assert!(groups.awaits_config(7));
    groups.insert_stream_packet(7, 3, media(true, 3, &[]));
    assert!(!groups.awaits_config(7));
    assert_eq!(groups.next_packet(0, 0), NextPacket::Nothing);
    assert_eq!(
        groups.next_packet(3, 0),
        NextPacket::Ready(PacketRef {
            pending_group_index: 0,
            config_packet: true
        })
    );
    let part = Segment {
        datagram_number: 0,
        end: true,
        data: Bytes::from_static(&[0x80; 12]),
    };
    groups.insert_datagram(7, 5, part, 1_000).unwrap();
    assert_eq!(groups.next_packet(0, 2_000), NextPacket::Deadline(51_000));
    match groups.take_next_packet(0, 51_000) {
        Action::Packet { kypacket_seq, .. } => assert_eq!(kypacket_seq, 3),
        _ => panic!("no packet"),
    }
    match groups.take_next_packet(5, 0) {
        Action::Packet { kypacket_seq, .. } => assert_eq!(kypacket_seq, 5),
        _ => panic!("no packet"),
    }
    match groups.take_next_packet(6, 0) {
        Action::Idle => {}
        _ => panic!("not idle"),
    }
}

#[test]
fn sequence_numbers_wrap_around() {
    let mut sequencer = Sequencer::new();
    assert!(sequencer.has_room());
    assert_eq!(sequencer.seq(0), 0);
    assert_eq!(sequencer.seq(0x7FFF_FFFF), 0x7FFF_FFFF);
    assert_eq!(sequencer.seq(0xFFFF_FFFE), 0xFFFF_FFFE);
    assert_eq!(sequencer.seq(1), 0x1_0000_0001);
    assert_eq!(sequencer.seq(0xFFFF_FFFF), 0xFFFF_FFFF);
    assert_eq!(sequencer.seq(2), 0x1_0000_0002);
}
