use bytes::Bytes;
use kymux::audio_unreliable::Outgoing;
use kymux::av::{AVPacket, CodecPacket, CodecPacketHeader, MediaPacket, MediaPacketHeader};
use kymux::error::Error;
use kymux::fec;
use kymux::forwarder;
use kymux::gopstream;
use kymux::gopstream::{GopAction, Kind};
use kymux::kypacket;
use kymux::kypacket::Packet;
use kymux::pending::Reassembly;
use kymux::reliable::Arrival;

/// A packet as clients write it.
fn bytes_of(flags: u8, pts: u8, payload: &[u8]) -> Vec<u8> {
    let mut bytes = vec![0, 0, 0, 7, flags, 0, 0, 0, 0, 0, 0, pts];
    bytes.extend_from_slice(&(payload.len() as u32).to_be_bytes());
    bytes.extend_from_slice(payload);
    bytes
}

fn codec_bytes() -> Vec<u8> {
    bytes_of(0, 1, &[])
}

fn media(is_config: bool, is_key: bool, payload: &[u8]) -> AVPacket {
    AVPacket::Media(MediaPacket {
        header: MediaPacketHeader {
            is_config,
            is_key,
            pts: 1,
            size: payload.len() as u32,
        },
        payload: Bytes::copy_from_slice(payload),
    })
}

fn codec() -> AVPacket {
    AVPacket::Codec(CodecPacket {
        header: CodecPacketHeader {
            codec: 1,
            rotation: 0,
            frame_size: 0,
        },
    })
}

#[test]
fn gop_sender_opens_a_stream_per_key_frame() {
    let mut sender = gopstream::VideoGopStreamProtocolSendDriver::start();
    assert!(!sender.accepts(Kind::Key));
    assert!(matches!(sender.send(codec(), false), GopAction::Keep));
    assert!(!sender.accepts(Kind::Key));
    assert!(matches!(sender.send(media(true, false, &[5]), false), GopAction::Keep));
    assert!(sender.accepts(Kind::Key));
    assert!(sender.accepts(Kind::Codec));
    assert!(sender.accepts(Kind::Config));
    assert!(sender.accepts(Kind::Delta));
    assert!(matches!(sender.send(media(false, false, &[6]), false), GopAction::Discard));
    match sender.send(media(false, true, &[7, 8]), false) {
        GopAction::NewStream { prelude, bytes } => {
            assert_eq!(
                prelude,
                [
                    0, 0, 0, 1, 0, 0, 0, 1, 0, 0, 0, 1, 0, 0, 0, 0, 0, 0, 0, 0, 0xC0, 0, 0, 0, 0,
                    0, 0, 1, 0, 0, 0, 1, 5
                ]
            );
            assert_eq!(bytes, [0xA0, 0, 0, 0, 0, 0, 0, 1, 0, 0, 0, 2, 7, 8]);
        }
        _ => panic!("no new stream"),
    }
    match sender.send(media(false, false, &[9]), true) {
        GopAction::Write { bytes } => {
            assert_eq!(bytes, [0x80, 0, 0, 0, 0, 0, 0, 1, 0, 0, 0, 1, 9]);
        }
        _ => panic!("nothing is written"),
    }
}

#[test]
fn gop_numbers_grow() {
    let mut sender = gopstream::GopSender::new();
    for _ in 0..3 {
        sender.send_video(Packet::read(codec_bytes()), true);
    }
    for _ in 0..2 {
        sender.send_video(Packet::read(bytes_of(0xC0, 2, &[1])), true);
    }
    let key = bytes_of(0xA0, 3, &[2]);
    match sender.send_video(Packet::read(key.clone()), true) {
        GopAction::NewStream { prelude, bytes } => {
            assert_eq!(gopstream::parse_gens(&prelude[..8]), (3, 2));
            assert_eq!(prelude[8..24], codec_bytes());
            assert_eq!(prelude[24..], bytes_of(0xC0, 2, &[1]));
            assert_eq!(bytes, key);
        }
        _ => panic!("no new stream"),
    }
    let delta = bytes_of(0x80, 4, &[3]);
    match sender.send_video(Packet::read(delta.clone()), true) {
        GopAction::Write { bytes } => assert_eq!(bytes, delta),
        _ => panic!("nothing is written"),
    }
}

#[test]
fn gop_sender_waits_for_codec_and_config() {
    let mut sender = gopstream::GopSender::new();
    assert!(!sender.accepts(Kind::Key));
    sender.send_video(Packet::read(bytes_of(0xC0, 2, &[1])), true);
    assert!(!sender.accepts(Kind::Key));
    sender.send_video(Packet::read(codec_bytes()), true);
    assert!(sender.accepts(Kind::Key));
}

#[test]
fn gop_sender_discards_frames_before_the_first_key_frame() {
    let mut sender = gopstream::GopSender::new();
    let delta = bytes_of(0x80, 9, &[4]);
    assert!(matches!(
        sender.send_video(Packet::read(delta.clone()), false),
        gopstream::GopAction::Discard
    ));
    assert!(matches!(
        sender.send_video(Packet::read(delta.clone()), true),
        gopstream::GopAction::Write { bytes } if bytes == delta
    ));
}

#[test]
fn gop_receiver_hands_out_repeated_packets_once() {
    let mut receiver = gopstream::GopReceiver::new();
    // First stream.
    assert!(receiver.recv(codec(), 1, 1).is_some());
    assert!(receiver.recv(media(true, false, &[1]), 1, 1).is_some());
    assert!(receiver.recv(media(false, true, &[2]), 1, 1).is_some());
    // The next stream repeats both.
    assert!(receiver.recv(codec(), 1, 1).is_none());
    assert!(receiver.recv(media(true, false, &[1]), 1, 1).is_none());
    assert!(receiver.recv(media(false, true, &[3]), 1, 1).is_some());
    // A new config packet.
    assert!(receiver.recv(codec(), 1, 2).is_none());
    assert!(receiver.recv(media(true, false, &[4]), 1, 2).is_some());
    // A new codec packet.
    assert!(receiver.recv(codec(), 2, 2).is_some());
    assert!(receiver.recv(media(true, false, &[4]), 2, 2).is_none());
    assert_eq!(receiver.last_codec_gen, 2);
    assert_eq!(receiver.last_config_gen, 2);
}

#[test]
fn gop_receiver_forwards_bytes() {
    let mut receiver = gopstream::GopReceiver::new();
    let config = bytes_of(0xC0, 2, &[1]);
    assert_eq!(
        receiver.recv_video(Packet::read(codec_bytes()), 4, 5),
        Some(codec_bytes())
    );
    assert_eq!(
        receiver.recv_video(Packet::read(config.clone()), 4, 5),
        Some(config.clone())
    );
    assert_eq!(receiver.recv_video(Packet::read(codec_bytes()), 4, 5), None);
    assert_eq!(receiver.recv_video(Packet::read(config), 4, 5), None);
    let delta = bytes_of(0x80, 9, &[]);
    assert_eq!(
        receiver.recv_video(Packet::read(delta.clone()), 4, 5),
        Some(delta)
    );
}

#[test]
fn gop_streams_are_unidirectional() {
    assert!(gopstream::accept_uni(Arrival::Uni).is_ok());
    for arrival in [Arrival::Bi, Arrival::Datagram] {
        match gopstream::accept_uni(arrival) {
            Err(Error::KymuxProtocolError(text)) => assert_eq!(text, "Unexpected KyRecvMsg"),
            _ => panic!("no protocol error"),
        }
    }
}

#[test]
fn repair_symbol_counts() {
    let expected = [2, 2, 2, 2, 2, 2, 3, 3, 3, 3, 4, 4, 4, 5, 5, 5, 6, 6];
    for (i, repair) in expected.into_iter().enumerate() {
        assert_eq!(fec::repair_symbols(i as u32 + 1), repair);
    }
    for (source, repair) in [(0, 2), (100, 30), (101, 31), (14_382_765, 4_314_830)] {
        assert_eq!(fec::repair_symbols(source), repair);
    }
}

#[test]
fn sizes_that_can_be_sent() {
    assert!(!fec::Sender::can_send(0, 1200));
    assert!(!fec::Sender::can_send(10, 32));
    assert!(!fec::Sender::can_send(10, 0x1_0000));
    assert!(fec::Sender::can_send(10, 33));
    assert!(fec::Sender::can_send(14_382_765, 33));
    assert!(!fec::Sender::can_send(14_382_766, 33));
}

#[test]
fn encoded_packets_are_wrapped() {
    let out = fec::wrap_packets(
        1,
        2,
        3,
        &[4, 5, 6, 7, 8, 9, 10, 11, 12, 13, 14, 15],
        &vec![vec![16, 17, 18, 19, 20]],
    );
    assert_eq!(out.len(), 1);
    assert_eq!(
        &out[0][..],
        [
            0, 0, 0, 0, 0, 0, 0, 1, 0, 0, 0, 2, 0, 0, 0, 3, 4, 5, 6, 7, 8, 9, 10, 11, 12, 13, 14,
            15, 16, 17, 18, 19, 20
        ]
    );
}

#[test]
fn fec_stream_packets() {
    let mut sender = fec::Sender::new();
    match sender.send_video(Packet::read(codec_bytes()), 9, None) {
        Ok(Outgoing::Stream(bytes)) => {
            assert_eq!(&bytes[..8], [0; 8]);
            assert_eq!(&bytes[8..], codec_bytes());
        }
        _ => panic!("not on the stream"),
    }
    assert_eq!((sender.kypacket_seq, sender.group_seq), (0, u32::MAX));
    let config = bytes_of(0xC0, 2, &[1]);
    match sender.send_video(Packet::read(config.clone()), 9, None) {
        Ok(Outgoing::Stream(bytes)) => {
            assert_eq!(&bytes[..8], [0; 8]);
            assert_eq!(&bytes[8..], config);
        }
        _ => panic!("not on the stream"),
    }
    assert_eq!((sender.kypacket_seq, sender.group_seq), (1, 0));
    match sender.send_video(Packet::read(config.clone()), 9, None) {
        Ok(Outgoing::Stream(bytes)) => assert_eq!(&bytes[..8], [0, 0, 0, 1, 0, 0, 0, 1]),
        _ => panic!("not on the stream"),
    }
    match sender.send_video(Packet::read(bytes_of(0x80, 2, &[1])), 9, None) {
        Err(Error::KymuxProtocolError(text)) => assert_eq!(text, "Datagrams not supported"),
        _ => panic!("no protocol error"),
    }
    assert_eq!((sender.kypacket_seq, sender.group_seq), (2, 1));
}

fn fec_datagrams(sender: &mut fec::Sender, data: &[u8], max: usize) -> Vec<Bytes> {
    assert!(fec::Sender::can_send(data.len(), max));
    match sender.send_video(Packet::read(data.to_vec()), 9, Some(max)) {
        Ok(Outgoing::Datagrams(datagrams)) => datagrams,
        _ => panic!("not in datagrams"),
    }
}

fn pattern(len: usize) -> Vec<u8> {
    (0..len).map(|i| (i * 7 + i / 256) as u8).collect()
}

#[test]
fn fec_datagram_layout() {
    let mut sender = fec::Sender {
        kypacket_seq: 5,
        group_seq: 6,
    };
    let data = bytes_of(0x80, 2, &pattern(984));
    // 1000 bytes in symbols of 100 bytes, down to a multiple of eight: eleven of
    // them, and four for repair.
    let out = fec_datagrams(&mut sender, &data, 132);
    assert_eq!(out.len(), 15);
    for (i, datagram) in out.iter().enumerate() {
        assert_eq!(datagram.len(), 32 + 96);
        assert_eq!(&datagram[..8], [0, 0, 0, 0, 0, 0, 0, 9]);
        assert_eq!(&datagram[8..16], [0, 0, 0, 5, 0, 0, 0, 6]);
        assert_eq!(&datagram[16..24], [0, 0, 0, 3, 0xE8, 0, 0, 96]);
        assert_eq!(datagram[24], 1);
        assert_eq!(datagram[28], 0);
        if i < 10 {
            assert_eq!(datagram[32..], data[96 * i..96 * (i + 1)]);
        }
    }
    assert_eq!((sender.kypacket_seq, sender.group_seq), (6, 6));
}

#[test]
fn fec_datagram_is_read_as_written() {
    let mut sender = fec::Sender {
        kypacket_seq: 5,
        group_seq: 6,
    };
    let out = fec_datagrams(&mut sender, &bytes_of(0x80, 2, &pattern(100)), 60);
    let msg = forwarder::parse_datagram(out[1].clone());
    assert_eq!(msg.raw_kypacket_seq, 5);
    assert_eq!(msg.raw_group_seq, 6);
    assert_eq!(msg.part.oti[..], out[1][16..28]);
    assert_eq!(msg.part.packet[..], out[1][28..]);
}

#[test]
fn lost_symbols_are_recovered() {
    let data = bytes_of(0x80, 2, &pattern(2000));
    let mut sender = fec::Sender {
        kypacket_seq: 0,
        group_seq: 0,
    };
    let out = fec_datagrams(&mut sender, &data, 160);
    // 2016 bytes in symbols of 128 bytes: 16 of them, and 5 for repair.
    assert_eq!(out.len(), 21);
    let mut kept: Vec<usize> = (0..21).filter(|i| ![0, 7, 15].contains(i)).collect();
    kept.reverse();
    let first = forwarder::parse_datagram(out[kept[0]].clone());
    let mut segments = fec::DatagramSegments::start(3, &first.part).unwrap();
    let mut used = 0;
    for i in kept {
        assert!(!segments.is_complete());
        let msg = forwarder::parse_datagram(out[i].clone());
        assert!(segments.add_part(msg.part));
        used += 1;
        if segments.is_complete() {
            break;
        }
    }
    assert!(used >= 16);
    let packet = segments.assemble(8).unwrap();
    assert_eq!(packet.packet.data, data);
    assert_eq!(packet.packet.header.pts, 2);
    assert_eq!(packet.instant, 8);
    assert_eq!(packet.kypacket_seq, 3);
}

#[test]
fn all_symbols_together_give_the_packet() {
    let data = bytes_of(0xA0, 2, &pattern(500));
    let mut sender = fec::Sender::new();
    let out = fec_datagrams(&mut sender, &data, 100);
    let first = forwarder::parse_datagram(out[0].clone());
    let mut segments = fec::DatagramSegments::new(0, first.part.oti);
    for datagram in &out {
        if !segments.is_complete() {
            let msg = forwarder::parse_datagram(datagram.clone());
            segments.add_packet(&msg.part.oti, &msg.part.packet);
        }
    }
    assert!(segments.is_complete());
    assert_eq!(segments.assemble(0).unwrap().packet.data, data);
}

#[test]
fn symbols_that_do_not_belong() {
    let mut sender = fec::Sender::new();
    let out = fec_datagrams(&mut sender, &bytes_of(0xA0, 2, &pattern(500)), 100);
    let first = forwarder::parse_datagram(out[0].clone());
    let mut segments = fec::DatagramSegments::start(0, &first.part).unwrap();
    // Another configuration.
    let mut part = forwarder::parse_datagram(out[0].clone()).part;
    part.oti[4] ^= 1;
    assert!(!segments.add_part(part));
    // A block that does not exist.
    let mut part = forwarder::parse_datagram(out[0].clone()).part;
    let mut packet = part.packet.to_vec();
    packet[0] = 1;
    part.packet = Bytes::from(packet);
    assert!(!segments.add_part(part));
    // A packet without a whole symbol id.
    let mut part = forwarder::parse_datagram(out[0].clone()).part;
    part.packet = part.packet.slice(..3);
    assert!(!segments.add_part(part));
    // The reserved byte makes no difference.
    let mut part = forwarder::parse_datagram(out[0].clone()).part;
    part.oti[5] = 77;
    assert!(segments.add_part(part));
}

#[test]
fn symbols_of_another_size() {
    let mut sender = fec::Sender::new();
    let data = bytes_of(0xA0, 2, &pattern(100));
    let out = fec_datagrams(&mut sender, &data, 100);
    let first = forwarder::parse_datagram(out[0].clone());
    // What a symbol has too much is ignored.
    let mut segments = fec::DatagramSegments::start(7, &first.part).unwrap();
    for datagram in &out[..2] {
        let mut part = forwarder::parse_datagram(datagram.clone()).part;
        assert!(!segments.is_complete());
        part.packet = Bytes::from([&part.packet[..], &[1, 2, 3]].concat());
        assert!(segments.add_part(part));
    }
    assert!(segments.is_complete());
    assert_eq!(segments.assemble(0).unwrap().packet.data, data);
    // A symbol that is too short makes no difference.
    let mut segments = fec::DatagramSegments::start(7, &first.part).unwrap();
    let mut part = forwarder::parse_datagram(out[0].clone()).part;
    part.packet = part.packet.slice(..20);
    assert!(segments.add_part(part));
    for datagram in &out[..2] {
        assert!(!segments.is_complete());
        assert!(segments.add_part(forwarder::parse_datagram(datagram.clone()).part));
    }
    assert_eq!(segments.assemble(0).unwrap().packet.data, data);
}

#[test]
fn symbols_without_sub_blocks() {
    let mut sender = fec::Sender::new();
    let out = fec_datagrams(&mut sender, &bytes_of(0xA0, 2, &pattern(100)), 100);
    for index in [10, 11] {
        let part = |n: usize| {
            let mut part = forwarder::parse_datagram(out[n].clone()).part;
            part.oti[index] = 0;
            part
        };
        let mut segments = fec::DatagramSegments::start(7, &part(0)).unwrap();
        for n in 0..out.len() {
            assert!(segments.add_part(part(n)));
        }
        assert!(!segments.is_complete());
    }
}

#[test]
fn source_symbols_are_enough() {
    let mut sender = fec::Sender::new();
    let data = bytes_of(0xA0, 2, &pattern(500));
    let out = fec_datagrams(&mut sender, &data, 100);
    let first = forwarder::parse_datagram(out[0].clone());
    let mut segments = fec::DatagramSegments::start(7, &first.part).unwrap();
    // The first 9 of 12 datagrams, the last one first.
    for datagram in out[..9].iter().rev() {
        assert!(!segments.is_complete());
        assert!(segments.add_part(forwarder::parse_datagram(datagram.clone()).part));
    }
    assert_eq!(segments.assemble(0).unwrap().packet.data, data);
}

#[test]
fn multiplexer_stream_gives_packets_back() {
    let sent = [codec_bytes(), bytes_of(0xC0, 0, &[1]), bytes_of(0x80, 1, &pattern(30))];
    let stream = sent.concat();
    let mut rest = &stream[..];
    for bytes in sent {
        let len = kypacket::HEADER_SIZE + Packet::payload_size(&rest[..16]) as usize;
        assert_eq!(rest[..len], bytes);
        match Packet::read(rest[..len].to_vec()) {
            Packet::Codec(packet) => assert_eq!(packet.header, bytes),
            Packet::Media(packet) => assert_eq!(packet.data, bytes),
        }
        rest = &rest[len..];
    }
    assert!(rest.is_empty());
}

#[test]
fn number_of_datagrams() {
    let mut sender = fec::Sender::new();
    // 9 symbols of 64 bytes, and 3 for repair.
    assert_eq!(fec_datagrams(&mut sender, &bytes_of(0xA0, 2, &pattern(500)), 100).len(), 12);
    // 18 symbols, and 6 for repair.
    assert_eq!(fec_datagrams(&mut sender, &bytes_of(0xA0, 2, &pattern(1100)), 100).len(), 24);
}

#[test]
fn configurations() {
    let good = [0, 0, 0, 3, 0xE8, 0, 0, 96, 1, 0, 1, 8];
    assert!(fec::is_valid_config(&good));
    // The number of symbols is kept in 32 bits.
    assert!(fec::is_valid_config(&[1, 0, 0, 0, 10, 0, 0, 1, 1, 0, 1, 1]));
    // A decoder can be made without sub-blocks.
    for index in [10, 11] {
        let mut other = good;
        other[index] = 0;
        assert!(fec::is_valid_config(&other));
    }
    for (index, value) in [(7, 0), (8, 0), (0, 0xFF)] {
        let mut bad = good;
        bad[index] = value;
        assert!(!fec::is_valid_config(&bad));
    }
}

#[test]
fn recovered_bytes_that_are_no_media_packet() {
    assert!(fec::media_packet(vec![0x80; 15]).is_none());
    assert!(fec::media_packet(codec_bytes()).is_none());
    assert!(fec::media_packet(bytes_of(0x80, 1, &[])).is_some());
}

fn stream_msg(outgoing: Outgoing) -> forwarder::StreamMsg {
    match outgoing {
        Outgoing::Stream(bytes) => forwarder::StreamMsg {
            packet: Packet::read(bytes[8..].to_vec()),
            raw_kypacket_seq: u32::from_be_bytes(bytes[..4].try_into().unwrap()),
            raw_group_seq: u32::from_be_bytes(bytes[4..8].try_into().unwrap()),
        },
        Outgoing::Datagrams(_) => panic!("not on the stream"),
    }
}

fn take_all(forwarder: &mut forwarder::Forwarder, now: u64) -> Vec<Vec<u8>> {
    let mut out = Vec::new();
    while let Some(bytes) = forwarder.process_next_packet(now) {
        out.push(bytes);
    }
    out
}

fn feed(forwarder: &mut forwarder::Forwarder, datagrams: &[Bytes], now: u64) {
    for datagram in datagrams {
        assert!(forwarder.has_room());
        let msg = forwarder::parse_datagram(datagram.clone());
        if forwarder.on_new_datagram_msg(msg, now).is_err() {
            panic!("bad datagram");
        }
    }
}

#[test]
fn video_is_forwarded_in_order() {
    let mut sender = fec::Sender::new();
    let mut receiver = forwarder::Forwarder::new();

    let msg = stream_msg(sender.send_video(Packet::read(codec_bytes()), 9, Some(100)).unwrap());
    assert!(receiver.accepts_stream(&msg));
    assert_eq!(receiver.on_new_stream_msg(msg), Some(codec_bytes()));
    assert!(take_all(&mut receiver, 0).is_empty());

    let config = bytes_of(0xC0, 0, &[1]);
    let msg = stream_msg(sender.send_video(Packet::read(config.clone()), 9, Some(100)).unwrap());
    assert!(receiver.accepts_stream(&msg));
    assert_eq!(receiver.on_new_stream_msg(msg), None);
    assert_eq!(take_all(&mut receiver, 0), [config]);

    let first = bytes_of(0xA0, 1, &pattern(40));
    let second = bytes_of(0x80, 2, &pattern(40));
    let third = bytes_of(0x80, 3, &pattern(40));
    // 56 bytes in symbols of 64 bytes: one of them, and two for repair.
    let first_out = fec_datagrams(&mut sender, &first, 100);
    let second_out = fec_datagrams(&mut sender, &second, 100);
    let third_out = fec_datagrams(&mut sender, &third, 100);
    assert_eq!(first_out.len(), 3);

    feed(&mut receiver, &second_out[..1], 1_000);
    assert!(take_all(&mut receiver, 1_000).is_empty());
    assert_eq!(receiver.deadline(), Some(51_000));
    feed(&mut receiver, &first_out[..1], 2_000);
    assert_eq!(take_all(&mut receiver, 2_000), [first, second.clone()]);
    assert_eq!(receiver.deadline(), None);

    // A packet that was forwarded is not forwarded again.
    feed(&mut receiver, &first_out[1..], 3_000);
    assert!(take_all(&mut receiver, 3_000).is_empty());
    feed(&mut receiver, &third_out[..1], 3_000);
    assert_eq!(take_all(&mut receiver, 3_000), [third]);
}

#[test]
fn lost_video_packet_is_skipped() {
    let mut sender = fec::Sender::new();
    let mut receiver = forwarder::Forwarder::new();
    let config = bytes_of(0xC0, 0, &[1]);
    let msg = stream_msg(sender.send_video(Packet::read(config.clone()), 9, Some(100)).unwrap());
    receiver.on_new_stream_msg(msg);
    assert_eq!(take_all(&mut receiver, 0), [config]);
    let _lost = fec_datagrams(&mut sender, &bytes_of(0xA0, 1, &pattern(40)), 100);
    let second = bytes_of(0x80, 2, &pattern(40));
    let second_out = fec_datagrams(&mut sender, &second, 100);
    feed(&mut receiver, &second_out[2..], 1_000);
    assert!(take_all(&mut receiver, 50_999).is_empty());
    assert_eq!(receiver.deadline(), Some(51_000));
    receiver.on_deadline();
    assert_eq!(receiver.deadline(), None);
    assert_eq!(take_all(&mut receiver, 51_000), [second]);
}

#[test]
fn video_numbers_wrap_around() {
    let mut sender = fec::Sender { kypacket_seq: u32::MAX, group_seq: 6 };
    let mut receiver = forwarder::Forwarder::new();
    let config = bytes_of(0xC0, 0, &[1]);
    let msg = stream_msg(sender.send_video(Packet::read(config.clone()), 9, Some(100)).unwrap());
    assert_eq!((msg.raw_kypacket_seq, msg.raw_group_seq), (u32::MAX, 7));
    receiver.on_new_stream_msg(msg);
    assert!(take_all(&mut receiver, 0).is_empty());
    let first = bytes_of(0xA0, 1, &pattern(40));
    let second = bytes_of(0x80, 2, &pattern(40));
    assert_eq!(sender.kypacket_seq, 0);
    let first_out = fec_datagrams(&mut sender, &first, 100);
    let second_out = fec_datagrams(&mut sender, &second, 100);
    feed(&mut receiver, &first_out[..1], 1_000);
    assert!(take_all(&mut receiver, 1_000).is_empty());
    assert_eq!(take_all(&mut receiver, 51_000), [config, first]);
    feed(&mut receiver, &second_out[1..2], 52_000);
    assert_eq!(take_all(&mut receiver, 52_000), [second]);
}

#[test]
fn group_has_one_config_packet() {
    let mut receiver = forwarder::Forwarder::new();
    let msg = |raw_kypacket_seq, raw_group_seq| forwarder::StreamMsg {
        packet: Packet::read(bytes_of(0xC0, 0, &[1])),
        raw_kypacket_seq,
        raw_group_seq,
    };
    receiver.on_new_stream_msg(msg(4, 1));
    assert!(!receiver.accepts_stream(&msg(4, 1)));
    assert!(receiver.accepts_stream(&msg(4, 2)));
}

#[test]
fn bad_video_datagram() {
    let mut receiver = forwarder::Forwarder::new();
    let msg = forwarder::parse_datagram(Bytes::from_static(&[0; 32]));
    assert!(receiver.on_new_datagram_msg(msg, 0).is_err());
}

#[test]
fn channel_brings_one_stream_and_datagrams() {
    let mut receiver = forwarder::Receiver::new();
    assert!(matches!(
        receiver.recv_ky_channel(forwarder::ChannelMsg::AcceptUni),
        Ok(forwarder::ReceiverAction::ReadPackets)
    ));
    match receiver.recv_ky_channel(forwarder::ChannelMsg::AcceptUni) {
        Err(Error::KymuxProtocolError(text)) => assert_eq!(text, "Unexpected multiple unistreams"),
        _ => panic!("no protocol error"),
    }
    match receiver.recv_ky_channel(forwarder::ChannelMsg::AcceptBi) {
        Err(Error::KymuxProtocolError(text)) => assert_eq!(text, "Unexpected KyRecvMsg"),
        _ => panic!("no protocol error"),
    }
    let datagram = Bytes::from_static(&[
        0, 0, 0, 0, 0, 0, 0, 9, 0, 0, 0, 5, 0, 0, 0, 6, 0x80, 0, 0, 2, 1, 2, 3,
    ]);
    match receiver.recv_ky_channel(forwarder::ChannelMsg::Datagram(datagram)) {
        Ok(forwarder::ReceiverAction::Forward(datagram)) => {
            assert_eq!(datagram.raw_kypacket_seq, 5);
            assert_eq!(datagram.raw_group_seq, 6);
            assert_eq!(datagram.datagram_number, 2);
            assert!(datagram.end);
            assert_eq!(&datagram.data[..], [1, 2, 3]);
        }
        _ => panic!("not a datagram"),
    }
}

#[test]
fn channel_brings_one_stream_and_symbols() {
    let mut receiver = forwarder::Receiver::new();
    let mut datagram = vec![0; 8];
    datagram.extend_from_slice(&[0, 0, 0, 5, 0, 0, 0, 6]);
    datagram.extend_from_slice(&[0, 0, 0, 0, 4, 0, 0, 4, 1, 0, 1, 8]);
    datagram.extend_from_slice(&[0, 0, 0, 2, 1, 2, 3, 4]);
    match receiver.recv_fec_channel(forwarder::ChannelMsg::Datagram(Bytes::from(datagram))) {
        Ok(forwarder::FecReceiverAction::Forward(msg)) => {
            assert_eq!(msg.raw_kypacket_seq, 5);
            assert_eq!(msg.raw_group_seq, 6);
            assert_eq!(msg.part.oti, [0, 0, 0, 0, 4, 0, 0, 4, 1, 0, 1, 8]);
            assert_eq!(&msg.part.packet[..], [0, 0, 0, 2, 1, 2, 3, 4]);
        }
        _ => panic!("not a datagram"),
    }
    assert!(matches!(
        receiver.recv_fec_channel(forwarder::ChannelMsg::AcceptUni),
        Ok(forwarder::FecReceiverAction::ReadPackets)
    ));
    match receiver.recv_fec_channel(forwarder::ChannelMsg::AcceptUni) {
        Err(Error::KymuxProtocolError(text)) => assert_eq!(text, "Unexpected multiple unistreams"),
        _ => panic!("no protocol error"),
    }
    match receiver.recv_fec_channel(forwarder::ChannelMsg::AcceptBi) {
        Err(Error::KymuxProtocolError(text)) => assert_eq!(text, "Unexpected KyRecvMsg"),
        _ => panic!("no protocol error"),
    }
}

#[test]
fn header_size_of_clients_packets() {
    assert_eq!(kypacket::HEADER_SIZE, 16);
    let header = Packet::parse_media_packet_header(&bytes_of(0xA0, 3, &[1, 2]));
    assert_eq!(header.stream_id, 7);
    assert!(header.is_key);
    assert!(!header.is_config);
    assert_eq!(header.pts, 3);
    assert_eq!(header.size, 2);
}
