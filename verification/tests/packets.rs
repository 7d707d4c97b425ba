use bytes::Bytes;
use kymux::av::{
    AVPacket, AVPacketHeader, CodecPacket, CodecPacketHeader, MediaPacket, MediaPacketHeader,
};
use kymux::error::ReadExactError;
use kymux::kypacket;
use kymux::reliable;

fn media(is_config: bool, is_key: bool, pts: u64, payload: &[u8]) -> MediaPacket {
    MediaPacket {
        header: MediaPacketHeader {
            is_config,
            is_key,
            pts,
            size: payload.len() as u32,
        },
        payload: Bytes::copy_from_slice(payload),
    }
}

#[test]
fn codec_header_bytes() {
    let header = CodecPacketHeader {
        codec: 0x0102_0304,
        rotation: 9,
        frame_size: 0xABCD,
    };
    let bytes = header.serialize();
    assert_eq!(bytes, [1, 2, 3, 4, 9, 0xAB, 0xCD, 0, 0, 0, 0, 0]);
    match AVPacketHeader::deserialize(&bytes) {
        AVPacketHeader::Codec(read) => assert_eq!(read, header),
        AVPacketHeader::Media(_) => panic!("not a codec header"),
    }
    assert_eq!(CodecPacketHeader::deserialize(&bytes), header);
    assert_eq!(AVPacketHeader::SERIALIZED_SIZE, 12);
}

#[test]
fn codec_header_overwrites_its_buffer() {
    let header = CodecPacketHeader {
        codec: 1,
        rotation: 2,
        frame_size: 3,
    };
    let mut buf = [0xFF; 12];
    header.serialize_to(&mut buf);
    assert_eq!(buf, [0, 0, 0, 1, 2, 0, 3, 0, 0, 0, 0, 0]);
}

#[test]
fn media_header_bytes() {
    let header = MediaPacketHeader {
        is_config: true,
        is_key: false,
        pts: 0x0123_4567_89AB_CDEF,
        size: 0x0A0B_0C0D,
    };
    let bytes = header.serialize();
    assert_eq!(
        bytes,
        [0xC1, 0x23, 0x45, 0x67, 0x89, 0xAB, 0xCD, 0xEF, 0x0A, 0x0B, 0x0C, 0x0D]
    );
    match AVPacketHeader::deserialize(&bytes) {
        AVPacketHeader::Media(read) => assert_eq!(read, header),
        AVPacketHeader::Codec(_) => panic!("not a media header"),
    }
}

#[test]
fn media_header_flags() {
    for (is_config, is_key, first) in [
        (false, false, 0x80),
        (false, true, 0xA0),
        (true, false, 0xC0),
        (true, true, 0xE0),
    ] {
        let header = MediaPacketHeader {
            is_config,
            is_key,
            pts: 0,
            size: 0,
        };
        let bytes = header.serialize();
        assert_eq!(bytes[0], first);
        assert_eq!(MediaPacketHeader::deserialize(&bytes), header);
    }
}

#[test]
fn largest_timestamp() {
    let header = MediaPacketHeader {
        is_config: false,
        is_key: true,
        pts: (1 << 61) - 1,
        size: u32::MAX,
    };
    let bytes = header.serialize();
    assert_eq!(bytes[0], 0xBF);
    assert_eq!(MediaPacketHeader::deserialize(&bytes), header);
}

#[test]
fn reliable_stream_gives_packets_back() {
    let codec = AVPacket::Codec(CodecPacket {
        header: CodecPacketHeader {
            codec: 0x6176_3031,
            rotation: 1,
            frame_size: 2,
        },
    });
    let first = AVPacket::Media(media(true, false, 1, &[1, 2, 3]));
    let second = AVPacket::Media(media(false, true, 2, &[]));
    let mut stream = Vec::new();
    for packet in [&codec, &first, &second] {
        stream.extend_from_slice(&reliable::send(packet));
    }
    assert_eq!(stream.len(), 12 + 15 + 12);

    let mut read = Vec::new();
    let mut rest = &stream[..];
    while !rest.is_empty() {
        let (head, tail) = rest.split_at(12);
        let size = reliable::payload_size(head) as usize;
        let payload = Bytes::copy_from_slice(&tail[..size]);
        read.push(reliable::read_packet(head, payload));
        rest = &tail[size..];
    }
    assert_eq!(read.len(), 3);
    match &read[0] {
        AVPacket::Codec(packet) => assert_eq!(packet.header.codec, 0x6176_3031),
        AVPacket::Media(_) => panic!("not a codec packet"),
    }
    match &read[1] {
        AVPacket::Media(packet) => {
            assert!(packet.header.is_config);
            assert_eq!(&packet.payload[..], [1, 2, 3]);
        }
        AVPacket::Codec(_) => panic!("not a media packet"),
    }
    match &read[2] {
        AVPacket::Media(packet) => {
            assert_eq!(packet.header.pts, 2);
            assert!(packet.payload.is_empty());
        }
        AVPacket::Codec(_) => panic!("not a media packet"),
    }
}

#[test]
fn reliable_stream_starts_with_a_unidirectional_stream() {
    assert!(reliable::start_recv(reliable::Arrival::Uni).unwrap());
    assert!(!reliable::start_recv(reliable::Arrival::Datagram).unwrap());
    let error = reliable::start_recv(reliable::Arrival::Bi).unwrap_err();
    assert_eq!(error.0, "Unexpected accept_bi()");
    assert_eq!(error.message(), "Protocol error: Unexpected accept_bi()");
}

#[test]
fn stream_ends_cleanly_between_packets() {
    assert!(reliable::is_clean_end(0));
    assert!(!reliable::is_clean_end(3));
}

fn kypacket_bytes(flags: u8, payload: &[u8]) -> Vec<u8> {
    let mut bytes = vec![0, 0, 0, 7, flags, 0, 0, 0, 0, 0, 1, 2];
    bytes.extend_from_slice(&(payload.len() as u32).to_be_bytes());
    bytes.extend_from_slice(payload);
    bytes
}

#[test]
fn kypacket_media() {
    let bytes = kypacket_bytes(0xE0, &[5, 6]);
    assert_eq!(kypacket::Packet::payload_size(&bytes[..16]), 2);
    match kypacket::Packet::read(bytes.clone()) {
        kypacket::Packet::Media(packet) => {
            assert_eq!(packet.data, bytes);
            assert_eq!(packet.header.stream_id, 7);
            assert!(packet.header.is_config);
            assert!(packet.header.is_key);
            assert_eq!(packet.header.pts, 0x102);
            assert_eq!(packet.header.size, 2);
        }
        kypacket::Packet::Codec(_) => panic!("not a media packet"),
    }
}

#[test]
fn kypacket_codec_is_its_header() {
    let bytes = kypacket_bytes(0x7F, &[])[..16].to_vec();
    assert_eq!(kypacket::Packet::payload_size(&bytes), 0);
    match kypacket::Packet::read(bytes.clone()) {
        kypacket::Packet::Codec(packet) => assert_eq!(packet.header, bytes),
        kypacket::Packet::Media(_) => panic!("not a codec packet"),
    }
}

fn read_all(stream: &[u8], step: usize) -> (Vec<AVPacket>, Result<(), ReadExactError>) {
    let mut packets = Vec::new();
    let mut at = 0;
    loop {
        let mut reader = reliable::PacketReader::new();
        while reader.wanted() > 0 {
            let len = reader.wanted().min(step).min(stream.len() - at);
            if len == 0 {
                return (packets, reader.end());
            }
            reader.push(&stream[at..at + len]);
            at += len;
        }
        packets.push(reader.packet());
    }
}

#[test]
fn packets_are_read_one_by_one() {
    let codec = CodecPacketHeader {
        codec: 3,
        rotation: 1,
        frame_size: 2,
    };
    let mut stream = codec.serialize().to_vec();
    stream.extend_from_slice(&reliable::send(&AVPacket::Media(media(false, true, 5, &[7; 9]))));
    for step in [1, 5, 100] {
        let (packets, end) = read_all(&stream, step);
        assert!(end.is_ok());
        assert_eq!(packets.len(), 2);
        match (&packets[0], &packets[1]) {
            (AVPacket::Codec(first), AVPacket::Media(second)) => {
                assert_eq!(first.header, codec);
                assert_eq!(second.header.pts, 5);
                assert_eq!(&second.payload[..], [7; 9]);
            }
            _ => panic!("other packets"),
        }
    }
}

#[test]
fn stream_may_end_only_between_packets() {
    let stream = reliable::send(&AVPacket::Media(media(false, true, 5, &[7; 9])));
    assert!(read_all(&[], 100).1.is_ok());
    assert_eq!(read_all(&stream[..4], 100).1, Err(ReadExactError::FinishedEarly(4)));
    assert_eq!(read_all(&stream[..12], 100).1, Err(ReadExactError::FinishedEarly(0)));
    assert_eq!(read_all(&stream[..20], 100).1, Err(ReadExactError::FinishedEarly(8)));
}
