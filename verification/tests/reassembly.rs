use bytes::{BufMut, Bytes, BytesMut};
use kymux::audio_unreliable::DatagramSegments;
use kymux::av::AVPacket;

#[test]
fn test() {
    let d0 = {
        let mut buf = BytesMut::with_capacity(128);
        let flags = 0b101 << 61; // media + key
        buf.put_u64(0x1234567 | flags);
        buf.put_u32(17); // kypacket_size
        buf.put([1, 3, 5, 7, 9, 11, 13].as_ref()); // random data
        buf.freeze()
    };

    let d1 = Bytes::from([2, 4, 6, 8, 10, 12].as_ref().to_vec());
    let d2 = Bytes::from([0xF0, 0xE0, 0xD0, 0xC0].as_ref().to_vec());

    let kypacket_seq = 42;
    let mut datagram_segments = DatagramSegments::new(kypacket_seq);

    assert!(!datagram_segments.is_complete());
    datagram_segments.set_segment(1, d1, false);
    assert!(!datagram_segments.is_complete());
    datagram_segments.set_segment(2, d2, true);
    assert!(!datagram_segments.is_complete());
    datagram_segments.set_segment(0, d0, false);
    assert!(datagram_segments.is_complete());

    let datagram_packet = datagram_segments.assemble(0);
    assert_eq!(datagram_packet.kypacket_seq, 42);

    if let AVPacket::Media(packet) = datagram_packet.packet {
        assert_eq!(packet.header.pts, 0x1234567);
        assert!(!packet.header.is_config);
        assert!(packet.header.is_key);
        assert_eq!(packet.payload.len(), 17);

        // payload
        assert_eq!(
            &packet.payload[..],
            [1, 3, 5, 7, 9, 11, 13, 2, 4, 6, 8, 10, 12, 0xF0, 0xE0, 0xD0, 0xC0]
        );
    } else {
        panic!("Not a media packet");
    }
}
