use bytes::{Bytes, BytesMut};
use kymux::cert::{Certificate, PemItem, PemKind, PrivateKey, RootCertStore};
use kymux::clock_sync;
use kymux::clock_sync::{ClockSyncClientProtocol, ClockSyncResult, ClockSyncServerProtocol};
use kymux::control::{ClientAction, ControlAction, ControlMsg, State};
use kymux::endpoint;
use kymux::endpoint::{
    EndpointBuilder, EndpointDesc, EndpointIds, FirstMsg, ForwardProtocol, LocalPorts, StreamOwner,
    StreamSource, StreamType, VideoProtocol,
};
use kymux::error;
use kymux::error::{Error, LoadCertError};
use kymux::framing;
use kymux::router;
use kymux::router::Router;
use kymux::text;
use kymux::transport;
use kymux::transport::{RecvStreamDriver, SendStreamDriver};
use kymux::waiters::{ComErrorKind, EndpointAlreadyRegistered, KyComAddr, PendingEndpoints, Waiters};
use kymux::webtransport;
use kymux::webtransport::{DecodeHexError, WebTransportCertificateHash, WebTransportJSHash};

#[test]
fn clocks_are_compared() {
    let mut client = ClockSyncClientProtocol::new();
    let (request, sent) = client.sync(3, 1_000);
    assert_eq!(
        &sent[..],
        [0, 3, 0, 0, 0, 0, 0, 0, 0, 0, 0, 0, 3, 0xE8]
    );
    assert_eq!(client.next_id, 1);
    assert_eq!(request.timeout(1_000), Some(200_000));
    assert_eq!(request.timeout(200_999), Some(1));
    assert_eq!(request.timeout(201_000), None);

    // The server is 500 ahead; 20 on the way each.
    let response = ClockSyncServerProtocol::serve(&sent, 1_520, 1_530);
    assert_eq!(response.len(), 30);
    assert_eq!(response[..14], sent[..]);
    assert!(request.accepts_response(&response));
    let result = request.on_response(response.clone(), 1_050).unwrap();
    assert_eq!(
        result,
        ClockSyncResult {
            t1: 1_000,
            t2: 1_520,
            t3: 1_530,
            t4: 1_050
        }
    );
    assert_eq!(result.offset_micros(), 500);
    assert_eq!(result.delay_micros(), 40);

    // The response is not for the next request.
    let (request, _) = client.sync(3, 2_000);
    assert!(request.accepts_response(&response));
    assert_eq!(request.on_response(response.clone(), 2_050), None);
    assert!(!request.accepts_response(&response.slice(..29)));
    let (request, _) = client.sync(4, 2_000);
    assert!(!request.accepts_response(&response));
}

#[test]
fn offset_rounds_towards_zero() {
    assert_eq!(ClockSyncResult::new(3, 0, 0, 0).offset_micros(), -1);
    assert_eq!(ClockSyncResult::new(0, 3, 0, 0).offset_micros(), 1);
}

#[test]
fn request_ids_wrap_around() {
    let mut client = ClockSyncClientProtocol { next_id: u32::MAX };
    let (request, _) = client.sync(0, 0);
    assert_eq!(request.req_id, u32::MAX);
    assert_eq!(client.next_id, 0);
}

#[test]
fn times_have_63_bits() {
    assert_eq!(clock_sync::now_micros(Some(12)).unwrap(), 12);
    assert_eq!(
        clock_sync::now_micros(Some(0x7FFF_FFFF_FFFF_FFFF)).unwrap(),
        0x7FFF_FFFF_FFFF_FFFF
    );
    assert_eq!(
        clock_sync::now_micros(Some(0x8000_0000_0000_0000)).unwrap_err().0,
        "Invalid 63-bit timestamp"
    );
    assert_eq!(clock_sync::now_micros(None).unwrap_err().0, "Timestamp failed");
}

#[test]
fn forward_protocols() {
    let desc = |type_| EndpointDesc {
        id: 0,
        owner: StreamOwner::Local,
        type_,
    };
    let all = [
        (VideoProtocol::Reliable, ForwardProtocol::SimpleUni),
        (VideoProtocol::GopStream, ForwardProtocol::GopStream),
        (VideoProtocol::Unreliable, ForwardProtocol::Unreliable),
        (VideoProtocol::UnreliableFec, ForwardProtocol::UnreliableFec),
    ];
    for (video_protocol, protocol) in all {
        assert_eq!(desc(StreamType::Video).protocol(video_protocol), protocol);
        assert_eq!(
            desc(StreamType::Audio).protocol(video_protocol),
            ForwardProtocol::SimpleUni
        );
        assert_eq!(
            desc(StreamType::Input).protocol(video_protocol),
            ForwardProtocol::SimpleBi
        );
    }
}

#[test]
fn stream_types_on_the_command_line() {
    let words = |words: &[&str]| words.iter().map(|word| word.to_string()).collect();
    assert_eq!(
        endpoint::parse_stream_types(&words(&["video", "audio", "video"])).unwrap(),
        [StreamType::Video, StreamType::Audio, StreamType::Video]
    );
    assert_eq!(
        endpoint::parse_stream_types(&words(&["audio", "input", "x"])).unwrap_err(),
        "Unexpected stream type: input"
    );
    assert_eq!(
        endpoint::parse_stream_type(&"Video".to_string()).unwrap_err(),
        "Unexpected stream type: Video"
    );
}

#[test]
fn builder_needs_three_things_once_each() {
    let desc = EndpointDesc {
        id: 4,
        owner: StreamOwner::Peer,
        type_: StreamType::Audio,
    };
    let mut builder = EndpointBuilder::new(desc);
    assert!(matches!(builder.build(), Err(Error::EndpointBuilderNotReady)));
    assert!(builder.set_client().is_ok());
    assert!(matches!(builder.set_client(), Err(Error::FatalError)));
    assert!(builder.peer_client_connected().is_ok());
    assert!(matches!(builder.peer_client_connected(), Err(Error::FatalError)));
    assert!(!builder.ready());
    assert!(builder.set_ky_channel().is_ok());
    assert!(matches!(builder.set_ky_channel(), Err(Error::FatalError)));
    assert!(builder.ready());
    assert_eq!(builder.build().unwrap(), desc);
}

#[test]
fn owner_opens_the_stream() {
    assert_eq!(endpoint::stream_source(StreamOwner::Local), StreamSource::Open);
    assert_eq!(endpoint::stream_source(StreamOwner::Peer), StreamSource::Accept);
    assert!(endpoint::check_first_msg(true, FirstMsg::AcceptBi).is_ok());
    assert!(endpoint::check_first_msg(false, FirstMsg::AcceptUni).is_ok());
    match endpoint::check_first_msg(true, FirstMsg::Datagram) {
        Err(Error::KymuxProtocolError(text)) => {
            assert_eq!(text, "Unexpected message, expected AcceptBi");
        }
        _ => panic!("no protocol error"),
    }
    match endpoint::check_first_msg(false, FirstMsg::AcceptBi) {
        Err(Error::KymuxProtocolError(text)) => {
            assert_eq!(text, "Unexpected message, expected AcceptUni");
        }
        _ => panic!("no protocol error"),
    }
}

#[test]
fn both_sides_give_different_ids() {
    let mut server = EndpointIds::new(endpoint::INITIATOR_SERVER);
    let mut client = EndpointIds::new(endpoint::INITIATOR_CLIENT);
    assert_eq!(server.get_endpoint_id(None), 0);
    assert_eq!(server.get_endpoint_id(None), 2);
    assert_eq!(client.get_endpoint_id(None), 1);
    assert_eq!(client.get_endpoint_id(Some(77)), 77);
    assert_eq!(client.get_endpoint_id(None), 3);
    let mut client = EndpointIds {
        next_endpoint_index: 0x8000,
        initiator: endpoint::INITIATOR_CLIENT,
    };
    assert_eq!(client.get_endpoint_id(None), 1);
}

#[test]
fn ten_ports_are_tried() {
    let mut ports = LocalPorts::new(4000);
    for i in 0..10 {
        assert_eq!(ports.next_port().unwrap(), 4000 + i);
    }
    assert!(matches!(ports.next_port(), Err(Error::IpcNoPortAvailable)));
}

#[test]
fn datagrams_are_routed_by_their_id() {
    let mut router = Router::new();
    assert!(router.register(5).is_ok());
    assert!(matches!(
        router.register(5),
        Err(Error::KyChannelAlreadyRegistered { endpoint_id: 5 })
    ));
    let mut buf = BytesMut::new();
    router::write_datagram_header(5, &mut buf);
    assert_eq!(&buf[..], [0, 0, 0, 0, 0, 0, 0, 5]);
    buf.extend_from_slice(&[1, 2, 3]);
    let datagram = buf.freeze();
    assert_eq!(router.route_datagram(&datagram), Some(5));
    assert_eq!(router.route_datagram(&datagram.slice(..7)), None);
    assert_eq!(router.route_short_datagram(&datagram), None);
    let short = Bytes::from_static(&[0, 5, 1]);
    assert_eq!(router.route_short_datagram(&short), Some(5));
    assert_eq!(router.route_short_datagram(&short.slice(..1)), None);
    router.unregister(5);
    assert!(!router.is_registered(5));
    assert_eq!(router.route_datagram(&datagram), None);
}

#[test]
fn streams_are_routed_by_their_id() {
    let mut router = Router::new();
    router.register(7).unwrap();
    assert!(router.is_registered(7));
    assert_eq!(router.route_stream(Some(7)).unwrap(), Some(7));
    assert_eq!(router.route_stream(None).unwrap(), None);
    assert!(matches!(
        router.route_stream(Some(8)),
        Err(Error::KyChannelUnknownId { endpoint_id: 8 })
    ));
}

#[test]
fn endpoint_is_negotiated() {
    let mut local = State::new();
    let mut peer = State::new();
    let mut local_router = Router::new();
    let mut peer_router = Router::new();

    let msg = local.register_endpoint(2, StreamType::Video);
    assert_eq!(
        msg,
        ControlMsg::RegisterEndpoint {
            id: 2,
            type_: StreamType::Video
        }
    );
    let reply = match peer.handle_msg(msg).unwrap() {
        ControlAction::Send(reply) => reply,
        _ => panic!("no reply"),
    };
    assert_eq!(reply, ControlMsg::EndpointRegistered { endpoint_id: 2 });
    assert_eq!(local.handle_msg(reply).unwrap(), ControlAction::NotifyRegistered(2));
    assert!(matches!(local.handle_msg(reply), Err(Error::InvalidControlMsg)));

    let connected = ControlMsg::ClientConnected { endpoint_id: 2 };
    assert_eq!(
        local.handle_client(&mut local_router, 2).unwrap(),
        ClientAction::Notify(connected)
    );
    assert!(local_router.is_registered(2));
    assert_eq!(local.start_endpoint(2), ControlAction::Wait);
    assert_eq!(peer.handle_msg(connected).unwrap(), ControlAction::Wait);
    assert!(matches!(peer.handle_msg(connected), Err(Error::FatalError)));
    assert_eq!(
        peer.handle_client(&mut peer_router, 2).unwrap(),
        ClientAction::Notify(connected)
    );
    assert_eq!(
        peer.start_endpoint(2),
        ControlAction::Start(EndpointDesc {
            id: 2,
            owner: StreamOwner::Peer,
            type_: StreamType::Video
        })
    );
    assert_eq!(
        local.handle_msg(connected).unwrap(),
        ControlAction::Start(EndpointDesc {
            id: 2,
            owner: StreamOwner::Local,
            type_: StreamType::Video
        })
    );
    assert_eq!(local.start_endpoint(2), ControlAction::Wait);
    assert!(matches!(local.handle_msg(connected), Err(Error::InvalidControlMsg)));
}

#[test]
fn clients_that_do_not_belong() {
    let mut state = State::new();
    let mut router = Router::new();
    assert_eq!(state.handle_client(&mut router, 9).unwrap(), ClientAction::Ignore);
    state.register_endpoint(9, StreamType::Audio);
    assert!(state.handle_client(&mut router, 9).is_ok());
    assert!(matches!(state.handle_client(&mut router, 9), Err(Error::FatalError)));
    state.register_endpoint(9, StreamType::Audio);
    assert!(matches!(
        state.handle_client(&mut router, 9),
        Err(Error::KyChannelAlreadyRegistered { endpoint_id: 9 })
    ));
}

#[test]
fn messages_before_the_connection() {
    let mut state = State::new();
    for msg in [ControlMsg::Authenticate, ControlMsg::ConnectionAccepted] {
        assert!(matches!(state.handle_msg(msg), Err(Error::InvalidControlMsg)));
    }
}

#[test]
fn frames() {
    assert_eq!(framing::frame_header(0x0102_0304), [1, 2, 3, 4]);
    let frame = framing::write_frame(&[7, 8]);
    assert_eq!(frame, [0, 0, 0, 2, 7, 8]);
    assert_eq!(framing::frame_len(&frame[..4]), 2);
    let frame = framing::write_buf(&[7, 8, 9]);
    assert_eq!(frame, [0, 0, 0, 0, 0, 0, 0, 3, 7, 8, 9]);
    assert_eq!(framing::buf_header_len(), 8);
    assert_eq!(framing::buf_len(&frame[..8]), 3);
}

#[test]
fn start_requests() {
    let mut waiters = Waiters::new();
    assert!(waiters.register_start_request_receiver(12).is_ok());
    assert_eq!(
        waiters.register_start_request_receiver(12),
        Err(EndpointAlreadyRegistered { endpoint_id: 12 })
    );
    assert!(waiters.handle_msg(12).is_ok());
    let error = waiters.handle_msg(12).unwrap_err();
    assert_eq!(error.0, "Received unexpected start request for endpoint 12");
    assert_eq!(
        error.message(),
        "control error: Received unexpected start request for endpoint 12"
    );
}

#[test]
fn local_clients() {
    let mut pending = PendingEndpoints::new();
    assert!(pending.register(0xAB).is_ok());
    let error = pending.register(0xAB).unwrap_err();
    assert_eq!(error.kind, ComErrorKind::AlreadyExists);
    assert_eq!(error.text, "Endpoint {endpoint_id} already pending");
    assert!(pending.handle_stream(0xAB).is_ok());
    let error = pending.handle_stream(0xAB).unwrap_err();
    assert_eq!(error.kind, ComErrorKind::NotFound);
    assert_eq!(error.text, "Connection received for unknown endpoint id: AB");
    let addr = KyComAddr::new("127.0.0.1:80".to_string(), 0x1F);
    assert_eq!(addr.url(), "kymux://127.0.0.1:80/1F");
}

#[test]
fn numbers_as_text() {
    for n in [0, 9, 10, 255, 4096, u64::MAX] {
        assert_eq!(text::number(n, 10), format!("{}", n));
        assert_eq!(text::number(n, 16), format!("{:X}", n));
    }
}

#[test]
fn hashes_in_hexadecimal() {
    let hash = WebTransportJSHash::new_sha256_from_hex("00fFa1+7").unwrap();
    assert_eq!(hash.algorithm, "sha-256");
    assert_eq!(hash.value, [0, 255, 0xA1, 7]);
    assert_eq!(
        WebTransportJSHash::new_from_hex("x".to_string(), "").unwrap().value,
        [0u8; 0]
    );
    assert_eq!(
        WebTransportJSHash::new_sha256_from_hex("000").unwrap_err(),
        DecodeHexError::OddLength
    );
    for text in ["0g", "g0", "7+", "++", "-1"] {
        let error = WebTransportJSHash::new_sha256_from_hex(text).unwrap_err();
        assert_eq!(error, DecodeHexError::ParseInt);
        assert_eq!(error.message(), "decode hex error");
    }
}

#[test]
fn browser_options() {
    let options = webtransport::client_options(None).unwrap();
    assert!(options.require_unreliable);
    assert_eq!(
        options.congestion_control,
        webtransport::WebTransportJSCongestionControl::LowLatency
    );
    assert!(options.server_certificate_hashes.is_empty());
    let hash = |hash: &str| {
        Some(WebTransportCertificateHash {
            hash_algorithm: "sha-256".to_string(),
            hash: hash.to_string(),
        })
    };
    let options = webtransport::client_options(hash("0a0B")).unwrap();
    assert_eq!(options.server_certificate_hashes.len(), 1);
    assert_eq!(options.server_certificate_hashes[0].algorithm, "sha-256");
    assert_eq!(options.server_certificate_hashes[0].value, [10, 11]);
    assert_eq!(
        webtransport::client_options(hash("0")).unwrap_err(),
        DecodeHexError::OddLength
    );
    let options = webtransport::WebTransportJSOptions::default();
    assert!(!options.require_unreliable);
}

#[test]
fn transport_messages() {
    let msg = || "x".to_string();
    let lost = || transport::ConnectionError::Generic { msg: msg() };
    assert_eq!(lost().message(), "generic connection error: x");
    assert_eq!(
        transport::SendDatagramError::Generic { msg: msg() }.message(),
        "generic send datagram error: x"
    );
    let failures = [
        (
            transport::DatagramFailure::UnsupportedByPeer,
            "datagram unsupported by peer",
        ),
        (
            transport::DatagramFailure::Disabled,
            "datagram unsupported by peer",
        ),
        (transport::DatagramFailure::TooLarge, "datagram too large"),
        (
            transport::DatagramFailure::ConnectionLost(lost()),
            "connection error",
        ),
    ];
    for (failure, text) in failures {
        assert_eq!(transport::SendDatagramError::from_failure(failure).message(), text);
    }
    let read = transport::ReadError::Generic { msg: msg() };
    assert_eq!(read.message(), "generic read error: x");
    assert_eq!(
        transport::ReadExactError::FinishedEarly.message(),
        "read exact finished early"
    );
    assert_eq!(transport::ReadExactError::ReadError(read).message(), "read error");
    assert_eq!(
        transport::WriteError::Generic { msg: msg() }.message(),
        "generic write error: x"
    );
    assert_eq!(transport::UnknownStreamError.message(), "unknown stream");
}

#[test]
fn error_messages() {
    let msg = || "x".to_string();
    assert_eq!(error::ConnectionError(msg()).message(), "connection error: x");
    assert_eq!(error::SendDatagramError(msg()).message(), "send datagram error: x");
    assert_eq!(error::ReadError(msg()).message(), "read error: x");
    assert_eq!(
        error::ReadExactError::FinishedEarly(120).message(),
        "read exact finished early (120 bytes read)"
    );
    assert_eq!(
        error::ReadExactError::ReadError(error::ReadError(msg())).message(),
        "read error"
    );
    assert_eq!(error::WriteError(msg()).message(), "write error: x");
    assert_eq!(error::UnknownStreamError.message(), "unknown stream");
    assert_eq!(error::CertError(msg()).message(), "certificate error: x");
    assert_eq!(LoadCertError::Io(msg()).message(), "IO error");
    assert_eq!(
        LoadCertError::Cert(error::CertError(msg())).message(),
        "Certificate error"
    );
    assert_eq!(
        error::ConnectionError::from_cert(error::CertError(msg())),
        error::ConnectionError(msg())
    );
}

#[test]
fn connections_that_end() {
    assert!(transport::closed(transport::CloseReason::LocallyClosed).is_ok());
    assert!(transport::closed(transport::CloseReason::ApplicationClosed).is_ok());
    assert_eq!(
        transport::closed(transport::CloseReason::Lost("timed out".to_string())),
        Err(error::ConnectionError("timed out".to_string()))
    );
}

struct Aborts(usize);

impl SendStreamDriver for Aborts {
    fn abort(&mut self) -> Result<(), transport::UnknownStreamError> {
        self.0 += 1;
        if self.0 > 1 {
            Err(transport::UnknownStreamError)
        } else {
            Ok(())
        }
    }
}

impl RecvStreamDriver for Aborts {}

#[test]
fn streams_over_a_driver() {
    let mut stream = transport::SendStream::new(Aborts(0));
    assert_eq!(stream.abort(), Ok(()));
    assert_eq!(stream.abort(), Err(transport::UnknownStreamError));
    assert_eq!(stream.driver.0, 2);
    assert_eq!(transport::RecvStream::new(Aborts(7)).driver.0, 7);
}

#[test]
fn connections_are_kept_alive() {
    assert_eq!(
        transport::quic_server_options().keep_alive_interval,
        Some(5_000_000_000)
    );
    assert_eq!(
        transport::quic_client_options().keep_alive_interval,
        Some(5_000_000_000)
    );
    assert_eq!(
        transport::wtransport_server_options().keep_alive_interval,
        Some(5_000_000_000)
    );
    assert_eq!(
        transport::WTransportClientOptions::default().keep_alive_interval,
        None
    );
}

#[test]
fn certificate_from_pem() {
    let identity = wtransport::Identity::self_signed(["localhost"]).unwrap();
    let original = &identity.certificate_chain().as_slice()[0];
    let certificate = Certificate::load_pem(original.to_pem().as_bytes()).unwrap();
    assert_eq!(certificate.to_vec(), original.der());
    let key = PrivateKey::load_pem(identity.private_key().to_secret_pem().as_bytes()).unwrap();
    assert_eq!(key.kind, PemKind::Pkcs8Key);
    assert_eq!(key.der, identity.private_key().secret_der());

    // Not the other way round.
    match PrivateKey::load_pem(original.to_pem().as_bytes()) {
        Err(LoadCertError::Cert(error)) => assert_eq!(error.0, "Invalid key"),
        _ => panic!("no certificate error"),
    }
    match Certificate::load_pem(identity.private_key().to_secret_pem().as_bytes()) {
        Err(LoadCertError::Cert(error)) => assert_eq!(error.0, "Invalid certificate"),
        _ => panic!("no certificate error"),
    }

    let mut roots = RootCertStore::with_single_cert(&certificate).unwrap();
    assert_eq!(roots.len(), 1);
    assert!(!roots.is_empty());
    roots.add(&certificate).unwrap();
    assert_eq!(roots.len(), 2);
    assert!(roots.add(&Certificate { der: vec![1, 2, 3] }).is_err());
    assert_eq!(roots.len(), 2);
}

#[test]
fn no_roots() {
    let roots = RootCertStore::empty();
    assert!(roots.is_empty());
    assert!(RootCertStore::with_single_cert(&Certificate { der: vec![] }).is_err());
}

#[test]
fn pem_sections() {
    assert!(matches!(
        Certificate::load_pem(b"nothing here"),
        Err(LoadCertError::Cert(_))
    ));
    assert!(matches!(
        Certificate::load_pem(b"-----BEGIN CERTIFICATE-----\nAAAA\n"),
        Err(LoadCertError::Io(_))
    ));
    let item = |kind| {
        Some(PemItem {
            kind,
            der: vec![1, 2],
        })
    };
    assert_eq!(
        Certificate::from_item(item(PemKind::X509Certificate)).unwrap().der,
        [1, 2]
    );
    assert!(Certificate::from_item(None).is_err());
    for kind in [PemKind::Pkcs1Key, PemKind::Pkcs8Key, PemKind::Sec1Key] {
        let key = PrivateKey::from_item(item(kind)).unwrap();
        assert_eq!((key.kind, key.der), (kind, vec![1, 2]));
        assert!(Certificate::from_item(item(kind)).is_err());
    }
    assert!(PrivateKey::from_item(item(PemKind::Other)).is_err());
    assert!(PrivateKey::from_item(item(PemKind::X509Certificate)).is_err());
    assert!(PrivateKey::from_item(None).is_err());
}

#[test]
fn short_datagram_has_no_endpoint() {
    assert_eq!(Router::new().route_datagram(&Bytes::new()), None);
}

#[test]
fn streams_start_with_their_endpoint() {
    let id = 0x0102_0304_0506_0708;
    assert_eq!(kymux::router::endpoint_id_bytes(id), [1, 2, 3, 4, 5, 6, 7, 8]);
    assert_eq!(kymux::router::parse_endpoint_id(&[1, 2, 3, 4, 5, 6, 7, 8]), id);
    assert_eq!(kymux::router::short_endpoint_id_bytes(0xABCD), [0xAB, 0xCD]);
    assert_eq!(kymux::router::parse_short_endpoint_id(&[0xAB, 0xCD]), 0xABCD);
}
