use fluent_source::addr::{parse_listen_addr, Ipv4Socket, SocketListenAddr};
use fluent_source::runtime::{conn_step, tripwire_deadline, ConnAction, ConnEvent,
    ConnState, FluentConfig, FluentSource, ListenAction, ListenEvent, ListenerState,
    DEFAULT_SHUTDOWN_GRACE_SECS};

#[test]
fn parse_socket_listen_addr() {
    assert_eq!(
        parse_listen_addr(&b"127.1.2.3:1234".to_vec()),
        Some(SocketListenAddr::SocketAddr(Ipv4Socket {
            a: 127,
            b: 1,
            c: 2,
            d: 3,
            port: 1234,
        }))
    );
    assert_eq!(
        parse_listen_addr(&b"systemd".to_vec()),
        Some(SocketListenAddr::SystemdFd(0))
    );
    assert_eq!(
        parse_listen_addr(&b"systemd#3".to_vec()),
        Some(SocketListenAddr::SystemdFd(2))
    );
}

#[test]
fn bad_listen_addresses_are_rejected() {
    for bad in ["systemd#0", "systemd#", "256.1.1.1:80", "1.2.3.4:65536", "1.2.3:80",
        "01.2.3.4:80", "1.2.3.4:", "nonsense"] {
        assert_eq!(parse_listen_addr(&bad.as_bytes().to_vec()), None, "{}", bad);
    }
}

#[test]
fn address_round_trip() {
    let fd = SocketListenAddr::SystemdFd(2);
    let written = fd.to_config_bytes();
    assert_eq!(written, b"systemd#3".to_vec());
    assert_eq!(parse_listen_addr(&written), Some(fd));

    let tcp = SocketListenAddr::SocketAddr(Ipv4Socket {
        a: 0,
        b: 0,
        c: 0,
        d: 0,
        port: 24224,
    });
    let written = tcp.to_config_bytes();
    assert_eq!(written, b"0.0.0.0:24224".to_vec());
    assert_eq!(parse_listen_addr(&written), Some(tcp));

    assert_eq!(fd.to_display_bytes(), b"systemd socket #2".to_vec());
}

#[test]
fn generate_config() {
    let c = FluentConfig::generate_config();
    assert_eq!(
        c.address,
        SocketListenAddr::SocketAddr(Ipv4Socket {
            a: 0,
            b: 0,
            c: 0,
            d: 0,
            port: 24224,
        })
    );
    assert!(c.tls.is_none());
    assert!(c.keepalive_secs.is_none());
    assert!(c.receive_buffer_bytes.is_none());
    assert_eq!(DEFAULT_SHUTDOWN_GRACE_SECS, 30);
}

#[test]
fn listener_stops_accepting_on_shutdown() {
    let s = ListenerState::initial();
    assert!(s.accepting);
    let (s, a) = s.step(ListenEvent::AcceptOk);
    assert_eq!(a, ListenAction::SpawnConnection);
    assert_eq!(s.open_connections, 1);
    let (s, a) = s.step(ListenEvent::ShutdownSignal);
    assert_eq!(a, ListenAction::StopAccepting);
    assert!(!s.accepting);
    // no event spawns a connection once stopped
    let (s, a) = s.step(ListenEvent::AcceptOk);
    assert_eq!(a, ListenAction::Nothing);
    assert!(!s.accepting);
    let (s, a) = s.step(ListenEvent::ConnectionClosed);
    assert_eq!(a, ListenAction::Nothing);
    assert_eq!(s.open_connections, 0);
    let (_, a) = s.step(ListenEvent::AcceptFailed);
    assert_eq!(a, ListenAction::LogAndContinue);
}

#[test]
fn tripwire_closes_every_state() {
    for s in [ConnState::Handshaking, ConnState::Reading, ConnState::Draining] {
        let (next, action) = conn_step(s, ConnEvent::TripwireFired);
        assert_eq!(next, ConnState::Closed);
        assert_eq!(action, ConnAction::Close);
    }
    assert_eq!(tripwire_deadline(100, 30), 130);
    assert_eq!(tripwire_deadline(u64::MAX, 30), u64::MAX);
}

#[test]
fn connection_lifecycle_decisions() {
    let (s, a) = conn_step(ConnState::Handshaking, ConnEvent::HandshakeOk);
    assert_eq!((s, a), (ConnState::Reading, ConnAction::Nothing));
    let (s, a) = conn_step(s, ConnEvent::FrameDecoded);
    assert_eq!((s, a), (ConnState::Reading, ConnAction::ForwardFrame));
    let (s, a) = conn_step(s, ConnEvent::DecodeFailed(false));
    assert_eq!((s, a), (ConnState::Reading, ConnAction::LogAndContinue));
    let (s, a) = conn_step(s, ConnEvent::ShutdownSignal);
    assert_eq!((s, a), (ConnState::Reading, ConnAction::CloseWrite));
    let (s, a) = conn_step(s, ConnEvent::SinkFailed);
    assert_eq!((s, a), (ConnState::Draining, ConnAction::Nothing));
    let (s, a) = conn_step(s, ConnEvent::FrameDecoded);
    assert_eq!((s, a), (ConnState::Draining, ConnAction::DropFrame));
    let (s, a) = conn_step(s, ConnEvent::StreamEnded);
    assert_eq!((s, a), (ConnState::Closed, ConnAction::Close));
    let (s, a) = conn_step(s, ConnEvent::FrameDecoded);
    assert_eq!((s, a), (ConnState::Closed, ConnAction::Nothing));

    let (s, a) = conn_step(ConnState::Reading, ConnEvent::DecodeFailed(true));
    assert_eq!((s, a), (ConnState::Closed, ConnAction::Close));
    let (s, a) = conn_step(ConnState::Handshaking, ConnEvent::HandshakeFailed);
    assert_eq!((s, a), (ConnState::Closed, ConnAction::Close));
}

#[test]
fn source_hands_out_fresh_decoders() {
    let source = FluentSource;
    let mut dec = source.decoder();
    let mut buf = Vec::new();
    assert!(dec.decode(&mut buf).unwrap().is_none());
}

#[test]
fn huge_systemd_index_is_rejected() {
    // one past the machine's word range
    let s = format!("systemd#{}", (usize::MAX as u128) + 2);
    assert_eq!(parse_listen_addr(&s.as_bytes().to_vec()), None);
    let s = format!("systemd#{}", usize::MAX);
    assert_eq!(
        parse_listen_addr(&s.as_bytes().to_vec()),
        Some(SocketListenAddr::SystemdFd(usize::MAX - 1))
    );
}
