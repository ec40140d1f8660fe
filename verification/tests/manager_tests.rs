use tcp_rust::manager::ConnectionManager;
use tcp_rust::manager::DatagramOutcome;
use tcp_rust::tcp::Quad;
use tcp_rust::tcp::SegmentIn;
use tcp_rust::tcp::State;
use tcp_rust::tcp::TcpError;

const PEER_IP: [u8; 4] = [10, 0, 0, 2];
const LOCAL_IP: [u8; 4] = [10, 0, 0, 1];
const PEER_PORT: u16 = 45000;
const LOCAL_PORT: u16 = 9000;

fn peer_quad() -> Quad {
    Quad {
        src_ip: u32::from_be_bytes(PEER_IP),
        src_port: PEER_PORT,
        dst_ip: u32::from_be_bytes(LOCAL_IP),
        dst_port: LOCAL_PORT,
    }
}

/// Builds the wire bytes of one segment from the peer, as the tunnel
/// would deliver them.
fn wire_from_peer(seq: u32, ack: u32, has_ack: bool, syn: bool, fin: bool, payload: &[u8]) -> Vec<u8> {
    let ip = etherparse::Ipv4Header::new(
        20 + payload.len() as u16,
        64,
        etherparse::IpNumber::Tcp,
        PEER_IP,
        LOCAL_IP,
    );
    let mut tcp = etherparse::TcpHeader::new(PEER_PORT, LOCAL_PORT, seq, 4096);
    tcp.acknowledgment_number = ack;
    tcp.ack = has_ack;
    tcp.syn = syn;
    tcp.fin = fin;
    tcp.checksum = tcp.calc_checksum_ipv4(&ip, payload).unwrap();
    let mut buf: Vec<u8> = Vec::new();
    ip.write(&mut buf).unwrap();
    tcp.write(&mut buf).unwrap();
    buf.extend_from_slice(payload);
    buf
}

fn seg(seq: u32, ack: u32, has_ack: bool, syn: bool, fin: bool, payload: &[u8]) -> SegmentIn {
    SegmentIn { seq, ack, wnd: 4096, syn, fin, has_ack, payload: payload.to_vec() }
}

#[test]
fn bind_twice_is_address_in_use() {
    let mut m = ConnectionManager::new();
    assert!(m.bind(LOCAL_PORT).is_ok());
    assert!(matches!(m.bind(LOCAL_PORT), Err(TcpError::AddrInUse)));
    assert!(m.bind(LOCAL_PORT + 1).is_ok());
}

#[test]
fn pop_pending_without_listener_is_aborted() {
    let mut m = ConnectionManager::new();
    assert!(matches!(m.pop_pending(LOCAL_PORT), Err(TcpError::ConnectionAborted)));
}

#[test]
fn unbind_returns_the_unclaimed_flows() {
    let mut m = ConnectionManager::new();
    m.bind(LOCAL_PORT).unwrap();
    let (outcome, _) = m.dispatch(peer_quad(), &seg(1000, 0, false, true, false, b""), 0);
    assert_eq!(outcome, DatagramOutcome::Accepted(peer_quad()));
    let waiting = m.unbind(LOCAL_PORT).expect("the port was bound");
    assert_eq!(waiting, vec![peer_quad()]);
    assert!(m.unbind(LOCAL_PORT).is_none());
}

#[test]
fn syn_to_silent_port_is_dropped() {
    let mut m = ConnectionManager::new();
    let (outcome, segs) = m.dispatch(peer_quad(), &seg(1000, 0, false, true, false, b""), 0);
    assert_eq!(outcome, DatagramOutcome::NoListener);
    assert!(segs.is_empty());
}

#[test]
fn non_syn_to_listening_port_is_dropped() {
    let mut m = ConnectionManager::new();
    m.bind(LOCAL_PORT).unwrap();
    let (outcome, segs) = m.dispatch(peer_quad(), &seg(1000, 1, true, false, false, b""), 0);
    assert_eq!(outcome, DatagramOutcome::Dropped);
    assert!(segs.is_empty());
    assert!(matches!(m.pop_pending(LOCAL_PORT), Ok(None)));
}

#[test]
fn wire_handshake_and_echoing_reply() {
    let mut m = ConnectionManager::new();
    m.bind(LOCAL_PORT).unwrap();
    let (outcome, segs) = m.on_datagram(&wire_from_peer(1000, 0, false, true, false, b""), 0);
    assert_eq!(outcome, DatagramOutcome::Accepted(peer_quad()));
    assert_eq!(segs.len(), 1);
    // The SYN|ACK on the wire: swapped addresses, our ISS, their ISN+1,
    // our window, and a checksum the header library agrees with.
    let wire = &segs[0].wire;
    let iph = etherparse::Ipv4HeaderSlice::from_slice(wire).unwrap();
    assert_eq!(iph.source(), LOCAL_IP);
    assert_eq!(iph.destination(), PEER_IP);
    assert_eq!(iph.protocol(), 6);
    let tcph = etherparse::TcpHeaderSlice::from_slice(&wire[iph.slice().len()..]).unwrap();
    assert_eq!(tcph.source_port(), LOCAL_PORT);
    assert_eq!(tcph.destination_port(), PEER_PORT);
    assert!(tcph.syn());
    assert!(tcph.ack());
    assert_eq!(tcph.sequence_number(), 0);
    assert_eq!(tcph.acknowledgment_number(), 1001);
    assert_eq!(tcph.window_size(), 1024);
    let expected = tcph.calc_checksum_ipv4(&iph, &[]).unwrap();
    assert_eq!(tcph.checksum(), expected);
    // The accepted flow is queued for accept().
    assert_eq!(m.pop_pending(LOCAL_PORT).unwrap(), Some(peer_quad()));
    assert_eq!(m.pop_pending(LOCAL_PORT).unwrap(), None);
}

#[test]
fn wire_data_flows_into_the_stream() {
    let mut m = ConnectionManager::new();
    m.bind(LOCAL_PORT).unwrap();
    m.on_datagram(&wire_from_peer(1000, 0, false, true, false, b""), 0);
    m.on_datagram(&wire_from_peer(1001, 1, true, false, false, b""), 10);
    let (outcome, segs) = m.on_datagram(&wire_from_peer(1001, 1, true, false, false, b"hello"), 20);
    match outcome {
        DatagramOutcome::Known(q, avail) => {
            assert_eq!(q, peer_quad());
            assert!(avail.read);
        },
        other => panic!("expected a routed segment, got {:?}", other),
    }
    assert_eq!(segs.len(), 1);
    let tcph = etherparse::TcpHeaderSlice::from_slice(&segs[0].wire[20..]).unwrap();
    assert_eq!(tcph.acknowledgment_number(), 1006);
    // The consumer reads the bytes.
    let got = m.read_stream(peer_quad(), 512).unwrap().expect("data is waiting");
    assert_eq!(got, b"hello".to_vec());
    // Nothing more: the reader would block.
    assert_eq!(m.read_stream(peer_quad(), 512).unwrap(), None);
}

#[test]
fn non_tcp_datagrams_are_dropped() {
    let mut m = ConnectionManager::new();
    m.bind(LOCAL_PORT).unwrap();
    // Too short for an IPv4 header.
    let (outcome, _) = m.on_datagram(&[0u8; 7], 0);
    assert_eq!(outcome, DatagramOutcome::NotTcp);
    // A well-formed IPv4 header, but carrying UDP (protocol 17).
    let ip = etherparse::Ipv4Header::new(8, 64, etherparse::IpNumber::Udp, PEER_IP, LOCAL_IP);
    let mut buf: Vec<u8> = Vec::new();
    ip.write(&mut buf).unwrap();
    buf.extend_from_slice(&[0u8; 8]);
    let (outcome, _) = m.on_datagram(&buf, 0);
    assert_eq!(outcome, DatagramOutcome::NotTcp);
}

#[test]
fn stream_write_flush_and_tick() {
    let mut m = ConnectionManager::new();
    m.bind(LOCAL_PORT).unwrap();
    m.on_datagram(&wire_from_peer(1000, 0, false, true, false, b""), 0);
    m.on_datagram(&wire_from_peer(1001, 1, true, false, false, b""), 10);
    assert_eq!(m.write_stream(peer_quad(), b"pong").unwrap(), 4);
    assert!(matches!(m.flush_stream(peer_quad()), Err(TcpError::WouldBlock)));
    // The tick driver sends the buffered bytes.
    let segs = m.on_tick_all(50);
    assert_eq!(segs.len(), 1);
    assert_eq!(segs[0].payload, b"pong".to_vec());
    assert_eq!(segs[0].seq, 1);
    let tcph = etherparse::TcpHeaderSlice::from_slice(&segs[0].wire[20..]).unwrap();
    assert_eq!(tcph.sequence_number(), 1);
    assert!(!tcph.syn() && !tcph.fin());
    // Once the peer acknowledges, a flush succeeds.
    m.on_datagram(&wire_from_peer(1001, 5, true, false, false, b""), 100);
    assert!(m.flush_stream(peer_quad()).is_ok());
}

#[test]
fn stream_operations_on_unknown_flow_are_aborted() {
    let mut m = ConnectionManager::new();
    assert!(matches!(m.read_stream(peer_quad(), 16), Err(TcpError::ConnectionAborted)));
    assert!(matches!(m.write_stream(peer_quad(), b"x"), Err(TcpError::ConnectionAborted)));
    assert!(matches!(m.flush_stream(peer_quad()), Err(TcpError::ConnectionAborted)));
    assert!(matches!(m.shutdown_stream(peer_quad()), Err(TcpError::ConnectionAborted)));
}

#[test]
fn shutdown_then_full_teardown() {
    let mut m = ConnectionManager::new();
    m.bind(LOCAL_PORT).unwrap();
    m.on_datagram(&wire_from_peer(1000, 0, false, true, false, b""), 0);
    m.on_datagram(&wire_from_peer(1001, 1, true, false, false, b""), 10);
    assert!(m.shutdown_stream(peer_quad()).is_ok());
    assert!(matches!(m.get(peer_quad()).unwrap().state, State::FinWait1));
    // The next tick carries the FIN.
    let segs = m.on_tick_all(50);
    assert_eq!(segs.len(), 1);
    let tcph = etherparse::TcpHeaderSlice::from_slice(&segs[0].wire[20..]).unwrap();
    assert!(tcph.fin());
    assert_eq!(tcph.sequence_number(), 1);
    // Peer acknowledges the FIN, then sends its own.
    m.on_datagram(&wire_from_peer(1001, 2, true, false, false, b""), 60);
    assert!(matches!(m.get(peer_quad()).unwrap().state, State::FinWait2));
    m.on_datagram(&wire_from_peer(1001, 2, true, false, true, b""), 70);
    assert!(matches!(m.get(peer_quad()).unwrap().state, State::TimeWait));
    // Reading now reports end of stream.
    let got = m.read_stream(peer_quad(), 512).unwrap().expect("EOF is reported as empty");
    assert!(got.is_empty());
}
