use tcp_rust::tcp::Connection;
use tcp_rust::tcp::Quad;
use tcp_rust::tcp::SegmentIn;
use tcp_rust::tcp::State;
use tcp_rust::tcp::TcpError;

fn quad() -> Quad {
    Quad { src_ip: 0x0a00_0002, src_port: 45000, dst_ip: 0x0a00_0001, dst_port: 9000 }
}

fn seg(seq: u32, ack: u32, has_ack: bool, syn: bool, fin: bool, payload: &[u8]) -> SegmentIn {
    SegmentIn { seq, ack, wnd: 4096, syn, fin, has_ack, payload: payload.to_vec() }
}

/// Runs the P10 handshake: SYN seq=1000 wnd=4096, then ACK seq=1001 ack=1.
fn established() -> Connection {
    let syn = seg(1000, 0, false, true, false, b"");
    let mut c = Connection::accept(quad(), &syn, 0).expect("SYN must open a connection");
    c.tx.clear();
    c.on_segment(&seg(1001, 1, true, false, false, b""), 10);
    assert!(matches!(c.state, State::Estab));
    c.tx.clear();
    c
}

/// `established`, plus the P11 exchange delivering "hello" and draining it.
fn established_after_hello() -> Connection {
    let mut c = established();
    c.on_segment(&seg(1001, 1, true, false, false, b"hello"), 20);
    let got = c.take_incoming(512);
    assert_eq!(got, b"hello".to_vec());
    c.tx.clear();
    c
}

#[test]
fn handshake() {
    let syn = seg(1000, 0, false, true, false, b"");
    let c = Connection::accept(quad(), &syn, 0).expect("SYN must open a connection");
    assert!(matches!(c.state, State::SynRecvd));
    assert_eq!(c.recv.irs, 1000);
    assert_eq!(c.recv.nxt, 1001);
    assert_eq!(c.recv.wnd, 1024);
    assert_eq!(c.send.iss, 0);
    assert_eq!(c.send.una, 0);
    assert_eq!(c.send.nxt, 1);
    assert_eq!(c.send.wnd, 4096);
    assert_eq!(c.tx.len(), 1);
    let o = &c.tx[0];
    assert!(o.syn);
    assert!(!o.fin);
    assert_eq!(o.seq, 0);
    assert_eq!(o.ack, 1001);
    assert_eq!(o.wnd, 1024);
    assert!(o.payload.is_empty());
    assert_eq!(o.src_ip, 0x0a00_0001);
    assert_eq!(o.src_port, 9000);
    assert_eq!(o.dst_ip, 0x0a00_0002);
    assert_eq!(o.dst_port, 45000);
}

#[test]
fn accept_ignores_non_syn() {
    let not_syn = seg(1000, 0, true, false, false, b"");
    assert!(Connection::accept(quad(), &not_syn, 0).is_none());
}

#[test]
fn handshake_completion_establishes() {
    let c = established();
    assert!(matches!(c.state, State::Estab));
    assert_eq!(c.send.una, 1);
    assert_eq!(c.send.nxt, 1);
}

#[test]
fn data_delivery() {
    let mut c = established();
    let avail = c.on_segment(&seg(1001, 1, true, false, false, b"hello"), 20);
    assert_eq!(c.incoming, b"hello".to_vec());
    assert_eq!(c.recv.nxt, 1006);
    assert_eq!(c.tx.len(), 1);
    let o = &c.tx[0];
    assert_eq!(o.seq, 1);
    assert_eq!(o.ack, 1006);
    assert!(o.payload.is_empty());
    assert!(!o.syn && !o.fin);
    assert!(avail.read);
    let got = c.take_incoming(512);
    assert_eq!(got, b"hello".to_vec());
    assert!(c.incoming.is_empty());
}

#[test]
fn retransmit_is_idempotent() {
    let mut c = established_after_hello();
    let avail = c.on_segment(&seg(1001, 1, true, false, false, b"hello"), 30);
    // skip == payload length: nothing is appended, RCV.NXT stands still,
    // and the stack still answers with its current ACK.
    assert!(c.incoming.is_empty());
    assert_eq!(c.recv.nxt, 1006);
    assert_eq!(c.tx.len(), 1);
    assert_eq!(c.tx[0].ack, 1006);
    assert_eq!(c.tx[0].seq, 1);
    assert!(!avail.read);
}

#[test]
fn graceful_close_from_local_side() {
    let mut c = established_after_hello();
    assert!(c.close().is_ok());
    assert!(matches!(c.state, State::FinWait1));
    assert!(c.closed);
    c.on_tick(50);
    assert_eq!(c.closed_at, Some(1));
    assert_eq!(c.tx.len(), 1);
    {
        let o = &c.tx[0];
        assert!(o.fin);
        assert!(!o.syn);
        assert_eq!(o.seq, 1);
        assert_eq!(o.ack, 1006);
        assert!(o.payload.is_empty());
    }
    assert_eq!(c.send.nxt, 2);
    c.tx.clear();
    // The peer acknowledges our FIN.
    c.on_segment(&seg(1006, 2, true, false, false, b""), 60);
    assert!(matches!(c.state, State::FinWait2));
    assert_eq!(c.send.una, 2);
    assert!(c.tx.is_empty());
    // The peer sends its own FIN.
    let avail = c.on_segment(&seg(1006, 2, true, false, true, b""), 70);
    assert!(matches!(c.state, State::TimeWait));
    assert_eq!(c.recv.nxt, 1007);
    assert_eq!(c.tx.len(), 1);
    assert_eq!(c.tx[0].seq, 2);
    assert_eq!(c.tx[0].ack, 1007);
    assert!(!c.tx[0].fin);
    // End of stream: reading is unblocked and yields nothing.
    assert!(avail.read);
    let got = c.take_incoming(512);
    assert!(got.is_empty());
}

#[test]
fn close_after_time_wait_is_an_error() {
    let mut c = established_after_hello();
    c.close().unwrap();
    c.on_tick(50);
    c.on_segment(&seg(1006, 2, true, false, false, b""), 60);
    c.on_segment(&seg(1006, 2, true, false, true, b""), 70);
    assert!(matches!(c.state, State::TimeWait));
    assert!(matches!(c.close(), Err(TcpError::NotConnected)));
}

#[test]
fn unacceptable_segment_elicits_bare_ack() {
    let mut c = established_after_hello();
    let avail = c.on_segment(&seg(5000, 1, true, false, false, b"x"), 80);
    assert_eq!(c.recv.nxt, 1006);
    assert!(c.incoming.is_empty());
    assert_eq!(c.tx.len(), 1);
    let o = &c.tx[0];
    assert_eq!(o.seq, 1);
    assert_eq!(o.ack, 1006);
    assert!(o.payload.is_empty());
    assert!(!avail.read);
}

#[test]
fn srtt_update_from_one_sample() {
    let mut c = established();
    assert_eq!(c.timers.srtt_ms, 60_000);
    assert_eq!(c.append_outgoing(b"ab").unwrap(), 2);
    c.on_tick(100);
    assert_eq!(c.tx.len(), 1);
    assert_eq!(c.tx[0].payload, b"ab".to_vec());
    c.tx.clear();
    assert_eq!(c.append_outgoing(b"c").unwrap(), 1);
    c.on_tick(200);
    assert_eq!(c.tx.len(), 1);
    assert_eq!(c.tx[0].payload, b"c".to_vec());
    assert_eq!(c.send.nxt, 4);
    c.tx.clear();
    // The ACK 100 ms after the last transmission folds in one sample:
    // 0.8 * 60000 + 0.2 * 100 = 48020.
    c.on_segment(&seg(1001, 4, true, false, false, b""), 300);
    assert_eq!(c.send.una, 4);
    assert!(c.unacked.is_empty());
    assert_eq!(c.timers.srtt_ms, 48_020);
}

#[test]
fn ack_drains_exactly_the_covered_bytes() {
    let mut c = established();
    assert_eq!(c.append_outgoing(b"abcdef").unwrap(), 6);
    c.on_tick(100);
    c.tx.clear();
    assert_eq!(c.send.nxt, 7);
    // ack = 4 covers three bytes past data_start = 1.
    c.on_segment(&seg(1001, 4, true, false, false, b""), 150);
    assert_eq!(c.send.una, 4);
    assert_eq!(c.unacked, b"def".to_vec());
}

#[test]
fn full_send_queue_would_blocks() {
    let mut c = established();
    let big = vec![0u8; 1024];
    assert_eq!(c.append_outgoing(&big).unwrap(), 1024);
    assert!(matches!(c.append_outgoing(b"x"), Err(TcpError::WouldBlock)));
}

#[test]
fn nearly_full_send_queue_takes_what_fits() {
    let mut c = established();
    let chunk = vec![1u8; 1000];
    assert_eq!(c.append_outgoing(&chunk).unwrap(), 1000);
    assert_eq!(c.append_outgoing(&chunk).unwrap(), 24);
    assert!(matches!(c.append_outgoing(b"y"), Err(TcpError::WouldBlock)));
}

#[test]
fn zero_window_zero_length_acceptability() {
    let mut c = established();
    c.recv.wnd = 0;
    // Exactly RCV.NXT: acceptable, and nothing needs answering.
    c.on_segment(&seg(1001, 1, true, false, false, b""), 30);
    assert!(c.tx.is_empty());
    // One off RCV.NXT: unacceptable, answered with a bare ACK.
    c.on_segment(&seg(1002, 1, true, false, false, b""), 31);
    assert_eq!(c.tx.len(), 1);
    assert_eq!(c.tx[0].ack, 1001);
    c.tx.clear();
    // Any payload against a zero window: unacceptable.
    c.on_segment(&seg(1001, 1, true, false, false, b"z"), 32);
    assert_eq!(c.tx.len(), 1);
    assert_eq!(c.recv.nxt, 1001);
}

#[test]
fn straddling_segment_delivers_only_the_new_suffix() {
    let mut c = established_after_hello();
    c.on_segment(&seg(1001, 1, true, false, false, b"helloworld"), 40);
    assert_eq!(c.incoming, b"world".to_vec());
    assert_eq!(c.recv.nxt, 1011);
    assert_eq!(c.tx.len(), 1);
    assert_eq!(c.tx[0].ack, 1011);
}

#[test]
fn delivery_across_the_sequence_wrap() {
    // The peer's ISN sits at the top of the ring, so RCV.NXT wraps to 0.
    let syn = seg(u32::MAX, 0, false, true, false, b"");
    let mut c = Connection::accept(quad(), &syn, 0).expect("SYN must open a connection");
    assert_eq!(c.recv.irs, u32::MAX);
    assert_eq!(c.recv.nxt, 0);
    c.tx.clear();
    c.on_segment(&seg(0, 1, true, false, false, b""), 10);
    assert!(matches!(c.state, State::Estab));
    c.tx.clear();
    c.on_segment(&seg(0, 1, true, false, false, b"ab"), 20);
    assert_eq!(c.incoming, b"ab".to_vec());
    assert_eq!(c.recv.nxt, 2);
    assert_eq!(c.tx[0].ack, 2);
}

#[test]
fn straddle_across_the_sequence_wrap() {
    let syn = seg(u32::MAX, 0, false, true, false, b"");
    let mut c = Connection::accept(quad(), &syn, 0).expect("SYN must open a connection");
    c.tx.clear();
    c.on_segment(&seg(0, 1, true, false, false, b""), 10);
    c.tx.clear();
    // A segment starting one before the wrap: its first byte sits at the
    // consumed SYN position, only the rest is new.
    c.on_segment(&seg(u32::MAX, 1, true, false, false, b"xyz"), 20);
    assert_eq!(c.incoming, b"yz".to_vec());
    assert_eq!(c.recv.nxt, 2);
}

#[test]
fn send_side_wrap_across_max() {
    // Relocate the send space to the top of the ring, where a large ISS
    // would put it: the next segment and its acknowledgment cross 2^32.
    let mut c = established();
    c.send.iss = 0xffff_fff0;
    c.send.una = 0xffff_fffe;
    c.send.nxt = 0xffff_fffe;
    c.timers.send_times.clear();
    assert_eq!(c.append_outgoing(b"abcd").unwrap(), 4);
    c.on_tick(100);
    assert_eq!(c.tx.len(), 1);
    assert_eq!(c.tx[0].seq, 0xffff_fffe);
    assert_eq!(c.tx[0].payload, b"abcd".to_vec());
    assert_eq!(c.send.nxt, 2);
    c.tx.clear();
    // The wrapped acknowledgment drains the whole queue.
    c.on_segment(&seg(1001, 2, true, false, false, b""), 200);
    assert_eq!(c.send.una, 2);
    assert!(c.unacked.is_empty());
}

#[test]
fn fin_is_retransmitted_after_timeout() {
    let mut c = established_after_hello();
    c.close().unwrap();
    c.on_tick(50);
    assert_eq!(c.closed_at, Some(1));
    assert!(c.tx[0].fin);
    c.tx.clear();
    // Long after the FIN went unanswered, it goes out again at the same
    // sequence number.
    c.timers.srtt_ms = 400;
    c.on_tick(5000);
    assert_eq!(c.tx.len(), 1);
    assert!(c.tx[0].fin);
    assert_eq!(c.tx[0].seq, 1);
    assert!(c.tx[0].payload.is_empty());
    assert_eq!(c.closed_at, Some(1));
    assert_eq!(c.send.nxt, 2);
}

#[test]
fn state_synchronization() {
    assert!(!State::SynRecvd.is_synchronized());
    assert!(State::Estab.is_synchronized());
    assert!(State::FinWait1.is_synchronized());
    assert!(State::FinWait2.is_synchronized());
    assert!(State::TimeWait.is_synchronized());
}

#[test]
fn availability_reports_read_and_flush() {
    let mut c = established();
    let a = c.availability();
    assert!(!a.read);
    assert!(a.flush);
    assert!(!a.write);
    c.on_segment(&seg(1001, 1, true, false, false, b"hi"), 20);
    let a = c.availability();
    assert!(a.read);
    c.take_incoming(16);
    c.append_outgoing(b"pending").unwrap();
    let a = c.availability();
    assert!(!a.read);
    assert!(!a.flush);
}

#[test]
fn retransmission_after_timeout() {
    let mut c = established();
    c.append_outgoing(b"abc").unwrap();
    c.on_tick(100);
    assert_eq!(c.tx.len(), 1);
    assert_eq!(c.tx[0].payload, b"abc".to_vec());
    assert_eq!(c.tx[0].seq, 1);
    c.tx.clear();
    // Well before the timeout nothing is resent...
    c.on_tick(500);
    assert!(c.tx.is_empty());
    // ...but once the oldest outstanding transmission has waited more
    // than a second and more than 1.5 x srtt, it goes out again.
    c.timers.srtt_ms = 400;
    c.on_tick(2000);
    assert_eq!(c.tx.len(), 1);
    assert_eq!(c.tx[0].seq, 1);
    assert_eq!(c.tx[0].payload, b"abc".to_vec());
}
