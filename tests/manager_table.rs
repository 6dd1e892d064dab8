use tcp_rust::codec::{encode_segment, parse_frame, SegmentHeader, TcpFlags};
use tcp_rust::manager::{ConnectionManager, ReadOutcome};
use tcp_rust::tcp::{Quad, Segment, TcpError};

fn frame(seq: u32, ack: u32, syn: bool, ackf: bool, payload: &[u8]) -> Vec<u8> {
    let h = SegmentHeader {
        src_addr: 0x0a00_0002,
        src_port: 40000,
        dst_addr: 0x0a00_0001,
        dst_port: 80,
        seq,
        ack,
        window: 512,
        flags: TcpFlags { fin: false, syn, rst: false, psh: !payload.is_empty(), ack: ackf },
    };
    encode_segment(&h, payload)
}

#[test]
fn bind_twice_is_addr_in_use() {
    let mut m = ConnectionManager::new();
    assert_eq!(m.bind(80), Ok(()));
    assert_eq!(m.bind(80), Err(TcpError::AddrInUse));
    assert_eq!(m.bind(81), Ok(()));
}

#[test]
fn syn_to_listener_is_queued_and_streams_work() {
    let mut m = ConnectionManager::new();
    m.bind(80).unwrap();
    let mut out: Vec<Segment> = Vec::new();
    let w = m.on_frame(0, &frame(1000, 0, true, false, &[]), &mut out);
    assert!(w.listeners && !w.readers);
    assert_eq!(out.len(), 1);
    let synack = encode_segment(&out[0].header, &out[0].payload);
    let (h, _) = parse_frame(&synack).unwrap();
    assert!(h.flags.syn && h.flags.ack);
    assert_eq!(h.ack, 1001);
    let q = m.pop_pending(80).unwrap();
    assert_eq!(q, Quad { src_addr: 0x0a00_0002, src_port: 40000, dst_addr: 0x0a00_0001, dst_port: 80 });
    assert!(m.pop_pending(80).is_none());

    m.on_frame(5, &frame(1001, 1, false, true, &[]), &mut out);
    assert_eq!(m.stream_read(&q, 10), Ok(ReadOutcome::Empty));
    let w = m.on_frame(6, &frame(1001, 1, false, true, b"hi"), &mut out);
    assert!(w.readers);
    assert_eq!(m.stream_read(&q, 10), Ok(ReadOutcome::Data(b"hi".to_vec())));

    assert_eq!(m.stream_write(&q, b"yo"), Ok(2));
    assert_eq!(m.stream_flush(&q), Err(TcpError::WouldBlock));
    let before = out.len();
    m.on_tick(7, &mut out);
    assert_eq!(out.len(), before + 1);
    assert_eq!(out[before].payload, b"yo".to_vec());
    m.on_frame(8, &frame(1003, 3, false, true, &[]), &mut out);
    assert_eq!(m.stream_flush(&q), Ok(()));
    assert_eq!(m.stream_shutdown(&q), Ok(()));
    assert_eq!(m.stream_write(&q, b"more"), Ok(4));

    let gone = Quad { src_addr: 1, src_port: 2, dst_addr: 3, dst_port: 4 };
    assert_eq!(m.stream_read(&gone, 1), Err(TcpError::ConnectionAborted));
    assert_eq!(m.stream_write(&gone, b"x"), Err(TcpError::ConnectionAborted));
}

#[test]
fn frames_without_listener_or_garbage_are_dropped() {
    let mut m = ConnectionManager::new();
    let mut out: Vec<Segment> = Vec::new();
    let w = m.on_frame(0, &frame(1000, 0, true, false, &[]), &mut out);
    assert!(!w.listeners && !w.readers);
    assert!(out.is_empty());
    let w = m.on_frame(0, &[1, 2, 3], &mut out);
    assert!(!w.listeners && !w.readers);
    assert!(m.connections.is_empty());
}

#[test]
fn unbind_reaps_unaccepted_connections() {
    let mut m = ConnectionManager::new();
    m.bind(80).unwrap();
    let mut out: Vec<Segment> = Vec::new();
    m.on_frame(0, &frame(1000, 0, true, false, &[]), &mut out);
    assert_eq!(m.connections.len(), 1);
    m.unbind(80);
    assert!(m.connections.is_empty());
    assert!(m.pending.is_empty());
    assert_eq!(m.bind(80), Ok(()));
}

#[test]
fn time_wait_connections_are_reaped_after_two_msl() {
    let mut m = ConnectionManager::new();
    m.bind(80).unwrap();
    let mut out: Vec<Segment> = Vec::new();
    m.on_frame(0, &frame(1000, 0, true, false, &[]), &mut out);
    let q = m.pop_pending(80).unwrap();
    m.on_frame(1, &frame(1001, 1, false, true, &[]), &mut out);
    assert_eq!(m.stream_shutdown(&q), Ok(()));
    m.on_tick(2, &mut out);
    m.on_frame(3, &frame(1001, 2, false, true, &[]), &mut out);
    let fin = {
        let mut h = parse_frame(&frame(1001, 2, false, true, &[])).unwrap().0;
        h.flags.fin = true;
        encode_segment(&h, &[])
    };
    m.on_frame(4, &fin, &mut out);
    assert_eq!(m.stream_read(&q, 1), Ok(ReadOutcome::Closed));
    assert_eq!(m.connections[0].1.time_wait_since, Some(4));
    m.reap(4 + 59_999_999);
    assert_eq!(m.connections.len(), 1);
    m.reap(4 + 60_000_000);
    assert!(m.connections.is_empty());
    assert_eq!(m.stream_read(&q, 1), Err(TcpError::ConnectionAborted));
}
