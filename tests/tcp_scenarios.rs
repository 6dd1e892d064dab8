use tcp_rust::codec::{SegmentHeader, TcpFlags};
use tcp_rust::tcp::{Connection, Segment, State, TcpError};

const PEER: u32 = 0x0a00_0002;
const LOCAL: u32 = 0x0a00_0001;

fn flags(syn: bool, ack: bool, fin: bool, psh: bool) -> TcpFlags {
    TcpFlags { fin, syn, rst: false, psh, ack }
}

fn seg(seq: u32, ack: u32, f: TcpFlags, window: u16) -> SegmentHeader {
    SegmentHeader {
        src_addr: PEER,
        src_port: 40000,
        dst_addr: LOCAL,
        dst_port: 80,
        seq,
        ack,
        window,
        flags: f,
    }
}

fn open(iss: u32) -> Connection {
    let mut out: Vec<Segment> = Vec::new();
    let mut c = Connection::accept(0, iss, &seg(1000, 0, flags(true, false, false, false), 512), &mut out)
        .unwrap();
    c.on_packet(10, &seg(1001, iss.wrapping_add(1), flags(false, true, false, false), 512), &[], &mut out);
    assert_eq!(c.state, State::Estab);
    c
}

#[test]
fn s1_passive_open_and_close() {
    let mut out: Vec<Segment> = Vec::new();
    let syn = seg(1000, 0, flags(true, false, false, false), 512);
    let mut c = Connection::accept(0, 0, &syn, &mut out).unwrap();
    assert_eq!(out.len(), 1);
    let h = out[0].header;
    assert_eq!((h.seq, h.ack, h.window), (0, 1001, 1024));
    assert!(h.flags.syn && h.flags.ack && !h.flags.fin);
    assert_eq!((h.src_addr, h.src_port, h.dst_addr, h.dst_port), (LOCAL, 80, PEER, 40000));
    assert_eq!(c.state, State::SynRcvd);

    c.on_packet(10, &seg(1001, 1, flags(false, true, false, false), 512), &[], &mut out);
    assert_eq!(c.state, State::Estab);
    assert_eq!(out.len(), 1);

    assert_eq!(c.close(), Ok(()));
    assert_eq!(c.state, State::FinWait1);
    c.on_tick(20, &mut out);
    assert_eq!(out.len(), 2);
    let h = out[1].header;
    assert!(h.flags.fin && h.flags.ack);
    assert_eq!((h.seq, h.ack), (1, 1001));

    c.on_packet(30, &seg(1001, 2, flags(false, true, false, false), 512), &[], &mut out);
    assert_eq!(c.state, State::FinWait2);

    c.on_packet(40, &seg(1001, 2, flags(false, true, true, false), 512), &[], &mut out);
    assert_eq!(out.len(), 3);
    let h = out[2].header;
    assert!(h.flags.ack && !h.flags.fin && !h.flags.syn);
    assert_eq!((h.seq, h.ack), (2, 1002));
    assert_eq!(c.state, State::TimeWait);
    assert!(c.is_rcv_closed());
    let before = (c.closed, c.state, c.send.una, c.send.nxt, c.recv.nxt);
    assert_eq!(c.close(), Err(TcpError::NotConnected));
    assert_eq!((c.closed, c.state, c.send.una, c.send.nxt, c.recv.nxt), before);
}

#[test]
fn s2_data_delivery() {
    let mut c = open(0);
    let mut out: Vec<Segment> = Vec::new();
    let a = c.on_packet(50, &seg(1001, 1, flags(false, true, false, true), 512), b"hello", &mut out);
    assert!(a.read);
    assert_eq!(out.len(), 1);
    assert_eq!((out[0].header.seq, out[0].header.ack), (1, 1006));
    assert!(out[0].payload.is_empty());
    assert_eq!(c.read_incoming(5), b"hello".to_vec());
    assert!(c.incoming.is_empty());
}

#[test]
fn s3_write_and_ack_drain() {
    let mut c = open(0);
    let srtt0 = c.srtt;
    assert_eq!(srtt0, (4 * 60_000_000 + 10) / 5);
    let mut out: Vec<Segment> = Vec::new();
    assert_eq!(c.write_outgoing(b"world"), Ok(5));
    c.on_tick(1_000, &mut out);
    assert_eq!(out.len(), 1);
    let h = out[0].header;
    assert!(h.flags.psh && h.flags.ack);
    assert_eq!((h.seq, h.ack), (1, 1001));
    assert_eq!(out[0].payload, b"world".to_vec());
    assert!(c.send_times.iter().any(|e| e.0 == 1));

    c.on_packet(3_000, &seg(1001, 6, flags(false, true, false, false), 512), &[], &mut out);
    assert_eq!(c.send.una, 6);
    assert!(c.unacked.is_empty());
    assert!(!c.send_times.iter().any(|e| e.0 == 1));
    assert_eq!(c.srtt, (4 * srtt0 + 2_000) / 5);
    assert_eq!(c.flush_outgoing(), Ok(()));
}

#[test]
fn s4_retransmission() {
    let mut c = open(0);
    let srtt0 = c.srtt;
    let mut out: Vec<Segment> = Vec::new();
    assert_eq!(c.write_outgoing(b"lost"), Ok(4));
    let t0: u64 = 1_000_000;
    c.on_tick(t0, &mut out);
    assert_eq!(out.len(), 1);
    // well before 1.5 srtt: nothing new to send, no retransmission
    c.on_tick(t0 + 50_000_000, &mut out);
    assert_eq!(out.len(), 1);
    // past 1.5 srtt (and past one second): the same range goes out again
    let t1 = t0 + srtt0 * 16 / 10;
    c.on_tick(t1, &mut out);
    assert_eq!(out.len(), 2);
    assert_eq!(out[1].header.seq, out[0].header.seq);
    assert_eq!(out[1].payload, b"lost".to_vec());
    assert_eq!(c.flush_outgoing(), Err(TcpError::WouldBlock));
    c.on_packet(t1 + 500_000, &seg(1001, 5, flags(false, true, false, false), 512), &[], &mut out);
    assert_eq!(c.srtt, (4 * srtt0 + 500_000) / 5);
    assert!(c.unacked.is_empty());
}

#[test]
fn s5_zero_length_acceptance() {
    let mut c = open(0);
    c.recv.nxt = 5000;
    c.recv.wnd = 0;
    let mut out: Vec<Segment> = Vec::new();
    c.on_packet(60, &seg(5000, 1, flags(false, true, false, false), 512), &[], &mut out);
    assert_eq!(c.recv.nxt, 5000);
    assert!(out.is_empty());
    c.on_packet(70, &seg(4999, 1, flags(false, true, false, false), 512), &[], &mut out);
    assert_eq!(out.len(), 1);
    assert_eq!((out[0].header.seq, out[0].header.ack), (1, 5000));
    assert!(out[0].payload.is_empty());
}

#[test]
fn s6_full_send_queue() {
    let mut c = open(0);
    let data = vec![7u8; 1024];
    assert_eq!(c.write_outgoing(&data), Ok(1024));
    assert_eq!(c.write_outgoing(b"x"), Err(TcpError::WouldBlock));
    let mut out: Vec<Segment> = Vec::new();
    c.on_tick(100, &mut out);
    assert_eq!(out.len(), 1);
    assert_eq!(out[0].payload.len(), 512);
    c.on_packet(200, &seg(1001, 101, flags(false, true, false, false), 512), &[], &mut out);
    assert_eq!(c.unacked.len(), 924);
    assert_eq!(c.write_outgoing(&[1u8; 150]), Ok(100));
    assert_eq!(c.unacked.len(), 1024);
}

#[test]
fn wraparound_handshake_and_data() {
    let iss: u32 = 0xffff_fff6;
    let mut out: Vec<Segment> = Vec::new();
    let mut c = Connection::accept(0, iss, &seg(1000, 0, flags(true, false, false, false), 512), &mut out)
        .unwrap();
    assert_eq!(out[0].header.seq, iss);
    c.on_packet(10, &seg(1001, 0xffff_fff7, flags(false, true, false, false), 512), &[], &mut out);
    assert_eq!(c.state, State::Estab);
    assert_eq!(c.send.una, 0xffff_fff7);
    assert_eq!(c.write_outgoing(&[1u8; 20]), Ok(20));
    c.on_tick(20, &mut out);
    assert_eq!(out.last().unwrap().header.seq, 0xffff_fff7);
    assert_eq!(out.last().unwrap().payload.len(), 20);
    assert_eq!(c.send.nxt, 11);
    c.on_packet(30, &seg(1001, 11, flags(false, true, false, false), 512), &[], &mut out);
    assert_eq!(c.send.una, 11);
    assert!(c.unacked.is_empty());
    assert!(c.send_times.is_empty());
}

#[test]
fn zero_window_rejects_data() {
    let mut c = open(0);
    c.recv.wnd = 0;
    let before = (c.recv.nxt, c.incoming.len());
    let mut out: Vec<Segment> = Vec::new();
    c.on_packet(50, &seg(1001, 1, flags(false, true, false, true), 512), b"data", &mut out);
    assert_eq!((c.recv.nxt, c.incoming.len()), before);
    assert_eq!(out.len(), 1);
    assert!(out[0].payload.is_empty());
}

#[test]
fn out_of_window_data_gets_bare_ack() {
    let mut c = open(0);
    let mut out: Vec<Segment> = Vec::new();
    let before = (c.recv.nxt, c.send.una, c.send.nxt, c.state);
    c.on_packet(50, &seg(900_000, 1, flags(false, true, false, true), 512), b"far away", &mut out);
    assert_eq!((c.recv.nxt, c.send.una, c.send.nxt, c.state), before);
    assert!(c.incoming.is_empty());
    assert_eq!(out.len(), 1);
    let h = out[0].header;
    assert_eq!((h.seq, h.ack), (1, 1001));
    assert!(h.flags.ack && !h.flags.syn && !h.flags.fin && !h.flags.psh);
}

#[test]
fn repeated_pure_ack_changes_nothing() {
    let mut c = open(0);
    let mut out: Vec<Segment> = Vec::new();
    c.write_outgoing(b"abcdef").unwrap();
    c.on_tick(100, &mut out);
    let ack = seg(1001, 4, flags(false, true, false, false), 512);
    c.on_packet(200, &ack, &[], &mut out);
    let first = (c.send.una, c.unacked.clone(), c.send_times.clone(), c.srtt);
    assert_eq!(first.0, 4);
    assert_eq!(first.1.len(), 3);
    c.on_packet(300, &ack, &[], &mut out);
    assert_eq!((c.send.una, c.unacked.clone(), c.send_times.clone(), c.srtt), first);
}

#[test]
fn recv_nxt_advances_over_overlap() {
    let mut c = open(0);
    let mut out: Vec<Segment> = Vec::new();
    c.on_packet(50, &seg(1001, 1, flags(false, true, false, true), 512), b"abc", &mut out);
    assert_eq!(c.recv.nxt, 1004);
    // retransmission overlapping what was taken: only the new byte is kept
    c.on_packet(60, &seg(1002, 1, flags(false, true, false, true), 512), b"bcd", &mut out);
    assert_eq!(c.recv.nxt, 1005);
    assert_eq!(c.read_incoming(10), b"abcd".to_vec());
    // an old duplicate does not move recv.nxt back
    c.on_packet(70, &seg(1001, 1, flags(false, true, false, true), 512), b"ab", &mut out);
    assert_eq!(c.recv.nxt, 1005);
}

#[test]
fn segment_without_syn_is_not_accepted() {
    let mut out: Vec<Segment> = Vec::new();
    let r = Connection::accept(0, 0, &seg(1000, 0, flags(false, true, false, false), 512), &mut out);
    assert!(r.is_none());
    assert!(out.is_empty());
}

#[test]
fn ack_beyond_nxt_is_dropped_silently() {
    let mut c = open(0);
    let mut out: Vec<Segment> = Vec::new();
    c.write_outgoing(b"abc").unwrap();
    c.on_tick(100, &mut out);
    let before = (c.send.una, c.unacked.clone(), c.send_times.clone());
    out.clear();
    c.on_packet(200, &seg(1001, 50, flags(false, true, false, false), 512), &[], &mut out);
    assert_eq!((c.send.una, c.unacked.clone(), c.send_times.clone()), before);
    assert!(out.is_empty());
}

#[test]
fn nothing_is_sent_past_the_fin() {
    let mut c = open(0);
    let mut out: Vec<Segment> = Vec::new();
    assert_eq!(c.close(), Ok(()));
    c.on_tick(100, &mut out);
    assert!(out[0].header.flags.fin);
    assert_eq!((c.closed_at, c.send.nxt), (Some(1), 2));
    // a write after shutdown is still queued, behind the FIN
    assert_eq!(c.write_outgoing(b"late!"), Ok(5));
    assert_eq!(c.unacked.len(), 5);
    // the slice just past the FIN stays empty
    out.clear();
    c.write(200, 2, 100, false, true, &mut out);
    assert!(out[0].payload.is_empty());
    assert_eq!(c.send.nxt, 2);
    // and an acknowledgement of the FIN alone drains no queued byte
    c.on_packet(300, &seg(1001, 2, flags(false, true, false, false), 512), &[], &mut out);
    assert_eq!(c.send.una, 2);
    assert_eq!(c.unacked.len(), 5);
    assert_eq!(c.state, State::FinWait2);
}
