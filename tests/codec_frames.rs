use tcp_rust::codec::{encode_segment, parse_frame, SegmentHeader, TcpFlags};

fn header() -> SegmentHeader {
    SegmentHeader {
        src_addr: 0x0a00_0001,
        src_port: 80,
        dst_addr: 0x0a00_0002,
        dst_port: 40000,
        seq: 0xdead_beef,
        ack: 1001,
        window: 1024,
        flags: TcpFlags { fin: true, syn: false, rst: false, psh: true, ack: true },
    }
}

fn ones_complement_sum(bytes: &[u8], mut acc: u32) -> u32 {
    let mut i = 0;
    while i + 1 < bytes.len() {
        acc += u32::from(u16::from_be_bytes([bytes[i], bytes[i + 1]]));
        i += 2;
    }
    if i < bytes.len() {
        acc += u32::from(bytes[i]) << 8;
    }
    while acc > 0xffff {
        acc = (acc & 0xffff) + (acc >> 16);
    }
    acc
}

#[test]
fn encode_then_parse_round_trip() {
    let h = header();
    let payload = b"payload bytes".to_vec();
    let frame = encode_segment(&h, &payload);
    assert_eq!(frame.len(), 40 + payload.len());
    let (p, off) = parse_frame(&frame).unwrap();
    assert_eq!(p, h);
    assert_eq!(off, 40);
    assert_eq!(&frame[off..], &payload[..]);
}

#[test]
fn emitted_checksum_matches_rfc793() {
    let h = header();
    let payload = b"odd length!".to_vec();
    let frame = encode_segment(&h, &payload);
    let tcp = &frame[20..];
    let mut pseudo = Vec::new();
    pseudo.extend_from_slice(&frame[12..20]);
    pseudo.extend_from_slice(&[0, 6]);
    pseudo.extend_from_slice(&(tcp.len() as u16).to_be_bytes());
    let sum = ones_complement_sum(tcp, ones_complement_sum(&pseudo, 0));
    assert_eq!(sum, 0xffff);
    let ip_sum = ones_complement_sum(&frame[..20], 0);
    assert_eq!(ip_sum, 0xffff);
    assert_eq!(frame[8], 64);
    assert_eq!(frame[9], 6);
}

#[test]
fn parse_rejects_non_tcp_and_short_frames() {
    let mut frame = encode_segment(&header(), b"x");
    assert!(parse_frame(&frame[..19]).is_none());
    frame[9] = 17;
    assert!(parse_frame(&frame).is_none());
    let mut bad_version = encode_segment(&header(), b"x");
    bad_version[0] = 0x65;
    assert!(parse_frame(&bad_version).is_none());
}
