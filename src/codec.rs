//! IPv4/TCP framing: parsing inbound frames into plain header values and
//! building outbound frames, with the headers serialised and checksummed by
//! etherparse.
use vstd::prelude::*;

verus! {

/// Length of an IPv4 header without options.
pub const IPV4_HEADER_LEN: usize = 20;

/// Length of a TCP header without options.
pub const TCP_HEADER_LEN: usize = 20;

/// Size of the emission buffer.
pub const MAX_FRAME_LEN: usize = 1500;

/// Largest payload that fits one emitted frame.
pub const MAX_PAYLOAD_LEN: usize = 1460;

/// Time-to-live of every emitted datagram.
pub const TTL: u8 = 64;

/// IP protocol number of TCP.
pub const PROTO_TCP: u8 = 6;

/// The control bits of a TCP header that this endpoint reads or sets.
#[derive(Clone, Copy, Debug, PartialEq, Eq, Structural)]
pub struct TcpFlags {
    pub fin: bool,
    pub syn: bool,
    pub rst: bool,
    pub psh: bool,
    pub ack: bool,
}

/// The per-segment fields of an IPv4+TCP frame, addresses as big-endian
/// integers.
#[derive(Clone, Copy, Debug, PartialEq, Eq, Structural)]
pub struct SegmentHeader {
    pub src_addr: u32,
    pub src_port: u16,
    pub dst_addr: u32,
    pub dst_port: u16,
    pub seq: u32,
    pub ack: u32,
    pub window: u16,
    pub flags: TcpFlags,
}

/// What the IPv4 layer of an inbound frame says.
pub struct Ipv4Info {
    pub src_addr: u32,
    pub dst_addr: u32,
    pub protocol: u8,
    pub header_len: usize,
}

/// What the TCP layer of an inbound frame says.
pub struct TcpInfo {
    pub src_port: u16,
    pub dst_port: u16,
    pub seq: u32,
    pub ack: u32,
    pub window: u16,
    pub flags: TcpFlags,
    pub header_len: usize,
}

/// Big-endian 16-bit value at `i`.
pub open spec fn be16(b: Seq<u8>, i: int) -> int {
    b[i] * 256 + b[i + 1]
}

/// Big-endian 32-bit value at `i`.
pub open spec fn be32(b: Seq<u8>, i: int) -> int {
    b[i] * 0x100_0000 + b[i + 1] * 0x1_0000 + b[i + 2] * 0x100 + b[i + 3]
}

/// Byte `k` (0 is the most significant) of a big-endian encoding of `v`
/// in `n` bytes.
pub open spec fn be_byte(v: int, n: int, k: int) -> u8 {
    ((v / pow256(n - 1 - k)) % 256) as u8
}

pub open spec fn pow256(k: int) -> int {
    if k <= 0 { 1 } else if k == 1 { 0x100 } else if k == 2 { 0x1_0000 } else { 0x100_0000 }
}

pub open spec fn be16_bytes(v: int) -> Seq<u8> {
    seq![be_byte(v, 2, 0), be_byte(v, 2, 1)]
}

pub open spec fn be32_bytes(v: int) -> Seq<u8> {
    seq![be_byte(v, 4, 0), be_byte(v, 4, 1), be_byte(v, 4, 2), be_byte(v, 4, 3)]
}

/// The flags byte (byte 13) of a TCP header.
pub open spec fn flags_byte(f: TcpFlags) -> u8 {
    ((if f.fin { 1int } else { 0 }) + (if f.syn { 2int } else { 0 }) + (if f.rst { 4int } else { 0 })
        + (if f.psh { 8int } else { 0 }) + (if f.ack { 16int } else { 0 })) as u8
}

/// The flags that a TCP flags byte carries.
pub open spec fn flags_of(x: u8) -> TcpFlags {
    TcpFlags {
        fin: x % 2 == 1,
        syn: (x / 2) % 2 == 1,
        rst: (x / 4) % 2 == 1,
        psh: (x / 8) % 2 == 1,
        ack: (x / 16) % 2 == 1,
    }
}

/// A buffer starts with a well-formed IPv4 header.
pub open spec fn ipv4_header_ok(b: Seq<u8>) -> bool {
    &&& b.len() >= 20
    &&& b[0] / 16 == 4
    &&& b[0] % 16 >= 5
    &&& b.len() >= (b[0] % 16) * 4
}

/// Length of the IPv4 header at the front of `b`.
pub open spec fn ipv4_header_len(b: Seq<u8>) -> int {
    (b[0] % 16) * 4
}

/// A buffer starts with a well-formed TCP header.
pub open spec fn tcp_header_ok(b: Seq<u8>) -> bool {
    &&& b.len() >= 20
    &&& (b[12] / 16) * 4 >= 20
    &&& b.len() >= (b[12] / 16) * 4
}

/// Length of the TCP header at the front of `b`.
pub open spec fn tcp_header_len(b: Seq<u8>) -> int {
    (b[12] / 16) * 4
}

/// The 20 bytes of an option-less TCP header with the given checksum field.
pub open spec fn tcp_header_seq(h: SegmentHeader, checksum: u16) -> Seq<u8> {
    be16_bytes(h.src_port as int) + be16_bytes(h.dst_port as int) + be32_bytes(h.seq as int)
        + be32_bytes(h.ack as int) + seq![0x50u8, flags_byte(h.flags)] + be16_bytes(
        h.window as int,
    ) + be16_bytes(checksum as int) + seq![0u8, 0u8]
}

/// The RFC 793 checksum of a TCP segment (header with a zero checksum
/// field, then payload) sent from `src` to `dst`.
pub uninterp spec fn tcp_checksum_of(src: u32, dst: u32, segment: Seq<u8>) -> u16;

/// The RFC 791 checksum of an option-less IPv4 header.
pub uninterp spec fn ipv4_checksum_of(header: Seq<u8>) -> u16;

/// The option-less IPv4 header of a TCP datagram, checksum field zero.
pub open spec fn ipv4_header_seq(src: u32, dst: u32, payload_len: int, checksum: u16) -> Seq<u8> {
    seq![0x45u8, 0u8] + be16_bytes(20 + payload_len) + seq![0u8, 0u8, 0x40u8, 0u8, TTL, PROTO_TCP]
        + be16_bytes(checksum as int) + be32_bytes(src as int) + be32_bytes(dst as int)
}

/// The IPv4 header that is emitted: its checksum computed over itself.
pub open spec fn ipv4_header_emitted(src: u32, dst: u32, payload_len: int) -> Seq<u8> {
    ipv4_header_seq(src, dst, payload_len, ipv4_checksum_of(ipv4_header_seq(src, dst, payload_len, 0)))
}

/// The TCP checksum that the header of `h` carries with `payload`.
pub open spec fn segment_checksum(h: SegmentHeader, payload: Seq<u8>) -> u16 {
    tcp_checksum_of(h.src_addr, h.dst_addr, tcp_header_seq(h, 0) + payload)
}

/// The whole frame emitted for a header and a payload.
pub open spec fn frame_spec(h: SegmentHeader, payload: Seq<u8>) -> Seq<u8> {
    ipv4_header_emitted(h.src_addr, h.dst_addr, 20 + payload.len() as int) + tcp_header_seq(
        h,
        segment_checksum(h, payload),
    ) + payload
}

/// What a frame parses to: its header fields and where its payload starts.
pub open spec fn parse_spec(b: Seq<u8>) -> Option<(SegmentHeader, int)> {
    if !ipv4_header_ok(b) || b[9] != PROTO_TCP {
        None
    } else {
        let ihl = ipv4_header_len(b);
        let t = b.subrange(ihl, b.len() as int);
        if !tcp_header_ok(t) {
            None
        } else {
            Some(
                (
                    SegmentHeader {
                        src_addr: be32(b, 12) as u32,
                        src_port: be16(t, 0) as u16,
                        dst_addr: be32(b, 16) as u32,
                        dst_port: be16(t, 2) as u16,
                        seq: be32(t, 4) as u32,
                        ack: be32(t, 8) as u32,
                        window: be16(t, 14) as u16,
                        flags: flags_of(t[13]),
                    },
                    ihl + tcp_header_len(t),
                ),
            )
        }
    }
}

/// Relies on etherparse::Ipv4HeaderSlice::from_slice (accepts a buffer of at
/// least 20 bytes with version 4, IHL at least 5 and room for IHL words) and
/// its readers `source`, `destination`, `protocol`, `slice`.
#[verifier::external_body]
fn read_ipv4_header(frame: &[u8]) -> (r: Option<Ipv4Info>)
    ensures
        r is Some <==> ipv4_header_ok(frame@),
        r matches Some(h) ==> {
            &&& h.src_addr == be32(frame@, 12)
            &&& h.dst_addr == be32(frame@, 16)
            &&& h.protocol == frame@[9]
            &&& h.header_len == ipv4_header_len(frame@)
        },
{
    match etherparse::Ipv4HeaderSlice::from_slice(frame) {
        Ok(h) => Some(Ipv4Info {
            src_addr: u32::from_be_bytes(h.source()),
            dst_addr: u32::from_be_bytes(h.destination()),
            protocol: h.protocol().0,
            header_len: h.slice().len(),
        }),
        Err(_) => None,
    }
}

/// Relies on etherparse::TcpHeaderSlice::from_slice (accepts a buffer of at
/// least 20 bytes whose data offset is at least 5 words and fits) and its
/// field readers, which read fixed big-endian positions.
#[verifier::external_body]
fn read_tcp_header(segment: &[u8]) -> (r: Option<TcpInfo>)
    ensures
        r is Some <==> tcp_header_ok(segment@),
        r matches Some(h) ==> {
            &&& h.src_port == be16(segment@, 0)
            &&& h.dst_port == be16(segment@, 2)
            &&& h.seq == be32(segment@, 4)
            &&& h.ack == be32(segment@, 8)
            &&& h.window == be16(segment@, 14)
            &&& h.flags == flags_of(segment@[13])
            &&& h.header_len == tcp_header_len(segment@)
        },
{
    match etherparse::TcpHeaderSlice::from_slice(segment) {
        Ok(h) => Some(TcpInfo {
            src_port: h.source_port(),
            dst_port: h.destination_port(),
            seq: h.sequence_number(),
            ack: h.acknowledgment_number(),
            window: h.window_size(),
            flags: TcpFlags { fin: h.fin(), syn: h.syn(), rst: h.rst(), psh: h.psh(), ack: h.ack() },
            header_len: h.slice().len(),
        }),
        Err(_) => None,
    }
}

/// Relies on etherparse::Ipv4Header::new (DF set, identification 0, no
/// options) and Ipv4Header::write, which fills in the header checksum.
#[verifier::external_body]
fn ipv4_header_bytes(src: u32, dst: u32, payload_len: u16) -> (r: Vec<u8>)
    requires
        payload_len <= 65515,
    ensures
        r@ == ipv4_header_seq(
            src,
            dst,
            payload_len as int,
            ipv4_checksum_of(ipv4_header_seq(src, dst, payload_len as int, 0)),
        ),
{
    let ip = etherparse::Ipv4Header::new(
        payload_len,
        TTL,
        etherparse::IpNumber::TCP,
        src.to_be_bytes(),
        dst.to_be_bytes(),
    ).unwrap();
    let mut out = Vec::new();
    ip.write(&mut out).unwrap();
    out
}

/// Relies on etherparse::TcpHeader::calc_checksum_ipv4_raw: the RFC 793
/// checksum over the pseudo-header, the option-less header of `h` and
/// `payload`; it fails only for payloads over 65515 bytes.
#[verifier::external_body]
fn tcp_checksum(h: &SegmentHeader, payload: &[u8]) -> (r: u16)
    requires
        payload@.len() <= 65515,
    ensures
        r == tcp_checksum_of(h.src_addr, h.dst_addr, tcp_header_seq(*h, 0) + payload@),
{
    let mut t = etherparse::TcpHeader::new(h.src_port, h.dst_port, h.seq, h.window);
    t.acknowledgment_number = h.ack;
    t.fin = h.flags.fin;
    t.syn = h.flags.syn;
    t.rst = h.flags.rst;
    t.psh = h.flags.psh;
    t.ack = h.flags.ack;
    t.calc_checksum_ipv4_raw(h.src_addr.to_be_bytes(), h.dst_addr.to_be_bytes(), payload).unwrap()
}

/// Relies on etherparse::TcpHeader::write: the 20 fixed bytes of an
/// option-less header, big-endian, the checksum field as given.
#[verifier::external_body]
fn tcp_header_bytes(h: &SegmentHeader, checksum: u16) -> (r: Vec<u8>)
    ensures
        r@ == tcp_header_seq(*h, checksum),
{
    let mut t = etherparse::TcpHeader::new(h.src_port, h.dst_port, h.seq, h.window);
    t.acknowledgment_number = h.ack;
    t.fin = h.flags.fin;
    t.syn = h.flags.syn;
    t.rst = h.flags.rst;
    t.psh = h.flags.psh;
    t.ack = h.flags.ack;
    t.checksum = checksum;
    let mut out = Vec::new();
    t.write(&mut out).unwrap();
    out
}

/// Builds the frame that carries `payload` under header `h`: the IPv4
/// header, then the TCP header with its checksum computed over the payload
/// as it stands in the frame, then the payload.
pub fn encode_segment(h: &SegmentHeader, payload: &[u8]) -> (r: Vec<u8>)
    requires
        payload@.len() <= MAX_PAYLOAD_LEN,
    ensures
        r@ == frame_spec(*h, payload@),
        r@.len() == IPV4_HEADER_LEN + TCP_HEADER_LEN + payload@.len(),
{
    let mut out = ipv4_header_bytes(h.src_addr, h.dst_addr, (TCP_HEADER_LEN + payload.len()) as u16);
    let checksum = tcp_checksum(h, payload);
    let mut tcp = tcp_header_bytes(h, checksum);
    out.append(&mut tcp);
    let mut i: usize = 0;
    while i < payload.len()
        invariant
            i <= payload@.len(),
            out@ == ipv4_header_emitted(h.src_addr, h.dst_addr, 20 + payload@.len() as int) + tcp_header_seq(*h, checksum)
                + payload@.subrange(0, i as int),
        decreases payload@.len() - i,
    {
        out.push(payload[i]);
        i = i + 1;
        assert(payload@.subrange(0, i as int) == payload@.subrange(0, i - 1) + seq![payload@[i - 1]]);
    }
    assert(payload@.subrange(0, payload@.len() as int) == payload@);
    out
}

/// Parses an inbound frame: the header fields and the offset at which the
/// payload starts; `None` for a frame that is not well-formed IPv4 carrying
/// a well-formed TCP header.
pub fn parse_frame(frame: &[u8]) -> (r: Option<(SegmentHeader, usize)>)
    ensures
        match (r, parse_spec(frame@)) {
            (Some((h, off)), Some((h2, off2))) => h == h2 && off == off2 && off <= frame@.len(),
            (None, None) => true,
            _ => false,
        },
{
    let ip = match read_ipv4_header(frame) {
        Some(ip) => ip,
        None => return None,
    };
    if ip.protocol != PROTO_TCP {
        return None;
    }
    let rest = slice_from(frame, ip.header_len);
    let tcp = match read_tcp_header(rest) {
        Some(t) => t,
        None => return None,
    };
    let h = SegmentHeader {
        src_addr: ip.src_addr,
        src_port: tcp.src_port,
        dst_addr: ip.dst_addr,
        dst_port: tcp.dst_port,
        seq: tcp.seq,
        ack: tcp.ack,
        window: tcp.window,
        flags: tcp.flags,
    };
    Some((h, ip.header_len + tcp.header_len))
}

/// The bytes of `s` from `start` on.
pub fn slice_from(s: &[u8], start: usize) -> (r: &[u8])
    requires
        start <= s@.len(),
    ensures
        r@ == s@.subrange(start as int, s@.len() as int),
{
    let (_, tail) = s.split_at(start);
    tail
}

proof fn lemma_be16_round_trip(v: int)
    requires
        0 <= v < 0x1_0000,
    ensures
        be16(be16_bytes(v), 0) == v,
{
}

proof fn lemma_be32_round_trip(v: int)
    requires
        0 <= v < 0x1_0000_0000,
    ensures
        be32(be32_bytes(v), 0) == v,
{
}

proof fn lemma_flags_round_trip(f: TcpFlags)
    ensures
        flags_of(flags_byte(f)) == f,
{
}

proof fn lemma_ipv4_header_fields(src: u32, dst: u32, payload_len: int)
    requires
        0 <= payload_len <= 65515,
    ensures
        ({
            let ip = ipv4_header_emitted(src, dst, payload_len);
            &&& ip.len() == 20
            &&& ip[0] == 0x45u8
            &&& ip[9] == PROTO_TCP
            &&& be32(ip, 12) == src
            &&& be32(ip, 16) == dst
        }),
{
    let ip = ipv4_header_emitted(src, dst, payload_len);
    lemma_be32_round_trip(src as int);
    lemma_be32_round_trip(dst as int);
    assert(be32(ip, 12) == be32(be32_bytes(src as int), 0));
    assert(be32(ip, 16) == be32(be32_bytes(dst as int), 0));
}

proof fn lemma_tcp_header_fields(h: SegmentHeader, checksum: u16)
    ensures
        ({
            let t = tcp_header_seq(h, checksum);
            &&& t.len() == 20
            &&& t[12] == 0x50u8
            &&& be16(t, 0) == h.src_port
            &&& be16(t, 2) == h.dst_port
            &&& be32(t, 4) == h.seq
            &&& be32(t, 8) == h.ack
            &&& be16(t, 14) == h.window
            &&& flags_of(t[13]) == h.flags
        }),
{
    let t = tcp_header_seq(h, checksum);
    lemma_be16_round_trip(h.src_port as int);
    lemma_be16_round_trip(h.dst_port as int);
    lemma_be32_round_trip(h.seq as int);
    lemma_be32_round_trip(h.ack as int);
    lemma_be16_round_trip(h.window as int);
    lemma_flags_round_trip(h.flags);
    assert(be16(t, 0) == be16(be16_bytes(h.src_port as int), 0));
    assert(be16(t, 2) == be16(be16_bytes(h.dst_port as int), 0));
    assert(be32(t, 4) == be32(be32_bytes(h.seq as int), 0));
    assert(be32(t, 8) == be32(be32_bytes(h.ack as int), 0));
    assert(be16(t, 14) == be16(be16_bytes(h.window as int), 0));
}

/// Encode-then-decode: the frame built for a header and a payload parses
/// back to the same header fields, and its payload bytes follow the two
/// headers unchanged.
pub proof fn lemma_encode_decode(h: SegmentHeader, payload: Seq<u8>)
    requires
        payload.len() <= MAX_PAYLOAD_LEN,
    ensures
        parse_spec(frame_spec(h, payload)) == Some((h, 40int)),
        frame_spec(h, payload).subrange(40, frame_spec(h, payload).len() as int) == payload,
{
    let ip = ipv4_header_emitted(h.src_addr, h.dst_addr, 20 + payload.len() as int);
    let tcp = tcp_header_seq(h, segment_checksum(h, payload));
    lemma_ipv4_header_fields(h.src_addr, h.dst_addr, 20 + payload.len() as int);
    lemma_tcp_header_fields(h, segment_checksum(h, payload));
    let f = ip + tcp + payload;
    assert(f == frame_spec(h, payload));
    assert(f.subrange(0, 20) == ip);
    assert(f[0] == ip[0]);
    assert(f[9] == ip[9]);
    assert(be32(f, 12) == be32(ip, 12));
    assert(be32(f, 16) == be32(ip, 16));
    let t = f.subrange(20, f.len() as int);
    assert(t.subrange(0, 20) == tcp);
    assert(t[12] == tcp[12]);
    assert(t[13] == tcp[13]);
    assert(be16(t, 0) == be16(tcp, 0));
    assert(be16(t, 2) == be16(tcp, 2));
    assert(be32(t, 4) == be32(tcp, 4));
    assert(be32(t, 8) == be32(tcp, 8));
    assert(be16(t, 14) == be16(tcp, 14));
    assert(f.subrange(40, f.len() as int) == payload);
}

/// Every emitted frame carries, in its TCP checksum field, the RFC 793
/// checksum of its own bytes: the pseudo-header from its own addresses, its
/// TCP header with the checksum field zeroed, and its payload.
pub proof fn lemma_emitted_checksum(h: SegmentHeader, payload: Seq<u8>)
    requires
        payload.len() <= MAX_PAYLOAD_LEN,
    ensures
        ({
            let f = frame_spec(h, payload);
            be16(f, 36) == tcp_checksum_of(
                be32(f, 12) as u32,
                be32(f, 16) as u32,
                f.subrange(20, 36) + seq![0u8, 0u8] + f.subrange(38, f.len() as int),
            )
        }),
{
    let cs = segment_checksum(h, payload);
    let ip = ipv4_header_emitted(h.src_addr, h.dst_addr, 20 + payload.len() as int);
    let tcp = tcp_header_seq(h, cs);
    lemma_ipv4_header_fields(h.src_addr, h.dst_addr, 20 + payload.len() as int);
    lemma_be16_round_trip(cs as int);
    let f = ip + tcp + payload;
    assert(f == frame_spec(h, payload));
    assert(be32(f, 12) == be32(ip, 12));
    assert(be32(f, 16) == be32(ip, 16));
    assert(be16(f, 36) == be16(be16_bytes(cs as int), 0));
    assert(f.subrange(20, 36) + seq![0u8, 0u8] + f.subrange(38, f.len() as int) == tcp_header_seq(h, 0)
        + payload);
}

} // verus!
