//! The per-connection TCP state machine (RFC 793): acceptance of inbound
//! segments, acknowledgement accounting, emission of outbound segments and
//! the retransmission timer. Handlers never touch the device: they append
//! the segments to transmit to an outbox that the caller sends.
use vstd::prelude::*;
use crate::codec::{SegmentHeader, TcpFlags, MAX_PAYLOAD_LEN};
use crate::seq::{
    add_seq, between_spec, dist, is_between_wrapped, lt_spec, seq_add, seq_dist, seq_sub,
    wrapping_lt,
};

verus! {

/// Most bytes that the application may have queued unacknowledged.
pub const SEND_QUEUE_CAP: usize = 1024;

/// Most octets of sequence space in flight: the whole send queue plus the
/// SYN and FIN octets.
pub const MAX_FLIGHT: u32 = 1026;

/// The receive window that this endpoint advertises.
pub const RECV_WINDOW: u16 = 1024;

/// Smoothed round-trip estimate of a new connection, in microseconds.
pub const INITIAL_SRTT_US: u64 = 60_000_000;

/// How long a connection stays in TIME-WAIT (twice the maximum segment
/// lifetime of 30 s), in microseconds.
pub const TIME_WAIT_US: u64 = 60_000_000;

/// A retransmission waits at least this long, in microseconds.
pub const MIN_RTO_US: u64 = 1_000_000;

/// Connection states; listening is membership of a port's pending queue.
#[derive(Clone, Copy, Debug, PartialEq, Eq, Structural)]
pub enum State {
    SynRcvd,
    Estab,
    FinWait1,
    FinWait2,
    TimeWait,
}

/// The four-tuple of a connection, seen from this endpoint: `src` is the
/// remote peer, `dst` is local. Addresses are big-endian integers.
#[derive(Clone, Copy, Debug, PartialEq, Eq, Structural, Hash)]
pub struct Quad {
    pub src_addr: u32,
    pub src_port: u16,
    pub dst_addr: u32,
    pub dst_port: u16,
}

/// State of the send sequence space (RFC 793 S3.2 F4).
#[derive(Clone, Copy, Debug, PartialEq, Eq, Structural)]
pub struct SendSeqBlock {
    /// oldest unacknowledged sequence number
    pub una: u32,
    /// next sequence number to send
    pub nxt: u32,
    /// window that the peer advertised
    pub wnd: u16,
    /// urgent pointer
    pub up: u16,
    /// segment sequence number of the last window update
    pub wl1: usize,
    /// segment acknowledgment number of the last window update
    pub wl2: usize,
    /// initial send sequence number
    pub iss: u32,
}

/// State of the receive sequence space (RFC 793 S3.2 F5).
#[derive(Clone, Copy, Debug, PartialEq, Eq, Structural)]
pub struct RecvSeqBlock {
    /// next sequence number expected
    pub nxt: u32,
    /// window that this endpoint advertises
    pub wnd: u16,
    /// urgent pointer
    pub up: u16,
    /// initial receive sequence number
    pub irs: u32,
}

/// Which waiters a handler's work may concern.
#[derive(Clone, Copy, Debug, PartialEq, Eq, Structural)]
pub struct Available {
    pub read: bool,
    pub write: bool,
}

/// A segment to transmit: its header and its payload.
#[derive(Debug)]
pub struct Segment {
    pub header: SegmentHeader,
    pub payload: Vec<u8>,
}

impl View for Segment {
    type V = (SegmentHeader, Seq<u8>);

    open spec fn view(&self) -> (SegmentHeader, Seq<u8>) {
        (self.header, self.payload@)
    }
}

/// One connection's record.
pub struct Connection {
    pub state: State,
    pub send: SendSeqBlock,
    pub recv: RecvSeqBlock,
    pub quad: Quad,
    /// start sequence of each segment in flight, with the time (in
    /// microseconds) it was last transmitted
    pub send_times: Vec<(u32, u64)>,
    /// smoothed round-trip time, in microseconds
    pub srtt: u64,
    /// bytes received and not yet read by the application
    pub incoming: std::collections::VecDeque<u8>,
    /// bytes written by the application and not yet acknowledged
    pub unacked: std::collections::VecDeque<u8>,
    /// the application asked for shutdown
    pub closed: bool,
    /// where the local FIN lives, once it was scheduled
    pub closed_at: Option<u32>,
    /// when the connection entered TIME-WAIT, in microseconds
    pub time_wait_since: Option<u64>,
}

/// The mathematical value of a connection record.
pub struct ConnView {
    pub state: State,
    pub send: SendSeqBlock,
    pub recv: RecvSeqBlock,
    pub quad: Quad,
    pub send_times: Seq<(u32, u64)>,
    pub srtt: u64,
    pub incoming: Seq<u8>,
    pub unacked: Seq<u8>,
    pub closed: bool,
    pub closed_at: Option<u32>,
    pub time_wait_since: Option<u64>,
}

impl View for Connection {
    type V = ConnView;

    open spec fn view(&self) -> ConnView {
        ConnView {
            state: self.state,
            send: self.send,
            recv: self.recv,
            quad: self.quad,
            send_times: self.send_times@,
            srtt: self.srtt,
            incoming: self.incoming@,
            unacked: self.unacked@,
            closed: self.closed,
            closed_at: self.closed_at,
            time_wait_since: self.time_wait_since,
        }
    }
}

/// `a` is `b` or comes before it.
pub open spec fn le_spec(a: u32, b: u32) -> bool {
    a == b || lt_spec(a, b)
}

/// No key occurs twice.
pub open spec fn keys_unique(s: Seq<(u32, u64)>) -> bool {
    forall|i: int, j: int| 0 <= i < j < s.len() ==> s[i].0 != s[j].0
}

/// Every key lies in `[una, nxt)`.
pub open spec fn keys_in_flight(s: Seq<(u32, u64)>, una: u32, nxt: u32) -> bool {
    forall|i: int| 0 <= i < s.len() ==> dist(una, #[trigger] s[i].0) < dist(una, nxt)
}

impl ConnView {
    /// The record's invariant: the send queue within its bound, at most
    /// `MAX_FLIGHT` octets between `una` and `nxt`, and one timing entry per
    /// in-flight segment start, each in `[una, nxt)`.
    pub open spec fn inv(&self) -> bool {
        &&& self.unacked.len() <= SEND_QUEUE_CAP
        &&& dist(self.send.una, self.send.nxt) <= MAX_FLIGHT
        &&& keys_unique(self.send_times)
        &&& keys_in_flight(self.send_times, self.send.una, self.send.nxt)
    }

    /// The SYN octet at `iss` is still unacknowledged.
    pub open spec fn syn_pending(&self) -> bool {
        self.send.una == self.send.iss
    }

    /// Sequence number of the first byte of `unacked`.
    pub open spec fn data_start(&self) -> u32 {
        if self.syn_pending() {
            add_seq(self.send.una, 1)
        } else {
            self.send.una
        }
    }

    /// Position in `unacked` of the byte that sequence number `seq` carries.
    pub open spec fn offset_of(&self, seq: u32) -> int {
        if self.syn_pending() && seq == self.send.una {
            0
        } else {
            dist(self.data_start(), seq)
        }
    }

    /// The connection sat in TIME-WAIT for twice the maximum segment
    /// lifetime by `now`.
    pub open spec fn expired(&self, now: u64) -> bool {
        self.state == State::TimeWait && match self.time_wait_since {
            Some(t) => now >= t && now - t >= TIME_WAIT_US,
            None => false,
        }
    }

    /// The receive side is closed: the peer's FIN was accepted.
    pub open spec fn rcv_closed(&self) -> bool {
        self.state == State::TimeWait
    }

    pub open spec fn availability(&self) -> Available {
        Available { read: self.rcv_closed() || self.incoming.len() > 0, write: false }
    }
}

pub open spec fn min(a: int, b: int) -> int {
    if a <= b { a } else { b }
}

pub open spec fn max(a: int, b: int) -> int {
    if a >= b { a } else { b }
}

/// The entries of `s` that `keep_it` keeps, in order.
pub open spec fn keep(s: Seq<(u32, u64)>, keep_it: spec_fn((u32, u64)) -> bool) -> Seq<(u32, u64)>
    decreases s.len(),
{
    if s.len() == 0 {
        s
    } else if keep_it(s.last()) {
        keep(s.drop_last(), keep_it).push(s.last())
    } else {
        keep(s.drop_last(), keep_it)
    }
}

/// `s` with the entry for key `k` removed.
pub open spec fn without_key(s: Seq<(u32, u64)>, k: u32) -> Seq<(u32, u64)> {
    keep(s, other_key(k))
}

/// Entries whose key is not `k`.
pub open spec fn other_key(k: u32) -> spec_fn((u32, u64)) -> bool {
    |e: (u32, u64)| e.0 != k
}

/// `s` with `k` mapped to `v`.
pub open spec fn upsert(s: Seq<(u32, u64)>, k: u32, v: u64) -> Seq<(u32, u64)> {
    without_key(s, k).push((k, v))
}

/// Whether an emission at `seq` carries the SYN octet.
pub open spec fn emit_syn(c: ConnView, seq: u32, syn: bool) -> bool {
    syn && c.syn_pending() && seq == c.send.una
}

/// Payload length of an emission at `seq` with byte limit `limit`: bounded
/// by the limit, by what `unacked` holds from `seq` on (nothing just past
/// the FIN), by the peer's window, by the frame, and by the room left under
/// `MAX_FLIGHT`. That last bound keeps the whole send queue plus the SYN and
/// FIN octets in flight; it binds only while the SYN is unacknowledged and
/// the queue is full, where a segment then carries one byte less.
pub open spec fn emit_len(c: ConnView, seq: u32, limit: int, syn: bool) -> int {
    let off = c.offset_of(seq);
    let avail = if past_fin(c, seq) || off > c.unacked.len() { 0 } else { c.unacked.len() - off };
    let room = MAX_FLIGHT - 2 - dist(c.send.una, seq);
    min(min(min(limit, avail), min(c.send.wnd as int, MAX_PAYLOAD_LEN as int)), max(room, 0))
}

/// Whether an emission carries the FIN: the application closed, the FIN was
/// placed, and the emitted window reaches it.
pub open spec fn emit_fin(c: ConnView, seq: u32, n: int, syn: bool) -> bool {
    let s: int = if emit_syn(c, seq, syn) { 1 } else { 0 };
    match c.closed_at {
        Some(ca) => c.closed && add_seq(seq, s + n) == ca && dist(c.send.una, seq) + s + n + 1
            <= MAX_FLIGHT,
        None => false,
    }
}

/// The segment emitted at `seq`.
#[verifier::opaque]
pub open spec fn emit_segment(c: ConnView, seq: u32, limit: int, syn: bool, fin_ok: bool) -> (
    SegmentHeader,
    Seq<u8>,
) {
    let n = emit_len(c, seq, limit, syn);
    let off = c.offset_of(seq);
    let fin = fin_ok && emit_fin(c, seq, n, syn);
    (
        SegmentHeader {
            src_addr: c.quad.dst_addr,
            src_port: c.quad.dst_port,
            dst_addr: c.quad.src_addr,
            dst_port: c.quad.src_port,
            seq,
            ack: c.recv.nxt,
            window: c.recv.wnd,
            flags: TcpFlags { fin, syn: emit_syn(c, seq, syn), rst: false, psh: n > 0, ack: true },
        },
        if n > 0 { c.unacked.subrange(off, off + n) } else { Seq::empty() },
    )
}

/// Octets of sequence space that a segment occupies.
pub open spec fn seg_space(h: SegmentHeader, payload_len: int) -> int {
    payload_len + (if h.flags.syn { 1int } else { 0 }) + (if h.flags.fin { 1int } else { 0 })
}

/// The record after an emission at `seq` at time `now`: `nxt` advances to
/// the end of the segment if that lies further, and a segment that occupies
/// sequence space gets its send time.
#[verifier::opaque]
pub open spec fn emit_state(c: ConnView, now: u64, seq: u32, limit: int, syn: bool, fin_ok: bool) -> ConnView {
    let (h, p) = emit_segment(c, seq, limit, syn, fin_ok);
    let len = seg_space(h, p.len() as int);
    let next = add_seq(seq, len);
    ConnView {
        send: SendSeqBlock {
            nxt: if lt_spec(c.send.nxt, next) { next } else { c.send.nxt },
            ..c.send
        },
        send_times: if len > 0 { upsert(c.send_times, seq, now) } else { c.send_times },
        ..c
    }
}

/// The segments of an outbox, as values.
pub open spec fn segs(v: Seq<Segment>) -> Seq<(SegmentHeader, Seq<u8>)> {
    v.map_values(|s: Segment| s@)
}

proof fn lemma_segs_push(v: Seq<Segment>, s: Segment)
    ensures
        segs(v.push(s)) == segs(v).push(s@),
{
    assert(segs(v.push(s)) =~= segs(v).push(s@));
}

proof fn lemma_keep(s: Seq<(u32, u64)>, keep_it: spec_fn((u32, u64)) -> bool)
    ensures
        forall|j: int| 0 <= j < keep(s, keep_it).len() ==> keep_it(#[trigger] keep(s, keep_it)[j]),
        keys_unique(s) ==> keys_unique(keep(s, keep_it)),
        forall|j: int|
            0 <= j < keep(s, keep_it).len() ==> exists|i: int|
                0 <= i < s.len() && s[i] == #[trigger] keep(s, keep_it)[j],
    decreases s.len(),
{
    if s.len() > 0 {
        let t = s.drop_last();
        lemma_keep(t, keep_it);
        let w = keep(t, keep_it);
        assert forall|j: int| 0 <= j < w.len() implies exists|i: int|
            0 <= i < s.len() && s[i] == #[trigger] w[j] by {
            let i = choose|i: int| 0 <= i < t.len() && t[i] == w[j];
            assert(s[i] == w[j]);
        }
        if keep_it(s.last()) {
            let w2 = w.push(s.last());
            assert forall|j: int| 0 <= j < w2.len() implies exists|i: int|
                0 <= i < s.len() && s[i] == #[trigger] w2[j] by {
                if j < w.len() {
                    assert(w2[j] == w[j]);
                } else {
                    assert(s[s.len() - 1] == w2[j]);
                }
            }
            if keys_unique(s) {
                assert(keys_unique(t));
                assert forall|a: int, b: int| 0 <= a < b < w2.len() implies w2[a].0 != w2[b].0 by {
                    if b == w.len() {
                        let i = choose|i: int| 0 <= i < t.len() && t[i] == w[a];
                        assert(s[i] == t[i]);
                    }
                }
            }
        } else {
            if keys_unique(s) {
                assert(keys_unique(t));
            }
        }
    }
}

impl Connection {
    /// Sets the send time of the segment starting at `seq` to `now`.
    fn record_send_time(&mut self, seq: u32, now: u64)
        ensures
            final(self)@ == (ConnView { send_times: upsert(old(self)@.send_times, seq, now), ..old(self)@ }),
    {
        let mut kept: Vec<(u32, u64)> = Vec::new();
        let mut i: usize = 0;
        while i < self.send_times.len()
            invariant
                i <= self.send_times@.len(),
                self@ == old(self)@,
                kept@ == keep(self.send_times@.subrange(0, i as int), other_key(seq)),
            decreases self.send_times@.len() - i,
        {
            let e = self.send_times[i];
            assert(self.send_times@.subrange(0, i + 1).drop_last() == self.send_times@.subrange(0, i as int));
            if e.0 != seq {
                kept.push(e);
            }
            i = i + 1;
        }
        assert(self.send_times@.subrange(0, i as int) == self.send_times@);
        kept.push((seq, now));
        self.send_times = kept;
    }

    /// The payload of an emission at `seq`, and its length.
    fn payload_at(&self, seq: u32, limit: usize, syn: bool) -> (r: (Vec<u8>, usize))
        requires
            self@.inv(),
        ensures
            r.1 == emit_len(self@, seq, limit as int, syn),
            r.0@ == emit_segment(self@, seq, limit as int, syn, false).1,
    {
        proof {
            reveal(emit_segment);
        }
        let ghost c = self@;
        let syn_pending = self.send.una == self.send.iss;
        let off: u32 = if syn_pending && seq == self.send.una {
            0
        } else if syn_pending {
            seq_dist(seq_add(self.send.una, 1), seq)
        } else {
            seq_dist(self.send.una, seq)
        };
        assert(off as int == c.offset_of(seq));
        let qlen = self.unacked.len();
        let past = match self.closed_at {
            Some(ca) => seq == seq_add(ca, 1),
            None => false,
        };
        let avail: usize = if !past && off as usize <= qlen { qlen - off as usize } else { 0 };
        let d = seq_dist(self.send.una, seq);
        let room: usize = if d <= MAX_FLIGHT - 2 { (MAX_FLIGHT - 2 - d) as usize } else { 0 };
        let mut n = limit;
        if avail < n {
            n = avail;
        }
        let mut cap = self.send.wnd as usize;
        if MAX_PAYLOAD_LEN < cap {
            cap = MAX_PAYLOAD_LEN;
        }
        if cap < n {
            n = cap;
        }
        if room < n {
            n = room;
        }
        let mut payload: Vec<u8> = Vec::new();
        if n > 0 {
            let start = off as usize;
            assert(start + n <= qlen);
            let mut i: usize = 0;
            while i < n
                invariant
                    i <= n,
                    start + n <= self.unacked@.len(),
                    start + n <= qlen,
                    qlen == self.unacked@.len(),
                    payload@ == self.unacked@.subrange(start as int, start + i),
                decreases n - i,
            {
                payload.push(self.unacked[start + i]);
                i = i + 1;
                assert(payload@ == self.unacked@.subrange(start as int, start + i));
            }
        }
        (payload, n)
    }

    /// The segment that an emission at `seq` sends.
    fn segment_at(&self, seq: u32, limit: usize, syn: bool, fin_ok: bool) -> (r: Segment)
        requires
            self@.inv(),
            dist(self.send.una, seq) <= dist(self.send.una, self.send.nxt),
        ensures
            r@ == emit_segment(self@, seq, limit as int, syn, fin_ok),
    {
        proof {
            reveal(emit_segment);
        }
        let ghost c = self@;
        let syn_flag = syn && self.send.una == self.send.iss && seq == self.send.una;
        let d = seq_dist(self.send.una, seq);
        let (payload, n) = self.payload_at(seq, limit, syn);
        proof {
            lemma_emit_len_bounds(c, seq, limit as int, syn);
        }
        assert(n <= MAX_PAYLOAD_LEN);
        let s: u32 = if syn_flag { 1 } else { 0 };
        let fin = match self.closed_at {
            Some(ca) => fin_ok && self.closed && seq_add(seq, s + n as u32) == ca && d as u64 + s as u64
                + n as u64 + 1 <= MAX_FLIGHT as u64,
            None => false,
        };
        let header = SegmentHeader {
            src_addr: self.quad.dst_addr,
            src_port: self.quad.dst_port,
            dst_addr: self.quad.src_addr,
            dst_port: self.quad.src_port,
            seq,
            ack: self.recv.nxt,
            window: self.recv.wnd,
            flags: TcpFlags { fin, syn: syn_flag, rst: false, psh: n > 0, ack: true },
        };
        Segment { header, payload }
    }

    /// Advances `nxt` over a segment sent at time `now`, and records its send
    /// time if it occupies sequence space.
    fn advance_over(&mut self, now: u64, h: &SegmentHeader, payload_len: usize)
        requires
            payload_len <= MAX_PAYLOAD_LEN,
        ensures
            ({
                let len = seg_space(*h, payload_len as int);
                let next = add_seq(h.seq, len);
                final(self)@ == (ConnView {
                    send: SendSeqBlock {
                        nxt: if lt_spec(old(self)@.send.nxt, next) { next } else { old(self)@.send.nxt },
                        ..old(self)@.send
                    },
                    send_times: if len > 0 { upsert(old(self)@.send_times, h.seq, now) } else { old(self)@.send_times },
                    ..old(self)@
                })
            }),
    {
        let s: u32 = if h.flags.syn { 1 } else { 0 };
        let f: u32 = if h.flags.fin { 1 } else { 0 };
        let space = payload_len as u32 + s + f;
        let next = seq_add(h.seq, space);
        if wrapping_lt(self.send.nxt, next) {
            self.send.nxt = next;
        }
        if space > 0 {
            self.record_send_time(h.seq, now);
        }
    }

    /// Emits the segment at `seq`: up to `limit` bytes of `unacked` from the
    /// matching offset, the SYN if asked for and still pending, and the FIN
    /// where `fin_ok` and the segment reaches `closed_at`.
    pub fn write(&mut self, now: u64, seq: u32, limit: usize, syn: bool, fin_ok: bool, out: &mut Vec<Segment>)
        requires
            old(self)@.inv(),
            dist(old(self).send.una, seq) <= dist(old(self).send.una, old(self).send.nxt),
        ensures
            final(self)@ == emit_state(old(self)@, now, seq, limit as int, syn, fin_ok),
            segs(final(out)@) == segs(old(out)@).push(emit_segment(old(self)@, seq, limit as int, syn, fin_ok)),
            final(self)@.inv(),
    {
        proof {
            reveal(emit_state);
            reveal(emit_segment);
        }
        let ghost c = self@;
        let seg = self.segment_at(seq, limit, syn, fin_ok);
        proof {
            lemma_emit_len_bounds(c, seq, limit as int, syn);
        }
        self.advance_over(now, &seg.header, seg.payload.len());
        proof {
            lemma_segs_push(out@, seg);
            lemma_emit_inv(c, now, seq, limit as int, syn, fin_ok);
        }
        out.push(seg);
    }
}

proof fn lemma_emit_len_bounds(c: ConnView, seq: u32, limit: int, syn: bool)
    requires
        limit >= 0,
    ensures
        emit_len(c, seq, limit, syn) >= 0,
        emit_len(c, seq, limit, syn) > 0 ==> 0 <= c.offset_of(seq) && c.offset_of(seq) + emit_len(
            c,
            seq,
            limit,
            syn,
        ) <= c.unacked.len(),
        emit_segment(c, seq, limit, syn, false).1.len() == emit_len(c, seq, limit, syn),
{
    reveal(emit_segment);
    let off = c.offset_of(seq);
    assert(off >= 0);
}

proof fn lemma_emit_inv(c: ConnView, now: u64, seq: u32, limit: int, syn: bool, fin_ok: bool)
    requires
        limit >= 0,
        c.inv(),
        dist(c.send.una, seq) <= dist(c.send.una, c.send.nxt),
    ensures
        emit_state(c, now, seq, limit, syn, fin_ok).inv(),
{
    reveal(emit_state);
    reveal(emit_segment);
    let c2 = emit_state(c, now, seq, limit, syn, fin_ok);
    let (h, p) = emit_segment(c, seq, limit, syn, fin_ok);
    let len = seg_space(h, p.len() as int);
    let d = dist(c.send.una, seq);
    let n = emit_len(c, seq, limit, syn);
    let sy = emit_syn(c, seq, syn);
    lemma_emit_len_bounds(c, seq, limit, syn);
    assert(p.len() == n);
    assert(h.flags.syn == sy);
    assert(h.flags.fin ==> emit_fin(c, seq, n, syn));
    assert(sy ==> d == 0);
    assert(d <= MAX_FLIGHT);
    assert(d + len <= MAX_FLIGHT);
    let next = add_seq(seq, len);
    crate::seq::lemma_dist_shift(c.send.una, seq, len);
    crate::seq::lemma_lt_from_base(c.send.una, c.send.nxt, next);
    assert(dist(c.send.una, c2.send.nxt) >= dist(c.send.una, c.send.nxt));
    assert(dist(c.send.una, c2.send.nxt) >= d + len);
    if len > 0 {
        let w = without_key(c.send_times, seq);
        lemma_keep(c.send_times, other_key(seq));
        let u = w.push((seq, now));
        assert(keys_in_flight(c.send_times, c.send.una, c2.send.nxt));
        assert forall|j: int| 0 <= j < w.len() implies dist(c.send.una, #[trigger] w[j].0) < dist(
            c.send.una,
            c2.send.nxt,
        ) by {
            let i = choose|i: int| 0 <= i < c.send_times.len() && c.send_times[i] == w[j];
        }
        assert(forall|j: int| 0 <= j < w.len() ==> (other_key(seq))(#[trigger] w[j]));
        assert(keys_unique(u));
        assert(keys_in_flight(u, c.send.una, c2.send.nxt));
    }
}

/// RFC 793 S3.3 acceptance of a segment of `slen` octets at `seqn` into
/// the receive window `[rnxt, rnxt + rwnd)`.
pub open spec fn acceptable_spec(rnxt: u32, rwnd: u16, seqn: u32, slen: int) -> bool {
    let wend = add_seq(rnxt, rwnd as int);
    if slen == 0 {
        if rwnd == 0 {
            seqn == rnxt
        } else {
            between_spec(add_seq(rnxt, -1), seqn, wend)
        }
    } else {
        if rwnd == 0 {
            false
        } else {
            between_spec(add_seq(rnxt, -1), seqn, wend) || between_spec(
                add_seq(rnxt, -1),
                add_seq(seqn, slen - 1),
                wend,
            )
        }
    }
}

/// An acknowledgement number that covers something sent: in `[una, nxt]`.
pub open spec fn ack_acceptable(c: ConnView, ackn: u32) -> bool {
    between_spec(add_seq(c.send.una, -1), ackn, add_seq(c.send.nxt, 1))
}

/// Bytes of `unacked` that an acknowledgement up to `ackn` covers: the
/// octets from `una` to `ackn`, less the SYN octet while it is pending and
/// less the FIN octet when the acknowledgement covers it.
pub open spec fn acked_data(c: ConnView, ackn: u32) -> int {
    let a = dist(c.send.una, ackn);
    let s: int = if c.syn_pending() { 1 } else { 0 };
    let f: int = if fin_acked_by(c, ackn) { 1 } else { 0 };
    let data_acked = if a >= s + f { a - s - f } else { 0 };
    min(data_acked, c.unacked.len() as int)
}

/// The acknowledgement up to `ackn` covers the FIN octet at `closed_at`.
pub open spec fn fin_acked_by(c: ConnView, ackn: u32) -> bool {
    match c.closed_at {
        Some(ca) => ackn == add_seq(ca, 1),
        None => false,
    }
}

/// `seq` lies just past the FIN: nothing is sent there but the FIN's
/// acknowledgement bookkeeping.
pub open spec fn past_fin(c: ConnView, seq: u32) -> bool {
    match c.closed_at {
        Some(ca) => seq == add_seq(ca, 1),
        None => false,
    }
}

/// Timing entries that an acknowledgement up to `ackn` leaves.
pub open spec fn unsampled(una: u32, ackn: u32) -> spec_fn((u32, u64)) -> bool {
    |e: (u32, u64)| dist(una, e.0) >= dist(una, ackn)
}

/// Round-trip time of a segment sent at `sent`, observed at `now`.
pub open spec fn rtt(now: u64, sent: u64) -> u64 {
    if now >= sent { (now - sent) as u64 } else { 0 }
}

/// `srtt <- 0.8 * srtt + 0.2 * rtt`.
pub open spec fn smooth(srtt: u64, sample: u64) -> u64 {
    ((4 * srtt + sample) / 5) as u64
}

/// The estimate after sampling, in order, each entry of `s` that an
/// acknowledgement up to `ackn` covers.
pub open spec fn srtt_after(srtt: u64, s: Seq<(u32, u64)>, una: u32, ackn: u32, now: u64) -> u64
    decreases s.len(),
{
    if s.len() == 0 {
        srtt
    } else {
        let prev = srtt_after(srtt, s.drop_last(), una, ackn, now);
        if (unsampled(una, ackn))(s.last()) {
            prev
        } else {
            smooth(prev, rtt(now, s.last().1))
        }
    }
}

/// The record after an acceptable acknowledgement up to `ackn` at `now`:
/// `una` moves to `ackn`, the acknowledged data leaves the front of
/// `unacked`, and each covered timing entry gives an RTT sample and goes.
#[verifier::opaque]
pub open spec fn ack_state(c: ConnView, now: u64, ackn: u32) -> ConnView {
    ConnView {
        send: SendSeqBlock { una: ackn, ..c.send },
        unacked: c.unacked.subrange(acked_data(c, ackn), c.unacked.len() as int),
        send_times: keep(c.send_times, unsampled(c.send.una, ackn)),
        srtt: srtt_after(c.srtt, c.send_times, c.send.una, ackn, now),
        ..c
    }
}

/// Accepts a segment of `slen` octets at `seqn` into the receive window
/// (RFC 793 S3.3).
pub fn is_acceptable(recv: &RecvSeqBlock, seqn: u32, slen: u32) -> (r: bool)
    ensures
        r == acceptable_spec(recv.nxt, recv.wnd, seqn, slen as int),
{
    let wend = seq_add(recv.nxt, recv.wnd as u32);
    let before = seq_sub(recv.nxt, 1);
    if slen == 0 {
        if recv.wnd == 0 {
            seqn == recv.nxt
        } else {
            is_between_wrapped(before, seqn, wend)
        }
    } else {
        if recv.wnd == 0 {
            false
        } else {
            is_between_wrapped(before, seqn, wend) || is_between_wrapped(
                before,
                seq_add(seqn, slen - 1),
                wend,
            )
        }
    }
}

/// `smooth` on machine integers.
fn smooth_exec(srtt: u64, sample: u64) -> (r: u64)
    ensures
        r == smooth(srtt, sample),
{
    ((4 * srtt as u128 + sample as u128) / 5) as u64
}

impl Connection {
    /// Takes an acceptable acknowledgement up to `ackn` at time `now`.
    fn take_ack(&mut self, now: u64, ackn: u32)
        requires
            old(self)@.inv(),
            ack_acceptable(old(self)@, ackn),
        ensures
            final(self)@ == ack_state(old(self)@, now, ackn),
            final(self)@.inv(),
    {
        proof {
            reveal(ack_state);
        }
        let ghost c = self@;
        let una = self.send.una;
        let a = seq_dist(una, ackn);
        let sp: u32 = if una == self.send.iss { 1 } else { 0 };
        let fp: u32 = match self.closed_at {
            Some(ca) => if ackn == seq_add(ca, 1) { 1 } else { 0 },
            None => 0,
        };
        let data_acked: u32 = if a as u64 >= sp as u64 + fp as u64 { a - sp - fp } else { 0 };
        let n: usize = if (data_acked as usize) < self.unacked.len() { data_acked as usize } else { self.unacked.len() };
        assert(n == acked_data(c, ackn));
        let rest = self.unacked.split_off(n);
        self.unacked = rest;
        let mut kept: Vec<(u32, u64)> = Vec::new();
        let mut srtt = self.srtt;
        let mut i: usize = 0;
        let bound = seq_dist(una, ackn);
        while i < self.send_times.len()
            invariant
                i <= self.send_times@.len(),
                self.send_times@ == c.send_times,
                una == c.send.una,
                bound == dist(una, ackn),
                kept@ == keep(c.send_times.subrange(0, i as int), unsampled(una, ackn)),
                srtt == srtt_after(c.srtt, c.send_times.subrange(0, i as int), una, ackn, now),
            decreases self.send_times@.len() - i,
        {
            let e = self.send_times[i];
            assert(c.send_times.subrange(0, i + 1).drop_last() == c.send_times.subrange(0, i as int));
            if seq_dist(una, e.0) >= bound {
                kept.push(e);
            } else {
                let sample = if now >= e.1 { now - e.1 } else { 0 };
                srtt = smooth_exec(srtt, sample);
            }
            i = i + 1;
        }
        assert(c.send_times.subrange(0, i as int) == c.send_times);
        self.send_times = kept;
        self.srtt = srtt;
        self.send.una = ackn;
        proof {
            lemma_ack_inv(c, now, ackn);
        }
    }
}

proof fn lemma_ack_inv(c: ConnView, now: u64, ackn: u32)
    requires
        c.inv(),
        ack_acceptable(c, ackn),
    ensures
        ack_state(c, now, ackn).inv(),
{
    reveal(ack_state);
    let c2 = ack_state(c, now, ackn);
    let una = c.send.una;
    let nxt = c.send.nxt;
    crate::seq::lemma_ack_in_range(una, ackn, nxt);
    crate::seq::lemma_dist_trans(una, ackn, nxt);
    let w = keep(c.send_times, unsampled(una, ackn));
    lemma_keep(c.send_times, unsampled(una, ackn));
    assert forall|j: int| 0 <= j < w.len() implies dist(ackn, #[trigger] w[j].0) < dist(ackn, nxt) by {
        let i = choose|i: int| 0 <= i < c.send_times.len() && c.send_times[i] == w[j];
        assert((unsampled(una, ackn))(w[j]));
        assert(dist(una, c.send_times[i].0) < dist(una, nxt));
        crate::seq::lemma_dist_trans(una, ackn, w[j].0);
    }
}

/// States in which the connection is synchronised and takes ACKs and data.
pub open spec fn synchronized(s: State) -> bool {
    s == State::Estab || s == State::FinWait1 || s == State::FinWait2
}

/// The record after taking the data of an acceptable segment at `seqn`:
/// the bytes past `recv.nxt` are appended to `incoming` and `recv.nxt`
/// moves to the segment's end; a segment that starts beyond `recv.nxt`
/// (out of order) leaves the record as it is.
#[verifier::opaque]
pub open spec fn recv_data_state(c: ConnView, seqn: u32, data: Seq<u8>) -> ConnView {
    let k = dist(seqn, c.recv.nxt);
    if k <= data.len() {
        ConnView {
            incoming: c.incoming + data.subrange(k, data.len() as int),
            recv: RecvSeqBlock { nxt: add_seq(seqn, data.len() as int), ..c.recv },
            ..c
        }
    } else {
        c
    }
}

/// A bare acknowledgement: `seq = send.nxt`, `ack = recv.nxt`, no payload.
pub open spec fn bare_ack(c: ConnView) -> (SegmentHeader, Seq<u8>) {
    emit_segment(c, c.send.nxt, 0, false, false)
}

/// The record after the acknowledgement part of a segment.
#[verifier::opaque]
pub open spec fn after_ack_part(c: ConnView, now: u64, ackn: u32) -> ConnView {
    let ok = ack_acceptable(c, ackn);
    let c1 = if c.state == State::SynRcvd && ok { ConnView { state: State::Estab, ..c } } else { c };
    let c2 = if synchronized(c1.state) && ok { ack_state(c1, now, ackn) } else { c1 };
    match c2.closed_at {
        Some(ca) => if (c2.state == State::Estab || c2.state == State::FinWait1) && c2.send.una
            == add_seq(ca, 1) {
            ConnView { state: State::FinWait2, ..c2 }
        } else {
            c2
        },
        None => c2,
    }
}

/// What a connection does with an inbound segment `h` carrying `data` at
/// time `now`: the new record and the segments it emits.
pub open spec fn packet_spec(c: ConnView, now: u64, h: SegmentHeader, data: Seq<u8>) -> (
    ConnView,
    Seq<(SegmentHeader, Seq<u8>)>,
) {
    let slen = data.len() + (if h.flags.syn { 1int } else { 0 }) + (if h.flags.fin { 1int } else { 0 });
    if !acceptable_spec(c.recv.nxt, c.recv.wnd, h.seq, slen) {
        (emit_state(c, now, c.send.nxt, 0, false, false), seq![bare_ack(c)])
    } else if !h.flags.ack {
        (c, Seq::empty())
    } else {
        data_fin_part(after_ack_part(c, now, h.ack), now, h, data)
    }
}

/// The part of a segment's handling that follows its acknowledgement: its
/// data, then its FIN.
#[verifier::opaque]
pub open spec fn data_fin_part(c3: ConnView, now: u64, h: SegmentHeader, data: Seq<u8>) -> (
    ConnView,
    Seq<(SegmentHeader, Seq<u8>)>,
) {
    let c4 = if data.len() > 0 && synchronized(c3.state) {
        let d = recv_data_state(c3, h.seq, data);
        emit_state(d, now, d.send.nxt, 0, false, false)
    } else {
        c3
    };
    let o4 = if data.len() > 0 && synchronized(c3.state) {
        seq![bare_ack(recv_data_state(c3, h.seq, data))]
    } else {
        Seq::empty()
    };
    if h.flags.fin && c4.state == State::FinWait2 && add_seq(h.seq, data.len() as int) == c4.recv.nxt {
        let c5 = ConnView { recv: RecvSeqBlock { nxt: add_seq(c4.recv.nxt, 1), ..c4.recv }, ..c4 };
        let c6 = emit_state(c5, now, c5.send.nxt, 0, false, false);
        (ConnView { state: State::TimeWait, time_wait_since: Some(now), ..c6 }, o4.push(bare_ack(c5)))
    } else {
        (c4, o4)
    }
}

impl Connection {
    /// Takes the data of an acceptable segment at `seqn`.
    fn take_data(&mut self, seqn: u32, data: &[u8])
        requires
            data@.len() <= 0xffff,
            old(self)@.inv(),
        ensures
            final(self)@ == recv_data_state(old(self)@, seqn, data@),
            final(self)@.inv(),
    {
        proof {
            reveal(recv_data_state);
        }
        let ghost c = self@;
        let k = seq_dist(seqn, self.recv.nxt);
        if (k as usize) <= data.len() {
            let mut i: usize = k as usize;
            while i < data.len()
                invariant
                    k <= i <= data@.len(),
                    self@ == (ConnView { incoming: self.incoming@, ..c }),
                    self.incoming@ == c.incoming + data@.subrange(k as int, i as int),
                decreases data@.len() - i,
            {
                self.incoming.push_back(data[i]);
                i = i + 1;
                assert(self.incoming@ =~= c.incoming + data@.subrange(k as int, i as int));
            }
            self.recv.nxt = seq_add(seqn, data.len() as u32);
        }
    }

    /// The availability flags of this connection.
    pub fn availability(&self) -> (r: Available)
        ensures
            r == self@.availability(),
    {
        Available { read: self.is_rcv_closed() || self.incoming.len() > 0, write: false }
    }

    /// The connection sat in TIME-WAIT for twice the maximum segment
    /// lifetime by `now`, and may be removed.
    pub fn is_expired(&self, now: u64) -> (r: bool)
        ensures
            r == self@.expired(now),
    {
        if self.state != State::TimeWait {
            return false;
        }
        match self.time_wait_since {
            Some(t) => now >= t && now - t >= TIME_WAIT_US,
            None => false,
        }
    }

    /// The receive side is closed: the peer's FIN was accepted.
    pub fn is_rcv_closed(&self) -> (r: bool)
        ensures
            r == self@.rcv_closed(),
    {
        self.state == State::TimeWait
    }

    /// The acknowledgement part of an acceptable segment.
    fn take_ack_part(&mut self, now: u64, ackn: u32)
        requires
            old(self)@.inv(),
        ensures
            final(self)@ == after_ack_part(old(self)@, now, ackn),
            final(self)@.inv(),
    {
        proof {
            reveal(after_ack_part);
        }
        let ok = is_between_wrapped(seq_sub(self.send.una, 1), ackn, seq_add(self.send.nxt, 1));
        if self.state == State::SynRcvd && ok {
            self.state = State::Estab;
        }
        if (self.state == State::Estab || self.state == State::FinWait1 || self.state == State::FinWait2)
            && ok {
            self.take_ack(now, ackn);
        }
        if let Some(ca) = self.closed_at {
            if (self.state == State::Estab || self.state == State::FinWait1) && self.send.una == seq_add(
                ca,
                1,
            ) {
                self.state = State::FinWait2;
            }
        }
    }

    /// Handles an inbound segment `h` carrying `data` at time `now`; the
    /// segments to transmit are appended to `out`.
    #[verifier::spinoff_prover]
    #[verifier::rlimit(50)]
    pub fn on_packet(&mut self, now: u64, h: &SegmentHeader, data: &[u8], out: &mut Vec<Segment>) -> (r:
        Available)
        requires
            old(self)@.inv(),
            data@.len() <= 0xffff,
        ensures
            final(self)@ == packet_spec(old(self)@, now, *h, data@).0,
            segs(final(out)@) == segs(old(out)@) + packet_spec(old(self)@, now, *h, data@).1,
            r == final(self)@.availability(),
            final(self)@.inv(),
    {
        proof {
            reveal(data_fin_part);
        }
        let ghost c = self@;
        let ghost o = segs(out@);
        let mut slen = data.len() as u32;
        if h.flags.syn {
            slen = slen + 1;
        }
        if h.flags.fin {
            slen = slen + 1;
        }
        if !is_acceptable(&self.recv, h.seq, slen) {
            let nxt = self.send.nxt;
            self.write(now, nxt, 0, false, false, out);
            assert(segs(out@) == o + seq![bare_ack(c)]);
            return self.availability();
        }
        if !h.flags.ack {
            assert(segs(out@) == o + Seq::<(SegmentHeader, Seq<u8>)>::empty());
            return self.availability();
        }
        self.take_ack_part(now, h.ack);
        let ghost c3 = self@;
        if data.len() > 0 && (self.state == State::Estab || self.state == State::FinWait1 || self.state
            == State::FinWait2) {
            self.take_data(h.seq, data);
            let ghost d = self@;
            let nxt = self.send.nxt;
            self.write(now, nxt, 0, false, false, out);
            assert(segs(out@) == o + seq![bare_ack(d)]);
        } else {
            assert(segs(out@) == o + Seq::<(SegmentHeader, Seq<u8>)>::empty());
        }
        let ghost o4 = segs(out@);
        if h.flags.fin && self.state == State::FinWait2 && seq_add(h.seq, data.len() as u32) == self.recv.nxt {
            self.recv.nxt = seq_add(self.recv.nxt, 1);
            let ghost c5 = self@;
            let nxt = self.send.nxt;
            self.write(now, nxt, 0, false, false, out);
            self.state = State::TimeWait;
            self.time_wait_since = Some(now);
            assert(segs(out@) == o4.push(bare_ack(c5)));
        }
        self.availability()
    }
}

/// Errors that the stream surface reports.
#[derive(Clone, Copy, Debug, PartialEq, Eq, Structural)]
pub enum TcpError {
    /// the port already has a listener
    AddrInUse,
    /// the connection left the table while a stream used it
    ConnectionAborted,
    /// the send queue is full, or not yet drained
    WouldBlock,
    /// the state does not admit a local FIN
    NotConnected,
}

/// The timing entry of the earliest segment in flight: the one whose start
/// lies closest after `una`.
pub open spec fn oldest(s: Seq<(u32, u64)>, una: u32) -> Option<(u32, u64)>
    decreases s.len(),
{
    if s.len() == 0 {
        None
    } else {
        match oldest(s.drop_last(), una) {
            None => Some(s.last()),
            Some(e) => if dist(una, s.last().0) < dist(una, e.0) {
                Some(s.last())
            } else {
                Some(e)
            },
        }
    }
}

/// The retransmission timer fired: the earliest segment in flight has
/// waited over a second and over 1.5 times the smoothed RTT.
pub open spec fn should_retransmit(c: ConnView, now: u64) -> bool {
    match oldest(c.send_times, c.send.una) {
        Some(e) => rtt(now, e.1) > MIN_RTO_US && 2 * rtt(now, e.1) > 3 * c.srtt,
        None => false,
    }
}

/// The record with the FIN placed just past the last queued byte.
pub open spec fn place_fin(c: ConnView) -> ConnView {
    ConnView { closed_at: Some(add_seq(c.data_start(), c.unacked.len() as int)), ..c }
}

/// Queued bytes already sent once.
pub open spec fn sent_data(c: ConnView) -> int {
    min(c.offset_of(c.send.nxt), c.unacked.len() as int)
}

/// A retransmission at `now`: resend from `una` as much as the peer's
/// window takes, placing the FIN if the application closed and everything
/// queued fits.
pub open spec fn retransmit_spec(c: ConnView, now: u64) -> (ConnView, Seq<(SegmentHeader, Seq<u8>)>) {
    let resend = min(c.unacked.len() as int, c.send.wnd as int);
    let c1 = if resend < c.send.wnd && c.closed && c.closed_at is None {
        place_fin(c)
    } else {
        c
    };
    let syn = c.state == State::SynRcvd;
    (
        emit_state(c1, now, c1.send.una, resend, syn, true),
        seq![emit_segment(c1, c1.send.una, resend, syn, true)],
    )
}

/// Bytes queued and not yet sent.
pub open spec fn unsent_data(c: ConnView) -> int {
    c.unacked.len() - sent_data(c)
}

/// Room in the peer's window past what is in flight.
pub open spec fn window_room(c: ConnView) -> int {
    let flight = dist(c.send.una, c.send.nxt);
    if c.send.wnd >= flight { c.send.wnd - flight } else { 0 }
}

/// Sending new data at `now`: unsent bytes from `nxt` within the peer's
/// window, placing the FIN if the application closed and everything
/// queued fits.
pub open spec fn send_new_spec(c: ConnView, now: u64) -> (ConnView, Seq<(SegmentHeader, Seq<u8>)>) {
    let unsent = unsent_data(c);
    let allowed = window_room(c);
    let send = min(unsent, allowed);
    if (unsent == 0 && c.closed_at is Some) || allowed == 0 {
        (c, Seq::empty())
    } else if send < allowed && c.closed && c.closed_at is None {
        let c1 = place_fin(c);
        (
            emit_state(c1, now, c1.send.nxt, send, false, true),
            seq![emit_segment(c1, c1.send.nxt, send, false, true)],
        )
    } else if send > 0 {
        (
            emit_state(c, now, c.send.nxt, send, false, true),
            seq![emit_segment(c, c.send.nxt, send, false, true)],
        )
    } else {
        (c, Seq::empty())
    }
}

/// What a timer tick at `now` does: the new record and the segments it
/// emits. Nothing once our FIN is acknowledged; else a retransmission when
/// the timer fired, or new data.
pub open spec fn tick_spec(c: ConnView, now: u64) -> (ConnView, Seq<(SegmentHeader, Seq<u8>)>) {
    if c.state == State::FinWait2 || c.state == State::TimeWait {
        (c, Seq::empty())
    } else if should_retransmit(c, now) {
        retransmit_spec(c, now)
    } else {
        send_new_spec(c, now)
    }
}

/// A new connection from the SYN `h`, before its SYN+ACK goes out.
pub open spec fn fresh_conn(iss: u32, h: SegmentHeader) -> ConnView {
    ConnView {
        state: State::SynRcvd,
        send: SendSeqBlock { una: iss, nxt: iss, wnd: h.window, up: 0, wl1: 0, wl2: 0, iss },
        recv: RecvSeqBlock { nxt: add_seq(h.seq, 1), wnd: RECV_WINDOW, up: 0, irs: h.seq },
        quad: Quad { src_addr: h.src_addr, src_port: h.src_port, dst_addr: h.dst_addr, dst_port: h.dst_port },
        send_times: Seq::empty(),
        srtt: INITIAL_SRTT_US,
        incoming: Seq::empty(),
        unacked: Seq::empty(),
        closed: false,
        closed_at: None,
        time_wait_since: None,
    }
}

impl Connection {
    /// The send time of the earliest segment in flight, if any.
    fn oldest_send_time(&self) -> (r: Option<u64>)
        ensures
            r == (match oldest(self@.send_times, self.send.una) {
                Some(e) => Some(e.1),
                None => None,
            }),
    {
        let mut best: Option<(u32, u64)> = None;
        let mut i: usize = 0;
        while i < self.send_times.len()
            invariant
                i <= self.send_times@.len(),
                best == oldest(self.send_times@.subrange(0, i as int), self.send.una),
            decreases self.send_times@.len() - i,
        {
            let e = self.send_times[i];
            assert(self.send_times@.subrange(0, i + 1).drop_last() == self.send_times@.subrange(0, i as int));
            best = match best {
                None => Some(e),
                Some(b) => if seq_dist(self.send.una, e.0) < seq_dist(self.send.una, b.0) {
                    Some(e)
                } else {
                    Some(b)
                },
            };
            i = i + 1;
        }
        assert(self.send_times@.subrange(0, i as int) == self.send_times@);
        match best {
            Some(b) => Some(b.1),
            None => None,
        }
    }

    /// Places the FIN just past the last queued byte.
    fn place_fin(&mut self)
        requires
            old(self)@.unacked.len() <= SEND_QUEUE_CAP,
        ensures
            final(self)@ == place_fin(old(self)@),
    {
        let start = if self.send.una == self.send.iss { seq_add(self.send.una, 1) } else { self.send.una };
        self.closed_at = Some(seq_add(start, self.unacked.len() as u32));
    }

    /// Whether the retransmission timer fired at `now`.
    fn retransmit_due(&self, now: u64) -> (r: bool)
        ensures
            r == should_retransmit(self@, now),
    {
        match self.oldest_send_time() {
            Some(t) => {
                let waited = if now >= t { now - t } else { 0 };
                waited > MIN_RTO_US && 2 * (waited as u128) > 3 * (self.srtt as u128)
            },
            None => false,
        }
    }

    fn retransmit(&mut self, now: u64, out: &mut Vec<Segment>)
        requires
            old(self)@.inv(),
        ensures
            final(self)@ == retransmit_spec(old(self)@, now).0,
            segs(final(out)@) == segs(old(out)@) + retransmit_spec(old(self)@, now).1,
            final(self)@.inv(),
    {
        let ghost o = segs(out@);
        let qlen = self.unacked.len();
        let wnd = self.send.wnd as usize;
        let resend = if qlen < wnd { qlen } else { wnd };
        if resend < wnd && self.closed && self.closed_at.is_none() {
            self.place_fin();
        }
        let ghost c1 = self@;
        let syn = self.state == State::SynRcvd;
        let una = self.send.una;
        self.write(now, una, resend, syn, true, out);
        assert(segs(out@) == o + seq![emit_segment(c1, c1.send.una, resend as int, syn, true)]);
    }

    /// Unsent bytes and the room in the peer's window.
    fn send_plan(&self) -> (r: (usize, usize))
        requires
            self@.inv(),
        ensures
            r.0 == unsent_data(self@),
            r.1 == window_room(self@),
    {
        let qlen = self.unacked.len();
        let off: u32 = if self.send.una == self.send.iss && self.send.nxt == self.send.una {
            0
        } else if self.send.una == self.send.iss {
            seq_dist(seq_add(self.send.una, 1), self.send.nxt)
        } else {
            seq_dist(self.send.una, self.send.nxt)
        };
        let sent: usize = if (off as usize) < qlen { off as usize } else { qlen };
        let flight = seq_dist(self.send.una, self.send.nxt) as usize;
        let wnd = self.send.wnd as usize;
        let allowed: usize = if wnd >= flight { wnd - flight } else { 0 };
        (qlen - sent, allowed)
    }

    fn send_new(&mut self, now: u64, out: &mut Vec<Segment>)
        requires
            old(self)@.inv(),
        ensures
            final(self)@ == send_new_spec(old(self)@, now).0,
            segs(final(out)@) == segs(old(out)@) + send_new_spec(old(self)@, now).1,
            final(self)@.inv(),
    {
        let ghost c = self@;
        let ghost o = segs(out@);
        let (unsent, allowed) = self.send_plan();
        let send = if unsent < allowed { unsent } else { allowed };
        if (unsent == 0 && self.closed_at.is_some()) || allowed == 0 {
            assert(segs(out@) == o + Seq::<(SegmentHeader, Seq<u8>)>::empty());
            return;
        }
        if send < allowed && self.closed && self.closed_at.is_none() {
            self.place_fin();
            let ghost c1 = self@;
            let nxt = self.send.nxt;
            self.write(now, nxt, send, false, true, out);
            assert(segs(out@) == o + seq![emit_segment(c1, c1.send.nxt, send as int, false, true)]);
        } else if send > 0 {
            let nxt = self.send.nxt;
            self.write(now, nxt, send, false, true, out);
            assert(segs(out@) == o + seq![emit_segment(c, c.send.nxt, send as int, false, true)]);
        } else {
            assert(segs(out@) == o + Seq::<(SegmentHeader, Seq<u8>)>::empty());
        }
    }

    /// Timer tick at time `now`: retransmits or sends new data; segments to
    /// transmit are appended to `out`.
    pub fn on_tick(&mut self, now: u64, out: &mut Vec<Segment>)
        requires
            old(self)@.inv(),
        ensures
            final(self)@ == tick_spec(old(self)@, now).0,
            segs(final(out)@) == segs(old(out)@) + tick_spec(old(self)@, now).1,
            final(self)@.inv(),
    {
        let ghost o = segs(out@);
        if self.state == State::FinWait2 || self.state == State::TimeWait {
            assert(segs(out@) == o + Seq::<(SegmentHeader, Seq<u8>)>::empty());
            return;
        }
        if self.retransmit_due(now) {
            self.retransmit(now, out);
        } else {
            self.send_new(now, out);
        }
    }

    /// Accepts the SYN `h` at time `now` with initial send sequence `iss`:
    /// the new connection in SYN-RECEIVED, its SYN+ACK appended to `out`;
    /// `None`, and nothing sent, for a segment without SYN.
    pub fn accept(now: u64, iss: u32, h: &SegmentHeader, out: &mut Vec<Segment>) -> (r: Option<Connection>)
        ensures
            h.flags.syn <==> r is Some,
            r matches Some(c) ==> {
                &&& c@ == emit_state(fresh_conn(iss, *h), now, iss, 0, true, false)
                &&& segs(final(out)@) == segs(old(out)@).push(emit_segment(fresh_conn(iss, *h), iss, 0, true, false))
                &&& c@.inv()
            },
            r is None ==> final(out)@ == old(out)@,
    {
        if !h.flags.syn {
            return None;
        }
        let mut c = Connection {
            state: State::SynRcvd,
            send: SendSeqBlock { una: iss, nxt: iss, wnd: h.window, up: 0, wl1: 0, wl2: 0, iss },
            recv: RecvSeqBlock { nxt: seq_add(h.seq, 1), wnd: RECV_WINDOW, up: 0, irs: h.seq },
            quad: Quad { src_addr: h.src_addr, src_port: h.src_port, dst_addr: h.dst_addr, dst_port: h.dst_port },
            send_times: Vec::new(),
            srtt: INITIAL_SRTT_US,
            incoming: std::collections::VecDeque::new(),
            unacked: std::collections::VecDeque::new(),
            closed: false,
            closed_at: None,
            time_wait_since: None,
        };
        assert(c@ == fresh_conn(iss, *h));
        c.write(now, iss, 0, true, false, out);
        Some(c)
    }

    /// The application shuts the connection down: the FIN is scheduled.
    /// Fails with `NotConnected` once past FIN-WAIT-2.
    pub fn close(&mut self) -> (r: Result<(), TcpError>)
        ensures
            r is Err <==> old(self).state == State::TimeWait,
            r matches Err(e) ==> e == TcpError::NotConnected && final(self)@ == old(self)@,
            r is Ok ==> final(self)@ == (ConnView {
                closed: true,
                state: if old(self).state == State::SynRcvd || old(self).state == State::Estab {
                    State::FinWait1
                } else {
                    old(self).state
                },
                ..old(self)@
            }),
    {
        if self.state == State::TimeWait {
            return Err(TcpError::NotConnected);
        }
        self.closed = true;
        match self.state {
            State::SynRcvd | State::Estab => {
                self.state = State::FinWait1;
                Ok(())
            },
            State::FinWait1 | State::FinWait2 => Ok(()),
            State::TimeWait => Err(TcpError::NotConnected),
        }
    }

    /// Takes up to `max` bytes from the front of `incoming`.
    pub fn read_incoming(&mut self, max: usize) -> (r: Vec<u8>)
        ensures
            r@ == old(self)@.incoming.take(min(max as int, old(self)@.incoming.len() as int)),
            final(self)@ == (ConnView {
                incoming: old(self)@.incoming.skip(min(max as int, old(self)@.incoming.len() as int)),
                ..old(self)@
            }),
    {
        let ghost c = self@;
        let mut r: Vec<u8> = Vec::new();
        assert(c.incoming.skip(0) =~= c.incoming);
        assert(c.incoming.take(0) =~= r@);
        while r.len() < max && self.incoming.len() > 0
            invariant
                r@.len() <= max,
                r@.len() <= c.incoming.len(),
                r@ == c.incoming.take(r@.len() as int),
                self@ == (ConnView { incoming: c.incoming.skip(r@.len() as int), ..c }),
            decreases self.incoming@.len(),
        {
            let b = self.incoming.pop_front();
            if let Some(x) = b {
                r.push(x);
            }
            assert(r@ =~= c.incoming.take(r@.len() as int));
            assert(self.incoming@ =~= c.incoming.skip(r@.len() as int));
        }
        r
    }

    /// Queues bytes from `buf` for sending: as many as fit under
    /// `SEND_QUEUE_CAP`; `WouldBlock` when the queue is already full.
    pub fn write_outgoing(&mut self, buf: &[u8]) -> (r: Result<usize, TcpError>)
        requires
            old(self)@.inv(),
        ensures
            old(self)@.unacked.len() >= SEND_QUEUE_CAP <==> r is Err,
            r matches Err(e) ==> e == TcpError::WouldBlock && final(self)@ == old(self)@,
            r matches Ok(n) ==> {
                &&& n == min(buf@.len() as int, SEND_QUEUE_CAP - old(self)@.unacked.len())
                &&& final(self)@ == (ConnView { unacked: old(self)@.unacked + buf@.take(n as int), ..old(self)@ })
            },
            final(self)@.inv(),
    {
        let ghost c = self@;
        let qlen = self.unacked.len();
        if qlen >= SEND_QUEUE_CAP {
            return Err(TcpError::WouldBlock);
        }
        let room = SEND_QUEUE_CAP - qlen;
        let n = if buf.len() < room { buf.len() } else { room };
        let mut i: usize = 0;
        while i < n
            invariant
                i <= n,
                n <= buf@.len(),
                self@ == (ConnView { unacked: self.unacked@, ..c }),
                self.unacked@ == c.unacked + buf@.take(i as int),
            decreases n - i,
        {
            self.unacked.push_back(buf[i]);
            i = i + 1;
            assert(self.unacked@ =~= c.unacked + buf@.take(i as int));
        }
        Ok(n)
    }

    /// Succeeds once every queued byte is acknowledged; `WouldBlock` before.
    pub fn flush_outgoing(&self) -> (r: Result<(), TcpError>)
        ensures
            r is Ok <==> self@.unacked.len() == 0,
            r matches Err(e) ==> e == TcpError::WouldBlock,
    {
        if self.unacked.len() == 0 {
            Ok(())
        } else {
            Err(TcpError::WouldBlock)
        }
    }
}

/// In every record that satisfies the invariant, which every handler
/// keeps, `una` is `nxt` or comes before it, and every key of the timing
/// table lies strictly between `una - 1` and `nxt`.
pub proof fn lemma_send_order(c: ConnView)
    requires
        c.inv(),
    ensures
        lt_spec(c.send.una, c.send.nxt) || c.send.una == c.send.nxt,
        forall|i: int|
            0 <= i < c.send_times.len() ==> between_spec(
                add_seq(c.send.una, -1),
                #[trigger] c.send_times[i].0,
                c.send.nxt,
            ),
{
    crate::seq::lemma_lt_dist(c.send.una, c.send.nxt);
    assert forall|i: int| 0 <= i < c.send_times.len() implies between_spec(
        add_seq(c.send.una, -1),
        #[trigger] c.send_times[i].0,
        c.send.nxt,
    ) by {
        let k = c.send_times[i].0;
        assert(dist(c.send.una, k) < dist(c.send.una, c.send.nxt));
        crate::seq::lemma_dist_trans(c.send.una, k, c.send.nxt);
        crate::seq::lemma_lt_dist(k, c.send.nxt);
        crate::seq::lemma_lt_dist(add_seq(c.send.una, -1), k);
    }
}

/// An emission of a bare acknowledgement changes nothing in the record.
proof fn lemma_bare_emit_unchanged(c: ConnView, now: u64)
    ensures
        emit_state(c, now, c.send.nxt, 0, false, false) == c,
        bare_ack(c).1.len() == 0,
        bare_ack(c).0.seq == c.send.nxt,
        bare_ack(c).0.ack == c.recv.nxt,
        bare_ack(c).0.flags == (TcpFlags { fin: false, syn: false, rst: false, psh: false, ack: true }),
{
    reveal(emit_state);
    reveal(emit_segment);
    let c2 = emit_state(c, now, c.send.nxt, 0, false, false);
    assert(emit_len(c, c.send.nxt, 0, false) == 0);
    assert(add_seq(c.send.nxt, 0) == c.send.nxt);
    assert(c2.send == c.send);
    assert(c2 == c);
}

/// A segment that fails the acceptance test gets a bare acknowledgement
/// (`seq = send.nxt`, `ack = recv.nxt`, ACK alone, no payload) and changes
/// nothing in the record.
pub proof fn lemma_unacceptable_bare_ack(c: ConnView, now: u64, h: SegmentHeader, data: Seq<u8>)
    requires
        !acceptable_spec(
            c.recv.nxt,
            c.recv.wnd,
            h.seq,
            data.len() + (if h.flags.syn { 1int } else { 0 }) + (if h.flags.fin { 1int } else { 0 }),
        ),
    ensures
        packet_spec(c, now, h, data).0 == c,
        packet_spec(c, now, h, data).1.len() == 1,
        packet_spec(c, now, h, data).1[0].0.seq == c.send.nxt,
        packet_spec(c, now, h, data).1[0].0.ack == c.recv.nxt,
        packet_spec(c, now, h, data).1[0].0.flags == (TcpFlags {
            fin: false,
            syn: false,
            rst: false,
            psh: false,
            ack: true,
        }),
        packet_spec(c, now, h, data).1[0].1.len() == 0,
{
    lemma_bare_emit_unchanged(c, now);
    assert(packet_spec(c, now, h, data) == (emit_state(c, now, c.send.nxt, 0, false, false), seq![bare_ack(c)]));
}

/// With a zero receive window only an empty segment exactly at `recv.nxt`
/// is acceptable.
pub proof fn lemma_zero_window(rnxt: u32, seqn: u32, slen: int)
    requires
        slen >= 0,
    ensures
        acceptable_spec(rnxt, 0, seqn, slen) <==> (slen == 0 && seqn == rnxt),
{
}

/// The data and FIN part leaves the send queue and `una` alone, and moves
/// `recv.nxt` forward by at most `data.len() + 1`.
proof fn lemma_data_fin_part(c3: ConnView, now: u64, h: SegmentHeader, data: Seq<u8>)
    requires
        data.len() <= 0xffff,
    ensures
        data_fin_part(c3, now, h, data).0.unacked == c3.unacked,
        data_fin_part(c3, now, h, data).0.send.una == c3.send.una,
        dist(c3.recv.nxt, data_fin_part(c3, now, h, data).0.recv.nxt) <= 0x10000,
{
    reveal(data_fin_part);
    reveal(recv_data_state);
    let d = recv_data_state(c3, h.seq, data);
    lemma_bare_emit_unchanged(d, now);
    let r0 = c3.recv.nxt;
    let k = dist(h.seq, r0);
    if k <= data.len() {
        crate::seq::lemma_dist_shift(h.seq, h.seq, data.len() as int);
        assert(dist(h.seq, add_seq(h.seq, 0)) == 0);
        crate::seq::lemma_dist_trans(h.seq, r0, d.recv.nxt);
    }
    assert(dist(r0, d.recv.nxt) <= 0xffff);
    let c4 = if data.len() > 0 && synchronized(c3.state) {
        emit_state(d, now, d.send.nxt, 0, false, false)
    } else {
        c3
    };
    assert(dist(r0, c4.recv.nxt) <= 0xffff);
    let c5 = ConnView { recv: RecvSeqBlock { nxt: add_seq(c4.recv.nxt, 1), ..c4.recv }, ..c4 };
    lemma_bare_emit_unchanged(c5, now);
    crate::seq::lemma_dist_shift(r0, c4.recv.nxt, 1);
}

/// An acceptable acknowledgement in a synchronised state moves `una` to
/// the acknowledged number and drains exactly the acknowledged data bytes
/// (the octets from `una` to `ackn`, less a pending SYN and less the FIN
/// octet when it is covered) from the front of `unacked`.
pub proof fn lemma_ack_drains_front(c: ConnView, now: u64, h: SegmentHeader, data: Seq<u8>)
    requires
        c.inv(),
        data.len() <= 0xffff,
        synchronized(c.state),
        acceptable_spec(
            c.recv.nxt,
            c.recv.wnd,
            h.seq,
            data.len() + (if h.flags.syn { 1int } else { 0 }) + (if h.flags.fin { 1int } else { 0 }),
        ),
        h.flags.ack,
        ack_acceptable(c, h.ack),
    ensures
        packet_spec(c, now, h, data).0.send.una == h.ack,
        packet_spec(c, now, h, data).0.unacked == c.unacked.skip(acked_data(c, h.ack)),
        c.unacked.len() - packet_spec(c, now, h, data).0.unacked.len() == acked_data(c, h.ack),
        acked_data(c, h.ack) == min(
            max(
                dist(c.send.una, h.ack) - (if c.syn_pending() { 1int } else { 0 }) - (if fin_acked_by(
                    c,
                    h.ack,
                ) {
                    1int
                } else {
                    0
                }),
                0,
            ),
            c.unacked.len() as int,
        ),
{
    reveal(after_ack_part);
    reveal(ack_state);
    let c3 = after_ack_part(c, now, h.ack);
    crate::seq::lemma_ack_in_range(c.send.una, h.ack, c.send.nxt);
    assert(c3.send.una == h.ack);
    assert(c3.unacked == c.unacked.skip(acked_data(c, h.ack)));
    lemma_data_fin_part(c3, now, h, data);
}

/// Receiving the same in-window pure acknowledgement twice: the second
/// leaves `una`, `unacked` and the timing table as the first left them.
#[verifier::spinoff_prover]
#[verifier::rlimit(60)]
pub proof fn lemma_ack_idempotent(c: ConnView, t1: u64, t2: u64, h: SegmentHeader)
    requires
        c.inv(),
        !h.flags.syn,
        !h.flags.fin,
        h.flags.ack,
        acceptable_spec(c.recv.nxt, c.recv.wnd, h.seq, 0),
    ensures
        ({
            let c1 = packet_spec(c, t1, h, Seq::empty()).0;
            let c2 = packet_spec(c1, t2, h, Seq::empty()).0;
            &&& c2.send.una == c1.send.una
            &&& c2.unacked == c1.unacked
            &&& c2.send_times == c1.send_times
        }),
{
    reveal(after_ack_part);
    reveal(ack_state);
    let e = Seq::<u8>::empty();
    lemma_data_fin_noop(after_ack_part(c, t1, h.ack), t1, h, e);
    lemma_data_fin_noop(after_ack_part(packet_spec(c, t1, h, e).0, t2, h.ack), t2, h, e);
    let c1 = packet_spec(c, t1, h, e).0;
    assert(c1 == after_ack_part(c, t1, h.ack));
    assert(c1.recv == c.recv);
    let c2 = packet_spec(c1, t2, h, e).0;
    assert(c2 == after_ack_part(c1, t2, h.ack));
    if ack_acceptable(c, h.ack) && (synchronized(c.state) || c.state == State::SynRcvd) {
        assert(c1.send.una == h.ack);
        assert(c1.send.nxt == c.send.nxt);
        crate::seq::lemma_ack_in_range(c.send.una, h.ack, c.send.nxt);
        lemma_ack_inv(if c.state == State::SynRcvd { ConnView { state: State::Estab, ..c } } else { c }, t1, h.ack);
        assert(c1.inv());
        assert(ack_acceptable(c1, h.ack));
        assert(acked_data(c1, h.ack) == 0);
        let w = c1.send_times;
        lemma_keep(w, unsampled(h.ack, h.ack));
        assert(keep(w, unsampled(h.ack, h.ack)) == w) by {
            lemma_keep_all(w, unsampled(h.ack, h.ack));
        }
        assert(c1.unacked.skip(0) == c1.unacked);
    } else {
        assert(c1.send == c.send);
        assert(c1.send_times == c.send_times);
        assert(c1.unacked == c.unacked);
    }
}

/// A segment without data or FIN ends with its acknowledgement part.
proof fn lemma_data_fin_noop(c3: ConnView, now: u64, h: SegmentHeader, data: Seq<u8>)
    requires
        data.len() == 0,
        !h.flags.fin,
    ensures
        data_fin_part(c3, now, h, data).0 == c3,
{
    reveal(data_fin_part);
}

/// Keeping with a predicate that holds of every entry keeps all.
proof fn lemma_keep_all(s: Seq<(u32, u64)>, keep_it: spec_fn((u32, u64)) -> bool)
    requires
        forall|i: int| 0 <= i < s.len() ==> keep_it(#[trigger] s[i]),
    ensures
        keep(s, keep_it) == s,
    decreases s.len(),
{
    if s.len() > 0 {
        lemma_keep_all(s.drop_last(), keep_it);
        assert(s.drop_last().push(s.last()) == s);
    }
}

/// `recv.nxt` never moves backwards: across any segment it stays or
/// advances by less than half the sequence circle.
/// The acknowledgement part leaves the receive side alone.
proof fn lemma_after_ack_recv(c: ConnView, now: u64, ackn: u32)
    ensures
        after_ack_part(c, now, ackn).recv == c.recv,
{
    reveal(after_ack_part);
    reveal(ack_state);
}

#[verifier::spinoff_prover]
pub proof fn lemma_recv_nxt_monotone(c: ConnView, now: u64, h: SegmentHeader, data: Seq<u8>)
    requires
        data.len() <= 0xffff,
    ensures
        le_spec(c.recv.nxt, packet_spec(c, now, h, data).0.recv.nxt),
{
    lemma_after_ack_recv(c, now, h.ack);
    let slen = data.len() + (if h.flags.syn { 1int } else { 0 }) + (if h.flags.fin { 1int } else { 0 });
    lemma_bare_emit_unchanged(c, now);
    if acceptable_spec(c.recv.nxt, c.recv.wnd, h.seq, slen) && h.flags.ack {
        let c3 = after_ack_part(c, now, h.ack);
        assert(c3.recv == c.recv);
        lemma_data_fin_part(c3, now, h, data);
        crate::seq::lemma_lt_dist(c.recv.nxt, packet_spec(c, now, h, data).0.recv.nxt);
    }
}

/// A tick keeps the record's invariant.
pub proof fn lemma_tick_inv(c: ConnView, now: u64)
    requires
        c.inv(),
    ensures
        tick_spec(c, now).0.inv(),
{
    if !(c.state == State::FinWait2 || c.state == State::TimeWait) {
        if should_retransmit(c, now) {
            let resend = min(c.unacked.len() as int, c.send.wnd as int);
            let c1 = if resend < c.send.wnd && c.closed && c.closed_at is None { place_fin(c) } else { c };
            assert(c1.inv());
            lemma_emit_inv(c1, now, c1.send.una, resend, c.state == State::SynRcvd, true);
            assert(tick_spec(c, now) == retransmit_spec(c, now));
        } else {
            let unsent = unsent_data(c);
            let allowed = window_room(c);
            let send = min(unsent, allowed);
            if send >= 0 {
                assert(place_fin(c).inv());
                lemma_emit_inv(place_fin(c), now, c.send.nxt, send, false, true);
                lemma_emit_inv(c, now, c.send.nxt, send, false, true);
            }
            assert(tick_spec(c, now) == send_new_spec(c, now));
        }
    }
}

} // verus!
