//! The connection table that the packet worker and the streams share: the
//! active connections by four-tuple, the queues of connections that wait to
//! be accepted on each bound port, and the dispatch of inbound frames and
//! timer ticks to the connections.
use vstd::prelude::*;
use crate::codec::{parse_frame, parse_spec, SegmentHeader};
use crate::tcp::{
    packet_spec, segs, tick_spec, emit_segment, emit_state, fresh_conn, ConnView,
    Connection, Quad, Segment, TcpError, SEND_QUEUE_CAP,
};
use crate::codec::slice_from;

verus! {

/// The initial send sequence number of new connections.
pub const INITIAL_SEQ: u32 = 0;

/// What a stream read finds.
#[derive(Debug, PartialEq, Eq)]
pub enum ReadOutcome {
    /// bytes taken from the front of the receive queue
    Data(Vec<u8>),
    /// the peer closed and everything was read
    Closed,
    /// nothing to read yet: the reader waits
    Empty,
}

/// Which waiters an inbound frame concerns.
#[derive(Clone, Copy, Debug, PartialEq, Eq, Structural)]
pub struct Wake {
    /// a connection has something to read
    pub readers: bool,
    /// a listener has a new connection to accept
    pub listeners: bool,
}

/// The shared table.
pub struct ConnectionManager {
    pub terminate: bool,
    pub connections: Vec<(Quad, Connection)>,
    pub pending: Vec<(u16, std::collections::VecDeque<Quad>)>,
}

/// `q` is a key of the table.
pub open spec fn has_key(cs: Seq<(Quad, ConnView)>, q: Quad) -> bool {
    exists|i: int| 0 <= i < cs.len() && cs[i].0 == q
}

/// Every waiting four-tuple is a key of the table and waits under its own
/// local port.
pub open spec fn queued_in_table(qs: Seq<(u16, Seq<Quad>)>, cs: Seq<(Quad, ConnView)>) -> bool {
    forall|p: int, j: int|
        0 <= p < qs.len() && 0 <= j < qs[p].1.len() ==> (#[trigger] qs[p].1[j]).dst_port == qs[p].0
            && has_key(cs, qs[p].1[j])
}

/// No four-tuple waits twice, in one queue or in two.
pub open spec fn queued_once(qs: Seq<(u16, Seq<Quad>)>) -> bool {
    forall|p1: int, j1: int, p2: int, j2: int|
        0 <= p1 < qs.len() && 0 <= j1 < qs[p1].1.len() && 0 <= p2 < qs.len() && 0 <= j2 < qs[p2].1.len()
            && (p1 != p2 || j1 != j2) ==> #[trigger] qs[p1].1[j1] != #[trigger] qs[p2].1[j2]
}

/// Tables with the same keys in the same places hold the same waiting
/// four-tuples.
proof fn lemma_same_keys(qs: Seq<(u16, Seq<Quad>)>, cs1: Seq<(Quad, ConnView)>, cs2: Seq<(Quad, ConnView)>)
    requires
        queued_in_table(qs, cs1),
        cs1.len() == cs2.len(),
        forall|i: int| 0 <= i < cs1.len() ==> cs1[i].0 == cs2[i].0,
    ensures
        queued_in_table(qs, cs2),
{
    assert forall|p: int, j: int| 0 <= p < qs.len() && 0 <= j < qs[p].1.len() implies (
    #[trigger] qs[p].1[j]).dst_port == qs[p].0 && has_key(cs2, qs[p].1[j]) by {
        let i = choose|i: int| 0 <= i < cs1.len() && cs1[i].0 == qs[p].1[j];
        assert(cs2[i].0 == qs[p].1[j]);
    }
}

/// First index at or after `i` whose key is `q`.
pub open spec fn find_from<V>(s: Seq<(Quad, V)>, q: Quad, i: int) -> Option<int>
    decreases s.len() - i,
{
    if i < 0 || i >= s.len() {
        None
    } else if s[i].0 == q {
        Some(i)
    } else {
        find_from(s, q, i + 1)
    }
}

/// First index whose port is `p`.
pub open spec fn find_port<V>(s: Seq<(u16, V)>, p: u16, i: int) -> Option<int>
    decreases s.len() - i,
{
    if i < 0 || i >= s.len() {
        None
    } else if s[i].0 == p {
        Some(i)
    } else {
        find_port(s, p, i + 1)
    }
}

/// Taking an element out and putting another in its place is an update.
pub proof fn lemma_remove_insert<T>(s: Seq<T>, i: int, e: T)
    requires
        0 <= i < s.len(),
    ensures
        s.remove(i).insert(i, e) == s.update(i, e),
{
    assert forall|j: int| 0 <= j < s.len() implies #[trigger] s.remove(i).insert(i, e)[j] == s.update(
        i,
        e,
    )[j] by {
        if j < i {
        } else if j == i {
        } else {
            assert(s.remove(i).insert(i, e)[j] == s.remove(i)[j - 1]);
        }
    }
    assert(s.remove(i).insert(i, e) =~= s.update(i, e));
}

proof fn lemma_find_from<V>(s: Seq<(Quad, V)>, q: Quad, i: int)
    requires
        0 <= i,
    ensures
        find_from(s, q, i) matches Some(k) ==> i <= k < s.len() && s[k].0 == q,
        find_from(s, q, i) is None ==> forall|k: int| i <= k < s.len() ==> s[k].0 != q,
    decreases s.len() - i,
{
    if i < s.len() {
        lemma_find_from(s, q, i + 1);
    }
}

proof fn lemma_find_port<V>(s: Seq<(u16, V)>, p: u16, i: int)
    requires
        0 <= i,
    ensures
        find_port(s, p, i) matches Some(k) ==> i <= k < s.len() && s[k].0 == p,
        find_port(s, p, i) is None ==> forall|k: int| i <= k < s.len() ==> s[k].0 != p,
    decreases s.len() - i,
{
    if i < s.len() {
        lemma_find_port(s, p, i + 1);
    }
}

impl ConnectionManager {
    /// The connections as values.
    pub open spec fn conns(&self) -> Seq<(Quad, ConnView)> {
        self.connections@.map_values(|e: (Quad, Connection)| (e.0, e.1@))
    }

    /// The pending queues as values.
    pub open spec fn queues(&self) -> Seq<(u16, Seq<Quad>)> {
        self.pending@.map_values(|e: (u16, std::collections::VecDeque<Quad>)| (e.0, e.1@))
    }

    /// Keys unique, ports unique, every connection within its invariant,
    /// and every waiting four-tuple a key of the table, queued once, under
    /// its own local port.
    pub open spec fn wf(&self) -> bool {
        &&& forall|i: int, j: int|
            0 <= i < j < self.conns().len() ==> self.conns()[i].0 != self.conns()[j].0
        &&& forall|i: int, j: int|
            0 <= i < j < self.queues().len() ==> self.queues()[i].0 != self.queues()[j].0
        &&& forall|i: int| 0 <= i < self.conns().len() ==> (#[trigger] self.conns()[i]).1.inv()
        &&& queued_in_table(self.queues(), self.conns())
        &&& queued_once(self.queues())
    }

    /// An empty table.
    pub fn new() -> (r: ConnectionManager)
        ensures
            r.wf(),
            r.conns().len() == 0,
            r.queues().len() == 0,
            !r.terminate,
    {
        let r = ConnectionManager { terminate: false, connections: Vec::new(), pending: Vec::new() };
        assert(r.conns() =~= Seq::empty());
        assert(r.queues() =~= Seq::empty());
        r
    }

    /// Index of the connection of `q`.
    pub fn find(&self, q: &Quad) -> (r: Option<usize>)
        ensures
            r is None <==> find_from(self.conns(), *q, 0) is None,
            r matches Some(k) ==> find_from(self.conns(), *q, 0) == Some(k as int),
    {
        let mut i: usize = 0;
        while i < self.connections.len()
            invariant
                i <= self.connections@.len(),
                find_from(self.conns(), *q, 0) == find_from(self.conns(), *q, i as int),
            decreases self.connections@.len() - i,
        {
            if self.connections[i].0 == *q {
                return Some(i);
            }
            i = i + 1;
        }
        None
    }

    /// Index of the pending queue of `port`.
    pub fn find_listener(&self, port: u16) -> (r: Option<usize>)
        ensures
            r is None <==> find_port(self.queues(), port, 0) is None,
            r matches Some(k) ==> find_port(self.queues(), port, 0) == Some(k as int),
    {
        let mut i: usize = 0;
        while i < self.pending.len()
            invariant
                i <= self.pending@.len(),
                find_port(self.queues(), port, 0) == find_port(self.queues(), port, i as int),
            decreases self.pending@.len() - i,
        {
            if self.pending[i].0 == port {
                return Some(i);
            }
            i = i + 1;
        }
        None
    }

    /// Starts listening on `port`: `AddrInUse` if it already has a listener.
    pub fn bind(&mut self, port: u16) -> (r: Result<(), TcpError>)
        requires
            old(self).wf(),
        ensures
            final(self).wf(),
            r is Err <==> find_port(old(self).queues(), port, 0) is Some,
            r matches Err(e) ==> e == TcpError::AddrInUse && final(self).queues() == old(self).queues(),
            r is Ok ==> final(self).queues() == old(self).queues().push((port, Seq::<Quad>::empty())),
            final(self).conns() == old(self).conns(),
    {
        proof {
            lemma_find_port(self.queues(), port, 0);
        }
        if self.find_listener(port).is_some() {
            return Err(TcpError::AddrInUse);
        }
        let ghost q0 = self.queues();
        self.pending.push((port, std::collections::VecDeque::new()));
        assert(self.queues() =~= q0.push((port, Seq::<Quad>::empty())));
        assert(forall|i: int| 0 <= i < q0.len() ==> q0[i].0 != port);
        assert(self.conns() =~= old(self).conns());
        Ok(())
    }

    /// Takes the oldest connection waiting on `port`, if any.
    pub fn pop_pending(&mut self, port: u16) -> (r: Option<Quad>)
        requires
            old(self).wf(),
        ensures
            final(self).wf(),
            final(self).conns() == old(self).conns(),
            match find_port(old(self).queues(), port, 0) {
                Some(k) => {
                    let qu = old(self).queues()[k].1;
                    &&& (qu.len() == 0 ==> r is None && final(self).queues() == old(self).queues())
                    &&& (qu.len() > 0 ==> r == Some(qu[0]) && final(self).queues() == old(self).queues().update(
                        k,
                        (port, qu.subrange(1, qu.len() as int)),
                    ))
                },
                None => r is None && final(self).queues() == old(self).queues(),
            },
    {
        proof {
            lemma_find_port(self.queues(), port, 0);
        }
        let found = self.find_listener(port);
        match found {
            None => None,
            Some(k) => {
                let ghost q0 = self.queues();
                let ghost v0 = self.pending@;
                let (p, mut qu) = self.pending.remove(k);
                assert(self.pending@ == v0.remove(k as int));
                let r = qu.pop_front();
                self.pending.insert(k, (p, qu));
                assert(self.pending@ == v0.remove(k as int).insert(k as int, (p, qu)));
                proof {
                    lemma_remove_insert(v0, k as int, (p, qu));
                }
                assert(find_port(q0, port, 0) == Some(k as int));
                assert(q0[k as int].0 == port);
                assert(p == port);
                assert(self.queues() =~= q0.update(k as int, (port, qu@)));
                assert(self.conns() =~= old(self).conns());
                if r.is_none() {
                    assert(self.queues() =~= q0);
                }
                r
            },
        }
    }
}

/// The four-tuple of an inbound segment, seen from this endpoint.
pub open spec fn quad_of(h: SegmentHeader) -> Quad {
    Quad { src_addr: h.src_addr, src_port: h.src_port, dst_addr: h.dst_addr, dst_port: h.dst_port }
}

/// The segments that a tick of each connection of `s`, in order, emits.
pub open spec fn ticks_out(s: Seq<(Quad, ConnView)>, now: u64) -> Seq<(SegmentHeader, Seq<u8>)>
    decreases s.len(),
{
    if s.len() == 0 {
        Seq::empty()
    } else {
        ticks_out(s.drop_last(), now) + tick_spec(s.last().1, now).1
    }
}

/// What the read of a stream finds on a connection.
pub open spec fn read_spec(c: ConnView, max: int) -> ReadOutcomeView {
    if c.incoming.len() > 0 {
        ReadOutcomeView::Data(c.incoming.take(if max < c.incoming.len() { max } else { c.incoming.len() as int }))
    } else if c.rcv_closed() {
        ReadOutcomeView::Closed
    } else {
        ReadOutcomeView::Empty
    }
}

/// The value of a `ReadOutcome`.
pub enum ReadOutcomeView {
    Data(Seq<u8>),
    Closed,
    Empty,
}

impl View for ReadOutcome {
    type V = ReadOutcomeView;

    open spec fn view(&self) -> ReadOutcomeView {
        match self {
            ReadOutcome::Data(v) => ReadOutcomeView::Data(v@),
            ReadOutcome::Closed => ReadOutcomeView::Closed,
            ReadOutcome::Empty => ReadOutcomeView::Empty,
        }
    }
}

impl ConnectionManager {
    /// Takes the connection at `k` out of the table.
    fn take_conn(&mut self, k: usize) -> (r: (Quad, Connection))
        requires
            k < old(self).connections@.len(),
        ensures
            r.0 == old(self).conns()[k as int].0,
            r.1@ == old(self).conns()[k as int].1,
            final(self).connections@ == old(self).connections@.remove(k as int),
            final(self).pending == old(self).pending,
            final(self).terminate == old(self).terminate,
    {
        self.connections.remove(k)
    }

    /// Puts a connection back at `k`.
    fn put_conn(&mut self, k: usize, e: (Quad, Connection), Ghost(before): Ghost<Seq<(Quad, Connection)>>)
        requires
            k < before.len(),
            old(self).connections@ == before.remove(k as int),
        ensures
            final(self).connections@ == before.update(k as int, e),
            final(self).conns() == before.map_values(|e: (Quad, Connection)| (e.0, e.1@)).update(
                k as int,
                (e.0, e.1@),
            ),
            final(self).pending == old(self).pending,
            final(self).terminate == old(self).terminate,
    {
        self.connections.insert(k, e);
        proof {
            lemma_remove_insert(before, k as int, e);
            assert(self.conns() =~= before.map_values(|e: (Quad, Connection)| (e.0, e.1@)).update(
                k as int,
                (e.0, e.1@),
            ));
        }
    }

    /// Hands an inbound frame to its connection, or to the listener of its
    /// port when it opens a new connection; anything else is dropped.
    /// Segments to transmit are appended to `out`.
    pub fn on_frame(&mut self, now: u64, frame: &[u8], out: &mut Vec<Segment>) -> (r: Wake)
        requires
            old(self).wf(),
            frame@.len() <= 0xffff,
        ensures
            final(self).wf(),
            final(self).terminate == old(self).terminate,
            match parse_spec(frame@) {
                None => final(self).conns() == old(self).conns() && final(self).queues() == old(self).queues() && final(out)@ == old(out)@ && r == (Wake { readers: false, listeners: false }),
                Some((h, off)) => {
                    let q = quad_of(h);
                    let data = frame@.subrange(off, frame@.len() as int);
                    match find_from(old(self).conns(), q, 0) {
                        Some(k) => {
                            let (c2, o) = packet_spec(old(self).conns()[k].1, now, h, data);
                            &&& final(self).conns() == old(self).conns().update(k, (q, c2))
                            &&& final(self).queues() == old(self).queues()
                            &&& segs(final(out)@) == segs(old(out)@) + o
                            &&& r == (Wake { readers: c2.availability().read, listeners: false })
                        },
                        None => match find_port(old(self).queues(), h.dst_port, 0) {
                            Some(p) if h.flags.syn => {
                                let c0 = fresh_conn(INITIAL_SEQ, h);
                                let qu = old(self).queues()[p].1;
                                &&& final(self).conns() == old(self).conns().push(
                                    (q, emit_state(c0, now, INITIAL_SEQ, 0, true, false)),
                                )
                                &&& final(self).queues() == old(self).queues().update(p, (h.dst_port, qu.push(q)))
                                &&& segs(final(out)@) == segs(old(out)@).push(
                                    emit_segment(c0, INITIAL_SEQ, 0, true, false),
                                )
                                &&& r == (Wake { readers: false, listeners: true })
                            },
                            _ => final(self).conns() == old(self).conns() && final(self).queues() == old(self).queues() && final(out)@ == old(out)@ && r == (Wake {
                                readers: false,
                                listeners: false,
                            }),
                        },
                    }
                },
            },
    {
        let none = Wake { readers: false, listeners: false };
        let (h, off) = match parse_frame(frame) {
            Some(p) => p,
            None => return none,
        };
        let data = slice_from(frame, off);
        let q = Quad { src_addr: h.src_addr, src_port: h.src_port, dst_addr: h.dst_addr, dst_port: h.dst_port };
        proof {
            lemma_find_from(self.conns(), q, 0);
            lemma_find_port(self.queues(), h.dst_port, 0);
        }
        match self.find(&q) {
            Some(k) => {
                let ghost before = self.connections@;
                let ghost cs = self.conns();
                let (q2, mut c) = self.take_conn(k);
                let a = c.on_packet(now, &h, data, out);
                self.put_conn(k, (q2, c), Ghost(before));
                proof {
                    assert(before.map_values(|e: (Quad, Connection)| (e.0, e.1@)) == cs);
                    assert forall|i: int, j: int|
                        0 <= i < j < self.conns().len() implies self.conns()[i].0 != self.conns()[j].0 by {
                        assert(self.conns()[i].0 == cs[i].0);
                        assert(self.conns()[j].0 == cs[j].0);
                    }
                    assert forall|i: int| 0 <= i < self.conns().len() implies (
                    #[trigger] self.conns()[i]).1.inv() by {
                        if i != k {
                            assert(self.conns()[i] == cs[i]);
                        }
                    }
                    assert forall|i: int| 0 <= i < cs.len() implies cs[i].0 == self.conns()[i].0 by {}
                    lemma_same_keys(self.queues(), cs, self.conns());
                }
                Wake { readers: a.read, listeners: false }
            },
            None => {
                if !h.flags.syn {
                    return none;
                }
                let p = match self.find_listener(h.dst_port) {
                    Some(p) => p,
                    None => return none,
                };
                let c = match Connection::accept(now, INITIAL_SEQ, &h, out) {
                    Some(c) => c,
                    None => return none,
                };
                let ghost cs = self.conns();
                let ghost qs = self.queues();
                let ghost v0 = self.pending@;
                self.connections.push((q, c));
                let (port, mut qu) = self.pending.remove(p);
                qu.push_back(q);
                self.pending.insert(p, (port, qu));
                proof {
                    lemma_remove_insert(v0, p as int, (port, qu));
                    assert(self.conns() =~= cs.push((q, c@)));
                    assert(self.queues() =~= qs.update(p as int, (h.dst_port, qs[p as int].1.push(q))));
                    assert forall|i: int, j: int|
                        0 <= i < j < self.queues().len() implies self.queues()[i].0 != self.queues()[j].0 by {
                        assert(self.queues()[i].0 == qs[i].0);
                        assert(self.queues()[j].0 == qs[j].0);
                    }
                    let nq = self.queues();
                    let nc = self.conns();
                    assert(qs[p as int].0 == h.dst_port);
                    assert forall|a: int, j: int| 0 <= a < nq.len() && 0 <= j < nq[a].1.len() implies (
                    #[trigger] nq[a].1[j]).dst_port == nq[a].0 && has_key(nc, nq[a].1[j]) by {
                        if a == p && j == qs[a].1.len() {
                            assert(nq[a].1[j] == q);
                            assert(nc[cs.len() as int].0 == q);
                        } else {
                            assert(nq[a].1[j] == qs[a].1[j]);
                            let w = choose|w: int| 0 <= w < cs.len() && cs[w].0 == qs[a].1[j];
                            assert(nc[w].0 == cs[w].0);
                        }
                    }
                    assert forall|p1: int, j1: int, p2: int, j2: int|
                        0 <= p1 < nq.len() && 0 <= j1 < nq[p1].1.len() && 0 <= p2 < nq.len() && 0 <= j2
                            < nq[p2].1.len() && (p1 != p2 || j1 != j2) implies #[trigger] nq[p1].1[j1]
                        != #[trigger] nq[p2].1[j2] by {
                        let new1 = p1 == p && j1 == qs[p1].1.len();
                        let new2 = p2 == p && j2 == qs[p2].1.len();
                        if !new1 {
                            assert(nq[p1].1[j1] == qs[p1].1[j1]);
                            assert(has_key(cs, qs[p1].1[j1]));
                        }
                        if !new2 {
                            assert(nq[p2].1[j2] == qs[p2].1[j2]);
                            assert(has_key(cs, qs[p2].1[j2]));
                        }
                    }
                }
                Wake { readers: false, listeners: true }
            },
        }
    }

    /// A timer tick at `now` for every connection, in table order.
    pub fn on_tick(&mut self, now: u64, out: &mut Vec<Segment>)
        requires
            old(self).wf(),
        ensures
            final(self).wf(),
            final(self).terminate == old(self).terminate,
            final(self).queues() == old(self).queues(),
            final(self).conns().len() == old(self).conns().len(),
            forall|i: int|
                0 <= i < old(self).conns().len() ==> #[trigger] final(self).conns()[i] == (
                    old(self).conns()[i].0,
                    tick_spec(old(self).conns()[i].1, now).0,
                ),
            segs(final(out)@) == segs(old(out)@) + ticks_out(old(self).conns(), now),
    {
        let ghost cs = self.conns();
        let ghost o = segs(out@);
        let mut i: usize = 0;
        assert(cs.subrange(0, 0) =~= Seq::<(Quad, ConnView)>::empty());
        while i < self.connections.len()
            invariant
                i <= self.connections@.len(),
                self.connections@.len() == cs.len(),
                self.pending == old(self).pending,
                self.terminate == old(self).terminate,
                self.queues() == old(self).queues(),
                old(self).wf(),
                cs == old(self).conns(),
                forall|j: int|
                    0 <= j < i ==> #[trigger] self.conns()[j] == (cs[j].0, tick_spec(cs[j].1, now).0),
                forall|j: int| i <= j < cs.len() ==> #[trigger] self.conns()[j] == cs[j],
                segs(out@) == o + ticks_out(cs.subrange(0, i as int), now),
            decreases cs.len() - i,
        {
            let ghost before = self.connections@;
            let ghost cur = self.conns();
            let (q, mut c) = self.take_conn(i);
            proof {
                assert(cur[i as int] == cs[i as int]);
                assert(cs[i as int].1.inv());
            }
            c.on_tick(now, out);
            self.put_conn(i, (q, c), Ghost(before));
            proof {
                assert(before.map_values(|e: (Quad, Connection)| (e.0, e.1@)) == cur);
                assert(cs.subrange(0, i + 1).drop_last() == cs.subrange(0, i as int));
                assert(self.conns()[i as int] == (cs[i as int].0, tick_spec(cs[i as int].1, now).0));
            }
            i = i + 1;
        }
        proof {
            assert(cs.subrange(0, i as int) == cs);
            assert forall|a: int, b: int|
                0 <= a < b < self.conns().len() implies self.conns()[a].0 != self.conns()[b].0 by {
                assert(self.conns()[a].0 == cs[a].0);
                assert(self.conns()[b].0 == cs[b].0);
            }
            assert forall|a: int| 0 <= a < self.conns().len() implies (#[trigger] self.conns()[a]).1.inv() by {
                crate::tcp::lemma_tick_inv(cs[a].1, now);
            }
            assert forall|a: int| 0 <= a < cs.len() implies cs[a].0 == self.conns()[a].0 by {}
            lemma_same_keys(self.queues(), cs, self.conns());
        }
    }
}

impl ConnectionManager {
    /// The connection table after the connection at `k` became `c2`.
    pub open spec fn with_conn(&self, k: int, c2: ConnView) -> Seq<(Quad, ConnView)> {
        self.conns().update(k, (self.conns()[k].0, c2))
    }

    proof fn lemma_wf_update(&self, k: int, c2: ConnView, after: Seq<(Quad, ConnView)>)
        requires
            self.wf(),
            0 <= k < self.conns().len(),
            c2.inv(),
            after == self.with_conn(k, c2),
        ensures
            forall|i: int, j: int| 0 <= i < j < after.len() ==> after[i].0 != after[j].0,
            forall|i: int| 0 <= i < after.len() ==> (#[trigger] after[i]).1.inv(),
            queued_in_table(self.queues(), after),
    {
        lemma_same_keys(self.queues(), self.conns(), after);
        assert forall|i: int, j: int| 0 <= i < j < after.len() implies after[i].0 != after[j].0 by {
            assert(after[i].0 == self.conns()[i].0);
            assert(after[j].0 == self.conns()[j].0);
        }
        assert forall|i: int| 0 <= i < after.len() implies (#[trigger] after[i]).1.inv() by {
            if i != k {
                assert(after[i] == self.conns()[i]);
            }
        }
    }

    /// A stream reads up to `max` bytes from the connection of `q`: the
    /// bytes at the front of its receive queue; `Closed` once the peer
    /// closed and everything was read; `Empty` when the reader must wait.
    /// `ConnectionAborted` when the connection is gone.
    pub fn stream_read(&mut self, q: &Quad, max: usize) -> (r: Result<ReadOutcome, TcpError>)
        requires
            old(self).wf(),
        ensures
            final(self).wf(),
            final(self).queues() == old(self).queues(),
            final(self).terminate == old(self).terminate,
            match find_from(old(self).conns(), *q, 0) {
                None => r == Err::<ReadOutcome, TcpError>(TcpError::ConnectionAborted) && final(self).conns()
                    == old(self).conns(),
                Some(k) => {
                    let c = old(self).conns()[k].1;
                    let n = if max < c.incoming.len() { max as int } else { c.incoming.len() as int };
                    &&& r matches Ok(o) && o@ == read_spec(c, max as int)
                    &&& final(self).conns() == if c.incoming.len() > 0 {
                        old(self).with_conn(k, ConnView { incoming: c.incoming.skip(n), ..c })
                    } else {
                        old(self).conns()
                    }
                },
            },
    {
        proof {
            lemma_find_from(self.conns(), *q, 0);
        }
        let k = match self.find(q) {
            Some(k) => k,
            None => return Err(TcpError::ConnectionAborted),
        };
        let ghost before = self.connections@;
        let ghost cs = self.conns();
        let (q2, mut c) = self.take_conn(k);
        let ghost c0 = c@;
        let r = if c.incoming.len() > 0 {
            ReadOutcome::Data(c.read_incoming(max))
        } else if c.is_rcv_closed() {
            ReadOutcome::Closed
        } else {
            ReadOutcome::Empty
        };
        self.put_conn(k, (q2, c), Ghost(before));
        proof {
            assert(before.map_values(|e: (Quad, Connection)| (e.0, e.1@)) == cs);
            if c0.incoming.len() == 0 {
                assert(self.conns() =~= cs);
            }
            old(self).lemma_wf_update(k as int, c@, self.conns());
            assert(self.queues() =~= old(self).queues());
        }
        Ok(r)
    }

    /// A stream queues bytes of `buf` on the connection of `q`, as
    /// `Connection::write_outgoing` does (`WouldBlock` when full);
    /// `ConnectionAborted` when the connection is gone.
    pub fn stream_write(&mut self, q: &Quad, buf: &[u8]) -> (r: Result<usize, TcpError>)
        requires
            old(self).wf(),
        ensures
            final(self).wf(),
            final(self).queues() == old(self).queues(),
            final(self).terminate == old(self).terminate,
            match find_from(old(self).conns(), *q, 0) {
                None => r == Err::<usize, TcpError>(TcpError::ConnectionAborted) && final(self).conns()
                    == old(self).conns(),
                Some(k) => {
                    let c = old(self).conns()[k].1;
                    &&& (c.unacked.len() >= SEND_QUEUE_CAP ==> r == Err::<usize, TcpError>(
                        TcpError::WouldBlock,
                    ) && final(self).conns() == old(self).conns())
                    &&& (c.unacked.len() < SEND_QUEUE_CAP ==> {
                        let n = if buf@.len() < SEND_QUEUE_CAP - c.unacked.len() {
                            buf@.len() as int
                        } else {
                            SEND_QUEUE_CAP - c.unacked.len()
                        };
                        &&& r == Ok::<usize, TcpError>(n as usize)
                        &&& final(self).conns() == old(self).with_conn(
                            k,
                            ConnView { unacked: c.unacked + buf@.take(n), ..c },
                        )
                    })
                },
            },
    {
        proof {
            lemma_find_from(self.conns(), *q, 0);
        }
        let k = match self.find(q) {
            Some(k) => k,
            None => return Err(TcpError::ConnectionAborted),
        };
        let ghost before = self.connections@;
        let ghost cs = self.conns();
        let (q2, mut c) = self.take_conn(k);
        proof {
            assert(cs[k as int].1.inv());
        }
        let r = c.write_outgoing(buf);
        self.put_conn(k, (q2, c), Ghost(before));
        proof {
            assert(before.map_values(|e: (Quad, Connection)| (e.0, e.1@)) == cs);
            if r is Err {
                assert(self.conns() =~= cs);
            }
            old(self).lemma_wf_update(k as int, c@, self.conns());
            assert(self.queues() =~= old(self).queues());
        }
        r
    }

    /// Succeeds once the connection of `q` has every queued byte
    /// acknowledged; `WouldBlock` before; `ConnectionAborted` when the
    /// connection is gone.
    pub fn stream_flush(&self, q: &Quad) -> (r: Result<(), TcpError>)
        ensures
            match find_from(self.conns(), *q, 0) {
                None => r == Err::<(), TcpError>(TcpError::ConnectionAborted),
                Some(k) => (r is Ok <==> self.conns()[k].1.unacked.len() == 0) && (r matches Err(e)
                    ==> e == TcpError::WouldBlock),
            },
    {
        proof {
            lemma_find_from(self.conns(), *q, 0);
        }
        match self.find(q) {
            Some(k) => self.connections[k].1.flush_outgoing(),
            None => Err(TcpError::ConnectionAborted),
        }
    }

    /// Shuts the connection of `q` down, as `Connection::close` does;
    /// `ConnectionAborted` when the connection is gone.
    pub fn stream_shutdown(&mut self, q: &Quad) -> (r: Result<(), TcpError>)
        requires
            old(self).wf(),
        ensures
            final(self).wf(),
            final(self).queues() == old(self).queues(),
            final(self).terminate == old(self).terminate,
            match find_from(old(self).conns(), *q, 0) {
                None => r == Err::<(), TcpError>(TcpError::ConnectionAborted) && final(self).conns()
                    == old(self).conns(),
                Some(k) => {
                    let c = old(self).conns()[k].1;
                    &&& (r is Err <==> c.state == crate::tcp::State::TimeWait)
                    &&& (r matches Err(e) ==> e == TcpError::NotConnected && final(self).conns() == old(self).conns())
                    &&& r is Ok ==> final(self).conns() == old(self).with_conn(
                        k,
                        ConnView {
                            closed: true,
                            state: if c.state == crate::tcp::State::SynRcvd || c.state
                                == crate::tcp::State::Estab {
                                crate::tcp::State::FinWait1
                            } else {
                                c.state
                            },
                            ..c
                        },
                    )
                },
            },
    {
        proof {
            lemma_find_from(self.conns(), *q, 0);
        }
        let k = match self.find(q) {
            Some(k) => k,
            None => return Err(TcpError::ConnectionAborted),
        };
        let ghost before = self.connections@;
        let ghost cs = self.conns();
        let (q2, mut c) = self.take_conn(k);
        let ghost c0 = c@;
        let r = c.close();
        self.put_conn(k, (q2, c), Ghost(before));
        proof {
            assert(before.map_values(|e: (Quad, Connection)| (e.0, e.1@)) == cs);
            old(self).lemma_wf_update(k as int, c@, self.conns());
            assert(self.queues() =~= old(self).queues());
            if r is Err {
                assert(c@ == c0);
                assert(self.conns() =~= cs);
            }
        }
        r
    }
}

impl ConnectionManager {
    /// Stops listening on `port`: its queue goes, and the connections still
    /// waiting in it to be accepted are reaped from the table.
    pub fn unbind(&mut self, port: u16)
        requires
            old(self).wf(),
        ensures
            final(self).wf(),
            final(self).terminate == old(self).terminate,
            match find_port(old(self).queues(), port, 0) {
                None => final(self).queues() == old(self).queues() && final(self).conns() == old(self).conns(),
                Some(k) => {
                    let qu = old(self).queues()[k].1;
                    &&& final(self).queues() == old(self).queues().remove(k)
                    &&& forall|i: int|
                        0 <= i < final(self).conns().len() ==> old(self).conns().contains(
                            #[trigger] final(self).conns()[i],
                        ) && !qu.contains(final(self).conns()[i].0)
                    &&& forall|e: (Quad, ConnView)|
                        #[trigger] old(self).conns().contains(e) && !qu.contains(e.0) ==> final(self).conns().contains(e)
                },
            },
    {
        proof {
            lemma_find_port(self.queues(), port, 0);
        }
        let k = match self.find_listener(port) {
            Some(k) => k,
            None => return,
        };
        let ghost cs = self.conns();
        let ghost qs = self.queues();
        let (_, qu) = self.pending.remove(k);
        proof {
            assert(self.queues() =~= qs.remove(k as int));
            assert forall|a: int, b: int|
                0 <= a < b < self.queues().len() implies self.queues()[a].0 != self.queues()[b].0 by {
                if a < k {
                    if b < k {
                    } else {
                        assert(self.queues()[b] == qs[b + 1]);
                    }
                } else {
                    assert(self.queues()[a] == qs[a + 1]);
                    assert(self.queues()[b] == qs[b + 1]);
                }
            }
            assert(qu@ == qs[k as int].1);
        }
        let mut j: usize = 0;
        while j < qu.len()
            invariant
                j <= qu@.len(),
                self.wf(),
                self.terminate == old(self).terminate,
                self.queues() == qs.remove(k as int),
                qs == old(self).queues(),
                queued_once(qs),
                0 <= k < qs.len(),
                qu@ == qs[k as int].1,
                forall|i: int|
                    0 <= i < self.conns().len() ==> cs.contains(#[trigger] self.conns()[i]) && !qu@.subrange(
                        0,
                        j as int,
                    ).contains(self.conns()[i].0),
                forall|e: (Quad, ConnView)|
                    #[trigger] cs.contains(e) && !qu@.subrange(0, j as int).contains(e.0) ==> self.conns().contains(e),
            decreases qu@.len() - j,
        {
            let q = qu[j];
            proof {
                lemma_find_from(self.conns(), q, 0);
                assert(qu@.subrange(0, j + 1) =~= qu@.subrange(0, j as int).push(q));
            }
            let ghost before = self.conns();
            match self.find(&q) {
                Some(i) => {
                    let ghost v0 = self.connections@;
                    self.connections.remove(i);
                    proof {
                        assert(self.conns() =~= before.remove(i as int));
                        assert forall|a: int|
                            0 <= a < self.conns().len() implies cs.contains(#[trigger] self.conns()[a])
                            && !qu@.subrange(0, j + 1).contains(self.conns()[a].0) by {
                            let src = if a < i { a } else { a + 1 };
                            assert(self.conns()[a] == before[src]);
                            assert(before[src].0 != q);
                        }
                        assert forall|e: (Quad, ConnView)|
                            #[trigger] cs.contains(e) && !qu@.subrange(0, j + 1).contains(e.0) implies self.conns().contains(e) by {
                            assert(before.contains(e));
                            let w = choose|w: int| 0 <= w < before.len() && before[w] == e;
                            assert(qu@.subrange(0, j + 1)[j as int] == q);
                            assert(qu@.subrange(0, j + 1).contains(q));
                            assert(before[i as int].0 == q);
                            assert(w != i);
                            if w < i {
                                assert(self.conns()[w] == e);
                            } else {
                                assert(self.conns()[w - 1] == e);
                            }
                        }
                        assert forall|a: int, b: int|
                            0 <= a < b < self.conns().len() implies self.conns()[a].0 != self.conns()[b].0 by {
                            let sa = if a < i { a } else { a + 1 };
                            let sb = if b < i { b } else { b + 1 };
                            assert(self.conns()[a] == before[sa]);
                            assert(self.conns()[b] == before[sb]);
                        }
                        assert forall|a: int| 0 <= a < self.conns().len() implies (
                        #[trigger] self.conns()[a]).1.inv() by {
                            let sa = if a < i { a } else { a + 1 };
                            assert(self.conns()[a] == before[sa]);
                        }
                        assert(self.queues() == qs.remove(k as int));
                        let nq = self.queues();
                        let nc = self.conns();
                        assert forall|a: int, b: int| 0 <= a < nq.len() && 0 <= b < nq[a].1.len() implies (
                        #[trigger] nq[a].1[b]).dst_port == nq[a].0 && has_key(nc, nq[a].1[b]) by {
                            let x = nq[a].1[b];
                            let pa = if a < k { a } else { a + 1 };
                            assert(nq[a] == qs[pa]);
                            assert(qs[pa].1[b] == x);
                            assert(qs[k as int].1[j as int] == q);
                            assert(x != q);
                            assert(has_key(before, x));
                            let w = choose|w: int| 0 <= w < before.len() && before[w].0 == x;
                            assert(w != i);
                            if w < i {
                                assert(nc[w] == before[w]);
                            } else {
                                assert(nc[w - 1] == before[w]);
                            }
                        }
                    }
                },
                None => {
                    proof {
                        assert forall|a: int|
                            0 <= a < self.conns().len() implies !qu@.subrange(0, j + 1).contains(
                                #[trigger] self.conns()[a].0,
                            ) by {
                            assert(self.conns()[a].0 != q);
                        }
                    }
                },
            }
            j = j + 1;
        }
        proof {
            assert(qu@.subrange(0, j as int) =~= qu@);
        }
    }
}

/// `q` waits in some queue.
pub open spec fn is_queued(qs: Seq<(u16, Seq<Quad>)>, q: Quad) -> bool {
    exists|p: int, j: int| 0 <= p < qs.len() && 0 <= j < qs[p].1.len() && qs[p].1[j] == q
}

/// A connection that may go at `now`: its TIME-WAIT is over and no
/// listener still holds it.
pub open spec fn reapable(e: (Quad, ConnView), qs: Seq<(u16, Seq<Quad>)>, now: u64) -> bool {
    e.1.expired(now) && !is_queued(qs, e.0)
}

/// The connections of `cs` that stay after reaping at `now`, in order.
pub open spec fn survivors(cs: Seq<(Quad, ConnView)>, qs: Seq<(u16, Seq<Quad>)>, now: u64) -> Seq<(Quad, ConnView)>
    decreases cs.len(),
{
    if cs.len() == 0 {
        cs
    } else if reapable(cs.last(), qs, now) {
        survivors(cs.drop_last(), qs, now)
    } else {
        survivors(cs.drop_last(), qs, now).push(cs.last())
    }
}

proof fn lemma_survivors(cs: Seq<(Quad, ConnView)>, qs: Seq<(u16, Seq<Quad>)>, now: u64)
    ensures
        forall|j: int|
            0 <= j < survivors(cs, qs, now).len() ==> exists|i: int|
                0 <= i < cs.len() && cs[i] == #[trigger] survivors(cs, qs, now)[j],
        forall|i: int|
            0 <= i < cs.len() && !reapable(cs[i], qs, now) ==> exists|j: int|
                0 <= j < survivors(cs, qs, now).len() && #[trigger] survivors(cs, qs, now)[j] == cs[i],
        (forall|a: int, b: int| 0 <= a < b < cs.len() ==> cs[a].0 != cs[b].0) ==> (forall|a: int, b: int|
            0 <= a < b < survivors(cs, qs, now).len() ==> survivors(cs, qs, now)[a].0 != survivors(
                cs,
                qs,
                now,
            )[b].0),
    decreases cs.len(),
{
    if cs.len() > 0 {
        let t = cs.drop_last();
        lemma_survivors(t, qs, now);
        let w = survivors(t, qs, now);
        let r = survivors(cs, qs, now);
        assert forall|j: int| 0 <= j < r.len() implies exists|i: int| 0 <= i < cs.len() && cs[i] == #[trigger] r[j] by {
            if j < w.len() {
                assert(r[j] == w[j]);
                let i = choose|i: int| 0 <= i < t.len() && t[i] == w[j];
                assert(cs[i] == t[i]);
            } else {
                assert(cs[cs.len() - 1] == r[j]);
            }
        }
        assert forall|i: int| 0 <= i < cs.len() && !reapable(cs[i], qs, now) implies exists|j: int|
            0 <= j < r.len() && #[trigger] r[j] == cs[i] by {
            if i < t.len() {
                assert(t[i] == cs[i]);
                let j = choose|j: int| 0 <= j < w.len() && w[j] == t[i];
                assert(r[j] == w[j]);
            } else {
                assert(r[w.len() as int] == cs[i]);
            }
        }
        if forall|a: int, b: int| 0 <= a < b < cs.len() ==> cs[a].0 != cs[b].0 {
            assert forall|a: int, b: int| 0 <= a < b < t.len() implies t[a].0 != t[b].0 by {
                assert(t[a] == cs[a]);
                assert(t[b] == cs[b]);
            }
            assert forall|a: int, b: int| 0 <= a < b < r.len() implies r[a].0 != r[b].0 by {
                if b < w.len() {
                    assert(r[a] == w[a]);
                    assert(r[b] == w[b]);
                } else if !reapable(cs.last(), qs, now) {
                    assert(r[a] == w[a]);
                    let i = choose|i: int| 0 <= i < t.len() && t[i] == w[a];
                    assert(t[i] == cs[i]);
                    assert(r[b] == cs[cs.len() - 1]);
                }
            }
        }
    }
}

/// Reaping keeps the table's invariant.
proof fn lemma_reap_wf(cs: Seq<(Quad, ConnView)>, qs: Seq<(u16, Seq<Quad>)>, now: u64)
    requires
        forall|a: int, b: int| 0 <= a < b < cs.len() ==> cs[a].0 != cs[b].0,
        forall|a: int| 0 <= a < cs.len() ==> (#[trigger] cs[a]).1.inv(),
        queued_in_table(qs, cs),
    ensures
        ({
            let r = survivors(cs, qs, now);
            &&& forall|a: int, b: int| 0 <= a < b < r.len() ==> r[a].0 != r[b].0
            &&& forall|a: int| 0 <= a < r.len() ==> (#[trigger] r[a]).1.inv()
            &&& queued_in_table(qs, r)
        }),
{
    lemma_survivors(cs, qs, now);
    let r = survivors(cs, qs, now);
    assert forall|a: int| 0 <= a < r.len() implies (#[trigger] r[a]).1.inv() by {
        let k = choose|k: int| 0 <= k < cs.len() && cs[k] == r[a];
    }
    assert forall|p: int, j: int| 0 <= p < qs.len() && 0 <= j < qs[p].1.len() implies (
    #[trigger] qs[p].1[j]).dst_port == qs[p].0 && has_key(r, qs[p].1[j]) by {
        let x = qs[p].1[j];
        assert(has_key(cs, x));
        let w = choose|w: int| 0 <= w < cs.len() && cs[w].0 == x;
        assert(is_queued(qs, x));
        assert(!reapable(cs[w], qs, now));
        let jj = choose|jj: int| 0 <= jj < r.len() && r[jj] == cs[w];
    }
}

impl ConnectionManager {
    /// Whether `q` waits in some queue.
    pub fn queued(&self, q: &Quad) -> (r: bool)
        ensures
            r == is_queued(self.queues(), *q),
    {
        let ghost qs = self.queues();
        let mut p: usize = 0;
        while p < self.pending.len()
            invariant
                p <= self.pending@.len(),
                qs == self.queues(),
                forall|a: int, b: int| 0 <= a < p && 0 <= b < qs[a].1.len() ==> qs[a].1[b] != *q,
            decreases self.pending@.len() - p,
        {
            let mut j: usize = 0;
            assert(qs[p as int].1 == self.pending@[p as int].1@);
            while j < self.pending[p].1.len()
                invariant
                    p < self.pending@.len(),
                    j <= self.pending@[p as int].1@.len(),
                    qs == self.queues(),
                    qs[p as int].1 == self.pending@[p as int].1@,
                    forall|b: int| 0 <= b < j ==> qs[p as int].1[b] != *q,
                decreases self.pending@[p as int].1@.len() - j,
            {
                if self.pending[p].1[j] == *q {
                    assert(qs[p as int].1[j as int] == *q);
                    return true;
                }
                j = j + 1;
            }
            p = p + 1;
        }
        false
    }

    /// Removes the connections whose TIME-WAIT (twice the maximum segment
    /// lifetime) is over by `now`, unless a listener still holds them.
    pub fn reap(&mut self, now: u64)
        requires
            old(self).wf(),
        ensures
            final(self).wf(),
            final(self).terminate == old(self).terminate,
            final(self).queues() == old(self).queues(),
            final(self).conns() == survivors(old(self).conns(), old(self).queues(), now),
    {
        let ghost cs = self.conns();
        let ghost qs = self.queues();
        let mut rest: Vec<(Quad, Connection)> = Vec::new();
        std::mem::swap(&mut rest, &mut self.connections);
        let ghost all = rest@;
        let n0 = rest.len();
        assert(all.map_values(|e: (Quad, Connection)| (e.0, e.1@)) == cs);
        let mut i: usize = 0;
        assert(self.conns() =~= survivors(cs.subrange(0, 0), qs, now));
        while rest.len() > 0
            invariant
                i <= all.len(),
                all.len() == n0,
                rest@ == all.subrange(i as int, all.len() as int),
                self.conns() == survivors(cs.subrange(0, i as int), qs, now),
                cs == all.map_values(|e: (Quad, Connection)| (e.0, e.1@)),
                qs == self.queues(),
                self.pending == old(self).pending,
                self.terminate == old(self).terminate,
            decreases rest@.len(),
        {
            let e = rest.remove(0);
            assert(e == all[i as int]);
            let ghost ev = (e.0, e.1@);
            assert(ev == cs[i as int]);
            assert(cs.subrange(0, i + 1).drop_last() =~= cs.subrange(0, i as int));
            let expired = e.1.is_expired(now);
            let held = self.queued(&e.0);
            if expired && !held {
            } else {
                let ghost before = self.conns();
                self.connections.push(e);
                assert(self.conns() =~= before.push(ev));
            }
            i = i + 1;
            assert(rest@ =~= all.subrange(i as int, all.len() as int));
        }
        proof {
            assert(cs.subrange(0, i as int) =~= cs);
            lemma_reap_wf(cs, qs, now);
        }
    }
}

} // verus!
