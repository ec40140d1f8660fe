//! The demultiplexer and connection table: a mapping from 4-tuple to TCB,
//! a FIFO of accepted-but-unclaimed flows per listening port, and the
//! stream-facing operations that a blocking front end calls under its
//! lock.
use vstd::prelude::*;

use crate::codec::be16;
use crate::codec::be32;
use crate::codec::ipv4_parse_ok;
use crate::codec::parse_ipv4;
use crate::codec::parse_tcp;
use crate::codec::tcp_parse_ok;
use crate::tcp::accept_emit_rel;
use crate::tcp::accept_rel;
use crate::tcp::seg_emit_rel;
use crate::tcp::seg_update_rel;
use crate::tcp::tick_emit_rel;
use crate::tcp::tick_update_rel;
use crate::tcp::Available;
use crate::tcp::Connection;
use crate::tcp::OutSegment;
use crate::tcp::Quad;
use crate::tcp::SegmentIn;
use crate::tcp::State;
use crate::tcp::TcpError;
use crate::tcp::SENDQUEUE_SIZE;

verus! {

/// Protocol number of TCP in an IPv4 header.
pub const TCP_PROTO_NO: u8 = 6;

/// What became of one inbound datagram.
#[derive(Clone, Copy, Debug, PartialEq, Eq, Structural)]
pub enum DatagramOutcome {
    /// Not IPv4, not TCP, or a header that would not parse: dropped.
    NotTcp,
    /// A flow we do not know, for a port nobody listens on: dropped.
    NoListener,
    /// A listener exists, but the segment carried no SYN: dropped.
    Dropped,
    /// Routed to an existing connection, which reports what waits may
    /// now be signalled.
    Known(Quad, Available),
    /// A SYN for a listening port: a connection was created and queued
    /// for `accept`.
    Accepted(Quad),
}

/// The first index holding `q`, if any.
pub open spec fn find_quad(s: Seq<(Quad, Connection)>, q: Quad) -> Option<int>
    decreases s.len(),
{
    if s.len() == 0 {
        None
    } else if s[0].0 == q {
        Some(0int)
    } else {
        match find_quad(s.drop_first(), q) {
            Some(i) => Some(i + 1),
            None => None,
        }
    }
}

/// `find_quad` returns the first matching index, and `None` exactly when
/// no entry matches.
proof fn lemma_find_quad_char(s: Seq<(Quad, Connection)>, q: Quad, i: int)
    requires
        0 <= i <= s.len(),
        forall|j: int| 0 <= j < i ==> (#[trigger] s[j]).0 != q,
        i < s.len() ==> s[i].0 == q,
    ensures
        find_quad(s, q) == (if i < s.len() {
            Some(i)
        } else {
            None::<int>
        }),
    decreases i,
{
    if i == 0 {
    } else {
        let rest = s.drop_first();
        assert(forall|j: int| 0 <= j < i - 1 ==> (#[trigger] rest[j]).0 != q);
        lemma_find_quad_char(rest, q, i - 1);
    }
}

/// The first index holding port `p`, if any.
pub open spec fn find_port(s: Seq<(u16, Vec<Quad>)>, p: u16) -> Option<int>
    decreases s.len(),
{
    if s.len() == 0 {
        None
    } else if s[0].0 == p {
        Some(0int)
    } else {
        match find_port(s.drop_first(), p) {
            Some(i) => Some(i + 1),
            None => None,
        }
    }
}

/// `find_port` returns the first matching index, and `None` exactly when
/// no entry matches.
proof fn lemma_find_port_char(s: Seq<(u16, Vec<Quad>)>, p: u16, i: int)
    requires
        0 <= i <= s.len(),
        forall|j: int| 0 <= j < i ==> (#[trigger] s[j]).0 != p,
        i < s.len() ==> s[i].0 == p,
    ensures
        find_port(s, p) == (if i < s.len() {
            Some(i)
        } else {
            None::<int>
        }),
    decreases i,
{
    if i == 0 {
    } else {
        let rest = s.drop_first();
        assert(forall|j: int| 0 <= j < i - 1 ==> (#[trigger] rest[j]).0 != p);
        lemma_find_port_char(rest, p, i - 1);
    }
}

/// Length in bytes of a datagram's IPv4 header.
pub open spec fn ihl_of(b: Seq<u8>) -> int {
    ((b[0] as int) % 16) * 4
}

/// Is the datagram an IPv4 packet carrying a well-formed TCP header?
pub open spec fn datagram_is_tcp(b: Seq<u8>) -> bool {
    &&& ipv4_parse_ok(b)
    &&& b[9] == TCP_PROTO_NO
    &&& tcp_parse_ok(b.skip(ihl_of(b)))
}

/// The 4-tuple of a TCP datagram: addresses from the IPv4 header, ports
/// from the start of the TCP header.
pub open spec fn datagram_quad(b: Seq<u8>) -> Quad {
    Quad {
        src_ip: be32(b, 12),
        src_port: be16(b, ihl_of(b)),
        dst_ip: be32(b, 16),
        dst_port: be16(b, ihl_of(b) + 2),
    }
}

/// The sequence number of a TCP datagram.
pub open spec fn datagram_seq(b: Seq<u8>) -> u32 {
    be32(b, ihl_of(b) + 4)
}

/// The acknowledgment number of a TCP datagram.
pub open spec fn datagram_ack(b: Seq<u8>) -> u32 {
    be32(b, ihl_of(b) + 8)
}

/// The advertised window of a TCP datagram.
pub open spec fn datagram_wnd(b: Seq<u8>) -> u16 {
    be16(b, ihl_of(b) + 14)
}

/// The SYN bit of a TCP datagram.
pub open spec fn datagram_syn(b: Seq<u8>) -> bool {
    ((b[ihl_of(b) + 13] as int) / 2) % 2 == 1
}

/// The FIN bit of a TCP datagram.
pub open spec fn datagram_fin(b: Seq<u8>) -> bool {
    (b[ihl_of(b) + 13] as int) % 2 == 1
}

/// The ACK bit of a TCP datagram.
pub open spec fn datagram_has_ack(b: Seq<u8>) -> bool {
    ((b[ihl_of(b) + 13] as int) / 16) % 2 == 1
}

/// The payload of a TCP datagram: everything past both headers.
pub open spec fn datagram_payload(b: Seq<u8>) -> Seq<u8> {
    let tcp = b.skip(ihl_of(b));
    b.skip(ihl_of(b) + ((tcp[12] as int) / 16) * 4)
}

/// Two connections that agree on everything observable: every scalar
/// field and the contents of every queue.
pub open spec fn conn_unchanged(a: Connection, b: Connection) -> bool {
    &&& a.state == b.state
    &&& a.quad == b.quad
    &&& a.send == b.send
    &&& a.recv == b.recv
    &&& a.timers.send_times@ == b.timers.send_times@
    &&& a.timers.srtt_ms == b.timers.srtt_ms
    &&& a.incoming@ == b.incoming@
    &&& a.unacked@ == b.unacked@
    &&& a.closed == b.closed
    &&& a.closed_at == b.closed_at
    &&& a.tx@ == b.tx@
}

/// The connection table plus, per listening port, the FIFO of accepted
/// flows that no `accept` call has claimed yet.
pub struct ConnectionManager {
    /// One entry per live flow, keyed by its 4-tuple.
    pub connections: Vec<(Quad, Connection)>,
    /// One entry per bound listening port.
    pub pending: Vec<(u16, Vec<Quad>)>,
}

impl ConnectionManager {
    /// Well-formedness: each 4-tuple and each port appears once, every
    /// connection is well-formed, and no connection holds undelivered
    /// outbound segments (the driver drains them after every call).
    pub open spec fn wf(&self) -> bool {
        &&& forall|i: int, j: int|
            0 <= i < j < self.connections@.len() ==> (#[trigger] self.connections@[i]).0 != (
            #[trigger] self.connections@[j]).0
        &&& forall|i: int, j: int|
            0 <= i < j < self.pending@.len() ==> (#[trigger] self.pending@[i]).0 != (
            #[trigger] self.pending@[j]).0
        &&& forall|i: int|
            0 <= i < self.connections@.len() ==> (#[trigger] self.connections@[i]).1.wf()
        &&& forall|i: int|
            0 <= i < self.connections@.len() ==> (#[trigger] self.connections@[i]).1.tx@.len()
                == 0
    }

    /// An empty table: no connections, no listeners.
    pub fn new() -> (r: ConnectionManager)
        ensures
            r.wf(),
            r.connections@.len() == 0,
            r.pending@.len() == 0,
    {
        ConnectionManager { connections: Vec::new(), pending: Vec::new() }
    }

    /// Finds the index of the connection for `quad`.
    fn find_connection(&self, quad: Quad) -> (r: Option<usize>)
        ensures
            r matches Some(i) ==> find_quad(self.connections@, quad) == Some(i as int) && i
                < self.connections@.len() && self.connections@[i as int].0 == quad,
            r is None ==> find_quad(self.connections@, quad) is None,
    {
        let n = self.connections.len();
        let mut i: usize = 0;
        while i < n
            invariant
                n == self.connections@.len(),
                0 <= i <= n,
                forall|j: int|
                    0 <= j < i ==> (#[trigger] self.connections@[j]).0 != quad,
            decreases n - i,
        {
            if self.connections[i].0 == quad {
                proof {
                    lemma_find_quad_char(self.connections@, quad, i as int);
                }
                return Some(i);
            }
            i += 1;
        }
        proof {
            lemma_find_quad_char(self.connections@, quad, n as int);
        }
        None
    }

    /// Finds the index of the pending FIFO for `port`.
    fn find_listener(&self, port: u16) -> (r: Option<usize>)
        ensures
            r matches Some(i) ==> find_port(self.pending@, port) == Some(i as int) && i
                < self.pending@.len() && self.pending@[i as int].0 == port,
            r is None ==> find_port(self.pending@, port) is None,
    {
        let n = self.pending.len();
        let mut i: usize = 0;
        while i < n
            invariant
                n == self.pending@.len(),
                0 <= i <= n,
                forall|j: int| 0 <= j < i ==> (#[trigger] self.pending@[j]).0 != port,
            decreases n - i,
        {
            if self.pending[i].0 == port {
                proof {
                    lemma_find_port_char(self.pending@, port, i as int);
                }
                return Some(i);
            }
            i += 1;
        }
        proof {
            lemma_find_port_char(self.pending@, port, n as int);
        }
        None
    }

    /// Binds a listening port: refused with "address in use" when a
    /// listener already holds it, otherwise registered with an empty
    /// FIFO.
    pub fn bind(&mut self, port: u16) -> (r: Result<(), TcpError>)
        requires
            old(self).wf(),
        ensures
            final(self).wf(),
            final(self).connections@ == old(self).connections@,
            find_port(old(self).pending@, port) is Some ==> {
                &&& r == Err::<(), TcpError>(TcpError::AddrInUse)
                &&& final(self).pending@ == old(self).pending@
            },
            find_port(old(self).pending@, port) is None ==> {
                &&& r == Ok::<(), TcpError>(())
                &&& final(self).pending@.len() == old(self).pending@.len() + 1
                &&& final(self).pending@.last().0 == port
                &&& final(self).pending@.last().1@ == Seq::<Quad>::empty()
                &&& forall|i: int|
                    0 <= i < old(self).pending@.len() ==> final(self).pending@[i] == old(
                    self,
                ).pending@[i]
            },
    {
        match self.find_listener(port) {
            Some(_) => Err(TcpError::AddrInUse),
            None => {
                proof {
                    assert forall|j: int|
                        0 <= j < self.pending@.len() implies (#[trigger] self.pending@[j]).0
                        != port by {
                        if self.pending@[j].0 == port {
                            lemma_find_port_first(self.pending@, port, j);
                            assert(false);
                        }
                    }
                }
                let q: Vec<Quad> = Vec::new();
                self.pending.push((port, q));
                Ok(())
            },
        }
    }
}

impl ConnectionManager {
    /// Releases a listening port, handing back the accepted flows that
    /// no `accept` call ever claimed.
    pub fn unbind(&mut self, port: u16) -> (r: Option<Vec<Quad>>)
        requires
            old(self).wf(),
        ensures
            final(self).wf(),
            final(self).connections@ == old(self).connections@,
            find_port(old(self).pending@, port) is None ==> {
                &&& r is None
                &&& final(self).pending@ == old(self).pending@
            },
            find_port(old(self).pending@, port) matches Some(i) ==> {
                &&& (r matches Some(v) && v@ == old(self).pending@[i].1@)
                &&& final(self).pending@ == old(self).pending@.remove(i)
            },
    {
        match self.find_listener(port) {
            None => None,
            Some(i) => {
                let entry = self.pending.remove(i);
                Some(entry.1)
            },
        }
    }

    /// Pops the oldest accepted flow waiting on `port`: `None` when the
    /// caller should block, an error when the port has no listener.
    pub fn pop_pending(&mut self, port: u16) -> (r: Result<Option<Quad>, TcpError>)
        requires
            old(self).wf(),
        ensures
            final(self).wf(),
            final(self).connections@ == old(self).connections@,
            find_port(old(self).pending@, port) is None ==> {
                &&& r == Err::<Option<Quad>, TcpError>(TcpError::ConnectionAborted)
                &&& final(self).pending@ == old(self).pending@
            },
            find_port(old(self).pending@, port) matches Some(i) ==> {
                let fifo = old(self).pending@[i].1@;
                &&& (fifo.len() == 0 ==> r == Ok::<Option<Quad>, TcpError>(None)
                    && final(self).pending@ == old(self).pending@)
                &&& (fifo.len() > 0 ==> {
                    &&& r == Ok::<Option<Quad>, TcpError>(Some(fifo[0]))
                    &&& final(self).pending@.len() == old(self).pending@.len()
                    &&& forall|j: int|
                        0 <= j < old(self).pending@.len() && j != i
                            ==> final(self).pending@[j] == old(self).pending@[j]
                    &&& final(self).pending@[i].0 == port
                    &&& final(self).pending@[i].1@ == fifo.skip(1)
                })
            },
    {
        match self.find_listener(port) {
            None => Err(TcpError::ConnectionAborted),
            Some(i) => {
                let ghost p0 = self.pending@;
                if self.pending[i].1.len() == 0 {
                    return Ok(None);
                }
                let mut entry = self.pending.remove(i);
                let quad = entry.1.remove(0);
                proof {
                    assert(entry.1@ =~= p0[i as int].1@.skip(1));
                }
                self.pending.insert(i, entry);
                proof {
                    assert(self.pending@ =~= p0.update(i as int, self.pending@[i as int]));
                }
                Ok(Some(quad))
            },
        }
    }

    /// A read-only look at the connection for `quad`, as the tests and
    /// the front end inspect it.
    pub fn get(&self, quad: Quad) -> (r: Option<&Connection>)
        ensures
            find_quad(self.connections@, quad) is None ==> r is None,
            find_quad(self.connections@, quad) matches Some(i) ==> (r matches Some(c) && *c
                == self.connections@[i].1),
    {
        match self.find_connection(quad) {
            None => None,
            Some(i) => Some(&self.connections[i].1),
        }
    }

    /// Routes one parsed segment: to its connection when the 4-tuple is
    /// known; through passive open when its destination port has a
    /// listener and the segment carries SYN; to the floor otherwise.
    /// Hands back the wire segments this produced, leaving every
    /// connection's outbound queue drained.
    pub fn dispatch(&mut self, quad: Quad, seg: &SegmentIn, now_ms: u64) -> (r: (
        DatagramOutcome,
        Vec<OutSegment>,
    ))
        requires
            old(self).wf(),
            seg.payload@.len() + 2 < 0x1_0000_0000,
        ensures
            final(self).wf(),
            final(self).pending@.len() == old(self).pending@.len(),
            forall|i: int|
                0 <= i < old(self).pending@.len() ==> final(self).pending@[i].0 == old(
                self,
                ).pending@[i].0,
            find_quad(old(self).connections@, quad) matches Some(i) ==> {
                &&& (r.0 matches DatagramOutcome::Known(q, a) && q == quad
                    && a == final(self).connections@[i].1.spec_availability())
                &&& final(self).connections@.len() == old(self).connections@.len()
                &&& forall|j: int|
                    0 <= j < old(self).connections@.len() && j != i
                        ==> final(self).connections@[j] == old(self).connections@[j]
                &&& final(self).connections@[i].0 == quad
                &&& seg_update_rel(
                    old(self).connections@[i].1,
                    seg.seq,
                    seg.ack,
                    seg.syn,
                    seg.fin,
                    seg.has_ack,
                    seg.payload@,
                    now_ms,
                    final(self).connections@[i].1,
                )
                &&& seg_emit_rel(
                    old(self).connections@[i].1,
                    seg.seq,
                    seg.ack,
                    seg.syn,
                    seg.fin,
                    seg.has_ack,
                    seg.payload@,
                    now_ms,
                    r.1@,
                )
                &&& final(self).pending@ == old(self).pending@
            },
            (find_quad(old(self).connections@, quad) is None && find_port(
                old(self).pending@,
                quad.dst_port,
            ) is None) ==> {
                &&& r.0 is NoListener
                &&& final(self).connections@ == old(self).connections@
                &&& final(self).pending@ == old(self).pending@
            },
            (find_quad(old(self).connections@, quad) is None && find_port(
                old(self).pending@,
                quad.dst_port,
            ) is Some && !seg.syn) ==> {
                &&& r.0 is Dropped
                &&& final(self).connections@ == old(self).connections@
                &&& final(self).pending@ == old(self).pending@
            },
            (find_quad(old(self).connections@, quad) is None && find_port(
                old(self).pending@,
                quad.dst_port,
            ) is Some && seg.syn) ==> ({
                let pi = find_port(old(self).pending@, quad.dst_port).unwrap();
                &&& r.0 == DatagramOutcome::Accepted(quad)
                &&& final(self).connections@.len() == old(self).connections@.len() + 1
                &&& forall|j: int|
                    0 <= j < old(self).connections@.len() ==> final(self).connections@[j]
                        == old(self).connections@[j]
                &&& final(self).connections@.last().0 == quad
                &&& accept_rel(quad, seg.seq, seg.wnd, now_ms, final(self).connections@.last().1)
                &&& accept_emit_rel(quad, seg.seq, now_ms, r.1@)
                &&& forall|j: int|
                    0 <= j < old(self).pending@.len() && j != pi ==> final(self).pending@[j]
                        == old(self).pending@[j]
                &&& final(self).pending@[pi].0 == old(self).pending@[pi].0
                &&& final(self).pending@[pi].1@ == old(self).pending@[pi].1@.push(quad)
            }),
    {
        let ghost c0 = self.connections@;
        match self.find_connection(quad) {
            Some(i) => {
                let mut entry = self.connections.remove(i);
                proof {
                    assert(entry.1.tx@.len() == 0);
                }
                let avail = entry.1.on_segment(seg, now_ms);
                let ghost c_after = entry.1;
                let segs = entry.1.tx.split_off(0);
                proof {
                    assert(entry.1.tx@ =~= Seq::<OutSegment>::empty());
                    assert(segs@ =~= c_after.tx@.skip(0));
                    assert(seg_update_rel(
                        c0[i as int].1,
                        seg.seq,
                        seg.ack,
                        seg.syn,
                        seg.fin,
                        seg.has_ack,
                        seg.payload@,
                        now_ms,
                        entry.1,
                    ));
                }
                self.connections.insert(i, entry);
                proof {
                    assert(self.connections@ =~= c0.update(
                        i as int,
                        self.connections@[i as int],
                    ));
                }
                (DatagramOutcome::Known(quad, avail), segs)
            },
            None => {
                proof {
                    assert forall|j: int|
                        0 <= j < self.connections@.len() implies (
                    #[trigger] self.connections@[j]).0 != quad by {
                        if self.connections@[j].0 == quad {
                            lemma_find_quad_first(self.connections@, quad, j);
                            assert(false);
                        }
                    }
                }
                match self.find_listener(quad.dst_port) {
                    None => (DatagramOutcome::NoListener, Vec::new()),
                    Some(pi) => {
                        match Connection::accept(quad, seg, now_ms) {
                            None => (DatagramOutcome::Dropped, Vec::new()),
                            Some(mut c) => {
                                let segs = c.tx.split_off(0);
                                proof {
                                    assert(c.tx@ =~= Seq::<OutSegment>::empty());
                                }
                                self.connections.push((quad, c));
                                let ghost p0 = self.pending@;
                                let mut pentry = self.pending.remove(pi);
                                pentry.1.push(quad);
                                self.pending.insert(pi, pentry);
                                proof {
                                    assert(self.pending@ =~= p0.update(
                                        pi as int,
                                        self.pending@[pi as int],
                                    ));
                                }
                                (DatagramOutcome::Accepted(quad), segs)
                            },
                        }
                    },
                }
            },
        }
    }

    /// Parses one raw datagram from the tunnel and routes it: anything
    /// that is not a well-formed IPv4+TCP segment is dropped, everything
    /// else goes through `dispatch` keyed by its 4-tuple.
    pub fn on_datagram(&mut self, buf: &[u8], now_ms: u64) -> (r: (
        DatagramOutcome,
        Vec<OutSegment>,
    ))
        requires
            old(self).wf(),
            buf@.len() + 2 < 0x1_0000_0000,
        ensures
            final(self).wf(),
            final(self).pending@.len() == old(self).pending@.len(),
            forall|i: int|
                0 <= i < old(self).pending@.len() ==> final(self).pending@[i].0 == old(
                self,
                ).pending@[i].0,
            r.0 is NotTcp ==> final(self).connections@ == old(self).connections@
                && final(self).pending@ == old(self).pending@,
            final(self).connections@.len() <= old(self).connections@.len() + 1,
            (r.0 is NotTcp) == !datagram_is_tcp(buf@),
            datagram_is_tcp(buf@) ==> ({
                let q = datagram_quad(buf@);
                &&& (find_quad(old(self).connections@, q) matches Some(i) ==> {
                    &&& (r.0 matches DatagramOutcome::Known(qq, a) && qq == q
                        && a == final(self).connections@[i].1.spec_availability())
                    &&& final(self).connections@.len() == old(self).connections@.len()
                    &&& forall|j: int|
                        0 <= j < old(self).connections@.len() && j != i
                            ==> final(self).connections@[j] == old(self).connections@[j]
                    &&& final(self).connections@[i].0 == q
                    &&& seg_update_rel(
                        old(self).connections@[i].1,
                        datagram_seq(buf@),
                        datagram_ack(buf@),
                        datagram_syn(buf@),
                        datagram_fin(buf@),
                        datagram_has_ack(buf@),
                        datagram_payload(buf@),
                        now_ms,
                        final(self).connections@[i].1,
                    )
                    &&& seg_emit_rel(
                        old(self).connections@[i].1,
                        datagram_seq(buf@),
                        datagram_ack(buf@),
                        datagram_syn(buf@),
                        datagram_fin(buf@),
                        datagram_has_ack(buf@),
                        datagram_payload(buf@),
                        now_ms,
                        r.1@,
                    )
                    &&& final(self).pending@ == old(self).pending@
                })
                &&& ((find_quad(old(self).connections@, q) is None && find_port(
                    old(self).pending@,
                    q.dst_port,
                ) is None) ==> r.0 is NoListener && final(self).connections@ == old(
                    self,
                ).connections@ && final(self).pending@ == old(self).pending@)
                &&& ((find_quad(old(self).connections@, q) is None && find_port(
                    old(self).pending@,
                    q.dst_port,
                ) is Some && datagram_syn(buf@)) ==> ({
                    let pi = find_port(old(self).pending@, q.dst_port).unwrap();
                    &&& r.0 == DatagramOutcome::Accepted(q)
                    &&& final(self).connections@.len() == old(self).connections@.len() + 1
                    &&& forall|j: int|
                        0 <= j < old(self).connections@.len() ==> final(self).connections@[j]
                            == old(self).connections@[j]
                    &&& final(self).connections@.last().0 == q
                    &&& accept_rel(
                        q,
                        datagram_seq(buf@),
                        datagram_wnd(buf@),
                        now_ms,
                        final(self).connections@.last().1,
                    )
                    &&& accept_emit_rel(q, datagram_seq(buf@), now_ms, r.1@)
                    &&& forall|j: int|
                        0 <= j < old(self).pending@.len() && j != pi
                            ==> final(self).pending@[j] == old(self).pending@[j]
                    &&& final(self).pending@[pi].0 == old(self).pending@[pi].0
                    &&& final(self).pending@[pi].1@ == old(self).pending@[pi].1@.push(q)
                }))
                &&& ((find_quad(old(self).connections@, q) is None && find_port(
                    old(self).pending@,
                    q.dst_port,
                ) is Some && !datagram_syn(buf@)) ==> r.0 is Dropped && final(self).connections@ == old(self).connections@ && final(self).pending@ == old(
                    self,
                ).pending@)
            }),
    {
        let ip = match parse_ipv4(buf) {
            Some(h) => h,
            None => {
                return (DatagramOutcome::NotTcp, Vec::new());
            },
        };
        if ip.protocol != TCP_PROTO_NO {
            return (DatagramOutcome::NotTcp, Vec::new());
        }
        let rest = vstd::slice::slice_subrange(buf, ip.header_len, buf.len());
        proof {
            assert(rest@ =~= buf@.skip(((buf@[0] as int) % 16) * 4));
        }
        let tcp = match parse_tcp(rest) {
            Some(h) => h,
            None => {
                return (DatagramOutcome::NotTcp, Vec::new());
            },
        };
        let payload_slice = vstd::slice::slice_subrange(rest, tcp.header_len, rest.len());
        let payload = vstd::slice::slice_to_vec(payload_slice);
        let quad = Quad {
            src_ip: ip.src_ip,
            src_port: tcp.src_port,
            dst_ip: ip.dst_ip,
            dst_port: tcp.dst_port,
        };
        let seg = SegmentIn {
            seq: tcp.seq,
            ack: tcp.ack,
            wnd: tcp.wnd,
            syn: tcp.syn,
            fin: tcp.fin,
            has_ack: tcp.has_ack,
            payload,
        };
        proof {
            assert(datagram_is_tcp(buf@));
            assert(quad == datagram_quad(buf@));
            assert(seg.seq == datagram_seq(buf@));
            assert(seg.ack == datagram_ack(buf@));
            assert(seg.wnd == datagram_wnd(buf@));
            assert(seg.syn == datagram_syn(buf@));
            assert(seg.fin == datagram_fin(buf@));
            assert(seg.has_ack == datagram_has_ack(buf@));
            assert(seg.payload@ =~= datagram_payload(buf@));
        }
        self.dispatch(quad, &seg, now_ms)
    }

    /// Drives every connection's retransmission and send logic once,
    /// collecting whatever segments that produced.
    pub fn on_tick_all(&mut self, now_ms: u64) -> (segs: Vec<OutSegment>)
        requires
            old(self).wf(),
        ensures
            final(self).wf(),
            final(self).pending@ == old(self).pending@,
            final(self).connections@.len() == old(self).connections@.len(),
            forall|i: int|
                0 <= i < old(self).connections@.len() ==> final(self).connections@[i].0
                    == old(self).connections@[i].0,
            forall|i: int|
                0 <= i < old(self).connections@.len() ==> tick_update_rel(
                    old(self).connections@[i].1,
                    now_ms,
                    (#[trigger] final(self).connections@[i]).1,
                ),
            exists|parts: Seq<Seq<OutSegment>>|
                {
                    &&& parts.len() == old(self).connections@.len()
                    &&& forall|i: int|
                        0 <= i < parts.len() ==> tick_emit_rel(
                            old(self).connections@[i].1,
                            now_ms,
                            #[trigger] parts[i],
                        )
                    &&& segs@ == parts.flatten()
                },
    {
        let mut segs: Vec<OutSegment> = Vec::new();
        let n = self.connections.len();
        let mut i: usize = 0;
        let ghost mut parts = Seq::<Seq<OutSegment>>::empty();
        while i < n
            invariant
                self.wf(),
                self.pending@ == old(self).pending@,
                n == self.connections@.len(),
                self.connections@.len() == old(self).connections@.len(),
                0 <= i <= n,
                forall|j: int|
                    0 <= j < old(self).connections@.len() ==> (
                    #[trigger] self.connections@[j]).0 == old(self).connections@[j].0,
                forall|j: int|
                    i <= j < n ==> #[trigger] self.connections@[j] == old(
                        self,
                    ).connections@[j],
                forall|j: int|
                    0 <= j < i ==> tick_update_rel(
                        old(self).connections@[j].1,
                        now_ms,
                        (#[trigger] self.connections@[j]).1,
                    ),
                parts.len() == i,
                forall|j: int|
                    0 <= j < i ==> tick_emit_rel(
                        old(self).connections@[j].1,
                        now_ms,
                        #[trigger] parts[j],
                    ),
                segs@ == parts.flatten(),
            decreases n - i,
        {
            let ghost cs = self.connections@;
            let mut entry = self.connections.remove(i);
            proof {
                assert(entry.1.tx@.len() == 0);
            }
            entry.1.on_tick(now_ms);
            let ghost c_after = entry.1;
            let mut out = entry.1.tx.split_off(0);
            let ghost outv = out@;
            proof {
                assert(entry.1.tx@ =~= Seq::<OutSegment>::empty());
                assert(outv =~= c_after.tx@.skip(0));
                assert(tick_update_rel(old(self).connections@[i as int].1, now_ms, entry.1));
                assert(tick_emit_rel(old(self).connections@[i as int].1, now_ms, outv));
                parts.lemma_flatten_push(outv);
                parts = parts.push(outv);
            }
            segs.append(&mut out);
            self.connections.insert(i, entry);
            proof {
                assert(self.connections@ =~= cs.update(i as int, self.connections@[i as int]));
            }
            i += 1;
        }
        proof {
            assert(parts.len() == old(self).connections@.len() && (forall|j: int|
                0 <= j < parts.len() ==> tick_emit_rel(
                    old(self).connections@[j].1,
                    now_ms,
                    #[trigger] parts[j],
                )) && segs@ == parts.flatten());
        }
        segs
    }

    /// A consumer read: copies and drains up to `max` bytes from the
    /// head of the connection's received queue. `Ok(Some)` carries the
    /// bytes (empty means end of stream), `Ok(None)` tells the caller to
    /// block, and a vanished connection is an error.
    pub fn read_stream(&mut self, quad: Quad, max: usize) -> (r: Result<
        Option<Vec<u8>>,
        TcpError,
    >)
        requires
            old(self).wf(),
        ensures
            final(self).wf(),
            final(self).pending@ == old(self).pending@,
            find_quad(old(self).connections@, quad) is None ==> r == Err::<
                Option<Vec<u8>>,
                TcpError,
            >(TcpError::ConnectionAborted) && final(self).connections@ == old(
                self,
            ).connections@,
            find_quad(old(self).connections@, quad) matches Some(i) ==> ({
                let c = old(self).connections@[i].1;
                &&& final(self).connections@.len() == old(self).connections@.len()
                &&& forall|j: int|
                    0 <= j < old(self).connections@.len() && j != i
                        ==> final(self).connections@[j] == old(self).connections@[j]
                &&& final(self).connections@[i].0 == quad
                &&& (c.state is TimeWait && c.incoming@.len() == 0 ==> (r matches Ok(
                    Some(v),
                ) && v@ == Seq::<u8>::empty()) && conn_unchanged(
                    final(self).connections@[i].1,
                    c,
                ))
                &&& (c.incoming@.len() > 0 ==> ({
                    let n = if max as nat <= c.incoming@.len() {
                        max as nat
                    } else {
                        c.incoming@.len()
                    };
                    &&& (r matches Ok(Some(v)) && v@ == c.incoming@.take(n as int))
                    &&& final(self).connections@[i].1.incoming@ == c.incoming@.skip(n as int)
                    &&& final(self).connections@[i].1.state == c.state
                    &&& final(self).connections@[i].1.unacked@ == c.unacked@
                    &&& final(self).connections@[i].1.send == c.send
                    &&& final(self).connections@[i].1.recv == c.recv
                }))
                &&& (!(c.state is TimeWait) && c.incoming@.len() == 0 ==> r == Ok::<
                    Option<Vec<u8>>,
                    TcpError,
                >(None) && conn_unchanged(final(self).connections@[i].1, c))
            }),
    {
        let ghost c0 = self.connections@;
        match self.find_connection(quad) {
            None => Err(TcpError::ConnectionAborted),
            Some(i) => {
                let mut entry = self.connections.remove(i);
                let recv_closed = entry.1.is_recv_closed();
                let r: Result<Option<Vec<u8>>, TcpError> = if recv_closed
                    && entry.1.incoming.len() == 0 {
                    Ok(Some(Vec::new()))
                } else if entry.1.incoming.len() > 0 {
                    Ok(Some(entry.1.take_incoming(max)))
                } else {
                    Ok(None)
                };
                self.connections.insert(i, entry);
                proof {
                    assert(self.connections@ =~= c0.update(
                        i as int,
                        self.connections@[i as int],
                    ));
                }
                r
            },
        }
    }

    /// A producer write: buffers as much of `data` as the send queue has
    /// room for. A full queue would-blocks, a vanished connection is an
    /// error.
    pub fn write_stream(&mut self, quad: Quad, data: &[u8]) -> (r: Result<usize, TcpError>)
        requires
            old(self).wf(),
        ensures
            final(self).wf(),
            final(self).pending@ == old(self).pending@,
            find_quad(old(self).connections@, quad) is None ==> r == Err::<usize, TcpError>(
                TcpError::ConnectionAborted,
            ) && final(self).connections@ == old(self).connections@,
            find_quad(old(self).connections@, quad) matches Some(i) ==> ({
                let c = old(self).connections@[i].1;
                &&& final(self).connections@.len() == old(self).connections@.len()
                &&& forall|j: int|
                    0 <= j < old(self).connections@.len() && j != i
                        ==> final(self).connections@[j] == old(self).connections@[j]
                &&& final(self).connections@[i].0 == quad
                &&& (c.unacked@.len() >= SENDQUEUE_SIZE ==> r == Err::<usize, TcpError>(
                    TcpError::WouldBlock,
                ) && conn_unchanged(final(self).connections@[i].1, c))
                &&& (c.unacked@.len() < SENDQUEUE_SIZE ==> ({
                    let n = if data@.len() <= SENDQUEUE_SIZE - c.unacked@.len() {
                        data@.len()
                    } else {
                        (SENDQUEUE_SIZE - c.unacked@.len()) as nat
                    };
                    &&& r == Ok::<usize, TcpError>(n as usize)
                    &&& final(self).connections@[i].1.unacked@ == c.unacked@ + data@.take(
                        n as int,
                    )
                    &&& final(self).connections@[i].1.incoming@ == c.incoming@
                    &&& final(self).connections@[i].1.state == c.state
                    &&& final(self).connections@[i].1.send == c.send
                    &&& final(self).connections@[i].1.recv == c.recv
                }))
            }),
    {
        let ghost c0 = self.connections@;
        match self.find_connection(quad) {
            None => Err(TcpError::ConnectionAborted),
            Some(i) => {
                let mut entry = self.connections.remove(i);
                let r = entry.1.append_outgoing(data);
                self.connections.insert(i, entry);
                proof {
                    assert(self.connections@ =~= c0.update(
                        i as int,
                        self.connections@[i as int],
                    ));
                }
                r
            },
        }
    }

    /// A flush probe: succeeds once nothing is left unacknowledged,
    /// would-blocks otherwise.
    pub fn flush_stream(&mut self, quad: Quad) -> (r: Result<(), TcpError>)
        requires
            old(self).wf(),
        ensures
            final(self).wf(),
            *final(self) == *old(self),
            find_quad(old(self).connections@, quad) is None ==> r == Err::<(), TcpError>(
                TcpError::ConnectionAborted,
            ),
            find_quad(old(self).connections@, quad) matches Some(i) ==> r == (if old(
                self,
            ).connections@[i].1.unacked@.len() == 0 {
                Ok::<(), TcpError>(())
            } else {
                Err::<(), TcpError>(TcpError::WouldBlock)
            }),
    {
        match self.find_connection(quad) {
            None => Err(TcpError::ConnectionAborted),
            Some(i) => {
                if self.connections[i].1.unacked.len() == 0 {
                    Ok(())
                } else {
                    Err(TcpError::WouldBlock)
                }
            },
        }
    }

    /// Shutdown of the write side, as `close` defines it; a vanished
    /// connection is an error.
    pub fn shutdown_stream(&mut self, quad: Quad) -> (r: Result<(), TcpError>)
        requires
            old(self).wf(),
        ensures
            final(self).wf(),
            final(self).pending@ == old(self).pending@,
            find_quad(old(self).connections@, quad) is None ==> r == Err::<(), TcpError>(
                TcpError::ConnectionAborted,
            ) && final(self).connections@ == old(self).connections@,
            find_quad(old(self).connections@, quad) matches Some(i) ==> ({
                let c = old(self).connections@[i].1;
                &&& final(self).connections@.len() == old(self).connections@.len()
                &&& forall|j: int|
                    0 <= j < old(self).connections@.len() && j != i
                        ==> final(self).connections@[j] == old(self).connections@[j]
                &&& final(self).connections@[i].0 == quad
                &&& final(self).connections@[i].1.closed
                &&& final(self).connections@[i].1.state == (if c.state is SynRecvd
                    || c.state is Estab {
                    State::FinWait1
                } else {
                    c.state
                })
                &&& r == (if c.state is TimeWait {
                    Err::<(), TcpError>(TcpError::NotConnected)
                } else {
                    Ok::<(), TcpError>(())
                })
                &&& final(self).connections@[i].1.incoming@ == c.incoming@
                &&& final(self).connections@[i].1.unacked@ == c.unacked@
                &&& final(self).connections@[i].1.send == c.send
                &&& final(self).connections@[i].1.recv == c.recv
                &&& final(self).connections@[i].1.closed_at == c.closed_at
            }),
    {
        let ghost c0 = self.connections@;
        match self.find_connection(quad) {
            None => Err(TcpError::ConnectionAborted),
            Some(i) => {
                let mut entry = self.connections.remove(i);
                let r = entry.1.close();
                self.connections.insert(i, entry);
                proof {
                    assert(self.connections@ =~= c0.update(
                        i as int,
                        self.connections@[i as int],
                    ));
                }
                r
            },
        }
    }
}

/// When some entry holds `p`, `find_port` is `Some`.
proof fn lemma_find_port_first(s: Seq<(u16, Vec<Quad>)>, p: u16, j: int)
    requires
        0 <= j < s.len(),
        s[j].0 == p,
    ensures
        find_port(s, p) is Some,
    decreases j,
{
    if s[0].0 == p {
    } else {
        lemma_find_port_first(s.drop_first(), p, j - 1);
    }
}

/// When some entry holds `q`, `find_quad` is `Some`.
proof fn lemma_find_quad_first(s: Seq<(Quad, Connection)>, q: Quad, j: int)
    requires
        0 <= j < s.len(),
        s[j].0 == q,
    ensures
        find_quad(s, q) is Some,
    decreases j,
{
    if s[0].0 == q {
    } else {
        lemma_find_quad_first(s.drop_first(), q, j - 1);
    }
}

} // verus!
