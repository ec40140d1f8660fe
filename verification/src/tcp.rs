//! The per-connection state machine (TCB): sequence spaces, segment
//! acceptability, ACK processing, in-order payload delivery, FIN handling
//! and retransmission timing.
use vstd::prelude::*;

use crate::codec::encode_segment;
use crate::codec::wire_of;
use crate::wrap::seq_add;
use crate::wrap::seq_sub;
use crate::wrap::spec_between;
use crate::wrap::spec_wrapping_lt;
use crate::wrap::Wrap;

verus! {

/// Our advertised receive window, fixed at passive open.
pub const RECV_WINDOW: u16 = 1024;

/// Cap on the outbound byte queue; a full queue makes the stream-facing
/// write would-block.
pub const SENDQUEUE_SIZE: usize = 1024;

/// Most payload bytes that fit in one segment under the tunnel MTU
/// (1504 bytes less 20 bytes of IPv4 header and 20 of TCP header).
pub const MAX_SEGMENT_PAYLOAD: usize = 1464;

/// Smoothed round-trip time a connection starts with, in milliseconds.
pub const INITIAL_SRTT_MS: u64 = 60_000;

/// Time-to-live carried by every emitted IPv4 header.
pub const SEND_TTL: u8 = 64;

/// TCP connection states reached by a passive open.
#[derive(Clone, Copy, Debug, PartialEq, Eq, Structural)]
pub enum State {
    SynRecvd,
    Estab,
    FinWait1,
    FinWait2,
    TimeWait,
}

impl State {
    /// A state is synchronized once the handshake has completed.
    pub fn is_synchronized(&self) -> (r: bool)
        ensures
            r == !(*self is SynRecvd),
    {
        match *self {
            State::SynRecvd => false,
            _ => true,
        }
    }
}

/// The 4-tuple identifying a flow, addresses as big-endian integers.
#[derive(Clone, Copy, Debug, PartialEq, Eq, Hash, Structural)]
pub struct Quad {
    pub src_ip: u32,
    pub src_port: u16,
    pub dst_ip: u32,
    pub dst_port: u16,
}

/// Send Sequence Space (RFC 793 S3.2 F4).
#[derive(Clone, Copy, Debug, PartialEq, Eq, Structural)]
pub struct SendSequenceSpace {
    /// Send unacknowledged.
    pub una: u32,
    /// Send next.
    pub nxt: u32,
    /// Send window: the peer's advertised receive window.
    pub wnd: u16,
    /// Send urgent pointer (unused).
    pub up: bool,
    /// Segment sequence number used for the last window update (unused).
    pub wl1: u32,
    /// Segment acknowledgment number used for the last window update (unused).
    pub wl2: u32,
    /// Initial sequence number.
    pub iss: u32,
}

/// Receive Sequence Space (RFC 793 S3.2 F5).
#[derive(Clone, Copy, Debug, PartialEq, Eq, Structural)]
pub struct ReceiveSequenceSpace {
    /// Receive next.
    pub nxt: u32,
    /// Receive window: our advertised window.
    pub wnd: u16,
    /// Receive urgent pointer (unused).
    pub up: bool,
    /// Initial receive sequence number: the peer's ISN.
    pub irs: u32,
}

/// Retransmission timing state.
#[derive(Clone, Debug)]
pub struct Timers {
    /// For each transmitted sequence number, the clock reading (in
    /// milliseconds) of its last transmission, sorted by sequence number.
    pub send_times: Vec<(u32, u64)>,
    /// Smoothed round-trip time in milliseconds.
    pub srtt_ms: u64,
}

impl Default for Timers {
    fn default() -> (r: Timers)
        ensures
            r.send_times@ == Seq::<(u32, u64)>::empty(),
            r.srtt_ms == INITIAL_SRTT_MS,
    {
        Timers { send_times: Vec::new(), srtt_ms: INITIAL_SRTT_MS }
    }
}

/// What a consumer blocked on this connection may now do.
#[derive(Clone, Copy, Debug, PartialEq, Eq, Structural)]
pub struct Available {
    /// Reading can make progress: data queued, or no more will come.
    pub read: bool,
    /// Writing can make progress (currently never signalled).
    pub write: bool,
    /// The outbound queue is empty, so a flush would succeed.
    pub flush: bool,
}

/// An inbound segment, already parsed to plain header fields.
#[derive(Clone, Debug)]
pub struct SegmentIn {
    pub seq: u32,
    /// Acknowledgment number; meaningful only when `has_ack` is set.
    pub ack: u32,
    /// The peer's advertised window.
    pub wnd: u16,
    pub syn: bool,
    pub fin: bool,
    /// Whether the ACK control bit is set.
    pub has_ack: bool,
    pub payload: Vec<u8>,
}

/// An outbound segment assembled by the state machine: its header fields,
/// payload, and the finished wire bytes to hand to the tunnel.
#[derive(Clone, Debug)]
pub struct OutSegment {
    pub src_ip: u32,
    pub src_port: u16,
    pub dst_ip: u32,
    pub dst_port: u16,
    pub seq: u32,
    pub ack: u32,
    pub wnd: u16,
    pub syn: bool,
    pub fin: bool,
    pub payload: Vec<u8>,
    pub wire: Vec<u8>,
}

/// Errors surfaced by the stream-facing operations.
#[derive(Clone, Copy, Debug, PartialEq, Eq, Structural)]
pub enum TcpError {
    /// The operation cannot make progress now; retry once signalled.
    WouldBlock,
    /// The connection is already closing.
    NotConnected,
    /// The connection disappeared under the stream.
    ConnectionAborted,
    /// The port already has a listener.
    AddrInUse,
}

/// The transmission control block of one connection.
#[derive(Clone, Debug)]
pub struct Connection {
    /// Current state of the state machine.
    pub state: State,
    /// The flow's 4-tuple as seen on inbound segments; outbound segments
    /// swap its two ends.
    pub quad: Quad,
    pub send: SendSequenceSpace,
    pub recv: ReceiveSequenceSpace,
    pub timers: Timers,
    /// In-order received payload bytes awaiting the consumer.
    pub incoming: Vec<u8>,
    /// Outbound bytes not yet acknowledged, spanning sequence numbers
    /// `[SND.UNA + handshake adjustment, ...)`.
    pub unacked: Vec<u8>,
    /// The producer has requested shutdown of the write side.
    pub closed: bool,
    /// The sequence number assigned to our FIN, once assigned.
    pub closed_at: Option<u32>,
    /// Segments assembled but not yet handed to the tunnel; the driver
    /// drains this after every call.
    pub tx: Vec<OutSegment>,
}

/// The send-times list is strictly sorted by sequence number, as an
/// ordered map would keep it.
pub open spec fn times_sorted(ts: Seq<(u32, u64)>) -> bool {
    forall|i: int, j: int| 0 <= i < j < ts.len() ==> (#[trigger] ts[i]).0 < (#[trigger] ts[j]).0
}

impl Connection {
    /// One sequence number is consumed by our SYN until it is acknowledged.
    pub open spec fn syn_credit(&self) -> nat {
        if self.send.una == self.send.iss {
            1
        } else {
            0
        }
    }

    /// One sequence number is consumed by our FIN once it has been
    /// assigned a place in the stream.
    pub open spec fn fin_credit(&self) -> nat {
        if self.closed_at is Some {
            1
        } else {
            0
        }
    }

    /// Well-formedness, preserved by every operation: the send queue is
    /// bounded, `SND.NXT` stays within one SYN and one FIN of
    /// `SND.UNA + |unacked|` wrap-wise, the retransmission map is sorted,
    /// and the closing states imply the close bookkeeping.
    pub open spec fn wf(&self) -> bool {
        &&& self.unacked@.len() <= SENDQUEUE_SIZE
        &&& seq_sub(self.send.nxt, self.send.una) as nat <= self.unacked@.len()
            + self.syn_credit() + self.fin_credit()
        &&& times_sorted(self.timers.send_times@)
        &&& ((self.state is FinWait1 || self.state is FinWait2 || self.state is TimeWait)
            ==> self.closed)
        &&& ((self.state is FinWait2 || self.state is TimeWait) ==> self.closed_at is Some)
    }

    /// What waits should be signalled, given the current state.
    pub open spec fn spec_availability(&self) -> Available {
        Available {
            read: self.state is TimeWait || self.incoming@.len() > 0,
            write: false,
            flush: self.unacked@.len() == 0,
        }
    }

    /// Reports which consumer waits can now make progress: READ when data
    /// is queued or no more will come, FLUSH when nothing is left
    /// unacknowledged.
    pub fn availability(&self) -> (a: Available)
        ensures
            a == self.spec_availability(),
    {
        let read = self.is_recv_closed() || !self.incoming.is_empty();
        let flush = self.unacked.is_empty();
        Available { read, write: false, flush }
    }

    /// No more data will arrive once the peer's FIN has been processed.
    pub fn is_recv_closed(&self) -> (r: bool)
        ensures
            r == (self.state is TimeWait),
    {
        match self.state {
            State::TimeWait => true,
            _ => false,
        }
    }

    /// Requests shutdown of the write side: the handshake states move to
    /// `FinWait1`; an already-closing connection is left as it is, which
    /// is an error once the peer's side is also done.
    pub fn close(&mut self) -> (r: Result<(), TcpError>)
        requires
            old(self).wf(),
        ensures
            final(self).wf(),
            final(self).closed,
            final(self).state == (if old(self).state is SynRecvd || old(self).state is Estab {
                State::FinWait1
            } else {
                old(self).state
            }),
            r == (if old(self).state is TimeWait {
                Err::<(), TcpError>(TcpError::NotConnected)
            } else {
                Ok::<(), TcpError>(())
            }),
            final(self).quad == old(self).quad,
            final(self).send == old(self).send,
            final(self).recv == old(self).recv,
            final(self).timers.send_times@ == old(self).timers.send_times@,
            final(self).timers.srtt_ms == old(self).timers.srtt_ms,
            final(self).incoming@ == old(self).incoming@,
            final(self).unacked@ == old(self).unacked@,
            final(self).closed_at == old(self).closed_at,
            final(self).tx@ == old(self).tx@,
    {
        self.closed = true;
        match self.state {
            State::SynRecvd | State::Estab => {
                self.state = State::FinWait1;
                Ok(())
            },
            State::FinWait1 | State::FinWait2 => Ok(()),
            State::TimeWait => Err(TcpError::NotConnected),
        }
    }

    /// Buffers bytes for transmission. A full queue would-blocks; a queue
    /// with room takes as many bytes as fit under `SENDQUEUE_SIZE` and
    /// reports how many it took.
    pub fn append_outgoing(&mut self, data: &[u8]) -> (r: Result<usize, TcpError>)
        requires
            old(self).wf(),
        ensures
            final(self).wf(),
            old(self).unacked@.len() >= SENDQUEUE_SIZE ==> {
                &&& r == Err::<usize, TcpError>(TcpError::WouldBlock)
                &&& final(self).unacked@ == old(self).unacked@
            },
            old(self).unacked@.len() < SENDQUEUE_SIZE ==> {
                let n = if data@.len() <= SENDQUEUE_SIZE - old(self).unacked@.len() {
                    data@.len()
                } else {
                    (SENDQUEUE_SIZE - old(self).unacked@.len()) as nat
                };
                &&& r == Ok::<usize, TcpError>(n as usize)
                &&& final(self).unacked@ == old(self).unacked@ + data@.take(n as int)
            },
            final(self).state == old(self).state,
            final(self).quad == old(self).quad,
            final(self).send == old(self).send,
            final(self).recv == old(self).recv,
            final(self).timers.send_times@ == old(self).timers.send_times@,
            final(self).timers.srtt_ms == old(self).timers.srtt_ms,
            final(self).incoming@ == old(self).incoming@,
            final(self).closed == old(self).closed,
            final(self).closed_at == old(self).closed_at,
            final(self).tx@ == old(self).tx@,
    {
        if self.unacked.len() >= SENDQUEUE_SIZE {
            return Err(TcpError::WouldBlock);
        }
        let room = SENDQUEUE_SIZE - self.unacked.len();
        let n = if data.len() <= room {
            data.len()
        } else {
            room
        };
        let chunk = vstd::slice::slice_subrange(data, 0, n);
        self.unacked.extend_from_slice(chunk);
        proof {
            assert(self.unacked@ == old(self).unacked@ + data@.take(n as int));
        }
        Ok(n)
    }

    /// Hands the consumer up to `max` bytes from the head of the received
    /// byte queue, in order, removing them from the queue.
    pub fn take_incoming(&mut self, max: usize) -> (r: Vec<u8>)
        requires
            old(self).wf(),
        ensures
            final(self).wf(),
            ({
                let n = if max as nat <= old(self).incoming@.len() {
                    max as nat
                } else {
                    old(self).incoming@.len()
                };
                &&& r@ == old(self).incoming@.take(n as int)
                &&& final(self).incoming@ == old(self).incoming@.skip(n as int)
            }),
            final(self).state == old(self).state,
            final(self).quad == old(self).quad,
            final(self).send == old(self).send,
            final(self).recv == old(self).recv,
            final(self).timers.send_times@ == old(self).timers.send_times@,
            final(self).timers.srtt_ms == old(self).timers.srtt_ms,
            final(self).unacked@ == old(self).unacked@,
            final(self).closed == old(self).closed,
            final(self).closed_at == old(self).closed_at,
            final(self).tx@ == old(self).tx@,
    {
        let n = if max <= self.incoming.len() {
            max
        } else {
            self.incoming.len()
        };
        let mut head: Vec<u8> = Vec::new();
        let mut i: usize = 0;
        while i < n
            invariant
                i <= n,
                n <= self.incoming@.len(),
                self.incoming@ == old(self).incoming@,
                head@ == old(self).incoming@.take(i as int),
            decreases n - i,
        {
            let b = self.incoming[i];
            head.push(b);
            i += 1;
        }
        let rest = self.incoming.split_off(n);
        self.incoming = rest;
        head
    }
}

/// The send-times list after recording a transmission of `key` at `val`,
/// keeping the list sorted and replacing any entry already present for
/// `key`.
pub open spec fn times_insert(ts: Seq<(u32, u64)>, key: u32, val: u64) -> Seq<(u32, u64)>
    decreases ts.len(),
{
    if ts.len() == 0 {
        seq![(key, val)]
    } else if ts[0].0 < key {
        seq![ts[0]] + times_insert(ts.drop_first(), key, val)
    } else if ts[0].0 == key {
        seq![(key, val)] + ts.drop_first()
    } else {
        seq![(key, val)] + ts
    }
}

/// Where `times_insert` puts the new entry: at the index `i` that splits
/// the list into keys below `key` and keys at or above it.
proof fn lemma_times_insert_char(ts: Seq<(u32, u64)>, key: u32, val: u64, i: int)
    requires
        0 <= i <= ts.len(),
        forall|j: int| 0 <= j < i ==> (#[trigger] ts[j]).0 < key,
        i < ts.len() ==> ts[i].0 >= key,
    ensures
        times_insert(ts, key, val) == (if i < ts.len() && ts[i].0 == key {
            ts.take(i).push((key, val)) + ts.skip(i + 1)
        } else {
            ts.take(i).push((key, val)) + ts.skip(i)
        }),
    decreases i,
{
    if i == 0 {
        if ts.len() == 0 {
            assert(times_insert(ts, key, val) =~= ts.take(0).push((key, val)) + ts.skip(0));
        } else if ts[0].0 == key {
            assert(times_insert(ts, key, val) =~= ts.take(0).push((key, val)) + ts.skip(1));
        } else {
            assert(ts[0].0 > key);
            assert(times_insert(ts, key, val) =~= ts.take(0).push((key, val)) + ts.skip(0));
        }
    } else {
        let rest = ts.drop_first();
        assert(forall|j: int| 0 <= j < i - 1 ==> (#[trigger] rest[j]).0 < key);
        lemma_times_insert_char(rest, key, val, i - 1);
        if i < ts.len() && ts[i].0 == key {
            assert(rest[i - 1].0 == key);
            assert(times_insert(ts, key, val) =~= ts.take(i).push((key, val)) + ts.skip(i + 1))
                by {
                assert(rest.take(i - 1) =~= ts.skip(1).take(i - 1));
                assert(seq![ts[0]] + (rest.take(i - 1).push((key, val)) + rest.skip(i))
                    =~= ts.take(i).push((key, val)) + ts.skip(i + 1));
            }
        } else {
            assert(times_insert(ts, key, val) =~= ts.take(i).push((key, val)) + ts.skip(i)) by {
                assert(seq![ts[0]] + (rest.take(i - 1).push((key, val)) + rest.skip(i - 1))
                    =~= ts.take(i).push((key, val)) + ts.skip(i));
            }
        }
    }
}

/// Records that sequence `key` was (re)transmitted at time `val`.
fn times_put(times: &mut Vec<(u32, u64)>, key: u32, val: u64)
    requires
        times_sorted(old(times)@),
    ensures
        final(times)@ == times_insert(old(times)@, key, val),
        times_sorted(final(times)@),
{
    let ghost ts = times@;
    let n = times.len();
    let mut i: usize = 0;
    while i < n && times[i].0 < key
        invariant
            times@ == ts,
            n == ts.len(),
            0 <= i <= n,
            forall|j: int| 0 <= j < i ==> (#[trigger] ts[j]).0 < key,
        decreases n - i,
    {
        i += 1;
    }
    proof {
        lemma_times_insert_char(ts, key, val, i as int);
    }
    let mut out: Vec<(u32, u64)> = Vec::new();
    let mut a: usize = 0;
    while a < i
        invariant
            times@ == ts,
            n == ts.len(),
            0 <= a <= i <= n,
            out@ == ts.take(a as int),
        decreases i - a,
    {
        let e = times[a];
        out.push(e);
        a += 1;
    }
    out.push((key, val));
    let mut b: usize = if i < n && times[i].0 == key {
        i + 1
    } else {
        i
    };
    let ghost b0 = b as int;
    while b < n
        invariant
            times@ == ts,
            n == ts.len(),
            0 <= i as int <= b0 <= b as int <= n,
            out@ == ts.take(i as int).push((key, val)) + ts.subrange(b0, b as int),
        decreases n - b,
    {
        let e = times[b];
        out.push(e);
        proof {
            assert(ts.subrange(b0, b as int + 1) =~= ts.subrange(b0, b as int).push(
                ts[b as int]));
        }
        b += 1;
    }
    proof {
        assert(ts.subrange(b0, n as int) =~= ts.skip(b0));
        assert(out@ =~= ts.take(i as int).push((key, val)) + ts.skip(b0));
        if times_sorted(ts) {
            assert forall|p: int, q: int| 0 <= p < q < out@.len() implies
                (#[trigger] out@[p]).0 < (#[trigger] out@[q]).0 by {
                let k = i as int;
                if q < k {
                    assert(out@[p] == ts[p] && out@[q] == ts[q]);
                } else if q == k {
                    assert(out@[p] == ts[p] && ts[p].0 < key);
                } else {
                    assert(out@[q] == ts[q - k - 1 + b0]);
                    assert(b0 <= q - k - 1 + b0 < ts.len());
                    if b0 > i as int {
                        assert(ts[i as int].0 == key);
                        assert(ts[q - k - 1 + b0].0 > key);
                    } else {
                        assert(ts[q - k - 1 + b0].0 >= ts[i as int].0 >= key);
                        assert(ts[q - k - 1 + b0].0 > key || (q - k - 1 + b0 == i as int
                            && ts[i as int].0 > key));
                    }
                    if p < k {
                        assert(out@[p] == ts[p] && ts[p].0 < key);
                    } else if p == k {
                        assert(out@[p].0 == key);
                    } else {
                        assert(out@[p] == ts[p - k - 1 + b0]);
                    }
                }
            }
        }
    }
    *times = out;
}

/// The oldest recorded transmission at or past `una`: the retransmission
/// candidate.
pub open spec fn spec_times_oldest(ts: Seq<(u32, u64)>, una: u32) -> Option<(u32, u64)>
    decreases ts.len(),
{
    if ts.len() == 0 {
        None
    } else if ts[0].0 >= una {
        Some(ts[0])
    } else {
        spec_times_oldest(ts.drop_first(), una)
    }
}

/// Finds the oldest recorded transmission at or past `una`.
fn times_oldest(times: &Vec<(u32, u64)>, una: u32) -> (r: Option<(u32, u64)>)
    ensures
        r == spec_times_oldest(times@, una),
{
    let ghost ts = times@;
    proof {
        assert(ts.skip(0) =~= ts);
    }
    let n = times.len();
    let mut i: usize = 0;
    while i < n && times[i].0 < una
        invariant
            times@ == ts,
            n == ts.len(),
            0 <= i <= n,
            spec_times_oldest(ts, una) == spec_times_oldest(ts.skip(i as int), una),
        decreases n - i,
    {
        proof {
            assert(ts.skip(i as int).drop_first() =~= ts.skip(i as int + 1));
        }
        i += 1;
    }
    if i < n {
        proof {
            assert(ts.skip(i as int)[0] == ts[i as int]);
        }
        Some(times[i])
    } else {
        proof {
            assert(ts.skip(i as int).len() == 0);
        }
        None
    }
}

/// One exponential-smoothing step of the round-trip estimate:
/// `srtt <- 0.8 srtt + 0.2 sample`, in integer milliseconds.
pub open spec fn srtt_roll(srtt: u64, sample: u64) -> u64 {
    ((4 * srtt + sample) / 5) as u64
}

/// A round-trip sample: how long ago `sent` was, by the clock `now`.
pub open spec fn sample_ms(now: u64, sent: u64) -> u64 {
    if now >= sent {
        (now - sent) as u64
    } else {
        0
    }
}

/// The smoothed round-trip time after folding in, oldest first, one
/// sample for every recorded transmission wrap-wise inside `(una, ackn)`.
pub open spec fn times_srtt_after(
    ts: Seq<(u32, u64)>,
    una: u32,
    ackn: u32,
    now: u64,
    srtt: u64,
) -> u64
    decreases ts.len(),
{
    if ts.len() == 0 {
        srtt
    } else {
        let prev = times_srtt_after(ts.drop_last(), una, ackn, now, srtt);
        if spec_between(ts.last().0, una, ackn) {
            srtt_roll(prev, sample_ms(now, ts.last().1))
        } else {
            prev
        }
    }
}

/// The send-times entries that survive an acknowledgment: those not
/// wrap-wise inside `(una, ackn)`, in their old order.
pub open spec fn times_retain(ts: Seq<(u32, u64)>, una: u32, ackn: u32) -> Seq<(u32, u64)>
    decreases ts.len(),
{
    if ts.len() == 0 {
        ts
    } else {
        let rest = times_retain(ts.drop_last(), una, ackn);
        if spec_between(ts.last().0, una, ackn) {
            rest
        } else {
            rest.push(ts.last())
        }
    }
}

/// Removes every recorded transmission acknowledged by `ackn` and folds
/// its round-trip sample into the smoothed estimate, oldest first.
fn times_ack_update(times: &mut Vec<(u32, u64)>, srtt: &mut u64, una: u32, ackn: u32, now: u64)
    requires
        times_sorted(old(times)@),
    ensures
        final(times)@ == times_retain(old(times)@, una, ackn),
        times_sorted(final(times)@),
        *final(srtt) == times_srtt_after(old(times)@, una, ackn, now, *old(srtt)),
{
    let ghost ts = times@;
    let ghost srtt0 = *srtt;
    let n = times.len();
    let mut out: Vec<(u32, u64)> = Vec::new();
    let mut i: usize = 0;
    while i < n
        invariant
            times@ == ts,
            n == ts.len(),
            0 <= i <= n,
            times_sorted(ts),
            out@ == times_retain(ts.take(i as int), una, ackn),
            *srtt == times_srtt_after(ts.take(i as int), una, ackn, now, srtt0),
            times_sorted(out@),
            out@.len() > 0 && i > 0 ==> out@.last().0 <= ts[i as int - 1].0,
        decreases n - i,
    {
        let e = times[i];
        let ghost pre = ts.take(i as int);
        proof {
            assert(ts.take(i as int + 1).drop_last() =~= pre);
            assert(ts.take(i as int + 1).last() == ts[i as int]);
            if !spec_between(ts[i as int].0, una, ackn) {
                assert(times_retain(ts.take(i as int + 1), una, ackn) == times_retain(pre,
                    una, ackn).push(ts[i as int]));
            } else {
                assert(times_retain(ts.take(i as int + 1), una, ackn) == times_retain(pre,
                    una, ackn));
            }
        }
        if e.0.is_between_wrapped(una, ackn) {
            let sample = now.saturating_sub(e.1);
            let next = ((4u128 * (*srtt as u128) + (sample as u128)) / 5u128) as u64;
            proof {
                assert(4u128 * (*srtt as u128) + (sample as u128) == (4 * (*srtt as int)
                    + sample as int)) by (nonlinear_arith);
                assert((4 * (*srtt as int) + sample as int) / 5 <= u64::MAX) by (nonlinear_arith)
                    requires *srtt <= u64::MAX && sample <= u64::MAX;
                assert(next == srtt_roll(*srtt, sample));
            }
            *srtt = next;
        } else {
            out.push(e);
        }
        i += 1;
    }
    proof {
        assert(ts.take(n as int) =~= ts);
    }
    *times = out;
}

/// How far into the queue a segment starting at `seq` draws its payload:
/// `seq - SND.UNA`, clamped to the queue.
pub open spec fn payload_off_core(una: u32, unacked: Seq<u8>, seq: u32) -> nat {
    let off = seq_sub(seq, una) as nat;
    if off <= unacked.len() {
        off
    } else {
        unacked.len()
    }
}

/// How many payload bytes a segment starting at `seq` carries: none for
/// the pure FIN retransmit one past `closed_at`, otherwise up to `limit`
/// bytes of what the queue holds past the offset, clamped to the MTU.
pub open spec fn payload_len_core(
    una: u32,
    closed_at: Option<u32>,
    unacked: Seq<u8>,
    seq: u32,
    limit: nat,
) -> nat {
    if closed_at matches Some(x) && seq == seq_add(x, 1) {
        0
    } else {
        let avail = (unacked.len() - payload_off_core(una, unacked, seq)) as nat;
        let lim = if limit <= avail {
            limit
        } else {
            avail
        };
        if lim <= MAX_SEGMENT_PAYLOAD as nat {
            lim
        } else {
            MAX_SEGMENT_PAYLOAD as nat
        }
    }
}

/// The payload bytes a segment starting at `seq` carries.
pub open spec fn payload_core(
    una: u32,
    closed_at: Option<u32>,
    unacked: Seq<u8>,
    seq: u32,
    limit: nat,
) -> Seq<u8> {
    let off = payload_off_core(una, unacked, seq);
    unacked.subrange(off as int, off as int + payload_len_core(
        una,
        closed_at,
        unacked,
        seq,
        limit,
    ) as int)
}

/// `payload_off_core` read off a connection.
pub open spec fn write_payload_off(c: Connection, seq: u32) -> nat {
    payload_off_core(c.send.una, c.unacked@, seq)
}

/// `payload_len_core` read off a connection.
pub open spec fn write_payload_len(c: Connection, seq: u32, limit: nat) -> nat {
    payload_len_core(c.send.una, c.closed_at, c.unacked@, seq, limit)
}

/// `payload_core` read off a connection.
pub open spec fn write_payload(c: Connection, seq: u32, limit: nat) -> Seq<u8> {
    payload_core(c.send.una, c.closed_at, c.unacked@, seq, limit)
}

/// The calls of `write` that keep the connection well-formed: flags only
/// when their sequence-space credit is there, and a starting point either
/// inside the queue or at `SND.NXT` with wrap-room for the flags.
pub open spec fn write_keeps_wf(c: Connection, seq: u32, syn: bool, fin: bool) -> bool {
    &&& (syn ==> c.send.una == c.send.iss)
    &&& (fin ==> c.closed_at is Some)
    &&& (seq_sub(seq, c.send.una) as nat <= c.unacked@.len() || (seq == c.send.nxt && seq_sub(
        c.send.nxt,
        c.send.una,
    ) as nat + (if syn {
        1nat
    } else {
        0nat
    }) + (if fin {
        1nat
    } else {
        0nat
    }) <= c.unacked@.len() + c.syn_credit() + c.fin_credit()))
}

impl Connection {
    /// Assembles and queues one segment starting at sequence `seq`,
    /// drawing at most `limit` payload bytes from the unacknowledged
    /// queue at offset `seq - SND.UNA` (none for the pure FIN retransmit
    /// one past `closed_at`), clamped to the tunnel MTU. `SND.NXT`
    /// advances wrap-wise past the payload and any SYN or FIN consumed,
    /// and the transmission time of `seq` is recorded. Returns how many
    /// payload bytes the segment carries.
    #[verifier::rlimit(100)]
    #[verifier::spinoff_prover]
    pub fn write(&mut self, seq: u32, limit: usize, syn: bool, fin: bool, now_ms: u64) -> (r:
        usize)
        requires
            old(self).wf(),
        ensures
            write_keeps_wf(*old(self), seq, syn, fin) ==> final(self).wf(),
            r as nat == write_payload_len(*old(self), seq, limit as nat),
            final(self).send.nxt == ({
                let adv = write_payload_len(*old(self), seq, limit as nat) + (if syn {
                    1nat
                } else {
                    0nat
                }) + (if fin {
                    1nat
                } else {
                    0nat
                });
                let nseq = seq_add(seq, adv as u32);
                if spec_wrapping_lt(old(self).send.nxt, nseq) {
                    nseq
                } else {
                    old(self).send.nxt
                }
            }),
            final(self).timers.send_times@ == times_insert(
                old(self).timers.send_times@,
                seq,
                now_ms,
            ),
            final(self).tx@.len() == old(self).tx@.len() + 1,
            forall|i: int| 0 <= i < old(self).tx@.len() ==> final(self).tx@[i] == old(
                self,
            ).tx@[i],
            ({
                let o = final(self).tx@.last();
                let pay = write_payload(*old(self), seq, limit as nat);
                &&& o.src_ip == old(self).quad.dst_ip
                &&& o.src_port == old(self).quad.dst_port
                &&& o.dst_ip == old(self).quad.src_ip
                &&& o.dst_port == old(self).quad.src_port
                &&& o.seq == seq
                &&& o.ack == old(self).recv.nxt
                &&& o.wnd == old(self).recv.wnd
                &&& o.syn == syn
                &&& o.fin == fin
                &&& o.payload@ == pay
                &&& o.wire@.len() == 40 + pay.len()
                &&& o.wire@ == wire_of(
                    old(self).quad.dst_ip,
                    old(self).quad.src_ip,
                    old(self).quad.dst_port,
                    old(self).quad.src_port,
                    seq,
                    old(self).recv.nxt,
                    old(self).recv.wnd,
                    syn,
                    fin,
                    SEND_TTL,
                    pay,
                )
            }),
            final(self).state == old(self).state,
            final(self).quad == old(self).quad,
            final(self).recv == old(self).recv,
            final(self).send.una == old(self).send.una,
            final(self).send.iss == old(self).send.iss,
            final(self).send.wnd == old(self).send.wnd,
            final(self).send.up == old(self).send.up,
            final(self).send.wl1 == old(self).send.wl1,
            final(self).send.wl2 == old(self).send.wl2,
            final(self).timers.srtt_ms == old(self).timers.srtt_ms,
            final(self).incoming@ == old(self).incoming@,
            final(self).unacked@ == old(self).unacked@,
            final(self).closed == old(self).closed,
            final(self).closed_at == old(self).closed_at,
    {
        let ghost c0 = *old(self);
        let len = self.unacked.len();
        let off0_w = seq.wrapping_sub(self.send.una);
        let off0 = off0_w as usize;
        let special = match self.closed_at {
            Some(c) => seq == c.wrapping_add(1),
            None => false,
        };
        let off = if off0 <= len {
            off0
        } else {
            len
        };
        let plen: usize = if special {
            0
        } else {
            let avail = len - off;
            let l1 = if limit <= avail {
                limit
            } else {
                avail
            };
            if l1 <= MAX_SEGMENT_PAYLOAD {
                l1
            } else {
                MAX_SEGMENT_PAYLOAD
            }
        };
        proof {
            assert(off as nat == write_payload_off(c0, seq));
            assert(plen as nat == write_payload_len(c0, seq, limit as nat));
        }
        let mut payload: Vec<u8> = Vec::new();
        let mut k: usize = 0;
        while k < plen
            invariant
                0 <= k <= plen,
                off <= SENDQUEUE_SIZE,
                plen <= MAX_SEGMENT_PAYLOAD,
                off + plen <= self.unacked@.len(),
                payload@ == self.unacked@.subrange(off as int, off as int + k as int),
                *self == *old(self),
            decreases plen - k,
        {
            let b = self.unacked[off + k];
            payload.push(b);
            proof {
                assert(self.unacked@.subrange(off as int, off as int + k as int + 1)
                    =~= self.unacked@.subrange(off as int, off as int + k as int).push(
                    self.unacked@[off as int + k as int]));
            }
            k += 1;
        }
        let wire = encode_segment(
            self.quad.dst_ip,
            self.quad.src_ip,
            self.quad.dst_port,
            self.quad.src_port,
            seq,
            self.recv.nxt,
            self.recv.wnd,
            syn,
            fin,
            SEND_TTL,
            (20 + plen) as u16,
            &payload,
        );
        let seg = OutSegment {
            src_ip: self.quad.dst_ip,
            src_port: self.quad.dst_port,
            dst_ip: self.quad.src_ip,
            dst_port: self.quad.src_port,
            seq,
            ack: self.recv.nxt,
            wnd: self.recv.wnd,
            syn,
            fin,
            payload,
            wire,
        };
        self.tx.push(seg);
        let mut next_seq = seq.wrapping_add(plen as u32);
        if syn {
            next_seq = next_seq.wrapping_add(1);
        }
        if fin {
            next_seq = next_seq.wrapping_add(1);
        }
        proof {
            let adv = (plen as nat + (if syn {
                1nat
            } else {
                0nat
            }) + (if fin {
                1nat
            } else {
                0nat
            }));
            assert(next_seq == seq_add(seq, adv as u32));
        }
        if self.send.nxt.wrapping_lt(next_seq) {
            self.send.nxt = next_seq;
        }
        times_put(&mut self.timers.send_times, seq, now_ms);
        proof {
            if write_keeps_wf(c0, seq, syn, fin) {
                let una = c0.send.una;
                let s = if syn {
                    1nat
                } else {
                    0nat
                };
                let f = if fin {
                    1nat
                } else {
                    0nat
                };
                let adv = plen as nat + s + f;
                if seq_sub(seq, una) as nat <= c0.unacked@.len() {
                    assert(seq_sub(seq, una) as nat + adv <= c0.unacked@.len() + 2);
                    crate::wrap::lemma_sub_after_add(seq, una, adv as u32);
                    crate::wrap::lemma_wrapping_lt_numeric(c0.send.nxt, next_seq, una);
                } else {
                    assert(seq == c0.send.nxt);
                    assert(plen == 0);
                    crate::wrap::lemma_sub_after_add(seq, una, adv as u32);
                    crate::wrap::lemma_wrapping_lt_numeric(c0.send.nxt, next_seq, una);
                }
            }
        }
        plen
    }
}

/// The sequence-number length of a segment: payload bytes plus one for
/// SYN and one for FIN.
pub open spec fn spec_seg_len(payload_len: nat, syn: bool, fin: bool) -> nat {
    payload_len + (if syn {
        1nat
    } else {
        0nat
    }) + (if fin {
        1nat
    } else {
        0nat
    })
}

/// The RFC 793 acceptability test: does a segment of length `slen`
/// starting at `seq` overlap the advertised receive window?
pub open spec fn spec_acceptable(rcv: ReceiveSequenceSpace, seq: u32, slen: nat) -> bool {
    let wend = seq_add(rcv.nxt, rcv.wnd as u32);
    let lo = seq_sub(rcv.nxt, 1);
    if slen == 0 {
        if rcv.wnd == 0 {
            seq == rcv.nxt
        } else {
            spec_between(seq, lo, wend)
        }
    } else {
        rcv.wnd != 0 && (spec_between(seq, lo, wend) || spec_between(
            seq_add(seq, (slen - 1) as u32),
            lo,
            wend,
        ))
    }
}

/// The state after the handshake check: `SynRecvd` becomes `Estab` when
/// the segment acknowledges our SYN.
pub open spec fn state_after_synrcvd(c: Connection, ackn: u32) -> State {
    if c.state is SynRecvd && spec_between(
        ackn,
        seq_sub(c.send.una, 1),
        seq_add(c.send.nxt, 1),
    ) {
        State::Estab
    } else {
        c.state
    }
}

/// Whether the segment's acknowledgment number is acceptable:
/// `SND.UNA < SEG.ACK <= SND.NXT`, in a synchronized state.
pub open spec fn spec_ack_ok(c: Connection, ackn: u32) -> bool {
    let st1 = state_after_synrcvd(c, ackn);
    &&& (st1 is Estab || st1 is FinWait1 || st1 is FinWait2)
    &&& spec_between(ackn, c.send.una, seq_add(c.send.nxt, 1))
}

/// Where stream data starts in the sequence space: one past `SND.UNA`
/// while our SYN is still unacknowledged.
pub open spec fn spec_data_start(c: Connection) -> u32 {
    if c.send.una == c.send.iss {
        seq_add(c.send.una, 1)
    } else {
        c.send.una
    }
}

/// How many buffered bytes an acceptable `ackn` acknowledges: the
/// distance past the start of stream data, capped by the queue (and zero
/// when the queue is already empty).
pub open spec fn spec_acked_len(c: Connection, ackn: u32) -> nat {
    if c.unacked@.len() == 0 {
        0
    } else {
        let d = seq_sub(ackn, spec_data_start(c)) as nat;
        if d <= c.unacked@.len() {
            d
        } else {
            c.unacked@.len()
        }
    }
}

/// The state after ACK processing: `FinWait1` becomes `FinWait2` once
/// `SND.UNA` has moved one past our FIN's sequence number.
pub open spec fn spec_state_after_ack(c: Connection, ackn: u32) -> State {
    let st1 = state_after_synrcvd(c, ackn);
    let una1 = if spec_ack_ok(c, ackn) {
        ackn
    } else {
        c.send.una
    };
    if st1 is FinWait1 && c.closed_at is Some && una1 == seq_add(c.closed_at.unwrap(), 1) {
        State::FinWait2
    } else {
        st1
    }
}

/// An empty acknowledgment segment from `c` carrying `ackno`:
/// `<SEQ=SND.NXT><ACK=ackno><CTL=ACK>`.
pub open spec fn is_bare_ack(o: OutSegment, c: Connection, ackno: u32) -> bool {
    &&& o.src_ip == c.quad.dst_ip
    &&& o.src_port == c.quad.dst_port
    &&& o.dst_ip == c.quad.src_ip
    &&& o.dst_port == c.quad.src_port
    &&& o.seq == c.send.nxt
    &&& o.ack == ackno
    &&& o.wnd == c.recv.wnd
    &&& !o.syn
    &&& !o.fin
    &&& o.payload@ == Seq::<u8>::empty()
    &&& o.wire@.len() == 40
    &&& o.wire@ == wire_of(
        c.quad.dst_ip,
        c.quad.src_ip,
        c.quad.dst_port,
        c.quad.src_port,
        c.send.nxt,
        ackno,
        c.recv.wnd,
        false,
        false,
        SEND_TTL,
        Seq::<u8>::empty(),
    )
}

/// Recording the same transmission twice changes nothing the second time.
proof fn lemma_times_insert_idem(ts: Seq<(u32, u64)>, key: u32, val: u64)
    ensures
        times_insert(times_insert(ts, key, val), key, val) == times_insert(ts, key, val),
    decreases ts.len(),
{
    if ts.len() == 0 {
        assert(times_insert(times_insert(ts, key, val), key, val) =~= times_insert(
            ts,
            key,
            val,
        ));
    } else if ts[0].0 < key {
        lemma_times_insert_idem(ts.drop_first(), key, val);
        assert((seq![ts[0]] + times_insert(ts.drop_first(), key, val)).drop_first()
            =~= times_insert(ts.drop_first(), key, val));
        assert(times_insert(times_insert(ts, key, val), key, val) =~= times_insert(
            ts,
            key,
            val,
        ));
    } else {
        assert((seq![(key, val)] + times_insert(ts, key, val).drop_first()).drop_first()
            =~= times_insert(ts, key, val).drop_first());
        assert(times_insert(times_insert(ts, key, val), key, val) =~= times_insert(
            ts,
            key,
            val,
        ));
    }
}

/// Processing an acceptable acknowledgment keeps `SND.NXT` within the
/// queue and the remaining sequence-space credits.
proof fn lemma_wf_after_ack(c: Connection, ackn: u32)
    requires
        c.wf(),
        spec_between(ackn, c.send.una, seq_add(c.send.nxt, 1)),
    ensures
        seq_sub(ackn, c.send.una) >= 1,
        seq_sub(ackn, c.send.una) as nat <= seq_sub(c.send.nxt, c.send.una) as nat,
        seq_sub(c.send.nxt, ackn) as nat <= (c.unacked@.len() - spec_acked_len(c, ackn)) + (
        if ackn == c.send.iss {
            1nat
        } else {
            0nat
        }) + c.fin_credit(),
{
    let una = c.send.una;
    let nxt = c.send.nxt;
    let len = c.unacked@.len();
    let s = seq_sub(nxt, una) as nat;
    crate::wrap::lemma_sub_after_add(nxt, una, 1);
    crate::wrap::lemma_between_iff_forward(ackn, una, seq_add(nxt, 1));
    let d = seq_sub(ackn, una);
    assert(1 <= d as nat && d as nat <= s);
    crate::wrap::lemma_sub_then_add(ackn, una);
    crate::wrap::lemma_sub_sub(nxt, una, d);
    assert(seq_sub(nxt, ackn) as nat == s - d);
    if c.send.una == c.send.iss {
        crate::wrap::lemma_sub_sub(ackn, una, 1);
        assert(seq_sub(ackn, spec_data_start(c)) == d - 1);
    } else {
        assert(spec_data_start(c) == una);
    }
}

/// The connection a passive open builds for a SYN with sequence number
/// `seq` and advertised window `wnd`, arriving on `quad`: everything
/// `accept` promises of the new TCB. The `SYN|ACK` it queues is related
/// separately by `accept_emit_rel`, so the relation holds equally once a
/// driver has drained the outbound queue.
pub open spec fn accept_rel(quad: Quad, seq: u32, wnd: u16, now: u64, c: Connection) -> bool {
    &&& c.wf()
    &&& c.state is SynRecvd
    &&& c.quad == quad
    &&& c.recv.irs == seq
    &&& c.recv.nxt == seq_add(seq, 1)
    &&& c.recv.wnd == RECV_WINDOW
    &&& c.send.iss == 0
    &&& c.send.una == 0
    &&& c.send.nxt == 1
    &&& c.send.wnd == wnd
    &&& c.incoming@ == Seq::<u8>::empty()
    &&& c.unacked@ == Seq::<u8>::empty()
    &&& !c.closed
    &&& c.closed_at is None
    &&& c.timers.srtt_ms == INITIAL_SRTT_MS
    &&& c.timers.send_times@ == seq![(0u32, now)]
}

/// The one segment a passive open emits: the `SYN|ACK` answering a SYN
/// with sequence number `seq` on `quad`, with its exact header fields
/// and wire bytes.
pub open spec fn accept_emit_rel(quad: Quad, seq: u32, now: u64, out: Seq<OutSegment>) -> bool {
    &&& out.len() == 1
    &&& ({
        let o = out[0];
        &&& o.src_ip == quad.dst_ip
        &&& o.src_port == quad.dst_port
        &&& o.dst_ip == quad.src_ip
        &&& o.dst_port == quad.src_port
        &&& o.seq == 0
        &&& o.ack == seq_add(seq, 1)
        &&& o.wnd == RECV_WINDOW
        &&& o.syn
        &&& !o.fin
        &&& o.payload@ == Seq::<u8>::empty()
        &&& o.wire@.len() == 40
        &&& o.wire@ == wire_of(
            quad.dst_ip,
            quad.src_ip,
            quad.dst_port,
            quad.src_port,
            0,
            seq_add(seq, 1),
            RECV_WINDOW,
            true,
            false,
            SEND_TTL,
            Seq::<u8>::empty(),
        )
    })
}

impl Connection {
    /// Passive open: builds the TCB for a SYN arriving at a listening
    /// port (any other segment is ignored) and queues the `SYN|ACK`
    /// reply, after which `SND.NXT` has moved one past the ISS.
    pub fn accept(quad: Quad, seg: &SegmentIn, now_ms: u64) -> (r: Option<Connection>)
        ensures
            !seg.syn ==> r is None,
            seg.syn ==> (r matches Some(c) && accept_rel(quad, seg.seq, seg.wnd, now_ms, c)
                && accept_emit_rel(quad, seg.seq, now_ms, c.tx@)),
    {
        if !seg.syn {
            return None;
        }
        let mut c = Connection {
            state: State::SynRecvd,
            quad,
            send: SendSequenceSpace {
                iss: 0,
                una: 0,
                nxt: 0,
                wnd: seg.wnd,
                up: false,
                wl1: 0,
                wl2: 0,
            },
            recv: ReceiveSequenceSpace {
                irs: seg.seq,
                nxt: seg.seq.wrapping_add(1),
                wnd: RECV_WINDOW,
                up: false,
            },
            timers: Timers { send_times: Vec::new(), srtt_ms: INITIAL_SRTT_MS },
            incoming: Vec::new(),
            unacked: Vec::new(),
            closed: false,
            closed_at: None,
            tx: Vec::new(),
        };
        c.write(0, 0, true, false, now_ms);
        proof {
            assert(c.timers.send_times@ =~= seq![(0u32, now_ms)]);
            assert(c.tx@[0].payload@ =~= Seq::<u8>::empty());
        }
        Some(c)
    }

    /// The handshake transition, ACK processing and FIN-acknowledged
    /// check, in order: an acceptable ACK establishes a `SynRecvd`
    /// connection, drains what it acknowledges from the send queue while
    /// folding one round-trip sample per covered transmission into the
    /// smoothed estimate, advances `SND.UNA`, and moves `FinWait1` on
    /// once our FIN itself is covered.
    fn process_ack(&mut self, seg: &SegmentIn, now_ms: u64)
        requires
            old(self).wf(),
        ensures
            final(self).wf(),
            final(self).state == spec_state_after_ack(*old(self), seg.ack),
            final(self).send.una == (if spec_ack_ok(*old(self), seg.ack) {
                seg.ack
            } else {
                old(self).send.una
            }),
            final(self).unacked@ == (if spec_ack_ok(*old(self), seg.ack) {
                old(self).unacked@.skip(spec_acked_len(*old(self), seg.ack) as int)
            } else {
                old(self).unacked@
            }),
            final(self).timers.send_times@ == (if spec_ack_ok(*old(self), seg.ack) && old(
                self,
            ).unacked@.len() > 0 {
                times_retain(old(self).timers.send_times@, old(self).send.una, seg.ack)
            } else {
                old(self).timers.send_times@
            }),
            final(self).timers.srtt_ms == (if spec_ack_ok(*old(self), seg.ack) && old(
                self,
            ).unacked@.len() > 0 {
                times_srtt_after(
                    old(self).timers.send_times@,
                    old(self).send.una,
                    seg.ack,
                    now_ms,
                    old(self).timers.srtt_ms,
                )
            } else {
                old(self).timers.srtt_ms
            }),
            final(self).quad == old(self).quad,
            final(self).send.nxt == old(self).send.nxt,
            final(self).send.iss == old(self).send.iss,
            final(self).send.wnd == old(self).send.wnd,
            final(self).send.up == old(self).send.up,
            final(self).send.wl1 == old(self).send.wl1,
            final(self).send.wl2 == old(self).send.wl2,
            final(self).recv == old(self).recv,
            final(self).incoming@ == old(self).incoming@,
            final(self).closed == old(self).closed,
            final(self).closed_at == old(self).closed_at,
            final(self).tx@ == old(self).tx@,
    {
        let ghost c0 = *old(self);
        let ackn = seg.ack;
        if matches!(self.state, State::SynRecvd) {
            let lo = self.send.una.wrapping_sub(1);
            let hi = self.send.nxt.wrapping_add(1);
            if ackn.is_between_wrapped(lo, hi) {
                self.state = State::Estab;
            }
        }
        proof {
            assert(self.state == state_after_synrcvd(c0, seg.ack));
        }
        let in_sync = matches!(self.state, State::Estab | State::FinWait1 | State::FinWait2);
        if in_sync {
            let hi = self.send.nxt.wrapping_add(1);
            let una0 = self.send.una;
            if ackn.is_between_wrapped(una0, hi) {
                proof {
                    lemma_wf_after_ack(c0, ackn);
                }
                if !self.unacked.is_empty() {
                    let data_start = if self.send.una == self.send.iss {
                        self.send.una.wrapping_add(1)
                    } else {
                        self.send.una
                    };
                    let d = ackn.wrapping_sub(data_start) as usize;
                    let acked = if d <= self.unacked.len() {
                        d
                    } else {
                        self.unacked.len()
                    };
                    proof {
                        assert(acked as nat == spec_acked_len(c0, ackn));
                    }
                    let tail = self.unacked.split_off(acked);
                    self.unacked = tail;
                    proof {
                        assert(self.unacked@ =~= c0.unacked@.skip(spec_acked_len(
                            c0,
                            ackn,
                        ) as int));
                    }
                    times_ack_update(
                        &mut self.timers.send_times,
                        &mut self.timers.srtt_ms,
                        una0,
                        ackn,
                        now_ms,
                    );
                }
                self.send.una = ackn;
            }
        }
        if matches!(self.state, State::FinWait1) {
            if let Some(closed_at) = self.closed_at {
                if self.send.una == closed_at.wrapping_add(1) {
                    self.state = State::FinWait2;
                }
            }
        }
    }
}

/// How one inbound segment, given by its plain header fields and payload,
/// changes a connection: everything `on_segment` promises of the
/// connection between its value before (`c`) and after (`c2`) the call.
/// The segments it emits are related separately by `seg_emit_rel`, so the
/// relation leaves `c2`'s outbound queue unconstrained and holds equally
/// of the stored connection once a driver has drained that queue.
pub open spec fn seg_update_rel(
    c: Connection,
    seq: u32,
    ackn: u32,
    syn: bool,
    fin: bool,
    has_ack: bool,
    payload: Seq<u8>,
    now: u64,
    c2: Connection,
) -> bool {
    let acceptable = spec_acceptable(c.recv, seq, spec_seg_len(payload.len(), syn, fin));
    &&& c2.wf()
    &&& c2.quad == c.quad
    &&& c2.send.nxt == c.send.nxt
    &&& c2.send.iss == c.send.iss
    &&& c2.send.wnd == c.send.wnd
    &&& c2.send.up == c.send.up
    &&& c2.send.wl1 == c.send.wl1
    &&& c2.send.wl2 == c.send.wl2
    &&& c2.recv.irs == c.recv.irs
    &&& c2.recv.wnd == c.recv.wnd
    &&& c2.closed == c.closed
    &&& c2.closed_at == c.closed_at
    // An unacceptable segment changes nothing beyond recording the
    // transmission time of the bare ACK it elicits.
    &&& (!acceptable ==> {
        &&& c2.state == c.state
        &&& c2.send.una == c.send.una
        &&& c2.unacked@ == c.unacked@
        &&& c2.incoming@ == c.incoming@
        &&& c2.recv.nxt == c.recv.nxt
        &&& c2.timers.srtt_ms == c.timers.srtt_ms
        &&& c2.timers.send_times@ == times_insert(c.timers.send_times@, c.send.nxt, now)
    })
    // Without an ACK bit, only a payload-free SYN retransmission moves
    // RCV.NXT.
    &&& ((acceptable && !has_ack) ==> {
        &&& c2.state == c.state
        &&& c2.send.una == c.send.una
        &&& c2.unacked@ == c.unacked@
        &&& c2.incoming@ == c.incoming@
        &&& c2.recv.nxt == (if syn && payload.len() == 0 {
            seq_add(seq, 1)
        } else {
            c.recv.nxt
        })
        &&& c2.timers.srtt_ms == c.timers.srtt_ms
        &&& c2.timers.send_times@ == c.timers.send_times@
    })
    // A segment carrying an ACK runs the full pipeline: handshake
    // transition, ACK processing, FIN-acknowledged check, in-order
    // delivery, and the peer's FIN.
    &&& ((acceptable && has_ack) ==> ({
        let ok = spec_ack_ok(c, ackn);
        let acked = if ok {
            spec_acked_len(c, ackn)
        } else {
            0nat
        };
        let do_times = ok && c.unacked@.len() > 0;
        let times1 = if do_times {
            times_retain(c.timers.send_times@, c.send.una, ackn)
        } else {
            c.timers.send_times@
        };
        let st2 = spec_state_after_ack(c, ackn);
        let skip = seq_sub(c.recv.nxt, seq) as nat;
        let deliver = payload.len() > 0 && (st2 is Estab || st2 is FinWait1
            || st2 is FinWait2) && skip <= payload.len();
        let rnxt1 = if deliver {
            seq_add(seq, payload.len() as u32)
        } else {
            c.recv.nxt
        };
        let fin_h = fin && st2 is FinWait2;
        let rnxt2 = if fin_h {
            seq_add(rnxt1, 1)
        } else {
            rnxt1
        };
        &&& c2.state == (if fin_h {
            State::TimeWait
        } else {
            st2
        })
        &&& c2.send.una == (if ok {
            ackn
        } else {
            c.send.una
        })
        &&& c2.unacked@ == c.unacked@.skip(acked as int)
        &&& c2.incoming@ == c.incoming@ + (if deliver {
            payload.skip(skip as int)
        } else {
            Seq::<u8>::empty()
        })
        &&& c2.recv.nxt == rnxt2
        &&& c2.timers.srtt_ms == (if do_times {
            times_srtt_after(c.timers.send_times@, c.send.una, ackn, now, c.timers.srtt_ms)
        } else {
            c.timers.srtt_ms
        })
        &&& c2.timers.send_times@ == (if deliver || fin_h {
            times_insert(times1, c.send.nxt, now)
        } else {
            times1
        })
    }))
}

/// The segments that handling one inbound segment emits, as a function
/// of the connection before the call: one bare ACK answering an
/// unacceptable segment, nothing for an ACK-less one, and up to two bare
/// ACKs (one for delivered payload, one for the peer's FIN) otherwise.
pub open spec fn seg_emit_rel(
    c: Connection,
    seq: u32,
    ackn: u32,
    syn: bool,
    fin: bool,
    has_ack: bool,
    payload: Seq<u8>,
    now: u64,
    out: Seq<OutSegment>,
) -> bool {
    let acceptable = spec_acceptable(c.recv, seq, spec_seg_len(payload.len(), syn, fin));
    &&& (!acceptable ==> out.len() == 1 && is_bare_ack(out[0], c, c.recv.nxt))
    &&& ((acceptable && !has_ack) ==> out.len() == 0)
    &&& ((acceptable && has_ack) ==> ({
        let st2 = spec_state_after_ack(c, ackn);
        let skip = seq_sub(c.recv.nxt, seq) as nat;
        let deliver = payload.len() > 0 && (st2 is Estab || st2 is FinWait1
            || st2 is FinWait2) && skip <= payload.len();
        let rnxt1 = if deliver {
            seq_add(seq, payload.len() as u32)
        } else {
            c.recv.nxt
        };
        let fin_h = fin && st2 is FinWait2;
        let rnxt2 = if fin_h {
            seq_add(rnxt1, 1)
        } else {
            rnxt1
        };
        &&& out.len() == (if deliver {
            1int
        } else {
            0int
        }) + (if fin_h {
            1int
        } else {
            0int
        })
        &&& (deliver ==> is_bare_ack(out[0], c, rnxt1))
        &&& (fin_h ==> is_bare_ack(out[out.len() - 1], c, rnxt2))
    }))
}

impl Connection {
    /// Handles one inbound segment, implementing the ordered receive
    /// policy: the window acceptability test (an unacceptable segment is
    /// answered with a bare ACK and changes nothing); the ACK-less
    /// handshake retransmission (only a payload-free SYN advances
    /// `RCV.NXT`); then, for segments carrying an ACK, the handshake
    /// transition, ACK processing and FIN-acknowledged check of
    /// `process_ack`, in-order payload delivery of whatever lies at or
    /// past `RCV.NXT` (each delivery answered with a bare ACK), and the
    /// peer's FIN in `FinWait2`, which is acknowledged and enters
    /// `TimeWait`. Returns what waits should now be signalled.
    #[verifier::rlimit(100)]
    #[verifier::spinoff_prover]
    pub fn on_segment(&mut self, seg: &SegmentIn, now_ms: u64) -> (avail: Available)
        requires
            old(self).wf(),
            seg.payload@.len() + 2 < 0x1_0000_0000,
        ensures
            seg_update_rel(
                *old(self),
                seg.seq,
                seg.ack,
                seg.syn,
                seg.fin,
                seg.has_ack,
                seg.payload@,
                now_ms,
                *final(self),
            ),
            final(self).tx@.len() >= old(self).tx@.len(),
            final(self).tx@.take(old(self).tx@.len() as int) == old(self).tx@,
            seg_emit_rel(
                *old(self),
                seg.seq,
                seg.ack,
                seg.syn,
                seg.fin,
                seg.has_ack,
                seg.payload@,
                now_ms,
                final(self).tx@.skip(old(self).tx@.len() as int),
            ),
            avail == final(self).spec_availability(),
    {
        let ghost c0 = *old(self);
        let seqn = seg.seq;
        let plen_u = seg.payload.len();
        let mut slen: u32 = plen_u as u32;
        if seg.syn {
            slen = slen + 1;
        }
        if seg.fin {
            slen = slen + 1;
        }
        let wend = self.recv.nxt.wrapping_add(self.recv.wnd as u32);
        let nxt_m1 = self.recv.nxt.wrapping_sub(1);
        let okay: bool = if slen == 0 {
            if self.recv.wnd == 0 {
                seqn == self.recv.nxt
            } else {
                seqn.is_between_wrapped(nxt_m1, wend)
            }
        } else {
            if self.recv.wnd == 0 {
                false
            } else {
                seqn.is_between_wrapped(nxt_m1, wend) || seqn.wrapping_add(slen - 1)
                    .is_between_wrapped(nxt_m1, wend)
            }
        };
        proof {
            assert(okay == spec_acceptable(c0.recv, seg.seq, spec_seg_len(seg.payload@.len(), seg.syn, seg.fin)));
        }
        if !okay {
            let nxt = self.send.nxt;
            self.write(nxt, 0, false, false, now_ms);
            proof {
                assert(final(self).tx@.last().payload@ =~= Seq::<u8>::empty());
            }
            return self.availability();
        }
        if !seg.has_ack {
            if seg.syn && plen_u == 0 {
                self.recv.nxt = seqn.wrapping_add(1);
            }
            return self.availability();
        }
        self.process_ack(seg, now_ms);
        let ghost c_acked = *self;
        if plen_u > 0 {
            let deliver_state = matches!(
                self.state,
                State::Estab | State::FinWait1 | State::FinWait2
            );
            if deliver_state {
                let skip_w = self.recv.nxt.wrapping_sub(seqn);
                let skip = skip_w as usize;
                if skip <= plen_u {
                    let chunk = vstd::slice::slice_subrange(seg.payload.as_slice(), skip, plen_u);
                    self.incoming.extend_from_slice(chunk);
                    proof {
                        assert(self.incoming@ =~= c0.incoming@ + seg.payload@.skip(skip as int));
                    }
                    self.recv.nxt = seqn.wrapping_add(plen_u as u32);
                    let nxt = self.send.nxt;
                    self.write(nxt, 0, false, false, now_ms);
                    proof {
                        assert(self.tx@.last().payload@ =~= Seq::<u8>::empty());
                    }
                }
            }
        }
        if seg.fin {
            if matches!(self.state, State::FinWait2) {
                self.recv.nxt = self.recv.nxt.wrapping_add(1);
                let nxt = self.send.nxt;
                self.write(nxt, 0, false, false, now_ms);
                proof {
                    assert(self.tx@.last().payload@ =~= Seq::<u8>::empty());
                    lemma_times_insert_idem(
                        c_acked.timers.send_times@,
                        c0.send.nxt,
                        now_ms,
                    );
                }
                self.state = State::TimeWait;
            }
        }
        proof {
            assert(c0.unacked@.skip(0) =~= c0.unacked@);
        }
        self.availability()
    }
}

/// Where our FIN sits (or would sit): `closed_at` once assigned, else
/// `SND.NXT`.
pub open spec fn spec_fin_seq(c: Connection) -> u32 {
    if c.closed_at is Some {
        c.closed_at.unwrap()
    } else {
        c.send.nxt
    }
}

/// How many sequence numbers are outstanding: from `SND.UNA` up to the
/// FIN position or `SND.NXT`.
pub open spec fn spec_n_unacked(c: Connection) -> nat {
    seq_sub(spec_fin_seq(c), c.send.una) as nat
}

/// How many buffered bytes have never been sent.
pub open spec fn spec_unsent(c: Connection) -> nat {
    if c.unacked@.len() >= spec_n_unacked(c) {
        (c.unacked@.len() - spec_n_unacked(c)) as nat
    } else {
        0nat
    }
}

/// The retransmission test: the oldest outstanding transmission has
/// waited longer than one second and longer than one and a half times
/// the smoothed round-trip estimate.
pub open spec fn spec_should_retransmit(c: Connection, now: u64) -> bool {
    match spec_times_oldest(c.timers.send_times@, c.send.una) {
        Some(e) => {
            let w = sample_ms(now, e.1);
            w > 1000 && 2 * w > 3 * c.timers.srtt_ms
        },
        None => false,
    }
}

/// A tick that sends nothing new: everything outstanding including the
/// FIN is in flight, or the peer's window is full, or there is nothing
/// to send and no close pending.
pub open spec fn spec_tick_quiet(c: Connection) -> bool {
    ||| (spec_unsent(c) == 0 && c.closed_at is Some)
    ||| c.send.wnd as nat <= spec_n_unacked(c)
    ||| (spec_unsent(c) == 0 && !c.closed)
}

/// How one tick changes a connection: everything `on_tick` promises of
/// the connection between its value before (`c`) and after (`c2`) the
/// call. The segment it may emit is related separately by
/// `tick_emit_rel`, so the relation leaves `c2`'s outbound queue
/// unconstrained and holds equally once a driver has drained that queue.
pub open spec fn tick_update_rel(c: Connection, now: u64, c2: Connection) -> bool {
    let idle = c.state is FinWait2 || c.state is TimeWait;
    let retrans = spec_should_retransmit(c, now);
    &&& c2.wf()
    &&& c2.state == c.state
    &&& c2.quad == c.quad
    &&& c2.recv == c.recv
    &&& c2.send.una == c.send.una
    &&& c2.send.iss == c.send.iss
    &&& c2.send.wnd == c.send.wnd
    &&& c2.send.up == c.send.up
    &&& c2.send.wl1 == c.send.wl1
    &&& c2.send.wl2 == c.send.wl2
    &&& c2.incoming@ == c.incoming@
    &&& c2.unacked@ == c.unacked@
    &&& c2.closed == c.closed
    &&& c2.timers.srtt_ms == c.timers.srtt_ms
    &&& (idle ==> {
        &&& c2.timers.send_times@ == c.timers.send_times@
        &&& c2.send.nxt == c.send.nxt
        &&& c2.closed_at == c.closed_at
    })
    &&& ((!idle && retrans) ==> ({
        let resend = if c.unacked@.len() <= c.send.wnd as nat {
            c.unacked@.len()
        } else {
            c.send.wnd as nat
        };
        let set_fin = resend < c.send.wnd as nat && c.closed;
        let ca2 = if set_fin {
            Some(seq_add(c.send.una, c.unacked@.len() as u32))
        } else {
            c.closed_at
        };
        let plen = payload_len_core(c.send.una, ca2, c.unacked@, c.send.una, resend);
        &&& c2.closed_at == ca2
        &&& c2.timers.send_times@ == times_insert(c.timers.send_times@, c.send.una, now)
        &&& c2.send.nxt == ({
            let adv = plen + (if set_fin {
                1nat
            } else {
                0nat
            });
            let nseq = seq_add(c.send.una, adv as u32);
            if spec_wrapping_lt(c.send.nxt, nseq) {
                nseq
            } else {
                c.send.nxt
            }
        })
    }))
    &&& ((!idle && !retrans && spec_tick_quiet(c)) ==> {
        &&& c2.timers.send_times@ == c.timers.send_times@
        &&& c2.send.nxt == c.send.nxt
        &&& c2.closed_at == c.closed_at
    })
    &&& ((!idle && !retrans && !spec_tick_quiet(c)) ==> ({
        let allowed = (c.send.wnd as nat - spec_n_unacked(c)) as nat;
        let send_amt = if spec_unsent(c) <= allowed {
            spec_unsent(c)
        } else {
            allowed
        };
        let set_fin = send_amt < allowed && c.closed && c.closed_at is None;
        let ca2 = if set_fin {
            Some(seq_add(c.send.nxt, spec_unsent(c) as u32))
        } else {
            c.closed_at
        };
        let plen = payload_len_core(c.send.una, ca2, c.unacked@, c.send.nxt, send_amt);
        &&& c2.closed_at == ca2
        &&& c2.timers.send_times@ == times_insert(c.timers.send_times@, c.send.nxt, now)
        &&& c2.send.nxt == ({
            let adv = plen + (if set_fin {
                1nat
            } else {
                0nat
            });
            let nseq = seq_add(c.send.nxt, adv as u32);
            if spec_wrapping_lt(c.send.nxt, nseq) {
                nseq
            } else {
                c.send.nxt
            }
        })
    }))
}

/// The segments one tick emits, as a function of the connection before
/// the call: nothing when idle or quiet, one retransmission from
/// `SND.UNA`, or one fresh segment from `SND.NXT`, each with its exact
/// header fields, payload and wire bytes.
pub open spec fn tick_emit_rel(c: Connection, now: u64, out: Seq<OutSegment>) -> bool {
    let idle = c.state is FinWait2 || c.state is TimeWait;
    let retrans = spec_should_retransmit(c, now);
    &&& ((idle || (!retrans && spec_tick_quiet(c))) ==> out.len() == 0)
    &&& ((!idle && retrans) ==> ({
        let resend = if c.unacked@.len() <= c.send.wnd as nat {
            c.unacked@.len()
        } else {
            c.send.wnd as nat
        };
        let set_fin = resend < c.send.wnd as nat && c.closed;
        let ca2 = if set_fin {
            Some(seq_add(c.send.una, c.unacked@.len() as u32))
        } else {
            c.closed_at
        };
        &&& out.len() == 1
        &&& ({
            let o = out[0];
            let pay = payload_core(c.send.una, ca2, c.unacked@, c.send.una, resend);
            &&& o.src_ip == c.quad.dst_ip
            &&& o.src_port == c.quad.dst_port
            &&& o.dst_ip == c.quad.src_ip
            &&& o.dst_port == c.quad.src_port
            &&& o.seq == c.send.una
            &&& o.ack == c.recv.nxt
            &&& o.wnd == c.recv.wnd
            &&& !o.syn
            &&& o.fin == set_fin
            &&& o.payload@ == pay
            &&& o.wire@.len() == 40 + pay.len()
            &&& o.wire@ == wire_of(
                c.quad.dst_ip,
                c.quad.src_ip,
                c.quad.dst_port,
                c.quad.src_port,
                c.send.una,
                c.recv.nxt,
                c.recv.wnd,
                false,
                set_fin,
                SEND_TTL,
                pay,
            )
        })
    }))
    &&& ((!idle && !retrans && !spec_tick_quiet(c)) ==> ({
        let allowed = (c.send.wnd as nat - spec_n_unacked(c)) as nat;
        let send_amt = if spec_unsent(c) <= allowed {
            spec_unsent(c)
        } else {
            allowed
        };
        let set_fin = send_amt < allowed && c.closed && c.closed_at is None;
        let ca2 = if set_fin {
            Some(seq_add(c.send.nxt, spec_unsent(c) as u32))
        } else {
            c.closed_at
        };
        &&& out.len() == 1
        &&& ({
            let o = out[0];
            let pay = payload_core(c.send.una, ca2, c.unacked@, c.send.nxt, send_amt);
            &&& o.src_ip == c.quad.dst_ip
            &&& o.src_port == c.quad.dst_port
            &&& o.dst_ip == c.quad.src_ip
            &&& o.dst_port == c.quad.src_port
            &&& o.seq == c.send.nxt
            &&& o.ack == c.recv.nxt
            &&& o.wnd == c.recv.wnd
            &&& !o.syn
            &&& o.fin == set_fin
            &&& o.payload@ == pay
            &&& o.wire@.len() == 40 + pay.len()
            &&& o.wire@ == wire_of(
                c.quad.dst_ip,
                c.quad.src_ip,
                c.quad.dst_port,
                c.quad.src_port,
                c.send.nxt,
                c.recv.nxt,
                c.recv.wnd,
                false,
                set_fin,
                SEND_TTL,
                pay,
            )
        })
    }))
}

impl Connection {
    /// The periodic driver: does nothing once our side is fully
    /// acknowledged (`FinWait2`, `TimeWait`); retransmits from `SND.UNA`,
    /// up to the peer's window, when the oldest outstanding transmission
    /// has waited too long, scheduling the FIN right behind the queue
    /// when closing and the resend leaves window room; otherwise emits
    /// any unsent bytes from `SND.NXT` that fit in the window, assigning
    /// the FIN its sequence number on the way out when the close is
    /// still pending.
    #[verifier::rlimit(100)]
    #[verifier::spinoff_prover]
    pub fn on_tick(&mut self, now_ms: u64)
        requires
            old(self).wf(),
        ensures
            tick_update_rel(*old(self), now_ms, *final(self)),
            final(self).tx@.len() >= old(self).tx@.len(),
            final(self).tx@.take(old(self).tx@.len() as int) == old(self).tx@,
            tick_emit_rel(*old(self), now_ms, final(self).tx@.skip(old(self).tx@.len() as int)),
    {
        if matches!(self.state, State::FinWait2 | State::TimeWait) {
            return ;
        }
        let fin_seq = match self.closed_at {
            Some(x) => x,
            None => self.send.nxt,
        };
        let n_unacked_u32 = fin_seq.wrapping_sub(self.send.una);
        let n_unacked = n_unacked_u32 as usize;
        let unsent = if self.unacked.len() >= n_unacked {
            self.unacked.len() - n_unacked
        } else {
            0
        };
        let oldest = times_oldest(&self.timers.send_times, self.send.una);
        let should_retransmit = match oldest {
            Some(e) => {
                let w = now_ms.saturating_sub(e.1);
                w > 1000 && (w as u128) * 2 > (self.timers.srtt_ms as u128) * 3
            },
            None => false,
        };
        if should_retransmit {
            let resend = if self.unacked.len() <= self.send.wnd as usize {
                self.unacked.len()
            } else {
                self.send.wnd as usize
            };
            let mut set_fin = false;
            if resend < self.send.wnd as usize && self.closed {
                set_fin = true;
                self.closed_at = Some(self.send.una.wrapping_add(self.unacked.len() as u32));
            }
            let una = self.send.una;
            self.write(una, resend, false, set_fin, now_ms);
        } else {
            if unsent == 0 && self.closed_at.is_some() {
                return ;
            }
            if self.send.wnd as usize <= n_unacked {
                return ;
            }
            let allowed = self.send.wnd as usize - n_unacked;
            if unsent == 0 && !self.closed {
                return ;
            }
            let send_amt = if unsent <= allowed {
                unsent
            } else {
                allowed
            };
            let mut set_fin = false;
            if send_amt < allowed && self.closed && self.closed_at.is_none() {
                set_fin = true;
                self.closed_at = Some(self.send.nxt.wrapping_add(unsent as u32));
            }
            let nxt = self.send.nxt;
            self.write(nxt, send_amt, false, set_fin, now_ms);
        }
    }
}

/// In every well-formed connection -- so after any finite sequence of
/// `on_segment`, `on_tick`, `write`, `close` and queue operations, each
/// of which preserves `wf` -- `SND.UNA` is at most `SND.NXT` wrap-wise:
/// they are equal, or `SND.UNA` precedes `SND.NXT`.
pub proof fn lemma_snd_una_le_nxt(c: Connection)
    requires
        c.wf(),
    ensures
        c.send.una == c.send.nxt || spec_wrapping_lt(c.send.una, c.send.nxt),
{
}

/// Once a SYN has been received, `RCV.NXT` stays at least one past
/// `RCV.IRS`: any later position `nxt2` that `RCV.NXT` advances to keeps
/// a positive distance from the peer's ISN, as long as the total advance
/// since the SYN has not lapped the whole ring.
pub proof fn lemma_recv_nxt_stays_past_irs(irs: u32, nxt: u32, nxt2: u32)
    requires
        seq_sub(nxt, irs) >= 1,
        seq_sub(nxt, irs) + seq_sub(nxt2, nxt) < 0x1_0000_0000,
    ensures
        seq_sub(nxt2, irs) >= 1,
{
    crate::wrap::lemma_sub_then_add(nxt2, nxt);
    crate::wrap::lemma_sub_after_add(nxt, irs, seq_sub(nxt2, nxt));
}

/// Delivery preserves the peer's byte stream, without duplication: if
/// `RCV.NXT` sits `k` bytes into the peer's stream (counted one past the
/// ISN) and an accepted segment carries stream bytes at its own position
/// `p`, then the suffix that `on_segment` appends to `incoming` is
/// exactly the stream's bytes from `k` on -- each position delivered
/// once, in order, and a full replay (`skip == payload len`) delivers
/// nothing new. Holds for peer streams shorter than the whole ring.
pub proof fn lemma_delivery_in_order(
    stream: Seq<u8>,
    irs: u32,
    rcv_nxt: u32,
    seq: u32,
    payload: Seq<u8>,
)
    requires
        stream.len() < 0x1_0000_0000,
        seq_sub(rcv_nxt, seq_add(irs, 1)) <= stream.len(),
        seq_sub(seq, seq_add(irs, 1)) + payload.len() <= stream.len(),
        forall|i: int| 0 <= i < payload.len() ==> payload[i] == stream[seq_sub(
            seq,
            seq_add(irs, 1),
        ) as int + i],
        seq_sub(rcv_nxt, seq) as nat <= payload.len(),
    ensures
        ({
            let k = seq_sub(rcv_nxt, seq_add(irs, 1)) as int;
            let p = seq_sub(seq, seq_add(irs, 1)) as int;
            let skip = seq_sub(rcv_nxt, seq) as int;
            &&& k == p + skip
            &&& payload.skip(skip) == stream.subrange(k, p + payload.len() as int)
        }),
{
    let base = seq_add(irs, 1);
    let p = seq_sub(seq, base);
    let skip = seq_sub(rcv_nxt, seq);
    crate::wrap::lemma_sub_then_add(rcv_nxt, seq);
    crate::wrap::lemma_sub_after_add(seq, base, skip);
    let k = seq_sub(rcv_nxt, base) as int;
    assert(k == p + skip);
    assert(payload.skip(skip as int) =~= stream.subrange(k, p as int + payload.len() as int));
}

/// Processing an acceptable ACK in a synchronized state drains exactly
/// `ack - data_start` bytes from the send queue, whenever that distance
/// fits in the queue (it can exceed the queue only when the ACK also
/// covers our FIN, and drains the whole queue then).
pub proof fn lemma_ack_drains_exactly(c: Connection, ackn: u32)
    requires
        c.wf(),
        spec_between(ackn, c.send.una, seq_add(c.send.nxt, 1)),
        c.unacked@.len() > 0,
        seq_sub(ackn, spec_data_start(c)) as nat <= c.unacked@.len(),
    ensures
        spec_acked_len(c, ackn) == seq_sub(ackn, spec_data_start(c)) as nat,
{
}

/// A zero-length segment against a zero receive window is acceptable
/// exactly when its sequence number is `RCV.NXT`.
pub proof fn lemma_zero_window_acceptability(rcv: ReceiveSequenceSpace, seq: u32)
    requires
        rcv.wnd == 0,
    ensures
        spec_acceptable(rcv, seq, 0) <==> seq == rcv.nxt,
{
}

} // verus!
