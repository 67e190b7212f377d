//! KCP control block: fragmentation, reassembly, acknowledgment, retransmission and
//! congestion control, over a user-supplied datagram output.

use vstd::prelude::*;
use crate::constants::{
    CMD_ACK, CMD_PUSH, CMD_WASK, CMD_WINS, HEADER_SIZE, MTU_DEFAULT, MSS_DEFAULT, WND_SND_DEFAULT,
    WND_RCV_DEFAULT, RTO_DEFAULT, RTO_MIN, RTO_MAX, RTO_NDL, INTERVAL_DEFAULT, DEAD_LINK,
    THRESH_INIT, PROBE_INIT, PROBE_LIMIT, FRAGMENT_CAPACITY, SND_BUF_MASK,
};
use crate::sequence::{Sequence, wrap32, seq_dist};
use crate::segment::{AckEntry, RecvSegment, SegmentHeader, SegmentState, SendSegment, header_from_bytes};
use crate::ring_buffer::{
    SendBuffer, RecvBuffer, AckList, splice, slot256, recv_read, is_pending, pending_list,
    shrink_run, clear_run, fastack_step, lemma_pending_list, rslot, msg_complete, msg_segments,
    msg_total, msg_bytes, waiting_in_run, sat_sub, count_one_more,
};
use crate::codec::{encode_segment, decode_segment, segment_bytes};
use crate::time::{time_diff, clamp_u32, spec_time_diff, spec_clamp, signed32, wrapped_diff_i32};

verus! {

/// KCP error types
#[derive(Debug, Clone, Copy, PartialEq, Eq, Structural)]
pub enum KcpError {
    /// Output buffer too small
    BufferTooSmall,
    /// Send/receive buffer full
    BufferFull,
    /// Invalid packet format
    InvalidPacket,
    /// Conversation ID mismatch
    ConvMismatch,
    /// Data exceeds maximum size
    DataTooLarge,
    /// No data available (non-blocking)
    WouldBlock,
    /// Connection considered dead
    DeadLink,
}

impl KcpError {
    /// Returns true if this error indicates the connection should be closed
    pub fn is_fatal(&self) -> (r: bool)
        ensures
            r == (*self == KcpError::DeadLink || *self == KcpError::ConvMismatch),
    {
        match self {
            KcpError::DeadLink | KcpError::ConvMismatch => true,
            _ => false,
        }
    }
}

/// KCP result type
pub type KcpResult<T> = Result<T, KcpError>;

/// Output callback for sending packets, implemented by the user for the transport layer.
pub trait KcpOutput {
    /// Send data to the network: `Ok(n)` with the number of bytes sent, or an error
    fn output(&mut self, data: &[u8]) -> KcpResult<usize>;
}

/// KCP configuration
#[derive(Clone, Copy)]
pub struct KcpConfig {
    /// Maximum transmission unit
    pub mtu: u32,
    /// Update interval in milliseconds
    pub interval: u32,
    /// Enable nodelay mode for lower latency
    pub nodelay: bool,
    /// Fast resend trigger count (0 = disable)
    pub resend: u32,
    /// Disable congestion control
    pub nc: bool,
    /// Send window size
    pub snd_wnd: u16,
    /// Receive window size
    pub rcv_wnd: u16,
    /// Enable stream mode (no message boundaries)
    pub stream: bool,
}

impl Default for KcpConfig {
    fn default() -> (r: Self)
        ensures
            r == (KcpConfig {
                mtu: 1400,
                interval: 100,
                nodelay: false,
                resend: 0,
                nc: false,
                snd_wnd: 32,
                rcv_wnd: 128,
                stream: false,
            }),
    {
        KcpConfig {
            mtu: MTU_DEFAULT as u32,
            interval: INTERVAL_DEFAULT,
            nodelay: false,
            resend: 0,
            nc: false,
            snd_wnd: WND_SND_DEFAULT,
            rcv_wnd: WND_RCV_DEFAULT,
            stream: false,
        }
    }
}

impl KcpConfig {
    /// Fast mode configuration
    pub fn fast() -> (r: Self)
        ensures
            r == (KcpConfig {
                mtu: 1400,
                interval: 20,
                nodelay: true,
                resend: 2,
                nc: true,
                snd_wnd: 128,
                rcv_wnd: 128,
                stream: false,
            }),
    {
        KcpConfig {
            mtu: MTU_DEFAULT as u32,
            interval: 20,
            nodelay: true,
            resend: 2,
            nc: true,
            snd_wnd: 128,
            rcv_wnd: 128,
            stream: false,
        }
    }
}

/// The scalar state of a KCP control block.
pub struct KcpView {
    /// Conversation id
    pub conv: u32,
    /// Time of the latest update
    pub current: u32,
    /// Oldest unacknowledged sequence number
    pub snd_una: Sequence,
    /// Next sequence number to move into the send buffer
    pub snd_nxt: Sequence,
    /// Start of the receive window
    pub rcv_nxt: Sequence,
    /// Send window
    pub snd_wnd: u16,
    /// Receive window
    pub rcv_wnd: u16,
    /// Remote receive window
    pub rmt_wnd: u16,
    /// Congestion window
    pub cwnd: u16,
    /// Retransmission timeout
    pub rx_rto: u32,
    /// Smoothed round-trip time
    pub rx_srtt: i32,
    /// Round-trip time variation
    pub rx_rttval: i32,
    /// Minimum retransmission timeout
    pub rx_minrto: u32,
    /// Link state (`u32::MAX` when dead)
    pub state: u32,
    /// An update has happened
    pub updated: bool,
    /// Time of the next flush
    pub ts_flush: u32,
    /// Update interval
    pub interval: u32,
    /// Slow-start threshold
    pub ssthresh: u32,
    /// Congestion avoidance increment
    pub incr: u32,
    /// Pending probe flags (1: ask window, 2: tell window)
    pub probe: u8,
    /// Time of the next window probe
    pub ts_probe: u32,
    /// Current window probe wait
    pub probe_wait: u32,
    /// Transmission count at which the link is dead
    pub dead_link: u32,
    /// Maximum transmission unit
    pub mtu: u32,
    /// Maximum segment size
    pub mss: u32,
    /// Nodelay mode
    pub nodelay: bool,
    /// Fast resend trigger
    pub fastresend: u32,
    /// Fast resend limit
    pub fastlimit: u32,
    /// Congestion control disabled
    pub nocwnd: bool,
    /// Stream mode
    pub stream: bool,
}

/// The state of a control block created with `config`.
pub open spec fn initial_view(conv: u32, config: KcpConfig) -> KcpView {
    KcpView {
        conv,
        current: 0,
        snd_una: Sequence(0),
        snd_nxt: Sequence(0),
        rcv_nxt: Sequence(0),
        snd_wnd: config.snd_wnd,
        rcv_wnd: config.rcv_wnd,
        rmt_wnd: config.rcv_wnd,
        cwnd: 0,
        rx_rto: RTO_DEFAULT,
        rx_srtt: 0,
        rx_rttval: 0,
        rx_minrto: if config.nodelay { RTO_NDL } else { RTO_MIN },
        state: 0,
        updated: false,
        ts_flush: INTERVAL_DEFAULT,
        interval: config.interval,
        ssthresh: THRESH_INIT,
        incr: 0,
        probe: 0,
        ts_probe: 0,
        probe_wait: 0,
        dead_link: DEAD_LINK,
        mtu: config.mtu,
        mss: (config.mtu - HEADER_SIZE) as u32,
        nodelay: config.nodelay,
        fastresend: config.resend,
        fastlimit: 5,
        nocwnd: config.nc,
        stream: config.stream,
    }
}

/// Unused receive window: the configured window minus the distance the receive buffer
/// has moved past `rcv_nxt`, or 0.
pub open spec fn spec_wnd_unused(rcv_wnd: u16, buf_nxt: Sequence, rcv_nxt: Sequence) -> u16 {
    let queue_len = seq_dist(buf_nxt.0, rcv_nxt.0);
    if queue_len < rcv_wnd { (rcv_wnd - queue_len) as u16 } else { 0 }
}

// ----------------------------------------------------------------------------------------
// Fragmentation
// ----------------------------------------------------------------------------------------

/// Number of segments a message of `len > 0` bytes is cut into.
pub open spec fn fragment_count(len: nat, mss: nat) -> nat {
    if len <= mss {
        1
    } else {
        len / mss + if len % mss != 0 { 1nat } else { 0nat }
    }
}

/// The `i`-th fragment of a message.
pub open spec fn fragment(data: Seq<u8>, mss: nat, i: nat) -> Seq<u8> {
    let start = i * mss;
    let end: int = if start + mss <= data.len() { (start + mss) as int } else { data.len() as int };
    data.subrange(start as int, end)
}

/// Fragment index of the `i`-th of `count` fragments (counting down to 0; always 0 in stream mode).
pub open spec fn fragment_frg(count: nat, i: nat, stream: bool) -> u8 {
    if stream { 0 } else { (count - i - 1) as u8 }
}

/// The queue slot contents after inserting the first `k` fragments from `base`.
pub open spec fn queued_segs(
    segs: Seq<SendSegment>,
    base: u32,
    data: Seq<u8>,
    mss: nat,
    stream: bool,
    count: nat,
    k: nat,
) -> Seq<SendSegment>
    decreases k,
{
    if k == 0 {
        segs
    } else {
        let i = (k - 1) as nat;
        let sn = Sequence(wrap32(base + i));
        let idx = slot256(sn.0);
        queued_segs(segs, base, data, mss, stream, count, i).update(
            idx,
            SendSegment {
                sn,
                resend_ts: 0,
                rto: RTO_DEFAULT,
                fastack: 0,
                xmit: 0,
                state: SegmentState::Pending,
                frg: fragment_frg(count, i, stream),
                data_len: fragment(data, mss, i).len() as u16,
                ts: 0,
                data_offset: (idx * 1376) as u32,
            },
        )
    }
}

/// The queue data area after inserting the first `k` fragments from `base`.
pub open spec fn queued_bytes(bytes: Seq<u8>, base: u32, data: Seq<u8>, mss: nat, k: nat) -> Seq<
    u8,
>
    decreases k,
{
    if k == 0 {
        bytes
    } else {
        let i = (k - 1) as nat;
        splice(
            queued_bytes(bytes, base, data, mss, i),
            slot256(wrap32(base + i)) * 1376,
            fragment(data, mss, i),
        )
    }
}

proof fn lemma_fragment_bounds(len: nat, mss: nat, i: nat)
    requires
        0 < mss,
        0 < len,
        i < fragment_count(len, mss),
    ensures
        i * mss < len,
        fragment_count(len, mss) >= 1,
        (i + 1) * mss == i * mss + mss,
        i + 1 == fragment_count(len, mss) ==> len <= (i + 1) * mss,
        i + 1 < fragment_count(len, mss) ==> (i + 1) * mss < len,
{
    assert((i + 1) * mss == i * mss + mss) by (nonlinear_arith);
    if len > mss {
        let q = len / mss;
        let r = len % mss;
        assert(len == q * mss + r && 0 <= r < mss) by (nonlinear_arith)
            requires
                q == len / mss,
                r == len % mss,
                mss > 0,
        ;
        assert(i * mss < len) by (nonlinear_arith)
            requires
                len == q * mss + r,
                0 <= r < mss,
                i < q + if r != 0 { 1nat } else { 0nat },
                mss > 0,
        ;
        assert(i + 1 == fragment_count(len, mss) ==> len <= (i + 1) * mss) by (nonlinear_arith)
            requires
                len == q * mss + r,
                0 <= r < mss,
                fragment_count(len, mss) == q + if r != 0 { 1nat } else { 0nat },
                mss > 0,
        ;
        assert(i + 1 < fragment_count(len, mss) ==> (i + 1) * mss < len) by (nonlinear_arith)
            requires
                len == q * mss + r,
                0 <= r < mss,
                fragment_count(len, mss) == q + if r != 0 { 1nat } else { 0nat },
                mss > 0,
        ;
    } else {
        assert(i == 0);
    }
}

/// The fragments of a message placed in the receive slots from `nxt` on, each with its
/// bytes, as a sender cuts them (numbered from `nxt`, fragment index counting down to 0).
pub open spec fn fragments_received(
    data: Seq<u8>,
    mss: nat,
    segs: Seq<RecvSegment>,
    bytes: Seq<u8>,
    nxt: u32,
) -> bool {
    let count = fragment_count(data.len(), mss);
    forall|i: int|
        0 <= i < count ==> {
            let s = #[trigger] segs[rslot(nxt, i)];
            &&& s.state == SegmentState::Pending
            &&& s.sn.0 == wrap32(nxt + i)
            &&& s.frg == fragment_frg(count, i as nat, false)
            &&& s.data_len == fragment(data, mss, i as nat).len()
            &&& bytes.subrange(s.data_offset as int, s.data_offset + s.data_len) == fragment(
                data,
                mss,
                i as nat,
            )
        }
}

/// The first `n` received fragments hold the first `min(n * mss, len)` bytes of the message.
#[verifier::spinoff_prover]
#[verifier::rlimit(50)]
proof fn lemma_fragments_prefix(
    data: Seq<u8>,
    mss: nat,
    segs: Seq<RecvSegment>,
    bytes: Seq<u8>,
    nxt: u32,
    n: nat,
)
    requires
        0 < mss,
        0 < data.len(),
        n <= fragment_count(data.len(), mss),
        fragments_received(data, mss, segs, bytes, nxt),
    ensures
        ({
            let end: int = if n * mss < data.len() {
                (n * mss) as int
            } else {
                data.len() as int
            };
            &&& msg_bytes(segs, bytes, nxt, n) == data.subrange(0, end)
            &&& msg_total(segs, nxt, n) == end
        }),
    decreases n,
{
    if n == 0 {
        assert(data.subrange(0, 0) =~= Seq::<u8>::empty());
    } else {
        let i = (n - 1) as nat;
        lemma_fragments_prefix(data, mss, segs, bytes, nxt, i);
        lemma_fragment_bounds(data.len(), mss, i);
        let s = segs[rslot(nxt, i as int)];
        assert(bytes.subrange(s.data_offset as int, s.data_offset + s.data_len) == fragment(
            data,
            mss,
            i,
        ));
        let start = i * mss;
        let end: int = if start + mss <= data.len() {
            (start + mss) as int
        } else {
            data.len() as int
        };
        assert(data.subrange(0, start as int) + data.subrange(start as int, end) =~= data.subrange(
            0,
            end,
        ));
    }
}

/// Reassembly gives back what was sent: the fragments of a message, received in the slots
/// from `nxt` on with their bytes, make a complete message of as many segments, whose
/// bytes are the message.
pub proof fn lemma_fragments_reassemble(
    data: Seq<u8>,
    mss: nat,
    segs: Seq<RecvSegment>,
    bytes: Seq<u8>,
    nxt: u32,
)
    requires
        0 < mss,
        0 < data.len(),
        fragment_count(data.len(), mss) <= 256,
        fragments_received(data, mss, segs, bytes, nxt),
    ensures
        msg_complete(segs, nxt),
        msg_segments(segs, nxt) == fragment_count(data.len(), mss),
        msg_total(segs, nxt, fragment_count(data.len(), mss)) == data.len(),
        msg_bytes(segs, bytes, nxt, fragment_count(data.len(), mss)) == data,
{
    let count = fragment_count(data.len(), mss);
    if data.len() > mss {
        assert(data.len() / mss >= 1) by (nonlinear_arith)
            requires
                data.len() > mss,
                mss > 0,
        ;
    }
    assert(count >= 1);
    lemma_fragment_bounds(data.len(), mss, (count - 1) as nat);
    assert(segs[rslot(nxt, 0)].frg == count - 1);
    let f = segs[rslot(nxt, 0)].frg;
    assert forall|i: int| 0 <= i <= f implies {
        let s = #[trigger] segs[rslot(nxt, i)];
        &&& s.state == SegmentState::Pending
        &&& s.sn.0 == wrap32(nxt + i)
        &&& s.frg == f - i
    } by {
        assert(i < count);
    }
    lemma_fragments_prefix(data, mss, segs, bytes, nxt, count);
    assert(data.subrange(0, data.len() as int) =~= data);
}

/// Number of fragments inserted by a `send` that ran out of queue space.
pub open spec fn send_partial(first_len: nat, queued: u32) -> nat {
    if first_len > MSS_DEFAULT { 0 } else { (256 - queued) as nat }
}


// ----------------------------------------------------------------------------------------
// Input
// ----------------------------------------------------------------------------------------

/// Outcome of parsing a packet's segments from `offset` on: segments are read while a
/// whole one (header and announced data) remains; one with another conversation id is
/// `ConvMismatch`, and one with an unknown command is `InvalidPacket`.
pub open spec fn segments_verdict(data: Seq<u8>, conv: u32, offset: nat) -> Result<(), KcpError>
    decreases data.len() - offset,
{
    if offset + HEADER_SIZE > data.len() {
        Ok(())
    } else {
        let h = header_from_bytes(data.skip(offset as int));
        if data.len() - offset < HEADER_SIZE + h.len {
            Ok(())
        } else if h.conv != conv {
            Err(KcpError::ConvMismatch)
        } else if !(h.cmd == CMD_ACK || h.cmd == CMD_PUSH || h.cmd == CMD_WASK || h.cmd == CMD_WINS) {
            Err(KcpError::InvalidPacket)
        } else {
            segments_verdict(data, conv, (offset + HEADER_SIZE + h.len) as nat)
        }
    }
}

/// Outcome of `input` on a packet: shorter than a header is `InvalidPacket`, otherwise
/// the verdict on its segments.
pub open spec fn packet_verdict(data: Seq<u8>, conv: u32) -> Result<(), KcpError> {
    if data.len() < HEADER_SIZE {
        Err(KcpError::InvalidPacket)
    } else {
        segments_verdict(data, conv, 0)
    }
}

/// A 32-bit word read as a two's-complement integer.
pub open spec fn wrap_i32(x: int) -> i32 {
    signed32(x % 0x1_0000_0000) as i32
}

/// Division rounding toward zero, as Rust's `/` on signed integers.
pub open spec fn tdiv(a: int, b: int) -> int {
    if a >= 0 { a / b } else { -((-a) / b) }
}

/// Smoothed RTT and RTT variation after a sample `rtt` (RFC 6298 weights, 32-bit wrapping
/// arithmetic): the first sample sets them to `rtt` and `rtt / 2`.
pub open spec fn rtt_smooth(srtt: i32, rttval: i32, rtt: i32) -> (i32, i32) {
    if srtt == 0 {
        (rtt, (rtt / 2) as i32)
    } else {
        let d = wrap_i32(rtt - srtt);
        let delta = if d < 0 { wrap_i32(-d) } else { d };
        let v = tdiv(wrap_i32(wrap_i32(rttval * 3) + delta) as int, 4) as i32;
        let s = tdiv(wrap_i32(wrap_i32(srtt * 7) + rtt) as int, 8) as i32;
        (if s < 1 { 1 } else { s }, v)
    }
}

/// Retransmission timeout from the smoothed RTT and variation: `srtt + max(4 * rttval, interval)`,
/// read as unsigned and clamped to `[minrto, RTO_MAX]`.
pub open spec fn rto_of(srtt: i32, rttval: i32, interval: u32, minrto: u32) -> u32 {
    let four = wrap_i32(rttval * 4);
    let iv = signed32(interval as int) as i32;
    let m = if four >= iv { four } else { iv };
    let rto = wrap_i32(srtt + m);
    spec_clamp(((rto as int) % 0x1_0000_0000) as u32, minrto, RTO_MAX)
}

/// Congestion window and increment after an input, given the remote window.
pub open spec fn cwnd_next(cwnd: u16, incr: u32, ssthresh: u32, mss: u32, rmt_wnd: u16) -> (u16, u32) {
    if cwnd < rmt_wnd {
        let (c1, i1) = if (cwnd as u32) < ssthresh {
            ((cwnd + 1) as u16, wrap32(incr + mss))
        } else {
            let i0 = if incr < mss { mss } else { incr };
            let i2 = wrap32(i0 + (mss as int * mss as int) / (i0 as int) + (mss as int) / 16);
            (if (cwnd + 1) * mss <= i2 { (cwnd + 1) as u16 } else { cwnd }, i2)
        };
        if c1 > rmt_wnd {
            (rmt_wnd, (rmt_wnd * mss) as u32)
        } else {
            (c1, i1)
        }
    } else {
        (cwnd, incr)
    }
}

/// `a + b` with 32-bit two's-complement wrapping.
fn wadd(a: i32, b: i32) -> (r: i32)
    ensures
        r == wrap_i32(a + b),
{
    a.wrapping_add(b)
}

/// `a * k` with 32-bit two's-complement wrapping, for a small positive `k`.
fn wmul(a: i32, k: i32) -> (r: i32)
    requires
        0 < k <= 8,
    ensures
        r == wrap_i32(a * k),
{
    a.wrapping_mul(k)
}

/// `a - b` with 32-bit two's-complement wrapping.
fn wsub(a: i32, b: i32) -> (r: i32)
    ensures
        r == wrap_i32(a - b),
{
    a.wrapping_sub(b)
}

/// Smoothed RTT and variation after a sample
fn smooth_rtt(srtt: i32, rttval: i32, rtt: i32) -> (r: (i32, i32))
    requires
        rtt >= 0,
    ensures
        r == rtt_smooth(srtt, rttval, rtt),
{
    if srtt == 0 {
        (rtt, rtt / 2)
    } else {
        let d = wsub(rtt, srtt);
        let delta = if d < 0 { wsub(0, d) } else { d };
        let v = wadd(wmul(rttval, 3), delta) / 4;
        let s0 = wadd(wmul(srtt, 7), rtt) / 8;
        let s = if s0 < 1 { 1 } else { s0 };
        (s, v)
    }
}

/// Retransmission timeout from the smoothed RTT and variation
fn compute_rto(srtt: i32, rttval: i32, interval: u32, minrto: u32) -> (r: u32)
    ensures
        r == rto_of(srtt, rttval, interval, minrto),
{
    let four = wmul(rttval, 4);
    let iv = wrapped_diff_i32(interval, 0);
    let m = if four >= iv { four } else { iv };
    let rto = wadd(srtt, m);
    clamp_u32(0u32.wrapping_add_signed(rto), minrto, RTO_MAX)
}

/// Flush time after an update, and whether a flush is due
#[verifier::rlimit(50)]
fn flush_timer(updated: bool, ts_flush: u32, interval: u32, current: u32) -> (r: (u32, bool))
    ensures
        r == update_timer(updated, ts_flush, interval, current),
{
    let mut ts_flush = ts_flush;
    if !updated {
        ts_flush = current;
    }
    let mut slap = time_diff(current, ts_flush);
    if slap >= 10000 || slap < -10000 {
        ts_flush = current;
        slap = 0;
    }
    if slap >= 0 {
        ts_flush = ts_flush.wrapping_add(interval);
        if time_diff(current, ts_flush) >= 0 {
            ts_flush = current.wrapping_add(interval);
        }
        (ts_flush, true)
    } else {
        (ts_flush, false)
    }
}

/// Window probe timer step
fn probe_timer(rmt_wnd: u16, probe_wait: u32, ts_probe: u32, probe: u8, current: u32) -> (r: (u32, u32, u8))
    ensures
        r == probe_step(rmt_wnd, probe_wait, ts_probe, probe, current),
{
    let mut probe_wait = probe_wait;
    let mut ts_probe = ts_probe;
    let mut probe = probe;
    if rmt_wnd == 0 {
        if probe_wait == 0 {
            probe_wait = PROBE_INIT;
            ts_probe = current.wrapping_add(probe_wait);
        } else if time_diff(current, ts_probe) >= 0 {
            if probe_wait < PROBE_INIT {
                probe_wait = PROBE_INIT;
            }
            probe_wait = probe_wait.wrapping_add(probe_wait / 2);
            if probe_wait > PROBE_LIMIT {
                probe_wait = PROBE_LIMIT;
            }
            ts_probe = current.wrapping_add(probe_wait);
            probe = probe | 0x01;
        }
    } else {
        ts_probe = 0;
        probe_wait = 0;
    }
    (probe_wait, ts_probe, probe)
}

/// The timeout of a segment retransmitted on timeout: half as long again in nodelay mode,
/// else twice as long (wrapping)
fn backoff_rto(rto: u32, nodelay: bool) -> (r: u32)
    ensures
        r == if nodelay { wrap32(rto + rto / 2) } else { wrap32(rto + rto) },
{
    if nodelay {
        rto.wrapping_add(rto / 2)
    } else {
        rto.wrapping_add(rto)
    }
}

/// Whether a pending segment is sent by a flush, and the segment afterwards
#[verifier::spinoff_prover]
#[verifier::rlimit(100)]
fn flush_decision(
    seg: SendSegment,
    current: u32,
    rx_rto: u32,
    nodelay: bool,
    fastresend: u32,
    fastlimit: u32,
) -> (r: (bool, SendSegment))
    requires
        rx_rto <= RTO_MAX,
    ensures
        r == flush_segment(seg, current, rx_rto, nodelay, fastresend, fastlimit),
{
    let resent = if fastresend > 0 { fastresend } else { u32::MAX };
    let rtomin = if nodelay { 0 } else { rx_rto / 8 };
    let xmit1 = seg.xmit.saturating_add(1);
    if seg.xmit == 0 {
        let resend_ts = current.wrapping_add(rx_rto + rtomin);
        (true, make_sent(seg, current, 1, rx_rto, resend_ts, seg.fastack))
    } else if time_diff(current, seg.resend_ts) >= 0 {
        let new_rto = backoff_rto(seg.rto, nodelay);
        let resend_ts = current.wrapping_add(new_rto);
        (true, make_sent(seg, current, xmit1, new_rto, resend_ts, seg.fastack))
    } else if seg.fastack >= (resent % 65536) as u16 && (seg.xmit <= (fastlimit % 65536) as u16 || fastlimit == 0) {
        let resend_ts = current.wrapping_add(seg.rto);
        (true, make_sent(seg, current, xmit1, seg.rto, resend_ts, 0))
    } else {
        (false, seg)
    }
}

/// A segment as it is after being sent at `current`
fn make_sent(seg: SendSegment, current: u32, xmit: u16, rto: u32, resend_ts: u32, fastack: u16) -> (r: SendSegment)
    ensures
        r == sent_segment(seg, current, xmit, rto, resend_ts, fastack),
{
    SendSegment { xmit, rto, resend_ts, fastack, ts: current, state: SegmentState::Sent, ..seg }
}

/// Congestion window and increment after an input
fn next_cwnd(cwnd: u16, incr: u32, ssthresh: u32, mss: u32, rmt_wnd: u16) -> (r: (u16, u32))
    requires
        0 < mss < 65536,
    ensures
        r == cwnd_next(cwnd, incr, ssthresh, mss, rmt_wnd),
{
    let mut cwnd = cwnd;
    let mut incr = incr;
    if cwnd < rmt_wnd {
        if (cwnd as u32) < ssthresh {
            cwnd = cwnd.saturating_add(1);
            incr = incr.wrapping_add(mss);
        } else {
            if incr < mss {
                incr = mss;
            }
            proof {
                assert(mss * mss < 0x1_0000_0000) by (nonlinear_arith)
                    requires
                        mss < 65536,
                ;
                assert((cwnd + 1) * mss < 0x1_0000_0000) by (nonlinear_arith)
                    requires
                        mss < 65536,
                        cwnd < 65536,
                ;
                assert(rmt_wnd * mss < 0x1_0000_0000) by (nonlinear_arith)
                    requires
                        mss < 65536,
                        rmt_wnd < 65536,
                ;
            }
            let sq = mss * mss;
            let q = sq / incr;
            proof {
                assert(q <= mss) by (nonlinear_arith)
                    requires
                        incr >= mss,
                        mss > 0,
                        q == sq / incr,
                        sq == mss * mss,
                ;
            }
            incr = incr.wrapping_add(q + mss / 16);
            let c1 = cwnd as u32 + 1;
            let lim = c1 * mss;
            if lim <= incr {
                cwnd = cwnd.saturating_add(1);
            }
        }
        if cwnd > rmt_wnd {
            cwnd = rmt_wnd;
            incr = rmt_wnd as u32 * mss;
        }
    }
    (cwnd, incr)
}


// ----------------------------------------------------------------------------------------
// Update, check and flush
// ----------------------------------------------------------------------------------------

/// Flush time after an update at `current`: set on the first update, resynchronized when
/// the clock has drifted 10 s or more either way; a flush is due when it is not in the future,
/// and then the flush time advances by one interval (or to `current + interval` when still behind).
/// Returns the new flush time and whether a flush is due.
pub open spec fn update_timer(updated: bool, ts_flush: u32, interval: u32, current: u32) -> (u32, bool) {
    let ts0 = if !updated { current } else { ts_flush };
    let slap0 = spec_time_diff(current, ts0);
    let (ts1, slap) = if slap0 >= 10000 || slap0 < -10000 { (current, 0int) } else { (ts0, slap0) };
    if slap >= 0 {
        let ts2 = wrap32(ts1 + interval);
        (if spec_time_diff(current, ts2) >= 0 { wrap32(current + interval) } else { ts2 }, true)
    } else {
        (ts1, false)
    }
}

/// Smallest time to resend among the pending slots below `n`, relative to `current`
/// (`u32::MAX` when there are none).
pub open spec fn resend_gap(segs: Seq<SendSegment>, current: u32, n: nat) -> int
    decreases n,
{
    if n == 0 {
        u32::MAX as int
    } else {
        let prev = resend_gap(segs, current, (n - 1) as nat);
        let s = segs[n - 1];
        if is_pending(s) && spec_time_diff(s.resend_ts, current) < prev {
            spec_time_diff(s.resend_ts, current)
        } else {
            prev
        }
    }
}

/// Time of the next needed update: now when never updated, when a flush is due, or when a
/// pending segment is due for resending; otherwise the earliest of the next flush, the next
/// resend and one interval from now.
pub open spec fn check_time(
    updated: bool,
    ts_flush: u32,
    interval: u32,
    segs: Seq<SendSegment>,
    current: u32,
) -> u32 {
    if !updated {
        current
    } else {
        let d = spec_time_diff(current, ts_flush);
        let tsf = if d >= 10000 || d < -10000 { current } else { ts_flush };
        if spec_time_diff(current, tsf) >= 0 {
            current
        } else {
            let tm_flush = spec_time_diff(tsf, current);
            let gap = resend_gap(segs, current, 256);
            if gap <= 0 {
                current
            } else {
                let m1 = if gap < tm_flush { gap } else { tm_flush };
                let m2 = if m1 < interval { m1 } else { interval as int };
                wrap32(current + m2)
            }
        }
    }
}

/// Window probe timer step: while the remote window is closed, the first probe waits 7 s
/// and later waits grow by half (from at least 7 s, at most 120 s), each expiry asking for
/// the window; an open remote window resets the timer. Returns `(probe_wait, ts_probe, probe)`.
pub open spec fn probe_step(rmt_wnd: u16, probe_wait: u32, ts_probe: u32, probe: u8, current: u32) -> (u32, u32, u8) {
    if rmt_wnd == 0 {
        if probe_wait == 0 {
            (PROBE_INIT, wrap32(current + PROBE_INIT), probe)
        } else if spec_time_diff(current, ts_probe) >= 0 {
            let pw0 = if probe_wait < PROBE_INIT { PROBE_INIT } else { probe_wait };
            let pw1 = wrap32(pw0 + pw0 / 2);
            let pw2 = if pw1 > PROBE_LIMIT { PROBE_LIMIT } else { pw1 };
            (pw2, wrap32(current + pw2), probe | 1)
        } else {
            (probe_wait, ts_probe, probe)
        }
    } else {
        (0, 0, probe)
    }
}

/// Effective send window: the smaller of the send and remote windows, and of the congestion
/// window unless congestion control is off.
pub open spec fn effective_cwnd(snd_wnd: u16, rmt_wnd: u16, cwnd: u16, nocwnd: bool) -> u32 {
    let c = if snd_wnd < rmt_wnd { snd_wnd as u32 } else { rmt_wnd as u32 };
    if !nocwnd && cwnd < c { cwnd as u32 } else { c }
}

/// A segment as it is after being sent at `current`.
pub open spec fn sent_segment(seg: SendSegment, current: u32, xmit: u16, rto: u32, resend_ts: u32, fastack: u16) -> SendSegment {
    SendSegment { xmit, rto, resend_ts, fastack, ts: current, state: SegmentState::Sent, ..seg }
}

/// What one pass of the flush does to a pending segment: first transmission, timeout
/// retransmission (backing the timeout off by half in nodelay mode, else doubling it),
/// or fast retransmission after `resent` skips (within the fast resend limit).
/// Returns whether it is sent, and the segment afterwards.
pub open spec fn flush_segment(
    seg: SendSegment,
    current: u32,
    rx_rto: u32,
    nodelay: bool,
    fastresend: u32,
    fastlimit: u32,
) -> (bool, SendSegment) {
    let resent = if fastresend > 0 { fastresend } else { u32::MAX };
    let rtomin = if nodelay { 0 } else { rx_rto / 8 };
    let xmit1 = if seg.xmit == u16::MAX { u16::MAX } else { (seg.xmit + 1) as u16 };
    if seg.xmit == 0 {
        (true, sent_segment(seg, current, 1, rx_rto, wrap32(current + rx_rto + rtomin), seg.fastack))
    } else if spec_time_diff(current, seg.resend_ts) >= 0 {
        let new_rto = if nodelay { wrap32(seg.rto + seg.rto / 2) } else { wrap32(seg.rto + seg.rto) };
        (true, sent_segment(seg, current, xmit1, new_rto, wrap32(current + new_rto), seg.fastack))
    } else if seg.fastack >= resent % 65536 && (seg.xmit <= fastlimit % 65536 || fastlimit == 0) {
        (true, sent_segment(seg, current, xmit1, seg.rto, wrap32(current + seg.rto), 0))
    } else {
        (false, seg)
    }
}

/// The send slots after flushing the pending ones listed in `pl` before position `k`.
pub open spec fn flushed_slots(
    segs: Seq<SendSegment>,
    pl: Seq<usize>,
    k: int,
    current: u32,
    rx_rto: u32,
    nodelay: bool,
    fastresend: u32,
    fastlimit: u32,
) -> Seq<SendSegment> {
    Seq::new(
        segs.len(),
        |i: int|
            if exists|j: int| 0 <= j < k && pl[j] == i {
                flush_segment(segs[i], current, rx_rto, nodelay, fastresend, fastlimit).1
            } else {
                segs[i]
            },
    )
}

/// State of the transfer from the send queue to the send buffer.
pub struct MoveState {
    /// Send buffer slots
    pub snd_segs: Seq<SendSegment>,
    /// Send buffer data area
    pub snd_bytes: Seq<u8>,
    /// Queue slots
    pub q_segs: Seq<SendSegment>,
    /// Next send sequence number
    pub nxt: u32,
    /// Number of segments moved so far
    pub moved: nat,
    /// Segments counted in the send buffer
    pub snd_count: u32,
    /// Segments counted in the queue
    pub q_count: u32,
}

/// The transfer after examining the first `k` queue positions from `qbase`: each pending
/// queued segment is copied, with its data, to the send slot of the next send sequence number
/// (pending, never transmitted, with the current RTO), and its queue slot is emptied.
pub open spec fn move_fold(st: MoveState, q_bytes: Seq<u8>, qbase: u32, rx_rto: u32, k: nat) -> MoveState
    decreases k,
{
    if k == 0 {
        st
    } else {
        let prev = move_fold(st, q_bytes, qbase, rx_rto, (k - 1) as nat);
        let qidx = slot256(wrap32(qbase + (k - 1)));
        let qs = prev.q_segs[qidx];
        if qs.state != SegmentState::Pending {
            prev
        } else {
            let sidx = slot256(prev.nxt);
            let data = q_bytes.subrange(qs.data_offset as int, qs.data_offset + qs.data_len);
            MoveState {
                snd_segs: prev.snd_segs.update(
                    sidx,
                    SendSegment {
                        sn: Sequence(prev.nxt),
                        resend_ts: 0,
                        rto: rx_rto,
                        fastack: 0,
                        xmit: 0,
                        state: SegmentState::Pending,
                        frg: qs.frg,
                        data_len: qs.data_len,
                        ts: 0,
                        data_offset: (sidx * 1376) as u32,
                    },
                ),
                snd_bytes: splice(prev.snd_bytes, sidx * 1376, data),
                q_segs: prev.q_segs.update(qidx, SendSegment { state: SegmentState::Empty, ..qs }),
                nxt: wrap32(prev.nxt + 1),
                moved: prev.moved + 1,
                snd_count: count_one_more(prev.snd_count),
                q_count: sat_sub(prev.q_count, 1),
            }
        }
    }
}

/// Number of queued segments moved to the send buffer by one flush: as many as the
/// effective window leaves room for beyond those in flight, and as the queue holds.
pub open spec fn move_count(cwnd: u32, snd_nxt: Sequence, snd_una: Sequence, q: SendBuffer) -> nat {
    let in_flight = seq_dist(snd_nxt.0, snd_una.0);
    let available = if cwnd >= in_flight { cwnd - in_flight } else { 0 };
    let qcount = seq_dist(q.nxt().0, q.una().0);
    (if available < qcount { available } else { qcount }) as nat
}

/// The transfer of a flush from the queue `q` into the send buffer `b`.
pub open spec fn move_result(b: SendBuffer, q: SendBuffer, snd_nxt: Sequence, rx_rto: u32, to_move: nat) -> MoveState {
    move_fold(
        MoveState {
            snd_segs: b.segs(),
            snd_bytes: b.bytes(),
            q_segs: q.segs(),
            nxt: snd_nxt.0,
            moved: 0,
            snd_count: b.seg_count(),
            q_count: q.seg_count(),
        },
        q.bytes(),
        q.una().0,
        rx_rto,
        to_move,
    )
}

/// The wire bytes of a packet that carries no data.
pub open spec fn cmd_packet(conv: u32, cmd: u8, wnd: u16, ts: u32, sn: u32, una: u32) -> Seq<u8> {
    segment_bytes(SegmentHeader { conv, cmd, frg: 0, wnd, ts, sn, una, len: 0 }, Seq::empty())
}

/// The acknowledgment packets for `acks`, one per entry, in order.
pub open spec fn ack_packets(conv: u32, wnd: u16, una: u32, acks: Seq<AckEntry>) -> Seq<Seq<u8>> {
    acks.map_values(|e: AckEntry| cmd_packet(conv, CMD_ACK, wnd, e.ts, e.sn, una))
}

/// The window probe packets for the probe flags `probe`: a window ask, then a window
/// tell, each when its flag is set.
pub open spec fn probe_packets(conv: u32, wnd: u16, una: u32, probe: u8) -> Seq<Seq<u8>> {
    (if probe & 0x01 != 0 { seq![cmd_packet(conv, CMD_WASK, wnd, 0, 0, una)] } else { Seq::empty() })
        + (if probe & 0x02 != 0 { seq![cmd_packet(conv, CMD_WINS, wnd, 0, 0, una)] } else { Seq::empty() })
}

/// Each acknowledgment packet answers its queued acknowledgment: packet `i` is a bare
/// header that decodes to an ACK of the conversation carrying the sequence number and the
/// timestamp of entry `i`, whatever the receive window start `una` it also reports.
pub proof fn lemma_ack_packets_answer(conv: u32, wnd: u16, una: u32, acks: Seq<AckEntry>)
    ensures
        ack_packets(conv, wnd, una, acks).len() == acks.len(),
        forall|i: int|
            0 <= i < acks.len() ==> {
                let p = #[trigger] ack_packets(conv, wnd, una, acks)[i];
                &&& p.len() == HEADER_SIZE
                &&& header_from_bytes(p).cmd == CMD_ACK
                &&& header_from_bytes(p).conv == conv
                &&& header_from_bytes(p).sn == acks[i].sn
                &&& header_from_bytes(p).ts == acks[i].ts
                &&& header_from_bytes(p).una == una
                &&& header_from_bytes(p).len == 0
            },
{
    assert forall|i: int| 0 <= i < acks.len() implies {
        let p = #[trigger] ack_packets(conv, wnd, una, acks)[i];
        &&& p.len() == HEADER_SIZE
        &&& header_from_bytes(p).cmd == CMD_ACK
        &&& header_from_bytes(p).conv == conv
        &&& header_from_bytes(p).sn == acks[i].sn
        &&& header_from_bytes(p).ts == acks[i].ts
        &&& header_from_bytes(p).una == una
        &&& header_from_bytes(p).len == 0
    } by {
        let h = SegmentHeader { conv, cmd: CMD_ACK, frg: 0, wnd, ts: acks[i].ts, sn: acks[i].sn, una, len: 0 };
        crate::codec::lemma_segment_roundtrip(h, Seq::empty(), Seq::empty());
        assert(segment_bytes(h, Seq::empty()) + Seq::<u8>::empty() =~= segment_bytes(h, Seq::empty()));
        assert(ack_packets(conv, wnd, una, acks)[i] == segment_bytes(h, Seq::empty()));
    }
}

/// Probing a closed remote window: once the remote window is 0 and the probe timer has
/// expired, the probe flags include the window ask, and the probe packets a flush sends
/// then begin with a window-ask (`CMD_WASK`) packet. A pending answer to the peer's ask
/// (flag 0x02) is a window-tell (`CMD_WINS`) packet, sent last.
pub proof fn lemma_probe_asks(
    probe_wait: u32,
    ts_probe: u32,
    probe: u8,
    current: u32,
    conv: u32,
    wnd: u16,
    una: u32,
)
    requires
        probe_wait != 0,
        spec_time_diff(current, ts_probe) >= 0,
    ensures
        ({
            let pr = probe_step(0, probe_wait, ts_probe, probe, current).2;
            let pp = probe_packets(conv, wnd, una, pr);
            &&& pr & 0x01 != 0
            &&& pp.len() >= 1
            &&& pp[0].len() == HEADER_SIZE
            &&& header_from_bytes(pp[0]).cmd == CMD_WASK
            &&& header_from_bytes(pp[0]).conv == conv
            &&& pr & 0x02 != 0 ==> pp.len() == 2 && header_from_bytes(pp[1]).cmd == CMD_WINS
        }),
{
    let pr = probe_step(0, probe_wait, ts_probe, probe, current).2;
    assert(pr == probe | 1);
    assert((probe | 1u8) & 1u8 != 0) by (bit_vector);
    let ask = SegmentHeader { conv, cmd: CMD_WASK, frg: 0, wnd, ts: 0, sn: 0, una, len: 0 };
    let tell = SegmentHeader { conv, cmd: CMD_WINS, frg: 0, wnd, ts: 0, sn: 0, una, len: 0 };
    crate::codec::lemma_segment_roundtrip(ask, Seq::empty(), Seq::empty());
    crate::codec::lemma_segment_roundtrip(tell, Seq::empty(), Seq::empty());
    assert(segment_bytes(ask, Seq::empty()) + Seq::<u8>::empty() =~= segment_bytes(ask, Seq::empty()));
    assert(segment_bytes(tell, Seq::empty()) + Seq::<u8>::empty() =~= segment_bytes(tell, Seq::empty()));
    let pp = probe_packets(conv, wnd, una, pr);
    if pr & 0x02 != 0 {
        assert(pp =~= seq![segment_bytes(ask, Seq::empty()), segment_bytes(tell, Seq::empty())]);
    } else {
        assert(pp =~= seq![segment_bytes(ask, Seq::empty())]);
    }
}

/// The wire bytes of the data packet that transmits `seg` at `current`, its data read
/// from the send buffer's data area `bytes`.
pub open spec fn data_packet(conv: u32, wnd: u16, una: u32, current: u32, seg: SendSegment, bytes: Seq<u8>) -> Seq<u8> {
    segment_bytes(
        SegmentHeader {
            conv,
            cmd: CMD_PUSH,
            frg: seg.frg,
            wnd,
            ts: current,
            sn: seg.sn.0,
            una,
            len: seg.data_len as u32,
        },
        bytes.subrange(seg.data_offset as int, seg.data_offset + seg.data_len),
    )
}

/// The data packets sent while flushing the pending slots listed in `pl` before position
/// `k`: one for each segment that the flush transmits, in slot order.
pub open spec fn data_packets(
    v: KcpView,
    wnd: u16,
    current: u32,
    segs: Seq<SendSegment>,
    bytes: Seq<u8>,
    pl: Seq<usize>,
    k: nat,
) -> Seq<Seq<u8>>
    decreases k,
{
    if k == 0 {
        Seq::empty()
    } else {
        let prev = data_packets(v, wnd, current, segs, bytes, pl, (k - 1) as nat);
        let (send, ns) = flush_segment(segs[pl[k - 1] as int], current, v.rx_rto, v.nodelay, v.fastresend, v.fastlimit);
        if send {
            prev.push(data_packet(v.conv, wnd, v.rcv_nxt.0, current, ns, bytes))
        } else {
            prev
        }
    }
}

/// Every outcome at positions `from` up to `to` is a success.
pub open spec fn outcomes_ok(o: Seq<KcpResult<usize>>, from: int, to: int) -> bool {
    forall|i: int| from <= i < to ==> (#[trigger] o[i]) is Ok
}

/// How a call that stops on an error ends, after the output answered the last packet it
/// handed out with `last`: an output error is returned with the state unchanged; after a
/// successful output the error is a dead link, and the state marks the link dead.
pub open spec fn failure(last: KcpResult<usize>, r: KcpResult<()>, state: u32, new_state: u32) -> bool {
    match last {
        Err(e) => r == Err::<(), KcpError>(e) && new_state == state,
        Ok(_) => r == Err::<(), KcpError>(KcpError::DeadLink) && new_state == u32::MAX,
    }
}

/// Answers that extend each other in two steps, each a run of successes up to a point,
/// are successes from the first start up to that point.
proof fn lemma_outcomes_chain(a: Seq<KcpResult<usize>>, b: Seq<KcpResult<usize>>, c: Seq<KcpResult<usize>>, to: int)
    requires
        a.is_prefix_of(b),
        b.is_prefix_of(c),
        outcomes_ok(b, a.len() as int, b.len() as int),
        outcomes_ok(c, b.len() as int, to),
    ensures
        a.is_prefix_of(c),
        outcomes_ok(c, a.len() as int, to),
{
    assert forall|i: int| a.len() <= i < to implies (#[trigger] c[i]) is Ok by {
        if i < b.len() {
            assert(c[i] == b[i]);
        }
    }
    assert(a =~= c.subrange(0, a.len() as int)) by {
        assert forall|i: int| 0 <= i < a.len() implies a[i] == c[i] by {
            assert(a[i] == b[i]);
            assert(b[i] == c[i]);
        }
    }
}

/// Whether the pending slot listed at position `j` of `pl`, if the flush transmits it, has
/// been transmitted fewer than `dead_link` times afterwards.
#[verifier::opaque]
pub open spec fn below_dead_link(v: KcpView, current: u32, segs: Seq<SendSegment>, pl: Seq<usize>, j: int) -> bool {
    let (send, ns) = flush_segment(segs[pl[j] as int], current, v.rx_rto, v.nodelay, v.fastresend, v.fastlimit);
    send ==> (ns.xmit as u32) < v.dead_link
}

/// Flushing the pending slot listed at position `k` of `pl` extends the flushed slots by it.
proof fn lemma_flushed_step(
    segs: Seq<SendSegment>,
    pl: Seq<usize>,
    k: int,
    current: u32,
    rx_rto: u32,
    nodelay: bool,
    fastresend: u32,
    fastlimit: u32,
    prev: Seq<SendSegment>,
    now: Seq<SendSegment>,
)
    requires
        0 <= k < pl.len(),
        segs.len() == 256,
        pl[k] < 256,
        forall|j: int| 0 <= j < k ==> pl[j] != pl[k],
        prev == flushed_slots(segs, pl, k, current, rx_rto, nodelay, fastresend, fastlimit),
        now == prev.update(pl[k] as int, flush_segment(segs[pl[k] as int], current, rx_rto, nodelay, fastresend, fastlimit).1),
    ensures
        now == flushed_slots(segs, pl, k + 1, current, rx_rto, nodelay, fastresend, fastlimit),
{
    let fs = flushed_slots(segs, pl, k + 1, current, rx_rto, nodelay, fastresend, fastlimit);
    assert forall|i: int| 0 <= i < 256 implies now[i] == fs[i] by {
        if i == pl[k] {
        } else {
            if exists|j: int| 0 <= j < k + 1 && pl[j] == i {
                let j = choose|j: int| 0 <= j < k + 1 && pl[j] == i;
                assert(j < k);
            }
        }
    }
    assert(now =~= fs);
}

/// A flush of the pending slots `pl` that stopped at position `f`: the slots up to and
/// including `f` are flushed (`nsegs`), and none of the segments before `f` reached the
/// dead-link limit.
pub open spec fn flush_stopped_at(
    v: KcpView,
    current: u32,
    segs: Seq<SendSegment>,
    pl: Seq<usize>,
    f: int,
    nsegs: Seq<SendSegment>,
) -> bool {
    &&& 0 <= f < pl.len()
    &&& nsegs == flushed_slots(segs, pl, f + 1, current, v.rx_rto, v.nodelay, v.fastresend, v.fastlimit)
    &&& forall|j: int| 0 <= j < f ==> #[trigger] below_dead_link(v, current, segs, pl, j)
}

/// Fewer flushed slots send a prefix of the data packets.
proof fn lemma_data_packets_prefix(
    v: KcpView,
    wnd: u16,
    current: u32,
    segs: Seq<SendSegment>,
    bytes: Seq<u8>,
    pl: Seq<usize>,
    j: nat,
    k: nat,
)
    requires
        j <= k,
    ensures
        ({
            let a = data_packets(v, wnd, current, segs, bytes, pl, j);
            let b = data_packets(v, wnd, current, segs, bytes, pl, k);
            a.len() <= b.len() && a == b.take(a.len() as int)
        }),
    decreases k - j,
{
    if j < k {
        lemma_data_packets_prefix(v, wnd, current, segs, bytes, pl, j, (k - 1) as nat);
        let a = data_packets(v, wnd, current, segs, bytes, pl, j);
        let b1 = data_packets(v, wnd, current, segs, bytes, pl, (k - 1) as nat);
        let b = data_packets(v, wnd, current, segs, bytes, pl, k);
        assert(b1 == b.take(b1.len() as int));
        assert(a =~= b.take(a.len() as int));
    } else {
        let a = data_packets(v, wnd, current, segs, bytes, pl, j);
        assert(a =~= a.take(a.len() as int));
    }
}

/// The packets a flush hands to the output after those in `p`: the queued
/// acknowledgments, then the window probes, then the data packets of the send window
/// after the queued segments have been moved into it; `wnd` is the advertised window.
#[verifier::opaque]
pub open spec fn flush_packets(
    v: KcpView,
    b: SendBuffer,
    q: SendBuffer,
    a: AckList,
    wnd: u16,
    p: Seq<Seq<u8>>,
) -> Seq<Seq<u8>> {
    let (pw, tp, pr) = probe_step(v.rmt_wnd, v.probe_wait, v.ts_probe, v.probe, v.current);
    let to_move = move_count(effective_cwnd(v.snd_wnd, v.rmt_wnd, v.cwnd, v.nocwnd), v.snd_nxt, v.snd_una, q);
    let st = move_result(b, q, v.snd_nxt, v.rx_rto, to_move);
    let pl = pending_list(st.snd_segs, 256);
    let dv = KcpView { probe_wait: pw, ts_probe: tp, probe: 0, snd_nxt: Sequence(st.nxt), ..v };
    p + ack_packets(v.conv, wnd, v.rcv_nxt.0, a.view()) + probe_packets(v.conv, wnd, v.rcv_nxt.0, pr)
        + data_packets(dv, wnd, v.current, st.snd_segs, st.snd_bytes, pl, pl.len())
}

/// The effect of a flush: when it completes, all queued acknowledgments sent, the probe
/// timer advanced and its probes sent, queued segments moved into the send window, and
/// every pending segment of the send buffer flushed, with the link still alive; the
/// packets `p` handed to the output before grow to `np`, by all of `flush_packets` when
/// it completes, by a part of them that it begins with when it fails, and the output's
/// answers `o` grow to `no`, one per packet. A flush completes when every answer is a
/// success and no segment reaches `dead_link` transmissions; it fails only after handing
/// out a packet, with the output's error or, after a successful output, a dead link: then
/// the data segment sent last has reached `dead_link` transmissions, the slots up to it
/// flushed and none before it at the limit. The scalar state changes only in the probe fields, the next sequence number and the
/// link state.
#[verifier::opaque]
pub open spec fn flush_effect(
    v: KcpView,
    b: SendBuffer,
    q: SendBuffer,
    a: AckList,
    nv: KcpView,
    nb: SendBuffer,
    nq: SendBuffer,
    na: AckList,
    buf_nxt: Sequence,
    p: Seq<Seq<u8>>,
    np: Seq<Seq<u8>>,
    o: Seq<KcpResult<usize>>,
    no: Seq<KcpResult<usize>>,
    r: KcpResult<()>,
) -> bool {
    let (pw, tp, _pr) = probe_step(v.rmt_wnd, v.probe_wait, v.ts_probe, v.probe, v.current);
    let to_move = move_count(effective_cwnd(v.snd_wnd, v.rmt_wnd, v.cwnd, v.nocwnd), v.snd_nxt, v.snd_una, q);
    let st = move_result(b, q, v.snd_nxt, v.rx_rto, to_move);
    let pl = pending_list(st.snd_segs, 256);
    let dv = KcpView { probe_wait: pw, ts_probe: tp, probe: 0, snd_nxt: Sequence(st.nxt), ..v };
    let full = flush_packets(v, b, q, a, spec_wnd_unused(v.rcv_wnd, buf_nxt, v.rcv_nxt), p);
    &&& nb.wf() && nq.wf() && na.wf()
    &&& r is Ok ==> np == full
    &&& r is Err ==> p.is_prefix_of(np) && np.is_prefix_of(full)
    &&& o.is_prefix_of(no) && no.len() - o.len() == np.len() - p.len()
    &&& r is Ok ==> outcomes_ok(no, o.len() as int, no.len() as int)
        && forall|j: int| 0 <= j < pl.len() ==> #[trigger] below_dead_link(dv, v.current, st.snd_segs, pl, j)
    &&& r is Err ==> p.len() < np.len() && outcomes_ok(no, o.len() as int, no.len() - 1)
        && failure(no.last(), r, v.state, nv.state)
    &&& r is Err && no.last() is Ok ==> exists|f: int|
        #[trigger] flush_stopped_at(dv, v.current, st.snd_segs, pl, f, nb.segs())
        && !below_dead_link(dv, v.current, st.snd_segs, pl, f)
    &&& nv == (KcpView { probe_wait: nv.probe_wait, ts_probe: nv.ts_probe, probe: nv.probe, snd_nxt: nv.snd_nxt, state: nv.state, ..v })
    &&& r is Ok ==> {
        &&& na.view().len() == 0
        &&& nv == (KcpView { probe_wait: pw, ts_probe: tp, probe: 0, snd_nxt: Sequence(st.nxt), ..v })
        &&& nq.segs() == st.q_segs && nq.bytes() == q.bytes() && nq.una() == Sequence(wrap32(q.una().0 + to_move))
        &&& nq.nxt() == q.nxt() && nq.seg_count() == st.q_count
        &&& nb.bytes() == st.snd_bytes && nb.una() == b.una() && nb.seg_count() == st.snd_count
        &&& nb.nxt() == if st.moved > 0 { Sequence(st.nxt) } else { b.nxt() }
        &&& nb.segs() == flushed_slots(st.snd_segs, pl, pl.len() as int, v.current, v.rx_rto, v.nodelay, v.fastresend, v.fastlimit)
    }
    &&& nv.state == v.state || (nv.state == u32::MAX && r == Err::<(), KcpError>(KcpError::DeadLink))
    &&& nv.conv == v.conv && nv.mss == v.mss && nv.mtu == v.mtu && nv.rcv_nxt == v.rcv_nxt
    &&& nv.updated == v.updated && nv.current == v.current && nv.ts_flush == v.ts_flush
}

/// What processing an incoming packet reads and changes: the scalar state; the send
/// buffer's slots, oldest sequence number and count; the receive buffer's slots, bytes,
/// next sequence number and count; the pending acknowledgments; and the newest
/// acknowledged sequence number seen so far, with its timestamp.
pub struct RxModel {
    /// The scalar state
    pub view: KcpView,
    /// Send buffer slots
    pub snd_segs: Seq<SendSegment>,
    /// Oldest sequence number of the send buffer
    pub snd_start: Sequence,
    /// Segments counted in the send buffer
    pub snd_count: u32,
    /// Receive buffer slots
    pub rcv_segs: Seq<RecvSegment>,
    /// Receive buffer bytes
    pub rcv_bytes: Seq<u8>,
    /// Next sequence number of the receive buffer
    pub rcv_start: Sequence,
    /// Segments counted in the receive buffer
    pub rcv_count: u32,
    /// Acknowledgments waiting to be sent
    pub acks: Seq<AckEntry>,
    /// Newest acknowledgment of the packet so far, with its timestamp
    pub max_ack: Option<(Sequence, u32)>,
}

/// The send buffer after `una` acknowledges the run of segments before it.
pub open spec fn rx_una(st: RxModel, una: Sequence) -> RxModel {
    let n = shrink_run(st.snd_segs, st.snd_start.0, una, 256, 0);
    RxModel {
        snd_segs: clear_run(st.snd_segs, st.snd_start.0, n),
        snd_start: Sequence(wrap32(st.snd_start.0 + n)),
        snd_count: sat_sub(st.snd_count, waiting_in_run(st.snd_segs, st.snd_start.0, n)),
        ..st
    }
}

/// The oldest unacknowledged sequence number taken from the send buffer (or the next
/// one, when the buffer is empty).
pub open spec fn rx_shrink(st: RxModel) -> RxModel {
    RxModel {
        view: KcpView {
            snd_una: if st.snd_count == 0 {
                st.view.snd_nxt
            } else {
                st.snd_start
            },
            ..st.view
        },
        ..st
    }
}

/// An acknowledgment segment: a round-trip sample when its timestamp is not ahead of the
/// clock, the acknowledged segment marked, the oldest unacknowledged number taken again,
/// and the newest acknowledgment remembered.
pub open spec fn rx_ack(st: RxModel, h: SegmentHeader) -> RxModel {
    let d = spec_time_diff(st.view.current, h.ts);
    let v1 = if d >= 0 {
        let (s, v) = rtt_smooth(st.view.rx_srtt, st.view.rx_rttval, (d as u32) as i32);
        KcpView {
            rx_srtt: s,
            rx_rttval: v,
            rx_rto: rto_of(s, v, st.view.interval, st.view.rx_minrto),
            ..st.view
        }
    } else {
        st.view
    };
    let sn = Sequence(h.sn);
    let idx = slot256(h.sn);
    let seg = st.snd_segs[idx];
    let hit = seg.state == SegmentState::Sent && seg.sn == sn;
    let st2 = RxModel {
        view: v1,
        snd_segs: if hit {
            st.snd_segs.update(idx, SendSegment { state: SegmentState::Acked, ..seg })
        } else {
            st.snd_segs
        },
        snd_count: if hit {
            if st.snd_count == 0 {
                0
            } else {
                (st.snd_count - 1) as u32
            }
        } else {
            st.snd_count
        },
        max_ack: match st.max_ack {
            Some((m, t)) => if sn.spec_is_after(m) {
                Some((sn, h.ts))
            } else {
                st.max_ack
            },
            None => Some((sn, h.ts)),
        },
        ..st
    };
    rx_shrink(st2)
}

/// A data segment: within the receive window it is acknowledged (when the list has room)
/// and, unless it is older than the next expected one, stored in the receive buffer when
/// that buffer takes it.
pub open spec fn rx_push(st: RxModel, h: SegmentHeader, payload: Seq<u8>) -> RxModel {
    let sn = Sequence(h.sn);
    let in_wnd = sn.spec_is_in_range(
        st.view.rcv_nxt,
        Sequence(wrap32(st.view.rcv_nxt.0 + st.view.rcv_wnd)),
    );
    if !in_wnd {
        st
    } else {
        let acks = if st.acks.len() < 128 {
            st.acks.push(AckEntry { sn: h.sn, ts: h.ts })
        } else {
            st.acks
        };
        let idx = slot256(h.sn);
        let s = st.rcv_segs[idx];
        let takes = sn.spec_is_in_range(st.rcv_start, Sequence(wrap32(st.rcv_start.0 + 256)))
            && !(s.state != SegmentState::Empty && s.sn == sn);
        let len = if payload.len() < MSS_DEFAULT {
            payload.len()
        } else {
            MSS_DEFAULT as nat
        };
        if sn.spec_diff(st.view.rcv_nxt) >= 0 && takes {
            RxModel {
                acks,
                rcv_segs: st.rcv_segs.update(
                    idx,
                    RecvSegment {
                        sn,
                        frg: h.frg,
                        state: SegmentState::Pending,
                        data_len: len as u16,
                        data_offset: (idx * 1376) as u32,
                    },
                ),
                rcv_bytes: splice(st.rcv_bytes, idx * 1376, payload.take(len as int)),
                rcv_count: wrap32(st.rcv_count + 1),
                ..st
            }
        } else {
            RxModel { acks, ..st }
        }
    }
}

/// One segment of this conversation: the remote window and the acknowledgment number are
/// taken, then its command is applied; `false` for an unknown command, which leaves the
/// state after the first two steps.
pub open spec fn rx_segment(st: RxModel, h: SegmentHeader, payload: Seq<u8>) -> (RxModel, bool) {
    let st1 = rx_shrink(
        rx_una(RxModel { view: KcpView { rmt_wnd: h.wnd, ..st.view }, ..st }, Sequence(h.una)),
    );
    if h.cmd == CMD_ACK {
        (rx_ack(st1, h), true)
    } else if h.cmd == CMD_PUSH {
        (rx_push(st1, h, payload), true)
    } else if h.cmd == CMD_WASK {
        (RxModel { view: KcpView { probe: st1.view.probe | 2u8, ..st1.view }, ..st1 }, true)
    } else if h.cmd == CMD_WINS {
        (st1, true)
    } else {
        (st1, false)
    }
}

/// After the last segment: fast-acknowledgment counts from the newest acknowledgment, then
/// the congestion window.
pub open spec fn rx_finish(st: RxModel) -> RxModel {
    let st1 = match st.max_ack {
        Some((sn, _)) => if st.view.snd_una.spec_is_after(sn) || !st.view.snd_nxt.spec_is_after(
            sn,
        ) {
            st
        } else {
            RxModel {
                snd_segs: Seq::new(256, |i: int| fastack_step(st.snd_segs[i], sn, st.view.snd_una)),
                ..st
            }
        },
        None => st,
    };
    let (c, i) = if st1.view.nocwnd {
        (st1.view.cwnd, st1.view.incr)
    } else {
        cwnd_next(st1.view.cwnd, st1.view.incr, st1.view.ssthresh, st1.view.mss, st1.view.rmt_wnd)
    };
    RxModel { view: KcpView { cwnd: c, incr: i, ..st1.view }, ..st1 }
}

/// The segments of a packet from `offset` on, processed one after another: the state
/// afterwards and the verdict. The packet ends where no whole segment remains; a segment
/// of another conversation stops it with `ConvMismatch` and nothing changed by it, an
/// unknown command with `InvalidPacket`.
pub open spec fn rx_packet(st: RxModel, data: Seq<u8>, offset: nat) -> (RxModel, Result<(), KcpError>)
    decreases data.len() - offset,
{
    if offset + HEADER_SIZE > data.len() {
        (rx_finish(st), Ok(()))
    } else {
        let h = header_from_bytes(data.skip(offset as int));
        if data.len() - offset < HEADER_SIZE + h.len {
            (rx_finish(st), Ok(()))
        } else if h.conv != st.view.conv {
            (st, Err(KcpError::ConvMismatch))
        } else {
            let (st1, known) = rx_segment(
                st,
                h,
                data.subrange(offset + HEADER_SIZE, offset + HEADER_SIZE + h.len),
            );
            if !known {
                (st1, Err(KcpError::InvalidPacket))
            } else {
                rx_packet(st1, data, (offset + HEADER_SIZE + h.len) as nat)
            }
        }
    }
}

/// A packet that holds one segment of the receiver's conversation with a known command,
/// such as each packet that a flush sends (`cmd_packet`, `data_packet`), is accepted and
/// processed as exactly that segment, carrying exactly its data.
pub proof fn lemma_single_segment_packet(st: RxModel, h: SegmentHeader, payload: Seq<u8>)
    requires
        h.len == payload.len(),
        h.conv == st.view.conv,
        h.cmd == CMD_ACK || h.cmd == CMD_PUSH || h.cmd == CMD_WASK || h.cmd == CMD_WINS,
    ensures
        rx_packet(st, segment_bytes(h, payload), 0) == (rx_finish(rx_segment(st, h, payload).0), Ok::<(), KcpError>(())),
        packet_verdict(segment_bytes(h, payload), h.conv) == Ok::<(), KcpError>(()),
{
    let data = segment_bytes(h, payload);
    crate::codec::lemma_segment_roundtrip(h, payload, Seq::empty());
    assert(data + Seq::<u8>::empty() =~= data);
    assert(data.skip(0) =~= data);
    let end = (HEADER_SIZE + h.len) as nat;
    assert(data.len() == end);
    assert(rx_packet(rx_segment(st, h, payload).0, data, end) == (rx_finish(rx_segment(st, h, payload).0), Ok::<(), KcpError>(())));
    assert(segments_verdict(data, h.conv, end) == Ok::<(), KcpError>(()));
}

/// Taking the segment `h` with `payload` into a receive window with room, at the next
/// expected sequence number and a free slot, stores it whole at that slot.
#[verifier::spinoff_prover]
proof fn lemma_push_stores(st1: RxModel, h: SegmentHeader, payload: Seq<u8>)
    requires
        h.frg == 0,
        0 < payload.len() <= MSS_DEFAULT,
        h.sn == st1.view.rcv_nxt.0,
        st1.rcv_start == st1.view.rcv_nxt,
        st1.view.rcv_wnd > 0,
        st1.rcv_segs.len() == 256,
        st1.rcv_bytes.len() == 256 * 1376,
        st1.rcv_segs[slot256(h.sn)].state == SegmentState::Empty,
    ensures
        ({
            let st2 = rx_push(st1, h, payload);
            let idx = slot256(h.sn);
            &&& st2.rcv_start == st1.rcv_start
            &&& st2.rcv_segs == st1.rcv_segs.update(
                idx,
                RecvSegment {
                    sn: Sequence(h.sn),
                    frg: 0,
                    state: SegmentState::Pending,
                    data_len: payload.len() as u16,
                    data_offset: (idx * 1376) as u32,
                },
            )
            &&& st2.rcv_bytes == splice(st1.rcv_bytes, idx * 1376, payload)
        }),
{
    assert(seq_dist(h.sn, h.sn) == 0);
    assert(seq_dist(wrap32(st1.view.rcv_nxt.0 + st1.view.rcv_wnd), st1.view.rcv_nxt.0) == st1.view.rcv_wnd);
    assert(seq_dist(wrap32(st1.rcv_start.0 + 256), st1.rcv_start.0) == 256);
    assert(payload.take(payload.len() as int) =~= payload);
}

/// In-order delivery of a one-segment message: a PUSH packet of the receiver's
/// conversation carrying the whole message `payload` (fragment index 0) with the next
/// expected sequence number, whose slot is free in a receive window with room, is taken
/// into the receive buffer as the complete message `payload` at its head.
#[verifier::spinoff_prover]
#[verifier::rlimit(50)]
pub proof fn lemma_in_order_delivery(st: RxModel, h: SegmentHeader, payload: Seq<u8>)
    requires
        h.cmd == CMD_PUSH,
        h.frg == 0,
        h.len == payload.len(),
        0 < payload.len() <= MSS_DEFAULT,
        h.conv == st.view.conv,
        h.sn == st.view.rcv_nxt.0,
        st.rcv_start == st.view.rcv_nxt,
        st.view.rcv_wnd > 0,
        st.rcv_segs.len() == 256,
        st.rcv_bytes.len() == 256 * 1376,
        st.rcv_segs[slot256(h.sn)].state == SegmentState::Empty,
    ensures
        ({
            let st2 = rx_packet(st, segment_bytes(h, payload), 0).0;
            let nxt = st2.rcv_start.0;
            &&& nxt == h.sn
            &&& msg_complete(st2.rcv_segs, nxt)
            &&& msg_segments(st2.rcv_segs, nxt) == 1
            &&& msg_total(st2.rcv_segs, nxt, 1) == payload.len()
            &&& msg_bytes(st2.rcv_segs, st2.rcv_bytes, nxt, 1) == payload
        }),
{
    lemma_single_segment_packet(st, h, payload);
    let st1 = lemma_push_segment(st, h, payload);
    let st2 = rx_push(st1, h, payload);
    lemma_push_stores(st1, h, payload);
    lemma_finish_keeps_receive(st2);
    lemma_single_message(st2.rcv_segs, st2.rcv_bytes, st.rcv_segs, st.rcv_bytes, h.sn, payload);
}

/// A data segment is taken after the window and acknowledgment steps, which leave the
/// receive side as it was.
proof fn lemma_push_segment(st: RxModel, h: SegmentHeader, payload: Seq<u8>) -> (st1: RxModel)
    requires
        h.cmd == CMD_PUSH,
    ensures
        rx_segment(st, h, payload).0 == rx_push(st1, h, payload),
        st1.rcv_segs == st.rcv_segs,
        st1.rcv_bytes == st.rcv_bytes,
        st1.rcv_start == st.rcv_start,
        st1.view.rcv_nxt == st.view.rcv_nxt,
        st1.view.rcv_wnd == st.view.rcv_wnd,
{
    let st0 = RxModel { view: KcpView { rmt_wnd: h.wnd, ..st.view }, ..st };
    rx_shrink(rx_una(st0, Sequence(h.una)))
}

/// The end of a packet leaves the receive side as it was.
proof fn lemma_finish_keeps_receive(st: RxModel)
    ensures
        rx_finish(st).rcv_segs == st.rcv_segs,
        rx_finish(st).rcv_bytes == st.rcv_bytes,
        rx_finish(st).rcv_start == st.rcv_start,
{
}

/// A slot holding the whole message `payload` as one pending segment numbered `sn` makes a
/// complete one-segment message at `sn`.
proof fn lemma_single_message(
    segs: Seq<RecvSegment>,
    bytes: Seq<u8>,
    segs0: Seq<RecvSegment>,
    bytes0: Seq<u8>,
    sn: u32,
    payload: Seq<u8>,
)
    requires
        0 < payload.len() <= MSS_DEFAULT,
        segs0.len() == 256,
        bytes0.len() == 256 * 1376,
        segs == segs0.update(
            slot256(sn),
            RecvSegment {
                sn: Sequence(sn),
                frg: 0,
                state: SegmentState::Pending,
                data_len: payload.len() as u16,
                data_offset: (slot256(sn) * 1376) as u32,
            },
        ),
        bytes == splice(bytes0, slot256(sn) * 1376, payload),
    ensures
        msg_complete(segs, sn),
        msg_segments(segs, sn) == 1,
        msg_total(segs, sn, 1) == payload.len(),
        msg_bytes(segs, bytes, sn, 1) == payload,
{
    let idx = slot256(sn);
    assert(rslot(sn, 0) == idx);
    assert(wrap32(sn + 0) == sn);
    assert(0 <= idx < 256);
    assert(0 <= idx * 1376 <= 255 * 1376) by (nonlinear_arith)
        requires
            0 <= idx < 256,
    ;
    assert(segs[idx].data_offset == idx * 1376);
    assert(segs[idx].data_len == payload.len());
    assert(bytes.subrange(idx * 1376, idx * 1376 + payload.len()) =~= payload);
    assert(msg_bytes(segs, bytes, sn, 0) == Seq::<u8>::empty());
    assert(msg_total(segs, sn, 0) == 0);
    assert(msg_bytes(segs, bytes, sn, 1) =~= payload);
}

/// KCP control block. All buffers are allocated when it is created.
pub struct Kcp<O: KcpOutput> {
    conv: u32,
    current: u32,
    snd_una: Sequence,
    snd_nxt: Sequence,
    rcv_nxt: Sequence,
    snd_wnd: u16,
    rcv_wnd: u16,
    rmt_wnd: u16,
    cwnd: u16,
    rx_rto: u32,
    rx_srtt: i32,
    rx_rttval: i32,
    rx_minrto: u32,
    state: u32,
    updated: bool,
    ts_flush: u32,
    interval: u32,
    ssthresh: u32,
    incr: u32,
    probe: u8,
    ts_probe: u32,
    probe_wait: u32,
    dead_link: u32,
    mtu: u32,
    mss: u32,
    nodelay: bool,
    fastresend: u32,
    fastlimit: u32,
    nocwnd: bool,
    stream: bool,
    snd_buf: SendBuffer,
    rcv_buf: RecvBuffer,
    ack_list: AckList,
    snd_queue: SendBuffer,
    output_buf: Vec<u8>,
    output: O,
    sent: Ghost<Seq<Seq<u8>>>,
    outs: Ghost<Seq<KcpResult<usize>>>,
}

impl<O: KcpOutput> Kcp<O> {
    /// The scalar state.
    pub closed spec fn view(&self) -> KcpView {
        KcpView {
            conv: self.conv,
            current: self.current,
            snd_una: self.snd_una,
            snd_nxt: self.snd_nxt,
            rcv_nxt: self.rcv_nxt,
            snd_wnd: self.snd_wnd,
            rcv_wnd: self.rcv_wnd,
            rmt_wnd: self.rmt_wnd,
            cwnd: self.cwnd,
            rx_rto: self.rx_rto,
            rx_srtt: self.rx_srtt,
            rx_rttval: self.rx_rttval,
            rx_minrto: self.rx_minrto,
            state: self.state,
            updated: self.updated,
            ts_flush: self.ts_flush,
            interval: self.interval,
            ssthresh: self.ssthresh,
            incr: self.incr,
            probe: self.probe,
            ts_probe: self.ts_probe,
            probe_wait: self.probe_wait,
            dead_link: self.dead_link,
            mtu: self.mtu,
            mss: self.mss,
            nodelay: self.nodelay,
            fastresend: self.fastresend,
            fastlimit: self.fastlimit,
            nocwnd: self.nocwnd,
            stream: self.stream,
        }
    }

    /// Segments moved to the send window, awaiting transmission or acknowledgment.
    pub closed spec fn send_buffer(&self) -> SendBuffer {
        self.snd_buf
    }

    /// Segments queued by `send`, not yet in the send window.
    pub closed spec fn send_queue(&self) -> SendBuffer {
        self.snd_queue
    }

    /// Received segments awaiting reassembly.
    pub closed spec fn recv_buffer(&self) -> RecvBuffer {
        self.rcv_buf
    }

    /// Acknowledgments waiting to be sent.
    pub closed spec fn acks(&self) -> AckList {
        self.ack_list
    }

    /// The output callback.
    pub closed spec fn output_ref(&self) -> O {
        self.output
    }

    /// The packets handed to the output callback so far, oldest first.
    pub closed spec fn packets(&self) -> Seq<Seq<u8>> {
        self.sent@
    }

    /// What the output callback returned for each packet handed to it, oldest first.
    pub closed spec fn outcomes(&self) -> Seq<KcpResult<usize>> {
        self.outs@
    }

    /// The state that processing a packet reads and changes, with the newest
    /// acknowledgment seen so far.
    pub closed spec fn rx_state(&self, max_ack: Option<(Sequence, u32)>) -> RxModel {
        RxModel {
            view: self@,
            snd_segs: self.snd_buf.segs(),
            snd_start: self.snd_buf.una(),
            snd_count: self.snd_buf.seg_count(),
            rcv_segs: self.rcv_buf.segs(),
            rcv_bytes: self.rcv_buf.bytes(),
            rcv_start: self.rcv_buf.nxt(),
            rcv_count: self.rcv_buf.seg_count(),
            acks: self.ack_list@,
            max_ack,
        }
    }

    /// Internal consistency of the control block.
    pub closed spec fn wf(&self) -> bool {
        &&& self.snd_buf.wf()
        &&& self.rcv_buf.wf()
        &&& self.ack_list.wf()
        &&& self.snd_queue.wf()
        &&& self.output_buf@.len() == MTU_DEFAULT + HEADER_SIZE
        &&& self.mtu >= HEADER_SIZE
        &&& self.mss == self.mtu - HEADER_SIZE
        &&& self.rx_rto <= RTO_MAX
        &&& self.rx_minrto <= RTO_MAX
        &&& self.rx_minrto <= self.rx_rto
        &&& self.outs@.len() == self.sent@.len()
    }

    /// The retransmission timeout always lies between the minimum timeout and the maximum
    /// of 60 seconds: it starts at the default of 200 ms, and every round-trip sample
    /// clamps it into that range.
    pub proof fn lemma_rto_bounds(&self)
        requires
            self.wf(),
        ensures
            self@.rx_minrto <= self@.rx_rto <= RTO_MAX,
    {
    }

    /// In-order delivery through `input` and `recv`: when `next` is this control block after
    /// `input` of a one-segment PUSH packet that carries the whole message `payload` with
    /// the next expected sequence number, into a free slot of a window with room (as the
    /// contract of `input` describes it), the message at the head of `next`'s receive
    /// buffer is complete and is `payload`; a following `recv` into a buffer with room for
    /// it therefore returns `payload` (the contract of `recv`, through `recv_read`).
    pub proof fn lemma_input_then_recv(&self, next: &Self, h: SegmentHeader, payload: Seq<u8>, max_ack: Option<(Sequence, u32)>)
        requires
            self.wf(),
            h.cmd == CMD_PUSH,
            h.frg == 0,
            h.len == payload.len(),
            0 < payload.len() <= MSS_DEFAULT,
            h.conv == self@.conv,
            h.sn == self@.rcv_nxt.0,
            self.recv_buffer().nxt() == self@.rcv_nxt,
            self@.rcv_wnd > 0,
            self.recv_buffer().segs()[slot256(h.sn)].state == SegmentState::Empty,
            next.rx_state(max_ack) == rx_packet(self.rx_state(None), segment_bytes(h, payload), 0).0,
        ensures
            ({
                let b = next.recv_buffer();
                let nxt = b.nxt().0;
                &&& nxt == h.sn
                &&& msg_complete(b.segs(), nxt)
                &&& msg_segments(b.segs(), nxt) == 1
                &&& msg_total(b.segs(), nxt, 1) == payload.len()
                &&& msg_bytes(b.segs(), b.bytes(), nxt, 1) == payload
            }),
    {
        self.rcv_buf.lemma_sizes();
        lemma_in_order_delivery(self.rx_state(None), h, payload);
    }

    /// Create new KCP instance with the default configuration
    pub fn new(conv: u32, output: O) -> (r: Self)
        ensures
            r.wf(),
            r@ == initial_view(
                conv,
                KcpConfig {
                    mtu: 1400,
                    interval: 100,
                    nodelay: false,
                    resend: 0,
                    nc: false,
                    snd_wnd: 32,
                    rcv_wnd: 128,
                    stream: false,
                },
            ),
            r.output_ref() == output,
            r.packets() == Seq::<Seq<u8>>::empty(),
            r.outcomes() == Seq::<KcpResult<usize>>::empty(),
            r.send_buffer().segs() == Seq::new(256, |i: int| SendSegment::empty()),
            r.send_queue().segs() == Seq::new(256, |i: int| SendSegment::empty()),
            r.send_buffer().seg_count() == 0 && r.send_queue().seg_count() == 0,
            r.acks().view().len() == 0,
            r.recv_buffer().nxt() == Sequence(0) && r.recv_buffer().seg_count() == 0,
    {
        Self::with_config(conv, output, KcpConfig::default())
    }

    /// Create with configuration; the MTU must hold at least a header
    pub fn with_config(conv: u32, output: O, config: KcpConfig) -> (r: Self)
        requires
            config.mtu >= HEADER_SIZE,
        ensures
            r.wf(),
            r@ == initial_view(conv, config),
            r.output_ref() == output,
            r.packets() == Seq::<Seq<u8>>::empty(),
            r.outcomes() == Seq::<KcpResult<usize>>::empty(),
            r.send_buffer().segs() == Seq::new(256, |i: int| SendSegment::empty()),
            r.send_queue().segs() == Seq::new(256, |i: int| SendSegment::empty()),
            r.send_buffer().seg_count() == 0 && r.send_queue().seg_count() == 0,
            r.send_buffer().una() == Sequence(0) && r.send_buffer().nxt() == Sequence(0),
            r.send_queue().una() == Sequence(0) && r.send_queue().nxt() == Sequence(0),
            r.acks().view().len() == 0,
            r.recv_buffer().segs() == Seq::new(256, |i: int| crate::segment::RecvSegment::empty()),
            r.recv_buffer().nxt() == Sequence(0) && r.recv_buffer().seg_count() == 0,
    {
        let mss = config.mtu - HEADER_SIZE as u32;
        Kcp {
            conv,
            current: 0,
            snd_una: Sequence::new(0),
            snd_nxt: Sequence::new(0),
            rcv_nxt: Sequence::new(0),
            snd_wnd: config.snd_wnd,
            rcv_wnd: config.rcv_wnd,
            rmt_wnd: config.rcv_wnd,
            cwnd: 0,
            rx_rto: RTO_DEFAULT,
            rx_srtt: 0,
            rx_rttval: 0,
            rx_minrto: if config.nodelay { RTO_NDL } else { RTO_MIN },
            state: 0,
            updated: false,
            ts_flush: INTERVAL_DEFAULT,
            interval: config.interval,
            ssthresh: THRESH_INIT,
            incr: 0,
            probe: 0,
            ts_probe: 0,
            probe_wait: 0,
            dead_link: DEAD_LINK,
            mtu: config.mtu,
            mss,
            nodelay: config.nodelay,
            fastresend: config.resend,
            fastlimit: 5,
            nocwnd: config.nc,
            stream: config.stream,
            snd_buf: SendBuffer::new(),
            rcv_buf: RecvBuffer::new(),
            ack_list: AckList::new(),
            snd_queue: SendBuffer::new(),
            output_buf: vec![0u8; MTU_DEFAULT + HEADER_SIZE],
            output,
            sent: Ghost(Seq::empty()),
            outs: Ghost(Seq::empty()),
        }
    }

    /// Unused receive window
    fn wnd_unused(&self) -> (r: u16)
        ensures
            r == spec_wnd_unused(self.rcv_wnd, self.rcv_buf.nxt(), self.rcv_nxt),
    {
        let queue_len = self.rcv_buf.rcv_nxt().0.wrapping_sub(self.rcv_nxt.0);
        if queue_len < self.rcv_wnd as u32 {
            (self.rcv_wnd as u32 - queue_len) as u16
        } else {
            0
        }
    }

    /// Send data: cut it into segments of at most MSS bytes and queue them.
    ///
    /// Empty data is accepted and queues nothing. More than 128 fragments is `DataTooLarge`,
    /// with nothing queued. When the queue fills up (or a fragment exceeds the queue's slot
    /// size), `BufferFull` is returned and the fragments inserted so far stay queued.
    pub fn send(&mut self, data: &[u8]) -> (r: KcpResult<usize>)
        requires
            old(self).wf(),
            data@.len() == 0 || old(self)@.mss > 0,
        ensures
            final(self).wf(),
            final(self)@ == old(self)@,
            final(self).send_buffer() == old(self).send_buffer(),
            final(self).recv_buffer() == old(self).recv_buffer(),
            final(self).acks() == old(self).acks(),
            final(self).output_ref() == old(self).output_ref(),
            final(self).packets() == old(self).packets() && final(self).outcomes() == old(self).outcomes(),
            final(self).send_queue().una() == old(self).send_queue().una(),
            ({
                let q = old(self).send_queue();
                let nq = final(self).send_queue();
                let len = data@.len();
                let mss = old(self)@.mss as nat;
                let count = fragment_count(len, mss);
                let base = q.nxt().0;
                let stream = old(self)@.stream;
                let first_len = fragment(data@, mss, 0).len();
                &&& len == 0 ==> r == Ok::<usize, KcpError>(0) && nq == q
                &&& len > 0 && count > 128 ==> r == Err::<usize, KcpError>(KcpError::DataTooLarge) && nq == q
                &&& len > 0 && count <= 128 && q.seg_count() + count <= 256 && first_len <= MSS_DEFAULT ==> {
                    &&& r == Ok::<usize, KcpError>(len as usize)
                    &&& nq.segs() == queued_segs(q.segs(), base, data@, mss, stream, count, count)
                    &&& nq.bytes() == queued_bytes(q.bytes(), base, data@, mss, count)
                    &&& nq.seg_count() == q.seg_count() + count
                    &&& nq.nxt() == Sequence(wrap32(base + count))
                }
                &&& len > 0 && count <= 128 && !(q.seg_count() + count <= 256 && first_len <= MSS_DEFAULT) ==> {
                    let j = send_partial(first_len, q.seg_count());
                    &&& r == Err::<usize, KcpError>(KcpError::BufferFull)
                    &&& nq.segs() == queued_segs(q.segs(), base, data@, mss, stream, count, j)
                    &&& nq.bytes() == queued_bytes(q.bytes(), base, data@, mss, j)
                    &&& nq.seg_count() == q.seg_count() + j
                    &&& nq.nxt() == q.nxt()
                }
            }),
    {
        if data.len() == 0 {
            return Ok(0);
        }
        let mss = self.mss as usize;
        let len = data.len();
        proof {
            assert(len % mss != 0 ==> len / mss < usize::MAX) by (nonlinear_arith)
                requires
                    mss > 0,
                    len <= usize::MAX,
            ;
            assert(len > mss ==> len / mss >= 1) by (nonlinear_arith)
                requires
                    mss > 0,
            ;
        }
        let count: usize = if len <= mss {
            1
        } else {
            len / mss + if len % mss != 0 { 1 } else { 0 }
        };
        if count > FRAGMENT_CAPACITY {
            return Err(KcpError::DataTooLarge);
        }
        let base_sn = self.snd_queue.snd_nxt();
        let ghost q0 = self.snd_queue;
        let ghost first_len = fragment(data@, mss as nat, 0).len();
        let ghost j_fail = send_partial(first_len, q0.seg_count());
        proof {
            lemma_fragment_bounds(data@.len(), mss as nat, 0);
            self.snd_queue.lemma_wf();
        }
        let mut offset: usize = 0;
        let mut i: usize = 0;
        while i < count
            invariant
                self.wf(),
                self@ == old(self)@,
                self.snd_buf == old(self).snd_buf,
                self.rcv_buf == old(self).rcv_buf,
                self.ack_list == old(self).ack_list,
                self.output == old(self).output,
                self.sent == old(self).sent,
                self.outs == old(self).outs,
                q0 == old(self).snd_queue,
                mss == self.mss,
                mss > 0,
                data@.len() > 0,
                count == fragment_count(data@.len(), mss as nat),
                count <= 128,
                base_sn == q0.nxt(),
                first_len == fragment(data@, mss as nat, 0).len(),
                j_fail == send_partial(first_len, q0.seg_count()),
                0 <= i <= count,
                i < count ==> offset == i * mss,
                offset <= data@.len(),
                i > 0 ==> first_len <= MSS_DEFAULT,
                q0.seg_count() + i <= 256,
                self.snd_queue.segs() == queued_segs(q0.segs(), base_sn.0, data@, mss as nat, self.stream, count as nat, i as nat),
                self.snd_queue.bytes() == queued_bytes(q0.bytes(), base_sn.0, data@, mss as nat, i as nat),
                self.snd_queue.seg_count() == q0.seg_count() + i,
                self.snd_queue.una() == q0.una(),
                self.snd_queue.nxt() == q0.nxt(),
            decreases count - i,
        {
            proof {
                lemma_fragment_bounds(data@.len(), mss as nat, i as nat);
            }
            let size = if data.len() - offset < mss { data.len() - offset } else { mss };
            let frg: u8 = if self.stream { 0 } else { (count - i - 1) as u8 };
            let sn = base_sn.add(i as u32);
            let part = vstd::slice::slice_subrange(data, offset, offset + size);
            proof {
                assert(part@ =~= fragment(data@, mss as nat, i as nat));
                if i > 0 {
                    assert(size <= mss);
                }
            }
            if !self.snd_queue.insert(sn, frg, part) {
                proof {
                    assert(i == j_fail);
                }
                return Err(KcpError::BufferFull);
            }
            offset = offset + size;
            i = i + 1;
        }
        self.snd_queue.set_snd_nxt(base_sn.add(count as u32));
        Ok(data.len())
    }

    /// Receive one reassembled message into `buf`; `WouldBlock` when no complete message
    /// fits (or the message is empty). The receive window then starts after the messages
    /// delivered so far.
    pub fn recv(&mut self, buf: &mut [u8]) -> (r: KcpResult<usize>)
        requires
            old(self).wf(),
        ensures
            final(self).wf(),
            final(self)@ == (KcpView { rcv_nxt: final(self).recv_buffer().nxt(), ..old(self)@ }),
            final(self).send_buffer() == old(self).send_buffer(),
            final(self).send_queue() == old(self).send_queue(),
            final(self).acks() == old(self).acks(),
            final(self).output_ref() == old(self).output_ref(),
            final(self).packets() == old(self).packets() && final(self).outcomes() == old(self).outcomes(),
            exists|n: usize|
                recv_read(old(self).recv_buffer(), final(self).recv_buffer(), old(buf)@, final(buf)@, n)
                    && r == if n == 0 {
                    Err::<usize, KcpError>(KcpError::WouldBlock)
                } else {
                    Ok::<usize, KcpError>(n)
                },
    {
        let n = self.rcv_buf.read(buf);
        self.rcv_nxt = self.rcv_buf.rcv_nxt();
        proof {
            assert(recv_read(old(self).recv_buffer(), self.recv_buffer(), old(buf)@, buf@, n));
        }
        if n == 0 {
            return Err(KcpError::WouldBlock);
        }
        Ok(n)
    }

    /// Smoothed RTT estimation from one sample
    fn update_rtt(&mut self, rtt: u32)
        requires
            old(self).wf(),
            rtt < 0x8000_0000,
        ensures
            final(self).wf(),
            ({
                let (s, v) = rtt_smooth(old(self).rx_srtt, old(self).rx_rttval, rtt as i32);
                &&& final(self).rx_srtt == s
                &&& final(self).rx_rttval == v
                &&& final(self).rx_rto == rto_of(s, v, old(self).interval, old(self).rx_minrto)
            }),
            final(self).snd_buf == old(self).snd_buf,
            final(self).snd_queue == old(self).snd_queue,
            final(self).rcv_buf == old(self).rcv_buf,
            final(self).ack_list == old(self).ack_list,
            final(self).output == old(self).output,
            final(self).sent == old(self).sent && final(self).outs == old(self).outs,
            final(self).output_buf == old(self).output_buf,
            final(self)@ == (KcpView { rx_srtt: final(self).rx_srtt, rx_rttval: final(self).rx_rttval, rx_rto: final(self).rx_rto, ..old(self)@ }),
    {
        let (srtt, rttval) = smooth_rtt(self.rx_srtt, self.rx_rttval, rtt as i32);
        self.rx_srtt = srtt;
        self.rx_rttval = rttval;
        self.rx_rto = compute_rto(srtt, rttval, self.interval, self.rx_minrto);
    }

    /// Remove the segments acknowledged by `una` from the send buffer
    fn parse_una(&mut self, una: Sequence)
        requires
            old(self).wf(),
        ensures
            final(self).wf(),
            ({
                let b = old(self).snd_buf;
                let n = shrink_run(b.segs(), b.una().0, una, 256, 0);
                &&& final(self).snd_buf.segs() == clear_run(b.segs(), b.una().0, n)
                &&& final(self).snd_buf.una() == Sequence(wrap32(b.una().0 + n))
                &&& final(self).snd_buf.seg_count() == sat_sub(b.seg_count(), waiting_in_run(b.segs(), b.una().0, n))
                &&& final(self).snd_buf.bytes() == b.bytes()
                &&& final(self).snd_buf.nxt() == b.nxt()
            }),
            final(self)@ == old(self)@,
            final(self).snd_queue == old(self).snd_queue,
            final(self).rcv_buf == old(self).rcv_buf,
            final(self).ack_list == old(self).ack_list,
            final(self).output == old(self).output,
            final(self).sent == old(self).sent && final(self).outs == old(self).outs,
            final(self).output_buf == old(self).output_buf,
    {
        self.snd_buf.shrink(una);
    }

    /// Take `snd_una` from the send buffer, or `snd_nxt` when it is empty
    fn shrink_buf(&mut self)
        requires
            old(self).wf(),
        ensures
            final(self).wf(),
            final(self)@ == (KcpView {
                snd_una: if old(self).snd_buf.seg_count() == 0 {
                    old(self).snd_nxt
                } else {
                    old(self).snd_buf.una()
                },
                ..old(self)@
            }),
            final(self).snd_buf == old(self).snd_buf,
            final(self).snd_queue == old(self).snd_queue,
            final(self).rcv_buf == old(self).rcv_buf,
            final(self).ack_list == old(self).ack_list,
            final(self).output == old(self).output,
            final(self).sent == old(self).sent && final(self).outs == old(self).outs,
            final(self).output_buf == old(self).output_buf,
    {
        self.snd_una = self.snd_buf.snd_una();
        if self.snd_buf.is_empty() {
            self.snd_una = self.snd_nxt;
        }
    }

    /// Process an ACK segment: sample the RTT, acknowledge the segment, and track the
    /// latest acknowledged sequence number
    #[verifier::spinoff_prover]
    #[verifier::rlimit(100)]
    fn process_ack(&mut self, header: &SegmentHeader, max_ack: &mut Option<(Sequence, u32)>)
        requires
            old(self).wf(),
        ensures
            final(self).wf(),
            final(self).snd_queue == old(self).snd_queue,
            final(self).rcv_buf == old(self).rcv_buf,
            final(self).ack_list == old(self).ack_list,
            final(self).output == old(self).output,
            final(self).sent == old(self).sent && final(self).outs == old(self).outs,
            final(self).output_buf == old(self).output_buf,
            final(self).conv == old(self).conv && final(self).mtu == old(self).mtu
                && final(self).mss == old(self).mss && final(self).snd_nxt == old(self).snd_nxt
                && final(self).rcv_nxt == old(self).rcv_nxt && final(self).rmt_wnd == old(self).rmt_wnd
                && final(self).probe == old(self).probe && final(self).updated == old(self).updated
                && final(self).cwnd == old(self).cwnd && final(self).incr == old(self).incr
                && final(self).nocwnd == old(self).nocwnd && final(self).current == old(self).current
                && final(self).state == old(self).state && final(self).interval == old(self).interval
                && final(self).ts_flush == old(self).ts_flush,
            ({
                let sn = Sequence(header.sn);
                match *old(max_ack) {
                    Some((m, _)) => *final(max_ack) == if sn.spec_is_after(m) {
                        Some((sn, header.ts))
                    } else {
                        *old(max_ack)
                    },
                    None => *final(max_ack) == Some((sn, header.ts)),
                }
            }),
            final(self).rx_state(*final(max_ack)) == rx_ack(old(self).rx_state(*old(max_ack)), *header),
            final(self).snd_buf.bytes() == old(self).snd_buf.bytes(),
            final(self).snd_buf.nxt() == old(self).snd_buf.nxt(),
    {
        let sn = Sequence::new(header.sn);
        if time_diff(self.current, header.ts) >= 0 {
            let d = time_diff(self.current, header.ts);
            self.update_rtt(d as u32);
        }
        self.snd_buf.ack(sn);
        self.shrink_buf();
        match *max_ack {
            Some((max_sn, _)) => {
                if sn.is_after(max_sn) {
                    *max_ack = Some((sn, header.ts));
                }
            },
            None => {
                *max_ack = Some((sn, header.ts));
            },
        }
    }

    /// Process a PUSH segment: inside the receive window, queue its ACK and store it
    #[verifier::spinoff_prover]
    #[verifier::rlimit(100)]
    fn process_push(&mut self, header: &SegmentHeader, data: &[u8])
        requires
            old(self).wf(),
        ensures
            final(self).wf(),
            final(self)@ == old(self)@,
            final(self).snd_buf == old(self).snd_buf,
            final(self).snd_queue == old(self).snd_queue,
            final(self).output == old(self).output,
            final(self).sent == old(self).sent && final(self).outs == old(self).outs,
            final(self).output_buf == old(self).output_buf,
            ({
                let sn = Sequence(header.sn);
                let in_wnd = sn.spec_is_in_range(old(self).rcv_nxt, Sequence(wrap32(old(self).rcv_nxt.0 + old(self).rcv_wnd)));
                &&& !in_wnd ==> final(self).ack_list == old(self).ack_list && final(self).rcv_buf == old(self).rcv_buf
                &&& in_wnd ==> (old(self).ack_list.view().len() < 128 ==> final(self).ack_list.view() == old(self).ack_list.view().push(crate::segment::AckEntry { sn: header.sn, ts: header.ts }))
                &&& in_wnd ==> (old(self).ack_list.view().len() >= 128 ==> final(self).ack_list.view() == old(self).ack_list.view())
            }),
            forall|m: Option<(Sequence, u32)>| #[trigger] final(self).rx_state(m) == rx_push(
                old(self).rx_state(m),
                *header,
                data@,
            ),
    {
        let sn = Sequence::new(header.sn);
        let wnd_end = self.rcv_nxt.add(self.rcv_wnd as u32);
        if !sn.is_in_range(self.rcv_nxt, wnd_end) {
            return;
        }
        self.ack_list.push(header.sn, header.ts);
        if sn.diff(self.rcv_nxt) >= 0 {
            self.rcv_buf.insert(sn, header.frg, data);
        }
    }

    /// Count a fast-ACK skip for the segments in flight before `sn`, when `sn` is in flight
    fn parse_fastack(&mut self, sn: Sequence)
        requires
            old(self).wf(),
        ensures
            final(self).wf(),
            final(self)@ == old(self)@,
            final(self).snd_queue == old(self).snd_queue,
            final(self).rcv_buf == old(self).rcv_buf,
            final(self).ack_list == old(self).ack_list,
            final(self).output == old(self).output,
            final(self).sent == old(self).sent && final(self).outs == old(self).outs,
            final(self).output_buf == old(self).output_buf,
            final(self).snd_buf.bytes() == old(self).snd_buf.bytes(),
            final(self).snd_buf.una() == old(self).snd_buf.una(),
            final(self).snd_buf.nxt() == old(self).snd_buf.nxt(),
            final(self).snd_buf.seg_count() == old(self).snd_buf.seg_count(),
            ({
                let skip = old(self).snd_una.spec_is_after(sn) || !old(self).snd_nxt.spec_is_after(sn);
                &&& skip ==> final(self).snd_buf.segs() == old(self).snd_buf.segs()
                &&& !skip ==> final(self).snd_buf.segs() == Seq::new(256, |i: int| fastack_step(old(self).snd_buf.segs()[i], sn, old(self).snd_una))
            }),
    {
        if sn.is_before(self.snd_una) || !sn.is_before(self.snd_nxt) {
            return;
        }
        self.snd_buf.increment_fastack(sn, self.snd_una);
    }

    /// Grow the congestion window (slow start, then congestion avoidance), capped by the remote window
    fn update_cwnd(&mut self)
        requires
            old(self).wf(),
            old(self).nocwnd || 0 < old(self).mss < 65536,
        ensures
            final(self).wf(),
            ({
                let (c, i) = if old(self).nocwnd {
                    (old(self).cwnd, old(self).incr)
                } else {
                    cwnd_next(old(self).cwnd, old(self).incr, old(self).ssthresh, old(self).mss, old(self).rmt_wnd)
                };
                final(self)@ == (KcpView { cwnd: c, incr: i, ..old(self)@ })
            }),
            final(self).snd_buf == old(self).snd_buf,
            final(self).snd_queue == old(self).snd_queue,
            final(self).rcv_buf == old(self).rcv_buf,
            final(self).ack_list == old(self).ack_list,
            final(self).output == old(self).output,
            final(self).sent == old(self).sent && final(self).outs == old(self).outs,
            final(self).output_buf == old(self).output_buf,
    {
        if self.nocwnd {
            return;
        }
        let (cwnd, incr) = next_cwnd(self.cwnd, self.incr, self.ssthresh, self.mss, self.rmt_wnd);
        self.cwnd = cwnd;
        self.incr = incr;
    }

    /// Process an incoming packet: one or more segments back to back.
    ///
    /// A packet shorter than a header is `InvalidPacket` and changes nothing. Otherwise the
    /// segments are processed as `rx_packet` describes (segments before a rejected one stay
    /// processed), and the result is the verdict on them.
    #[verifier::spinoff_prover]
    #[verifier::rlimit(100)]
    pub fn input(&mut self, data: &[u8]) -> (r: KcpResult<()>)
        requires
            old(self).wf(),
            old(self)@.nocwnd || 0 < old(self)@.mss < 65536,
        ensures
            final(self).wf(),
            r == packet_verdict(data@, old(self)@.conv),
            final(self).send_queue() == old(self).send_queue(),
            final(self).output_ref() == old(self).output_ref(),
            final(self).packets() == old(self).packets() && final(self).outcomes() == old(self).outcomes(),
            final(self)@.conv == old(self)@.conv,
            final(self)@.mtu == old(self)@.mtu,
            final(self)@.mss == old(self)@.mss,
            final(self)@.snd_nxt == old(self)@.snd_nxt,
            final(self)@.rcv_nxt == old(self)@.rcv_nxt,
            final(self)@.updated == old(self)@.updated,
            final(self)@.current == old(self)@.current,
            final(self)@.state == old(self)@.state,
            final(self)@.ts_flush == old(self)@.ts_flush,
            final(self)@.interval == old(self)@.interval,
            final(self)@.nocwnd == old(self)@.nocwnd,
            data@.len() < HEADER_SIZE ==> *final(self) == *old(self),
            data@.len() >= HEADER_SIZE ==> {
                let (st, verdict) = rx_packet(old(self).rx_state(None), data@, 0);
                &&& final(self).rx_state(st.max_ack) == st
                &&& r == verdict
            },
            final(self).send_buffer().bytes() == old(self).send_buffer().bytes(),
            final(self).send_buffer().nxt() == old(self).send_buffer().nxt(),
    {
        if data.len() < HEADER_SIZE {
            return Err(KcpError::InvalidPacket);
        }
        let mut offset: usize = 0;
        let mut max_ack: Option<(Sequence, u32)> = None;
        while data.len() - offset >= HEADER_SIZE
            invariant
                self.wf(),
                data@.len() >= HEADER_SIZE,
                offset <= data@.len(),
                segments_verdict(data@, self.conv, offset as nat) == segments_verdict(data@, old(self).conv, 0),
                rx_packet(self.rx_state(max_ack), data@, offset as nat) == rx_packet(
                    old(self).rx_state(None),
                    data@,
                    0,
                ),
                self.snd_buf.bytes() == old(self).snd_buf.bytes(),
                self.snd_buf.nxt() == old(self).snd_buf.nxt(),
                self.snd_queue == old(self).snd_queue,
                self.output == old(self).output,
                self.sent == old(self).sent,
                self.outs == old(self).outs,
                self.output_buf == old(self).output_buf,
                self.conv == old(self).conv && self.mtu == old(self).mtu && self.mss == old(self).mss
                    && self.snd_nxt == old(self).snd_nxt && self.rcv_nxt == old(self).rcv_nxt
                    && self.updated == old(self).updated && self.current == old(self).current
                    && self.state == old(self).state && self.ts_flush == old(self).ts_flush
                    && self.interval == old(self).interval && self.nocwnd == old(self).nocwnd,
            ensures
                self.wf(),
                segments_verdict(data@, self.conv, offset as nat) == Ok::<(), KcpError>(()),
                segments_verdict(data@, old(self).conv, 0) == Ok::<(), KcpError>(()),
                rx_packet(old(self).rx_state(None), data@, 0) == (rx_finish(self.rx_state(max_ack)), Ok::<(), KcpError>(())),
                self.snd_buf.bytes() == old(self).snd_buf.bytes(),
                self.snd_buf.nxt() == old(self).snd_buf.nxt(),
                self.snd_queue == old(self).snd_queue,
                self.output == old(self).output,
                self.sent == old(self).sent,
                self.outs == old(self).outs,
                self.output_buf == old(self).output_buf,
                self.conv == old(self).conv && self.mtu == old(self).mtu && self.mss == old(self).mss
                    && self.snd_nxt == old(self).snd_nxt && self.rcv_nxt == old(self).rcv_nxt
                    && self.updated == old(self).updated && self.current == old(self).current
                    && self.state == old(self).state && self.ts_flush == old(self).ts_flush
                    && self.interval == old(self).interval && self.nocwnd == old(self).nocwnd,
            decreases data@.len() - offset,
        {
            let rest = vstd::slice::slice_subrange(data, offset, data.len());
            proof {
                assert(rest@ =~= data@.skip(offset as int));
            }
            let result = match decode_segment(rest) {
                Some(r) => r,
                None => {
                    break;
                },
            };
            let header = result.header;
            if header.conv != self.conv {
                return Err(KcpError::ConvMismatch);
            }
            self.rmt_wnd = header.wnd;
            self.parse_una(Sequence::new(header.una));
            self.shrink_buf();
            if header.cmd == CMD_ACK {
                self.process_ack(&header, &mut max_ack);
            } else if header.cmd == CMD_PUSH {
                let payload = vstd::slice::slice_subrange(data, offset + HEADER_SIZE, offset + result.total_len);
                self.process_push(&header, payload);
            } else if header.cmd == CMD_WASK {
                self.probe = self.probe | 0x02;
            } else if header.cmd == CMD_WINS {
            } else {
                return Err(KcpError::InvalidPacket);
            }
            offset = offset + result.total_len;
        }
        match max_ack {
            Some((sn, _ts)) => {
                self.parse_fastack(sn);
            },
            None => {},
        }
        self.update_cwnd();
        Ok(())
    }

    /// Update the clock; flush when the flush time has come
    pub fn update(&mut self, current: u32) -> (r: KcpResult<()>)
        requires
            old(self).wf(),
        ensures
            final(self).wf(),
            ({
                let (ts, due) = update_timer(old(self)@.updated, old(self)@.ts_flush, old(self)@.interval, current);
                let mid = KcpView { current, updated: true, ts_flush: ts, ..old(self)@ };
                &&& !due ==> final(self)@ == mid && r == Ok::<(), KcpError>(())
                    && final(self).send_buffer() == old(self).send_buffer()
                    && final(self).send_queue() == old(self).send_queue()
                    && final(self).recv_buffer() == old(self).recv_buffer()
                    && final(self).acks() == old(self).acks()
                    && final(self).output_ref() == old(self).output_ref()
                    && final(self).packets() == old(self).packets() && final(self).outcomes() == old(self).outcomes()
                &&& due ==> final(self)@.current == current && final(self)@.updated
                    && final(self)@.ts_flush == ts
                    && flush_effect(mid, old(self).send_buffer(), old(self).send_queue(), old(self).acks(),
                        final(self)@, final(self).send_buffer(), final(self).send_queue(), final(self).acks(),
                        old(self).recv_buffer().nxt(), old(self).packets(), final(self).packets(),
                        old(self).outcomes(), final(self).outcomes(), r)
                    && final(self).recv_buffer() == old(self).recv_buffer()
            }),
    {
        let (ts, due) = flush_timer(self.updated, self.ts_flush, self.interval, current);
        self.current = current;
        self.updated = true;
        self.ts_flush = ts;
        if due {
            let res = self.flush();
            proof {
                reveal(flush_effect);
            }
            res?;
        }
        Ok(())
    }

    /// Time at which `update` should next be called
    pub fn check(&self, current: u32) -> (r: u32)
        requires
            self.wf(),
        ensures
            r == check_time(self@.updated, self@.ts_flush, self@.interval, self.send_buffer().segs(), current),
    {
        if !self.updated {
            return current;
        }
        let mut ts_flush = self.ts_flush;
        if time_diff(current, ts_flush) >= 10000 || time_diff(current, ts_flush) < -10000 {
            ts_flush = current;
        }
        if time_diff(current, ts_flush) >= 0 {
            return current;
        }
        let tm_flush = time_diff(ts_flush, current) as u32;
        let mut tm_packet: u32 = u32::MAX;
        let mut i: usize = 0;
        proof {
            self.snd_buf.lemma_wf();
        }
        while i < 256
            invariant
                self.wf(),
                0 <= i <= 256,
                tm_packet as int == resend_gap(self.snd_buf.segs(), current, i as nat),
                resend_gap(self.snd_buf.segs(), current, i as nat) > 0,
            decreases 256 - i,
        {
            let seg = self.snd_buf.get_by_index(i);
            if seg.state == SegmentState::Pending || seg.state == SegmentState::Sent {
                let diff = time_diff(seg.resend_ts, current);
                if diff <= 0 {
                    proof {
                        lemma_resend_gap_le(self.snd_buf.segs(), current, (i + 1) as nat, 256);
                    }
                    return current;
                }
                if (diff as u32) < tm_packet {
                    tm_packet = diff as u32;
                }
            }
            i = i + 1;
        }
        let m1 = if tm_packet < tm_flush { tm_packet } else { tm_flush };
        let m2 = if m1 < self.interval { m1 } else { self.interval };
        current.wrapping_add(m2)
    }

    /// Send the queued acknowledgments
    fn flush_acks(&mut self, wnd: u16) -> (r: KcpResult<()>)
        requires
            old(self).wf(),
        ensures
            final(self).wf(),
            final(self)@ == old(self)@,
            final(self).snd_buf == old(self).snd_buf,
            final(self).snd_queue == old(self).snd_queue,
            final(self).rcv_buf == old(self).rcv_buf,
            r is Ok ==> final(self).ack_list.view().len() == 0
                && final(self).sent@ == old(self).sent@ + ack_packets(old(self).conv, wnd, old(self).rcv_nxt.0, old(self).ack_list.view())
                && outcomes_ok(final(self).outs@, old(self).outs@.len() as int, final(self).outs@.len() as int),
            r is Err ==> exists|k: int|
                0 < k <= old(self).ack_list.view().len()
                && final(self).ack_list.view() == old(self).ack_list.view().skip(k)
                && final(self).sent@ == old(self).sent@ + ack_packets(old(self).conv, wnd, old(self).rcv_nxt.0, old(self).ack_list.view().take(k)),
            old(self).outs@.is_prefix_of(final(self).outs@),
            r is Err ==> outcomes_ok(final(self).outs@, old(self).outs@.len() as int, final(self).outs@.len() - 1)
                && final(self).outs@.last() is Err && failure(final(self).outs@.last(), r, old(self).state, final(self).state),
    {
        let ghost a0 = self.ack_list.view();
        let ghost mut k: int = 0;
        loop
            invariant
                self.wf(),
                self@ == old(self)@,
                self.snd_buf == old(self).snd_buf,
                self.snd_queue == old(self).snd_queue,
                self.rcv_buf == old(self).rcv_buf,
                a0 == old(self).ack_list.view(),
                0 <= k <= a0.len(),
                self.ack_list.view() == a0.skip(k),
                self.sent@ == old(self).sent@ + ack_packets(self.conv, wnd, self.rcv_nxt.0, a0.take(k)),
                old(self).outs@.is_prefix_of(self.outs@),
                outcomes_ok(self.outs@, old(self).outs@.len() as int, self.outs@.len() as int),
            ensures
                self.wf(),
                self@ == old(self)@,
                self.snd_buf == old(self).snd_buf,
                self.snd_queue == old(self).snd_queue,
                self.rcv_buf == old(self).rcv_buf,
                self.ack_list.view().len() == 0,
                self.sent@ == old(self).sent@ + ack_packets(self.conv, wnd, self.rcv_nxt.0, a0),
                old(self).outs@.is_prefix_of(self.outs@),
                outcomes_ok(self.outs@, old(self).outs@.len() as int, self.outs@.len() as int),
            decreases a0.len() - k,
        {
            let ack = match self.ack_list.pop() {
                Some(a) => a,
                None => {
                    proof {
                        assert(a0.take(k) =~= a0);
                    }
                    break;
                },
            };
            proof {
                k = k + 1;
                assert(self.ack_list.view() =~= a0.skip(k));
            }
            let header = SegmentHeader {
                conv: self.conv,
                cmd: CMD_ACK,
                frg: 0,
                wnd,
                ts: ack.ts,
                sn: ack.sn,
                una: self.rcv_nxt.value(),
                len: 0,
            };
            let empty: [u8; 0] = [];
            match encode_segment(self.output_buf.as_mut_slice(), &header, empty.as_slice()) {
                Some(result) => {
                    let packet = vstd::slice::slice_subrange(self.output_buf.as_slice(), 0, result.bytes_written);
                    proof {
                        assert(packet@ =~= cmd_packet(self.conv, CMD_ACK, wnd, ack.ts, ack.sn, self.rcv_nxt.0));
                        assert(ack_packets(self.conv, wnd, self.rcv_nxt.0, a0.take(k)) =~= ack_packets(
                            self.conv,
                            wnd,
                            self.rcv_nxt.0,
                            a0.take(k - 1),
                        ).push(packet@));
                        self.sent@ = self.sent@.push(packet@);
                    }
                    let sent = self.output.output(packet);
                    proof {
                        self.outs@ = self.outs@.push(sent);
                    }
                    if sent.is_err() {
                        return Err(sent.unwrap_err());
                    }
                },
                None => {},
            }
        }
        Ok(())
    }

    /// Send one command packet (window ask or tell) with no data
    fn send_cmd(&mut self, cmd: u8, wnd: u16) -> (r: KcpResult<()>)
        requires
            old(self).wf(),
        ensures
            final(self).wf(),
            final(self)@ == old(self)@,
            final(self).snd_buf == old(self).snd_buf,
            final(self).snd_queue == old(self).snd_queue,
            final(self).rcv_buf == old(self).rcv_buf,
            final(self).ack_list == old(self).ack_list,
            final(self).sent@ == old(self).sent@.push(cmd_packet(old(self).conv, cmd, wnd, 0, 0, old(self).rcv_nxt.0)),
            final(self).outs@ == old(self).outs@.push(final(self).outs@.last()),
            final(self).outs@.last() is Ok ==> r is Ok,
            final(self).outs@.last() is Err ==> failure(final(self).outs@.last(), r, old(self).state, final(self).state),
    {
        let header = SegmentHeader {
            conv: self.conv,
            cmd,
            frg: 0,
            wnd,
            ts: 0,
            sn: 0,
            una: self.rcv_nxt.value(),
            len: 0,
        };
        let empty: [u8; 0] = [];
        match encode_segment(self.output_buf.as_mut_slice(), &header, empty.as_slice()) {
            Some(result) => {
                let packet = vstd::slice::slice_subrange(self.output_buf.as_slice(), 0, result.bytes_written);
                proof {
                    assert(packet@ =~= cmd_packet(self.conv, cmd, wnd, 0, 0, self.rcv_nxt.0));
                    self.sent@ = self.sent@.push(packet@);
                }
                let sent = self.output.output(packet);
                proof {
                    self.outs@ = self.outs@.push(sent);
                }
                if sent.is_err() {
                    return Err(sent.unwrap_err());
                }
            },
            None => {},
        }
        Ok(())
    }

    /// Run the window probe timer and send the pending probe commands
    fn handle_probe(&mut self, current: u32) -> (r: KcpResult<()>)
        requires
            old(self).wf(),
        ensures
            final(self).wf(),
            final(self).snd_buf == old(self).snd_buf,
            final(self).snd_queue == old(self).snd_queue,
            final(self).rcv_buf == old(self).rcv_buf,
            final(self).ack_list == old(self).ack_list,
            ({
                let (pw, tp, pr) = probe_step(old(self).rmt_wnd, old(self).probe_wait, old(self).ts_probe, old(self).probe, current);
                let full = old(self).sent@ + probe_packets(
                    old(self).conv,
                    spec_wnd_unused(old(self).rcv_wnd, old(self).rcv_buf.nxt(), old(self).rcv_nxt),
                    old(self).rcv_nxt.0,
                    pr,
                );
                &&& final(self).probe_wait == pw
                &&& final(self).ts_probe == tp
                &&& r is Ok ==> final(self).probe == 0 && final(self).sent@ == full
                &&& r is Err ==> final(self).probe == pr && final(self).sent@.is_prefix_of(full)
                    && old(self).sent@.len() < final(self).sent@.len()
                &&& old(self).outs@.is_prefix_of(final(self).outs@)
                &&& r is Ok ==> outcomes_ok(final(self).outs@, old(self).outs@.len() as int, final(self).outs@.len() as int)
                &&& r is Err ==> outcomes_ok(final(self).outs@, old(self).outs@.len() as int, final(self).outs@.len() - 1)
                    && final(self).outs@.last() is Err && failure(final(self).outs@.last(), r, old(self).state, final(self).state)
                &&& final(self)@ == (KcpView { probe_wait: pw, ts_probe: tp, probe: final(self).probe, ..old(self)@ })
            }),
    {
        let (pw, tp, pr) = probe_timer(self.rmt_wnd, self.probe_wait, self.ts_probe, self.probe, current);
        self.probe_wait = pw;
        self.ts_probe = tp;
        self.probe = pr;
        let wnd = self.wnd_unused();
        let ghost s0 = self.sent@;
        let ghost full = s0 + probe_packets(self.conv, wnd, self.rcv_nxt.0, pr);
        let ghost ask = cmd_packet(self.conv, CMD_WASK, wnd, 0, 0, self.rcv_nxt.0);
        let ghost tell = cmd_packet(self.conv, CMD_WINS, wnd, 0, 0, self.rcv_nxt.0);
        let ghost o0 = self.outs@;
        if self.probe & 0x01 != 0 {
            self.send_cmd(CMD_WASK, wnd)?;
        }
        proof {
            if pr & 0x01 != 0 {
                assert(self.sent@ =~= s0.push(ask));
            } else {
                assert(self.sent@ =~= s0);
            }
            assert(o0.is_prefix_of(self.outs@)) by {
                assert(o0 =~= self.outs@.subrange(0, o0.len() as int));
            }
        }
        let ghost o1 = self.outs@;
        if self.probe & 0x02 != 0 {
            self.send_cmd(CMD_WINS, wnd)?;
        }
        proof {
            assert(self.sent@ =~= full);
            assert(o0.is_prefix_of(self.outs@)) by {
                assert(o0 =~= self.outs@.subrange(0, o0.len() as int));
            }
        }
        self.probe = 0;
        Ok(())
    }

    /// Effective send window
    fn calc_cwnd(&self) -> (r: u32)
        ensures
            r == effective_cwnd(self.snd_wnd, self.rmt_wnd, self.cwnd, self.nocwnd),
    {
        let mut cwnd = if (self.snd_wnd as u32) < (self.rmt_wnd as u32) {
            self.snd_wnd as u32
        } else {
            self.rmt_wnd as u32
        };
        if !self.nocwnd && (self.cwnd as u32) < cwnd {
            cwnd = self.cwnd as u32;
        }
        cwnd
    }

    /// Move the queued segment in queue slot `qidx`, if pending, to the send slot of `snd_nxt`
    fn move_slot(&mut self, qidx: usize)
        requires
            old(self).wf(),
            qidx < 256,
        ensures
            final(self).wf(),
            ({
                let qs = old(self).snd_queue.segs()[qidx as int];
                let sidx = slot256(old(self).snd_nxt.0);
                let data = old(self).snd_queue.bytes().subrange(qs.data_offset as int, qs.data_offset + qs.data_len);
                &&& qs.state != SegmentState::Pending ==> *final(self) == *old(self)
                &&& qs.state == SegmentState::Pending ==> {
                    &&& final(self).snd_buf.segs() == old(self).snd_buf.segs().update(
                        sidx,
                        SendSegment {
                            sn: old(self).snd_nxt,
                            resend_ts: 0,
                            rto: old(self).rx_rto,
                            fastack: 0,
                            xmit: 0,
                            state: SegmentState::Pending,
                            frg: qs.frg,
                            data_len: qs.data_len,
                            ts: 0,
                            data_offset: (sidx * 1376) as u32,
                        },
                    )
                    &&& final(self).snd_buf.bytes() == splice(old(self).snd_buf.bytes(), sidx * 1376, data)
                    &&& final(self).snd_queue.segs() == old(self).snd_queue.segs().update(qidx as int, SendSegment { state: SegmentState::Empty, ..qs })
                    &&& final(self).snd_nxt == Sequence(wrap32(old(self).snd_nxt.0 + 1))
                    &&& final(self).snd_buf.nxt() == final(self).snd_nxt
                    &&& final(self)@ == (KcpView { snd_nxt: final(self).snd_nxt, ..old(self)@ })
                    &&& final(self).snd_buf.una() == old(self).snd_buf.una()
                    &&& final(self).snd_buf.seg_count() == count_one_more(old(self).snd_buf.seg_count())
                    &&& final(self).snd_queue.bytes() == old(self).snd_queue.bytes()
                    &&& final(self).snd_queue.una() == old(self).snd_queue.una()
                    &&& final(self).snd_queue.nxt() == old(self).snd_queue.nxt()
                    &&& final(self).snd_queue.seg_count() == sat_sub(old(self).snd_queue.seg_count(), 1)
                    &&& final(self).rcv_buf == old(self).rcv_buf
                    &&& final(self).ack_list == old(self).ack_list
                    &&& final(self).output == old(self).output
                    &&& final(self).sent == old(self).sent && final(self).outs == old(self).outs
                }
            }),
    {
        proof {
            self.snd_queue.lemma_wf();
            self.snd_buf.lemma_wf();
        }
        let queue_seg = *self.snd_queue.get_by_index(qidx);
        if queue_seg.state != SegmentState::Pending {
            return;
        }
        let sn = self.snd_nxt;
        let snd_idx = sn.to_index(SND_BUF_MASK);
        proof {
            crate::ring_buffer::lemma_crate_capacities();
            crate::ring_buffer::lemma_ring_slot(sn.0, 256);
        }
        self.snd_buf.place(
            snd_idx,
            SendSegment {
                sn,
                resend_ts: 0,
                rto: self.rx_rto,
                fastack: 0,
                xmit: 0,
                state: SegmentState::Pending,
                frg: queue_seg.frg,
                data_len: queue_seg.data_len,
                ts: 0,
                data_offset: 0,
            },
            self.snd_queue.get_data_by_index(qidx),
        );
        self.snd_queue.take_slot(qidx);
        self.snd_nxt = self.snd_nxt.increment();
        self.snd_buf.set_snd_nxt(self.snd_nxt);
    }

    /// Flush the pending segment in send slot `idx`: update it and transmit it when due
    fn flush_one(&mut self, idx: usize, current: u32, wnd: u16) -> (r: KcpResult<()>)
        requires
            old(self).wf(),
            idx < 256,
        ensures
            final(self).wf(),
            ({
                let (send, ns) = flush_segment(old(self).snd_buf.segs()[idx as int], current, old(self).rx_rto, old(self).nodelay, old(self).fastresend, old(self).fastlimit);
                &&& final(self).snd_buf.segs() == old(self).snd_buf.segs().update(idx as int, ns)
                &&& !send ==> r is Ok && final(self).sent@ == old(self).sent@ && final(self).outs@ == old(self).outs@
                    && final(self).state == old(self).state
                &&& send ==> {
                    let o = final(self).outs@.last();
                    &&& final(self).sent@ == old(self).sent@.push(
                        data_packet(old(self).conv, wnd, old(self).rcv_nxt.0, current, ns, old(self).snd_buf.bytes()),
                    )
                    &&& final(self).outs@ == old(self).outs@.push(o)
                    &&& o is Ok && (ns.xmit as u32) < old(self).dead_link ==> r is Ok && final(self).state == old(self).state
                    &&& !(o is Ok && (ns.xmit as u32) < old(self).dead_link) ==> failure(o, r, old(self).state, final(self).state)
                }
            }),
            final(self).snd_queue == old(self).snd_queue,
            final(self).rcv_buf == old(self).rcv_buf,
            final(self).ack_list == old(self).ack_list,
            final(self).snd_buf.bytes() == old(self).snd_buf.bytes(),
            final(self).snd_buf.una() == old(self).snd_buf.una(),
            final(self).snd_buf.nxt() == old(self).snd_buf.nxt(),
            final(self).snd_buf.seg_count() == old(self).snd_buf.seg_count(),
            final(self)@ == (KcpView { state: final(self).state, ..old(self)@ }),
            r is Ok ==> final(self).state == old(self).state,
            final(self).state == old(self).state || (final(self).state == u32::MAX && r == Err::<(), KcpError>(KcpError::DeadLink)),
    {
        proof {
            self.snd_buf.lemma_wf();
        }
        let seg = *self.snd_buf.get_by_index(idx);
        let (needsend, new_seg) = flush_decision(seg, current, self.rx_rto, self.nodelay, self.fastresend, self.fastlimit);
        if !needsend {
            proof {
                assert(self.snd_buf.segs() =~= old(self).snd_buf.segs().update(idx as int, new_seg));
            }
            return Ok(());
        }
        *self.snd_buf.get_mut_by_index(idx) = new_seg;
        proof {
            assert(SendBuffer::slots_in_bounds(self.snd_buf.segs()));
        }
        let header = SegmentHeader {
            conv: self.conv,
            cmd: CMD_PUSH,
            frg: new_seg.frg,
            wnd,
            ts: current,
            sn: new_seg.sn.value(),
            una: self.rcv_nxt.value(),
            len: new_seg.data_len as u32,
        };
        let data = self.snd_buf.get_data_by_index(idx);
        match encode_segment(self.output_buf.as_mut_slice(), &header, data) {
            Some(result) => {
                let packet = vstd::slice::slice_subrange(self.output_buf.as_slice(), 0, result.bytes_written);
                proof {
                    assert(packet@ =~= data_packet(self.conv, wnd, self.rcv_nxt.0, current, new_seg, self.snd_buf.bytes()));
                    self.sent@ = self.sent@.push(packet@);
                }
                let sent = self.output.output(packet);
                proof {
                    self.outs@ = self.outs@.push(sent);
                }
                if sent.is_err() {
                    return Err(sent.unwrap_err());
                }
            },
            None => {},
        }
        if new_seg.xmit as u32 >= self.dead_link {
            self.state = u32::MAX;
            return Err(KcpError::DeadLink);
        }
        Ok(())
    }

    /// Move queued segments into the send buffer, within the effective window
    fn move_to_snd_buf(&mut self, cwnd: u32) -> (r: KcpResult<()>)
        requires
            old(self).wf(),
        ensures
            final(self).wf(),
            r is Ok,
            ({
                let to_move = move_count(cwnd, old(self).snd_nxt, old(self).snd_una, old(self).snd_queue);
                let st = move_result(old(self).snd_buf, old(self).snd_queue, old(self).snd_nxt, old(self).rx_rto, to_move);
                &&& final(self)@ == (KcpView { snd_nxt: Sequence(st.nxt), ..old(self)@ })
                &&& final(self).snd_buf.segs() == st.snd_segs
                &&& final(self).snd_buf.bytes() == st.snd_bytes
                &&& final(self).snd_buf.una() == old(self).snd_buf.una()
                &&& final(self).snd_buf.seg_count() == st.snd_count
                &&& final(self).snd_buf.nxt() == if st.moved > 0 { Sequence(st.nxt) } else { old(self).snd_buf.nxt() }
                &&& final(self).snd_queue.segs() == st.q_segs
                &&& final(self).snd_queue.bytes() == old(self).snd_queue.bytes()
                &&& final(self).snd_queue.una() == Sequence(wrap32(old(self).snd_queue.una().0 + to_move))
                &&& final(self).snd_queue.nxt() == old(self).snd_queue.nxt()
                &&& final(self).snd_queue.seg_count() == st.q_count
            }),
            final(self).rcv_buf == old(self).rcv_buf,
            final(self).ack_list == old(self).ack_list,
            final(self).sent == old(self).sent && final(self).outs == old(self).outs,
    {
        let in_flight = self.snd_nxt.0.wrapping_sub(self.snd_una.0);
        let available = cwnd.saturating_sub(in_flight);
        let queue_base = self.snd_queue.snd_una();
        let queue_nxt = self.snd_queue.snd_nxt();
        let queue_count = queue_nxt.0.wrapping_sub(queue_base.0);
        let to_move = if available < queue_count { available } else { queue_count };
        let ghost st0 = MoveState {
            snd_segs: self.snd_buf.segs(),
            snd_bytes: self.snd_buf.bytes(),
            q_segs: self.snd_queue.segs(),
            nxt: self.snd_nxt.0,
            moved: 0,
            snd_count: self.snd_buf.seg_count(),
            q_count: self.snd_queue.seg_count(),
        };
        let ghost qb = self.snd_queue.bytes();
        let mut i: u32 = 0;
        while i < to_move
            invariant
                self.wf(),
                0 <= i <= to_move,
                qb == old(self).snd_queue.bytes(),
                queue_base == old(self).snd_queue.una(),
                st0 == (MoveState {
                    snd_segs: old(self).snd_buf.segs(),
                    snd_bytes: old(self).snd_buf.bytes(),
                    q_segs: old(self).snd_queue.segs(),
                    nxt: old(self).snd_nxt.0,
                    moved: 0,
                    snd_count: old(self).snd_buf.seg_count(),
                    q_count: old(self).snd_queue.seg_count(),
                }),
                ({
                    let st = move_fold(st0, qb, queue_base.0, old(self).rx_rto, i as nat);
                    &&& self@ == (KcpView { snd_nxt: Sequence(st.nxt), ..old(self)@ })
                    &&& self.snd_buf.segs() == st.snd_segs
                    &&& self.snd_buf.bytes() == st.snd_bytes
                    &&& self.snd_buf.una() == old(self).snd_buf.una()
                    &&& self.snd_buf.seg_count() == st.snd_count
                    &&& self.snd_buf.nxt() == if st.moved > 0 { Sequence(st.nxt) } else { old(self).snd_buf.nxt() }
                    &&& self.snd_queue.segs() == st.q_segs
                    &&& self.snd_queue.seg_count() == st.q_count
                }),
                self.snd_queue.bytes() == qb,
                self.snd_queue.una() == old(self).snd_queue.una(),
                self.snd_queue.nxt() == old(self).snd_queue.nxt(),
                self.rcv_buf == old(self).rcv_buf,
                self.ack_list == old(self).ack_list,
                self.output == old(self).output,
                self.sent == old(self).sent,
                self.outs == old(self).outs,
            decreases to_move - i,
        {
            let queue_sn = queue_base.add(i);
            let idx = queue_sn.to_index(SND_BUF_MASK);
            proof {
                crate::ring_buffer::lemma_crate_capacities();
                crate::ring_buffer::lemma_ring_slot(queue_sn.0, 256);
            }
            self.move_slot(idx);
            i = i + 1;
        }
        self.snd_queue.set_snd_una(queue_base.add(to_move));
        Ok(())
    }

    /// Transmit the pending segments that are due: first sends, timeouts and fast resends
    #[verifier::spinoff_prover]
    #[verifier::rlimit(100)]
    fn flush_data(&mut self, current: u32, wnd: u16) -> (r: KcpResult<()>)
        requires
            old(self).wf(),
        ensures
            final(self).wf(),
            final(self).snd_queue == old(self).snd_queue,
            final(self).rcv_buf == old(self).rcv_buf,
            final(self).ack_list == old(self).ack_list,
            final(self).snd_buf.bytes() == old(self).snd_buf.bytes(),
            final(self).snd_buf.una() == old(self).snd_buf.una(),
            final(self).snd_buf.nxt() == old(self).snd_buf.nxt(),
            final(self).snd_buf.seg_count() == old(self).snd_buf.seg_count(),
            final(self)@ == (KcpView { state: final(self).state, ..old(self)@ }),
            ({
                let pl = pending_list(old(self).snd_buf.segs(), 256);
                let full = old(self).sent@ + data_packets(old(self)@, wnd, current, old(self).snd_buf.segs(), old(self).snd_buf.bytes(), pl, pl.len());
                &&& r is Ok ==> final(self).snd_buf.segs() == flushed_slots(old(self).snd_buf.segs(), pl, pl.len() as int, current, old(self).rx_rto, old(self).nodelay, old(self).fastresend, old(self).fastlimit)
                    && final(self).state == old(self).state
                    && final(self).sent@ == full
                &&& r is Err ==> final(self).sent@.is_prefix_of(full) && old(self).sent@.len() < final(self).sent@.len()
                &&& old(self).outs@.is_prefix_of(final(self).outs@)
                &&& r is Ok ==> outcomes_ok(final(self).outs@, old(self).outs@.len() as int, final(self).outs@.len() as int)
                    && forall|j: int| 0 <= j < pl.len() ==> #[trigger] below_dead_link(old(self)@, current, old(self).snd_buf.segs(), pl, j)
                &&& r is Err ==> outcomes_ok(final(self).outs@, old(self).outs@.len() as int, final(self).outs@.len() - 1)
                    && failure(final(self).outs@.last(), r, old(self).state, final(self).state)
                &&& r is Err ==> exists|f: int|
                    #[trigger] flush_stopped_at(old(self)@, current, old(self).snd_buf.segs(), pl, f, final(self).snd_buf.segs())
                    && final(self).sent@ == old(self).sent@ + data_packets(old(self)@, wnd, current, old(self).snd_buf.segs(), old(self).snd_buf.bytes(), pl, (f + 1) as nat)
                    && (final(self).outs@.last() is Ok ==> !below_dead_link(old(self)@, current, old(self).snd_buf.segs(), pl, f))
                &&& final(self).state == old(self).state || (final(self).state == u32::MAX && r == Err::<(), KcpError>(KcpError::DeadLink))
            }),
    {
        let pending = self.snd_buf.pending_indices();
        let ghost segs0 = self.snd_buf.segs();
        let ghost pl = pending_list(segs0, 256);
        proof {
            self.snd_buf.lemma_wf();
            lemma_pending_list(segs0, 256);
        }
        let mut k: usize = 0;
        while k < 256
            invariant
                self.wf(),
                0 <= k <= pl.len(),
                pl == pending_list(segs0, 256),
                pl.len() <= 256,
                segs0 == old(self).snd_buf.segs(),
                segs0.len() == 256,
                pending@.len() == 256,
                forall|j: int| 0 <= j < 256 ==> #[trigger] pending@[j] == if j < pl.len() { Some(pl[j]) } else { None },
                forall|j: int| 0 <= j < pl.len() ==> #[trigger] pl[j] < 256 && is_pending(segs0[pl[j] as int]),
                forall|a: int, b: int| 0 <= a < b < pl.len() ==> #[trigger] pl[a] < #[trigger] pl[b],
                self.snd_buf.segs() == flushed_slots(segs0, pl, k as int, current, self.rx_rto, self.nodelay, self.fastresend, self.fastlimit),
                self.snd_queue == old(self).snd_queue,
                self.rcv_buf == old(self).rcv_buf,
                self.ack_list == old(self).ack_list,
                self.snd_buf.bytes() == old(self).snd_buf.bytes(),
                self.snd_buf.una() == old(self).snd_buf.una(),
                self.snd_buf.nxt() == old(self).snd_buf.nxt(),
                self.snd_buf.seg_count() == old(self).snd_buf.seg_count(),
                self@ == old(self)@,
                self.sent@ == old(self).sent@ + data_packets(old(self)@, wnd, current, segs0, old(self).snd_buf.bytes(), pl, k as nat),
                old(self).outs@.is_prefix_of(self.outs@),
                outcomes_ok(self.outs@, old(self).outs@.len() as int, self.outs@.len() as int),
                forall|j: int| 0 <= j < k ==> #[trigger] below_dead_link(old(self)@, current, segs0, pl, j),
            ensures
                self.wf(),
                self.sent@ == old(self).sent@ + data_packets(old(self)@, wnd, current, segs0, old(self).snd_buf.bytes(), pl, pl.len()),
                old(self).outs@.is_prefix_of(self.outs@),
                outcomes_ok(self.outs@, old(self).outs@.len() as int, self.outs@.len() as int),
                forall|j: int| 0 <= j < pl.len() ==> #[trigger] below_dead_link(old(self)@, current, segs0, pl, j),
                self.snd_buf.segs() == flushed_slots(segs0, pl, pl.len() as int, current, self.rx_rto, self.nodelay, self.fastresend, self.fastlimit),
                self.snd_queue == old(self).snd_queue,
                self.rcv_buf == old(self).rcv_buf,
                self.ack_list == old(self).ack_list,
                self.snd_buf.bytes() == old(self).snd_buf.bytes(),
                self.snd_buf.una() == old(self).snd_buf.una(),
                self.snd_buf.nxt() == old(self).snd_buf.nxt(),
                self.snd_buf.seg_count() == old(self).snd_buf.seg_count(),
                self@ == old(self)@,
            decreases 256 - k,
        {
            let idx = match pending[k] {
                Some(i) => i,
                None => {
                    break;
                },
            };
            proof {
                assert(idx == pl[k as int]);
                assert forall|j: int| 0 <= j < k implies pl[j] != idx by {
                    assert(pl[j] < pl[k as int]);
                }
            }
            let ghost k0 = k as int;
            let ghost prev = self.snd_buf.segs();
            proof {
                assert(!(exists|j: int| 0 <= j < k && pl[j] == idx));
                assert(prev[idx as int] == segs0[idx as int]);
            }
            let ghost outs_before = self.outs@;
            let res = self.flush_one(idx, current, wnd);
            proof {
                assert(outs_before.is_prefix_of(self.outs@) && old(self).outs@.is_prefix_of(self.outs@)) by {
                    assert(outs_before =~= self.outs@.subrange(0, outs_before.len() as int));
                    assert(old(self).outs@ =~= self.outs@.subrange(0, old(self).outs@.len() as int));
                }
                let dp = data_packets(old(self)@, wnd, current, segs0, old(self).snd_buf.bytes(), pl, (k0 + 1) as nat);
                assert(self.sent@ =~= old(self).sent@ + dp);
            }
            proof {
                lemma_flushed_step(segs0, pl, k0, current, self.rx_rto, self.nodelay, self.fastresend, self.fastlimit, prev, self.snd_buf.segs());
            }
            if res.is_err() {
                proof {
                    assert(self.outs@.last() is Ok ==> !below_dead_link(old(self)@, current, segs0, pl, k0)) by {
                        reveal(below_dead_link);
                    }
                    assert(flush_stopped_at(old(self)@, current, segs0, pl, k0, self.snd_buf.segs()));
                    lemma_data_packets_prefix(old(self)@, wnd, current, segs0, old(self).snd_buf.bytes(), pl, (k0 + 1) as nat, pl.len());
                    let dp = data_packets(old(self)@, wnd, current, segs0, old(self).snd_buf.bytes(), pl, (k0 + 1) as nat);
                    let full = data_packets(old(self)@, wnd, current, segs0, old(self).snd_buf.bytes(), pl, pl.len());
                    assert(old(self).sent@ + dp =~= (old(self).sent@ + full).take((old(self).sent@.len() + dp.len()) as int));
                }
                return res;
            }
            k = k + 1;
            proof {
                assert(below_dead_link(old(self)@, current, segs0, pl, k0)) by {
                    reveal(below_dead_link);
                }
                assert forall|j: int| 0 <= j < k implies #[trigger] below_dead_link(old(self)@, current, segs0, pl, j) by {
                    if j < k0 {
                        assert(below_dead_link(old(self)@, current, segs0, pl, j));
                    }
                }
            }
        }
        Ok(())
    }

    /// Flush pending data: acknowledgments, window probes, queued segments into the
    /// window, and due (re)transmissions. Nothing happens before the first update.
    #[verifier::spinoff_prover]
    #[verifier::rlimit(100)]
    pub fn flush(&mut self) -> (r: KcpResult<()>)
        requires
            old(self).wf(),
        ensures
            final(self).wf(),
            final(self).recv_buffer() == old(self).recv_buffer(),
            !old(self)@.updated ==> r == Ok::<(), KcpError>(()) && *final(self) == *old(self),
            old(self)@.updated ==> flush_effect(old(self)@, old(self).send_buffer(), old(self).send_queue(), old(self).acks(),
                final(self)@, final(self).send_buffer(), final(self).send_queue(), final(self).acks(),
                old(self).recv_buffer().nxt(), old(self).packets(), final(self).packets(),
                        old(self).outcomes(), final(self).outcomes(), r),
    {
        if !self.updated {
            return Ok(());
        }
        let current = self.current;
        let wnd = self.wnd_unused();
        let ghost p0 = self.sent@;
        let ghost full = flush_packets(self@, self.snd_buf, self.snd_queue, self.ack_list, wnd, p0);
        let ghost acks = ack_packets(self.conv, wnd, self.rcv_nxt.0, self.ack_list.view());
        let r1 = self.flush_acks(wnd);
        if r1.is_err() {
            proof {
                let k = choose|k: int|
                    0 < k <= old(self).ack_list.view().len()
                    && self.ack_list.view() == old(self).ack_list.view().skip(k)
                    && self.sent@ == p0 + ack_packets(old(self).conv, wnd, old(self).rcv_nxt.0, old(self).ack_list.view().take(k));
                assert(ack_packets(old(self).conv, wnd, old(self).rcv_nxt.0, old(self).ack_list.view().take(k)) =~= acks.take(k));
                assert(self.sent@.len() <= full.len() && self.sent@ =~= full.take(self.sent@.len() as int)) by {
                    reveal(flush_packets);
                }
                assert(p0 =~= self.sent@.take(p0.len() as int));
                reveal(flush_effect);
            }
            return r1;
        }
        let ghost o1 = self.outs@;
        let r2 = self.handle_probe(current);
        if r2.is_err() {
            proof {
                lemma_outcomes_chain(old(self).outs@, o1, self.outs@, self.outs@.len() - 1);
                let (pw, tp, pr) = probe_step(old(self).rmt_wnd, old(self).probe_wait, old(self).ts_probe, old(self).probe, current);
                let pp = probe_packets(old(self).conv, wnd, old(self).rcv_nxt.0, pr);
                assert(self.sent@.is_prefix_of(p0 + acks + pp));
                assert(self.sent@.len() <= full.len() && self.sent@ =~= full.take(self.sent@.len() as int)) by {
                    reveal(flush_packets);
                    assert((p0 + acks + pp).is_prefix_of(full));
                }
                assert(p0 =~= self.sent@.take(p0.len() as int));
                reveal(flush_effect);
            }
            return r2;
        }
        let ghost p2 = self.sent@;
        let ghost o2 = self.outs@;
        proof {
            lemma_outcomes_chain(old(self).outs@, o1, o2, o2.len() as int);
        }
        proof {
            let (pw, tp, pr) = probe_step(old(self).rmt_wnd, old(self).probe_wait, old(self).ts_probe, old(self).probe, current);
            assert(p2 == p0 + acks + probe_packets(old(self).conv, wnd, old(self).rcv_nxt.0, pr));
        }
        let cwnd = self.calc_cwnd();
        self.move_to_snd_buf(cwnd)?;
        let ghost v3 = self@;
        let ghost segs3 = self.snd_buf.segs();
        let ghost bytes3 = self.snd_buf.bytes();
        proof {
            let v = old(self)@;
            let (pw, tp, pr) = probe_step(v.rmt_wnd, v.probe_wait, v.ts_probe, v.probe, v.current);
            let to_move = move_count(effective_cwnd(v.snd_wnd, v.rmt_wnd, v.cwnd, v.nocwnd), v.snd_nxt, v.snd_una, old(self).snd_queue);
            let st = move_result(old(self).snd_buf, old(self).snd_queue, v.snd_nxt, v.rx_rto, to_move);
            assert(segs3 == st.snd_segs);
            assert(bytes3 == st.snd_bytes);
            assert(v3 == (KcpView { probe_wait: pw, ts_probe: tp, probe: 0, snd_nxt: Sequence(st.nxt), ..v }));
        }
        let r4 = self.flush_data(current, wnd);
        proof {
            if r4.is_ok() {
                lemma_outcomes_chain(old(self).outs@, o2, self.outs@, self.outs@.len() as int);
                let pl = pending_list(segs3, 256);
                assert(self.sent@ == p2 + data_packets(v3, wnd, current, segs3, bytes3, pl, pl.len()));
                assert(self.sent@ =~= full) by {
                    reveal(flush_packets);
                }
            } else {
                lemma_outcomes_chain(old(self).outs@, o2, self.outs@, self.outs@.len() - 1);
                if self.outs@.last() is Ok {
                    let pl = pending_list(segs3, 256);
                    let f = choose|f: int|
                        #[trigger] flush_stopped_at(v3, current, segs3, pl, f, self.snd_buf.segs())
                        && self.sent@ == p2 + data_packets(v3, wnd, current, segs3, bytes3, pl, (f + 1) as nat)
                        && (self.outs@.last() is Ok ==> !below_dead_link(v3, current, segs3, pl, f));
                    assert(flush_stopped_at(v3, current, segs3, pl, f, self.snd_buf.segs()));
                }
                let pl = pending_list(segs3, 256);
                let dp = data_packets(v3, wnd, current, segs3, bytes3, pl, pl.len());
                assert(self.sent@.is_prefix_of(p2 + dp));
                assert(self.sent@.len() <= full.len() && self.sent@ =~= full.take(self.sent@.len() as int)) by {
                    reveal(flush_packets);
                    assert(p2 + dp =~= full);
                }
                assert(p0 =~= self.sent@.take(p0.len() as int));
            }
            reveal(flush_effect);
        }
        r4
    }

    /// Number of segments waiting to be sent: those counted in the send buffer and in the queue
    pub fn wait_snd(&self) -> (r: u32)
        requires
            self.wf(),
        ensures
            r == self.send_buffer().seg_count() + self.send_queue().seg_count(),
    {
        proof {
            self.snd_buf.lemma_wf();
            self.snd_queue.lemma_wf();
        }
        self.snd_buf.len() + self.snd_queue.len()
    }

    /// Check if the connection is dead
    pub fn is_dead(&self) -> (r: bool)
        ensures
            r == (self@.state == u32::MAX),
    {
        self.state == u32::MAX
    }

    /// Current smoothed RTT in milliseconds
    pub fn rtt(&self) -> (r: u32)
        ensures
            r == ((self@.rx_srtt as int) % 0x1_0000_0000) as u32,
    {
        0u32.wrapping_add_signed(self.rx_srtt)
    }

    /// Current retransmission timeout in milliseconds
    pub fn rto(&self) -> (r: u32)
        ensures
            r == self@.rx_rto,
    {
        self.rx_rto
    }
}

/// The resend gap over more slots is no larger.
proof fn lemma_resend_gap_le(segs: Seq<SendSegment>, current: u32, a: nat, b: nat)
    requires
        a <= b,
    ensures
        resend_gap(segs, current, b) <= resend_gap(segs, current, a),
    decreases b - a,
{
    if a < b {
        lemma_resend_gap_le(segs, current, a, (b - 1) as nat);
    }
}
} // verus!
