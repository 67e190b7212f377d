//! KCP segment structures: the wire header and the per-slot bookkeeping of the buffers.

use vstd::prelude::*;
use crate::constants::{HEADER_SIZE, RTO_DEFAULT};
use crate::sequence::Sequence;

verus! {

/// Little-endian bytes of a 16-bit word.
pub open spec fn le16(x: u16) -> Seq<u8> {
    seq![(x % 256) as u8, (x / 256) as u8]
}

/// Little-endian bytes of a 32-bit word.
pub open spec fn le32(x: u32) -> Seq<u8> {
    seq![
        (x % 256) as u8,
        ((x / 256) % 256) as u8,
        ((x / 65536) % 256) as u8,
        (x / 16777216) as u8,
    ]
}

/// The 16-bit word whose little-endian bytes start `s`.
pub open spec fn from_le16(s: Seq<u8>) -> u16 {
    (s[0] + s[1] * 256) as u16
}

/// The 32-bit word whose little-endian bytes start `s`.
pub open spec fn from_le32(s: Seq<u8>) -> u32 {
    (s[0] + s[1] * 256 + s[2] * 65536 + s[3] * 16777216) as u32
}

/// Reading back little-endian bytes gives the word, and writing a read word gives the bytes.
pub proof fn lemma_le32_roundtrip(x: u32, s: Seq<u8>)
    ensures
        from_le32(le32(x)) == x,
        s.len() == 4 ==> le32(from_le32(s)) == s,
{
    let b0 = (x % 256) as u8;
    let b1 = ((x / 256) % 256) as u8;
    let b2 = ((x / 65536) % 256) as u8;
    let b3 = (x / 16777216) as u8;
    assert(b0 + b1 * 256 + b2 * 65536 + b3 * 16777216 == x) by (nonlinear_arith)
        requires
            b0 == x % 256,
            b1 == (x / 256) % 256,
            b2 == (x / 65536) % 256,
            b3 == x / 16777216,
            x < 0x1_0000_0000,
    ;
    if s.len() == 4 {
        let c0 = s[0];
        let c1 = s[1];
        let c2 = s[2];
        let c3 = s[3];
        let y = c0 + c1 * 256 + c2 * 65536 + c3 * 16777216;
        assert(y % 256 == c0 && (y / 256) % 256 == c1 && (y / 65536) % 256 == c2 && y
            / 16777216 == c3) by (nonlinear_arith)
            requires
                y == c0 + c1 * 256 + c2 * 65536 + c3 * 16777216,
                0 <= c0 < 256,
                0 <= c1 < 256,
                0 <= c2 < 256,
                0 <= c3 < 256,
        ;
        assert(le32(from_le32(s)) =~= s);
    }
}

/// Reading back little-endian bytes gives the word, and writing a read word gives the bytes.
pub proof fn lemma_le16_roundtrip(x: u16, s: Seq<u8>)
    ensures
        from_le16(le16(x)) == x,
        s.len() == 2 ==> le16(from_le16(s)) == s,
{
    if s.len() == 2 {
        assert(le16(from_le16(s)) =~= s);
    }
}

/// Write the little-endian bytes of `x` at `buf[off..off + 4]`.
pub fn put_le32(buf: &mut [u8], off: usize, x: u32)
    requires
        off + 4 <= old(buf)@.len(),
    ensures
        final(buf)@.len() == old(buf)@.len(),
        final(buf)@.subrange(off as int, off + 4) == le32(x),
        forall|i: int|
            0 <= i < old(buf)@.len() && !(off <= i < off + 4) ==> final(buf)@[i] == old(buf)@[i],
{
    buf[off] = (x % 256) as u8;
    buf[off + 1] = ((x / 256) % 256) as u8;
    buf[off + 2] = ((x / 65536) % 256) as u8;
    buf[off + 3] = (x / 16777216) as u8;
    assert(buf@.subrange(off as int, off + 4) =~= le32(x));
}

/// Write the little-endian bytes of `x` at `buf[off..off + 2]`.
pub fn put_le16(buf: &mut [u8], off: usize, x: u16)
    requires
        off + 2 <= old(buf)@.len(),
    ensures
        final(buf)@.len() == old(buf)@.len(),
        final(buf)@.subrange(off as int, off + 2) == le16(x),
        forall|i: int|
            0 <= i < old(buf)@.len() && !(off <= i < off + 2) ==> final(buf)@[i] == old(buf)@[i],
{
    buf[off] = (x % 256) as u8;
    buf[off + 1] = (x / 256) as u8;
    assert(buf@.subrange(off as int, off + 2) =~= le16(x));
}

/// Read the little-endian 32-bit word at `buf[off..off + 4]`.
pub fn get_le32(buf: &[u8], off: usize) -> (r: u32)
    requires
        off + 4 <= buf@.len(),
    ensures
        r == from_le32(buf@.subrange(off as int, off + 4)),
{
    (buf[off] as u32) + (buf[off + 1] as u32) * 256 + (buf[off + 2] as u32) * 65536 + (buf[off
        + 3] as u32) * 16777216
}

/// Read the little-endian 16-bit word at `buf[off..off + 2]`.
pub fn get_le16(buf: &[u8], off: usize) -> (r: u16)
    requires
        off + 2 <= buf@.len(),
    ensures
        r == from_le16(buf@.subrange(off as int, off + 2)),
{
    (buf[off] as u16) + (buf[off + 1] as u16) * 256
}

/// Segment state in buffer
#[derive(Clone, Copy, Debug, PartialEq, Eq, Structural)]
pub enum SegmentState {
    /// Slot is empty/available
    Empty,
    /// Segment is pending (queued, not yet sent)
    Pending,
    /// Segment has been sent, awaiting ACK
    Sent,
    /// Segment has been acknowledged
    Acked,
}

impl Default for SegmentState {
    fn default() -> (r: Self)
        ensures
            r == SegmentState::Empty,
    {
        SegmentState::Empty
    }
}

/// Segment header: 24 bytes on the wire, little-endian:
/// `| conv (4) | cmd (1) | frg (1) | wnd (2) | ts (4) | sn (4) | una (4) | len (4) |`
#[derive(Clone, Copy, Debug, Default)]
pub struct SegmentHeader {
    /// Conversation ID
    pub conv: u32,
    /// Command type (CMD_PUSH, CMD_ACK, CMD_WASK, CMD_WINS)
    pub cmd: u8,
    /// Fragment index (0 = last fragment)
    pub frg: u8,
    /// Window size
    pub wnd: u16,
    /// Timestamp
    pub ts: u32,
    /// Sequence number
    pub sn: u32,
    /// Unacknowledged sequence number
    pub una: u32,
    /// Data length
    pub len: u32,
}

/// The 24 wire bytes of a header.
pub open spec fn header_bytes(h: SegmentHeader) -> Seq<u8> {
    le32(h.conv) + seq![h.cmd, h.frg] + le16(h.wnd) + le32(h.ts) + le32(h.sn) + le32(h.una)
        + le32(h.len)
}

/// The header whose wire bytes start `s` (at least 24 bytes).
pub open spec fn header_from_bytes(s: Seq<u8>) -> SegmentHeader {
    SegmentHeader {
        conv: from_le32(s.subrange(0, 4)),
        cmd: s[4],
        frg: s[5],
        wnd: from_le16(s.subrange(6, 8)),
        ts: from_le32(s.subrange(8, 12)),
        sn: from_le32(s.subrange(12, 16)),
        una: from_le32(s.subrange(16, 20)),
        len: from_le32(s.subrange(20, 24)),
    }
}

/// Decoding the encoding of a header gives the header back.
pub proof fn lemma_header_roundtrip(h: SegmentHeader)
    ensures
        header_bytes(h).len() == HEADER_SIZE,
        header_from_bytes(header_bytes(h)) == h,
{
    let b = header_bytes(h);
    assert(b.subrange(0, 4) =~= le32(h.conv));
    assert(b.subrange(6, 8) =~= le16(h.wnd));
    assert(b.subrange(8, 12) =~= le32(h.ts));
    assert(b.subrange(12, 16) =~= le32(h.sn));
    assert(b.subrange(16, 20) =~= le32(h.una));
    assert(b.subrange(20, 24) =~= le32(h.len));
    lemma_le32_roundtrip(h.conv, b);
    lemma_le16_roundtrip(h.wnd, b);
    lemma_le32_roundtrip(h.ts, b);
    lemma_le32_roundtrip(h.sn, b);
    lemma_le32_roundtrip(h.una, b);
    lemma_le32_roundtrip(h.len, b);
}

/// Encoding the header read from 24 bytes gives those bytes back.
pub proof fn lemma_bytes_roundtrip(s: Seq<u8>)
    requires
        s.len() >= HEADER_SIZE,
    ensures
        header_bytes(header_from_bytes(s)) == s.subrange(0, HEADER_SIZE as int),
{
    let h = header_from_bytes(s);
    lemma_le32_roundtrip(0, s.subrange(0, 4));
    lemma_le16_roundtrip(0, s.subrange(6, 8));
    lemma_le32_roundtrip(0, s.subrange(8, 12));
    lemma_le32_roundtrip(0, s.subrange(12, 16));
    lemma_le32_roundtrip(0, s.subrange(16, 20));
    lemma_le32_roundtrip(0, s.subrange(20, 24));
    assert(header_bytes(h) =~= s.subrange(0, HEADER_SIZE as int));
}

impl SegmentHeader {
    /// Write the 24 header bytes at the start of `buf`, which is long enough.
    pub fn write_to(&self, buf: &mut [u8])
        requires
            old(buf)@.len() >= HEADER_SIZE,
        ensures
            final(buf)@ == header_bytes(*self) + old(buf)@.skip(HEADER_SIZE as int),
    {
        put_le32(buf, 0, self.conv);
        buf[4] = self.cmd;
        buf[5] = self.frg;
        put_le16(buf, 6, self.wnd);
        put_le32(buf, 8, self.ts);
        put_le32(buf, 12, self.sn);
        put_le32(buf, 16, self.una);
        put_le32(buf, 20, self.len);
        proof {
            let b = buf@;
            assert(b.subrange(0, 4) == le32(self.conv));
            assert(b.subrange(6, 8) == le16(self.wnd));
            assert(b.subrange(8, 12) == le32(self.ts));
            assert(b.subrange(12, 16) == le32(self.sn));
            assert(b.subrange(16, 20) == le32(self.una));
            assert(b.subrange(20, 24) == le32(self.len));
            assert(b =~= header_bytes(*self) + old(buf)@.skip(HEADER_SIZE as int));
        }
    }

    /// Encode header to buffer (little-endian); `None` when the buffer is shorter than a header
    pub fn encode(&self, buf: &mut [u8]) -> (r: Option<()>)
        ensures
            r is Some <==> old(buf)@.len() >= HEADER_SIZE,
            r is Some ==> final(buf)@ == header_bytes(*self) + old(buf)@.skip(HEADER_SIZE as int),
            r is None ==> final(buf)@ == old(buf)@,
    {
        if buf.len() < HEADER_SIZE {
            return None;
        }
        self.write_to(buf);
        Some(())
    }

    /// Decode header from buffer (little-endian); `None` when the buffer is shorter than a header
    pub fn decode(buf: &[u8]) -> (r: Option<Self>)
        ensures
            r is Some <==> buf@.len() >= HEADER_SIZE,
            r matches Some(h) ==> h == header_from_bytes(buf@),
    {
        if buf.len() < HEADER_SIZE {
            return None;
        }
        Some(
            SegmentHeader {
                conv: get_le32(buf, 0),
                cmd: buf[4],
                frg: buf[5],
                wnd: get_le16(buf, 6),
                ts: get_le32(buf, 8),
                sn: get_le32(buf, 12),
                una: get_le32(buf, 16),
                len: get_le32(buf, 20),
            },
        )
    }
}

/// Send segment: transmission metadata of one slot of a send buffer
#[derive(Clone, Copy)]
pub struct SendSegment {
    /// Sequence number
    pub sn: Sequence,
    /// Resend timestamp
    pub resend_ts: u32,
    /// Retransmission timeout
    pub rto: u32,
    /// Fast ACK count
    pub fastack: u16,
    /// Transmission count
    pub xmit: u16,
    /// Current state
    pub state: SegmentState,
    /// Fragment index
    pub frg: u8,
    /// Data length
    pub data_len: u16,
    /// Send timestamp
    pub ts: u32,
    /// Offset in data buffer
    pub data_offset: u32,
}

impl SendSegment {
    /// The value of an unused slot.
    pub open spec fn empty() -> Self {
        SendSegment {
            sn: Sequence(0),
            resend_ts: 0,
            rto: RTO_DEFAULT,
            fastack: 0,
            xmit: 0,
            state: SegmentState::Empty,
            frg: 0,
            data_len: 0,
            ts: 0,
            data_offset: 0,
        }
    }
}

impl Default for SendSegment {
    fn default() -> (r: Self)
        ensures
            r == SendSegment::empty(),
    {
        SendSegment {
            sn: Sequence(0),
            resend_ts: 0,
            rto: RTO_DEFAULT,
            fastack: 0,
            xmit: 0,
            state: SegmentState::Empty,
            frg: 0,
            data_len: 0,
            ts: 0,
            data_offset: 0,
        }
    }
}

/// Receive segment: reassembly metadata of one slot of the receive buffer
#[derive(Clone, Copy)]
pub struct RecvSegment {
    /// Sequence number
    pub sn: Sequence,
    /// Fragment index
    pub frg: u8,
    /// Current state
    pub state: SegmentState,
    /// Data length
    pub data_len: u16,
    /// Offset in data buffer
    pub data_offset: u32,
}

impl RecvSegment {
    /// The value of an unused slot.
    pub open spec fn empty() -> Self {
        RecvSegment {
            sn: Sequence(0),
            frg: 0,
            state: SegmentState::Empty,
            data_len: 0,
            data_offset: 0,
        }
    }
}

impl Default for RecvSegment {
    fn default() -> (r: Self)
        ensures
            r == RecvSegment::empty(),
    {
        RecvSegment {
            sn: Sequence(0),
            frg: 0,
            state: SegmentState::Empty,
            data_len: 0,
            data_offset: 0,
        }
    }
}

/// ACK entry for pending acknowledgments
#[derive(Clone, Copy)]
pub struct AckEntry {
    /// Sequence number being acknowledged
    pub sn: u32,
    /// Timestamp of original packet
    pub ts: u32,
}

impl Default for AckEntry {
    fn default() -> (r: Self)
        ensures
            r.sn == 0 && r.ts == 0,
    {
        AckEntry { sn: 0, ts: 0 }
    }
}

} // verus!
