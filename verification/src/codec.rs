//! Wire format encoding and decoding of whole segments (header followed by data).

use vstd::prelude::*;
use crate::constants::HEADER_SIZE;
use crate::segment::{
    SegmentHeader, header_bytes, header_from_bytes, from_le32, get_le32, lemma_header_roundtrip,
    lemma_bytes_roundtrip,
};

verus! {

/// Result of encoding a segment
#[derive(Debug, Clone, Copy)]
pub struct EncodeResult {
    /// Number of bytes written to buffer
    pub bytes_written: usize,
}

/// Result of decoding a segment
#[derive(Debug, Clone, Copy)]
pub struct DecodeResult {
    /// Decoded header
    pub header: SegmentHeader,
    /// Offset where data begins
    pub data_offset: usize,
    /// Total length of segment (header + data)
    pub total_len: usize,
}

/// The wire bytes of a segment: its header, then its data.
pub open spec fn segment_bytes(header: SegmentHeader, data: Seq<u8>) -> Seq<u8> {
    header_bytes(header) + data
}

/// Encode segment to buffer; `None` (buffer untouched) when the buffer cannot hold it
pub fn encode_segment(buf: &mut [u8], header: &SegmentHeader, data: &[u8]) -> (r: Option<
    EncodeResult,
>)
    ensures
        r is Some <==> old(buf)@.len() >= HEADER_SIZE + data@.len(),
        r matches Some(e) ==> {
            &&& e.bytes_written == HEADER_SIZE + data@.len()
            &&& final(buf)@ == segment_bytes(*header, data@) + old(buf)@.skip(
                e.bytes_written as int,
            )
        },
        r is None ==> final(buf)@ == old(buf)@,
{
    if buf.len() < HEADER_SIZE || buf.len() - HEADER_SIZE < data.len() {
        return None;
    }
    let total_len = HEADER_SIZE + data.len();
    header.write_to(buf);
    let ghost mid = buf@;
    let mut i: usize = 0;
    while i < data.len()
        invariant
            total_len == HEADER_SIZE + data@.len(),
            total_len <= buf@.len(),
            buf@.len() == mid.len(),
            0 <= i <= data@.len(),
            forall|j: int| 0 <= j < HEADER_SIZE + i ==> #[trigger] buf@[j] == (header_bytes(*header) + data@)[j],
            forall|j: int| HEADER_SIZE + i <= j < buf@.len() ==> #[trigger] buf@[j] == mid[j],
            mid == header_bytes(*header) + old(buf)@.skip(HEADER_SIZE as int),
        decreases data@.len() - i,
    {
        buf[HEADER_SIZE + i] = data[i];
        i = i + 1;
    }
    assert(buf@ =~= segment_bytes(*header, data@) + old(buf)@.skip(total_len as int));
    Some(EncodeResult { bytes_written: total_len })
}

/// Decode segment from buffer; `None` when the buffer is shorter than the header,
/// or shorter than the header plus the data length it announces
pub fn decode_segment(buf: &[u8]) -> (r: Option<DecodeResult>)
    ensures
        r is Some <==> (buf@.len() >= HEADER_SIZE && buf@.len() >= HEADER_SIZE + header_from_bytes(
            buf@,
        ).len),
        r matches Some(d) ==> {
            &&& d.header == header_from_bytes(buf@)
            &&& d.data_offset == HEADER_SIZE
            &&& d.total_len == HEADER_SIZE + d.header.len
        },
{
    if buf.len() < HEADER_SIZE {
        return None;
    }
    let header = match SegmentHeader::decode(buf) {
        Some(h) => h,
        None => {
            return None;
        },
    };
    let data_len = header.len as usize;
    if buf.len() - HEADER_SIZE < data_len {
        return None;
    }
    let total_len = HEADER_SIZE + data_len;
    Some(DecodeResult { header, data_offset: HEADER_SIZE, total_len })
}

/// Check that the buffer starts with the conversation id `expected`
pub fn validate_conv(buf: &[u8], expected: u32) -> (r: bool)
    ensures
        r == (buf@.len() >= 4 && from_le32(buf@.subrange(0, 4)) == expected),
{
    if buf.len() < 4 {
        return false;
    }
    let conv = get_le32(buf, 0);
    conv == expected
}

/// Extract the conversation id without a full decode
pub fn peek_conv(buf: &[u8]) -> (r: Option<u32>)
    ensures
        r is Some <==> buf@.len() >= 4,
        r matches Some(c) ==> c == from_le32(buf@.subrange(0, 4)),
{
    if buf.len() < 4 {
        return None;
    }
    Some(get_le32(buf, 0))
}

/// Decoding an encoded segment gives back its header, and its data sits between
/// the data offset and the total length.
pub proof fn lemma_segment_roundtrip(header: SegmentHeader, data: Seq<u8>, rest: Seq<u8>)
    requires
        header.len == data.len(),
    ensures
        ({
            let b = segment_bytes(header, data) + rest;
            &&& b.len() >= HEADER_SIZE + header_from_bytes(b).len
            &&& header_from_bytes(b) == header
            &&& b.subrange(HEADER_SIZE as int, HEADER_SIZE + header.len) == data
        }),
{
    let b = segment_bytes(header, data) + rest;
    lemma_header_roundtrip(header);
    assert(b.subrange(0, HEADER_SIZE as int) =~= header_bytes(header));
    assert(header_from_bytes(b) == header_from_bytes(b.subrange(0, HEADER_SIZE as int))) by {
        assert(b.subrange(0, 4) =~= b.subrange(0, HEADER_SIZE as int).subrange(0, 4));
        assert(b.subrange(6, 8) =~= b.subrange(0, HEADER_SIZE as int).subrange(6, 8));
        assert(b.subrange(8, 12) =~= b.subrange(0, HEADER_SIZE as int).subrange(8, 12));
        assert(b.subrange(12, 16) =~= b.subrange(0, HEADER_SIZE as int).subrange(12, 16));
        assert(b.subrange(16, 20) =~= b.subrange(0, HEADER_SIZE as int).subrange(16, 20));
        assert(b.subrange(20, 24) =~= b.subrange(0, HEADER_SIZE as int).subrange(20, 24));
    }
    assert(b.subrange(HEADER_SIZE as int, HEADER_SIZE + header.len) =~= data);
}

/// Re-encoding a decoded header with its data reproduces the decoded bytes.
pub proof fn lemma_decode_reencode(buf: Seq<u8>)
    requires
        buf.len() >= HEADER_SIZE + header_from_bytes(buf).len,
    ensures
        ({
            let h = header_from_bytes(buf);
            segment_bytes(h, buf.subrange(HEADER_SIZE as int, HEADER_SIZE + h.len)) == buf.subrange(
                0,
                HEADER_SIZE + h.len,
            )
        }),
{
    let h = header_from_bytes(buf);
    lemma_bytes_roundtrip(buf);
    assert(segment_bytes(h, buf.subrange(HEADER_SIZE as int, HEADER_SIZE + h.len)) =~= buf.subrange(
        0,
        HEADER_SIZE + h.len,
    ));
}

} // verus!
