//! Forward error correction with a systematic Reed-Solomon code over GF(2^8).
//!
//! A group holds `k` data shards followed by `m` parity shards; parity shard `i`
//! is the combination of the data shards with the coefficients `(k + i + 1)^j`.
//! Any `k` shards whose rows form an invertible matrix give the data back.

pub mod gf256;
pub mod linalg;
pub mod encoder;
pub mod decoder;
pub mod buffer;

pub use gf256::GF256;
pub use encoder::FecEncoder;
pub use decoder::FecDecoder;
pub use buffer::{FecSendBuffer, FecRecvBuffer};

use vstd::prelude::*;
use crate::constants::MSS_DEFAULT;
use crate::segment::{le16, from_le16, lemma_le16_roundtrip, put_le16, get_le16};

verus! {

/// Maximum number of shards per FEC group
pub const MAX_SHARDS: usize = 16;

/// Maximum shard size (the default segment payload)
pub const MAX_SHARD_SIZE: usize = MSS_DEFAULT;

/// FEC group capacity of the receive buffer (a power of 2)
pub const FEC_GROUP_CAPACITY: usize = 64;

/// FEC group mask for indexing
pub const FEC_GROUP_MASK: usize = FEC_GROUP_CAPACITY - 1;

/// FEC header size in bytes
pub const FEC_HEADER_SIZE: usize = 4;

/// FEC Configuration
#[derive(Clone, Copy, Debug)]
pub struct FecConfig {
    /// Number of data shards (k)
    pub data_shards: u8,
    /// Number of parity shards (m)
    pub parity_shards: u8,
}

impl Default for FecConfig {
    fn default() -> (r: Self)
        ensures
            r.data_shards == 4,
            r.parity_shards == 2,
    {
        FecConfig { data_shards: 4, parity_shards: 2 }
    }
}

impl FecConfig {
    /// A configuration whose shards fit in a group: at least one of each kind, at most
    /// `MAX_SHARDS` in all.
    pub open spec fn valid(self) -> bool {
        &&& self.data_shards > 0
        &&& self.parity_shards > 0
        &&& self.data_shards + self.parity_shards <= MAX_SHARDS
    }

    /// Create FEC config with specified shards; the shards must fit in a group
    pub fn new(data_shards: u8, parity_shards: u8) -> (r: Self)
        requires
            data_shards + parity_shards <= MAX_SHARDS,
            data_shards > 0,
            parity_shards > 0,
        ensures
            r.data_shards == data_shards,
            r.parity_shards == parity_shards,
            r.valid(),
    {
        FecConfig { data_shards, parity_shards }
    }

    /// Total number of shards (k + m)
    pub fn total_shards(&self) -> (r: u8)
        requires
            self.data_shards + self.parity_shards <= u8::MAX,
        ensures
            r == self.data_shards + self.parity_shards,
    {
        self.data_shards + self.parity_shards
    }

    /// Overhead in percent (parity * 100 / data, rounded down)
    pub fn overhead_percent(&self) -> (r: u32)
        requires
            self.data_shards > 0,
        ensures
            r == (self.parity_shards * 100) / (self.data_shards as int),
    {
        (self.parity_shards as u32 * 100) / self.data_shards as u32
    }

    /// Low latency config: k=2, m=1 (50% overhead, recover from 1 loss)
    pub fn low_latency() -> (r: Self)
        ensures
            r.data_shards == 2,
            r.parity_shards == 1,
    {
        FecConfig { data_shards: 2, parity_shards: 1 }
    }

    /// Balanced config: k=4, m=2 (50% overhead, recover from 2 losses)
    pub fn balanced() -> (r: Self)
        ensures
            r.data_shards == 4,
            r.parity_shards == 2,
    {
        FecConfig { data_shards: 4, parity_shards: 2 }
    }

    /// High protection: k=8, m=4 (50% overhead, recover from 4 losses)
    pub fn high_protection() -> (r: Self)
        ensures
            r.data_shards == 8,
            r.parity_shards == 4,
    {
        FecConfig { data_shards: 8, parity_shards: 4 }
    }

    /// Bandwidth efficient: k=10, m=2 (20% overhead, recover from 2 losses)
    pub fn bandwidth_efficient() -> (r: Self)
        ensures
            r.data_shards == 10,
            r.parity_shards == 2,
    {
        FecConfig { data_shards: 10, parity_shards: 2 }
    }
}

/// FEC shard header (prepended to each shard); on the wire
/// `| group_id (2, little-endian) | shard_idx (1) | shard_count (1) |`
#[derive(Clone, Copy, Debug)]
pub struct FecShardHeader {
    /// FEC group identifier (wrapping counter)
    pub group_id: u16,
    /// Shard index within group (0..k+m-1)
    pub shard_idx: u8,
    /// Total shard count in group (k+m)
    pub shard_count: u8,
}

impl Default for FecShardHeader {
    fn default() -> (r: Self)
        ensures
            r.group_id == 0,
            r.shard_idx == 0,
            r.shard_count == 0,
    {
        FecShardHeader { group_id: 0, shard_idx: 0, shard_count: 0 }
    }
}

/// The four wire bytes of a shard header.
pub open spec fn shard_header_bytes(h: FecShardHeader) -> Seq<u8> {
    le16(h.group_id) + seq![h.shard_idx, h.shard_count]
}

/// The shard header whose wire bytes start `s` (at least four bytes).
pub open spec fn shard_header_from_bytes(s: Seq<u8>) -> FecShardHeader {
    FecShardHeader { group_id: from_le16(s.subrange(0, 2)), shard_idx: s[2], shard_count: s[3] }
}

/// Reading back the bytes of a header gives the header, and writing a header read from
/// four bytes gives those bytes.
pub proof fn lemma_shard_header_roundtrip(h: FecShardHeader, s: Seq<u8>)
    ensures
        shard_header_bytes(h).len() == FEC_HEADER_SIZE,
        shard_header_from_bytes(shard_header_bytes(h)) == h,
        s.len() >= FEC_HEADER_SIZE ==> shard_header_bytes(shard_header_from_bytes(s)) == s.subrange(
            0,
            FEC_HEADER_SIZE as int,
        ),
{
    let b = shard_header_bytes(h);
    assert(b.subrange(0, 2) =~= le16(h.group_id));
    lemma_le16_roundtrip(h.group_id, b);
    if s.len() >= FEC_HEADER_SIZE {
        lemma_le16_roundtrip(0, s.subrange(0, 2));
        assert(shard_header_bytes(shard_header_from_bytes(s)) =~= s.subrange(
            0,
            FEC_HEADER_SIZE as int,
        ));
    }
}

impl FecShardHeader {
    /// Create new shard header
    pub fn new(group_id: u16, shard_idx: u8, shard_count: u8) -> (r: Self)
        ensures
            r.group_id == group_id,
            r.shard_idx == shard_idx,
            r.shard_count == shard_count,
    {
        FecShardHeader { group_id, shard_idx, shard_count }
    }

    /// Encode header to buffer (little-endian); `None` when the buffer is shorter than a header
    pub fn encode(&self, buf: &mut [u8]) -> (r: Option<()>)
        ensures
            r is Some <==> old(buf)@.len() >= FEC_HEADER_SIZE,
            r is Some ==> final(buf)@ == shard_header_bytes(*self) + old(buf)@.skip(
                FEC_HEADER_SIZE as int,
            ),
            r is None ==> final(buf)@ == old(buf)@,
    {
        if buf.len() < FEC_HEADER_SIZE {
            return None;
        }
        put_le16(buf, 0, self.group_id);
        buf[2] = self.shard_idx;
        buf[3] = self.shard_count;
        proof {
            assert(buf@.subrange(0, 2) == le16(self.group_id));
            assert(buf@ =~= shard_header_bytes(*self) + old(buf)@.skip(FEC_HEADER_SIZE as int));
        }
        Some(())
    }

    /// Decode header from buffer (little-endian); `None` when the buffer is shorter than a header
    pub fn decode(buf: &[u8]) -> (r: Option<Self>)
        ensures
            r is Some <==> buf@.len() >= FEC_HEADER_SIZE,
            r matches Some(h) ==> h == shard_header_from_bytes(buf@),
    {
        if buf.len() < FEC_HEADER_SIZE {
            return None;
        }
        Some(FecShardHeader { group_id: get_le16(buf, 0), shard_idx: buf[2], shard_count: buf[3] })
    }

    /// Check if this is a data shard (not parity)
    pub fn is_data_shard(&self, data_shards: u8) -> (r: bool)
        ensures
            r == (self.shard_idx < data_shards),
    {
        self.shard_idx < data_shards
    }
}

} // verus!
