//! FEC send and receive buffers: the groups of shards on their way out and in.

use vstd::prelude::*;
use vstd::slice::slice_subrange;
use super::encoder::{FecEncoder, flat_parity, flat_shards};
use super::decoder::{FecDecoder, kept, selected, invertible, codeword_on};
use super::linalg::{code_byte, zeros};
use super::{FecConfig, FecShardHeader, FEC_GROUP_CAPACITY, FEC_GROUP_MASK, MAX_SHARDS, MAX_SHARD_SIZE};

verus! {

/// Shard state in buffer
#[derive(Clone, Copy, Debug, PartialEq, Eq, Structural)]
pub enum ShardState {
    /// Slot is empty
    Empty,
    /// Shard is pending (has data)
    Pending,
    /// Shard has been sent
    Sent,
}

impl Default for ShardState {
    fn default() -> (r: Self)
        ensures
            r == ShardState::Empty,
    {
        ShardState::Empty
    }
}

/// Byte `b` of data shard `i` of a send group, padded with zeros past its size.
pub open spec fn padded(g: FecSendGroup, i: int, b: int) -> u8 {
    if b < g.shard_sizes[i] {
        g.shards[i][b]
    } else {
        0
    }
}

/// The first `k` shards of a send group, padded with zeros to `size` bytes.
pub open spec fn padded_data(g: FecSendGroup, k: nat, size: nat) -> Seq<Seq<u8>> {
    Seq::new(k, |i: int| Seq::new(size, |b: int| padded(g, i, b)))
}

/// Single FEC group for sending
#[derive(Clone)]
pub struct FecSendGroup {
    /// Group ID
    pub group_id: u16,
    /// Shard data storage `[total_shards][shard_size]`
    pub shards: [[u8; MAX_SHARD_SIZE]; MAX_SHARDS],
    /// Actual size of each shard
    pub shard_sizes: [u16; MAX_SHARDS],
    /// State of each shard
    pub states: [ShardState; MAX_SHARDS],
    /// Number of data shards filled
    pub data_count: u8,
    /// Maximum shard size in this group (for padding)
    pub max_shard_size: u16,
}

impl Default for FecSendGroup {
    fn default() -> (r: Self)
        ensures
            r.group_id == 0,
            r.data_count == 0,
            r.max_shard_size == 0,
            forall|i: int| 0 <= i < MAX_SHARDS ==> #[trigger] r.shard_sizes[i] == 0,
            forall|i: int| 0 <= i < MAX_SHARDS ==> #[trigger] r.states[i] == ShardState::Empty,
            forall|i: int, b: int|
                0 <= i < MAX_SHARDS && 0 <= b < MAX_SHARD_SIZE ==> #[trigger] r.shards[i][b] == 0,
    {
        FecSendGroup {
            group_id: 0,
            shards: [[0u8; MAX_SHARD_SIZE]; MAX_SHARDS],
            shard_sizes: [0u16; MAX_SHARDS],
            states: [ShardState::Empty; MAX_SHARDS],
            data_count: 0,
            max_shard_size: 0,
        }
    }
}

impl FecSendGroup {
    /// Reset group for reuse: no shard is filled; the shard bytes and sizes stay
    pub fn reset(&mut self, group_id: u16)
        ensures
            final(self).group_id == group_id,
            final(self).data_count == 0,
            final(self).max_shard_size == 0,
            final(self).shards == old(self).shards,
            final(self).shard_sizes == old(self).shard_sizes,
            forall|i: int| 0 <= i < MAX_SHARDS ==> #[trigger] final(self).states[i] == ShardState::Empty,
    {
        self.group_id = group_id;
        self.data_count = 0;
        self.max_shard_size = 0;
        let mut i: usize = 0;
        while i < MAX_SHARDS
            invariant
                0 <= i <= MAX_SHARDS,
                self.group_id == group_id,
                self.data_count == 0,
                self.max_shard_size == 0,
                self.shards == old(self).shards,
                self.shard_sizes == old(self).shard_sizes,
                forall|ii: int| 0 <= ii < i ==> #[trigger] self.states[ii] == ShardState::Empty,
            decreases MAX_SHARDS - i,
        {
            self.states[i] = ShardState::Empty;
            i = i + 1;
        }
    }

    /// Add a data shard at the next index; `None` when the group already holds `k` data
    /// shards or the data is longer than `MAX_SHARD_SIZE`
    pub fn add_data_shard(&mut self, data: &[u8], config: &FecConfig) -> (r: Option<u8>)
        requires
            old(self).data_count < config.data_shards && data@.len() <= MAX_SHARD_SIZE
                ==> old(self).data_count < MAX_SHARDS,
        ensures
            r is Some <==> (old(self).data_count < config.data_shards && data@.len()
                <= MAX_SHARD_SIZE),
            r is None ==> *final(self) == *old(self),
            r matches Some(idx) ==> {
                let i = idx as int;
                &&& idx == old(self).data_count
                &&& final(self).data_count == old(self).data_count + 1
                &&& final(self).group_id == old(self).group_id
                &&& final(self).max_shard_size == if data@.len() > old(self).max_shard_size {
                    data@.len() as u16
                } else {
                    old(self).max_shard_size
                }
                &&& final(self).shard_sizes@ == old(self).shard_sizes@.update(i, data@.len() as u16)
                &&& final(self).states@ == old(self).states@.update(i, ShardState::Pending)
                &&& forall|j: int, b: int|
                    0 <= j < MAX_SHARDS && 0 <= b < MAX_SHARD_SIZE ==> #[trigger] final(self).shards[j][b] == if j == i && b < data@.len() {
                        data@[b]
                    } else {
                        old(self).shards[j][b]
                    }
            },
    {
        let k = config.data_shards;
        if self.data_count >= k || data.len() > MAX_SHARD_SIZE {
            return None;
        }
        let idx = self.data_count as usize;
        let len = data.len();
        let ghost s0 = self.shards;
        let mut b: usize = 0;
        while b < len
            invariant
                idx < MAX_SHARDS,
                idx == old(self).data_count,
                old(self).data_count < config.data_shards,
                self.data_count == old(self).data_count,
                self.group_id == old(self).group_id,
                self.max_shard_size == old(self).max_shard_size,
                self.shard_sizes == old(self).shard_sizes,
                self.states == old(self).states,
                len == data@.len(),
                len <= MAX_SHARD_SIZE,
                0 <= b <= len,
                forall|j: int, c: int|
                    0 <= j < MAX_SHARDS && 0 <= c < MAX_SHARD_SIZE ==> #[trigger] self.shards[j][c]
                        == if j == idx && c < b {
                        data@[c]
                    } else {
                        s0[j][c]
                    },
            decreases len - b,
        {
            self.shards[idx][b] = data[b];
            b = b + 1;
        }
        self.shard_sizes[idx] = len as u16;
        self.states[idx] = ShardState::Pending;
        self.data_count = self.data_count + 1;
        if len as u16 > self.max_shard_size {
            self.max_shard_size = len as u16;
        }
        Some(idx as u8)
    }

    /// Check if group is complete (all data shards filled)
    pub fn is_complete(&self, config: &FecConfig) -> (r: bool)
        ensures
            r == (self.data_count >= config.data_shards),
    {
        self.data_count >= config.data_shards
    }

    /// Generate parity shards for a complete group.
    ///
    /// Fails when the group does not hold exactly `k` data shards or all of them are empty.
    /// Otherwise the data shards are padded with zeros to the largest size `s`, and the
    /// first `s` bytes of shard `k + i` become parity shard `i` of the padded data shards,
    /// with size `s` and pending.
    pub fn generate_parity(&mut self, encoder: &mut FecEncoder) -> (r: bool)
        requires
            old(encoder).wf(),
            old(self).data_count == old(encoder).conf().data_shards && old(self).max_shard_size
                != 0 ==> {
                &&& old(encoder).conf().data_shards + old(encoder).conf().parity_shards
                    <= MAX_SHARDS
                &&& old(self).max_shard_size <= MAX_SHARD_SIZE
            },
        ensures
            *final(encoder) == *old(encoder),
            r == (old(self).data_count == old(encoder).conf().data_shards && old(self).max_shard_size != 0),
            !r ==> *final(self) == *old(self),
            final(self).group_id == old(self).group_id,
            final(self).data_count == old(self).data_count,
            final(self).max_shard_size == old(self).max_shard_size,
            r ==> {
                let k = old(encoder).conf().data_shards as int;
                let m = old(encoder).conf().parity_shards as int;
                let s = old(self).max_shard_size as int;
                &&& forall|i: int|
                    0 <= i < MAX_SHARDS ==> #[trigger] final(self).shard_sizes[i] == if k <= i < k
                        + m {
                        s as u16
                    } else {
                        old(self).shard_sizes[i]
                    }
                &&& forall|i: int|
                    0 <= i < MAX_SHARDS ==> #[trigger] final(self).states[i] == if k <= i < k + m {
                        ShardState::Pending
                    } else {
                        old(self).states[i]
                    }
                &&& forall|i: int, b: int|
                    0 <= i < MAX_SHARDS && 0 <= b < MAX_SHARD_SIZE ==> #[trigger] final(self).shards[i][b] == if b < s && i < k {
                        padded(*old(self), i, b)
                    } else if b < s && i < k + m {
                        code_byte(padded_data(*old(self), k as nat, s as nat), k as nat, i, b)
                    } else {
                        old(self).shards[i][b]
                    }
            },
    {
        let config = encoder.config();
        let k = config.data_shards as usize;
        let m = config.parity_shards as usize;
        if self.data_count as usize != k {
            return false;
        }
        let s = self.max_shard_size as usize;
        if s == 0 {
            return false;
        }
        let ghost g0 = *self;
        // Pad shorter shards with zeros
        let mut i: usize = 0;
        while i < k
            invariant
                k + m <= MAX_SHARDS,
                0 < s <= MAX_SHARD_SIZE,
                0 <= i <= k,
                self.group_id == g0.group_id,
                self.data_count == g0.data_count,
                self.max_shard_size == g0.max_shard_size,
                self.shard_sizes == g0.shard_sizes,
                self.states == g0.states,
                forall|j: int, b: int|
                    0 <= j < MAX_SHARDS && 0 <= b < MAX_SHARD_SIZE ==> #[trigger] self.shards[j][b]
                        == if j < i && b < s {
                        padded(g0, j, b)
                    } else {
                        g0.shards[j][b]
                    },
            decreases k - i,
        {
            let actual = self.shard_sizes[i] as usize;
            if actual < s {
                let mut b: usize = actual;
                while b < s
                    invariant
                        k + m <= MAX_SHARDS,
                        i < k,
                        0 < s <= MAX_SHARD_SIZE,
                        actual == g0.shard_sizes[i as int],
                        actual <= b <= s,
                        self.group_id == g0.group_id,
                        self.data_count == g0.data_count,
                        self.max_shard_size == g0.max_shard_size,
                        self.shard_sizes == g0.shard_sizes,
                        self.states == g0.states,
                        forall|j: int, c: int|
                            0 <= j < MAX_SHARDS && 0 <= c < MAX_SHARD_SIZE ==> #[trigger] self.shards[j][c]
                                == if j < i && c < s {
                                padded(g0, j, c)
                            } else if j == i && actual <= c < b {
                                0u8
                            } else {
                                g0.shards[j][c]
                            },
                    decreases s - b,
                {
                    self.shards[i][b] = 0;
                    b = b + 1;
                }
            }
            i = i + 1;
        }
        // The padded data shards, one after another
        let ghost pd = padded_data(g0, k as nat, s as nat);
        let mut data: Vec<u8> = Vec::new();
        let mut j: usize = 0;
        while j < k
            invariant
                k + m <= MAX_SHARDS,
                0 < s <= MAX_SHARD_SIZE,
                0 <= j <= k,
                pd == padded_data(g0, k as nat, s as nat),
                forall|jj: int, b: int|
                    0 <= jj < k && 0 <= b < s ==> #[trigger] self.shards[jj][b] == padded(g0, jj, b),
                data@.len() == j * s,
                forall|t: int| 0 <= t < data@.len() ==> #[trigger] data@[t] == pd[t / (s as int)][t % (
                    s as int)],
            decreases k - j,
        {
            let mut b: usize = 0;
            while b < s
                invariant
                    k + m <= MAX_SHARDS,
                    0 < s <= MAX_SHARD_SIZE,
                    j < k,
                    0 <= b <= s,
                    pd == padded_data(g0, k as nat, s as nat),
                    forall|jj: int, c: int|
                        0 <= jj < k && 0 <= c < s ==> #[trigger] self.shards[jj][c] == padded(g0, jj, c),
                    data@.len() == j * s + b,
                    forall|t: int|
                        0 <= t < data@.len() ==> #[trigger] data@[t] == pd[t / (s as int)][t % (
                            s as int)],
                decreases s - b,
            {
                proof {
                    let t = j * s + b;
                    vstd::arithmetic::div_mod::lemma_fundamental_div_mod_converse(
                        t,
                        s as int,
                        j as int,
                        b as int,
                    );
                    assert(self.shards[j as int][b as int] == padded(g0, j as int, b as int));
                }
                data.push(self.shards[j][b]);
                b = b + 1;
            }
            assert(j * s + s == (j + 1) * s) by (nonlinear_arith);
            j = j + 1;
        }
        assert(data@.len() == k * s);
        assert(flat_shards(data@, s as nat, k as nat) =~= pd) by {
            assert forall|jj: int| 0 <= jj < k implies #[trigger] flat_shards(
                data@,
                s as nat,
                k as nat,
            )[jj] =~= pd[jj] by {
                assert(jj * s + s <= k * s) by (nonlinear_arith)
                    requires
                        jj < k,
                ;
                assert forall|b: int| 0 <= b < s implies #[trigger] data@.subrange(
                    jj * s,
                    jj * s + s,
                )[b] == pd[jj][b] by {
                    vstd::arithmetic::div_mod::lemma_fundamental_div_mod_converse(
                        jj * s + b,
                        s as int,
                        jj,
                        b,
                    );
                }
            }
        }
        assert(m * s <= MAX_SHARDS * MAX_SHARD_SIZE) by (nonlinear_arith)
            requires
                m <= MAX_SHARDS,
                s <= MAX_SHARD_SIZE,
        ;
        assert(k * s <= MAX_SHARDS * MAX_SHARD_SIZE) by (nonlinear_arith)
            requires
                k <= MAX_SHARDS,
                s <= MAX_SHARD_SIZE,
        ;
        let mut parity = zeros(m * s);
        let ok = encoder.encode_contiguous(data.as_slice(), parity.as_mut_slice(), s);
        if !ok {
            return false;
        }
        let ghost g1 = *self;
        // Store the parity shards
        let mut i: usize = 0;
        while i < m
            invariant
                k + m <= MAX_SHARDS,
                k == encoder.conf().data_shards,
                m == encoder.conf().parity_shards,
                0 < s <= MAX_SHARD_SIZE,
                s == g0.max_shard_size,
                0 <= i <= m,
                m * s <= MAX_SHARDS * MAX_SHARD_SIZE,
                parity@.len() == m * s,
                pd == padded_data(g0, k as nat, s as nat),
                forall|pos: int|
                    0 <= pos < m * s ==> #[trigger] parity@[pos] == flat_parity(
                        data@,
                        k as nat,
                        s as nat,
                        pos,
                    ),
                flat_shards(data@, s as nat, k as nat) == pd,
                self.group_id == g0.group_id,
                self.data_count == g0.data_count,
                self.max_shard_size == g0.max_shard_size,
                forall|ii: int|
                    0 <= ii < MAX_SHARDS ==> #[trigger] self.shard_sizes[ii] == if k <= ii < k + i {
                        s as u16
                    } else {
                        g0.shard_sizes[ii]
                    },
                forall|ii: int|
                    0 <= ii < MAX_SHARDS ==> #[trigger] self.states[ii] == if k <= ii < k + i {
                        ShardState::Pending
                    } else {
                        g0.states[ii]
                    },
                forall|ii: int, b: int|
                    0 <= ii < MAX_SHARDS && 0 <= b < MAX_SHARD_SIZE ==> #[trigger] self.shards[ii][b]
                        == if b < s && ii < k {
                        padded(g0, ii, b)
                    } else if b < s && k <= ii < k + i {
                        code_byte(pd, k as nat, ii, b)
                    } else {
                        g0.shards[ii][b]
                    },
            decreases m - i,
        {
            assert(i * s + s <= m * s) by (nonlinear_arith)
                requires
                    i < m,
            ;
            let mut b: usize = 0;
            while b < s
                invariant
                    k + m <= MAX_SHARDS,
                    0 < s <= MAX_SHARD_SIZE,
                    i < m,
                    i * s + s <= m * s,
                    m * s <= MAX_SHARDS * MAX_SHARD_SIZE,
                    0 <= b <= s,
                    parity@.len() == m * s,
                    pd == padded_data(g0, k as nat, s as nat),
                    forall|pos: int|
                        0 <= pos < m * s ==> #[trigger] parity@[pos] == flat_parity(
                            data@,
                            k as nat,
                            s as nat,
                            pos,
                        ),
                    flat_shards(data@, s as nat, k as nat) == pd,
                    self.group_id == g0.group_id,
                    self.data_count == g0.data_count,
                    self.max_shard_size == g0.max_shard_size,
                    forall|ii: int|
                        0 <= ii < MAX_SHARDS ==> #[trigger] self.shard_sizes[ii] == if k <= ii < k
                            + i {
                            s as u16
                        } else {
                            g0.shard_sizes[ii]
                        },
                    forall|ii: int|
                        0 <= ii < MAX_SHARDS ==> #[trigger] self.states[ii] == if k <= ii < k + i {
                            ShardState::Pending
                        } else {
                            g0.states[ii]
                        },
                    forall|ii: int, c: int|
                        0 <= ii < MAX_SHARDS && 0 <= c < MAX_SHARD_SIZE ==> #[trigger] self.shards[ii][c]
                            == if c < s && ii < k {
                            padded(g0, ii, c)
                        } else if c < s && k <= ii < k + i {
                            code_byte(pd, k as nat, ii, c)
                        } else if ii == k + i && c < b {
                            code_byte(pd, k as nat, ii, c)
                        } else {
                            g0.shards[ii][c]
                        },
                decreases s - b,
            {
                proof {
                    let pos = i * s + b;
                    vstd::arithmetic::div_mod::lemma_fundamental_div_mod_converse(
                        pos,
                        s as int,
                        i as int,
                        b as int,
                    );
                    assert(parity@[pos] == code_byte(pd, k as nat, k + i, b as int));
                }
                self.shards[k + i][b] = parity[i * s + b];
                b = b + 1;
            }
            self.shard_sizes[k + i] = s as u16;
            self.states[k + i] = ShardState::Pending;
            i = i + 1;
        }
        true
    }

    /// The bytes and header of a shard that is not empty; `None` for an index past the
    /// group's shards or an empty shard
    pub fn get_shard(&self, idx: u8, config: &FecConfig) -> (r: Option<(&[u8], FecShardHeader)>)
        requires
            config.data_shards + config.parity_shards <= u8::MAX,
            idx < config.data_shards + config.parity_shards ==> idx < MAX_SHARDS,
            idx < config.data_shards + config.parity_shards && self.states[idx as int]
                != ShardState::Empty ==> self.shard_sizes[idx as int] <= MAX_SHARD_SIZE,
        ensures
            r is Some <==> (idx < config.data_shards + config.parity_shards && self.states[idx as int]
                != ShardState::Empty),
            r matches Some((data, header)) ==> {
                &&& data@ == self.shards[idx as int]@.take(self.shard_sizes[idx as int] as int)
                &&& header.group_id == self.group_id
                &&& header.shard_idx == idx
                &&& header.shard_count == config.data_shards + config.parity_shards
            },
    {
        let total = config.total_shards();
        if idx >= total || self.states[idx as usize] == ShardState::Empty {
            return None;
        }
        let i = idx as usize;
        let size = self.shard_sizes[i] as usize;
        let header = FecShardHeader::new(self.group_id, idx, total);
        let data = slice_subrange(self.shards[i].as_slice(), 0, size);
        assert(data@ =~= self.shards[i as int]@.take(size as int));
        Some((data, header))
    }

    /// Mark shard as sent; an index past the group's slots is ignored
    pub fn mark_sent(&mut self, idx: u8)
        ensures
            final(self).group_id == old(self).group_id,
            final(self).shards == old(self).shards,
            final(self).shard_sizes == old(self).shard_sizes,
            final(self).data_count == old(self).data_count,
            final(self).max_shard_size == old(self).max_shard_size,
            final(self).states@ == if idx < MAX_SHARDS {
                old(self).states@.update(idx as int, ShardState::Sent)
            } else {
                old(self).states@
            },
    {
        if (idx as usize) < MAX_SHARDS {
            self.states[idx as usize] = ShardState::Sent;
        }
    }
}

/// FEC Send Buffer: fills one group at a time and generates its parity
pub struct FecSendBuffer {
    /// FEC configuration
    config: FecConfig,
    /// FEC encoder
    encoder: FecEncoder,
    /// Current group being filled
    current_group: FecSendGroup,
    /// Next group ID
    next_group_id: u16,
}

impl FecSendBuffer {
    /// The configuration.
    pub closed spec fn conf(&self) -> FecConfig {
        self.config
    }

    /// The group being filled.
    pub closed spec fn group(&self) -> FecSendGroup {
        self.current_group
    }

    /// The id the next group gets.
    pub closed spec fn next_id(&self) -> u16 {
        self.next_group_id
    }

    /// The encoder was made with the configuration.
    pub closed spec fn wf(&self) -> bool {
        &&& self.encoder.wf()
        &&& self.encoder.conf() == self.config
    }

    /// Create new send buffer; the parity rows must fit in the encoder's matrix
    pub fn new(config: FecConfig) -> (r: Self)
        requires
            config.parity_shards == 0 || config.data_shards <= MAX_SHARDS,
            config.data_shards == 0 || config.parity_shards <= MAX_SHARDS,
        ensures
            r.wf(),
            r.conf() == config,
            r.next_id() == 0,
            r.group().group_id == 0,
            r.group().data_count == 0,
            r.group().max_shard_size == 0,
    {
        FecSendBuffer {
            config,
            encoder: FecEncoder::new(config),
            current_group: FecSendGroup::default(),
            next_group_id: 0,
        }
    }

    /// Add data to the current group, which starts over (with the next group id) when it
    /// holds no data shard; returns the group id and the shard index, or `None` when the
    /// group is full or the data too large
    pub fn add_data(&mut self, data: &[u8]) -> (r: Option<(u16, u8)>)
        requires
            old(self).wf(),
            old(self).group().data_count < old(self).conf().data_shards && data@.len()
                <= MAX_SHARD_SIZE ==> old(self).group().data_count < MAX_SHARDS,
        ensures
            final(self).wf(),
            final(self).conf() == old(self).conf(),
            final(self).next_id() == old(self).next_id(),
            ({
                let fresh = old(self).group().data_count == 0;
                let id = if fresh {
                    old(self).next_id()
                } else {
                    old(self).group().group_id
                };
                let g0 = old(self).group();
                let g1 = final(self).group();
                let base_max: u16 = if fresh {
                    0
                } else {
                    g0.max_shard_size
                };
                &&& r is Some <==> (old(self).group().data_count < old(self).conf().data_shards
                    && data@.len() <= MAX_SHARD_SIZE)
                &&& final(self).group().group_id == id
                &&& r matches Some((gid, idx)) ==> {
                    &&& gid == id
                    &&& idx == g0.data_count
                    &&& g1.data_count == g0.data_count + 1
                    &&& g1.shard_sizes@ == g0.shard_sizes@.update(idx as int, data@.len() as u16)
                    &&& g1.shards[idx as int]@.take(data@.len() as int) == data@
                    &&& g1.max_shard_size == if data@.len() > base_max {
                        data@.len() as u16
                    } else {
                        base_max
                    }
                    &&& forall|i: int|
                        0 <= i < MAX_SHARDS ==> #[trigger] g1.states[i] == if i == idx {
                            ShardState::Pending
                        } else if fresh {
                            ShardState::Empty
                        } else {
                            g0.states[i]
                        }
                    &&& forall|j: int, b: int|
                        0 <= j < MAX_SHARDS && 0 <= b < MAX_SHARD_SIZE ==> #[trigger] g1.shards[j][b]
                            == if j == idx && b < data@.len() {
                            data@[b]
                        } else {
                            g0.shards[j][b]
                        }
                }
                &&& r is None ==> {
                    &&& g1.data_count == g0.data_count
                    &&& g1.shards == g0.shards
                    &&& g1.shard_sizes == g0.shard_sizes
                    &&& g1.max_shard_size == base_max
                    &&& !fresh ==> g1 == g0
                    &&& fresh ==> forall|i: int|
                        0 <= i < MAX_SHARDS ==> #[trigger] g1.states[i] == ShardState::Empty
                }
            }),
    {
        if self.current_group.data_count == 0 {
            self.current_group.reset(self.next_group_id);
        }
        let idx = match self.current_group.add_data_shard(data, &self.config) {
            Some(i) => i,
            None => {
                return None;
            },
        };
        assert(self.current_group.shards[idx as int]@.take(data@.len() as int) =~= data@);
        Some((self.current_group.group_id, idx))
    }

    /// Check if current group is complete
    pub fn is_group_complete(&self) -> (r: bool)
        ensures
            r == (self.group().data_count >= self.conf().data_shards),
    {
        self.current_group.is_complete(&self.config)
    }

    /// Finalize the current group: when it holds exactly `k` data shards, not all empty,
    /// generate its parity and return it
    pub fn finalize_group(&mut self) -> (r: Option<&FecSendGroup>)
        requires
            old(self).wf(),
            old(self).group().data_count == old(self).conf().data_shards && old(self).group().max_shard_size != 0 ==> {
                &&& old(self).conf().data_shards + old(self).conf().parity_shards <= MAX_SHARDS
                &&& old(self).group().max_shard_size <= MAX_SHARD_SIZE
            },
        ensures
            final(self).wf(),
            final(self).conf() == old(self).conf(),
            final(self).next_id() == old(self).next_id(),
            r is Some <==> (old(self).group().data_count == old(self).conf().data_shards && old(self).group().max_shard_size != 0),
            r is None ==> final(self).group() == old(self).group(),
            r matches Some(g) ==> *g == final(self).group(),
            r is Some ==> {
                let k = old(self).conf().data_shards as int;
                let m = old(self).conf().parity_shards as int;
                let s = old(self).group().max_shard_size as int;
                let g0 = old(self).group();
                let g1 = final(self).group();
                &&& g1.group_id == g0.group_id
                &&& g1.data_count == g0.data_count
                &&& g1.max_shard_size == g0.max_shard_size
                &&& forall|i: int|
                    0 <= i < MAX_SHARDS ==> #[trigger] g1.states[i] == if k <= i < k + m {
                        ShardState::Pending
                    } else {
                        g0.states[i]
                    }
                &&& forall|i: int|
                    0 <= i < MAX_SHARDS ==> #[trigger] g1.shard_sizes[i] == if k <= i < k + m {
                        s as u16
                    } else {
                        g0.shard_sizes[i]
                    }
                &&& forall|i: int, b: int|
                    0 <= i < MAX_SHARDS && 0 <= b < MAX_SHARD_SIZE ==> #[trigger] g1.shards[i][b]
                        == if b < s && i < k {
                        padded(g0, i, b)
                    } else if b < s && i < k + m {
                        code_byte(padded_data(g0, k as nat, s as nat), k as nat, i, b)
                    } else {
                        g0.shards[i][b]
                    }
            },
    {
        if !self.current_group.is_complete(&self.config) {
            return None;
        }
        if !self.current_group.generate_parity(&mut self.encoder) {
            return None;
        }
        Some(&self.current_group)
    }

    /// Advance to the next group id and start an empty group with it
    pub fn advance_group(&mut self)
        requires
            old(self).wf(),
        ensures
            final(self).wf(),
            final(self).conf() == old(self).conf(),
            final(self).next_id() == old(self).next_id().wrapping_add(1),
            final(self).group().group_id == final(self).next_id(),
            final(self).group().data_count == 0,
            final(self).group().max_shard_size == 0,
            final(self).group().shards == old(self).group().shards,
            final(self).group().shard_sizes == old(self).group().shard_sizes,
            forall|i: int|
                0 <= i < MAX_SHARDS ==> #[trigger] final(self).group().states[i] == ShardState::Empty,
    {
        self.next_group_id = self.next_group_id.wrapping_add(1);
        self.current_group.reset(self.next_group_id);
    }

    /// Get current group
    pub fn current_group(&self) -> (r: &FecSendGroup)
        ensures
            *r == self.group(),
    {
        &self.current_group
    }

    /// Get mutable current group
    pub fn current_group_mut(&mut self) -> (r: &mut FecSendGroup)
        ensures
            *r == old(self).group(),
            final(self).group() == *final(r),
            final(self).conf() == old(self).conf(),
            final(self).next_id() == old(self).next_id(),
            old(self).wf() ==> final(self).wf(),
    {
        &mut self.current_group
    }

    /// Get config
    pub fn config(&self) -> (r: FecConfig)
        ensures
            r == self.conf(),
    {
        self.config
    }
}

/// Number of set flags among the first `n`.
pub open spec fn count_set(p: Seq<bool>, n: nat) -> nat
    decreases n,
{
    if n == 0 {
        0
    } else {
        count_set(p, (n - 1) as nat) + if p[n - 1] {
            1nat
        } else {
            0nat
        }
    }
}

/// There are at most `n` set flags among the first `n`.
proof fn lemma_count_set_le(p: Seq<bool>, n: nat)
    ensures
        count_set(p, n) <= n,
    decreases n,
{
    if n > 0 {
        lemma_count_set_le(p, (n - 1) as nat);
    }
}

/// No flag set, no count.
proof fn lemma_count_set_none(p: Seq<bool>, n: nat)
    requires
        forall|j: int| 0 <= j < n ==> !#[trigger] p[j],
    ensures
        count_set(p, n) == 0,
    decreases n,
{
    if n > 0 {
        lemma_count_set_none(p, (n - 1) as nat);
    }
}

/// Setting a clear flag adds one to the count.
proof fn lemma_count_set_update(p: Seq<bool>, i: int, n: nat)
    requires
        0 <= i < n <= p.len(),
        !p[i],
    ensures
        count_set(p.update(i, true), n) == count_set(p, n) + 1,
    decreases n,
{
    let q = p.update(i, true);
    if n - 1 == i {
        assert forall|j: int| 0 <= j < n - 1 implies q[j] == p[j] by {}
        lemma_count_set_same(p, q, (n - 1) as nat);
    } else {
        lemma_count_set_update(p, i, (n - 1) as nat);
    }
}

/// Counts agree where the flags agree.
proof fn lemma_count_set_same(p: Seq<bool>, q: Seq<bool>, n: nat)
    requires
        forall|j: int| 0 <= j < n ==> #[trigger] p[j] == q[j],
    ensures
        count_set(p, n) == count_set(q, n),
    decreases n,
{
    if n > 0 {
        lemma_count_set_same(p, q, (n - 1) as nat);
        assert(p[n - 1] == q[n - 1]);
    }
}

/// The indices below `n` whose flag is clear, in increasing order.
pub open spec fn missing_list(p: Seq<bool>, n: nat) -> Seq<u8>
    decreases n,
{
    if n == 0 {
        Seq::empty()
    } else if !p[n - 1] {
        missing_list(p, (n - 1) as nat).push((n - 1) as u8)
    } else {
        missing_list(p, (n - 1) as nat)
    }
}

/// Single FEC group for receiving
#[derive(Clone)]
pub struct FecRecvGroup {
    /// Group ID
    pub group_id: u16,
    /// Shard data storage
    pub shards: [[u8; MAX_SHARD_SIZE]; MAX_SHARDS],
    /// Actual size of each shard
    pub shard_sizes: [u16; MAX_SHARDS],
    /// Which shards are present
    pub present: [bool; MAX_SHARDS],
    /// Number of shards received
    pub recv_count: u8,
    /// Expected shard count
    pub total_shards: u8,
    /// Whether group has been decoded
    pub decoded: bool,
    /// Timestamp of first shard received
    pub first_recv_ts: u32,
}

/// `g1` is `g0` emptied for the group `id` of `total` shards; the shard bytes and sizes stay.
pub open spec fn cleared(g0: FecRecvGroup, g1: FecRecvGroup, id: u16, total: u8) -> bool {
    &&& g1.group_id == id
    &&& g1.total_shards == total
    &&& g1.recv_count == 0
    &&& !g1.decoded
    &&& g1.first_recv_ts == 0
    &&& g1.shards == g0.shards
    &&& g1.shard_sizes == g0.shard_sizes
    &&& forall|i: int| 0 <= i < MAX_SHARDS ==> !#[trigger] g1.present[i]
}

/// A group takes a shard when its index lies within a group, its data fits and its slot
/// is free.
pub open spec fn accepts(g: FecRecvGroup, h: FecShardHeader, len: nat) -> bool {
    h.shard_idx < MAX_SHARDS && len <= MAX_SHARD_SIZE && !g.present[h.shard_idx as int]
}

/// `g1` is `g0` with the shard of `h` stored: its bytes, size and presence, one more
/// shard counted, and the time of the first shard set if it was not.
pub open spec fn stored(
    g0: FecRecvGroup,
    g1: FecRecvGroup,
    h: FecShardHeader,
    data: Seq<u8>,
    ts: u32,
) -> bool {
    let i = h.shard_idx as int;
    &&& g1.group_id == g0.group_id
    &&& g1.total_shards == g0.total_shards
    &&& g1.decoded == g0.decoded
    &&& g1.recv_count == g0.recv_count + 1
    &&& g1.first_recv_ts == if g0.first_recv_ts == 0 {
        ts
    } else {
        g0.first_recv_ts
    }
    &&& g1.present@ == g0.present@.update(i, true)
    &&& g1.shard_sizes@ == g0.shard_sizes@.update(i, data.len() as u16)
    &&& forall|j: int, b: int|
        0 <= j < MAX_SHARDS && 0 <= b < MAX_SHARD_SIZE ==> #[trigger] g1.shards[j][b] == if j == i
            && b < data.len() {
            data[b]
        } else {
            g0.shards[j][b]
        }
}

/// The shard count matches the presence flags and every size fits a shard.
pub open spec fn recv_group_ok(g: FecRecvGroup) -> bool {
    &&& g.recv_count == count_set(g.present@, MAX_SHARDS as nat)
    &&& forall|i: int| 0 <= i < MAX_SHARDS ==> #[trigger] g.shard_sizes[i] <= MAX_SHARD_SIZE
}

/// A receive group as created: group 0, nothing received, every shard empty and zeroed.
pub open spec fn empty_recv_group(g: FecRecvGroup) -> bool {
    &&& g.group_id == 0
    &&& g.recv_count == 0
    &&& g.total_shards == 0
    &&& !g.decoded
    &&& g.first_recv_ts == 0
    &&& forall|i: int| 0 <= i < MAX_SHARDS ==> !#[trigger] g.present[i]
    &&& forall|i: int| 0 <= i < MAX_SHARDS ==> #[trigger] g.shard_sizes[i] == 0
    &&& forall|i: int, b: int|
        0 <= i < MAX_SHARDS && 0 <= b < MAX_SHARD_SIZE ==> #[trigger] g.shards[i][b] == 0
}

impl Default for FecRecvGroup {
    fn default() -> (r: Self)
        ensures
            r.group_id == 0,
            r.recv_count == 0,
            r.total_shards == 0,
            !r.decoded,
            r.first_recv_ts == 0,
            forall|i: int| 0 <= i < MAX_SHARDS ==> !#[trigger] r.present[i],
            forall|i: int| 0 <= i < MAX_SHARDS ==> #[trigger] r.shard_sizes[i] == 0,
            forall|i: int, b: int|
                0 <= i < MAX_SHARDS && 0 <= b < MAX_SHARD_SIZE ==> #[trigger] r.shards[i][b] == 0,
            recv_group_ok(r),
    {
        let g = FecRecvGroup {
            group_id: 0,
            shards: [[0u8; MAX_SHARD_SIZE]; MAX_SHARDS],
            shard_sizes: [0u16; MAX_SHARDS],
            present: [false; MAX_SHARDS],
            recv_count: 0,
            total_shards: 0,
            decoded: false,
            first_recv_ts: 0,
        };
        proof {
            lemma_count_set_none(g.present@, MAX_SHARDS as nat);
        }
        g
    }
}

impl FecRecvGroup {
    /// Reset for reuse by the group `group_id` of `total_shards` shards
    pub fn reset(&mut self, group_id: u16, total_shards: u8)
        ensures
            cleared(*old(self), *final(self), group_id, total_shards),
            recv_group_ok(*old(self)) ==> recv_group_ok(*final(self)),
    {
        self.group_id = group_id;
        self.total_shards = total_shards;
        self.recv_count = 0;
        self.decoded = false;
        self.first_recv_ts = 0;
        let mut i: usize = 0;
        while i < MAX_SHARDS
            invariant
                0 <= i <= MAX_SHARDS,
                self.group_id == group_id,
                self.total_shards == total_shards,
                self.recv_count == 0,
                !self.decoded,
                self.first_recv_ts == 0,
                self.shards == old(self).shards,
                self.shard_sizes == old(self).shard_sizes,
                forall|ii: int| 0 <= ii < i ==> !#[trigger] self.present[ii],
            decreases MAX_SHARDS - i,
        {
            self.present[i] = false;
            i = i + 1;
        }
        proof {
            lemma_count_set_none(self.present@, MAX_SHARDS as nat);
        }
    }

    /// Add received shard; `false` (and nothing changes) when its index is past a group,
    /// its data is too large, or it is a duplicate
    pub fn add_shard(&mut self, header: &FecShardHeader, data: &[u8], ts: u32) -> (r: bool)
        requires
            accepts(*old(self), *header, data@.len()) ==> old(self).recv_count < u8::MAX,
        ensures
            r == accepts(*old(self), *header, data@.len()),
            r ==> stored(*old(self), *final(self), *header, data@, ts),
            !r ==> *final(self) == *old(self),
            recv_group_ok(*old(self)) ==> recv_group_ok(*final(self)),
    {
        let idx = header.shard_idx as usize;
        if idx >= MAX_SHARDS || data.len() > MAX_SHARD_SIZE {
            return false;
        }
        if self.present[idx] {
            return false;
        }
        let len = data.len();
        let ghost s0 = self.shards;
        let mut b: usize = 0;
        while b < len
            invariant
                idx < MAX_SHARDS,
                len == data@.len(),
                len <= MAX_SHARD_SIZE,
                0 <= b <= len,
                self.group_id == old(self).group_id,
                self.total_shards == old(self).total_shards,
                self.decoded == old(self).decoded,
                self.recv_count == old(self).recv_count,
                self.first_recv_ts == old(self).first_recv_ts,
                self.present == old(self).present,
                self.shard_sizes == old(self).shard_sizes,
                forall|j: int, c: int|
                    0 <= j < MAX_SHARDS && 0 <= c < MAX_SHARD_SIZE ==> #[trigger] self.shards[j][c]
                        == if j == idx && c < b {
                        data@[c]
                    } else {
                        s0[j][c]
                    },
            decreases len - b,
        {
            self.shards[idx][b] = data[b];
            b = b + 1;
        }
        self.shard_sizes[idx] = len as u16;
        self.present[idx] = true;
        self.recv_count = self.recv_count + 1;
        if self.first_recv_ts == 0 {
            self.first_recv_ts = ts;
        }
        proof {
            if recv_group_ok(*old(self)) {
                lemma_count_set_update(old(self).present@, idx as int, MAX_SHARDS as nat);
            }
        }
        true
    }

    /// Check if we have enough shards to decode and have not yet
    pub fn can_decode(&self, data_shards: u8) -> (r: bool)
        ensures
            r == (self.recv_count >= data_shards && !self.decoded),
    {
        self.recv_count >= data_shards && !self.decoded
    }

    /// Check if all data shards are present (no decoding needed)
    pub fn has_all_data(&self, data_shards: u8) -> (r: bool)
        requires
            data_shards > MAX_SHARDS ==> exists|i: int| 0 <= i < MAX_SHARDS && !#[trigger] self.present[i],
        ensures
            r == forall|i: int| 0 <= i < data_shards ==> #[trigger] self.present[i],
    {
        let mut i: usize = 0;
        while i < data_shards as usize
            invariant
                0 <= i <= data_shards,
                i <= MAX_SHARDS,
                data_shards > MAX_SHARDS ==> exists|j: int| 0 <= j < MAX_SHARDS && !#[trigger] self.present[j],
                forall|j: int| 0 <= j < i ==> #[trigger] self.present[j],
            decreases data_shards - i,
        {
            if !self.present[i] {
                return false;
            }
            i = i + 1;
            if i == MAX_SHARDS && (data_shards as usize) > MAX_SHARDS {
                proof {
                    let j = choose|j: int| 0 <= j < MAX_SHARDS && !#[trigger] self.present[j];
                    assert(self.present[j]);
                }
            }
        }
        true
    }

    /// The indices of the missing data shards, in increasing order
    pub fn missing_data_indices(&self, data_shards: u8) -> (r: Vec<u8>)
        requires
            data_shards <= MAX_SHARDS,
        ensures
            r@ == missing_list(self.present@, data_shards as nat),
    {
        let mut r: Vec<u8> = Vec::new();
        let mut i: u8 = 0;
        while i < data_shards
            invariant
                0 <= i <= data_shards,
                data_shards <= MAX_SHARDS,
                r@ == missing_list(self.present@, i as nat),
            decreases data_shards - i,
        {
            if !self.present[i as usize] {
                r.push(i);
            }
            i = i + 1;
        }
        r
    }
}

/// Slot of a group id in the receive buffer.
pub open spec fn group_slot(group_id: u16) -> int {
    group_id as int % FEC_GROUP_CAPACITY as int
}

/// `g1` is the slot `g0` after a shard of `h` arrives: a slot that holds no shard or
/// another group starts over for the group of `h`; then the shard is stored if `r`.
pub open spec fn received(
    g0: FecRecvGroup,
    g1: FecRecvGroup,
    h: FecShardHeader,
    data: Seq<u8>,
    ts: u32,
    r: bool,
) -> bool {
    let fresh = g0.recv_count == 0 || g0.group_id != h.group_id;
    let i = h.shard_idx as int;
    let was = |j: int| !fresh && g0.present[j];
    let count0: int = if fresh {
        0
    } else {
        g0.recv_count as int
    };
    let ts0: u32 = if fresh {
        0
    } else {
        g0.first_recv_ts
    };
    &&& r == (h.shard_idx < MAX_SHARDS && data.len() <= MAX_SHARD_SIZE && !was(i))
    &&& g1.group_id == h.group_id
    &&& g1.total_shards == if fresh {
        h.shard_count
    } else {
        g0.total_shards
    }
    &&& g1.decoded == (!fresh && g0.decoded)
    &&& g1.recv_count == count0 + if r {
        1int
    } else {
        0int
    }
    &&& g1.first_recv_ts == if r && ts0 == 0 {
        ts
    } else {
        ts0
    }
    &&& forall|j: int| 0 <= j < MAX_SHARDS ==> #[trigger] g1.present[j] == (was(j) || (r && j == i))
    &&& g1.shard_sizes@ == if r {
        g0.shard_sizes@.update(i, data.len() as u16)
    } else {
        g0.shard_sizes@
    }
    &&& forall|j: int, b: int|
        0 <= j < MAX_SHARDS && 0 <= b < MAX_SHARD_SIZE ==> #[trigger] g1.shards[j][b] == if r && j
            == i && b < data.len() {
            data[b]
        } else {
            g0.shards[j][b]
        }
}

/// A shard that a slot takes is present there afterwards, with its data as its bytes.
pub proof fn lemma_received_shard_readable(
    g0: FecRecvGroup,
    g1: FecRecvGroup,
    h: FecShardHeader,
    data: Seq<u8>,
    ts: u32,
)
    requires
        received(g0, g1, h, data, ts, true),
    ensures
        g1.group_id == h.group_id,
        g1.present[h.shard_idx as int],
        g1.shard_sizes[h.shard_idx as int] == data.len(),
        g1.shards[h.shard_idx as int]@.take(g1.shard_sizes[h.shard_idx as int] as int) == data,
{
    let i = h.shard_idx as int;
    assert(g1.present[i]);
    assert(g1.shard_sizes@[i] == data.len() as u16);
    assert(g1.shards[i]@.take(data.len() as int) =~= data) by {
        assert forall|b: int| 0 <= b < data.len() implies #[trigger] g1.shards[i]@[b] == data[b] by {
            assert(g1.shards[i][b] == data[b]);
        }
    }
}

/// Some present shard among the first `n` has a nonzero size.
pub open spec fn has_sized_shard(g: FecRecvGroup, n: int) -> bool {
    exists|i: int| 0 <= i < n && g.present[i] && #[trigger] g.shard_sizes[i] > 0
}

/// The largest size among the present shards below `n` (0 when there is none).
pub open spec fn max_present_size(g: FecRecvGroup, n: nat) -> u16
    decreases n,
{
    if n == 0 {
        0
    } else {
        let m = max_present_size(g, (n - 1) as nat);
        if g.present[n - 1] && g.shard_sizes[n - 1] > m {
            g.shard_sizes[n - 1]
        } else {
            m
        }
    }
}

/// No present shard of a consistent group is larger than a shard can be.
proof fn lemma_max_present_size_bound(g: FecRecvGroup, n: nat)
    requires
        recv_group_ok(g),
        n <= MAX_SHARDS,
    ensures
        max_present_size(g, n) <= MAX_SHARD_SIZE,
    decreases n,
{
    if n > 0 {
        lemma_max_present_size_bound(g, (n - 1) as nat);
        assert(g.shard_sizes[n - 1] <= MAX_SHARD_SIZE);
    }
}

/// The first `size` bytes of each of the first `n` shards of a group.
pub open spec fn stored_shards(g: FecRecvGroup, n: nat, size: nat) -> Seq<Seq<u8>> {
    Seq::new(n, |i: int| Seq::new(size, |b: int| g.shards[i][b]))
}

/// Which of the first `n` shards of a group are missing.
pub open spec fn missing_shards(g: FecRecvGroup, n: nat) -> Seq<bool> {
    Seq::new(n, |i: int| !g.present[i])
}

/// FEC Receive Buffer: the groups being received, one slot per group id modulo the capacity
pub struct FecRecvBuffer {
    /// FEC configuration
    config: FecConfig,
    /// FEC decoder
    decoder: FecDecoder,
    /// Receive groups, indexed by group id modulo the capacity
    groups: Vec<FecRecvGroup>,
}

impl FecRecvBuffer {
    /// The configuration.
    pub closed spec fn conf(&self) -> FecConfig {
        self.config
    }

    /// The group slots.
    pub closed spec fn groups(&self) -> Seq<FecRecvGroup> {
        self.groups@
    }

    /// Every slot is there and consistent, and the shards fit in a group.
    pub closed spec fn wf(&self) -> bool {
        let k = self.config.data_shards as int;
        let m = self.config.parity_shards as int;
        &&& self.groups@.len() == FEC_GROUP_CAPACITY
        &&& forall|i: int| 0 <= i < FEC_GROUP_CAPACITY ==> recv_group_ok(#[trigger] self.groups@[i])
        &&& (k == 0 || k + m <= MAX_SHARDS)
        &&& self.decoder.wf()
        &&& self.decoder.conf() == self.config
    }

    /// Create new receive buffer; all shards must fit in a group
    pub fn new(config: FecConfig) -> (r: Self)
        requires
            config.data_shards == 0 || config.data_shards + config.parity_shards <= MAX_SHARDS,
        ensures
            r.wf(),
            r.conf() == config,
            forall|i: int| 0 <= i < FEC_GROUP_CAPACITY ==> empty_recv_group(#[trigger] r.groups()[i]),
    {
        let decoder = FecDecoder::new(config);
        let mut groups: Vec<FecRecvGroup> = Vec::new();
        let mut i: usize = 0;
        while i < FEC_GROUP_CAPACITY
            invariant
                0 <= i <= FEC_GROUP_CAPACITY,
                groups@.len() == i,
                forall|j: int| 0 <= j < i ==> recv_group_ok(#[trigger] groups@[j]) && empty_recv_group(groups@[j]),
            decreases FEC_GROUP_CAPACITY - i,
        {
            groups.push(FecRecvGroup::default());
            i = i + 1;
        }
        FecRecvBuffer { config, decoder, groups }
    }

    /// Slot of a group id
    fn group_index(group_id: u16) -> (r: usize)
        ensures
            r == group_slot(group_id),
            r < FEC_GROUP_CAPACITY,
    {
        let r = (group_id as usize) & FEC_GROUP_MASK;
        assert((group_id as usize) & 63usize == (group_id as usize) % 64usize) by (bit_vector);
        r
    }

    /// Add a received shard to the slot of its group, which starts over when it holds no
    /// shard or another group; returns whether the shard was taken
    pub fn add_shard(&mut self, header: &FecShardHeader, data: &[u8], ts: u32) -> (r: bool)
        requires
            old(self).wf(),
        ensures
            final(self).wf(),
            final(self).conf() == old(self).conf(),
            final(self).groups().len() == old(self).groups().len(),
            forall|i: int|
                0 <= i < FEC_GROUP_CAPACITY && i != group_slot(header.group_id) ==> #[trigger] final(self).groups()[i] == old(self).groups()[i],
            received(
                old(self).groups()[group_slot(header.group_id)],
                final(self).groups()[group_slot(header.group_id)],
                *header,
                data@,
                ts,
                r,
            ),
    {
        let group_id = header.group_id;
        let idx = Self::group_index(group_id);
        let ghost g0 = self.groups@[idx as int];
        let group = &mut self.groups[idx];
        if group.recv_count == 0 || group.group_id != group_id {
            group.reset(group_id, header.shard_count);
        }
        let ghost mid = *group;
        proof {
            lemma_count_set_le(mid.present@, MAX_SHARDS as nat);
        }
        let r = group.add_shard(header, data, ts);
        proof {
            let g1 = *group;
            assert forall|j: int| 0 <= j < MAX_SHARDS implies #[trigger] g1.present[j] == ((!(g0.recv_count == 0 || g0.group_id != header.group_id) && g0.present[j]) || (r && j == header.shard_idx)) by {
                if r {
                    assert(g1.present@[j] == mid.present@.update(header.shard_idx as int, true)[j]);
                }
            }
        }
        r
    }

    /// Try to decode a group: `true` when it is decoded already, all its data shards are
    /// present, or it has `k` shards of which one has data; then it is marked decoded
    pub fn try_decode(&mut self, group_id: u16) -> (r: bool)
        requires
            old(self).wf(),
        ensures
            final(self).wf(),
            final(self).conf() == old(self).conf(),
            final(self).groups().len() == old(self).groups().len(),
            ({
                let slot = group_slot(group_id);
                let g0 = old(self).groups()[slot];
                let g1 = final(self).groups()[slot];
                let k = old(self).conf().data_shards;
                let n = old(self).conf().data_shards + old(self).conf().parity_shards;
                let all_data = forall|i: int| 0 <= i < k ==> #[trigger] g0.present[i];
                let attempt = g0.group_id == group_id && !g0.decoded && !all_data && g0.recv_count >= k
                    && has_sized_shard(g0, n);
                let size = max_present_size(g0, n as nat);
                let er = missing_shards(g0, n as nat);
                let kp = kept(er, n as nat);
                let solvable = kp.len() >= k && invertible(selected(k as nat, kp), k as nat);
                &&& forall|i: int|
                    0 <= i < FEC_GROUP_CAPACITY && i != slot ==> #[trigger] final(self).groups()[i]
                        == old(self).groups()[i]
                &&& r == (g0.group_id == group_id && (g0.decoded || all_data || (attempt && solvable)))
                &&& g1.decoded == (g0.decoded || r)
                &&& g1.group_id == g0.group_id
                &&& g1.present == g0.present
                &&& g1.recv_count == g0.recv_count
                &&& g1.total_shards == g0.total_shards
                &&& g1.first_recv_ts == g0.first_recv_ts
                &&& !(attempt && r) ==> g1.shards == g0.shards && g1.shard_sizes == g0.shard_sizes
                &&& attempt && r ==> {
                    &&& forall|i: int|
                        0 <= i < MAX_SHARDS && !(i < k && !g0.present[i]) ==> #[trigger] g1.shards[i] == g0.shards[i]
                    &&& forall|i: int|
                        0 <= i < MAX_SHARDS && !(i < k && !g0.present[i]) ==> #[trigger] g1.shard_sizes[i] == g0.shard_sizes[i]
                    &&& forall|d: int|
                        0 <= d < k && !g0.present[d] ==> #[trigger] g1.shard_sizes[d] == size
                    &&& forall|d: int, b: int|
                        0 <= d < k && !g0.present[d] && size <= b < MAX_SHARD_SIZE ==> #[trigger] g1.shards[d][b] == g0.shards[d][b]
                    &&& forall|data: Seq<Seq<u8>>|
                        #[trigger] codeword_on(stored_shards(g0, n as nat, size as nat), er, data, k as nat, size as nat) ==>
                        forall|d: int, b: int|
                            0 <= d < k && !g0.present[d] && 0 <= b < size ==> #[trigger] g1.shards[d][b] == data[d][b]
                }
            }),
    {
        let idx = Self::group_index(group_id);
        let k = self.config.data_shards;
        let n = self.config.total_shards();
        let ghost g0 = self.groups@[idx as int];
        let group = &mut self.groups[idx];
        if group.group_id != group_id {
            return false;
        }
        if group.decoded {
            return true;
        }
        if group.has_all_data(k) {
            group.decoded = true;
            return true;
        }
        if !group.can_decode(k) {
            return false;
        }
        let mut max_size: u16 = 0;
        let mut i: usize = 0;
        while i < n as usize
            invariant
                0 <= i <= n,
                n <= MAX_SHARDS,
                *group == g0,
                (max_size > 0) == has_sized_shard(g0, i as int),
                max_size == max_present_size(g0, i as nat),
            decreases n - i,
        {
            if group.present[i] && group.shard_sizes[i] > max_size {
                max_size = group.shard_sizes[i];
            }
            i = i + 1;
        }
        if max_size == 0 {
            return false;
        }
        let size = max_size as usize;
        proof {
            lemma_max_present_size_bound(g0, n as nat);
        }
        let mut stored: Vec<Vec<u8>> = Vec::new();
        let mut missing: Vec<bool> = Vec::new();
        let mut i: usize = 0;
        while i < n as usize
            invariant
                0 <= i <= n,
                n <= MAX_SHARDS,
                *group == g0,
                size <= MAX_SHARD_SIZE,
                stored@.len() == i,
                missing@.len() == i,
                forall|j: int| 0 <= j < i ==> (#[trigger] stored@[j])@ == Seq::new(size as nat, |b: int| g0.shards[j][b]),
                forall|j: int| 0 <= j < i ==> #[trigger] missing@[j] == !g0.present[j],
            decreases n - i,
        {
            let mut v: Vec<u8> = Vec::new();
            let mut b: usize = 0;
            while b < size
                invariant
                    0 <= b <= size,
                    size <= MAX_SHARD_SIZE,
                    i < MAX_SHARDS,
                    *group == g0,
                    v@.len() == b,
                    forall|c: int| 0 <= c < b ==> #[trigger] v@[c] == g0.shards[i as int][c],
                decreases size - b,
            {
                v.push(group.shards[i][b]);
                b = b + 1;
            }
            proof {
                assert(v@ =~= Seq::new(size as nat, |c: int| g0.shards[i as int][c]));
            }
            stored.push(v);
            missing.push(!group.present[i]);
            i = i + 1;
        }
        proof {
            assert(missing@ =~= missing_shards(g0, n as nat));
            assert(super::decoder::vec_views(stored@) =~= stored_shards(g0, n as nat, size as nat));
            assert(exists|d: int| 0 <= d < k && #[trigger] missing@[d]) by {
                let d = choose|d: int| 0 <= d < k && !#[trigger] g0.present[d];
                assert(missing@[d]);
            }
        }
        let ghost stored0 = stored@;
        proof {
            super::decoder::lemma_kept(missing@, n as nat);
        }
        if !self.decoder.decode_with_erasures(&mut stored, missing.as_slice(), size) {
            return false;
        }
        let group = &mut self.groups[idx];
        let mut d: usize = 0;
        while d < k as usize
            invariant
                0 <= d <= k,
                k <= n,
                n <= MAX_SHARDS,
                size <= MAX_SHARD_SIZE,
                size == max_size,
                stored@.len() == n,
                missing@ == missing_shards(g0, n as nat),
                forall|j: int| 0 <= j < k && missing@[j] ==> (#[trigger] stored@[j])@.len() >= size,
                group.group_id == g0.group_id,
                group.present == g0.present,
                group.recv_count == g0.recv_count,
                group.total_shards == g0.total_shards,
                group.first_recv_ts == g0.first_recv_ts,
                group.decoded == g0.decoded,
                forall|j: int| 0 <= j < MAX_SHARDS && !(j < d && !g0.present[j]) ==> #[trigger] group.shards[j] == g0.shards[j],
                forall|j: int| 0 <= j < MAX_SHARDS && !(j < d && !g0.present[j]) ==> #[trigger] group.shard_sizes[j] == g0.shard_sizes[j],
                forall|j: int| 0 <= j < d && !g0.present[j] ==> #[trigger] group.shard_sizes[j] == size,
                forall|j: int, b: int|
                    0 <= j < d && !g0.present[j] && 0 <= b < MAX_SHARD_SIZE ==> #[trigger] group.shards[j][b]
                        == if b < size { stored@[j]@[b] } else { g0.shards[j][b] },
            decreases k - d,
        {
            let ghost gs = *group;
            proof {
                assert forall|j: int| 0 <= j < MAX_SHARDS && !(j < d && !g0.present[j]) implies #[trigger] gs.shards[j] == g0.shards[j] by {
                    assert(group.shards[j] == g0.shards[j]);
                }
                assert forall|j: int| 0 <= j < MAX_SHARDS && !(j < d && !g0.present[j]) implies #[trigger] gs.shard_sizes[j] == g0.shard_sizes[j] by {
                    assert(group.shard_sizes[j] == g0.shard_sizes[j]);
                }
                assert forall|j: int| 0 <= j < d && !g0.present[j] implies #[trigger] gs.shard_sizes[j] == size by {
                    assert(group.shard_sizes[j] == size);
                }
            }
            if !group.present[d] {
                let mut b: usize = 0;
                while b < size
                    invariant
                        forall|j: int| 0 <= j < MAX_SHARDS && j != d ==> #[trigger] group.shards[j] == gs.shards[j],
                        group.shard_sizes == gs.shard_sizes,
                        0 <= b <= size,
                        size <= MAX_SHARD_SIZE,
                        d < MAX_SHARDS,
                        stored@.len() == n,
                        d < n,
                        stored@[d as int]@.len() >= size,
                        !g0.present[d as int],
                        group.group_id == g0.group_id,
                        group.present == g0.present,
                        group.recv_count == g0.recv_count,
                        group.total_shards == g0.total_shards,
                        group.first_recv_ts == g0.first_recv_ts,
                        group.decoded == g0.decoded,
                        forall|j: int| 0 <= j < MAX_SHARDS && j != d && !(j < d && !g0.present[j]) ==> #[trigger] group.shards[j] == g0.shards[j],
                        forall|j: int| 0 <= j < d && !g0.present[j] ==> #[trigger] group.shard_sizes[j] == size,
                        forall|j: int, c: int|
                            0 <= j < d && !g0.present[j] && 0 <= c < MAX_SHARD_SIZE ==> #[trigger] group.shards[j][c]
                                == if c < size { stored@[j]@[c] } else { g0.shards[j][c] },
                        forall|c: int| 0 <= c < MAX_SHARD_SIZE ==> #[trigger] group.shards[d as int][c]
                            == if c < b { stored@[d as int]@[c] } else { g0.shards[d as int][c] },
                    decreases size - b,
                {
                    group.shards[d][b] = stored[d][b];
                    b = b + 1;
                }
                group.shard_sizes[d] = max_size;
            }
            proof {
                assert forall|j: int| 0 <= j < MAX_SHARDS && !(j < d + 1 && !g0.present[j]) implies #[trigger] group.shards[j] == g0.shards[j] by {
                    assert(gs.shards[j] == g0.shards[j]);
                }
                assert forall|j: int| 0 <= j < MAX_SHARDS && !(j < d + 1 && !g0.present[j]) implies #[trigger] group.shard_sizes[j] == g0.shard_sizes[j] by {
                    assert(gs.shard_sizes[j] == g0.shard_sizes[j]);
                }
                assert forall|j: int| 0 <= j < d + 1 && !g0.present[j] implies #[trigger] group.shard_sizes[j] == size by {
                    if j < d {
                        assert(gs.shard_sizes[j] == size);
                        assert(group.shard_sizes[j] == gs.shard_sizes[j]);
                    } else {
                        assert(group.shard_sizes[d as int] == max_size);
                    }
                }
            }
            d = d + 1;
        }
        proof {
            assert forall|j: int| 0 <= j < MAX_SHARDS implies #[trigger] group.shard_sizes[j] <= MAX_SHARD_SIZE by {
                if j < k && !g0.present[j] {
                    assert(group.shard_sizes[j] == size);
                } else {
                    assert(group.shard_sizes[j] == g0.shard_sizes[j]);
                }
            }
        }
        group.decoded = true;
        proof {
            assert forall|data: Seq<Seq<u8>>|
                #[trigger] codeword_on(stored_shards(g0, n as nat, size as nat), missing_shards(g0, n as nat), data, k as nat, size as nat)
                implies forall|dd: int, b: int|
                    0 <= dd < k && !g0.present[dd] && 0 <= b < size ==> #[trigger] group.shards[dd][b] == data[dd][b] by {
                assert(codeword_on(super::decoder::vec_views(stored0), missing@, data, k as nat, size as nat));
                assert forall|dd: int, b: int| 0 <= dd < k && !g0.present[dd] && 0 <= b < size implies #[trigger] group.shards[dd][b] == data[dd][b] by {
                    assert(missing@[dd]);
                    assert(stored@[dd]@[b] == data[dd][b]);
                }
            }
        }
        true
    }

    /// Get a data shard of a group: `None` when the slot holds another group, the index is
    /// not a data shard's, or the shard is neither present nor decoded
    pub fn get_data_shard(&self, group_id: u16, shard_idx: u8) -> (r: Option<&[u8]>)
        requires
            self.wf(),
        ensures
            ({
                let g = self.groups()[group_slot(group_id)];
                &&& r is Some <==> (g.group_id == group_id && shard_idx < self.conf().data_shards
                    && (g.present[shard_idx as int] || g.decoded))
                &&& r matches Some(d) ==> d@ == g.shards[shard_idx as int]@.take(
                    g.shard_sizes[shard_idx as int] as int,
                )
            }),
    {
        let idx = Self::group_index(group_id);
        let group = &self.groups[idx];
        if group.group_id != group_id {
            return None;
        }
        let i = shard_idx as usize;
        if i >= self.config.data_shards as usize {
            return None;
        }
        if !group.present[i] && !group.decoded {
            return None;
        }
        let size = group.shard_sizes[i] as usize;
        assert(recv_group_ok(self.groups@[idx as int]));
        let d = slice_subrange(group.shards[i].as_slice(), 0, size);
        assert(d@ =~= group.shards[i as int]@.take(size as int));
        Some(d)
    }

    /// Get the group of an id, when its slot holds that group with some shard
    pub fn get_group(&self, group_id: u16) -> (r: Option<&FecRecvGroup>)
        requires
            self.wf(),
        ensures
            ({
                let g = self.groups()[group_slot(group_id)];
                &&& r is Some <==> (g.group_id == group_id && g.recv_count > 0)
                &&& r matches Some(gr) ==> *gr == g
            }),
    {
        let idx = Self::group_index(group_id);
        let group = &self.groups[idx];
        if group.group_id == group_id && group.recv_count > 0 {
            Some(group)
        } else {
            None
        }
    }

    /// Get config
    pub fn config(&self) -> (r: FecConfig)
        ensures
            r == self.conf(),
    {
        self.config
    }
}

} // verus!
