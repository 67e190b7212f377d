//! Reed-Solomon FEC encoder: the parity shards of a group of data shards.

use vstd::prelude::*;
use vstd::slice::slice_subrange;
use super::gf256::GF256;
use super::linalg::{code_byte, code_coeff, combine, lemma_dot_ext, views};
use super::{FecConfig, MAX_SHARDS, MAX_SHARD_SIZE};
use crate::ring_buffer::{copy_into, splice};

verus! {

/// Shards `0..count` of the flat buffer `buf`, each `size` bytes long.
pub open spec fn flat_shards(buf: Seq<u8>, size: nat, count: nat) -> Seq<Seq<u8>> {
    Seq::new(count, |j: int| buf.subrange(j * size, j * size + size))
}

/// The parity bytes that `encode_contiguous` writes: parity shard `i` of the flat data,
/// at offset `i * size`.
pub open spec fn flat_parity(data: Seq<u8>, k: nat, size: nat, pos: int) -> u8 {
    code_byte(flat_shards(data, size, k), k, k + pos / (size as int), pos % (size as int))
}

/// The contiguous layout encodes as the split one: when `data` holds the `k` shards `d`
/// of `size` bytes one after another, the byte that `encode_contiguous` writes at offset
/// `i * size + b` of the parity area is byte `b` of the parity shard `i` that `encode`
/// writes for `d`.
pub proof fn lemma_contiguous_matches_split(d: Seq<Seq<u8>>, data: Seq<u8>, k: nat, size: nat, i: int, b: int)
    requires
        d.len() == k,
        data.len() >= k * size,
        forall|j: int, c: int| 0 <= j < k && 0 <= c < size ==> #[trigger] d[j][c] == data[j * size + c],
        0 <= i,
        0 <= b < size,
    ensures
        flat_parity(data, k, size, i * size + b) == code_byte(d, k, k + i, b),
{
    let pos = i * size + b;
    assert(pos / (size as int) == i && pos % (size as int) == b) by (nonlinear_arith)
        requires
            pos == i * size + b,
            0 <= i,
            0 <= b < size,
    ;
    let fs = flat_shards(data, size, k);
    assert forall|j: int| 0 <= j < k implies #[trigger] fs[j][b] == d[j][b] by {
        assert(j * size + size <= k * size) by (nonlinear_arith)
            requires
                0 <= j < k,
        ;
        assert(fs[j][b] == data[j * size + b]);
    }
    lemma_dot_ext(
        |l: int| fs[l][b],
        |l: int| code_coeff(k as int, k + i, l),
        |l: int| d[l][b],
        |l: int| code_coeff(k as int, k + i, l),
        k,
    );
}

/// Write `src` into `dst` from `off` on.
fn copy_into_slice(dst: &mut [u8], off: usize, src: &[u8])
    requires
        off + src@.len() <= old(dst)@.len(),
    ensures
        final(dst)@ == splice(old(dst)@, off as int, src@),
{
    let ghost d0 = dst@;
    let dl = dst.len();
    let mut j: usize = 0;
    while j < src.len()
        invariant
            dl == dst@.len(),
            off + src@.len() <= dst@.len(),
            dst@.len() == d0.len(),
            0 <= j <= src@.len(),
            forall|i: int| 0 <= i < off ==> #[trigger] dst@[i] == d0[i],
            forall|i: int| off <= i < off + j ==> #[trigger] dst@[i] == src@[i - off],
            forall|i: int| off + j <= i < d0.len() ==> #[trigger] dst@[i] == d0[i],
        decreases src@.len() - j,
    {
        dst[off + j] = src[j];
        j = j + 1;
    }
    assert(dst@ =~= splice(d0, off as int, src@));
}

/// FEC Encoder: generates parity shards from data shards with a Vandermonde-derived matrix
pub struct FecEncoder {
    /// FEC configuration
    config: FecConfig,
    /// Parity rows of the encoding matrix: `encode_matrix[i][j] = (k + i + 1)^j`
    pub encode_matrix: [[GF256; MAX_SHARDS]; MAX_SHARDS],
}

impl FecEncoder {
    /// The configuration the encoder was made with.
    pub closed spec fn conf(&self) -> FecConfig {
        self.config
    }

    /// Entry `(i, j)` of the stored parity rows.
    pub closed spec fn coeff(&self, i: int, j: int) -> GF256 {
        self.encode_matrix[i][j]
    }

    /// The parity rows hold the code's coefficients.
    pub closed spec fn wf(&self) -> bool {
        let k = self.config.data_shards as int;
        let m = self.config.parity_shards as int;
        &&& (m == 0 || k <= MAX_SHARDS)
        &&& (k == 0 || m <= MAX_SHARDS)
        &&& forall|i: int, j: int|
            0 <= i < m && 0 <= j < k ==> #[trigger] self.encode_matrix[i][j].0 == code_coeff(
                k,
                k + i,
                j,
            )
    }

    /// Create new encoder with given configuration; the parity rows must fit in the matrix
    pub fn new(config: FecConfig) -> (r: Self)
        requires
            config.parity_shards == 0 || config.data_shards <= MAX_SHARDS,
            config.data_shards == 0 || config.parity_shards <= MAX_SHARDS,
        ensures
            r.conf() == config,
            r.wf(),
            forall|i: int|
                0 <= i < config.parity_shards && config.data_shards > 0 ==> #[trigger] r.coeff(i, 0) == GF256(1),
    {
        let mut encoder = FecEncoder { config, encode_matrix: [[GF256(0); MAX_SHARDS]; MAX_SHARDS] };
        encoder.build_encode_matrix();
        proof {
            let k = config.data_shards as int;
            assert forall|i: int|
                0 <= i < config.parity_shards && config.data_shards > 0 implies #[trigger] encoder.coeff(i, 0)
                    == GF256(1) by {
                assert(encoder.encode_matrix[i][0].0 == code_coeff(k, k + i, 0));
            }
        }
        encoder
    }

    /// Fill the parity rows: `encode_matrix[i][j] = (k + i + 1)^j`
    fn build_encode_matrix(&mut self)
        requires
            old(self).config.parity_shards == 0 || old(self).config.data_shards <= MAX_SHARDS,
            old(self).config.data_shards == 0 || old(self).config.parity_shards <= MAX_SHARDS,
        ensures
            final(self).config == old(self).config,
            final(self).wf(),
    {
        let k = self.config.data_shards as usize;
        let m = self.config.parity_shards as usize;
        let mut i: usize = 0;
        while i < m
            invariant
                k == self.config.data_shards,
                m == self.config.parity_shards,
                self.config == old(self).config,
                m == 0 || k <= MAX_SHARDS,
                k == 0 || m <= MAX_SHARDS,
                0 <= i <= m,
                forall|ii: int, j: int|
                    0 <= ii < i && 0 <= j < k ==> #[trigger] self.encode_matrix[ii][j].0
                        == code_coeff(k as int, k + ii, j),
            decreases m - i,
        {
            let base = GF256::new((k + i + 1) as u8);
            let mut j: usize = 0;
            while j < k
                invariant
                    k == self.config.data_shards,
                    m == self.config.parity_shards,
                    self.config == old(self).config,
                    0 <= i < m,
                    m == 0 || k <= MAX_SHARDS,
                    k == 0 || m <= MAX_SHARDS,
                    base.0 == (k + i + 1) as u8,
                    0 <= j <= k,
                    forall|ii: int, jj: int|
                        0 <= ii < i && 0 <= jj < k ==> #[trigger] self.encode_matrix[ii][jj].0
                            == code_coeff(k as int, k + ii, jj),
                    forall|jj: int|
                        0 <= jj < j ==> #[trigger] self.encode_matrix[i as int][jj].0
                            == code_coeff(k as int, k + i, jj),
                decreases k - j,
            {
                self.encode_matrix[i][j] = base.pow(j as u8);
                j = j + 1;
            }
            i = i + 1;
        }
    }

    /// Encode data shards to generate parity shards.
    ///
    /// Succeeds when there are `k` data shards, `m` parity buffers and `shard_size` is at
    /// most `MAX_SHARD_SIZE`; then the first `shard_size` bytes of parity shard `i` become
    /// shard `k + i` of the codeword of the data shards, and nothing else changes.
    pub fn encode(
        &mut self,
        data_shards: &[&[u8]],
        parity_shards: &mut Vec<Vec<u8>>,
        shard_size: usize,
    ) -> (r: bool)
        requires
            old(self).wf(),
            data_shards@.len() == old(self).conf().data_shards && old(parity_shards)@.len()
                == old(self).conf().parity_shards && shard_size <= MAX_SHARD_SIZE ==> {
                &&& forall|j: int|
                    0 <= j < data_shards@.len() ==> (#[trigger] data_shards@[j])@.len()
                        >= shard_size
                &&& forall|i: int|
                    0 <= i < old(parity_shards)@.len() ==> (#[trigger] old(
                        parity_shards,
                    )@[i])@.len() >= shard_size
            },
        ensures
            *final(self) == *old(self),
            r == (data_shards@.len() == old(self).conf().data_shards && old(parity_shards)@.len()
                == old(self).conf().parity_shards && shard_size <= MAX_SHARD_SIZE),
            !r ==> final(parity_shards)@ == old(parity_shards)@,
            final(parity_shards)@.len() == old(parity_shards)@.len(),
            r ==> forall|i: int|
                0 <= i < old(parity_shards)@.len() ==> #[trigger] final(parity_shards)@[i]@
                    == splice(
                    old(parity_shards)@[i]@,
                    0,
                    Seq::new(
                        shard_size as nat,
                        |b: int|
                            code_byte(
                                views(data_shards@),
                                old(self).conf().data_shards as nat,
                                old(self).conf().data_shards + i,
                                b,
                            ),
                    ),
                ),
    {
        let k = self.config.data_shards as usize;
        let m = self.config.parity_shards as usize;
        if data_shards.len() != k || parity_shards.len() != m {
            return false;
        }
        if shard_size > MAX_SHARD_SIZE {
            return false;
        }
        let ghost p0 = parity_shards@;
        let mut i: usize = 0;
        while i < m
            invariant
                self.wf(),
                k == self.config.data_shards,
                m == self.config.parity_shards,
                m == 0 || k <= MAX_SHARDS,
                k == 0 || m <= MAX_SHARDS,
                data_shards@.len() == k,
                parity_shards@.len() == m,
                p0.len() == m,
                shard_size <= MAX_SHARD_SIZE,
                forall|j: int| 0 <= j < k ==> (#[trigger] data_shards@[j])@.len() >= shard_size,
                0 <= i <= m,
                forall|ii: int| i <= ii < m ==> #[trigger] parity_shards@[ii] == p0[ii],
                forall|ii: int| 0 <= ii < m ==> (#[trigger] p0[ii])@.len() >= shard_size,
                forall|ii: int|
                    0 <= ii < i ==> #[trigger] parity_shards@[ii]@ == splice(
                        p0[ii]@,
                        0,
                        Seq::new(
                            shard_size as nat,
                            |b: int| code_byte(views(data_shards@), k as nat, k + ii, b),
                        ),
                    ),
            decreases m - i,
        {
            let row: Vec<u8> = if k == 0 {
                super::linalg::zeros(shard_size)
            } else {
                combine(data_shards, self.encode_matrix[i].as_slice(), k, shard_size)
            };
            let ghost want = Seq::new(
                shard_size as nat,
                |b: int| code_byte(views(data_shards@), k as nat, k + i, b),
            );
            assert(row@ =~= want) by {
                assert forall|b: int| 0 <= b < shard_size implies #[trigger] row@[b] == want[b] by {
                    if k > 0 {
                        let coeffs = self.encode_matrix[i as int]@;
                        assert forall|j: int| 0 <= j < k implies #[trigger] coeffs[j].0 == code_coeff(
                            k as int,
                            k + i,
                            j,
                        ) by {
                            assert(self.encode_matrix[i as int][j].0 == code_coeff(
                                k as int,
                                k + i,
                                j,
                            ));
                        }
                        lemma_dot_ext(
                            |j: int| data_shards@[j]@[b],
                            |j: int| coeffs[j].0,
                            |l: int| views(data_shards@)[l][b],
                            |l: int| code_coeff(k as int, k + i, l),
                            k as nat,
                        );
                    }
                }
            }
            copy_into(&mut parity_shards[i], 0, row.as_slice());
            i = i + 1;
        }
        true
    }

    /// Encode data shards stored one after another in `data` (shard `j` at `j * shard_size`),
    /// writing parity shard `i` at `i * shard_size` of `parity`.
    ///
    /// Succeeds when `data` holds `k` shards, `parity` has room for `m` and `shard_size` is
    /// at most `MAX_SHARD_SIZE`; only the first `m * shard_size` bytes of `parity` change.
    pub fn encode_contiguous(&mut self, data: &[u8], parity: &mut [u8], shard_size: usize) -> (r:
        bool)
        requires
            old(self).wf(),
            old(self).conf().data_shards * shard_size <= usize::MAX,
            old(self).conf().parity_shards * shard_size <= usize::MAX,
        ensures
            *final(self) == *old(self),
            r == (data@.len() >= old(self).conf().data_shards * shard_size && old(parity)@.len()
                >= old(self).conf().parity_shards * shard_size && shard_size <= MAX_SHARD_SIZE),
            final(parity)@.len() == old(parity)@.len(),
            !r ==> final(parity)@ == old(parity)@,
            r ==> forall|pos: int|
                0 <= pos < old(parity)@.len() ==> #[trigger] final(parity)@[pos] == if pos
                    < old(self).conf().parity_shards * shard_size {
                    flat_parity(data@, old(self).conf().data_shards as nat, shard_size as nat, pos)
                } else {
                    old(parity)@[pos]
                },
    {
        let k = self.config.data_shards as usize;
        let m = self.config.parity_shards as usize;
        if data.len() < k * shard_size || parity.len() < m * shard_size {
            return false;
        }
        if shard_size > MAX_SHARD_SIZE {
            return false;
        }
        let ghost p0 = parity@;
        let ghost shards = flat_shards(data@, shard_size as nat, k as nat);
        let mut rows: Vec<&[u8]> = Vec::new();
        let mut j: usize = 0;
        while j < k
            invariant
                k == self.config.data_shards,
                k * shard_size <= usize::MAX,
                data@.len() >= k * shard_size,
                shards == flat_shards(data@, shard_size as nat, k as nat),
                0 <= j <= k,
                rows@.len() == j,
                forall|jj: int| 0 <= jj < j ==> (#[trigger] rows@[jj])@ == shards[jj],
                forall|jj: int| 0 <= jj < j ==> (#[trigger] rows@[jj])@.len() == shard_size,
            decreases k - j,
        {
            assert(j * shard_size + shard_size <= k * shard_size) by (nonlinear_arith)
                requires
                    j < k,
            ;
            rows.push(slice_subrange(data, j * shard_size, j * shard_size + shard_size));
            j = j + 1;
        }
        let mut i: usize = 0;
        while i < m
            invariant
                self.wf(),
                k == self.config.data_shards,
                m == self.config.parity_shards,
                m == 0 || k <= MAX_SHARDS,
                k == 0 || m <= MAX_SHARDS,
                m * shard_size <= usize::MAX,
                parity@.len() == p0.len(),
                p0.len() >= m * shard_size,
                shard_size <= MAX_SHARD_SIZE,
                shards == flat_shards(data@, shard_size as nat, k as nat),
                rows@.len() == k,
                forall|jj: int| 0 <= jj < k ==> (#[trigger] rows@[jj])@ == shards[jj],
                forall|jj: int| 0 <= jj < k ==> (#[trigger] rows@[jj])@.len() == shard_size,
                0 <= i <= m,
                forall|pos: int|
                    i * shard_size <= pos < p0.len() ==> #[trigger] parity@[pos] == p0[pos],
                forall|pos: int|
                    0 <= pos < i * shard_size ==> #[trigger] parity@[pos] == flat_parity(
                        data@,
                        k as nat,
                        shard_size as nat,
                        pos,
                    ),
            decreases m - i,
        {
            assert(i * shard_size + shard_size <= m * shard_size) by (nonlinear_arith)
                requires
                    i < m,
            ;
            assert((i + 1) * shard_size == i * shard_size + shard_size) by (nonlinear_arith);
            let row: Vec<u8> = if k == 0 {
                super::linalg::zeros(shard_size)
            } else {
                combine(rows.as_slice(), self.encode_matrix[i].as_slice(), k, shard_size)
            };
            let ghost pre = parity@;
            copy_into_slice(parity, i * shard_size, row.as_slice());
            assert forall|pos: int|
                0 <= pos < (i + 1) * shard_size implies #[trigger] parity@[pos] == flat_parity(
                data@,
                k as nat,
                shard_size as nat,
                pos,
            ) by {
                if pos >= i * shard_size {
                    let b = pos - i * shard_size;
                    assert(0 <= b < shard_size);
                    assert(pos / (shard_size as int) == i && pos % (shard_size as int) == b) by {
                        vstd::arithmetic::div_mod::lemma_fundamental_div_mod_converse(
                            pos,
                            shard_size as int,
                            i as int,
                            b,
                        );
                    }
                    assert(parity@[pos] == row@[b]);
                    if k > 0 {
                        let coeffs = self.encode_matrix[i as int]@;
                        assert forall|jj: int| 0 <= jj < k implies #[trigger] coeffs[jj].0
                            == code_coeff(k as int, k + i, jj) by {
                            assert(self.encode_matrix[i as int][jj].0 == code_coeff(
                                k as int,
                                k + i,
                                jj,
                            ));
                        }
                        lemma_dot_ext(
                            |jj: int| rows@[jj]@[b],
                            |jj: int| coeffs[jj].0,
                            |l: int| shards[l][b],
                            |l: int| code_coeff(k as int, k + i, l),
                            k as nat,
                        );
                    }
                } else {
                    assert(parity@[pos] == pre[pos]);
                }
            }
            i = i + 1;
        }
        true
    }

    /// Get configuration
    pub fn config(&self) -> (r: FecConfig)
        ensures
            r == self.conf(),
    {
        self.config
    }
}

impl Default for FecEncoder {
    fn default() -> (r: Self)
        ensures
            r.conf().data_shards == 4,
            r.conf().parity_shards == 2,
            r.wf(),
    {
        FecEncoder::new(FecConfig::default())
    }
}

} // verus!
