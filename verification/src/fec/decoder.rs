//! Reed-Solomon FEC decoder: recovers missing data shards from any `k` shards whose rows of
//! the generator matrix are invertible, by Gauss-Jordan elimination over GF(2^8).

use vstd::prelude::*;
use super::gf256::{
    GF256, gf_mul, gf_inv, gf_pow, lemma_mul_assoc, lemma_mul_distrib, lemma_mul_inv, lemma_mul_comm,
    lemma_mul_zero_one, lemma_xor_zero,
};
use super::linalg::{
    code_byte, code_coeff, combine, dot, lemma_code_systematic, lemma_dot_add, lemma_dot_comm,
    lemma_dot_ext, lemma_dot_pair, lemma_dot_scale, lemma_dot_swap, lemma_dot_times_eq,
    lemma_dot_two, lemma_dot_unit, lemma_dot_zero, lemma_dot_zero_terms, lemma_dot_one,
};
use super::{FecConfig, MAX_SHARDS, MAX_SHARD_SIZE};
use crate::ring_buffer::{copy_into, splice};

verus! {

/// Entry `(r, c)` of a matrix.
pub open spec fn mat(m: [[GF256; MAX_SHARDS]; MAX_SHARDS], r: int, c: int) -> u8 {
    m[r][c].0
}

/// Entry `(r, l)` of the product of `inv` and `s` (both `n` by `n`).
pub open spec fn prod_entry(
    inv: [[GF256; MAX_SHARDS]; MAX_SHARDS],
    s: spec_fn(int, int) -> u8,
    n: nat,
    r: int,
    l: int,
) -> u8 {
    dot(|j: int| mat(inv, r, j), |j: int| s(j, l), n)
}

/// `a` is the product of `inv` and `s` on the leading `n` by `n` block.
pub open spec fn is_product(
    a: [[GF256; MAX_SHARDS]; MAX_SHARDS],
    inv: [[GF256; MAX_SHARDS]; MAX_SHARDS],
    s: spec_fn(int, int) -> u8,
    n: nat,
) -> bool {
    forall|r: int, l: int|
        0 <= r < n && 0 <= l < n ==> #[trigger] mat(a, r, l) == prod_entry(inv, s, n, r, l)
}

/// `inv` times `s` is the identity (`n` by `n`).
pub open spec fn left_inverse(
    inv: [[GF256; MAX_SHARDS]; MAX_SHARDS],
    s: spec_fn(int, int) -> u8,
    n: nat,
) -> bool {
    forall|d: int, l: int|
        0 <= d < n && 0 <= l < n ==> #[trigger] prod_entry(inv, s, n, d, l) == if d == l {
            1u8
        } else {
            0u8
        }
}

/// The leading `n` by `n` block of `a` is the identity on its first `c` columns.
pub open spec fn unit_columns(a: [[GF256; MAX_SHARDS]; MAX_SHARDS], n: nat, c: int) -> bool {
    forall|r: int, j: int|
        0 <= r < n && 0 <= j < c ==> #[trigger] mat(a, r, j) == if r == j {
            1u8
        } else {
            0u8
        }
}

/// Entry `(d, l)` of the product of `x` and `s` (`n` by `n`), both given by their entries.
pub open spec fn prod_fn(
    x: spec_fn(int, int) -> u8,
    s: spec_fn(int, int) -> u8,
    n: nat,
    d: int,
    l: int,
) -> u8 {
    dot(|j: int| x(d, j), |j: int| s(j, l), n)
}

/// `x` times `s` is the identity (`n` by `n`).
pub open spec fn is_left_inverse_of(
    x: spec_fn(int, int) -> u8,
    s: spec_fn(int, int) -> u8,
    n: nat,
) -> bool {
    forall|d: int, l: int|
        0 <= d < n && 0 <= l < n ==> #[trigger] prod_fn(x, s, n, d, l) == if d == l {
            1u8
        } else {
            0u8
        }
}

/// The `n` by `n` matrix `s` has a left inverse over GF(2^8).
pub open spec fn invertible(s: spec_fn(int, int) -> u8, n: nat) -> bool {
    exists|x: spec_fn(int, int) -> u8| is_left_inverse_of(x, s, n)
}

/// Row `r` of a stored matrix.
pub open spec fn row(m: [[GF256; MAX_SHARDS]; MAX_SHARDS], r: int) -> spec_fn(int) -> u8 {
    |j: int| mat(m, r, j)
}

/// The entries of a stored matrix.
pub open spec fn entries(m: [[GF256; MAX_SHARDS]; MAX_SHARDS]) -> spec_fn(int, int) -> u8 {
    |r: int, c: int| mat(m, r, c)
}

/// Rows `x` and `y` exchanged.
pub open spec fn swap_index(r: int, x: int, y: int) -> int {
    if r == x {
        y
    } else if r == y {
        x
    } else {
        r
    }
}

/// The indices `i < n` that are not erased, in increasing order.
pub open spec fn kept(erased: Seq<bool>, n: nat) -> Seq<int>
    decreases n,
{
    if n == 0 {
        Seq::empty()
    } else if !erased[n - 1] {
        kept(erased, (n - 1) as nat).push(n - 1)
    } else {
        kept(erased, (n - 1) as nat)
    }
}

/// Rows of the generator matrix selected by `rows`: the matrix the decoder inverts.
pub open spec fn selected(k: nat, rows: Seq<int>) -> spec_fn(int, int) -> u8 {
    |j: int, l: int| code_coeff(k as int, rows[j], l)
}

/// Every kept shard `i` holds, in its first `size` bytes, shard `i` of the codeword of
/// `data` (`k` data shards).
pub open spec fn codeword_on(
    shards: Seq<Seq<u8>>,
    erased: Seq<bool>,
    data: Seq<Seq<u8>>,
    k: nat,
    size: nat,
) -> bool {
    forall|i: int, b: int|
        0 <= i < shards.len() && !erased[i] && 0 <= b < size ==> #[trigger] shards[i][b]
            == code_byte(data, k, i, b)
}

/// The byte sequences behind a sequence of vectors.
pub open spec fn vec_views(s: Seq<Vec<u8>>) -> Seq<Seq<u8>> {
    s.map_values(|v: Vec<u8>| v@)
}

/// Which shards are missing.
pub open spec fn missing(shards: Seq<Option<Vec<u8>>>) -> Seq<bool> {
    shards.map_values(|o: Option<Vec<u8>>| o is None)
}

/// Some data shard (index below `k`) is erased.
pub open spec fn data_erased(erased: Seq<bool>, k: nat) -> bool {
    exists|d: int| 0 <= d < k && #[trigger] erased[d]
}

/// Kept indices are increasing and below `n`, and only non-erased ones are kept.
pub(crate) proof fn lemma_kept(erased: Seq<bool>, n: nat)
    requires
        n <= erased.len(),
    ensures
        kept(erased, n).len() <= n,
        forall|r: int|
            0 <= r < kept(erased, n).len() ==> 0 <= #[trigger] kept(erased, n)[r] < n && !erased[kept(
                erased,
                n,
            )[r]],
    decreases n,
{
    if n > 0 {
        lemma_kept(erased, (n - 1) as nat);
    }
}

/// Swapping two rows of both factors keeps the product relation.
proof fn lemma_swap_keeps_product(
    a0: [[GF256; MAX_SHARDS]; MAX_SHARDS],
    i0: [[GF256; MAX_SHARDS]; MAX_SHARDS],
    a1: [[GF256; MAX_SHARDS]; MAX_SHARDS],
    i1: [[GF256; MAX_SHARDS]; MAX_SHARDS],
    s: spec_fn(int, int) -> u8,
    n: nat,
    x: int,
    y: int,
)
    requires
        is_product(a0, i0, s, n),
        0 <= x < n,
        0 <= y < n,
        forall|r: int, j: int|
            0 <= r < n && 0 <= j < n ==> #[trigger] mat(a1, r, j) == mat(a0, swap_index(r, x, y), j),
        forall|r: int, j: int|
            0 <= r < n && 0 <= j < n ==> #[trigger] mat(i1, r, j) == mat(i0, swap_index(r, x, y), j),
    ensures
        is_product(a1, i1, s, n),
{
    assert forall|r: int, l: int| 0 <= r < n && 0 <= l < n implies #[trigger] mat(a1, r, l)
        == prod_entry(i1, s, n, r, l) by {
        let r0 = swap_index(r, x, y);
        assert(mat(a0, r0, l) == prod_entry(i0, s, n, r0, l));
        assert forall|j: int| 0 <= j < n implies #[trigger] mat(i0, r0, j) == mat(i1, r, j) by {}
        lemma_dot_ext(
            |j: int| mat(i0, r0, j),
            |j: int| s(j, l),
            |j: int| mat(i1, r, j),
            |j: int| s(j, l),
            n,
        );
    }
}

/// Scaling a row of both factors keeps the product relation.
proof fn lemma_scale_keeps_product(
    a0: [[GF256; MAX_SHARDS]; MAX_SHARDS],
    i0: [[GF256; MAX_SHARDS]; MAX_SHARDS],
    a1: [[GF256; MAX_SHARDS]; MAX_SHARDS],
    i1: [[GF256; MAX_SHARDS]; MAX_SHARDS],
    s: spec_fn(int, int) -> u8,
    n: nat,
    x: int,
    p: u8,
)
    requires
        is_product(a0, i0, s, n),
        0 <= x < n,
        forall|r: int, j: int|
            0 <= r < n && 0 <= j < n ==> #[trigger] mat(a1, r, j) == if r == x {
                gf_mul(mat(a0, r, j), p)
            } else {
                mat(a0, r, j)
            },
        forall|r: int, j: int|
            0 <= r < n && 0 <= j < n ==> #[trigger] mat(i1, r, j) == if r == x {
                gf_mul(mat(i0, r, j), p)
            } else {
                mat(i0, r, j)
            },
    ensures
        is_product(a1, i1, s, n),
{
    assert forall|r: int, l: int| 0 <= r < n && 0 <= l < n implies #[trigger] mat(a1, r, l)
        == prod_entry(i1, s, n, r, l) by {
        assert(mat(a0, r, l) == prod_entry(i0, s, n, r, l));
        if r == x {
            assert forall|j: int| 0 <= j < n implies #[trigger] mat(i1, r, j) == gf_mul(
                mat(i0, r, j),
                p,
            ) by {}
            lemma_dot_scale(|j: int| mat(i0, r, j), |j: int| mat(i1, r, j), |j: int| s(j, l), p, n);
        } else {
            assert forall|j: int| 0 <= j < n implies #[trigger] mat(i0, r, j) == mat(i1, r, j) by {}
            lemma_dot_ext(
                |j: int| mat(i0, r, j),
                |j: int| s(j, l),
                |j: int| mat(i1, r, j),
                |j: int| s(j, l),
                n,
            );
        }
    }
}

/// Adding a multiple of row `x` to row `t` of both factors keeps the product relation.
proof fn lemma_elim_keeps_product(
    a0: [[GF256; MAX_SHARDS]; MAX_SHARDS],
    i0: [[GF256; MAX_SHARDS]; MAX_SHARDS],
    a1: [[GF256; MAX_SHARDS]; MAX_SHARDS],
    i1: [[GF256; MAX_SHARDS]; MAX_SHARDS],
    s: spec_fn(int, int) -> u8,
    n: nat,
    t: int,
    x: int,
    f: u8,
)
    requires
        is_product(a0, i0, s, n),
        0 <= t < n,
        0 <= x < n,
        t != x,
        forall|r: int, j: int|
            0 <= r < n && 0 <= j < n ==> #[trigger] mat(a1, r, j) == if r == t {
                mat(a0, t, j) ^ gf_mul(mat(a0, x, j), f)
            } else {
                mat(a0, r, j)
            },
        forall|r: int, j: int|
            0 <= r < n && 0 <= j < n ==> #[trigger] mat(i1, r, j) == if r == t {
                mat(i0, t, j) ^ gf_mul(mat(i0, x, j), f)
            } else {
                mat(i0, r, j)
            },
    ensures
        is_product(a1, i1, s, n),
{
    assert forall|r: int, l: int| 0 <= r < n && 0 <= l < n implies #[trigger] mat(a1, r, l)
        == prod_entry(i1, s, n, r, l) by {
        assert(mat(a0, r, l) == prod_entry(i0, s, n, r, l));
        let col = |j: int| s(j, l);
        if r == t {
            assert(mat(a0, x, l) == prod_entry(i0, s, n, x, l));
            let sc = |j: int| gf_mul(mat(i0, x, j), f);
            lemma_dot_scale(|j: int| mat(i0, x, j), sc, col, f, n);
            assert forall|j: int| 0 <= j < n implies #[trigger] mat(i1, r, j) == mat(i0, t, j)
                ^ sc(j) by {}
            lemma_dot_add(|j: int| mat(i0, t, j), sc, |j: int| mat(i1, r, j), col, n);
        } else {
            assert forall|j: int| 0 <= j < n implies #[trigger] mat(i0, r, j) == mat(i1, r, j) by {}
            lemma_dot_ext(|j: int| mat(i0, r, j), col, |j: int| mat(i1, r, j), col, n);
        }
    }
}

/// A left inverse of `s1` is one of `s2` when they agree on the leading block.
proof fn lemma_left_inverse_transfer(
    x: spec_fn(int, int) -> u8,
    s1: spec_fn(int, int) -> u8,
    s2: spec_fn(int, int) -> u8,
    n: nat,
)
    requires
        forall|j: int, l: int| 0 <= j < n && 0 <= l < n ==> #[trigger] s1(j, l) == s2(j, l),
        is_left_inverse_of(x, s1, n),
    ensures
        is_left_inverse_of(x, s2, n),
{
    assert forall|d: int, l: int| 0 <= d < n && 0 <= l < n implies #[trigger] prod_fn(x, s2, n, d, l)
        == if d == l {
        1u8
    } else {
        0u8
    } by {
        assert(prod_fn(x, s1, n, d, l) == if d == l {
            1u8
        } else {
            0u8
        });
        assert forall|j: int| 0 <= j < n implies #[trigger] s1(j, l) == s2(j, l) by {}
        lemma_dot_ext(|j: int| x(d, j), |j: int| s1(j, l), |j: int| x(d, j), |j: int| s2(j, l), n);
    }
}

/// Invertibility depends only on the leading `n` by `n` block.
pub proof fn lemma_invertible_ext(s1: spec_fn(int, int) -> u8, s2: spec_fn(int, int) -> u8, n: nat)
    requires
        forall|j: int, l: int| 0 <= j < n && 0 <= l < n ==> #[trigger] s1(j, l) == s2(j, l),
    ensures
        invertible(s1, n) == invertible(s2, n),
{
    if invertible(s1, n) {
        let x = choose|x: spec_fn(int, int) -> u8| is_left_inverse_of(x, s1, n);
        lemma_left_inverse_transfer(x, s1, s2, n);
    }
    if invertible(s2, n) {
        let x = choose|x: spec_fn(int, int) -> u8| is_left_inverse_of(x, s2, n);
        assert forall|j: int, l: int| 0 <= j < n && 0 <= l < n implies #[trigger] s2(j, l) == s1(
            j,
            l,
        ) by {
            assert(s1(j, l) == s2(j, l));
        }
        lemma_left_inverse_transfer(x, s2, s1, n);
    }
}

/// A stored left inverse shows that `s` is invertible.
proof fn lemma_left_inverse_invertible(
    inv: [[GF256; MAX_SHARDS]; MAX_SHARDS],
    s: spec_fn(int, int) -> u8,
    n: nat,
)
    requires
        left_inverse(inv, s, n),
    ensures
        invertible(s, n),
{
    let x = entries(inv);
    assert forall|d: int, l: int| 0 <= d < n && 0 <= l < n implies #[trigger] prod_fn(x, s, n, d, l)
        == if d == l {
        1u8
    } else {
        0u8
    } by {
        assert(prod_entry(inv, s, n, d, l) == if d == l {
            1u8
        } else {
            0u8
        });
        lemma_dot_ext(|j: int| mat(inv, d, j), |j: int| s(j, l), |j: int| x(d, j), |j: int| s(j, l), n);
    }
    assert(is_left_inverse_of(x, s, n));
}

/// Exchanging two rows of `inv` and the same two columns of its left inverse `b` keeps
/// `b` a left inverse.
proof fn lemma_swap_keeps_left_inverse(
    b: spec_fn(int, int) -> u8,
    i0: [[GF256; MAX_SHARDS]; MAX_SHARDS],
    i1: [[GF256; MAX_SHARDS]; MAX_SHARDS],
    n: nat,
    x: int,
    y: int,
)
    requires
        is_left_inverse_of(b, entries(i0), n),
        0 <= x < n,
        0 <= y < n,
        forall|r: int, j: int|
            0 <= r < n && 0 <= j < n ==> #[trigger] mat(i1, r, j) == mat(i0, swap_index(r, x, y), j),
    ensures
        is_left_inverse_of(|r: int, c: int| b(r, swap_index(c, x, y)), entries(i1), n),
{
    let b2 = |r: int, c: int| b(r, swap_index(c, x, y));
    assert forall|d: int, l: int| 0 <= d < n && 0 <= l < n implies #[trigger] prod_fn(
        b2,
        entries(i1),
        n,
        d,
        l,
    ) == if d == l {
        1u8
    } else {
        0u8
    } by {
        assert(prod_fn(b, entries(i0), n, d, l) == if d == l {
            1u8
        } else {
            0u8
        });
        let a = |j: int| b(d, j);
        let c = |j: int| mat(i0, j, l);
        let a2 = |j: int| b2(d, j);
        let c2 = |j: int| mat(i1, j, l);
        assert(mat(i1, x, l) == mat(i0, y, l));
        assert(mat(i1, y, l) == mat(i0, x, l));
        if x == y {
            lemma_dot_times_eq(a, c, a2, c2, n);
        } else {
            let p = gf_mul(a(x), c(x));
            let q = gf_mul(a(y), c(y));
            assert(p ^ q == q ^ p) by (bit_vector);
            lemma_dot_pair(a, c, a2, c2, n, x, y);
        }
        lemma_dot_ext(|j: int| b(d, j), |j: int| entries(i0)(j, l), a, c, n);
        lemma_dot_ext(|j: int| b2(d, j), |j: int| entries(i1)(j, l), a2, c2, n);
    }
}

/// Scaling a row of `inv` by `p` and the same column of its left inverse `b` by the
/// inverse of `p` keeps `b` a left inverse.
proof fn lemma_scale_keeps_left_inverse(
    b: spec_fn(int, int) -> u8,
    i0: [[GF256; MAX_SHARDS]; MAX_SHARDS],
    i1: [[GF256; MAX_SHARDS]; MAX_SHARDS],
    n: nat,
    x: int,
    p: u8,
)
    requires
        is_left_inverse_of(b, entries(i0), n),
        0 <= x < n,
        p != 0,
        forall|r: int, j: int|
            0 <= r < n && 0 <= j < n ==> #[trigger] mat(i1, r, j) == if r == x {
                gf_mul(mat(i0, r, j), p)
            } else {
                mat(i0, r, j)
            },
    ensures
        is_left_inverse_of(
            |r: int, c: int|
                if c == x {
                    gf_mul(b(r, c), gf_inv(p))
                } else {
                    b(r, c)
                },
            entries(i1),
            n,
        ),
{
    let q = gf_inv(p);
    let b2 = |r: int, c: int|
        if c == x {
            gf_mul(b(r, c), q)
        } else {
            b(r, c)
        };
    lemma_mul_inv(p);
    lemma_mul_comm(p, q);
    assert forall|d: int, l: int| 0 <= d < n && 0 <= l < n implies #[trigger] prod_fn(
        b2,
        entries(i1),
        n,
        d,
        l,
    ) == if d == l {
        1u8
    } else {
        0u8
    } by {
        assert(prod_fn(b, entries(i0), n, d, l) == if d == l {
            1u8
        } else {
            0u8
        });
        let a = |j: int| b(d, j);
        let c = |j: int| mat(i0, j, l);
        let a2 = |j: int| b2(d, j);
        let c2 = |j: int| mat(i1, j, l);
        assert forall|j: int| 0 <= j < n implies #[trigger] gf_mul(a(j), c(j)) == gf_mul(
            a2(j),
            c2(j),
        ) by {
            if j == x {
                let u = b(d, x);
                let t = mat(i0, x, l);
                lemma_mul_assoc(u, q, gf_mul(t, p));
                lemma_mul_assoc(q, t, p);
                lemma_mul_comm(q, t);
                lemma_mul_assoc(t, q, p);
                lemma_mul_zero_one(t, 1);
            }
        }
        lemma_dot_times_eq(a, c, a2, c2, n);
        lemma_dot_ext(|j: int| b(d, j), |j: int| entries(i0)(j, l), a, c, n);
        lemma_dot_ext(|j: int| b2(d, j), |j: int| entries(i1)(j, l), a2, c2, n);
    }
}

/// Adding `f` times row `x` of `inv` to row `t`, and `f` times column `t` of its left
/// inverse `b` to column `x`, keeps `b` a left inverse.
proof fn lemma_elim_keeps_left_inverse(
    b: spec_fn(int, int) -> u8,
    i0: [[GF256; MAX_SHARDS]; MAX_SHARDS],
    i1: [[GF256; MAX_SHARDS]; MAX_SHARDS],
    n: nat,
    t: int,
    x: int,
    f: u8,
)
    requires
        is_left_inverse_of(b, entries(i0), n),
        0 <= t < n,
        0 <= x < n,
        t != x,
        forall|r: int, j: int|
            0 <= r < n && 0 <= j < n ==> #[trigger] mat(i1, r, j) == if r == t {
                mat(i0, t, j) ^ gf_mul(mat(i0, x, j), f)
            } else {
                mat(i0, r, j)
            },
    ensures
        is_left_inverse_of(
            |r: int, c: int|
                if c == x {
                    b(r, x) ^ gf_mul(b(r, t), f)
                } else {
                    b(r, c)
                },
            entries(i1),
            n,
        ),
{
    let b2 = |r: int, c: int|
        if c == x {
            b(r, x) ^ gf_mul(b(r, t), f)
        } else {
            b(r, c)
        };
    assert forall|d: int, l: int| 0 <= d < n && 0 <= l < n implies #[trigger] prod_fn(
        b2,
        entries(i1),
        n,
        d,
        l,
    ) == if d == l {
        1u8
    } else {
        0u8
    } by {
        assert(prod_fn(b, entries(i0), n, d, l) == if d == l {
            1u8
        } else {
            0u8
        });
        let a = |j: int| b(d, j);
        let c = |j: int| mat(i0, j, l);
        let a2 = |j: int| b2(d, j);
        let c2 = |j: int| mat(i1, j, l);
        let bt = b(d, t);
        let bx = b(d, x);
        let it = mat(i0, t, l);
        let ix = mat(i0, x, l);
        assert(a2(t) == bt);
        assert(c2(t) == it ^ gf_mul(ix, f));
        assert(a2(x) == bx ^ gf_mul(bt, f));
        assert(c2(x) == ix);
        lemma_mul_distrib(bt, it, gf_mul(ix, f));
        lemma_mul_distrib(ix, bx, gf_mul(bt, f));
        lemma_mul_assoc(bt, ix, f);
        lemma_mul_comm(ix, f);
        lemma_mul_assoc(bt, f, ix);
        let p1 = gf_mul(bt, it);
        let p2 = gf_mul(bx, ix);
        let e = gf_mul(bt, gf_mul(ix, f));
        assert((p1 ^ e) ^ (p2 ^ e) == p1 ^ p2) by (bit_vector);
        lemma_dot_pair(a, c, a2, c2, n, t, x);
        lemma_dot_ext(|j: int| b(d, j), |j: int| entries(i0)(j, l), a, c, n);
        lemma_dot_ext(|j: int| b2(d, j), |j: int| entries(i1)(j, l), a2, c2, n);
    }
}

/// When elimination finds no pivot in column `col` (the earlier columns being unit
/// columns), the matrix it started from has no left inverse: `a = inv * s` with `inv`
/// invertible maps a nonzero vector to zero.
proof fn lemma_stuck_column_singular(
    a: [[GF256; MAX_SHARDS]; MAX_SHARDS],
    inv: [[GF256; MAX_SHARDS]; MAX_SHARDS],
    b: spec_fn(int, int) -> u8,
    s: spec_fn(int, int) -> u8,
    n: nat,
    col: int,
)
    requires
        is_product(a, inv, s, n),
        unit_columns(a, n, col),
        0 <= col < n,
        forall|r: int| col <= r < n ==> #[trigger] mat(a, r, col) == 0,
        is_left_inverse_of(b, entries(inv), n),
    ensures
        !invertible(s, n),
{
    if invertible(s, n) {
        let x = choose|x: spec_fn(int, int) -> u8| is_left_inverse_of(x, s, n);
        let v = |l: int|
            if l < col {
                mat(a, l, col)
            } else if l == col {
                1u8
            } else {
                0u8
            };
        // a * v = 0
        assert forall|r: int| 0 <= r < n implies #[trigger] dot(row(a, r), v, n) == 0 by {
            let ar = row(a, r);
            lemma_mul_zero_one(0, 1);
            if r < col {
                assert forall|l: int| 0 <= l < n && l != r && l != col implies #[trigger] gf_mul(
                    ar(l),
                    v(l),
                ) == 0 by {
                    if l < col {
                        assert(mat(a, r, l) == 0);
                        lemma_mul_zero_one(0, v(l));
                    } else {
                        lemma_mul_zero_one(ar(l), 0);
                    }
                }
                lemma_dot_two(ar, v, n, r, col);
                assert(mat(a, r, r) == 1);
                lemma_mul_zero_one(1, mat(a, r, col));
                lemma_mul_zero_one(mat(a, r, col), 1);
                lemma_xor_zero(mat(a, r, col));
            } else {
                assert forall|l: int| 0 <= l < n implies #[trigger] gf_mul(ar(l), v(l)) == 0 by {
                    if l < col {
                        assert(mat(a, r, l) == 0);
                        lemma_mul_zero_one(0, v(l));
                    } else if l == col {
                        assert(mat(a, r, col) == 0);
                    } else {
                        lemma_mul_zero_one(ar(l), 0);
                    }
                }
                lemma_dot_zero_terms(ar, v, n);
            }
        }
        // w = s * v
        let w = |j: int| dot(v, |l: int| s(j, l), n);
        // inv * w = a * v = 0
        assert forall|r: int| 0 <= r < n implies #[trigger] dot(row(inv, r), w, n) == 0 by {
            let ir = row(inv, r);
            let sp = |l: int, j: int| s(j, l);
            lemma_dot_swap(ir, v, sp, n, n);
            assert forall|l: int| 0 <= l < n implies #[trigger] mat(a, r, l) == dot(
                ir,
                |j: int| sp(l, j),
                n,
            ) by {
                assert(mat(a, r, l) == prod_entry(inv, s, n, r, l));
                lemma_dot_ext(|j: int| mat(inv, r, j), |j: int| s(j, l), ir, |j: int| sp(l, j), n);
            }
            lemma_dot_ext(row(a, r), v, |l: int| dot(ir, |j: int| sp(l, j), n), v, n);
            assert forall|j: int| 0 <= j < n implies #[trigger] w(j) == dot(
                v,
                |l: int| sp(l, j),
                n,
            ) by {
                lemma_dot_ext(v, |l: int| s(j, l), v, |l: int| sp(l, j), n);
            }
            lemma_dot_ext(ir, |j: int| dot(v, |l: int| sp(l, j), n), ir, w, n);
        }
        // w = b * (inv * w) = 0
        assert forall|d: int| 0 <= d < n implies #[trigger] w(d) == 0 by {
            let bd = |r: int| b(d, r);
            let ti = |r: int, j: int| mat(inv, r, j);
            lemma_dot_swap(w, bd, ti, n, n);
            let inner = |r: int| dot(w, |j: int| ti(r, j), n);
            assert forall|r: int| 0 <= r < n implies #[trigger] inner(r) == 0 by {
                assert(dot(row(inv, r), w, n) == 0);
                lemma_dot_comm(w, row(inv, r), n);
                lemma_dot_ext(w, |j: int| ti(r, j), w, row(inv, r), n);
            }
            lemma_dot_zero(inner, bd, n);
            let e = |j: int| dot(bd, |r: int| ti(r, j), n);
            assert forall|j: int| 0 <= j < n implies #[trigger] e(j) == if j == d {
                1u8
            } else {
                0u8
            } by {
                assert(prod_fn(b, entries(inv), n, d, j) == if d == j {
                    1u8
                } else {
                    0u8
                });
                lemma_dot_ext(
                    |r: int| b(d, r),
                    |r: int| entries(inv)(r, j),
                    bd,
                    |r: int| ti(r, j),
                    n,
                );
            }
            lemma_dot_comm(w, e, n);
            lemma_dot_unit(e, w, d, n);
        }
        // v = x * (s * v) = x * w = 0, yet v(col) = 1
        let xd = |j: int| x(col, j);
        lemma_dot_swap(v, xd, s, n, n);
        lemma_dot_zero(w, xd, n);
        let e2 = |l: int| dot(xd, |j: int| s(j, l), n);
        assert forall|l: int| 0 <= l < n implies #[trigger] e2(l) == if l == col {
            1u8
        } else {
            0u8
        } by {
            assert(prod_fn(x, s, n, col, l) == if col == l {
                1u8
            } else {
                0u8
            });
        }
        lemma_dot_comm(v, e2, n);
        lemma_dot_unit(e2, v, col, n);
        assert(false);
    }
}

/// The identity matrix times `s` is `s`.
proof fn lemma_identity_product(
    a: [[GF256; MAX_SHARDS]; MAX_SHARDS],
    id: [[GF256; MAX_SHARDS]; MAX_SHARDS],
    n: nat,
)
    requires
        forall|r: int, j: int|
            0 <= r < n && 0 <= j < n ==> #[trigger] mat(id, r, j) == if r == j {
                1u8
            } else {
                0u8
            },
    ensures
        is_product(a, id, |j: int, l: int| mat(a, j, l), n),
{
    let s = |j: int, l: int| mat(a, j, l);
    assert forall|r: int, l: int| 0 <= r < n && 0 <= l < n implies #[trigger] mat(a, r, l)
        == prod_entry(id, s, n, r, l) by {
        assert forall|j: int| 0 <= j < n implies #[trigger] mat(id, r, j) == if j == r {
            1u8
        } else {
            0u8
        } by {}
        lemma_dot_unit(|j: int| mat(id, r, j), |j: int| s(j, l), r, n);
    }
}

/// A left inverse of the selected rows of the generator matrix gives the data back from
/// the selected shards of a codeword: with `present(j)` byte `b` of the `j`-th selected
/// shard, `sum_j present(j) * inv[d][j]` is byte `b` of data shard `d`.
pub proof fn lemma_recovery(
    inv: [[GF256; MAX_SHARDS]; MAX_SHARDS],
    s: spec_fn(int, int) -> u8,
    k: nat,
    data: Seq<Seq<u8>>,
    present: spec_fn(int) -> u8,
    d: int,
    b: int,
)
    requires
        left_inverse(inv, s, k),
        0 <= d < k,
        forall|j: int|
            0 <= j < k ==> #[trigger] present(j) == dot(|l: int| data[l][b], |l: int| s(j, l), k),
    ensures
        dot(present, |j: int| mat(inv, d, j), k) == data[d][b],
{
    let x = |l: int| data[l][b];
    let m = |j: int| mat(inv, d, j);
    let inner = |j: int| dot(x, |l: int| s(j, l), k);
    assert forall|j: int| 0 <= j < k implies #[trigger] present(j) == inner(j) by {}
    lemma_dot_ext(present, m, inner, m, k);
    lemma_dot_swap(x, m, s, k, k);
    let col = |l: int| dot(m, |j: int| s(j, l), k);
    assert forall|l: int| 0 <= l < k implies #[trigger] col(l) == if l == d {
        1u8
    } else {
        0u8
    } by {
        assert(prod_entry(inv, s, k, d, l) == if d == l {
            1u8
        } else {
            0u8
        });
    }
    lemma_dot_comm(x, col, k);
    lemma_dot_unit(col, x, d, k);
}

/// A group of `k` data shards followed by the parity shards of the code (as `encode`
/// computes them) is a codeword of its data shards, whichever shards are erased.
pub proof fn lemma_encoded_group_is_codeword(
    group: Seq<Seq<u8>>,
    data: Seq<Seq<u8>>,
    k: nat,
    erased: Seq<bool>,
    size: nat,
)
    requires
        k <= group.len(),
        forall|i: int, b: int|
            0 <= i < k && 0 <= b < size ==> #[trigger] group[i][b] == data[i][b],
        forall|i: int, b: int|
            k <= i < group.len() && 0 <= b < size ==> #[trigger] group[i][b] == code_byte(
                data,
                k,
                i,
                b,
            ),
    ensures
        codeword_on(group, erased, data, k, size),
{
    assert forall|i: int, b: int|
        0 <= i < group.len() && !erased[i] && 0 <= b < size implies #[trigger] group[i][b]
        == code_byte(data, k, i, b) by {
        if i < k {
            lemma_code_systematic(data, k, i, b);
        }
    }
}

/// A product of two nonzero field elements is nonzero.
proof fn lemma_mul_nonzero(a: u8, b: u8)
    requires
        a != 0,
        b != 0,
    ensures
        gf_mul(a, b) != 0,
{
    let ia = gf_inv(a);
    lemma_mul_inv(a);
    lemma_mul_comm(a, ia);
    lemma_mul_assoc(ia, a, b);
    lemma_mul_zero_one(ia, b);
    lemma_mul_zero_one(1, b);
}

/// A power of a nonzero field element is nonzero.
proof fn lemma_pow_nonzero(a: u8, e: nat)
    requires
        a != 0,
    ensures
        gf_pow(a, e) != 0,
    decreases e,
{
    if e > 0 {
        lemma_pow_nonzero(a, (e - 1) as nat);
        lemma_mul_nonzero(gf_pow(a, (e - 1) as nat), a);
    }
}

/// The rows kept when data shard `e` alone is lost and parity shard `r` is the first
/// parity shard kept: the other data rows in order, then `r`.
pub open spec fn one_loss_rows(k: nat, e: int, r: int) -> Seq<int> {
    Seq::new(k, |j: int| if j < e { j } else if j < k - 1 { j + 1 } else { r })
}

/// Position, among the rows `one_loss_rows(k, e, _)`, of data row `d != e`.
spec fn one_loss_pos(e: int, d: int) -> int {
    if d < e {
        d
    } else {
        d - 1
    }
}

/// The inverse of those rows: data shard `d != e` is read back from its own row, and
/// shard `e` is the parity row minus the other data rows' terms, divided by its own
/// coefficient.
spec fn one_loss_inverse(k: nat, e: int, r: int) -> spec_fn(int, int) -> u8 {
    let ie = gf_inv(code_coeff(k as int, r, e));
    |d: int, j: int|
        if d != e {
            if j == one_loss_pos(e, d) {
                1u8
            } else {
                0u8
            }
        } else if j < k - 1 {
            gf_mul(code_coeff(k as int, r, if j < e { j } else { j + 1 }), ie)
        } else {
            ie
        }
}

/// One entry of the product of that inverse with the rows.
#[verifier::spinoff_prover]
#[verifier::rlimit(50)]
proof fn lemma_one_loss_entry(k: nat, e: int, r: int, d: int, l: int)
    requires
        0 <= e < k,
        k <= r < 255,
        0 <= d < k,
        0 <= l < k,
        gf_mul(code_coeff(k as int, r, e), gf_inv(code_coeff(k as int, r, e))) == 1,
        gf_mul(gf_inv(code_coeff(k as int, r, e)), code_coeff(k as int, r, e)) == 1,
    ensures
        prod_fn(one_loss_inverse(k, e, r), selected(k, one_loss_rows(k, e, r)), k, d, l) == if d == l {
            1u8
        } else {
            0u8
        },
{
    let rows = one_loss_rows(k, e, r);
    let s = selected(k, rows);
    let x = one_loss_inverse(k, e, r);
    let ce = code_coeff(k as int, r, e);
    let ie = gf_inv(ce);
    let a = |j: int| x(d, j);
    let b = |j: int| s(j, l);
    if d != e {
        let p = one_loss_pos(e, d);
        assert forall|j: int| 0 <= j < k implies #[trigger] a(j) == (if j == p { 1u8 } else { 0u8 }) by {}
        lemma_dot_unit(a, b, p, k);
        assert(rows[p] == d);
    } else {
        let last = k - 1;
        assert(rows[last] == r);
        if l == e {
            assert forall|j: int| 0 <= j < k && j != last implies #[trigger] gf_mul(a(j), b(j)) == 0 by {
                assert(rows[j] != e);
                assert(b(j) == 0);
                lemma_mul_zero_one(a(j), 0);
            }
            lemma_dot_one(a, b, k, last);
            assert(b(last) == ce);
        } else {
            let q = one_loss_pos(e, l);
            assert(rows[q] == l);
            assert forall|j: int| 0 <= j < k && j != last && j != q implies #[trigger] gf_mul(a(j), b(j)) == 0 by {
                assert(rows[j] != l);
                assert(b(j) == 0);
                lemma_mul_zero_one(a(j), 0);
            }
            lemma_dot_two(a, b, k, q, last);
            let cl = code_coeff(k as int, r, l);
            assert(a(q) == gf_mul(cl, ie));
            assert(b(q) == 1u8);
            lemma_mul_zero_one(gf_mul(cl, ie), 1);
            assert(b(last) == cl);
            lemma_mul_comm(ie, cl);
            lemma_xor_zero(gf_mul(cl, ie));
        }
    }
}

/// Those rows of the generator matrix are invertible: one lost data shard is recovered
/// from the other data shards and any one parity shard.
pub proof fn lemma_one_loss_invertible(k: nat, e: int, r: int)
    requires
        0 <= e < k,
        k <= r < 255,
    ensures
        invertible(selected(k, one_loss_rows(k, e, r)), k),
{
    let ce = code_coeff(k as int, r, e);
    assert(ce == gf_pow((r + 1) as u8, e as nat));
    lemma_pow_nonzero((r + 1) as u8, e as nat);
    lemma_mul_inv(ce);
    lemma_mul_comm(ce, gf_inv(ce));
    let x = one_loss_inverse(k, e, r);
    let s = selected(k, one_loss_rows(k, e, r));
    assert forall|d: int, l: int| 0 <= d < k && 0 <= l < k implies #[trigger] prod_fn(x, s, k, d, l) == if d == l {
        1u8
    } else {
        0u8
    } by {
        lemma_one_loss_entry(k, e, r, d, l);
    }
    assert(is_left_inverse_of(x, s, k));
}

/// The kept indices below `i` begin the kept indices below `j >= i`.
proof fn lemma_kept_prefix(er: Seq<bool>, i: nat, j: nat)
    requires
        i <= j,
    ensures
        kept(er, i).len() <= kept(er, j).len(),
        forall|t: int| 0 <= t < kept(er, i).len() ==> #[trigger] kept(er, j)[t] == kept(er, i)[t],
    decreases j - i,
{
    if i < j {
        lemma_kept_prefix(er, i, (j - 1) as nat);
    }
}

/// Below `i <= k`, with only data shard `e` erased among the data shards, the kept indices
/// are those below `i` but `e`.
proof fn lemma_kept_data(er: Seq<bool>, k: nat, e: int, i: nat)
    requires
        i <= k,
        0 <= e < k,
        k <= er.len(),
        er[e],
        forall|d: int| 0 <= d < k && d != e ==> !#[trigger] er[d],
    ensures
        kept(er, i).len() == if i <= e { i as int } else { i - 1 },
        forall|t: int| 0 <= t < kept(er, i).len() ==> #[trigger] kept(er, i)[t] == if t < e { t } else { t + 1 },
    decreases i,
{
    if i > 0 {
        lemma_kept_data(er, k, e, (i - 1) as nat);
    }
}

/// Erased indices add nothing to the kept ones.
proof fn lemma_kept_skip(er: Seq<bool>, k: nat, i: nat)
    requires
        k <= i <= er.len(),
        forall|t: int| k <= t < i ==> #[trigger] er[t],
    ensures
        kept(er, i) == kept(er, k),
    decreases i - k,
{
    if i > k {
        lemma_kept_skip(er, k, (i - 1) as nat);
    }
}

/// Losing exactly one data shard is always recoverable when some parity shard is kept:
/// with data shard `e` erased, the other data shards kept, and `r` the first parity shard
/// kept, the decoder has enough shards and the rows it inverts are invertible.
pub proof fn lemma_one_loss_recoverable(er: Seq<bool>, k: nat, n: nat, e: int, r: int)
    requires
        n <= er.len(),
        n <= MAX_SHARDS,
        0 <= e < k,
        k <= r < n,
        er[e],
        forall|d: int| 0 <= d < k && d != e ==> !#[trigger] er[d],
        forall|i: int| k <= i < r ==> #[trigger] er[i],
        !er[r],
    ensures
        kept(er, n).len() >= k,
        data_erased(er, k),
        invertible(selected(k, kept(er, n)), k),
{
    let rows = one_loss_rows(k, e, r);
    lemma_kept_data(er, k, e, k);
    lemma_kept_skip(er, k, r as nat);
    let kr = kept(er, (r + 1) as nat);
    assert(kr == kept(er, k).push(r));
    lemma_kept_prefix(er, (r + 1) as nat, n);
    let kp = kept(er, n);
    assert(kp.len() >= k);
    assert forall|j: int, l: int| 0 <= j < k && 0 <= l < k implies #[trigger] selected(k, kp)(j, l) == selected(k, rows)(j, l) by {
        assert(kp[j] == kr[j]);
        if j < k - 1 {
            assert(kr[j] == kept(er, k)[j]);
        }
    }
    lemma_one_loss_invertible(k, e, r);
    lemma_invertible_ext(selected(k, kp), selected(k, rows), k);
    assert(er[e]);
}

/// Exchange rows `x` and `y` (first `n` columns) of two matrices.
#[verifier::spinoff_prover]
fn swap_rows(
    a: &mut [[GF256; MAX_SHARDS]; MAX_SHARDS],
    b: &mut [[GF256; MAX_SHARDS]; MAX_SHARDS],
    x: usize,
    y: usize,
    n: usize,
)
    requires
        n <= MAX_SHARDS,
        x < n,
        y < n,
    ensures
        forall|r: int, j: int|
            0 <= r < n && 0 <= j < n ==> #[trigger] mat(*final(a), r, j) == mat(
                *old(a),
                swap_index(r, x as int, y as int),
                j,
            ),
        forall|r: int, j: int|
            0 <= r < n && 0 <= j < n ==> #[trigger] mat(*final(b), r, j) == mat(
                *old(b),
                swap_index(r, x as int, y as int),
                j,
            ),
{
    if x == y {
        return;
    }
    let ghost a0 = *a;
    let ghost b0 = *b;
    let mut j: usize = 0;
    while j < n
        invariant
            n <= MAX_SHARDS,
            x < n,
            y < n,
            x != y,
            0 <= j <= n,
            forall|r: int, jj: int|
                0 <= r < n && 0 <= jj < n ==> #[trigger] mat(*a, r, jj) == if jj < j {
                    mat(a0, swap_index(r, x as int, y as int), jj)
                } else {
                    mat(a0, r, jj)
                },
            forall|r: int, jj: int|
                0 <= r < n && 0 <= jj < n ==> #[trigger] mat(*b, r, jj) == if jj < j {
                    mat(b0, swap_index(r, x as int, y as int), jj)
                } else {
                    mat(b0, r, jj)
                },
        decreases n - j,
    {
        let ghost pa = *a;
        let ghost pb = *b;
        let tmp = a[x][j];
        a[x][j] = a[y][j];
        a[y][j] = tmp;
        let tmp = b[x][j];
        b[x][j] = b[y][j];
        b[y][j] = tmp;
        assert forall|r: int, jj: int| 0 <= r < n && 0 <= jj < n implies #[trigger] mat(*a, r, jj)
            == if jj < j + 1 {
            mat(a0, swap_index(r, x as int, y as int), jj)
        } else {
            mat(a0, r, jj)
        } by {
            assert(mat(pa, r, jj) == mat(a0, r, jj) || jj < j);
            assert(mat(pa, swap_index(r, x as int, y as int), jj) == mat(
                a0,
                swap_index(r, x as int, y as int),
                jj,
            ) || jj < j);
        }
        assert forall|r: int, jj: int| 0 <= r < n && 0 <= jj < n implies #[trigger] mat(*b, r, jj)
            == if jj < j + 1 {
            mat(b0, swap_index(r, x as int, y as int), jj)
        } else {
            mat(b0, r, jj)
        } by {
            assert(mat(pb, r, jj) == mat(b0, r, jj) || jj < j);
            assert(mat(pb, swap_index(r, x as int, y as int), jj) == mat(
                b0,
                swap_index(r, x as int, y as int),
                jj,
            ) || jj < j);
        }
        j = j + 1;
    }
}

/// Multiply row `x` (first `n` columns) of two matrices by `p`.
#[verifier::spinoff_prover]
fn scale_row(
    a: &mut [[GF256; MAX_SHARDS]; MAX_SHARDS],
    b: &mut [[GF256; MAX_SHARDS]; MAX_SHARDS],
    x: usize,
    p: GF256,
    n: usize,
)
    requires
        n <= MAX_SHARDS,
        x < n,
    ensures
        forall|r: int, j: int|
            0 <= r < n && 0 <= j < n ==> #[trigger] mat(*final(a), r, j) == if r == x {
                gf_mul(mat(*old(a), r, j), p.0)
            } else {
                mat(*old(a), r, j)
            },
        forall|r: int, j: int|
            0 <= r < n && 0 <= j < n ==> #[trigger] mat(*final(b), r, j) == if r == x {
                gf_mul(mat(*old(b), r, j), p.0)
            } else {
                mat(*old(b), r, j)
            },
{
    let ghost a0 = *a;
    let ghost b0 = *b;
    let mut j: usize = 0;
    while j < n
        invariant
            n <= MAX_SHARDS,
            x < n,
            0 <= j <= n,
            forall|r: int, jj: int|
                0 <= r < n && 0 <= jj < n ==> #[trigger] mat(*a, r, jj) == if r == x && jj < j {
                    gf_mul(mat(a0, r, jj), p.0)
                } else {
                    mat(a0, r, jj)
                },
            forall|r: int, jj: int|
                0 <= r < n && 0 <= jj < n ==> #[trigger] mat(*b, r, jj) == if r == x && jj < j {
                    gf_mul(mat(b0, r, jj), p.0)
                } else {
                    mat(b0, r, jj)
                },
        decreases n - j,
    {
        let ghost pa = *a;
        let ghost pb = *b;
        a[x][j] = a[x][j].mul(p);
        b[x][j] = b[x][j].mul(p);
        assert forall|r: int, jj: int| 0 <= r < n && 0 <= jj < n implies #[trigger] mat(*a, r, jj)
            == if r == x && jj < j + 1 {
            gf_mul(mat(a0, r, jj), p.0)
        } else {
            mat(a0, r, jj)
        } by {
            assert(mat(pa, r, jj) == if r == x && jj < j {
                gf_mul(mat(a0, r, jj), p.0)
            } else {
                mat(a0, r, jj)
            });
        }
        assert forall|r: int, jj: int| 0 <= r < n && 0 <= jj < n implies #[trigger] mat(*b, r, jj)
            == if r == x && jj < j + 1 {
            gf_mul(mat(b0, r, jj), p.0)
        } else {
            mat(b0, r, jj)
        } by {
            assert(mat(pb, r, jj) == if r == x && jj < j {
                gf_mul(mat(b0, r, jj), p.0)
            } else {
                mat(b0, r, jj)
            });
        }
        j = j + 1;
    }
}

/// Subtract `f` times row `x` from row `t` (first `n` columns) of two matrices.
#[verifier::spinoff_prover]
fn eliminate_row(
    a: &mut [[GF256; MAX_SHARDS]; MAX_SHARDS],
    b: &mut [[GF256; MAX_SHARDS]; MAX_SHARDS],
    t: usize,
    x: usize,
    f: GF256,
    n: usize,
)
    requires
        n <= MAX_SHARDS,
        t < n,
        x < n,
        t != x,
    ensures
        forall|r: int, j: int|
            0 <= r < n && 0 <= j < n ==> #[trigger] mat(*final(a), r, j) == if r == t {
                mat(*old(a), t as int, j) ^ gf_mul(mat(*old(a), x as int, j), f.0)
            } else {
                mat(*old(a), r, j)
            },
        forall|r: int, j: int|
            0 <= r < n && 0 <= j < n ==> #[trigger] mat(*final(b), r, j) == if r == t {
                mat(*old(b), t as int, j) ^ gf_mul(mat(*old(b), x as int, j), f.0)
            } else {
                mat(*old(b), r, j)
            },
{
    let ghost a0 = *a;
    let ghost b0 = *b;
    let mut j: usize = 0;
    while j < n
        invariant
            n <= MAX_SHARDS,
            t < n,
            x < n,
            t != x,
            0 <= j <= n,
            forall|r: int, jj: int|
                0 <= r < n && 0 <= jj < n ==> #[trigger] mat(*a, r, jj) == if r == t && jj < j {
                    mat(a0, t as int, jj) ^ gf_mul(mat(a0, x as int, jj), f.0)
                } else {
                    mat(a0, r, jj)
                },
            forall|r: int, jj: int|
                0 <= r < n && 0 <= jj < n ==> #[trigger] mat(*b, r, jj) == if r == t && jj < j {
                    mat(b0, t as int, jj) ^ gf_mul(mat(b0, x as int, jj), f.0)
                } else {
                    mat(b0, r, jj)
                },
        decreases n - j,
    {
        let ghost pa = *a;
        let ghost pb = *b;
        let sub = a[x][j].mul(f);
        a[t][j] = a[t][j].sub(sub);
        let sub = b[x][j].mul(f);
        b[t][j] = b[t][j].sub(sub);
        assert forall|r: int, jj: int| 0 <= r < n && 0 <= jj < n implies #[trigger] mat(*a, r, jj)
            == if r == t && jj < j + 1 {
            mat(a0, t as int, jj) ^ gf_mul(mat(a0, x as int, jj), f.0)
        } else {
            mat(a0, r, jj)
        } by {
            assert(mat(pa, r, jj) == if r == t && jj < j {
                mat(a0, t as int, jj) ^ gf_mul(mat(a0, x as int, jj), f.0)
            } else {
                mat(a0, r, jj)
            });
            assert(mat(pa, x as int, jj) == mat(a0, x as int, jj));
            assert(mat(pa, t as int, jj) == mat(a0, t as int, jj) || jj < j);
        }
        assert forall|r: int, jj: int| 0 <= r < n && 0 <= jj < n implies #[trigger] mat(*b, r, jj)
            == if r == t && jj < j + 1 {
            mat(b0, t as int, jj) ^ gf_mul(mat(b0, x as int, jj), f.0)
        } else {
            mat(b0, r, jj)
        } by {
            assert(mat(pb, r, jj) == if r == t && jj < j {
                mat(b0, t as int, jj) ^ gf_mul(mat(b0, x as int, jj), f.0)
            } else {
                mat(b0, r, jj)
            });
            assert(mat(pb, x as int, jj) == mat(b0, x as int, jj));
            assert(mat(pb, t as int, jj) == mat(b0, t as int, jj) || jj < j);
        }
        j = j + 1;
    }
}

/// What the selection of shards found.
enum Plan {
    /// Fewer than `k` shards, or their rows are not invertible
    Fail,
    /// No data shard is missing
    Nothing,
    /// The indices of the `k` shards to recover from; the decode matrix holds the inverse
    Recover(Vec<usize>),
}

/// FEC Decoder: recovers missing data shards from any `k` shards whose rows are invertible
pub struct FecDecoder {
    /// FEC configuration
    config: FecConfig,
    /// Full encoding matrix: identity rows for the data shards, then the parity rows
    pub full_matrix: [[GF256; MAX_SHARDS]; MAX_SHARDS],
    /// Decode matrix (computed per recovery)
    pub decode_matrix: [[GF256; MAX_SHARDS]; MAX_SHARDS],
}

impl FecDecoder {
    /// The configuration the decoder was made with.
    pub closed spec fn conf(&self) -> FecConfig {
        self.config
    }

    /// The full encoding matrix.
    pub closed spec fn full_mat(&self) -> [[GF256; MAX_SHARDS]; MAX_SHARDS] {
        self.full_matrix
    }

    /// The decode matrix.
    pub closed spec fn decode_mat(&self) -> [[GF256; MAX_SHARDS]; MAX_SHARDS] {
        self.decode_matrix
    }

    /// The shards fit in the matrices and the full matrix holds the code's coefficients.
    pub closed spec fn wf(&self) -> bool {
        let k = self.config.data_shards as int;
        let m = self.config.parity_shards as int;
        &&& (k == 0 || k + m <= MAX_SHARDS)
        &&& forall|i: int, j: int|
            0 <= i < k + m && 0 <= j < k ==> #[trigger] mat(self.full_matrix, i, j) == code_coeff(
                k,
                i,
                j,
            )
    }

    /// Create new decoder with given configuration; all shards must fit in the matrices
    pub fn new(config: FecConfig) -> (r: Self)
        requires
            config.data_shards == 0 || config.data_shards + config.parity_shards <= MAX_SHARDS,
        ensures
            r.conf() == config,
            r.wf(),
            forall|i: int, j: int|
                0 <= i < config.data_shards + config.parity_shards && 0 <= j
                    < config.data_shards ==> #[trigger] mat(r.full_mat(), i, j) == code_coeff(
                    config.data_shards as int,
                    i,
                    j,
                ),
    {
        let mut decoder = FecDecoder {
            config,
            full_matrix: [[GF256(0); MAX_SHARDS]; MAX_SHARDS],
            decode_matrix: [[GF256(0); MAX_SHARDS]; MAX_SHARDS],
        };
        decoder.build_full_matrix();
        decoder
    }

    /// Fill the full matrix: identity rows for the data shards, then `(k + i + 1)^j`
    fn build_full_matrix(&mut self)
        requires
            old(self).config.data_shards == 0 || old(self).config.data_shards
                + old(self).config.parity_shards <= MAX_SHARDS,
        ensures
            final(self).config == old(self).config,
            final(self).decode_matrix == old(self).decode_matrix,
            final(self).wf(),
    {
        let k = self.config.data_shards as usize;
        let m = self.config.parity_shards as usize;
        let mut i: usize = 0;
        while i < k
            invariant
                k == self.config.data_shards,
                m == self.config.parity_shards,
                self.config == old(self).config,
                self.decode_matrix == old(self).decode_matrix,
                k == 0 || k + m <= MAX_SHARDS,
                0 <= i <= k,
                forall|ii: int, j: int|
                    0 <= ii < i && 0 <= j < k ==> #[trigger] self.full_matrix[ii][j].0
                        == code_coeff(k as int, ii, j),
            decreases k - i,
        {
            let mut j: usize = 0;
            while j < k
                invariant
                    k == self.config.data_shards,
                    m == self.config.parity_shards,
                    self.config == old(self).config,
                    self.decode_matrix == old(self).decode_matrix,
                    k + m <= MAX_SHARDS,
                    0 <= i < k,
                    0 <= j <= k,
                    forall|ii: int, jj: int|
                        0 <= ii < i && 0 <= jj < k ==> #[trigger] self.full_matrix[ii][jj].0
                            == code_coeff(k as int, ii, jj),
                    forall|jj: int|
                        0 <= jj < j ==> #[trigger] self.full_matrix[i as int][jj].0
                            == code_coeff(k as int, i as int, jj),
                decreases k - j,
            {
                self.full_matrix[i][j] = if i == j {
                    GF256(1)
                } else {
                    GF256(0)
                };
                j = j + 1;
            }
            i = i + 1;
        }
        let mut i: usize = 0;
        while i < m
            invariant
                k == self.config.data_shards,
                m == self.config.parity_shards,
                self.config == old(self).config,
                self.decode_matrix == old(self).decode_matrix,
                k == 0 || k + m <= MAX_SHARDS,
                0 <= i <= m,
                forall|ii: int, j: int|
                    0 <= ii < k + i && 0 <= j < k ==> #[trigger] self.full_matrix[ii][j].0
                        == code_coeff(k as int, ii, j),
            decreases m - i,
        {
            let base = GF256::new((k + i + 1) as u8);
            let mut j: usize = 0;
            while j < k
                invariant
                    k == self.config.data_shards,
                    m == self.config.parity_shards,
                    self.config == old(self).config,
                    self.decode_matrix == old(self).decode_matrix,
                    k == 0 || k + m <= MAX_SHARDS,
                    0 <= i < m,
                    base.0 == (k + i + 1) as u8,
                    0 <= j <= k,
                    forall|ii: int, jj: int|
                        0 <= ii < k + i && 0 <= jj < k ==> #[trigger] self.full_matrix[ii][jj].0
                            == code_coeff(k as int, ii, jj),
                    forall|jj: int|
                        0 <= jj < j ==> #[trigger] self.full_matrix[(k + i) as int][jj].0
                            == code_coeff(k as int, k + i, jj),
                decreases k - j,
            {
                self.full_matrix[k + i][j] = base.pow(j as u8);
                j = j + 1;
            }
            i = i + 1;
        }
    }

    /// Invert the leading `n` by `n` block of the decode matrix in place, by Gauss-Jordan
    /// elimination with the first nonzero pivot of each column; `false` when a column has
    /// no pivot. On success the new block times the old one is the identity.
#[verifier::spinoff_prover]
    pub fn invert_matrix(&mut self, n: usize) -> (r: bool)
        requires
            n <= MAX_SHARDS,
        ensures
            final(self).conf() == old(self).conf(),
            final(self).full_mat() == old(self).full_mat(),
            r ==> left_inverse(
                final(self).decode_mat(),
                |j: int, l: int| mat(old(self).decode_mat(), j, l),
                n as nat,
            ),
            r == invertible(|j: int, l: int| mat(old(self).decode_mat(), j, l), n as nat),
    {
        let ghost s0 = self.decode_matrix;
        let ghost s = |j: int, l: int| mat(s0, j, l);
        let mut inv = [[GF256(0); MAX_SHARDS]; MAX_SHARDS];
        let mut i: usize = 0;
        while i < n
            invariant
                n <= MAX_SHARDS,
                0 <= i <= n,
                forall|r: int, j: int|
                    0 <= r < n && 0 <= j < n ==> #[trigger] mat(inv, r, j) == if r == j && r < i {
                        1u8
                    } else {
                        0u8
                    },
            decreases n - i,
        {
            let ghost pinv = inv;
            inv[i][i] = GF256(1);
            assert forall|r: int, j: int| 0 <= r < n && 0 <= j < n implies #[trigger] mat(inv, r, j)
                == if r == j && r < i + 1 {
                1u8
            } else {
                0u8
            } by {
                assert(mat(pinv, r, j) == if r == j && r < i {
                    1u8
                } else {
                    0u8
                });
            }
            i = i + 1;
        }
        proof {
            lemma_identity_product(s0, inv, n as nat);
        }
        let ghost mut b: spec_fn(int, int) -> u8 = |r: int, c: int|
            if r == c {
                1u8
            } else {
                0u8
            };
        proof {
            assert forall|d: int, l: int| 0 <= d < n && 0 <= l < n implies #[trigger] prod_fn(
                b,
                entries(inv),
                n as nat,
                d,
                l,
            ) == if d == l {
                1u8
            } else {
                0u8
            } by {
                assert forall|j: int| 0 <= j < n implies #[trigger] b(d, j) == if j == d {
                    1u8
                } else {
                    0u8
                } by {}
                lemma_dot_unit(|j: int| b(d, j), |j: int| entries(inv)(j, l), d, n as nat);
            }
        }
        let mut col: usize = 0;
        while col < n
            invariant
                n <= MAX_SHARDS,
                0 <= col <= n,
                self.config == old(self).config,
                self.full_matrix == old(self).full_matrix,
                s == (|j: int, l: int| mat(s0, j, l)),
                s0 == old(self).decode_matrix,
                is_product(self.decode_matrix, inv, s, n as nat),
                unit_columns(self.decode_matrix, n as nat, col as int),
                is_left_inverse_of(b, entries(inv), n as nat),
            decreases n - col,
        {
            let mut pivot_row: usize = n;
            let mut row: usize = col;
            while row < n
                invariant
                    n <= MAX_SHARDS,
                    col < n,
                    col <= row <= n,
                    pivot_row == n ==> forall|r: int|
                        col <= r < row ==> #[trigger] mat(self.decode_matrix, r, col as int) == 0,
                    pivot_row != n ==> col <= pivot_row < n && mat(
                        self.decode_matrix,
                        pivot_row as int,
                        col as int,
                    ) != 0,
                decreases n - row,
            {
                if pivot_row == n && self.decode_matrix[row][col].0 != 0 {
                    pivot_row = row;
                }
                row = row + 1;
            }
            if pivot_row == n {
                proof {
                    lemma_stuck_column_singular(self.decode_matrix, inv, b, s, n as nat, col as int);
                    assert(!invertible(s, n as nat));
                    assert(s =~= (|j: int, l: int| mat(old(self).decode_mat(), j, l)));
                }
                return false;
            }
            let ghost a0 = self.decode_matrix;
            let ghost i0 = inv;
            swap_rows(&mut self.decode_matrix, &mut inv, col, pivot_row, n);
            proof {
                lemma_swap_keeps_left_inverse(b, i0, inv, n as nat, col as int, pivot_row as int);
                let bp = b;
                b = |r: int, c: int| bp(r, swap_index(c, col as int, pivot_row as int));
                lemma_swap_keeps_product(
                    a0,
                    i0,
                    self.decode_matrix,
                    inv,
                    s,
                    n as nat,
                    col as int,
                    pivot_row as int,
                );
                assert forall|r: int, j: int| 0 <= r < n && 0 <= j < col implies #[trigger] mat(
                    self.decode_matrix,
                    r,
                    j,
                ) == if r == j {
                    1u8
                } else {
                    0u8
                } by {
                    let r0 = swap_index(r, col as int, pivot_row as int);
                    assert(mat(a0, r0, j) == if r0 == j {
                        1u8
                    } else {
                        0u8
                    });
                }
            }
            assert(mat(self.decode_matrix, col as int, col as int) == mat(a0, pivot_row as int, col as int));
            let pivot_inv = match self.decode_matrix[col][col].inverse() {
                Some(v) => v,
                None => {
                    return false;
                },
            };
            let ghost a1 = self.decode_matrix;
            let ghost i1 = inv;
            scale_row(&mut self.decode_matrix, &mut inv, col, pivot_inv, n);
            proof {
                lemma_scale_keeps_product(
                    a1,
                    i1,
                    self.decode_matrix,
                    inv,
                    s,
                    n as nat,
                    col as int,
                    pivot_inv.0,
                );
                lemma_mul_inv(mat(a1, col as int, col as int));
                assert forall|r: int, j: int| 0 <= r < n && 0 <= j < col implies #[trigger] mat(
                    self.decode_matrix,
                    r,
                    j,
                ) == if r == j {
                    1u8
                } else {
                    0u8
                } by {
                    assert(mat(a1, r, j) == if r == j {
                        1u8
                    } else {
                        0u8
                    });
                    lemma_mul_zero_one(0, pivot_inv.0);
                }
                assert(mat(self.decode_matrix, col as int, col as int) == 1);
                let pv = mat(a1, col as int, col as int);
                if pivot_inv.0 == 0 {
                    lemma_mul_zero_one(pv, 0);
                }
                lemma_scale_keeps_left_inverse(b, i1, inv, n as nat, col as int, pivot_inv.0);
                let bp = b;
                let q = gf_inv(pivot_inv.0);
                b = |r: int, c: int|
                    if c == col {
                        gf_mul(bp(r, c), q)
                    } else {
                        bp(r, c)
                    };
            }
            let mut row: usize = 0;
            while row < n
                invariant
                    n <= MAX_SHARDS,
                    col < n,
                    0 <= row <= n,
                    self.config == old(self).config,
                    self.full_matrix == old(self).full_matrix,
                    s == (|j: int, l: int| mat(s0, j, l)),
                    is_product(self.decode_matrix, inv, s, n as nat),
                    unit_columns(self.decode_matrix, n as nat, col as int),
                    is_left_inverse_of(b, entries(inv), n as nat),
                    mat(self.decode_matrix, col as int, col as int) == 1,
                    forall|r: int|
                        0 <= r < row ==> #[trigger] mat(self.decode_matrix, r, col as int) == if r
                            == col {
                            1u8
                        } else {
                            0u8
                        },
                decreases n - row,
            {
                if row != col && self.decode_matrix[row][col].0 != 0 {
                    let factor = self.decode_matrix[row][col];
                    let ghost a2 = self.decode_matrix;
                    let ghost i2 = inv;
                    eliminate_row(&mut self.decode_matrix, &mut inv, row, col, factor, n);
                    proof {
                        lemma_elim_keeps_left_inverse(
                            b,
                            i2,
                            inv,
                            n as nat,
                            row as int,
                            col as int,
                            factor.0,
                        );
                        let bp = b;
                        let f = factor.0;
                        b = |r: int, c: int|
                            if c == col {
                                bp(r, col as int) ^ gf_mul(bp(r, row as int), f)
                            } else {
                                bp(r, c)
                            };
                        lemma_elim_keeps_product(
                            a2,
                            i2,
                            self.decode_matrix,
                            inv,
                            s,
                            n as nat,
                            row as int,
                            col as int,
                            factor.0,
                        );
                        assert forall|r: int, j: int|
                            0 <= r < n && 0 <= j < col implies #[trigger] mat(
                            self.decode_matrix,
                            r,
                            j,
                        ) == if r == j {
                            1u8
                        } else {
                            0u8
                        } by {
                            assert(mat(a2, r, j) == if r == j {
                                1u8
                            } else {
                                0u8
                            });
                            assert(mat(a2, col as int, j) == 0);
                            lemma_mul_zero_one(0, factor.0);
                            lemma_xor_zero(mat(a2, r, j));
                        }
                        lemma_mul_zero_one(1, factor.0);
                        lemma_xor_zero(factor.0);
                        assert(mat(self.decode_matrix, row as int, col as int) == 0);
                        assert forall|r: int| 0 <= r < row + 1 implies #[trigger] mat(
                            self.decode_matrix,
                            r,
                            col as int,
                        ) == if r == col {
                            1u8
                        } else {
                            0u8
                        } by {
                            if r < row {
                                assert(mat(a2, r, col as int) == if r == col {
                                    1u8
                                } else {
                                    0u8
                                });
                            }
                        }
                    }
                } else {
                    proof {
                        assert(mat(self.decode_matrix, row as int, col as int) == if row == col {
                            1u8
                        } else {
                            0u8
                        });
                    }
                }
                row = row + 1;
            }
            proof {
                assert forall|r: int, j: int| 0 <= r < n && 0 <= j < col + 1 implies #[trigger] mat(
                    self.decode_matrix,
                    r,
                    j,
                ) == if r == j {
                    1u8
                } else {
                    0u8
                } by {
                    if j == col {
                        assert(mat(self.decode_matrix, r, col as int) == if r == col {
                            1u8
                        } else {
                            0u8
                        });
                    }
                }
            }
            col = col + 1;
        }
        proof {
            assert forall|d: int, l: int| 0 <= d < n && 0 <= l < n implies #[trigger] prod_entry(
                inv,
                s,
                n as nat,
                d,
                l,
            ) == if d == l {
                1u8
            } else {
                0u8
            } by {
                assert(mat(self.decode_matrix, d, l) == prod_entry(inv, s, n as nat, d, l));
            }
        }
        let ghost fin = inv;
        let mut i: usize = 0;
        while i < n
            invariant
                n <= MAX_SHARDS,
                0 <= i <= n,
                inv == fin,
                self.config == old(self).config,
                self.full_matrix == old(self).full_matrix,
                forall|r: int, j: int|
                    0 <= r < i && 0 <= j < n ==> #[trigger] mat(self.decode_matrix, r, j) == mat(
                        inv,
                        r,
                        j,
                    ),
            decreases n - i,
        {
            let mut j: usize = 0;
            while j < n
                invariant
                    n <= MAX_SHARDS,
                    0 <= i < n,
                    0 <= j <= n,
                    inv == fin,
                    self.config == old(self).config,
                    self.full_matrix == old(self).full_matrix,
                    forall|r: int, jj: int|
                        0 <= r < i && 0 <= jj < n ==> #[trigger] mat(self.decode_matrix, r, jj)
                            == mat(inv, r, jj),
                    forall|jj: int|
                        0 <= jj < j ==> #[trigger] mat(self.decode_matrix, i as int, jj) == mat(
                            inv,
                            i as int,
                            jj,
                        ),
                decreases n - j,
            {
                let ghost pd = self.decode_matrix;
                self.decode_matrix[i][j] = inv[i][j];
                assert forall|r: int, jj: int| 0 <= r < i && 0 <= jj < n implies #[trigger] mat(
                    self.decode_matrix,
                    r,
                    jj,
                ) == mat(inv, r, jj) by {
                    assert(mat(pd, r, jj) == mat(inv, r, jj));
                }
                assert forall|jj: int| 0 <= jj < j + 1 implies #[trigger] mat(
                    self.decode_matrix,
                    i as int,
                    jj,
                ) == mat(inv, i as int, jj) by {
                    if jj < j {
                        assert(mat(pd, i as int, jj) == mat(inv, i as int, jj));
                    }
                }
                j = j + 1;
            }
            i = i + 1;
        }
        proof {
            assert forall|d: int, l: int| 0 <= d < n && 0 <= l < n implies #[trigger] prod_entry(
                self.decode_matrix,
                s,
                n as nat,
                d,
                l,
            ) == if d == l {
                1u8
            } else {
                0u8
            } by {
                assert(prod_entry(fin, s, n as nat, d, l) == if d == l {
                    1u8
                } else {
                    0u8
                });
                assert forall|j: int| 0 <= j < n implies #[trigger] mat(fin, d, j) == mat(
                    self.decode_matrix,
                    d,
                    j,
                ) by {}
                lemma_dot_ext(
                    |j: int| mat(fin, d, j),
                    |j: int| s(j, l),
                    |j: int| mat(self.decode_matrix, d, j),
                    |j: int| s(j, l),
                    n as nat,
                );
            }
            lemma_left_inverse_invertible(self.decode_matrix, s, n as nat);
        }
        true
    }

    /// Count the kept shards, and when some data shard is erased, load the rows of the
    /// first `k` kept shards into the decode matrix and invert them.
#[verifier::spinoff_prover]
    fn plan(&mut self, erased: &[bool]) -> (r: Plan)
        requires
            old(self).wf(),
            erased@.len() == old(self).conf().data_shards + old(self).conf().parity_shards,
        ensures
            final(self).conf() == old(self).conf(),
            final(self).full_mat() == old(self).full_mat(),
            final(self).wf(),
            ({
                let k = old(self).conf().data_shards as nat;
                let kp = kept(erased@, erased@.len());
                &&& kp.len() < k ==> r is Fail
                &&& kp.len() >= k && !data_erased(erased@, k) ==> r is Nothing
                &&& r is Nothing <==> kp.len() >= k && !data_erased(erased@, k)
                &&& r is Fail <==> kp.len() < k || (data_erased(erased@, k) && !invertible(
                    selected(k, kp),
                    k,
                ))
                &&& r matches Plan::Recover(pi) ==> {
                    &&& kp.len() >= k
                    &&& data_erased(erased@, k)
                    &&& pi@.len() == k
                    &&& forall|j: int| 0 <= j < k ==> #[trigger] pi@[j] == kp[j]
                    &&& left_inverse(final(self).decode_mat(), selected(k, kp), k)
                }
            }),
    {
        let k = self.config.data_shards as usize;
        let n = self.config.total_shards() as usize;
        let ghost e = erased@;
        let mut present_count: usize = 0;
        let mut missing_data_count: usize = 0;
        let mut i: usize = 0;
        while i < n
            invariant
                n == e.len(),
                e == erased@,
                k <= n,
                0 <= i <= n,
                present_count == kept(e, i as nat).len(),
                present_count <= i,
                missing_data_count <= i,
                (missing_data_count == 0) == (forall|d: int| 0 <= d < i && d < k ==> !#[trigger] e[d]),
            decreases n - i,
        {
            proof {
                lemma_kept(e, i as nat);
            }
            if !erased[i] {
                present_count = present_count + 1;
            } else if i < k {
                missing_data_count = missing_data_count + 1;
            }
            i = i + 1;
        }
        if present_count < k {
            return Plan::Fail;
        }
        if missing_data_count == 0 {
            return Plan::Nothing;
        }
        proof {
            lemma_kept(e, n as nat);
        }
        let ghost kp = kept(e, n as nat);
        let mut sub_row: usize = 0;
        let mut present_indices: Vec<usize> = Vec::new();
        let mut i: usize = 0;
        while i < n
            invariant
                self.wf(),
                self.config == old(self).config,
                self.full_matrix == old(self).full_matrix,
                n == e.len(),
                e == erased@,
                k == self.config.data_shards,
                n == self.config.data_shards + self.config.parity_shards,
                0 < k <= n <= MAX_SHARDS,
                kp == kept(e, n as nat),
                kp.len() >= k,
                0 <= i <= n,
                sub_row == if kept(e, i as nat).len() < k {
                    kept(e, i as nat).len()
                } else {
                    k as nat
                },
                present_indices@.len() == sub_row,
                forall|r: int| 0 <= r < sub_row ==> #[trigger] present_indices@[r] == kept(e, i as nat)[r],
                forall|r: int, c: int|
                    0 <= r < sub_row && 0 <= c < k ==> #[trigger] self.decode_matrix[r][c].0
                        == code_coeff(k as int, kept(e, i as nat)[r], c),
            decreases n - i,
        {
            proof {
                lemma_kept(e, i as nat);
                lemma_kept(e, (i + 1) as nat);
            }
            if !erased[i] && sub_row < k {
                let mut j: usize = 0;
                while j < k
                    invariant
                        self.wf(),
                        self.config == old(self).config,
                        self.full_matrix == old(self).full_matrix,
                        k == self.config.data_shards,
                        n == self.config.data_shards + self.config.parity_shards,
                        0 < k <= n <= MAX_SHARDS,
                        i < n,
                        sub_row < k,
                        0 <= j <= k,
                        forall|r: int, c: int|
                            0 <= r < sub_row && 0 <= c < k ==> #[trigger] self.decode_matrix[r][c].0
                                == code_coeff(k as int, kept(e, i as nat)[r], c),
                        forall|c: int|
                            0 <= c < j ==> #[trigger] self.decode_matrix[sub_row as int][c].0
                                == code_coeff(k as int, i as int, c),
                    decreases k - j,
                {
                    assert(mat(self.full_matrix, i as int, j as int) == code_coeff(
                        k as int,
                        i as int,
                        j as int,
                    ));
                    self.decode_matrix[sub_row][j] = self.full_matrix[i][j];
                    j = j + 1;
                }
                present_indices.push(i);
                sub_row = sub_row + 1;
            }
            proof {
                let kn = kept(e, (i + 1) as nat);
                assert(kn == if !e[i as int] {
                    kept(e, i as nat).push(i as int)
                } else {
                    kept(e, i as nat)
                });
            }
            i = i + 1;
        }
        let ghost loaded = self.decode_matrix;
        proof {
            assert forall|j: int, l: int| 0 <= j < k && 0 <= l < k implies #[trigger] mat(
                loaded,
                j,
                l,
            ) == selected(k as nat, kp)(j, l) by {
                assert(loaded[j][l].0 == code_coeff(k as int, kp[j], l));
            }
            lemma_invertible_ext(|j: int, l: int| mat(loaded, j, l), selected(k as nat, kp), k as nat);
        }
        if !self.invert_matrix(k) {
            return Plan::Fail;
        }
        proof {
            let sel = selected(k as nat, kp);
            let olds = |j: int, l: int| mat(loaded, j, l);
            assert forall|d: int, l: int| 0 <= d < k && 0 <= l < k implies #[trigger] prod_entry(
                self.decode_matrix,
                sel,
                k as nat,
                d,
                l,
            ) == if d == l {
                1u8
            } else {
                0u8
            } by {
                assert(prod_entry(self.decode_matrix, olds, k as nat, d, l) == if d == l {
                    1u8
                } else {
                    0u8
                });
                assert forall|j: int| 0 <= j < k implies #[trigger] olds(j, l) == sel(j, l) by {
                    assert(loaded[j][l].0 == code_coeff(k as int, kp[j], l));
                }
                lemma_dot_ext(
                    |j: int| mat(self.decode_matrix, d, j),
                    |j: int| olds(j, l),
                    |j: int| mat(self.decode_matrix, d, j),
                    |j: int| sel(j, l),
                    k as nat,
                );
            }
        }
        Plan::Recover(present_indices)
    }

    /// Decode with explicit erasure positions: every shard has a buffer, and `erasures[i]`
    /// says that shard `i` is missing. The rows of the first `k` kept shards are inverted,
    /// and each erased data shard is recomputed from those `k` shards.
    ///
    /// Fails when the counts do not match the configuration, `shard_size` exceeds
    /// `MAX_SHARD_SIZE`, fewer than `k` shards are kept, or their rows are not invertible.
    /// On success every erased data shard whose kept shards are a codeword gets its data
    /// back, and no other shard changes.
#[verifier::spinoff_prover]
    pub fn decode_with_erasures(
        &mut self,
        shards: &mut Vec<Vec<u8>>,
        erasures: &[bool],
        shard_size: usize,
    ) -> (r: bool)
        requires
            old(self).wf(),
            ({
                let k = old(self).conf().data_shards as nat;
                let n = old(self).conf().data_shards + old(self).conf().parity_shards;
                let kp = kept(erasures@, n as nat);
                old(shards)@.len() == n && erasures@.len() == n && shard_size <= MAX_SHARD_SIZE
                    && kp.len() >= k && data_erased(erasures@, k) ==> {
                    &&& forall|j: int|
                        0 <= j < k ==> (#[trigger] old(shards)@[kp[j]])@.len() >= shard_size
                    &&& forall|d: int|
                        0 <= d < k && erasures@[d] ==> (#[trigger] old(shards)@[d])@.len()
                            >= shard_size
                }
            }),
        ensures
            final(self).conf() == old(self).conf(),
            final(self).full_mat() == old(self).full_mat(),
            final(self).wf(),
            final(shards)@.len() == old(shards)@.len(),
            ({
                let k = old(self).conf().data_shards as nat;
                let n = old(self).conf().data_shards + old(self).conf().parity_shards;
                let kp = kept(erasures@, n as nat);
                let valid = old(shards)@.len() == n && erasures@.len() == n && shard_size
                    <= MAX_SHARD_SIZE;
                &&& r == (valid && kp.len() >= k && (!data_erased(erasures@, k) || invertible(
                    selected(k, kp),
                    k,
                )))
                &&& !r ==> final(shards)@ == old(shards)@
                &&& !data_erased(erasures@, k) ==> final(shards)@ == old(shards)@
                &&& r && data_erased(erasures@, k) ==> left_inverse(
                    final(self).decode_mat(),
                    selected(k, kp),
                    k,
                )
                &&& forall|i: int|
                    0 <= i < old(shards)@.len() && !(i < k && erasures@[i]) ==> #[trigger] final(shards)@[i] == old(shards)@[i]
                &&& r ==> forall|d: int|
                    0 <= d < k && erasures@[d] ==> #[trigger] final(shards)@[d]@ == splice(
                        old(shards)@[d]@,
                        0,
                        Seq::new(
                            shard_size as nat,
                            |b: int|
                                dot(
                                    |j: int| old(shards)@[kp[j]]@[b],
                                    |j: int| mat(final(self).decode_mat(), d, j),
                                    k,
                                ),
                        ),
                    )
                &&& r ==> forall|data: Seq<Seq<u8>>|
                    #[trigger] codeword_on(
                        vec_views(old(shards)@),
                        erasures@,
                        data,
                        k,
                        shard_size as nat,
                    ) ==> forall|d: int, b: int|
                        0 <= d < k && erasures@[d] && 0 <= b < shard_size ==> #[trigger] final(shards)@[d]@[b] == data[d][b]
            }),
    {
        let k = self.config.data_shards as usize;
        let n = self.config.total_shards() as usize;
        if shards.len() != n || erasures.len() != n || shard_size > MAX_SHARD_SIZE {
            return false;
        }
        let plan = self.plan(erasures);
        let pi = match plan {
            Plan::Fail => {
                return false;
            },
            Plan::Nothing => {
                return true;
            },
            Plan::Recover(pi) => pi,
        };
        let ghost s0 = shards@;
        let ghost kp = kept(erasures@, n as nat);
        proof {
            lemma_kept(erasures@, n as nat);
        }
        assert(data_erased(erasures@, k as nat));
        assert forall|jj: int| 0 <= jj < k implies (#[trigger] s0[kp[jj]])@.len() >= shard_size by {
            assert(old(shards)@[kp[jj]]@.len() >= shard_size);
        }
        let mut rows: Vec<&[u8]> = Vec::new();
        let mut j: usize = 0;
        while j < k
            invariant
                0 <= j <= k,
                k == self.config.data_shards,
                n == self.config.data_shards + self.config.parity_shards,
                shards@ == s0,
                s0.len() == n,
                kp == kept(erasures@, n as nat),
                kp.len() >= k,
                forall|r: int| 0 <= r < kp.len() ==> 0 <= #[trigger] kp[r] < n,
                pi@.len() == k,
                forall|jj: int| 0 <= jj < k ==> #[trigger] pi@[jj] == kp[jj],
                rows@.len() == j,
                forall|jj: int| 0 <= jj < j ==> (#[trigger] rows@[jj])@ == s0[kp[jj]]@,
            decreases k - j,
        {
            assert(pi@[j as int] == kp[j as int]);
            rows.push(shards[pi[j]].as_slice());
            j = j + 1;
        }
        let mut recovered: Vec<Vec<u8>> = Vec::new();
        let mut d: usize = 0;
        while d < k
            invariant
                0 <= d <= k,
                k == self.config.data_shards,
                n == self.config.data_shards + self.config.parity_shards,
                0 < k <= MAX_SHARDS,
                erasures@.len() == n,
                s0.len() == n,
                kp == kept(erasures@, n as nat),
                kp.len() >= k,
                rows@.len() == k,
                forall|jj: int| 0 <= jj < k ==> (#[trigger] rows@[jj])@ == s0[kp[jj]]@,
                forall|jj: int| 0 <= jj < k ==> (#[trigger] s0[kp[jj]])@.len() >= shard_size,
                recovered@.len() == d,
                forall|dd: int|
                    0 <= dd < d && erasures@[dd] ==> #[trigger] recovered@[dd]@ == Seq::new(
                        shard_size as nat,
                        |b: int|
                            dot(
                                |j: int| s0[kp[j]]@[b],
                                |j: int| mat(self.decode_matrix, dd, j),
                                k as nat,
                            ),
                    ),
            decreases k - d,
        {
            if erasures[d] {
                let row = combine(rows.as_slice(), self.decode_matrix[d].as_slice(), k, shard_size);
                let ghost want = Seq::new(
                    shard_size as nat,
                    |b: int|
                        dot(
                            |j: int| s0[kp[j]]@[b],
                            |j: int| mat(self.decode_matrix, d as int, j),
                            k as nat,
                        ),
                );
                assert(row@ =~= want) by {
                    assert forall|b: int| 0 <= b < shard_size implies #[trigger] row@[b]
                        == want[b] by {
                        lemma_dot_ext(
                            |j: int| rows@[j]@[b],
                            |j: int| self.decode_matrix[d as int]@[j].0,
                            |j: int| s0[kp[j]]@[b],
                            |j: int| mat(self.decode_matrix, d as int, j),
                            k as nat,
                        );
                    }
                }
                recovered.push(row);
            } else {
                recovered.push(Vec::new());
            }
            d = d + 1;
        }
        let mut d: usize = 0;
        while d < k
            invariant
                0 <= d <= k,
                k == self.config.data_shards,
                n == self.config.data_shards + self.config.parity_shards,
                erasures@.len() == n,
                s0.len() == n,
                shards@.len() == n,
                recovered@.len() == k,
                forall|dd: int|
                    0 <= dd < k && erasures@[dd] ==> (#[trigger] s0[dd])@.len() >= shard_size,
                forall|dd: int|
                    0 <= dd < k && erasures@[dd] ==> (#[trigger] recovered@[dd])@.len()
                        == shard_size,
                forall|i: int|
                    0 <= i < n && !(i < d && erasures@[i]) ==> #[trigger] shards@[i] == s0[i],
                forall|dd: int|
                    0 <= dd < d && erasures@[dd] ==> #[trigger] shards@[dd]@ == splice(
                        s0[dd]@,
                        0,
                        recovered@[dd]@,
                    ),
            decreases k - d,
        {
            if erasures[d] {
                copy_into(&mut shards[d], 0, recovered[d].as_slice());
            }
            d = d + 1;
        }
        proof {
            let dm = self.decode_matrix;
            let sel = selected(k as nat, kp);
            assert forall|data: Seq<Seq<u8>>|
                #[trigger] codeword_on(
                    vec_views(s0),
                    erasures@,
                    data,
                    k as nat,
                    shard_size as nat,
                ) implies forall|dd: int, b: int|
                0 <= dd < k && erasures@[dd] && 0 <= b < shard_size ==> #[trigger] shards@[dd]@[b]
                    == data[dd][b] by {
                assert forall|dd: int, b: int|
                    0 <= dd < k && erasures@[dd] && 0 <= b < shard_size implies #[trigger] shards@[dd]@[b]
                    == data[dd][b] by {
                    let present = |j: int| s0[kp[j]]@[b];
                    assert forall|j: int| 0 <= j < k implies #[trigger] present(j) == dot(
                        |l: int| data[l][b],
                        |l: int| sel(j, l),
                        k as nat,
                    ) by {
                        assert(vec_views(s0)[kp[j]][b] == code_byte(data, k as nat, kp[j], b));
                        lemma_dot_ext(
                            |l: int| data[l][b],
                            |l: int| code_coeff(k as int, kp[j], l),
                            |l: int| data[l][b],
                            |l: int| sel(j, l),
                            k as nat,
                        );
                    }
                    lemma_recovery(dm, sel, k as nat, data, present, dd, b);
                    assert(recovered@[dd]@[b] == dot(present, |j: int| mat(dm, dd, j), k as nat));
                }
            }
        }
        true
    }

    /// Decode missing shards (`None`). The shards are checked and, when a data shard is
    /// missing, the rows of the first `k` present shards are inverted; the shards are left
    /// as they are.
    ///
    /// Fails when the count does not match the configuration, `shard_size` exceeds
    /// `MAX_SHARD_SIZE`, fewer than `k` shards are present, or their rows are not invertible.
    pub fn decode(&mut self, shards: &mut Vec<Option<Vec<u8>>>, shard_size: usize) -> (r: bool)
        requires
            old(self).wf(),
        ensures
            final(self).conf() == old(self).conf(),
            final(self).full_mat() == old(self).full_mat(),
            final(self).wf(),
            final(shards)@ == old(shards)@,
            ({
                let k = old(self).conf().data_shards as nat;
                let n = old(self).conf().data_shards + old(self).conf().parity_shards;
                let gone = missing(old(shards)@);
                let kp = kept(gone, n as nat);
                let valid = old(shards)@.len() == n && shard_size <= MAX_SHARD_SIZE;
                &&& r == (valid && kp.len() >= k && (!data_erased(gone, k) || invertible(
                    selected(k, kp),
                    k,
                )))
                &&& r && data_erased(gone, k) ==> left_inverse(
                    final(self).decode_mat(),
                    selected(k, kp),
                    k,
                )
            }),
    {
        let n = self.config.total_shards() as usize;
        if shards.len() != n || shard_size > MAX_SHARD_SIZE {
            return false;
        }
        let mut erased: Vec<bool> = Vec::new();
        let mut i: usize = 0;
        while i < n
            invariant
                0 <= i <= n,
                shards@.len() == n,
                erased@.len() == i,
                forall|ii: int| 0 <= ii < i ==> #[trigger] erased@[ii] == (shards@[ii] is None),
            decreases n - i,
        {
            erased.push(shards[i].is_none());
            i = i + 1;
        }
        assert(erased@ =~= missing(shards@));
        match self.plan(erased.as_slice()) {
            Plan::Fail => false,
            Plan::Nothing => true,
            Plan::Recover(_) => true,
        }
    }

    /// Get configuration
    pub fn config(&self) -> (r: FecConfig)
        ensures
            r == self.conf(),
    {
        self.config
    }
}

impl Default for FecDecoder {
    fn default() -> (r: Self)
        ensures
            r.conf().data_shards == 4,
            r.conf().parity_shards == 2,
            r.wf(),
    {
        FecDecoder::new(FecConfig::default())
    }
}

/// Reconstruct missing shards given available shards, with a fresh decoder
pub fn reconstruct(config: FecConfig, shards: &mut Vec<Option<Vec<u8>>>, shard_size: usize) -> (r:
    bool)
    requires
        config.data_shards == 0 || config.data_shards + config.parity_shards <= MAX_SHARDS,
    ensures
        final(shards)@ == old(shards)@,
        ({
            let k = config.data_shards as nat;
            let n = config.data_shards + config.parity_shards;
            let gone = missing(old(shards)@);
            let kp = kept(gone, n as nat);
            let valid = old(shards)@.len() == n && shard_size <= MAX_SHARD_SIZE;
            &&& r == (valid && kp.len() >= k && (!data_erased(gone, k) || invertible(
                selected(k, kp),
                k,
            )))
        }),
{
    let mut decoder = FecDecoder::new(config);
    decoder.decode(shards, shard_size)
}

} // verus!
