//! Sums of products in GF(2^8), and the facts about them that the encoder and the
//! decoder rest on.

use vstd::prelude::*;
use vstd::slice::slice_subrange;
use super::gf256::{
    GF256, gf_mul, gf_pow, lemma_mul_assoc, lemma_mul_comm, lemma_mul_distrib, lemma_mul_zero_one,
    lemma_xor_zero, mul_add_slice,
};

verus! {

/// The sum (xor) over `j < n` of `a(j) * b(j)` in GF(2^8).
pub open spec fn dot(a: spec_fn(int) -> u8, b: spec_fn(int) -> u8, n: nat) -> u8
    decreases n,
{
    if n == 0 {
        0
    } else {
        dot(a, b, (n - 1) as nat) ^ gf_mul(a(n - 1), b(n - 1))
    }
}

/// Regrouping four xored terms.
pub proof fn lemma_xor_regroup(p: u8, q: u8, r: u8, s: u8)
    ensures
        (p ^ q) ^ (r ^ s) == (p ^ r) ^ (q ^ s),
        (p ^ q) ^ r == p ^ (q ^ r),
{
    assert((p ^ q) ^ (r ^ s) == (p ^ r) ^ (q ^ s) && (p ^ q) ^ r == p ^ (q ^ r)) by (bit_vector);
}

/// Sums agree when their terms agree.
pub proof fn lemma_dot_ext(
    a: spec_fn(int) -> u8,
    b: spec_fn(int) -> u8,
    a2: spec_fn(int) -> u8,
    b2: spec_fn(int) -> u8,
    n: nat,
)
    requires
        forall|j: int| 0 <= j < n ==> #[trigger] a(j) == a2(j),
        forall|j: int| 0 <= j < n ==> #[trigger] b(j) == b2(j),
    ensures
        dot(a, b, n) == dot(a2, b2, n),
    decreases n,
{
    if n > 0 {
        lemma_dot_ext(a, b, a2, b2, (n - 1) as nat);
        assert(a(n - 1) == a2(n - 1));
        assert(b(n - 1) == b2(n - 1));
    }
}

/// The factors of every term may be exchanged.
pub proof fn lemma_dot_comm(a: spec_fn(int) -> u8, b: spec_fn(int) -> u8, n: nat)
    ensures
        dot(a, b, n) == dot(b, a, n),
    decreases n,
{
    if n > 0 {
        lemma_dot_comm(a, b, (n - 1) as nat);
        lemma_mul_comm(a(n - 1), b(n - 1));
    }
}

/// A sum whose left factors are all zero is zero.
pub proof fn lemma_dot_zero(a: spec_fn(int) -> u8, b: spec_fn(int) -> u8, n: nat)
    requires
        forall|j: int| 0 <= j < n ==> #[trigger] a(j) == 0,
    ensures
        dot(a, b, n) == 0,
    decreases n,
{
    if n > 0 {
        lemma_dot_zero(a, b, (n - 1) as nat);
        assert(a(n - 1) == 0);
        lemma_mul_zero_one(0, b(n - 1));
        lemma_xor_zero(0);
    }
}

/// Two sums with the same right factors add term by term.
pub proof fn lemma_dot_add(
    a: spec_fn(int) -> u8,
    b: spec_fn(int) -> u8,
    s: spec_fn(int) -> u8,
    c: spec_fn(int) -> u8,
    n: nat,
)
    requires
        forall|j: int| 0 <= j < n ==> #[trigger] s(j) == a(j) ^ b(j),
    ensures
        dot(a, c, n) ^ dot(b, c, n) == dot(s, c, n),
    decreases n,
{
    if n == 0 {
        lemma_xor_zero(0);
    } else {
        let m = (n - 1) as nat;
        lemma_dot_add(a, b, s, c, m);
        assert(s(m as int) == a(m as int) ^ b(m as int));
        lemma_mul_distrib(c(m as int), a(m as int), b(m as int));
        lemma_xor_regroup(
            dot(a, c, m),
            gf_mul(a(m as int), c(m as int)),
            dot(b, c, m),
            gf_mul(b(m as int), c(m as int)),
        );
    }
}

/// Scaling a sum scales the left factor of every term.
pub proof fn lemma_dot_scale(
    a: spec_fn(int) -> u8,
    s: spec_fn(int) -> u8,
    c: spec_fn(int) -> u8,
    f: u8,
    n: nat,
)
    requires
        forall|j: int| 0 <= j < n ==> #[trigger] s(j) == gf_mul(a(j), f),
    ensures
        gf_mul(dot(a, c, n), f) == dot(s, c, n),
    decreases n,
{
    if n == 0 {
        lemma_mul_zero_one(0, f);
    } else {
        let m = (n - 1) as nat;
        let x = a(m as int);
        let y = c(m as int);
        lemma_dot_scale(a, s, c, f, m);
        assert(s(m as int) == gf_mul(x, f));
        lemma_mul_distrib(f, dot(a, c, m), gf_mul(x, y));
        lemma_mul_assoc(x, y, f);
        lemma_mul_comm(y, f);
        lemma_mul_assoc(x, f, y);
    }
}

/// A unit vector on the left picks one right factor.
pub proof fn lemma_dot_unit(e: spec_fn(int) -> u8, c: spec_fn(int) -> u8, r: int, n: nat)
    requires
        0 <= r < n,
        forall|j: int| 0 <= j < n ==> #[trigger] e(j) == (if j == r { 1u8 } else { 0u8 }),
    ensures
        dot(e, c, n) == c(r),
    decreases n,
{
    let m = (n - 1) as nat;
    lemma_mul_zero_one(1, c(m as int));
    lemma_mul_zero_one(0, c(m as int));
    assert(e(m as int) == (if m == r { 1u8 } else { 0u8 }));
    if m == r {
        assert forall|j: int| 0 <= j < m implies #[trigger] e(j) == 0 by {
            assert(e(j) == (if j == r { 1u8 } else { 0u8 }));
        }
        lemma_dot_zero(e, c, m);
        lemma_xor_zero(c(r));
    } else {
        lemma_dot_unit(e, c, r, m);
        lemma_xor_zero(c(r));
    }
}

/// Exchanging the order of a double sum:
/// `sum_j (sum_l x(l) * s(j, l)) * m(j) == sum_l x(l) * (sum_j m(j) * s(j, l))`.
pub proof fn lemma_dot_swap(
    x: spec_fn(int) -> u8,
    m: spec_fn(int) -> u8,
    s: spec_fn(int, int) -> u8,
    kj: nat,
    kl: nat,
)
    ensures
        dot(|j: int| dot(x, |l: int| s(j, l), kl), m, kj) == dot(
            x,
            |l: int| dot(m, |j: int| s(j, l), kj),
            kl,
        ),
    decreases kj,
{
    let inner = |j: int| dot(x, |l: int| s(j, l), kl);
    let col = |l: int| dot(m, |j: int| s(j, l), kj);
    if kj == 0 {
        assert forall|l: int| 0 <= l < kl implies #[trigger] col(l) == 0 by {}
        lemma_dot_comm(x, col, kl);
        lemma_dot_zero(col, x, kl);
    } else {
        let p = (kj - 1) as nat;
        let colp = |l: int| dot(m, |j: int| s(j, l), p);
        let t = |l: int| gf_mul(m(p as int), s(p as int, l));
        let row = |l: int| s(p as int, l);
        lemma_dot_swap(x, m, s, p, kl);
        // col = colp + t, term by term
        assert forall|l: int| 0 <= l < kl implies #[trigger] col(l) == colp(l) ^ t(l) by {}
        lemma_dot_comm(x, col, kl);
        lemma_dot_add(colp, t, col, x, kl);
        lemma_dot_comm(colp, x, kl);
        lemma_dot_comm(t, x, kl);
        // sum_l x(l) * (m(p) * s(p, l)) == (sum_l x(l) * s(p, l)) * m(p)
        let u = |l: int| gf_mul(x(l), m(p as int));
        assert forall|l: int| 0 <= l < kl implies #[trigger] gf_mul(x(l), t(l)) == gf_mul(
            u(l),
            row(l),
        ) by {
            lemma_mul_assoc(x(l), m(p as int), s(p as int, l));
        }
        lemma_dot_scale(x, u, row, m(p as int), kl);
        lemma_dot_times_eq(x, t, u, row, kl);
        assert(inner(p as int) == dot(x, row, kl)) by {
            lemma_dot_ext(x, |l: int| s(p as int, l), x, row, kl);
        }
    }
}

/// Sums agree when every pair of terms has the same product.
pub proof fn lemma_dot_times_eq(
    a: spec_fn(int) -> u8,
    b: spec_fn(int) -> u8,
    a2: spec_fn(int) -> u8,
    b2: spec_fn(int) -> u8,
    n: nat,
)
    requires
        forall|j: int| 0 <= j < n ==> #[trigger] gf_mul(a(j), b(j)) == gf_mul(a2(j), b2(j)),
    ensures
        dot(a, b, n) == dot(a2, b2, n),
    decreases n,
{
    if n > 0 {
        lemma_dot_times_eq(a, b, a2, b2, (n - 1) as nat);
        assert(gf_mul(a(n - 1), b(n - 1)) == gf_mul(a2(n - 1), b2(n - 1)));
    }
}

/// A sum whose terms all vanish is zero.
pub proof fn lemma_dot_zero_terms(a: spec_fn(int) -> u8, b: spec_fn(int) -> u8, n: nat)
    requires
        forall|j: int| 0 <= j < n ==> #[trigger] gf_mul(a(j), b(j)) == 0,
    ensures
        dot(a, b, n) == 0,
    decreases n,
{
    if n > 0 {
        lemma_dot_zero_terms(a, b, (n - 1) as nat);
        assert(gf_mul(a(n - 1), b(n - 1)) == 0);
        lemma_xor_zero(0);
    }
}

/// A sum whose terms vanish outside `x` is the term at `x`.
pub proof fn lemma_dot_one(a: spec_fn(int) -> u8, b: spec_fn(int) -> u8, n: nat, x: int)
    requires
        0 <= x < n,
        forall|j: int| 0 <= j < n && j != x ==> #[trigger] gf_mul(a(j), b(j)) == 0,
    ensures
        dot(a, b, n) == gf_mul(a(x), b(x)),
    decreases n,
{
    let m = (n - 1) as nat;
    if m == x {
        lemma_dot_zero_terms(a, b, m);
        lemma_xor_zero(gf_mul(a(x), b(x)));
    } else {
        lemma_dot_one(a, b, m, x);
        assert(gf_mul(a(m as int), b(m as int)) == 0);
        lemma_xor_zero(gf_mul(a(x), b(x)));
    }
}

/// A sum whose terms vanish outside `x` and `y` is the sum of those two terms.
pub proof fn lemma_dot_two(a: spec_fn(int) -> u8, b: spec_fn(int) -> u8, n: nat, x: int, y: int)
    requires
        0 <= x < n,
        0 <= y < n,
        x != y,
        forall|j: int| 0 <= j < n && j != x && j != y ==> #[trigger] gf_mul(a(j), b(j)) == 0,
    ensures
        dot(a, b, n) == gf_mul(a(x), b(x)) ^ gf_mul(a(y), b(y)),
    decreases n,
{
    let m = (n - 1) as nat;
    let tx = gf_mul(a(x), b(x));
    let ty = gf_mul(a(y), b(y));
    if m == x {
        lemma_dot_one(a, b, m, y);
        assert(ty ^ tx == tx ^ ty) by (bit_vector);
    } else if m == y {
        lemma_dot_one(a, b, m, x);
    } else {
        lemma_dot_two(a, b, m, x, y);
        assert(gf_mul(a(m as int), b(m as int)) == 0);
        lemma_xor_zero(tx ^ ty);
    }
}

/// Two sums differ by the sum of the differences of their terms.
proof fn lemma_dot_xor_terms(
    a: spec_fn(int) -> u8,
    b: spec_fn(int) -> u8,
    a2: spec_fn(int) -> u8,
    b2: spec_fn(int) -> u8,
    c: spec_fn(int) -> u8,
    one: spec_fn(int) -> u8,
    n: nat,
)
    requires
        forall|j: int| 0 <= j < n ==> #[trigger] c(j) == gf_mul(a(j), b(j)) ^ gf_mul(a2(j), b2(j)),
        forall|j: int| 0 <= j < n ==> #[trigger] one(j) == 1,
    ensures
        dot(a, b, n) ^ dot(a2, b2, n) == dot(c, one, n),
    decreases n,
{
    if n == 0 {
        lemma_xor_zero(0);
    } else {
        let m = (n - 1) as nat;
        lemma_dot_xor_terms(a, b, a2, b2, c, one, m);
        assert(c(m as int) == gf_mul(a(m as int), b(m as int)) ^ gf_mul(a2(m as int), b2(m as int)));
        assert(one(m as int) == 1);
        lemma_mul_zero_one(c(m as int), 1);
        lemma_xor_regroup(
            dot(a, b, m),
            gf_mul(a(m as int), b(m as int)),
            dot(a2, b2, m),
            gf_mul(a2(m as int), b2(m as int)),
        );
    }
}

/// Sums agree when only the terms at `x` and `y` differ and those two add up alike.
pub proof fn lemma_dot_pair(
    a: spec_fn(int) -> u8,
    b: spec_fn(int) -> u8,
    a2: spec_fn(int) -> u8,
    b2: spec_fn(int) -> u8,
    n: nat,
    x: int,
    y: int,
)
    requires
        0 <= x < n,
        0 <= y < n,
        x != y,
        forall|j: int|
            0 <= j < n && j != x && j != y ==> #[trigger] gf_mul(a(j), b(j)) == gf_mul(a2(j), b2(j)),
        gf_mul(a(x), b(x)) ^ gf_mul(a(y), b(y)) == gf_mul(a2(x), b2(x)) ^ gf_mul(a2(y), b2(y)),
    ensures
        dot(a, b, n) == dot(a2, b2, n),
{
    let c = |j: int| gf_mul(a(j), b(j)) ^ gf_mul(a2(j), b2(j));
    let one = |j: int| 1u8;
    lemma_dot_xor_terms(a, b, a2, b2, c, one, n);
    assert forall|j: int| 0 <= j < n && j != x && j != y implies #[trigger] gf_mul(c(j), one(j))
        == 0 by {
        lemma_mul_zero_one(c(j), 1);
        lemma_xor_zero(gf_mul(a(j), b(j)));
    }
    lemma_dot_two(c, one, n, x, y);
    lemma_mul_zero_one(c(x), 1);
    lemma_mul_zero_one(c(y), 1);
    let p = gf_mul(a(x), b(x));
    let q = gf_mul(a(y), b(y));
    let p2 = gf_mul(a2(x), b2(x));
    let q2 = gf_mul(a2(y), b2(y));
    let u = dot(a, b, n);
    let v = dot(a2, b2, n);
    assert(u == v) by (bit_vector)
        requires
            p ^ q == p2 ^ q2,
            u ^ v == (p ^ p2) ^ (q ^ q2),
    ;
}

/// Coefficient `j` of row `i` of the code's generator matrix with `k` data shards:
/// the identity on the data rows, and `(i + 1)^j` on the parity rows `i >= k`
/// (parity row `p` uses the base `k + p + 1`).
pub open spec fn code_coeff(k: int, i: int, j: int) -> u8 {
    if i < k {
        if i == j {
            1u8
        } else {
            0u8
        }
    } else {
        gf_pow((i + 1) as u8, j as nat)
    }
}

/// Byte `b` of shard `row` of the codeword of the data shards `data` (`k` of them).
pub open spec fn code_byte(data: Seq<Seq<u8>>, k: nat, row: int, b: int) -> u8 {
    dot(|l: int| data[l][b], |l: int| code_coeff(k as int, row, l), k)
}

/// The byte sequences behind a sequence of slices.
pub open spec fn views(s: Seq<&[u8]>) -> Seq<Seq<u8>> {
    s.map_values(|x: &[u8]| x@)
}

/// The data rows of a codeword are the data shards.
pub proof fn lemma_code_systematic(data: Seq<Seq<u8>>, k: nat, row: int, b: int)
    requires
        0 <= row < k,
    ensures
        code_byte(data, k, row, b) == data[row][b],
{
    let e = |l: int| code_coeff(k as int, row, l);
    let x = |l: int| data[l][b];
    lemma_dot_comm(x, e, k);
    lemma_dot_unit(e, x, row, k);
}

/// `n` zero bytes.
pub fn zeros(n: usize) -> (r: Vec<u8>)
    ensures
        r@.len() == n,
        forall|b: int| 0 <= b < n ==> #[trigger] r@[b] == 0,
{
    let mut v: Vec<u8> = Vec::new();
    let mut i: usize = 0;
    while i < n
        invariant
            0 <= i <= n,
            v@.len() == i,
            forall|b: int| 0 <= b < i ==> #[trigger] v@[b] == 0,
        decreases n - i,
    {
        v.push(0);
        i = i + 1;
    }
    v
}

/// The first `s` bytes of `sum_j coeffs[j] * rows[j]` over `j < n`; rows with a zero
/// coefficient are skipped.
pub fn combine(rows: &[&[u8]], coeffs: &[GF256], n: usize, s: usize) -> (r: Vec<u8>)
    requires
        n <= rows@.len(),
        n <= coeffs@.len(),
        forall|j: int| 0 <= j < n ==> (#[trigger] rows@[j])@.len() >= s,
    ensures
        r@.len() == s,
        forall|b: int|
            0 <= b < s ==> #[trigger] r@[b] == dot(
                |j: int| rows@[j]@[b],
                |j: int| coeffs@[j].0,
                n as nat,
            ),
{
    let mut acc = zeros(s);
    let mut j: usize = 0;
    while j < n
        invariant
            n <= rows@.len(),
            n <= coeffs@.len(),
            forall|jj: int| 0 <= jj < n ==> (#[trigger] rows@[jj])@.len() >= s,
            0 <= j <= n,
            acc@.len() == s,
            forall|b: int|
                0 <= b < s ==> #[trigger] acc@[b] == dot(
                    |jj: int| rows@[jj]@[b],
                    |jj: int| coeffs@[jj].0,
                    j as nat,
                ),
        decreases n - j,
    {
        let c = coeffs[j];
        let row: &[u8] = rows[j];
        assert(rows@[j as int]@.len() >= s);
        let src = slice_subrange(row, 0, s);
        let ghost a0 = acc@;
        if c.0 != 0 {
            mul_add_slice(acc.as_mut_slice(), src, c);
        } else {
            assert forall|b: int| 0 <= b < s implies acc@[b] == a0[b] ^ gf_mul(src@[b], c.0) by {
                lemma_mul_zero_one(src@[b], 0);
                lemma_xor_zero(a0[b]);
            }
        }
        assert forall|b: int|
            0 <= b < s implies #[trigger] acc@[b] == dot(
                |jj: int| rows@[jj]@[b],
                |jj: int| coeffs@[jj].0,
                (j + 1) as nat,
            ) by {
            assert(src@[b] == rows@[j as int]@[b]);
        }
        j = j + 1;
    }
    acc
}

} // verus!
