//! Galois field GF(2^8) arithmetic, modulo the primitive polynomial
//! x^8 + x^4 + x^3 + x^2 + 1 (0x11D).

use vstd::prelude::*;

verus! {

/// Multiplication by x: shift left, reducing by 0x11D when the top bit falls off.
pub open spec fn xtime(a: u8) -> u8 {
    if a & 0x80u8 != 0 {
        ((a << 1u8) ^ 0x1Du8) as u8
    } else {
        (a << 1u8) as u8
    }
}

/// Product in GF(2^8): the sum (xor) of `a * x^i` over the set bits `i` of `b`.
pub open spec fn gf_mul(a: u8, b: u8) -> u8 {
    let a1 = xtime(a);
    let a2 = xtime(a1);
    let a3 = xtime(a2);
    let a4 = xtime(a3);
    let a5 = xtime(a4);
    let a6 = xtime(a5);
    let a7 = xtime(a6);
    ((if b & 1u8 != 0 { a } else { 0u8 }) ^ (if b & 2u8 != 0 { a1 } else { 0u8 }) ^ (if b & 4u8
        != 0 {
        a2
    } else {
        0u8
    }) ^ (if b & 8u8 != 0 { a3 } else { 0u8 }) ^ (if b & 16u8 != 0 { a4 } else { 0u8 }) ^ (if b
        & 32u8 != 0 {
        a5
    } else {
        0u8
    }) ^ (if b & 64u8 != 0 { a6 } else { 0u8 }) ^ (if b & 128u8 != 0 { a7 } else { 0u8 })) as u8
}

/// Multiplicative inverse: `a^254` (so that `a * a^254 = a^255 = 1` for `a != 0`), with 0 for 0.
pub open spec fn gf_inv(a: u8) -> u8 {
    let a2 = gf_mul(a, a);
    let a4 = gf_mul(a2, a2);
    let a8 = gf_mul(a4, a4);
    let a16 = gf_mul(a8, a8);
    let a32 = gf_mul(a16, a16);
    let a64 = gf_mul(a32, a32);
    let a128 = gf_mul(a64, a64);
    gf_mul(gf_mul(gf_mul(gf_mul(gf_mul(gf_mul(a2, a4), a8), a16), a32), a64), a128)
}

/// `a^e` in GF(2^8).
pub open spec fn gf_pow(a: u8, e: nat) -> u8
    decreases e,
{
    if e == 0 {
        1
    } else {
        gf_mul(gf_pow(a, (e - 1) as nat), a)
    }
}

/// Multiplication by x, computed.
pub fn xtime_exec(a: u8) -> (r: u8)
    ensures
        r == xtime(a),
{
    if a & 0x80u8 != 0 {
        (a << 1u8) ^ 0x1Du8
    } else {
        a << 1u8
    }
}

/// Product in GF(2^8), computed.
pub fn gf_mul_exec(a: u8, b: u8) -> (r: u8)
    ensures
        r == gf_mul(a, b),
{
    let a1 = xtime_exec(a);
    let a2 = xtime_exec(a1);
    let a3 = xtime_exec(a2);
    let a4 = xtime_exec(a3);
    let a5 = xtime_exec(a4);
    let a6 = xtime_exec(a5);
    let a7 = xtime_exec(a6);
    (if b & 1u8 != 0 { a } else { 0u8 }) ^ (if b & 2u8 != 0 { a1 } else { 0u8 }) ^ (if b & 4u8
        != 0 {
        a2
    } else {
        0u8
    }) ^ (if b & 8u8 != 0 { a3 } else { 0u8 }) ^ (if b & 16u8 != 0 { a4 } else { 0u8 }) ^ (if b
        & 32u8 != 0 {
        a5
    } else {
        0u8
    }) ^ (if b & 64u8 != 0 { a6 } else { 0u8 }) ^ (if b & 128u8 != 0 { a7 } else { 0u8 })
}

/// Zero absorbs and one is neutral.
pub proof fn lemma_mul_zero_one(a: u8, b: u8)
    ensures
        gf_mul(0, b) == 0,
        gf_mul(a, 0) == 0,
        gf_mul(1, b) == b,
        gf_mul(a, 1) == a,
{
    assert(gf_mul(0, b) == 0 && gf_mul(a, 0) == 0 && gf_mul(1, b) == b && gf_mul(a, 1) == a)
        by (bit_vector);
}

/// Multiplication is commutative.
#[verifier::rlimit(100)]
pub proof fn lemma_mul_comm(a: u8, b: u8)
    ensures
        gf_mul(a, b) == gf_mul(b, a),
{
    assert(gf_mul(a, b) == gf_mul(b, a)) by (bit_vector);
}

/// Multiplication distributes over addition (xor), on either side.
pub proof fn lemma_mul_distrib(a: u8, b: u8, c: u8)
    ensures
        gf_mul(a, b ^ c) == gf_mul(a, b) ^ gf_mul(a, c),
        gf_mul(b ^ c, a) == gf_mul(b, a) ^ gf_mul(c, a),
{
    assert(gf_mul(a, b ^ c) == gf_mul(a, b) ^ gf_mul(a, c)) by (bit_vector);
    lemma_mul_comm(a, b ^ c);
    lemma_mul_comm(a, b);
    lemma_mul_comm(a, c);
}

/// Multiplying by x commutes with multiplication.
#[verifier::rlimit(100)]
pub proof fn lemma_mul_xtime(a: u8, b: u8)
    ensures
        gf_mul(a, xtime(b)) == xtime(gf_mul(a, b)),
{
    assert(gf_mul(a, xtime(b)) == xtime(gf_mul(a, b))) by (bit_vector);
}

/// Xor with 0 is the identity.
pub proof fn lemma_xor_zero(a: u8)
    ensures
        a ^ 0u8 == a,
        0u8 ^ a == a,
        a ^ a == 0u8,
{
    assert(a ^ 0u8 == a && 0u8 ^ a == a && a ^ a == 0u8) by (bit_vector);
}

/// Multiplication is associative.
pub proof fn lemma_mul_assoc(a: u8, b: u8, c: u8)
    ensures
        gf_mul(gf_mul(a, b), c) == gf_mul(a, gf_mul(b, c)),
{
    let ab = gf_mul(a, b);
    let b1 = xtime(b);
    let b2 = xtime(b1);
    let b3 = xtime(b2);
    let b4 = xtime(b3);
    let b5 = xtime(b4);
    let b6 = xtime(b5);
    let b7 = xtime(b6);
    lemma_mul_xtime(a, b);
    lemma_mul_xtime(a, b1);
    lemma_mul_xtime(a, b2);
    lemma_mul_xtime(a, b3);
    lemma_mul_xtime(a, b4);
    lemma_mul_xtime(a, b5);
    lemma_mul_xtime(a, b6);
    lemma_mul_zero_one(a, 0);
    let t0 = if c & 1u8 != 0 { b } else { 0u8 };
    let t1 = if c & 2u8 != 0 { b1 } else { 0u8 };
    let t2 = if c & 4u8 != 0 { b2 } else { 0u8 };
    let t3 = if c & 8u8 != 0 { b3 } else { 0u8 };
    let t4 = if c & 16u8 != 0 { b4 } else { 0u8 };
    let t5 = if c & 32u8 != 0 { b5 } else { 0u8 };
    let t6 = if c & 64u8 != 0 { b6 } else { 0u8 };
    let t7 = if c & 128u8 != 0 { b7 } else { 0u8 };
    assert(gf_mul(b, c) == t0 ^ t1 ^ t2 ^ t3 ^ t4 ^ t5 ^ t6 ^ t7);
    lemma_mul_distrib(a, t0 ^ t1 ^ t2 ^ t3 ^ t4 ^ t5 ^ t6, t7);
    lemma_mul_distrib(a, t0 ^ t1 ^ t2 ^ t3 ^ t4 ^ t5, t6);
    lemma_mul_distrib(a, t0 ^ t1 ^ t2 ^ t3 ^ t4, t5);
    lemma_mul_distrib(a, t0 ^ t1 ^ t2 ^ t3, t4);
    lemma_mul_distrib(a, t0 ^ t1 ^ t2, t3);
    lemma_mul_distrib(a, t0 ^ t1, t2);
    lemma_mul_distrib(a, t0, t1);
}

/// Every nonzero element times its inverse is one.
pub proof fn lemma_mul_inv(a: u8)
    requires
        a != 0,
    ensures
        gf_mul(a, gf_inv(a)) == 1,
{
    let a2 = gf_mul(a, a);
    let a4 = gf_mul(a2, a2);
    let a8 = gf_mul(a4, a4);
    let a16 = gf_mul(a8, a8);
    let a32 = gf_mul(a16, a16);
    let a64 = gf_mul(a32, a32);
    let a128 = gf_mul(a64, a64);
    let p1 = gf_mul(a2, a4);
    let p2 = gf_mul(p1, a8);
    let p3 = gf_mul(p2, a16);
    let p4 = gf_mul(p3, a32);
    let p5 = gf_mul(p4, a64);
    let p6 = gf_mul(p5, a128);
    assert(gf_mul(a, p6) == 1) by (bit_vector)
        requires
            a != 0,
            a2 == gf_mul(a, a),
            a4 == gf_mul(a2, a2),
            a8 == gf_mul(a4, a4),
            a16 == gf_mul(a8, a8),
            a32 == gf_mul(a16, a16),
            a64 == gf_mul(a32, a32),
            a128 == gf_mul(a64, a64),
            p1 == gf_mul(a2, a4),
            p2 == gf_mul(p1, a8),
            p3 == gf_mul(p2, a16),
            p4 == gf_mul(p3, a32),
            p5 == gf_mul(p4, a64),
            p6 == gf_mul(p5, a128),
    ;
}


/// GF(2^8) element
#[derive(Clone, Copy, Debug, PartialEq, Eq, Structural)]
pub struct GF256(pub u8);

impl Default for GF256 {
    fn default() -> (r: Self)
        ensures
            r == GF256(0),
    {
        GF256(0)
    }
}

impl GF256 {
    /// Create new GF(256) element
    pub fn new(val: u8) -> (r: Self)
        ensures
            r.0 == val,
    {
        GF256(val)
    }

    /// Get raw value
    pub fn value(self) -> (r: u8)
        ensures
            r == self.0,
    {
        self.0
    }

    /// Addition is xor
    pub fn add(self, other: Self) -> (r: Self)
        ensures
            r.0 == self.0 ^ other.0,
    {
        GF256(self.0 ^ other.0)
    }

    /// Subtraction is also xor
    pub fn sub(self, other: Self) -> (r: Self)
        ensures
            r.0 == self.0 ^ other.0,
    {
        GF256(self.0 ^ other.0)
    }

    /// Multiplication
    pub fn mul(self, other: Self) -> (r: Self)
        ensures
            r.0 == gf_mul(self.0, other.0),
    {
        GF256(gf_mul_exec(self.0, other.0))
    }

    /// Division: `None` when dividing by zero, else `self` times the inverse of `other`
    pub fn div(self, other: Self) -> (r: Option<Self>)
        ensures
            other.0 == 0 ==> r is None,
            other.0 != 0 ==> r == Some(GF256(gf_mul(self.0, gf_inv(other.0)))),
    {
        if other.0 == 0 {
            return None;
        }
        if self.0 == 0 {
            proof {
                lemma_mul_zero_one(0, gf_inv(other.0));
            }
            return Some(GF256(0));
        }
        Some(GF256(gf_mul_exec(self.0, inverse_exec(other.0))))
    }

    /// Multiplicative inverse: `None` for zero
    pub fn inverse(self) -> (r: Option<Self>)
        ensures
            self.0 == 0 ==> r is None,
            self.0 != 0 ==> r == Some(GF256(gf_inv(self.0))),
    {
        proof {
            lemma_mul_zero_one(1, gf_inv(self.0));
        }
        GF256(1).div(self)
    }

    /// Power `self^exp`
    pub fn pow(self, exp: u8) -> (r: Self)
        ensures
            r.0 == gf_pow(self.0, exp as nat),
    {
        let mut r: u8 = 1;
        let mut i: u8 = 0;
        while i < exp
            invariant
                0 <= i <= exp,
                r == gf_pow(self.0, i as nat),
            decreases exp - i,
        {
            r = gf_mul_exec(r, self.0);
            i = i + 1;
        }
        GF256(r)
    }
}

/// The inverse `a^254`, computed.
fn inverse_exec(a: u8) -> (r: u8)
    ensures
        r == gf_inv(a),
{
    let a2 = gf_mul_exec(a, a);
    let a4 = gf_mul_exec(a2, a2);
    let a8 = gf_mul_exec(a4, a4);
    let a16 = gf_mul_exec(a8, a8);
    let a32 = gf_mul_exec(a16, a16);
    let a64 = gf_mul_exec(a32, a32);
    let a128 = gf_mul_exec(a64, a64);
    let p1 = gf_mul_exec(a2, a4);
    let p2 = gf_mul_exec(p1, a8);
    let p3 = gf_mul_exec(p2, a16);
    let p4 = gf_mul_exec(p3, a32);
    let p5 = gf_mul_exec(p4, a64);
    gf_mul_exec(p5, a128)
}

/// Multiply every byte by `scalar` (in place)
pub fn mul_slice(data: &mut [u8], scalar: GF256)
    ensures
        final(data)@.len() == old(data)@.len(),
        forall|i: int| 0 <= i < old(data)@.len() ==> #[trigger] final(data)@[i] == gf_mul(old(data)@[i], scalar.0),
{
    let ghost d0 = data@;
    if scalar.0 == 0 {
        let mut i: usize = 0;
        while i < data.len()
            invariant
                scalar.0 == 0,
                data@.len() == d0.len(),
                0 <= i <= data@.len(),
                forall|k: int| 0 <= k < i ==> #[trigger] data@[k] == gf_mul(d0[k], scalar.0),
                forall|k: int| i <= k < data@.len() ==> #[trigger] data@[k] == d0[k],
            decreases data@.len() - i,
        {
            proof {
                lemma_mul_zero_one(d0[i as int], 0);
            }
            data[i] = 0;
            i = i + 1;
        }
        return;
    }
    if scalar.0 == 1 {
        assert forall|k: int| 0 <= k < d0.len() implies #[trigger] data@[k] == gf_mul(d0[k], scalar.0) by {
            lemma_mul_zero_one(d0[k], 1);
        }
        return;
    }
    let mut i: usize = 0;
    while i < data.len()
        invariant
            data@.len() == d0.len(),
            0 <= i <= data@.len(),
            forall|k: int| 0 <= k < i ==> #[trigger] data@[k] == gf_mul(d0[k], scalar.0),
            forall|k: int| i <= k < data@.len() ==> #[trigger] data@[k] == d0[k],
        decreases data@.len() - i,
    {
        let b = data[i];
        if b != 0 {
            data[i] = gf_mul_exec(b, scalar.0);
        } else {
            proof {
                lemma_mul_zero_one(0, scalar.0);
            }
        }
        i = i + 1;
    }
}

/// Add (xor) `src` into `dst`
pub fn add_slice(dst: &mut [u8], src: &[u8])
    requires
        old(dst)@.len() == src@.len(),
    ensures
        final(dst)@.len() == old(dst)@.len(),
        forall|i: int| 0 <= i < src@.len() ==> #[trigger] final(dst)@[i] == old(dst)@[i] ^ src@[i],
{
    let ghost d0 = dst@;
    let mut i: usize = 0;
    while i < dst.len()
        invariant
            dst@.len() == d0.len(),
            d0.len() == src@.len(),
            0 <= i <= dst@.len(),
            forall|k: int| 0 <= k < i ==> #[trigger] dst@[k] == d0[k] ^ src@[k],
            forall|k: int| i <= k < dst@.len() ==> #[trigger] dst@[k] == d0[k],
        decreases dst@.len() - i,
    {
        dst[i] = dst[i] ^ src[i];
        i = i + 1;
    }
}

/// Multiply-add: `dst = dst + src * scalar`
pub fn mul_add_slice(dst: &mut [u8], src: &[u8], scalar: GF256)
    requires
        old(dst)@.len() == src@.len(),
    ensures
        final(dst)@.len() == old(dst)@.len(),
        forall|i: int| 0 <= i < src@.len() ==> #[trigger] final(dst)@[i] == old(dst)@[i] ^ gf_mul(src@[i], scalar.0),
{
    let ghost d0 = dst@;
    if scalar.0 == 0 {
        assert forall|k: int| 0 <= k < src@.len() implies #[trigger] dst@[k] == d0[k] ^ gf_mul(src@[k], scalar.0) by {
            lemma_mul_zero_one(src@[k], 0);
            lemma_xor_zero(d0[k]);
        }
        return;
    }
    if scalar.0 == 1 {
        add_slice(dst, src);
        assert forall|k: int| 0 <= k < src@.len() implies #[trigger] dst@[k] == d0[k] ^ gf_mul(src@[k], scalar.0) by {
            lemma_mul_zero_one(src@[k], 1);
        }
        return;
    }
    let mut i: usize = 0;
    while i < dst.len()
        invariant
            dst@.len() == d0.len(),
            d0.len() == src@.len(),
            0 <= i <= dst@.len(),
            forall|k: int| 0 <= k < i ==> #[trigger] dst@[k] == d0[k] ^ gf_mul(src@[k], scalar.0),
            forall|k: int| i <= k < dst@.len() ==> #[trigger] dst@[k] == d0[k],
        decreases dst@.len() - i,
    {
        let s = src[i];
        if s != 0 {
            dst[i] = dst[i] ^ gf_mul_exec(s, scalar.0);
        } else {
            proof {
                lemma_mul_zero_one(0, scalar.0);
                lemma_xor_zero(d0[i as int]);
            }
        }
        i = i + 1;
    }
}

} // verus!
