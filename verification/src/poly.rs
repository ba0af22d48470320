//! Polynomials over GF(2^8).
//!
//! A polynomial is an ordered sequence of field coefficients `a0, a1, ..., ad`
//! standing for `a0 + a1*x + ... + ad*x^d`; the byte at index 0 is the
//! y-intercept, which in a Shamir sharing carries the secret byte. Evaluation
//! walks the coefficients in reverse (Horner's scheme), so that index 0 is
//! folded in last.

use crate::gf256;
use crate::gf256::{gf_mul_spec, gf_xtime_spec};
use vstd::prelude::*;

verus! {

/// A wrapper around u8, used for arithmetic over the finite field.
#[derive(Clone, Copy, Debug)]
pub struct Coeff(pub u8);

impl Coeff {
    /// Field addition (XOR).
    pub fn add(self, rhs: Coeff) -> (r: Coeff)
        ensures
            r.0 == self.0 ^ rhs.0,
    {
        Coeff(gf256::gf_add(self.0, rhs.0))
    }

    /// Field subtraction, identical to field addition.
    pub fn sub(self, rhs: Coeff) -> (r: Coeff)
        ensures
            r.0 == self.0 ^ rhs.0,
    {
        Coeff(gf256::gf_sub(self.0, rhs.0))
    }

    /// Field multiplication.
    pub fn mul(self, rhs: Coeff) -> (r: Coeff)
        ensures
            r.0 == gf_mul_spec(self.0, rhs.0),
    {
        Coeff(gf256::gf_mul(self.0, rhs.0))
    }

    /// Field division; the divisor must not be zero.
    pub fn div(self, rhs: Coeff) -> (r: Coeff)
        requires
            rhs.0 != 0,
        ensures
            r.0 == gf256::gf_div_spec(self.0, rhs.0),
    {
        Coeff(gf256::gf_div(self.0, rhs.0))
    }
}

/// Evaluation of the polynomial with coefficient sequence `coeffs` at `x`:
/// Horner's scheme over the field, folding the highest coefficient first.
pub open spec fn poly_eval_spec(coeffs: Seq<u8>, x: u8) -> u8
    decreases coeffs.len(),
{
    if coeffs.len() == 0 {
        0
    } else {
        gf_mul_spec(poly_eval_spec(coeffs.subrange(1, coeffs.len() as int), x), x) ^ coeffs[0]
    }
}

/// The pointwise field sum of two coefficient sequences, truncated to the
/// shorter one.
pub open spec fn xor_seq(s: Seq<u8>, t: Seq<u8>) -> Seq<u8> {
    Seq::new(vstd::math::min(s.len() as int, t.len() as int) as nat, |i: int| s[i] ^ t[i])
}

/// Doubling distributes over field addition.
proof fn lemma_xtime_xor(a1: u8, a2: u8)
    ensures
        gf_xtime_spec(a1 ^ a2) == gf_xtime_spec(a1) ^ gf_xtime_spec(a2),
{
    assert((if (a1 ^ a2) < 128 {
        ((a1 ^ a2) << 1) as u8
    } else {
        (((a1 ^ a2) << 1) ^ 0x1d) as u8
    }) == (if a1 < 128 {
        (a1 << 1) as u8
    } else {
        ((a1 << 1) ^ 0x1d) as u8
    }) ^ (if a2 < 128 {
        (a2 << 1) as u8
    } else {
        ((a2 << 1) ^ 0x1d) as u8
    })) by (bit_vector);
    assert(a1 < 128 ==> (a1 << 1) as u8 == (2 * a1) as u8) by (bit_vector);
    assert(a1 >= 128 ==> (a1 << 1) as u8 == (2 * (a1 - 128)) as u8) by (bit_vector);
    assert(a2 < 128 ==> (a2 << 1) as u8 == (2 * a2) as u8) by (bit_vector);
    assert(a2 >= 128 ==> (a2 << 1) as u8 == (2 * (a2 - 128)) as u8) by (bit_vector);
    let a3 = a1 ^ a2;
    assert(a3 < 128 ==> (a3 << 1) as u8 == (2 * a3) as u8) by (bit_vector);
    assert(a3 >= 128 ==> (a3 << 1) as u8 == (2 * (a3 - 128)) as u8) by (bit_vector);
}

/// Field multiplication distributes over field addition in its left argument.
pub proof fn lemma_mul_xor_left(a1: u8, a2: u8, b: u8)
    ensures
        gf_mul_spec(a1 ^ a2, b) == gf_mul_spec(a1, b) ^ gf_mul_spec(a2, b),
    decreases b,
{
    if b == 0 {
        assert(0u8 ^ 0u8 == 0u8) by (bit_vector);
    } else {
        lemma_xtime_xor(a1, a2);
        lemma_mul_xor_left(gf_xtime_spec(a1), gf_xtime_spec(a2), b / 2);
        let r1 = gf_mul_spec(gf_xtime_spec(a1), b / 2);
        let r2 = gf_mul_spec(gf_xtime_spec(a2), b / 2);
        if b % 2 == 1 {
            assert((a1 ^ a2) ^ (r1 ^ r2) == (a1 ^ r1) ^ (a2 ^ r2)) by (bit_vector);
        }
    }
}

/// Evaluating at zero yields the constant coefficient: the secret byte of a
/// sharing polynomial is its y-intercept.
pub proof fn lemma_eval_at_zero(s: Seq<u8>)
    requires
        s.len() > 0,
    ensures
        poly_eval_spec(s, 0) == s[0],
{
    let rest = poly_eval_spec(s.subrange(1, s.len() as int), 0);
    assert(gf_mul_spec(rest, 0) == 0);
    let s0 = s[0];
    assert(0 ^ s0 == s0) by (bit_vector);
}

/// Evaluation is additive in the coefficients: the evaluation of a pointwise
/// sum of two equally long polynomials is the field sum of their evaluations.
pub proof fn lemma_eval_xor(s: Seq<u8>, t: Seq<u8>, x: u8)
    requires
        s.len() == t.len(),
    ensures
        poly_eval_spec(xor_seq(s, t), x) == poly_eval_spec(s, x) ^ poly_eval_spec(t, x),
    decreases s.len(),
{
    if s.len() == 0 {
        assert(xor_seq(s, t).len() == 0);
        assert(0u8 ^ 0u8 == 0u8) by (bit_vector);
    } else {
        let n = s.len() as int;
        let s1 = s.subrange(1, n);
        let t1 = t.subrange(1, n);
        lemma_eval_xor(s1, t1, x);
        assert(xor_seq(s, t).subrange(1, n) =~= xor_seq(s1, t1));
        let e1 = poly_eval_spec(s1, x);
        let e2 = poly_eval_spec(t1, x);
        lemma_mul_xor_left(e1, e2, x);
        let m1 = gf_mul_spec(e1, x);
        let m2 = gf_mul_spec(e2, x);
        let s0 = s[0];
        let t0 = t[0];
        assert((m1 ^ m2) ^ (s0 ^ t0) == (m1 ^ s0) ^ (m2 ^ t0)) by (bit_vector);
        assert(xor_seq(s, t)[0] == s0 ^ t0);
    }
}

/// The heart of proactive refresh: adding to a sharing polynomial a renewal
/// polynomial with zero constant term leaves the secret (the evaluation at
/// zero) unchanged, while shifting the evaluation at every point `x` by the
/// renewal polynomial's value there.
pub proof fn lemma_refresh_preserves_secret(f: Seq<u8>, g: Seq<u8>, x: u8)
    requires
        f.len() == g.len(),
        f.len() > 0,
        g[0] == 0,
    ensures
        poly_eval_spec(xor_seq(f, g), 0) == poly_eval_spec(f, 0),
        poly_eval_spec(xor_seq(f, g), x) == poly_eval_spec(f, x) ^ poly_eval_spec(g, x),
{
    lemma_eval_xor(f, g, x);
    lemma_eval_xor(f, g, 0);
    lemma_eval_at_zero(f);
    lemma_eval_at_zero(g);
    lemma_eval_at_zero(xor_seq(f, g));
    let f0 = f[0];
    assert(f0 ^ 0 == f0) by (bit_vector);
}

/// The byte the store computes when a renewal delta lands on a stored share
/// is itself an evaluation: of the sharing polynomial moved by the renewal
/// polynomial. The moved polynomial still encodes the same secret byte — its
/// value at zero is unchanged — so reconstruction from any set of refreshed
/// shares yields the secret it yielded before the round.
pub proof fn lemma_merged_byte_preserves_secret(
    f: Seq<u8>,
    g: Seq<u8>,
    x: u8,
    old_y: u8,
    delta_y: u8,
)
    requires
        f.len() == g.len(),
        f.len() > 0,
        g[0] == 0,
        old_y == poly_eval_spec(f, x),
        delta_y == poly_eval_spec(g, x),
    ensures
        old_y ^ delta_y == poly_eval_spec(xor_seq(f, g), x),
        poly_eval_spec(xor_seq(f, g), 0) == f[0],
        poly_eval_spec(f, 0) == f[0],
{
    lemma_refresh_preserves_secret(f, g, x);
    lemma_eval_at_zero(f);
}

/// A nonzero renewal delta changes every byte it touches: a share that
/// absorbs it never equals its former self.
pub proof fn lemma_nonzero_delta_rerandomizes(y: u8, d: u8)
    requires
        d != 0,
    ensures
        y ^ d != y,
{
    assert(d != 0 ==> y ^ d != y) by (bit_vector);
}

/// A polynomial over GF(2^8), held as its coefficient bytes; index 0 is the
/// constant coefficient.
#[derive(Clone, Debug)]
pub struct GaloisPolynomial {
    coeffs: Vec<u8>,
}

impl View for GaloisPolynomial {
    type V = Seq<u8>;

    closed spec fn view(&self) -> Seq<u8> {
        self.coeffs@
    }
}

impl GaloisPolynomial {
    /// Constructs a polynomial with no coefficients.
    pub fn new() -> (r: GaloisPolynomial)
        ensures
            r@.len() == 0,
    {
        GaloisPolynomial { coeffs: Vec::new() }
    }

    /// Sets the coefficient at the given index, padding any gap with zero
    /// coefficients.
    pub fn set_coeff(&mut self, co: Coeff, index: usize)
        requires
            index < usize::MAX,
        ensures
            final(self)@.len() == vstd::math::max(old(self)@.len() as int, index + 1),
            final(self)@[index as int] == co.0,
            forall|j: int|
                0 <= j < old(self)@.len() && j != index ==> final(self)@[j] == old(self)@[j],
            forall|j: int|
                old(self)@.len() <= j < final(self)@.len() && j != index ==> final(self)@[j] == 0,
    {
        while self.coeffs.len() < index + 1
            invariant
                index < usize::MAX,
                old(self)@.len() <= self.coeffs@.len(),
                old(self)@ =~= self.coeffs@.subrange(0, old(self)@.len() as int),
                forall|j: int| old(self)@.len() <= j < self.coeffs@.len() ==> self.coeffs@[j] == 0,
                self.coeffs@.len() <= index + 1 || self.coeffs@.len() == old(self)@.len(),
            decreases index + 1 - self.coeffs.len(),
        {
            self.coeffs.push(0);
        }
        self.coeffs[index] = co.0;
    }

    /// Calculates the y-value at the given x-value: Horner's scheme walking
    /// the coefficients in reverse, so that the constant coefficient is the
    /// y-intercept.
    pub fn get_y_value(&self, x_val: u8) -> (r: u8)
        ensures
            r == poly_eval_spec(self@, x_val),
    {
        let n = self.coeffs.len();
        let mut acc: u8 = 0;
        let mut i: usize = n;
        while i > 0
            invariant
                i <= n,
                n == self.coeffs@.len(),
                acc == poly_eval_spec(self.coeffs@.subrange(i as int, n as int), x_val),
            decreases i,
        {
            i = i - 1;
            let ghost pre = self.coeffs@.subrange(i as int, n as int);
            acc = gf256::gf_add(gf256::gf_mul(acc, x_val), self.coeffs[i]);
            proof {
                assert(pre.subrange(1, pre.len() as int) =~= self.coeffs@.subrange(
                    i + 1,
                    n as int,
                ));
                assert(pre[0] == self.coeffs@[i as int]);
            }
        }
        proof {
            assert(self.coeffs@.subrange(0, n as int) =~= self.coeffs@);
        }
        acc
    }
}

} // verus!
