//! Arithmetic in the finite field GF(2^8).
//!
//! A field element is a byte interpreted as a polynomial over GF(2), reduced
//! modulo the primitive polynomial x^8 + x^4 + x^3 + x^2 + 1. Every node of
//! the cluster must use this exact polynomial: GF(2^8) libraries built on a
//! different irreducible polynomial are not interchangeable.
//!
//! Addition and subtraction are both XOR. Multiplication is carry-less
//! multiplication followed by reduction, specified by `gf_mul_spec`. Division
//! multiplies by the inverse, which is the 254th power of the divisor.

use vstd::prelude::*;

verus! {

/// The low byte of the field's reduction polynomial x^8 + x^4 + x^3 + x^2 + 1.
pub const GF_POLY_LOW: u8 = 0x1d;

/// Multiplication by x in the field: shift left once and reduce.
pub open spec fn gf_xtime_spec(a: u8) -> u8 {
    if a < 128 {
        (2 * a) as u8
    } else {
        ((2 * (a - 128)) as u8) ^ GF_POLY_LOW
    }
}

/// Field multiplication: carry-less (russian peasant) multiplication of `a`
/// by `b`, reducing after every doubling.
pub open spec fn gf_mul_spec(a: u8, b: u8) -> u8
    decreases b,
{
    if b == 0 {
        0
    } else {
        let rest = gf_mul_spec(gf_xtime_spec(a), b / 2);
        if b % 2 == 1 {
            a ^ rest
        } else {
            rest
        }
    }
}

/// Field exponentiation by squaring.
pub open spec fn gf_pow_spec(a: u8, e: nat) -> u8
    decreases e,
{
    if e == 0 {
        1
    } else if e % 2 == 0 {
        let h = gf_pow_spec(a, e / 2);
        gf_mul_spec(h, h)
    } else {
        gf_mul_spec(a, gf_pow_spec(a, (e - 1) as nat))
    }
}

/// The multiplicative inverse: the group of units has order 255, so the
/// inverse of a nonzero element is its 254th power.
pub open spec fn gf_inv_spec(a: u8) -> u8 {
    gf_pow_spec(a, 254)
}

/// Field division: multiplication by the inverse of the divisor.
pub open spec fn gf_div_spec(a: u8, b: u8) -> u8 {
    gf_mul_spec(a, gf_inv_spec(b))
}

/// Field addition is XOR.
pub fn gf_add(a: u8, b: u8) -> (r: u8)
    ensures
        r == a ^ b,
{
    a ^ b
}

/// Field subtraction equals field addition.
pub fn gf_sub(a: u8, b: u8) -> (r: u8)
    ensures
        r == a ^ b,
{
    a ^ b
}

fn gf_xtime(a: u8) -> (r: u8)
    ensures
        r == gf_xtime_spec(a),
{
    if a < 128 {
        2 * a
    } else {
        (2 * (a - 128)) ^ GF_POLY_LOW
    }
}

/// Field multiplication.
pub fn gf_mul(a: u8, b: u8) -> (r: u8)
    ensures
        r == gf_mul_spec(a, b),
{
    let mut acc: u8 = 0;
    let mut aa = a;
    let mut bb = b;
    proof {
        let m = gf_mul_spec(a, b);
        assert(0 ^ m == m) by (bit_vector);
    }
    while bb > 0
        invariant
            gf_mul_spec(a, b) == acc ^ gf_mul_spec(aa, bb),
        decreases bb,
    {
        let ghost acc0 = acc;
        let ghost aa0 = aa;
        let ghost bb0 = bb;
        if bb % 2 == 1 {
            acc = acc ^ aa;
        }
        aa = gf_xtime(aa);
        bb = bb / 2;
        proof {
            assert(gf_mul_spec(aa0, bb0) == if bb0 % 2 == 1 {
                aa0 ^ gf_mul_spec(gf_xtime_spec(aa0), bb0 / 2)
            } else {
                gf_mul_spec(gf_xtime_spec(aa0), bb0 / 2)
            });
            let rest = gf_mul_spec(gf_xtime_spec(aa0), bb0 / 2);
            assert(acc0 ^ (aa0 ^ rest) == (acc0 ^ aa0) ^ rest) by (bit_vector);
        }
    }
    proof {
        assert(acc ^ 0 == acc) by (bit_vector);
    }
    acc
}

fn gf_pow(a: u8, e: u32) -> (r: u8)
    ensures
        r == gf_pow_spec(a, e as nat),
    decreases e,
{
    if e == 0 {
        1
    } else if e % 2 == 0 {
        let h = gf_pow(a, e / 2);
        gf_mul(h, h)
    } else {
        let rest = gf_pow(a, e - 1);
        gf_mul(a, rest)
    }
}

/// The multiplicative inverse of a nonzero field element.
pub fn gf_inv(a: u8) -> (r: u8)
    requires
        a != 0,
    ensures
        r == gf_inv_spec(a),
{
    gf_pow(a, 254)
}

/// Field division. Division by zero is a programming error, excluded here.
pub fn gf_div(a: u8, b: u8) -> (r: u8)
    requires
        b != 0,
    ensures
        r == gf_div_spec(a, b),
{
    let inv = gf_inv(b);
    gf_mul(a, inv)
}

/// Adding a field element twice takes a value back to itself: XOR is its own
/// inverse, so field subtraction coincides with field addition.
pub proof fn lemma_add_cancels(a: u8, b: u8)
    ensures
        (a ^ b) ^ b == a,
{
    assert((a ^ b) ^ b == a) by (bit_vector);
}

/// One is the multiplicative identity on the right.
pub proof fn lemma_mul_one(a: u8)
    ensures
        gf_mul_spec(a, 1) == a,
{
    assert(gf_mul_spec(a, 1) == a ^ gf_mul_spec(gf_xtime_spec(a), 0));
    assert(a ^ 0 == a) by (bit_vector);
}

} // verus!
