//! The finite-field kernel against its algebraic laws and against the
//! arithmetic of the galois_2p8 field it must interoperate with.

use galois_2p8::field::{Field, PrimitivePolynomialField, PRIMITIVES};
use shared_secret_server::gf256::{gf_add, gf_div, gf_inv, gf_mul, gf_sub};
use shared_secret_server::poly::{Coeff, GaloisPolynomial};

#[test]
fn add_cancels_for_all_pairs() {
    for a in 0..=255u8 {
        for b in 0..=255u8 {
            assert_eq!(gf_add(gf_add(a, b), b), a);
            assert_eq!(gf_sub(gf_add(a, b), b), a);
        }
    }
}

#[test]
fn one_is_multiplicative_identity() {
    for a in 0..=255u8 {
        assert_eq!(gf_mul(a, 1), a);
        assert_eq!(gf_mul(1, a), a);
    }
}

#[test]
fn inverse_multiplies_to_one() {
    for a in 1..=255u8 {
        assert_eq!(gf_mul(a, gf_inv(a)), 1);
        assert_eq!(gf_div(a, a), 1);
    }
}

#[test]
fn multiplication_matches_galois_2p8() {
    let field = PrimitivePolynomialField::new(PRIMITIVES[0]).unwrap();
    for a in 0..=255u8 {
        for b in 0..=255u8 {
            assert_eq!(gf_mul(a, b), field.mult(a, b));
            assert_eq!(gf_add(a, b), field.add(a, b));
        }
    }
}

#[test]
fn division_matches_galois_2p8() {
    let field = PrimitivePolynomialField::new(PRIMITIVES[0]).unwrap();
    for a in 0..=255u8 {
        for b in 1..=255u8 {
            assert_eq!(gf_div(a, b), field.div(a, b));
        }
    }
}

#[test]
fn coeff_operations_wrap_the_field() {
    assert_eq!(Coeff(0x53).add(Coeff(0xCA)).0, 0x99);
    assert_eq!(Coeff(0x53).sub(Coeff(0xCA)).0, 0x99);
    let p = Coeff(0x53).mul(Coeff(0xCA));
    assert_eq!(Coeff(p.0).div(Coeff(0xCA)).0, 0x53);
}

#[test]
fn polynomial_evaluates_with_constant_term_at_zero() {
    let mut poly = GaloisPolynomial::new();
    poly.set_coeff(Coeff(7), 0);
    poly.set_coeff(Coeff(3), 1);
    // p(x) = 7 + 3x: at 0 the constant, at 1 their sum, at 2 7 ^ mult(3, 2)
    assert_eq!(poly.get_y_value(0), 7);
    assert_eq!(poly.get_y_value(1), 7 ^ 3);
    assert_eq!(poly.get_y_value(2), 7 ^ gf_mul(3, 2));
}

#[test]
fn polynomial_set_coeff_pads_gaps_with_zero() {
    let mut poly = GaloisPolynomial::new();
    poly.set_coeff(Coeff(5), 2);
    // p(x) = 5x^2 with zero low coefficients
    assert_eq!(poly.get_y_value(0), 0);
    assert_eq!(poly.get_y_value(1), 5);
    assert_eq!(poly.get_y_value(2), gf_mul(gf_mul(2, 2), 5));
}
