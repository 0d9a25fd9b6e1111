//! Arithmetic in the prime field of integers modulo `p`.
//!
//! Every operation takes the modulus explicitly and returns a value in the
//! canonical range `[0, p)`.

use crate::number_theory::{is_prime, lemma_fermat_inverse};
use crate::natural::{big_add, big_eq, big_lt, big_modpow, big_mul, big_rem, big_sub, Natural};
use vstd::arithmetic::div_mod::*;
use vstd::arithmetic::power::pow;
use vstd::prelude::*;

verus! {

/// Why a field operation refused its operands.
#[derive(Clone, Copy, Debug, PartialEq, Eq, Structural)]
pub enum FieldError {
    /// An operand lies outside the canonical range `[0, p)`.
    InvalidInput,
    /// The divisor is congruent to zero, so it has no inverse.
    NoInverse,
}

/// `(c + d) mod p`.
pub open spec fn field_add(c: nat, d: nat, p: nat) -> nat {
    (c + d) % p
}

/// `(c * d) mod p`.
pub open spec fn field_mul(c: nat, d: nat, p: nat) -> nat {
    (c * d) % p
}

/// `(p - c) mod p`, the additive inverse of a canonical `c`.
pub open spec fn field_neg(c: nat, p: nat) -> nat {
    ((p - c) as nat) % p
}

/// `(c - d) mod p`, taken as the non-negative residue.
pub open spec fn field_sub(c: nat, d: nat, p: nat) -> nat {
    ((c - d) % (p as int)) as nat
}

/// `c^(p-2) mod p`: the inverse of `c` by Fermat's little theorem when `p` is prime.
pub open spec fn field_inv(c: nat, p: nat) -> nat {
    (pow(c as int, (p - 2) as nat) % (p as int)) as nat
}

/// `c * d^(p-2) mod p`: the quotient `c / d` when `p` is prime.
pub open spec fn field_div(c: nat, d: nat, p: nat) -> nat {
    field_mul(c, field_inv(d, p), p)
}

/// Modular arithmetic over a caller-supplied modulus.
pub struct FiniteField {}

impl FiniteField {
    /// `(c + d) mod p`.
    pub fn add(c: &Natural, d: &Natural, p: &Natural) -> (r: Natural)
        requires
            p@ > 0,
        ensures
            r@ == field_add(c@, d@, p@),
            r@ < p@,
    {
        let s = big_add(c, d);
        big_rem(&s, p)
    }

    /// `(c * d) mod p`.
    pub fn mult(c: &Natural, d: &Natural, p: &Natural) -> (r: Natural)
        requires
            p@ > 0,
        ensures
            r@ == field_mul(c@, d@, p@),
            r@ < p@,
    {
        let s = big_mul(c, d);
        big_rem(&s, p)
    }

    /// The additive inverse `(p - c) mod p` of a canonical `c`; a `c` that is
    /// not below `p` is refused.
    pub fn inv_addition(c: &Natural, p: &Natural) -> (r: Result<Natural, FieldError>)
        ensures
            c@ >= p@ <==> r == Err::<Natural, FieldError>(FieldError::InvalidInput),
            c@ < p@ ==> r is Ok && r->Ok_0@ == field_neg(c@, p@) && r->Ok_0@ < p@,
    {
        if !big_lt(c, p) {
            return Err(FieldError::InvalidInput);
        }
        let s = big_sub(p, c);
        Ok(big_rem(&s, p))
    }

    /// `(c - d) mod p`, as `c` plus the additive inverse of `d`.
    pub fn inverse_addition(c: &Natural, d: &Natural, p: &Natural) -> (r: Natural)
        requires
            d@ < p@,
        ensures
            r@ == field_sub(c@, d@, p@),
            r@ < p@,
    {
        let d_inv = FiniteField::inv_addition(d, p).unwrap();
        let r = FiniteField::add(c, &d_inv, p);
        proof {
            lemma_add_neg_is_sub(c@, d@, p@);
        }
        r
    }

    /// `(c - d) mod p`, as `c` plus the additive inverse of `d`; correct also
    /// when `d > c`.
    pub fn subtract(c: &Natural, d: &Natural, p: &Natural) -> (r: Natural)
        requires
            d@ < p@,
        ensures
            r@ == field_sub(c@, d@, p@),
            r@ < p@,
    {
        let d_inv = FiniteField::inv_addition(d, p).unwrap();
        let r = FiniteField::add(c, &d_inv, p);
        proof {
            lemma_add_neg_is_sub(c@, d@, p@);
        }
        r
    }

    /// The multiplicative inverse `c^(p-2) mod p`; a `c` congruent to zero
    /// has none and is refused.
    pub fn inverse_multiplication(c: &Natural, p: &Natural) -> (r: Result<Natural, FieldError>)
        requires
            p@ >= 2,
        ensures
            c@ % p@ == 0 <==> r == Err::<Natural, FieldError>(FieldError::NoInverse),
            c@ % p@ != 0 ==> r is Ok && r->Ok_0@ == field_inv(c@, p@) && r->Ok_0@ < p@,
            is_prime(p@) && 0 < c@ < p@ ==> field_mul(c@, r->Ok_0@, p@) == 1,
    {
        proof {
            if is_prime(p@) && 0 < c@ < p@ {
                lemma_multiplicative_inverse(c@, p@);
                lemma_small_mod(c@, p@);
            }
        }
        let reduced = big_rem(c, p);
        let zero = Natural::from_u64(0);
        if big_eq(&reduced, &zero) {
            return Err(FieldError::NoInverse);
        }
        let two = Natural::from_u64(2);
        let exponent = big_sub(p, &two);
        let r = big_modpow(c, &exponent, p);
        proof {
            lemma_mod_bound(pow(c@ as int, exponent@), p@ as int);
        }
        Ok(r)
    }

    /// `c * d^(p-2) mod p`, the quotient `c / d`; a `d` congruent to zero is
    /// refused.
    pub fn divide(c: &Natural, d: &Natural, p: &Natural) -> (r: Result<Natural, FieldError>)
        requires
            p@ >= 2,
        ensures
            d@ % p@ == 0 <==> r == Err::<Natural, FieldError>(FieldError::NoInverse),
            d@ % p@ != 0 ==> r is Ok && r->Ok_0@ == field_div(c@, d@, p@) && r->Ok_0@ < p@,
            is_prime(p@) && 0 < d@ < p@ ==> field_mul(r->Ok_0@, d@, p@) == c@ % p@,
    {
        proof {
            if is_prime(p@) && 0 < d@ < p@ {
                lemma_division(c@, d@, p@);
                lemma_small_mod(d@, p@);
            }
        }
        match FiniteField::inverse_multiplication(d, p) {
            Ok(d_inv) => Ok(FiniteField::mult(c, &d_inv, p)),
            Err(e) => Err(e),
        }
    }
}

/// Adding the additive inverse of `d` is subtracting `d`.
proof fn lemma_add_neg_is_sub(c: nat, d: nat, p: nat)
    requires
        d < p,
    ensures
        field_add(c, field_neg(d, p), p) == field_sub(c, d, p),
{
    if d == 0 {
        lemma_mod_self_0(p as int);
    } else {
        lemma_small_mod((p - d) as nat, p);
        lemma_mod_add_multiples_vanish(c - d, p as int);
    }
}

/// A canonical element plus its additive inverse is zero.
pub proof fn lemma_additive_inverse(c: nat, p: nat)
    requires
        c < p,
    ensures
        field_add(c, field_neg(c, p), p) == 0,
{
    lemma_add_neg_is_sub(c, c, p);
    lemma_mod_self_0(p as int);
    assert(0int % (p as int) == 0) by {
        lemma_small_mod(0, p);
    }
}

/// For a prime `p`, a non-zero canonical element times its inverse is one.
pub proof fn lemma_multiplicative_inverse(c: nat, p: nat)
    requires
        is_prime(p),
        0 < c < p,
    ensures
        field_mul(c, field_inv(c, p), p) == 1,
{
    let f = pow(c as int, (p - 2) as nat);
    lemma_fermat_inverse(p, c);
    lemma_mul_mod_noop_right(c as int, f, p as int);
    lemma_mod_bound(f, p as int);
}

/// For a prime `p` and a non-zero canonical `d`, `(c / d) * d == c (mod p)`.
pub proof fn lemma_division(c: nat, d: nat, p: nat)
    requires
        is_prime(p),
        0 < d < p,
    ensures
        field_mul(field_div(c, d, p), d, p) == c % p,
{
    let (ci, di, pi) = (c as int, d as int, p as int);
    let inv = field_inv(d, p);
    let ii = inv as int;
    lemma_multiplicative_inverse(d, p);
    lemma_mul_mod_noop_left(ci * ii, di, pi);
    assert(ci * ii * di == ci * (di * ii)) by (nonlinear_arith);
    lemma_mul_mod_noop_right(ci, di * ii, pi);
}

} // verus!
