//! Arbitrary-precision natural numbers.
//!
//! A `Natural` holds its value as base-2^32 digits, least significant first,
//! and views as the `nat` those digits spell. Arithmetic on it is carried out
//! by `num_bigint::BigUint`; each call into that crate is a small wrapper
//! below whose contract states the result over the view.

use num_bigint::BigUint;
use vstd::arithmetic::power::pow;
use vstd::prelude::*;

verus! {

/// The number spelled by base-2^32 digits, least significant digit first.
pub open spec fn digits_value(d: Seq<u32>) -> nat
    decreases d.len(),
{
    if d.len() == 0 {
        0
    } else {
        d[0] as nat + 0x1_0000_0000 * digits_value(d.drop_first())
    }
}

/// A natural number of any size.
#[derive(Clone, Debug, PartialEq, Eq)]
pub struct Natural {
    digits: Vec<u32>,
}

impl View for Natural {
    type V = nat;

    closed spec fn view(&self) -> nat {
        digits_value(self.digits@)
    }
}

impl Natural {
    /// The natural number `v`.
    pub fn from_u64(v: u64) -> (r: Natural)
        ensures
            r@ == v as nat,
    {
        if v == 0 {
            Natural { digits: Vec::new() }
        } else if v <= 0xffff_ffff {
            let mut digits: Vec<u32> = Vec::new();
            digits.push(v as u32);
            proof {
                assert(digits@.drop_first() =~= Seq::<u32>::empty());
                reveal_with_fuel(digits_value, 2);
            }
            Natural { digits }
        } else {
            let lo: u64 = v & 0xffff_ffff;
            let hi: u64 = v >> 32;
            assert((v & 0xffff_ffff) + (v >> 32) * 0x1_0000_0000 == v) by (bit_vector);
            assert(v & 0xffff_ffff <= 0xffff_ffff) by (bit_vector);
            assert(v >> 32 <= 0xffff_ffff) by (bit_vector);
            let mut digits: Vec<u32> = Vec::new();
            digits.push(lo as u32);
            digits.push(hi as u32);
            proof {
                assert(digits@.drop_first().drop_first() =~= Seq::<u32>::empty());
                reveal_with_fuel(digits_value, 3);
            }
            Natural { digits }
        }
    }

    /// The number spelled by base-2^32 `digits`, least significant first.
    pub fn from_u32_digits(digits: Vec<u32>) -> (r: Natural)
        ensures
            r@ == digits_value(digits@),
    {
        normalized(digits)
    }

    /// Base-2^32 digits of this number, least significant first.
    pub fn to_u32_digits(&self) -> (r: Vec<u32>)
        ensures
            digits_value(r@) == self@,
    {
        let r = self.digits.clone();
        proof {
            assert(r@ =~= self.digits@);
        }
        r
    }

    /// A copy of this number.
    pub fn duplicate(&self) -> (r: Natural)
        ensures
            r@ == self@,
    {
        let digits = self.digits.clone();
        proof {
            assert(digits@ =~= self.digits@);
        }
        Natural { digits }
    }
}

/// Relies on `num_bigint::BigUint::new`, which reads base-2^32 digits, least
/// significant first, and `to_u32_digits`, which writes them back in the same
/// order without high zero digits: the value is kept.
#[verifier::external_body]
fn normalized(digits: Vec<u32>) -> (r: Natural)
    ensures
        r@ == digits_value(digits@),
{
    Natural { digits: BigUint::new(digits).to_u32_digits() }
}

/// Relies on `num_bigint::BigUint`'s `Add`: the exact sum.
/// `BigUint::new` and `to_u32_digits` read and write base-2^32 digits,
/// least significant first.
#[verifier::external_body]
pub(crate) fn big_add(a: &Natural, b: &Natural) -> (r: Natural)
    ensures
        r@ == a@ + b@,
{
    let s = BigUint::new(a.digits.clone()) + BigUint::new(b.digits.clone());
    Natural { digits: s.to_u32_digits() }
}

/// Relies on `num_bigint::BigUint`'s `Mul`: the exact product.
#[verifier::external_body]
pub(crate) fn big_mul(a: &Natural, b: &Natural) -> (r: Natural)
    ensures
        r@ == a@ * b@,
{
    let s = BigUint::new(a.digits.clone()) * BigUint::new(b.digits.clone());
    Natural { digits: s.to_u32_digits() }
}

/// Relies on `num_bigint::BigUint`'s `Sub`, which panics when the result
/// would be negative.
#[verifier::external_body]
pub(crate) fn big_sub(a: &Natural, b: &Natural) -> (r: Natural)
    requires
        b@ <= a@,
    ensures
        r@ == a@ - b@,
{
    let s = BigUint::new(a.digits.clone()) - BigUint::new(b.digits.clone());
    Natural { digits: s.to_u32_digits() }
}

/// Relies on `num_bigint::BigUint`'s `Rem`, which panics on a zero divisor.
#[verifier::external_body]
pub(crate) fn big_rem(a: &Natural, m: &Natural) -> (r: Natural)
    requires
        m@ > 0,
    ensures
        r@ == a@ % m@,
{
    let s = BigUint::new(a.digits.clone()) % BigUint::new(m.digits.clone());
    Natural { digits: s.to_u32_digits() }
}

/// Relies on `num_bigint::BigUint`'s `Div`, which panics on a zero divisor.
#[verifier::external_body]
pub(crate) fn big_div(a: &Natural, m: &Natural) -> (r: Natural)
    requires
        m@ > 0,
    ensures
        r@ == a@ / m@,
{
    let s = BigUint::new(a.digits.clone()) / BigUint::new(m.digits.clone());
    Natural { digits: s.to_u32_digits() }
}

/// Relies on `num_bigint::BigUint::modpow`: `(base ^ exponent) % modulus`,
/// panicking on a zero modulus.
#[verifier::external_body]
pub(crate) fn big_modpow(base: &Natural, exponent: &Natural, modulus: &Natural) -> (r: Natural)
    requires
        modulus@ > 0,
    ensures
        r@ as int == pow(base@ as int, exponent@) % (modulus@ as int),
{
    let b = BigUint::new(base.digits.clone());
    let s = b.modpow(&BigUint::new(exponent.digits.clone()), &BigUint::new(modulus.digits.clone()));
    Natural { digits: s.to_u32_digits() }
}

/// Relies on `num_bigint::BigUint`'s `PartialEq`: equality of values.
#[verifier::external_body]
pub(crate) fn big_eq(a: &Natural, b: &Natural) -> (r: bool)
    ensures
        r == (a@ == b@),
{
    BigUint::new(a.digits.clone()) == BigUint::new(b.digits.clone())
}

/// Relies on `num_bigint::BigUint`'s `PartialOrd`: `<` on values.
#[verifier::external_body]
pub(crate) fn big_lt(a: &Natural, b: &Natural) -> (r: bool)
    ensures
        r == (a@ < b@),
{
    BigUint::new(a.digits.clone()) < BigUint::new(b.digits.clone())
}

} // verus!
