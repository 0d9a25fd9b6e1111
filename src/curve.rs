//! The group of points of a short-Weierstrass curve `y^2 = x^3 + a*x + b`
//! over the integers modulo `p`.
//!
//! The group law is stated over the view of a point: `None` for the point at
//! infinity, `Some((x, y))` for an affine point. Every coordinate that the
//! group law computes goes through the field operations, so results stay in
//! the canonical range `[0, p)`.

use crate::closure::{lemma_add_on_curve, lemma_double_on_curve, lemma_scalar_on_curve};
use crate::field::{field_add, field_div, field_mul, field_neg, field_sub, FiniteField};
use crate::natural::{big_div, big_eq, big_modpow, big_rem, Natural};
use crate::number_theory::is_prime;
use vstd::arithmetic::div_mod::*;
use vstd::arithmetic::power::{lemma_square_is_pow2, pow};
use vstd::prelude::*;

verus! {

/// A point of the curve: an affine point or the point at infinity.
#[derive(Clone, Debug, PartialEq, Eq)]
pub enum Point {
    Coordinate(Natural, Natural),
    Identity,
}

impl View for Point {
    type V = Option<(nat, nat)>;

    open spec fn view(&self) -> Option<(nat, nat)> {
        match self {
            Point::Coordinate(x, y) => Some((x@, y@)),
            Point::Identity => None,
        }
    }
}

impl Point {
    /// The affine point `(x, y)`.
    pub fn coordinate(x: Natural, y: Natural) -> (r: Point)
        ensures
            r@ == Some((x@, y@)),
    {
        Point::Coordinate(x, y)
    }

    /// The point at infinity.
    pub fn identity() -> (r: Point)
        ensures
            r@ == None::<(nat, nat)>,
    {
        Point::Identity
    }

    /// A copy of this point.
    pub fn duplicate(&self) -> (r: Point)
        ensures
            r@ == self@,
    {
        match self {
            Point::Coordinate(x, y) => Point::Coordinate(x.duplicate(), y.duplicate()),
            Point::Identity => Point::Identity,
        }
    }
}

/// Both coordinates of an affine point lie in `[0, p)`.
pub open spec fn reduced(q: Option<(nat, nat)>, p: nat) -> bool {
    match q {
        Some((x, y)) => x < p && y < p,
        None => true,
    }
}

/// `q` satisfies `y^2 = x^3 + a*x + b (mod p)`; the point at infinity always does.
pub open spec fn on_curve(q: Option<(nat, nat)>, a: nat, b: nat, p: nat) -> bool {
    match q {
        Some((x, y)) => (y * y) % p == (x * x * x + a * x + b) % p,
        None => true,
    }
}

/// The tangent rule: `2q`.
pub open spec fn double_spec(q: Option<(nat, nat)>, a: nat, p: nat) -> Option<(nat, nat)> {
    match q {
        Some((x, y)) => {
            let two_y = field_add(y, y, p);
            if two_y == 0 {
                None
            } else {
                let slope = field_div(field_add(field_mul(3, field_mul(x, x, p), p), a, p), two_y, p);
                let x3 = field_sub(field_sub(field_mul(slope, slope, p), x, p), x, p);
                let y3 = field_sub(field_mul(slope, field_sub(x, x3, p), p), y, p);
                Some((x3, y3))
            }
        },
        None => None,
    }
}

/// The chord rule: `q + s`.
pub open spec fn add_spec(q: Option<(nat, nat)>, s: Option<(nat, nat)>, a: nat, p: nat) -> Option<
    (nat, nat),
> {
    match (q, s) {
        (None, _) => s,
        (_, None) => q,
        (Some((x1, y1)), Some((x2, y2))) => {
            if x1 == x2 {
                if y1 == y2 {
                    double_spec(q, a, p)
                } else {
                    None
                }
            } else {
                let slope = field_div(field_sub(y2, y1, p), field_sub(x2, x1, p), p);
                let x3 = field_sub(field_sub(field_mul(slope, slope, p), x1, p), x2, p);
                let y3 = field_sub(field_mul(slope, field_sub(x1, x3, p), p), y1, p);
                Some((x3, y3))
            }
        },
    }
}

/// Double-and-add from accumulator `acc` and addend `m` over the bits of `n`,
/// lowest first: where the bit is set, `m` is added into `acc`; `m` is
/// doubled at every step.
pub open spec fn double_and_add(
    acc: Option<(nat, nat)>,
    m: Option<(nat, nat)>,
    n: nat,
    a: nat,
    p: nat,
) -> Option<(nat, nat)>
    decreases n,
{
    if n == 0 {
        acc
    } else {
        let next = if n % 2 == 1 {
            add_spec(acc, m, a, p)
        } else {
            acc
        };
        double_and_add(next, double_spec(m, a, p), n / 2, a, p)
    }
}

/// `n * q`, by double-and-add.
pub open spec fn scalar_spec(q: Option<(nat, nat)>, n: nat, a: nat, p: nat) -> Option<(nat, nat)> {
    double_and_add(None, q, n, a, p)
}

/// The curve `y^2 = x^3 + a*x + b` over the integers modulo `p`.
pub struct EllipticCurve {
    pub a: Natural,
    pub b: Natural,
    pub p: Natural,
}

/// `(x2 - x1) mod p` is not zero for distinct canonical `x1`, `x2`.
pub(crate) proof fn lemma_sub_nonzero(x1: nat, x2: nat, p: nat)
    requires
        x1 < p,
        x2 < p,
        x1 != x2,
    ensures
        field_sub(x2, x1, p) != 0,
        field_sub(x2, x1, p) % p != 0,
{
    let v = x2 - x1;
    if v > 0 {
        lemma_small_mod(v as nat, p);
    } else {
        lemma_mod_add_multiples_vanish(v, p as int);
        lemma_small_mod((p + v) as nat, p);
    }
    lemma_small_mod(field_sub(x2, x1, p), p);
}

impl EllipticCurve {
    /// The curve with coefficients `a`, `b` over the integers modulo `p`.
    /// The primality of `p` is the caller's to ensure.
    pub fn new(a: Natural, b: Natural, p: Natural) -> (r: EllipticCurve)
        requires
            p@ >= 2,
        ensures
            r.wf(),
            r.a@ == a@,
            r.b@ == b@,
            r.p@ == p@,
    {
        EllipticCurve { a, b, p }
    }

    /// The modulus admits the field operations, inverses included.
    pub open spec fn wf(&self) -> bool {
        self.p@ >= 2
    }

    /// The tangent rule on a point with canonical coordinates.
    fn double_reduced(&self, c: &Point) -> (r: Point)
        requires
            self.wf(),
            reduced(c@, self.p@),
        ensures
            r@ == double_spec(c@, self.a@, self.p@),
            reduced(r@, self.p@),
    {
        match c {
            Point::Identity => Point::Identity,
            Point::Coordinate(x, y) => {
                let p = &self.p;
                let two_y = FiniteField::add(y, y, p);
                let zero = Natural::from_u64(0);
                if big_eq(&two_y, &zero) {
                    return Point::Identity;
                }
                let three = Natural::from_u64(3);
                let x_sq = FiniteField::mult(x, x, p);
                let three_x_sq = FiniteField::mult(&three, &x_sq, p);
                let numerator = FiniteField::add(&three_x_sq, &self.a, p);
                proof {
                    lemma_small_mod(two_y@, p@);
                }
                let slope = FiniteField::divide(&numerator, &two_y, p).unwrap();
                let slope_sq = FiniteField::mult(&slope, &slope, p);
                let partial = FiniteField::subtract(&slope_sq, x, p);
                let x3 = FiniteField::subtract(&partial, x, p);
                let dx = FiniteField::subtract(x, &x3, p);
                let rise = FiniteField::mult(&slope, &dx, p);
                let y3 = FiniteField::subtract(&rise, y, p);
                Point::Coordinate(x3, y3)
            },
        }
    }

    /// The chord rule on points with canonical coordinates.
    fn add_reduced(&self, c: &Point, d: &Point) -> (r: Point)
        requires
            self.wf(),
            c@ is Some && d@ is Some ==> reduced(c@, self.p@) && reduced(d@, self.p@),
        ensures
            r@ == add_spec(c@, d@, self.a@, self.p@),
            reduced(c@, self.p@) && reduced(d@, self.p@) ==> reduced(r@, self.p@),
    {
        match (c, d) {
            (Point::Identity, _) => d.duplicate(),
            (_, Point::Identity) => c.duplicate(),
            (Point::Coordinate(x1, y1), Point::Coordinate(x2, y2)) => {
                if big_eq(x1, x2) {
                    if big_eq(y1, y2) {
                        return self.double_reduced(c);
                    }
                    return Point::Identity;
                }
                let p = &self.p;
                let rise = FiniteField::subtract(y2, y1, p);
                let run = FiniteField::subtract(x2, x1, p);
                proof {
                    lemma_sub_nonzero(x1@, x2@, p@);
                }
                let slope = FiniteField::divide(&rise, &run, p).unwrap();
                let slope_sq = FiniteField::mult(&slope, &slope, p);
                let partial = FiniteField::subtract(&slope_sq, x1, p);
                let x3 = FiniteField::subtract(&partial, x2, p);
                let dx = FiniteField::subtract(x1, &x3, p);
                let scaled = FiniteField::mult(&slope, &dx, p);
                let y3 = FiniteField::subtract(&scaled, y1, p);
                Point::Coordinate(x3, y3)
            },
        }
    }

    /// Whether `q` lies on the curve; the point at infinity always does.
    pub fn is_on_curve(&self, q: &Point) -> (r: bool)
        requires
            self.wf(),
        ensures
            r == on_curve(q@, self.a@, self.b@, self.p@),
    {
        match q {
            Point::Coordinate(x, y) => {
                let p = &self.p;
                let two = Natural::from_u64(2);
                let three = Natural::from_u64(3);
                let y_sq = big_modpow(y, &two, p);
                let x_cube = big_modpow(x, &three, p);
                let ax = FiniteField::mult(&self.a, x, p);
                let partial = FiniteField::add(&x_cube, &ax, p);
                let rhs = FiniteField::add(&partial, &self.b, p);
                proof {
                    let (xv, yv, av, bv, pv) = (x@ as int, y@ as int, self.a@ as int, self.b@ as int, p@ as int);
                    lemma_square_is_pow2(yv);
                    lemma_square_is_pow2(xv);
                    assert(pow(xv, 3) == xv * pow(xv, 2)) by {
                        reveal_with_fuel(pow, 2);
                    }
                    assert(xv * (xv * xv) == xv * xv * xv) by (nonlinear_arith);
                    lemma_add_mod_noop(xv * xv * xv, av * xv, pv);
                    lemma_add_mod_noop_right(bv, xv * xv * xv + av * xv, pv);
                }
                big_eq(&y_sq, &rhs)
            },
            Point::Identity => true,
        }
    }

    /// `c + d` by the group law. Both points must lie on the curve, and two
    /// affine points must have canonical coordinates.
    pub fn add(&self, c: &Point, d: &Point) -> (r: Point)
        requires
            self.wf(),
            c@ is Some && d@ is Some ==> reduced(c@, self.p@) && reduced(d@, self.p@),
            on_curve(c@, self.a@, self.b@, self.p@),
            on_curve(d@, self.a@, self.b@, self.p@),
        ensures
            r@ == add_spec(c@, d@, self.a@, self.p@),
            reduced(c@, self.p@) && reduced(d@, self.p@) ==> reduced(r@, self.p@),
            is_prime(self.p@) ==> on_curve(r@, self.a@, self.b@, self.p@),
    {
        proof {
            if is_prime(self.p@) && c@ is Some && d@ is Some {
                lemma_add_on_curve(c@, d@, self.a@, self.b@, self.p@);
            }
        }
        self.add_reduced(c, d)
    }

    /// `2c` by the tangent rule. The point must have canonical coordinates
    /// and lie on the curve.
    pub fn double(&self, c: &Point) -> (r: Point)
        requires
            self.wf(),
            reduced(c@, self.p@),
            on_curve(c@, self.a@, self.b@, self.p@),
        ensures
            r@ == double_spec(c@, self.a@, self.p@),
            reduced(r@, self.p@),
            is_prime(self.p@) ==> on_curve(r@, self.a@, self.b@, self.p@),
    {
        proof {
            if is_prime(self.p@) {
                lemma_double_on_curve(c@, self.a@, self.b@, self.p@);
            }
        }
        self.double_reduced(c)
    }

    /// `n * c` by double-and-add over the bits of `n`, lowest first.
    pub fn scalar_mul(&self, c: &Point, n: Natural) -> (r: Point)
        requires
            self.wf(),
            reduced(c@, self.p@),
            on_curve(c@, self.a@, self.b@, self.p@),
        ensures
            r@ == scalar_spec(c@, n@, self.a@, self.p@),
            reduced(r@, self.p@),
            is_prime(self.p@) ==> on_curve(r@, self.a@, self.b@, self.p@),
    {
        proof {
            if is_prime(self.p@) {
                lemma_scalar_on_curve(c@, n@, self.a@, self.b@, self.p@);
            }
        }
        let zero = Natural::from_u64(0);
        let one = Natural::from_u64(1);
        let two = Natural::from_u64(2);
        let mut acc = Point::Identity;
        let mut addend = c.duplicate();
        let mut rest = n;
        while !big_eq(&rest, &zero)
            invariant
                self.wf(),
                zero@ == 0,
                one@ == 1,
                two@ == 2,
                reduced(acc@, self.p@),
                reduced(addend@, self.p@),
                double_and_add(acc@, addend@, rest@, self.a@, self.p@) == scalar_spec(
                    c@,
                    n@,
                    self.a@,
                    self.p@,
                ),
            decreases rest@,
        {
            let bit = big_rem(&rest, &two);
            if big_eq(&bit, &one) {
                acc = self.add_reduced(&acc, &addend);
            }
            addend = self.double_reduced(&addend);
            rest = big_div(&rest, &two);
        }
        acc
    }
}

/// The point at infinity is a two-sided identity: `q + O == q` and `O + q == q`.
pub proof fn lemma_identity_law(q: Option<(nat, nat)>, a: nat, p: nat)
    ensures
        add_spec(q, None, a, p) == q,
        add_spec(None, q, a, p) == q,
{
}

/// An affine point plus its reflection `(x, -y)` is the point at infinity.
pub proof fn lemma_inverse_point(x: nat, y: nat, a: nat, p: nat)
    requires
        y < p,
    ensures
        add_spec(Some((x, y)), Some((x, field_neg(y, p))), a, p) == None::<(nat, nat)>,
{
    if y == field_neg(y, p) {
        if y == 0 {
            lemma_small_mod(0, p);
        } else {
            lemma_small_mod((p - y) as nat, p);
            lemma_mod_self_0(p as int);
        }
        assert(field_add(y, y, p) == 0);
    }
}

/// Adding an affine point to itself is doubling it.
pub proof fn lemma_add_self_is_double(x: nat, y: nat, a: nat, p: nat)
    ensures
        add_spec(Some((x, y)), Some((x, y)), a, p) == double_spec(Some((x, y)), a, p),
{
}

/// `0 * q` is the point at infinity, `1 * q == q` and `2 * q == double(q)`.
pub proof fn lemma_scalar_small(q: Option<(nat, nat)>, a: nat, p: nat)
    ensures
        scalar_spec(q, 0, a, p) == None::<(nat, nat)>,
        scalar_spec(q, 1, a, p) == q,
        scalar_spec(q, 2, a, p) == double_spec(q, a, p),
{
    reveal_with_fuel(double_and_add, 3);
}

} // verus!
