//! Closure of the group law: over a prime modulus, doubling and adding
//! points of the curve give points of the curve, and so does every
//! scalar multiple.

use crate::curve::{lemma_sub_nonzero, add_spec, double_and_add, double_spec, on_curve, reduced, scalar_spec};
use crate::field::{
    field_add, field_div, field_inv, field_mul, field_sub, lemma_multiplicative_inverse,
};
use crate::number_theory::{is_prime, lemma_euclid};
use vstd::arithmetic::div_mod::*;
use vstd::prelude::*;

verus! {

/// `u == v (mod p)`.
spec fn cong(u: int, v: int, p: int) -> bool {
    u % p == v % p
}

proof fn lemma_cong_add(u: int, u2: int, v: int, v2: int, p: int)
    requires
        p > 0,
        cong(u, u2, p),
        cong(v, v2, p),
    ensures
        cong(u + v, u2 + v2, p),
{
    lemma_add_mod_noop(u, v, p);
    lemma_add_mod_noop(u2, v2, p);
}

proof fn lemma_cong_sub(u: int, u2: int, v: int, v2: int, p: int)
    requires
        p > 0,
        cong(u, u2, p),
        cong(v, v2, p),
    ensures
        cong(u - v, u2 - v2, p),
{
    lemma_sub_mod_noop(u, v, p);
    lemma_sub_mod_noop(u2, v2, p);
}

proof fn lemma_cong_mul(u: int, u2: int, v: int, v2: int, p: int)
    requires
        p > 0,
        cong(u, u2, p),
        cong(v, v2, p),
    ensures
        cong(u * v, u2 * v2, p),
{
    lemma_mul_mod_noop(u, v, p);
    lemma_mul_mod_noop(u2, v2, p);
}

/// Each field operation agrees with its integer operation modulo `p`.
proof fn lemma_field_ops_cong(c: nat, d: nat, p: nat)
    requires
        p > 0,
    ensures
        cong(field_add(c, d, p) as int, c as int + d as int, p as int),
        cong(field_mul(c, d, p) as int, c as int * d as int, p as int),
        cong(field_sub(c, d, p) as int, c as int - d as int, p as int),
{
    let (ci, di, pi) = (c as int, d as int, p as int);
    lemma_mod_twice(ci + di, pi);
    lemma_mod_twice(ci * di, pi);
    lemma_mod_twice(ci - di, pi);
    lemma_mod_bound(ci - di, pi);
}

/// Over a prime, `(c / d) * d == c (mod p)` for a non-zero canonical `d`.
proof fn lemma_field_div_cong(c: nat, d: nat, p: nat)
    requires
        is_prime(p),
        0 < d < p,
    ensures
        cong(field_div(c, d, p) as int * d as int, c as int, p as int),
{
    let pi = p as int;
    let inv = field_inv(d, p);
    lemma_multiplicative_inverse(d, p);
    lemma_field_ops_cong(c, inv, p);
    lemma_field_ops_cong(d, inv, p);
    let (ci, di, ii) = (c as int, d as int, inv as int);
    lemma_cong_mul(field_div(c, d, p) as int, ci * ii, di, di, pi);
    assert(ci * ii * di == ci * (di * ii)) by (nonlinear_arith);
    lemma_cong_mul(ci, ci, field_mul(d, inv, p) as int, di * ii, pi);
    lemma_cong_mul(ci, ci, field_mul(d, inv, p) as int, 1, pi);
}

/// The tangent identity: with `X = L^2 - 2x` and `Y = L(x - X) - y`,
/// `Y^2 - (X^3 + aX + b) == (L^2 - 3x)(2yL - 3x^2 - a) + (y^2 - x^3 - ax - b)`.
proof fn lemma_tangent_identity(x: int, y: int, a: int, b: int, l: int, xx: int, yy: int)
    requires
        xx == l * l - 2 * x,
        yy == l * (x - xx) - y,
    ensures
        yy * yy - (xx * xx * xx + a * xx + b) == (l * l - 3 * x) * (2 * y * l - 3 * x * x - a) + (y
            * y - x * x * x - a * x - b),
{
    let u = l * l;
    let t = x - xx;
    let x2 = x * x;
    let x3 = x2 * x;
    let t2 = t * t;
    let t3 = t2 * t;
    let xt = x * t;
    let x2t = x2 * t;
    let xt2 = x * t2;
    assert(xx * xx == x2 - 2 * xt + t2) by (nonlinear_arith)
        requires
            xx == x - t,
            x2 == x * x,
            xt == x * t,
            t2 == t * t,
    ;
    let sq = x2 - 2 * xt + t2;
    assert(xx * xx * xx == sq * xx);
    assert(sq * (x - t) == x2 * x - x2 * t - 2 * (xt * x) + 2 * (xt * t) + t2 * x - t2 * t)
        by (nonlinear_arith)
        requires
            sq == x2 - 2 * xt + t2,
    ;
    assert(xt * x == x2t) by (nonlinear_arith)
        requires
            xt == x * t,
            x2 == x * x,
            x2t == x2 * t,
    ;
    assert(xt * t == xt2) by (nonlinear_arith)
        requires
            xt == x * t,
            t2 == t * t,
            xt2 == x * t2,
    ;
    assert(t2 * x == xt2) by (nonlinear_arith)
        requires
            xt2 == x * t2,
    ;
    assert(xx * xx * xx == x3 - 3 * x2t + 3 * xt2 - t3);
    let lt = l * t;
    assert(yy * yy == u * t2 - 2 * lt * y + y * y) by (nonlinear_arith)
        requires
            yy == lt - y,
            lt == l * t,
            u == l * l,
            t2 == t * t,
    ;
    assert(t2 * (u - 3 * x + t) == 0) by (nonlinear_arith)
        requires
            u - 3 * x + t == 0,
    ;
    assert((u - 3 * x) * (2 * y * l - 3 * x * x - a) == -(2 * lt * y) + 3 * x2t + a * t)
        by (nonlinear_arith)
        requires
            u - 3 * x == -t,
            lt == l * t,
            x2t == x2 * t,
            x2 == x * x,
    ;
    assert(a * xx == a * x - a * t) by (nonlinear_arith)
        requires
            xx == x - t,
    ;
    assert(t2 * (u - 3 * x + t) == u * t2 - 3 * xt2 + t3) by (nonlinear_arith)
        requires
            xt2 == x * t2,
            t3 == t2 * t,
    ;
    assert(x * x * x == x3);
}

/// `u == v (mod p)` exactly when `p` divides `u - v`.
proof fn lemma_cong_zero(u: int, v: int, p: int)
    requires
        p > 0,
    ensures
        cong(u, v, p) <==> cong(u - v, 0, p),
{
    lemma_mod_equivalence(u, v, p);
    lemma_small_mod(0, p as nat);
}

/// Over a prime modulus, doubling a point of the curve gives a point of the curve.
pub proof fn lemma_double_on_curve(q: Option<(nat, nat)>, a: nat, b: nat, p: nat)
    requires
        is_prime(p),
        reduced(q, p),
        on_curve(q, a, b, p),
    ensures
        on_curve(double_spec(q, a, p), a, b, p),
        reduced(double_spec(q, a, p), p),
{
    if let Some((x, y)) = q {
        let two_y = field_add(y, y, p);
        if two_y != 0 {
            let pi = p as int;
            let (xi, yi, ai, bi) = (x as int, y as int, a as int, b as int);
            let x_sq = field_mul(x, x, p);
            let three_x_sq = field_mul(3, x_sq, p);
            let num = field_add(three_x_sq, a, p);
            let l = field_div(num, two_y, p);
            let li = l as int;
            let sq = field_mul(l, l, p);
            let part = field_sub(sq, x, p);
            let xx = field_sub(part, x, p);
            let dx = field_sub(x, xx, p);
            let m = field_mul(l, dx, p);
            let yy = field_sub(m, y, p);
            lemma_mod_bound(yi + yi, pi);
            lemma_field_ops_cong(y, y, p);
            lemma_field_ops_cong(x, x, p);
            lemma_field_ops_cong(3, x_sq, p);
            lemma_field_ops_cong(three_x_sq, a, p);
            lemma_field_div_cong(num, two_y, p);
            lemma_cong_mul(3, 3, x_sq as int, xi * xi, pi);
            lemma_cong_add(three_x_sq as int, 3 * (xi * xi), ai, ai, pi);
            lemma_cong_mul(li, li, two_y as int, yi + yi, pi);
            let g = 2 * yi * li - 3 * xi * xi - ai;
            assert(g == li * (yi + yi) - (3 * (xi * xi) + ai)) by (nonlinear_arith)
                requires
                    g == 2 * yi * li - 3 * xi * xi - ai,
            ;
            lemma_cong_zero(li * (yi + yi), 3 * (xi * xi) + ai, pi);
            let xp = li * li - 2 * xi;
            lemma_field_ops_cong(l, l, p);
            lemma_field_ops_cong(sq, x, p);
            lemma_field_ops_cong(part, x, p);
            lemma_cong_sub(sq as int, li * li, xi, xi, pi);
            lemma_cong_sub(part as int, li * li - xi, xi, xi, pi);
            lemma_field_ops_cong(x, xx, p);
            lemma_cong_sub(xi, xi, xx as int, xp, pi);
            lemma_field_ops_cong(l, dx, p);
            lemma_cong_mul(li, li, dx as int, xi - xp, pi);
            let yp = li * (xi - xp) - yi;
            lemma_field_ops_cong(m, y, p);
            lemma_cong_sub(m as int, li * (xi - xp), yi, yi, pi);
            lemma_cong_mul(yy as int, yp, yy as int, yp, pi);
            lemma_cong_mul(xx as int, xp, xx as int, xp, pi);
            lemma_cong_mul(xx as int * xx as int, xp * xp, xx as int, xp, pi);
            lemma_cong_mul(ai, ai, xx as int, xp, pi);
            lemma_cong_add(xx as int * xx as int * xx as int, xp * xp * xp, ai * xx as int, ai * xp, pi);
            lemma_cong_add(
                xx as int * xx as int * xx as int + ai * xx as int,
                xp * xp * xp + ai * xp,
                bi,
                bi,
                pi,
            );
            let f = yi * yi - xi * xi * xi - ai * xi - bi;
            lemma_cong_zero(yi * yi, xi * xi * xi + ai * xi + bi, pi);
            lemma_cong_mul(li * li - 3 * xi, li * li - 3 * xi, g, 0, pi);
            lemma_cong_add((li * li - 3 * xi) * g, 0, f, 0, pi);
            lemma_tangent_identity(xi, yi, ai, bi, li, xp, yp);
            lemma_cong_zero(yp * yp, xp * xp * xp + ai * xp + bi, pi);
            lemma_mod_bound(field_sub(part, x, p) as int, pi);
        }
    }
}

/// The chord identity. With `X = L^2 - x - x2`, `Y = L(x - X) - y`,
/// `t = x - X`, `d = x2 - x`, `H = Ld - (y2 - y)` and the curve equations
/// `F1`, `F2` of the two points:
/// `d * (Y^2 - (X^3 + aX + b)) == d*F1 + t*(F1 - F2 - H*(2*y2 + H))`.
proof fn lemma_chord_identity(
    x: int,
    y: int,
    x2: int,
    y2: int,
    a: int,
    b: int,
    l: int,
    xx: int,
    yy: int,
)
    requires
        xx == l * l - x - x2,
        yy == l * (x - xx) - y,
    ensures
        ({
            let t = x - xx;
            let d = x2 - x;
            let h = l * d - (y2 - y);
            let f1 = y * y - x * x * x - a * x - b;
            let f2 = y2 * y2 - x2 * x2 * x2 - a * x2 - b;
            d * (yy * yy - (xx * xx * xx + a * xx + b)) == d * f1 + t * (f1 - f2 - h * (2 * y2 + h))
        }),
{
    let t = x - xx;
    let d = x2 - x;
    let ld = l * d;
    let h = ld - (y2 - y);
    let f1 = y * y - x * x * x - a * x - b;
    let f2 = y2 * y2 - x2 * x2 * x2 - a * x2 - b;
    let e = yy * yy - (xx * xx * xx + a * xx + b);
    let k = t * d - 2 * l * y + 3 * x * x + a;
    let u = l * l;
    let x_sq = x * x;
    let x_cu = x_sq * x;
    let t2 = t * t;
    let t3 = t2 * t;
    let xt = x * t;
    let x2t = x_sq * t;
    let xt2 = x * t2;
    let lt = l * t;
    assert(xx * xx == x_sq - 2 * xt + t2) by (nonlinear_arith)
        requires
            xx == x - t,
            x_sq == x * x,
            xt == x * t,
            t2 == t * t,
    ;
    let sq = x_sq - 2 * xt + t2;
    assert(xx * xx * xx == sq * xx);
    assert(sq * (x - t) == x_sq * x - x_sq * t - 2 * (xt * x) + 2 * (xt * t) + t2 * x - t2 * t)
        by (nonlinear_arith)
        requires
            sq == x_sq - 2 * xt + t2,
    ;
    assert(xt * x == x2t) by (nonlinear_arith)
        requires
            xt == x * t,
            x_sq == x * x,
            x2t == x_sq * t,
    ;
    assert(xt * t == xt2) by (nonlinear_arith)
        requires
            xt == x * t,
            t2 == t * t,
            xt2 == x * t2,
    ;
    assert(t2 * x == xt2) by (nonlinear_arith)
        requires
            xt2 == x * t2,
    ;
    assert(yy * yy == u * t2 - 2 * lt * y + y * y) by (nonlinear_arith)
        requires
            yy == lt - y,
            lt == l * t,
            u == l * l,
            t2 == t * t,
    ;
    assert(a * xx == a * x - a * t) by (nonlinear_arith)
        requires
            xx == x - t,
    ;
    assert(t * k == t2 * d - 2 * lt * y + 3 * x2t + a * t) by (nonlinear_arith)
        requires
            k == t * d - 2 * l * y + 3 * x * x + a,
            t2 == t * t,
            lt == l * t,
            x2t == x_sq * t,
            x_sq == x * x,
    ;
    assert(t2 * (u - 3 * x + t - d) == u * t2 - 3 * xt2 + t3 - t2 * d) by (nonlinear_arith)
        requires
            xt2 == x * t2,
            t3 == t2 * t,
    ;
    assert(u - 3 * x + t - d == 0);
    assert(t2 * (u - 3 * x + t - d) == 0) by (nonlinear_arith)
        requires
            u - 3 * x + t - d == 0,
    ;
    assert(x * x * x == x_cu);
    assert(e == f1 + t * k);
    // d * k == f1 - f2 - h * (2 * y2 + h)
    let w = y2 - y;
    assert(t * d * d == (2 * x + x2) * (d * d) - ld * ld) by (nonlinear_arith)
        requires
            t == 2 * x + x2 - u,
            u == l * l,
            ld == l * d,
    ;
    assert(ld * ld == w * w + 2 * w * h + h * h) by (nonlinear_arith)
        requires
            ld == w + h,
    ;
    assert(2 * l * y * d == 2 * y * w + 2 * y * h) by (nonlinear_arith)
        requires
            ld == w + h,
            ld == l * d,
    ;
    assert(d * k == t * d * d - 2 * l * y * d + (3 * x * x + a) * d) by (nonlinear_arith)
        requires
            k == t * d - 2 * l * y + 3 * x * x + a,
    ;
    assert(x2 * x2 * x2 - x * x * x == d * (x2 * x2 + x * x2 + x * x)) by (nonlinear_arith)
        requires
            d == x2 - x,
    ;
    assert((2 * x + x2) * (d * d) + (3 * x * x + a) * d - d * (x2 * x2 + x * x2 + x * x) - a * d
        == 0) by (nonlinear_arith)
        requires
            d == x2 - x,
    ;
    assert(w * w + 2 * y * w == y2 * y2 - y * y) by (nonlinear_arith)
        requires
            w == y2 - y,
    ;
    assert(2 * w * h + h * h + 2 * y * h == h * (2 * y2 + h)) by (nonlinear_arith)
        requires
            w == y2 - y,
    ;
    assert(a * d == a * x2 - a * x) by (nonlinear_arith)
        requires
            d == x2 - x,
    ;
    assert(d * k == f1 - f2 - h * (2 * y2 + h));
    assert(d * e == d * f1 + t * (d * k)) by (nonlinear_arith)
        requires
            e == f1 + t * k,
    ;
}

/// Over a prime modulus, the chord through two points of the curve with
/// distinct `x` meets the curve again.
proof fn lemma_chord_on_curve(x1: nat, y1: nat, x2: nat, y2: nat, a: nat, b: nat, p: nat)
    requires
        is_prime(p),
        x1 < p,
        y1 < p,
        x2 < p,
        y2 < p,
        x1 != x2,
        on_curve(Some((x1, y1)), a, b, p),
        on_curve(Some((x2, y2)), a, b, p),
    ensures
        on_curve(add_spec(Some((x1, y1)), Some((x2, y2)), a, p), a, b, p),
        reduced(add_spec(Some((x1, y1)), Some((x2, y2)), a, p), p),
{
    let pi = p as int;
    let (xi, yi, x2i, y2i, ai, bi) = (x1 as int, y1 as int, x2 as int, y2 as int, a as int, b as int);
    let rise = field_sub(y2, y1, p);
    let run = field_sub(x2, x1, p);
    let l = field_div(rise, run, p);
    let li = l as int;
    let sq = field_mul(l, l, p);
    let part = field_sub(sq, x1, p);
    let xx = field_sub(part, x2, p);
    let dx = field_sub(x1, xx, p);
    let m = field_mul(l, dx, p);
    let yy = field_sub(m, y1, p);
    lemma_sub_nonzero(x1, x2, p);
    lemma_mod_bound(x2i - xi, pi);
    lemma_field_div_cong(rise, run, p);
    lemma_field_ops_cong(y2, y1, p);
    lemma_field_ops_cong(x2, x1, p);
    lemma_cong_mul(li, li, run as int, x2i - xi, pi);
    let d = x2i - xi;
    let h = li * d - (y2i - yi);
    lemma_cong_zero(li * d, y2i - yi, pi);
    let xp = li * li - xi - x2i;
    lemma_field_ops_cong(l, l, p);
    lemma_field_ops_cong(sq, x1, p);
    lemma_field_ops_cong(part, x2, p);
    lemma_cong_sub(sq as int, li * li, xi, xi, pi);
    lemma_cong_sub(part as int, li * li - xi, x2i, x2i, pi);
    lemma_field_ops_cong(x1, xx, p);
    lemma_cong_sub(xi, xi, xx as int, xp, pi);
    lemma_field_ops_cong(l, dx, p);
    lemma_cong_mul(li, li, dx as int, xi - xp, pi);
    let yp = li * (xi - xp) - yi;
    lemma_field_ops_cong(m, y1, p);
    lemma_cong_sub(m as int, li * (xi - xp), yi, yi, pi);
    lemma_cong_mul(yy as int, yp, yy as int, yp, pi);
    lemma_cong_mul(xx as int, xp, xx as int, xp, pi);
    lemma_cong_mul(xx as int * xx as int, xp * xp, xx as int, xp, pi);
    lemma_cong_mul(ai, ai, xx as int, xp, pi);
    lemma_cong_add(xx as int * xx as int * xx as int, xp * xp * xp, ai * xx as int, ai * xp, pi);
    lemma_cong_add(
        xx as int * xx as int * xx as int + ai * xx as int,
        xp * xp * xp + ai * xp,
        bi,
        bi,
        pi,
    );
    let f1 = yi * yi - xi * xi * xi - ai * xi - bi;
    let f2 = y2i * y2i - x2i * x2i * x2i - ai * x2i - bi;
    lemma_cong_zero(yi * yi, xi * xi * xi + ai * xi + bi, pi);
    lemma_cong_zero(y2i * y2i, x2i * x2i * x2i + ai * x2i + bi, pi);
    let t = xi - xp;
    let e = yp * yp - (xp * xp * xp + ai * xp + bi);
    lemma_chord_identity(xi, yi, x2i, y2i, ai, bi, li, xp, yp);
    lemma_cong_mul(d, d, f1, 0, pi);
    lemma_cong_sub(f1, 0, f2, 0, pi);
    lemma_cong_mul(h, 0, 2 * y2i + h, 2 * y2i + h, pi);
    lemma_cong_sub(f1 - f2, 0, h * (2 * y2i + h), 0 * (2 * y2i + h), pi);
    lemma_cong_mul(t, t, f1 - f2 - h * (2 * y2i + h), 0, pi);
    lemma_cong_add(d * f1, 0, t * (f1 - f2 - h * (2 * y2i + h)), 0, pi);
    lemma_small_mod(0, p);
    assert((d * e) % pi == 0);
    lemma_mul_mod_noop(d, e, pi);
    lemma_mod_bound(e, pi);
    lemma_mod_bound(d, pi);
    lemma_euclid((d % pi) as nat, (e % pi) as nat, p);
    lemma_small_mod((e % pi) as nat, p);
    lemma_cong_zero(yp * yp, xp * xp * xp + ai * xp + bi, pi);
    lemma_mod_bound(field_sub(part, x2, p) as int, pi);
}

/// Over a prime modulus, the sum of two points of the curve is a point of
/// the curve.
pub proof fn lemma_add_on_curve(q: Option<(nat, nat)>, s: Option<(nat, nat)>, a: nat, b: nat, p: nat)
    requires
        is_prime(p),
        reduced(q, p),
        reduced(s, p),
        on_curve(q, a, b, p),
        on_curve(s, a, b, p),
    ensures
        on_curve(add_spec(q, s, a, p), a, b, p),
        reduced(add_spec(q, s, a, p), p),
{
    if let (Some((x1, y1)), Some((x2, y2))) = (q, s) {
        if x1 == x2 {
            if y1 == y2 {
                lemma_double_on_curve(q, a, b, p);
            }
        } else {
            lemma_chord_on_curve(x1, y1, x2, y2, a, b, p);
        }
    }
}

proof fn lemma_double_and_add_on_curve(
    acc: Option<(nat, nat)>,
    m: Option<(nat, nat)>,
    n: nat,
    a: nat,
    b: nat,
    p: nat,
)
    requires
        is_prime(p),
        reduced(acc, p),
        reduced(m, p),
        on_curve(acc, a, b, p),
        on_curve(m, a, b, p),
    ensures
        on_curve(double_and_add(acc, m, n, a, p), a, b, p),
        reduced(double_and_add(acc, m, n, a, p), p),
    decreases n,
{
    if n > 0 {
        lemma_add_on_curve(acc, m, a, b, p);
        lemma_double_on_curve(m, a, b, p);
        let next = if n % 2 == 1 {
            add_spec(acc, m, a, p)
        } else {
            acc
        };
        lemma_double_and_add_on_curve(next, double_spec(m, a, p), n / 2, a, b, p);
    }
}

/// Over a prime modulus, every scalar multiple of a point of the curve is a
/// point of the curve.
pub proof fn lemma_scalar_on_curve(q: Option<(nat, nat)>, n: nat, a: nat, b: nat, p: nat)
    requires
        is_prime(p),
        reduced(q, p),
        on_curve(q, a, b, p),
    ensures
        on_curve(scalar_spec(q, n, a, p), a, b, p),
        reduced(scalar_spec(q, n, a, p), p),
{
    lemma_double_and_add_on_curve(None, q, n, a, b, p);
}

} // verus!
