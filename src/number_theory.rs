//! Number theory behind the Fermat inverse: Euclid's lemma, binomial
//! coefficients, the binomial theorem and Fermat's little theorem.

use vstd::arithmetic::div_mod::*;
use vstd::arithmetic::power::{lemma_pow_positive, pow};
use vstd::prelude::*;

verus! {

/// `p` is a prime: at least 2, with no divisor strictly between 1 and `p`.
pub open spec fn is_prime(p: nat) -> bool {
    p >= 2 && forall|d: nat| 1 < d < p ==> #[trigger] (p % d) != 0
}

/// Euclid's lemma: a prime that divides `a * b` and not `a` divides `b`.
pub proof fn lemma_euclid(a: nat, b: nat, p: nat)
    requires
        is_prime(p),
        0 < a < p,
        (a * b) % p == 0,
    ensures
        b % p == 0,
    decreases a,
{
    if a > 1 {
        let r = p % a;
        let q = p / a;
        assert(r != 0);
        lemma_fundamental_div_mod(p as int, a as int);
        lemma_mod_pos_bound(p as int, a as int);
        let k = (a * b) / p;
        lemma_fundamental_div_mod((a * b) as int, p as int);
        let t = b as int - q * k;
        assert(r * b == t * p) by (nonlinear_arith)
            requires
                p == a * q + r,
                a * b == p * k,
                t == b - q * k,
        ;
        lemma_mod_multiples_basic(t, p as int);
        lemma_euclid(r, b, p);
    } else {
        assert(a * b == b) by (nonlinear_arith)
            requires
                a == 1,
        ;
    }
}

/// The binomial coefficient `n choose k`, by Pascal's rule.
pub open spec fn binom(n: nat, k: nat) -> nat
    decreases n,
{
    if k == 0 {
        1
    } else if n == 0 {
        0
    } else {
        binom((n - 1) as nat, (k - 1) as nat) + binom((n - 1) as nat, k)
    }
}

proof fn lemma_binom_above(n: nat, k: nat)
    requires
        k > n,
    ensures
        binom(n, k) == 0,
    decreases n,
{
    if n > 0 {
        lemma_binom_above((n - 1) as nat, (k - 1) as nat);
        lemma_binom_above((n - 1) as nat, k);
    }
}

proof fn lemma_binom_diagonal(n: nat)
    ensures
        binom(n, n) == 1,
    decreases n,
{
    if n > 0 {
        lemma_binom_diagonal((n - 1) as nat);
        lemma_binom_above((n - 1) as nat, n);
    }
}

/// `k * (n choose k) == n * ((n - 1) choose (k - 1))`.
proof fn lemma_absorption(n: nat, k: nat)
    requires
        1 <= k <= n,
    ensures
        k * binom(n, k) == n * binom((n - 1) as nat, (k - 1) as nat),
    decreases n,
{
    if k == 1 {
        assert(binom(n, 1) == binom((n - 1) as nat, 0) + binom((n - 1) as nat, 1));
        if n > 1 {
            lemma_absorption((n - 1) as nat, 1);
            assert(1 * binom((n - 1) as nat, 1) == binom((n - 1) as nat, 1));
        } else {
            assert(binom(0, 1) == 0);
        }
        assert(1 * binom(n, 1) == binom(n, 1));
        assert(n * binom((n - 1) as nat, 0) == n);
    } else {
        let a = binom((n - 1) as nat, (k - 1) as nat);
        let b = binom((n - 1) as nat, k);
        let c = binom((n - 2) as nat, (k - 2) as nat);
        let d = binom((n - 2) as nat, (k - 1) as nat);
        assert(binom(n, k) == a + b);
        assert(a == c + d);
        lemma_absorption((n - 1) as nat, (k - 1) as nat);
        if k < n {
            lemma_absorption((n - 1) as nat, k);
        } else {
            lemma_binom_above((n - 1) as nat, k);
            lemma_binom_above((n - 2) as nat, (k - 1) as nat);
        }
        assert(k * (a + b) == n * a) by (nonlinear_arith)
            requires
                a == c + d,
                (k - 1) * a == (n - 1) * c,
                k * b == (n - 1) * d,
        ;
    }
}

/// A prime divides every binomial coefficient strictly inside its row.
proof fn lemma_prime_divides_binom(p: nat, k: nat)
    requires
        is_prime(p),
        0 < k < p,
    ensures
        binom(p, k) % p == 0,
{
    let m = binom((p - 1) as nat, (k - 1) as nat);
    lemma_absorption(p, k);
    lemma_mod_multiples_basic(m as int, p as int);
    assert((k * binom(p, k)) % p == 0) by {
        assert(k * binom(p, k) == m * p) by (nonlinear_arith)
            requires
                k * binom(p, k) == p * m,
        ;
    }
    lemma_euclid(k, binom(p, k), p);
}

/// `sum of (n choose i) * x^i for i < j`.
pub open spec fn binom_sum(n: nat, x: int, j: nat) -> int
    decreases j,
{
    if j == 0 {
        0
    } else {
        binom_sum(n, x, (j - 1) as nat) + binom(n, (j - 1) as nat) * pow(x, (j - 1) as nat)
    }
}

proof fn lemma_binom_sum_one(n: nat, x: int)
    ensures
        binom_sum(n, x, 1) == 1,
{
    reveal(pow);
    let c = binom(n, 0);
    let e = pow(x, 0);
    assert(c == 1 && e == 1);
    assert(binom_sum(n, x, 1) == binom_sum(n, x, 0) + c * e);
    assert(c * e == 1) by (nonlinear_arith)
        requires
            c == 1,
            e == 1,
    ;
}

/// Pascal's rule, summed over the first `j` terms of a row.
proof fn lemma_pascal_sum(n: nat, x: int, j: nat)
    requires
        n >= 1,
        j >= 1,
    ensures
        binom_sum(n, x, j) == binom_sum((n - 1) as nat, x, j) + x * binom_sum(
            (n - 1) as nat,
            x,
            (j - 1) as nat,
        ),
    decreases j,
{
    reveal(pow);
    let m = (n - 1) as nat;
    if j == 1 {
        assert(pow(x, 0) == 1);
        lemma_binom_sum_one(n, x);
        lemma_binom_sum_one(m, x);
        assert(x * binom_sum(m, x, 0) == 0);
    } else {
        let i = (j - 1) as nat;
        let h = (j - 2) as nat;
        lemma_pascal_sum(n, x, i);
        let s_n = binom_sum(n, x, i);
        let s_m = binom_sum(m, x, i);
        let s_m_short = binom_sum(m, x, h);
        let xi = pow(x, i);
        let xh = pow(x, h);
        assert(xi == x * xh);
        assert(binom(n, i) == binom(m, h) + binom(m, i));
        assert(s_m == s_m_short + binom(m, h) * xh);
        assert(binom_sum(n, x, j) == s_n + binom(n, i) * xi);
        assert(binom_sum(m, x, j) == s_m + binom(m, i) * xi);
        assert(s_n + binom(n, i) * xi == (s_m + binom(m, i) * xi) + x * s_m) by (nonlinear_arith)
            requires
                s_n == s_m + x * s_m_short,
                s_m == s_m_short + binom(m, h) * xh,
                xi == x * xh,
                binom(n, i) == binom(m, h) + binom(m, i),
        ;
    }
}

/// The binomial theorem: `(x + 1)^n == sum of (n choose i) * x^i for i <= n`.
proof fn lemma_binomial(n: nat, x: int)
    ensures
        pow(x + 1, n) == binom_sum(n, x, n + 1),
    decreases n,
{
    reveal(pow);
    if n == 0 {
        assert(pow(x, 0) == 1);
        lemma_binom_sum_one(0, x);
    } else {
        let m = (n - 1) as nat;
        lemma_binomial(m, x);
        lemma_pascal_sum(n, x, n + 1);
        lemma_binom_above(m, n);
        assert(binom_sum(m, x, n + 1) == binom_sum(m, x, n) + binom(m, n) * pow(x, n));
        assert(binom(m, n) * pow(x, n) == 0);
        let s = binom_sum(m, x, n);
        assert(pow(x + 1, n) == (x + 1) * pow(x + 1, m));
        assert(s + x * s == (x + 1) * s) by (nonlinear_arith);
    }
}

/// All but the first term of a prime row's partial sum vanish modulo the prime.
proof fn lemma_inner_terms(p: nat, x: int, j: nat)
    requires
        is_prime(p),
        1 <= j <= p,
    ensures
        (binom_sum(p, x, j) - 1) % (p as int) == 0,
    decreases j,
{
    reveal(pow);
    if j == 1 {
        assert(pow(x, 0) == 1);
        lemma_binom_sum_one(p, x);
        lemma_small_mod(0, p);
    } else {
        let i = (j - 1) as nat;
        lemma_inner_terms(p, x, i);
        lemma_prime_divides_binom(p, i);
        let pi = p as int;
        let u = binom_sum(p, x, i) - 1;
        lemma_fundamental_div_mod(u, pi);
        lemma_fundamental_div_mod(binom(p, i) as int, pi);
        let q_u = u / pi;
        let q_b = binom(p, i) as int / pi;
        let xi = pow(x, i);
        let t = q_u + q_b * xi;
        assert(u + binom(p, i) * xi == t * pi) by (nonlinear_arith)
            requires
                u == pi * q_u,
                binom(p, i) == pi * q_b,
                t == q_u + q_b * xi,
        ;
        lemma_mod_multiples_basic(t, pi);
    }
}

/// `(x + 1)^p == x^p + 1 (mod p)` for a prime `p`.
proof fn lemma_frobenius(p: nat, x: int)
    requires
        is_prime(p),
    ensures
        pow(x + 1, p) % (p as int) == (pow(x, p) + 1) % (p as int),
{
    let pi = p as int;
    lemma_binomial(p, x);
    lemma_inner_terms(p, x, p);
    lemma_binom_diagonal(p);
    let u = binom_sum(p, x, p) - 1;
    lemma_fundamental_div_mod(u, pi);
    assert(binom_sum(p, x, p + 1) == binom_sum(p, x, p) + binom(p, p) * pow(x, p));
    assert(pow(x + 1, p) == pi * (u / pi) + (pow(x, p) + 1));
    lemma_mod_multiples_vanish(u / pi, pow(x, p) + 1, pi);
}

/// Fermat's little theorem: `x^p == x (mod p)` for a prime `p`.
pub proof fn lemma_fermat(p: nat, x: nat)
    requires
        is_prime(p),
    ensures
        pow(x as int, p) % (p as int) == (x as int) % (p as int),
    decreases x,
{
    let pi = p as int;
    if x == 0 {
        reveal(pow);
        assert(pow(0, p) == 0 * pow(0, (p - 1) as nat));
        lemma_small_mod(0, p);
    } else {
        let w = (x - 1) as nat;
        lemma_fermat(p, w);
        lemma_frobenius(p, w as int);
        lemma_add_mod_noop(pow(w as int, p), 1, pi);
        lemma_add_mod_noop(w as int, 1, pi);
    }
}

/// `c * c^(p-2) == 1 (mod p)` for a prime `p` and `0 < c < p`.
pub proof fn lemma_fermat_inverse(p: nat, c: nat)
    requires
        is_prime(p),
        0 < c < p,
    ensures
        (c * pow(c as int, (p - 2) as nat)) % (p as int) == 1,
{
    let pi = p as int;
    let ci = c as int;
    let e = pow(ci, (p - 1) as nat);
    let f = pow(ci, (p - 2) as nat);
    assert(e == ci * f && pow(ci, p) == ci * e) by {
        reveal(pow);
    }
    lemma_pow_positive(ci, (p - 1) as nat);
    lemma_fermat(p, c);
    lemma_small_mod(c, p);
    lemma_mod_equivalence(ci * e, ci, pi);
    let g = (e - 1) as nat;
    assert(ci * e - ci == c * g) by (nonlinear_arith)
        requires
            ci == c,
            g == e - 1,
    ;
    lemma_euclid(c, g, p);
    lemma_mod_equivalence(e, 1, pi);
    lemma_small_mod(1, p);
}

} // verus!
