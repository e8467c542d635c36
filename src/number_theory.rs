//! Elementary number theory behind the test: Euclid's lemma, binomial
//! coefficients and Fermat's little theorem.

use vstd::arithmetic::div_mod::{
    lemma_add_mod_noop, lemma_fundamental_div_mod, lemma_mod_multiples_basic,
    lemma_mod_multiples_vanish, lemma_mod_pos_bound, lemma_small_mod,
};
use vstd::arithmetic::power::{lemma0_pow, lemma_pow0, lemma_pow_mod_noop, pow};
use vstd::prelude::*;

verus! {

/// `p` is prime: above 1, with no divisor strictly between 1 and `p`.
pub open spec fn is_prime(p: nat) -> bool {
    p > 1 && forall|d: nat| 1 < d < p ==> #[trigger] (p % d) != 0
}

/// Euclid's lemma: a prime that divides `a * b`, with `0 < a < p`,
/// divides `b`.
pub proof fn lemma_euclid(p: nat, a: nat, b: int)
    requires
        is_prime(p),
        0 < a < p,
        (a * b) % (p as int) == 0,
    ensures
        b % (p as int) == 0,
    decreases a,
{
    if a == 1 {
        assert(a * b == b) by (nonlinear_arith)
            requires
                a == 1,
        ;
    } else {
        let r = p % a;
        let q = p / a;
        assert(p % a != 0);
        lemma_mod_pos_bound(p as int, a as int);
        lemma_fundamental_div_mod(p as int, a as int);
        let t = (a * b) / (p as int);
        lemma_fundamental_div_mod(a * b, p as int);
        assert(r * b == (p as int) * (b - q * t)) by (nonlinear_arith)
            requires
                p == a * q + r,
                a * b == (p as int) * t + 0,
        ;
        lemma_mod_multiples_basic(b - q * t, p as int);
        assert((p as int) * (b - q * t) == (b - q * t) * (p as int)) by (nonlinear_arith);
        lemma_euclid(p, r, b);
    }
}

/// The binomial coefficient `n choose k`, by Pascal's rule.
pub open spec fn binom(n: nat, k: nat) -> nat
    decreases n,
{
    if k == 0 {
        1
    } else if n == 0 {
        0
    } else {
        binom((n - 1) as nat, (k - 1) as nat) + binom((n - 1) as nat, k)
    }
}

proof fn lemma_binom_above(n: nat, k: nat)
    requires
        k > n,
    ensures
        binom(n, k) == 0,
    decreases n,
{
    if n > 0 {
        lemma_binom_above((n - 1) as nat, (k - 1) as nat);
        lemma_binom_above((n - 1) as nat, k);
    }
}

proof fn lemma_binom_one(n: nat)
    ensures
        binom(n, 1) == n,
    decreases n,
{
    if n > 0 {
        lemma_binom_one((n - 1) as nat);
        assert(binom((n - 1) as nat, 0) == 1);
        assert(binom(n, 1) == binom((n - 1) as nat, 0) + binom((n - 1) as nat, 1));
    }
}

proof fn lemma_binom_all(n: nat)
    ensures
        binom(n, n) == 1,
    decreases n,
{
    if n > 0 {
        lemma_binom_all((n - 1) as nat);
        lemma_binom_above((n - 1) as nat, n);
    }
}

/// `k * (n choose k) == n * (n-1 choose k-1)`.
proof fn lemma_binom_absorb(n: nat, k: nat)
    requires
        n >= 1,
        k >= 1,
    ensures
        k * binom(n, k) == n * binom((n - 1) as nat, (k - 1) as nat),
    decreases n,
{
    if k == 1 {
        lemma_binom_one(n);
        assert(binom((n - 1) as nat, 0) == 1);
    } else if n == 1 {
        lemma_binom_above(1, k);
        lemma_binom_above(0, (k - 1) as nat);
        assert(binom(n, k) == 0);
        assert(binom(0, (k - 1) as nat) == 0);
        assert(k * 0 == 0);
    } else {
        let a = binom((n - 1) as nat, (k - 1) as nat);
        let b = binom((n - 1) as nat, k);
        let c = binom((n - 2) as nat, (k - 2) as nat);
        let d = binom((n - 2) as nat, (k - 1) as nat);
        lemma_binom_absorb((n - 1) as nat, k);
        lemma_binom_absorb((n - 1) as nat, (k - 1) as nat);
        assert(binom(n, k) == a + b);
        assert(a == c + d);
        assert(k * (a + b) == n * a) by (nonlinear_arith)
            requires
                k * b == (n - 1) * d,
                (k - 1) * a == (n - 1) * c,
                a == c + d,
        ;
    }
}

/// A prime divides every binomial coefficient `p choose k` with `0 < k < p`.
proof fn lemma_prime_divides_binom(p: nat, k: nat)
    requires
        is_prime(p),
        0 < k < p,
    ensures
        binom(p, k) % p == 0,
{
    lemma_binom_absorb(p, k);
    let c = binom((p - 1) as nat, (k - 1) as nat);
    lemma_mod_multiples_basic(c as int, p as int);
    assert(k * binom(p, k) == c * p) by (nonlinear_arith)
        requires
            k * binom(p, k) == p * c,
    ;
    lemma_euclid(p, k, binom(p, k) as int);
}

/// `x^e == x * x^(e-1)` for `e > 0`.
proof fn lemma_pow_unfold(x: int, e: nat)
    requires
        e > 0,
    ensures
        pow(x, e) == x * pow(x, (e - 1) as nat),
{
    reveal(pow);
}

/// The partial binomial sum `sum_{k < j} (n choose k) * x^k`.
pub open spec fn binom_sum(n: nat, x: int, j: nat) -> int
    decreases j,
{
    if j == 0 {
        0
    } else {
        binom_sum(n, x, (j - 1) as nat) + binom(n, (j - 1) as nat) * pow(x, (j - 1) as nat)
    }
}

proof fn lemma_binom_sum_pascal(n: nat, x: int, j: nat)
    ensures
        binom_sum(n + 1, x, j + 1) == binom_sum(n, x, j + 1) + x * binom_sum(n, x, j),
    decreases j,
{
    lemma_pow0(x);
    if j == 0 {
        assert(binom_sum(n + 1, x, 0) == 0);
        assert(binom_sum(n, x, 0) == 0);
        assert(x * 0 == 0);
    } else {
        let jm = (j - 1) as nat;
        lemma_binom_sum_pascal(n, x, jm);
        lemma_pow_unfold(x, j);
        let s0 = binom_sum(n, x, jm);
        let s1 = binom_sum(n, x, j);
        let xa = pow(x, jm);
        let xb = pow(x, j);
        let ca = binom(n, jm);
        let cb = binom(n, j);
        assert(binom((n + 1) as nat, j) == ca + cb);
        assert(s1 == s0 + ca * xa);
        assert(binom_sum(n + 1, x, j + 1) == binom_sum(n + 1, x, j) + (ca + cb) * xb);
        assert(binom_sum(n, x, j + 1) == s1 + cb * xb);
        assert(binom_sum(n + 1, x, j) == s1 + x * s0);
        assert(s1 + x * s0 + (ca + cb) * xb == s1 + cb * xb + x * s1)
            by (nonlinear_arith)
            requires
                s1 == s0 + ca * xa,
                xb == x * xa,
        ;
    }
}

/// The binomial theorem: `(x + 1)^n == sum_{k <= n} (n choose k) * x^k`.
proof fn lemma_binomial(n: nat, x: int)
    ensures
        pow(x + 1, n) == binom_sum(n, x, n + 1),
    decreases n,
{
    lemma_pow0(x);
    lemma_pow0(x + 1);
    if n == 0 {
        assert(binom_sum(0, x, 1) == binom_sum(0, x, 0) + binom(0, 0) * pow(x, 0));
    } else {
        let m = (n - 1) as nat;
        lemma_binomial(m, x);
        lemma_binom_sum_pascal(m, x, m + 1);
        lemma_binom_above(m, m + 1);
        lemma_pow_unfold(x + 1, n);
        let s = binom_sum(m, x, m + 1);
        assert(binom_sum(m, x, m + 2) == s + binom(m, m + 1) * pow(x, m + 1));
        assert(binom_sum(m, x, m + 2) == s);
        assert((x + 1) * s == s + x * s) by (nonlinear_arith);
    }
}

/// Modulo a prime `p`, the sum of the terms below `x^p` is 1.
proof fn lemma_binom_sum_mod_prime(p: nat, x: int, j: nat)
    requires
        is_prime(p),
        1 <= j <= p,
    ensures
        binom_sum(p, x, j) % (p as int) == 1,
    decreases j,
{
    lemma_pow0(x);
    if j == 1 {
        assert(binom_sum(p, x, 1) == binom_sum(p, x, 0) + binom(p, 0) * pow(x, 0));
        lemma_small_mod(1, p);
    } else {
        let jm = (j - 1) as nat;
        lemma_binom_sum_mod_prime(p, x, jm);
        lemma_prime_divides_binom(p, jm);
        let c = binom(p, jm);
        lemma_fundamental_div_mod(c as int, p as int);
        let t = (c as int) / (p as int);
        let prev = binom_sum(p, x, jm);
        assert(c * pow(x, jm) == (p as int) * (t * pow(x, jm))) by (nonlinear_arith)
            requires
                c == (p as int) * t + 0,
        ;
        lemma_mod_multiples_vanish(t * pow(x, jm), prev, p as int);
    }
}

/// Modulo a prime `p`: `(x + 1)^p == x^p + 1`.
proof fn lemma_frobenius_step(p: nat, x: int)
    requires
        is_prime(p),
    ensures
        pow(x + 1, p) % (p as int) == (pow(x, p) + 1) % (p as int),
{
    lemma_binomial(p, x);
    lemma_binom_sum_mod_prime(p, x, p);
    lemma_binom_all(p);
    let s = binom_sum(p, x, p);
    assert(binom_sum(p, x, p + 1) == s + binom(p, p) * pow(x, p));
    lemma_fundamental_div_mod(s, p as int);
    let t = s / (p as int);
    lemma_mod_multiples_vanish(t, pow(x, p) + 1, p as int);
}

/// Modulo a prime `p`: `x^p == x` for every natural `x`.
proof fn lemma_pow_prime_mod(p: nat, x: nat)
    requires
        is_prime(p),
    ensures
        pow(x as int, p) % (p as int) == (x as int) % (p as int),
    decreases x,
{
    if x == 0 {
        lemma0_pow(p);
    } else {
        let y = (x - 1) as nat;
        lemma_pow_prime_mod(p, y);
        lemma_frobenius_step(p, y as int);
        lemma_add_mod_noop(pow(y as int, p), 1, p as int);
        lemma_add_mod_noop(y as int, 1, p as int);
    }
}

/// Fermat's little theorem: for a prime `p` that does not divide `a`,
/// `a^(p-1) == 1 (mod p)`.
pub proof fn lemma_fermat(p: nat, a: nat)
    requires
        is_prime(p),
        a % p != 0,
    ensures
        pow(a as int, (p - 1) as nat) % (p as int) == 1,
{
    let r = a % p;
    lemma_mod_pos_bound(a as int, p as int);
    lemma_pow_prime_mod(p, r);
    lemma_small_mod(r, p);
    lemma_pow_unfold(r as int, p);
    let e = pow(r as int, (p - 1) as nat);
    lemma_fundamental_div_mod(r * e, p as int);
    let q = (r * e) / (p as int);
    assert(r * (e - 1) == q * (p as int)) by (nonlinear_arith)
        requires
            r * e == (p as int) * q + r,
    ;
    lemma_mod_multiples_basic(q, p as int);
    lemma_euclid(p, r, e - 1);
    lemma_fundamental_div_mod(e - 1, p as int);
    lemma_mod_multiples_vanish((e - 1) / (p as int), 1, p as int);
    lemma_small_mod(1, p);
    lemma_pow_mod_noop(a as int, (p - 1) as nat, p as int);
}

/// Modulo a prime, the only square roots of 1 are 1 and -1.
pub proof fn lemma_square_roots_of_one(p: nat, b: int)
    requires
        is_prime(p),
        0 <= b < p,
        (b * b) % (p as int) == 1,
    ensures
        b == 1 || b == p - 1,
{
    if b == 0 {
        assert(b * b == 0);
        lemma_small_mod(0, p);
    } else if b >= 2 {
        lemma_fundamental_div_mod(b * b, p as int);
        let q = (b * b) / (p as int);
        assert((b - 1) * (b + 1) == q * (p as int)) by (nonlinear_arith)
            requires
                b * b == (p as int) * q + 1,
        ;
        lemma_mod_multiples_basic(q, p as int);
        lemma_euclid(p, (b - 1) as nat, b + 1);
        if b + 1 < p {
            lemma_small_mod((b + 1) as nat, p);
            assert(false);
        }
        assert(b + 1 == p);
    }
}

} // verus!
