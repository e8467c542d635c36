//! The Miller-Rabin strong probable-prime test with a single witness base.

use vstd::arithmetic::power::{
    lemma_pow0, lemma_pow_mod_noop, lemma_pow_multiplies, lemma_square_is_pow2, pow,
};
use vstd::arithmetic::div_mod::{lemma_mod_bound, lemma_small_mod};
use vstd::arithmetic::power2::{lemma_pow2_pos, lemma_pow2_unfold, pow2};
use vstd::prelude::*;

use crate::number_theory::{is_prime, lemma_fermat, lemma_square_roots_of_one};
use crate::natural::{nat_div, nat_eq, nat_is_odd, nat_modpow, nat_sub_u32, BigNat};

verus! {

/// The exponent of the largest power of two that divides `x > 0`
/// (the 2-adic valuation); 0 for `x == 0`.
pub open spec fn two_adic(x: nat) -> nat
    decreases x,
{
    if x == 0 || x % 2 == 1 {
        0
    } else {
        1 + two_adic(x / 2)
    }
}

/// The odd part of `x > 0`: `x` divided by the largest power of two
/// that divides it.
pub open spec fn odd_part(x: nat) -> nat {
    x / pow2(two_adic(x))
}

/// The `i`-th term of the squaring chain of the test:
/// `base^(m * 2^i) mod n`.
pub open spec fn chain_term(base: nat, n: nat, m: nat, i: nat) -> int {
    pow(base as int, m * pow2(i)) % (n as int)
}

/// Whether odd `n > 2` is a strong probable prime to `base`.
///
/// With `n - 1 == m * 2^k` and `m` odd: `base^m == 1 (mod n)`, or
/// `base^(m * 2^i) == n - 1 (mod n)` for some `i <= k`. The last term,
/// `i == k`, is `base^(n-1) mod n`, so it is checked as well.
pub open spec fn strong_probable_prime(n: nat, base: nat) -> bool {
    let k = two_adic((n - 1) as nat);
    let m = odd_part((n - 1) as nat);
    chain_term(base, n, m, 0) == 1 || exists|i: nat| i <= k && chain_term(base, n, m, i) == n - 1
}

/// The classification of `n` with the witness `base`: 0 and 1 are not
/// prime, 2 is, other even numbers are not, and an odd `n > 2` is
/// classified as probably prime exactly when it is a strong probable prime
/// to `base`.
pub open spec fn probably_prime(n: nat, base: nat) -> bool {
    if n < 2 {
        false
    } else if n == 2 {
        true
    } else if n % 2 == 0 {
        false
    } else {
        strong_probable_prime(n, base)
    }
}

proof fn lemma_two_adic_step(x: nat)
    requires
        x > 0,
        x % 2 == 0,
    ensures
        x / 2 > 0,
        two_adic(x) == 1 + two_adic(x / 2),
{
}

/// Splits `x > 0` as `m * 2^k` with `m` odd: returns `m` and `2^k`.
pub fn split_off_twos(x: &BigNat) -> (r: (BigNat, BigNat))
    requires
        x@ > 0,
    ensures
        r.0@ == odd_part(x@),
        r.1@ == pow2(two_adic(x@)),
        r.0@ % 2 == 1,
        r.0@ * r.1@ == x@,
{
    let two = BigNat::from_u32(2);
    let mut m = BigNat { limbs: x.limbs.clone() };
    proof {
        assert(m.limbs@ =~= x.limbs@);
        lemma_pow0(2);
        assert(m@ == x@);
        assert(pow2(0) == 1);
        assert(x@ == m@ * pow2(0));
    }
    let ghost mut j: nat = 0;
    while !nat_is_odd(&m)
        invariant
            m@ > 0,
            two@ == 2,
            x@ == m@ * pow2(j),
            two_adic(x@) == j + two_adic(m@),
        decreases m@,
    {
        proof {
            lemma_two_adic_step(m@);
            lemma_pow2_unfold(j + 1);
            assert(m@ * pow2(j) == (m@ / 2) * pow2(j + 1)) by (nonlinear_arith)
                requires
                    m@ % 2 == 0,
                    pow2(j + 1) == 2 * pow2(j),
            ;
        }
        m = nat_div(&m, &two);
        proof {
            j = j + 1;
        }
    }
    proof {
        lemma_pow2_pos(j);
        assert(x@ / pow2(j) == m@) by (nonlinear_arith)
            requires
                x@ == m@ * pow2(j),
                pow2(j) > 0,
        ;
    }
    let p = nat_div(x, &m);
    proof {
        assert(x@ / m@ == pow2(j)) by (nonlinear_arith)
            requires
                x@ == m@ * pow2(j),
                m@ > 0,
        ;
    }
    (m, p)
}

/// Squaring a term of the chain modulo `n` gives the next term.
proof fn lemma_chain_step(base: nat, n: nat, m: nat, i: nat)
    requires
        n > 1,
    ensures
        pow(chain_term(base, n, m, i), 2) % (n as int) == chain_term(base, n, m, i + 1),
{
    let e = m * pow2(i);
    let x = pow(base as int, e);
    lemma_pow_mod_noop(x, 2, n as int);
    lemma_pow_multiplies(base as int, e, 2);
    lemma_pow2_unfold(i + 1);
    assert(e * 2 == m * pow2(i + 1)) by (nonlinear_arith)
        requires
            e == m * pow2(i),
            pow2(i + 1) == 2 * pow2(i),
    ;
}

/// Once the chain reaches 1 it stays at 1.
proof fn lemma_chain_stays_one(base: nat, n: nat, m: nat, i: nat, j: nat)
    requires
        n > 1,
        i <= j,
        chain_term(base, n, m, i) == 1,
    ensures
        chain_term(base, n, m, j) == 1,
    decreases j - i,
{
    if i < j {
        lemma_chain_stays_one(base, n, m, i, (j - 1) as nat);
        lemma_chain_step(base, n, m, (j - 1) as nat);
        lemma_square_is_pow2(1);
        lemma_small_mod(1, n);
    }
}

/// `2^e` is 1 exactly for `e == 0`; above that it halves exactly.
proof fn lemma_pow2_halves(e: nat)
    ensures
        (pow2(e) == 1) == (e == 0),
        e > 0 ==> pow2(e) / 2 == pow2((e - 1) as nat),
{
    if e == 0 {
        lemma_pow0(2);
    } else {
        lemma_pow2_unfold(e);
        lemma_pow2_pos((e - 1) as nat);
    }
}

/// Classifies `n` with the witness `base`: `false` for 0, 1 and even
/// numbers above 2, `true` for 2, and for odd `n > 2` whether `n` is a
/// strong probable prime to `base`.
///
/// The squaring loop stops after `k` squarings, where `2^k` is the largest
/// power of two dividing `n - 1`; a chain that has met neither 1 nor
/// `n - 1` by then classifies `n` as composite.
pub fn miller_rabin_with_base(n: &BigNat, base: &BigNat) -> (r: bool)
    ensures
        r == probably_prime(n@, base@),
        is_prime(n@) && base@ % n@ != 0 ==> r,
{
    proof {
        if is_prime(n@) && base@ % n@ != 0 {
            lemma_primes_pass(n@, base@);
        }
    }
    let zero = BigNat::from_u32(0);
    let one = BigNat::from_u32(1);
    let two = BigNat::from_u32(2);
    if nat_eq(n, &zero) || nat_eq(n, &one) {
        return false;
    }
    if nat_eq(n, &two) {
        return true;
    }
    if !nat_is_odd(n) {
        return false;
    }
    let minus_one = nat_sub_u32(n, 1);
    let (m, p) = split_off_twos(&minus_one);
    let ghost k = two_adic(minus_one@);
    let mut b = nat_modpow(base, &m, n);
    proof {
        lemma_pow0(2);
        assert(pow2(0) == 1);
        assert(m@ * pow2(0) == m@);
    }
    if nat_eq(&b, &one) {
        return true;
    }
    if nat_eq(&b, &minus_one) {
        proof {
            assert(chain_term(base@, n@, m@, 0) == n@ - 1);
        }
        return true;
    }
    let mut q = p;
    let ghost mut i: nat = 0;
    while !nat_eq(&q, &one)
        invariant
            n@ > 2,
            minus_one@ == n@ - 1,
            one@ == 1,
            two@ == 2,
            m@ == odd_part(minus_one@),
            k == two_adic(minus_one@),
            i <= k,
            q@ == pow2((k - i) as nat),
            b@ == chain_term(base@, n@, m@, i),
            chain_term(base@, n@, m@, 0) != 1,
            forall|j: nat| j <= i ==> chain_term(base@, n@, m@, j) != n@ - 1,
            is_prime(n@) && base@ % n@ != 0 ==> probably_prime(n@, base@),
        decreases q@,
    {
        proof {
            lemma_pow2_halves((k - i) as nat);
            lemma_pow2_pos((k - i) as nat);
        }
        b = nat_modpow(&b, &two, n);
        proof {
            lemma_chain_step(base@, n@, m@, i);
            i = i + 1;
        }
        if nat_eq(&b, &one) {
            proof {
                assert forall|j: nat| j <= k implies chain_term(base@, n@, m@, j) != n@ - 1 by {
                    if j >= i {
                        lemma_chain_stays_one(base@, n@, m@, i, j);
                    }
                }
            }
            return false;
        }
        if nat_eq(&b, &minus_one) {
            proof {
                assert(chain_term(base@, n@, m@, i) == n@ - 1);
            }
            return true;
        }
        q = nat_div(&q, &two);
    }
    proof {
        lemma_pow2_halves((k - i) as nat);
        assert(i == k);
    }
    false
}

/// Classifies `n` with the fixed witness base 2: `false` for 0, 1 and even
/// numbers above 2, `true` for 2, and for odd `n > 2` whether `n` is a
/// strong probable prime to base 2.
///
/// Some composites are strong probable primes to base 2 (the smallest is
/// 2047 = 23 * 89); they are classified as probably prime.
pub fn miller_rabin_biguint(n: &BigNat) -> (r: bool)
    ensures
        r == probably_prime(n@, 2),
        n@ < 2 ==> !r,
        n@ == 2 ==> r,
        n@ > 2 && n@ % 2 == 0 ==> !r,
        is_prime(n@) ==> r,
{
    proof {
        if is_prime(n@) {
            lemma_primes_pass_base_two(n@);
        }
    }
    let two = BigNat::from_u32(2);
    miller_rabin_with_base(n, &two)
}

/// The classification is a function of the value alone: calls on the same
/// number, or on limb vectors of equal value (differing only in high zero
/// limbs), give the same answer, whatever the base.
pub proof fn lemma_classification_depends_on_value(a: BigNat, b: BigNat, base: BigNat)
    requires
        a@ == b@,
    ensures
        probably_prime(a@, base@) == probably_prime(b@, base@),
        probably_prime(a@, 2) == probably_prime(b@, 2),
{
}

/// `x > 0` is its odd part times `2^k`, `k` its 2-adic valuation, and
/// the odd part is odd.
proof fn lemma_odd_part_split(x: nat)
    requires
        x > 0,
    ensures
        x == odd_part(x) * pow2(two_adic(x)),
        odd_part(x) % 2 == 1,
    decreases x,
{
    lemma_pow0(2);
    if x % 2 == 1 {
        assert(pow2(0) == 1);
        assert(two_adic(x) == 0);
        assert(x / 1 == x);
    } else {
        lemma_two_adic_step(x);
        let h = x / 2;
        let t = two_adic(h);
        lemma_odd_part_split(h);
        lemma_pow2_unfold(t + 1);
        lemma_pow2_pos(t);
        let c = odd_part(h);
        assert(x == c * pow2(t + 1)) by (nonlinear_arith)
            requires
                x == 2 * h,
                h == c * pow2(t),
                pow2(t + 1) == 2 * pow2(t),
        ;
        assert(x / pow2(t + 1) == c) by (nonlinear_arith)
            requires
                x == c * pow2(t + 1),
                pow2(t + 1) > 0,
        ;
    }
}

/// Modulo a prime `p`: a chain that does not start at 1 and has no term
/// `p - 1` up to index `i` has no term 1 up to index `i` either.
proof fn lemma_chain_avoids_one(base: nat, p: nat, m: nat, i: nat)
    requires
        is_prime(p),
        chain_term(base, p, m, 0) != 1,
        forall|j: nat| j <= i ==> chain_term(base, p, m, j) != p - 1,
    ensures
        chain_term(base, p, m, i) != 1,
    decreases i,
{
    if i > 0 {
        let im = (i - 1) as nat;
        lemma_chain_avoids_one(base, p, m, im);
        lemma_chain_step(base, p, m, im);
        let b = chain_term(base, p, m, im);
        lemma_square_is_pow2(b);
        lemma_mod_bound(pow(base as int, m * pow2(im)), p as int);
        if chain_term(base, p, m, i) == 1 {
            lemma_square_roots_of_one(p, b);
        }
    }
}

/// Every prime that does not divide the base passes the test: a prime `p`
/// with `base % p != 0` is classified as probably prime.
pub proof fn lemma_primes_pass(p: nat, base: nat)
    requires
        is_prime(p),
        base % p != 0,
    ensures
        probably_prime(p, base),
{
    if p != 2 {
        assert(p % 2 != 0);
        let x = (p - 1) as nat;
        let k = two_adic(x);
        let m = odd_part(x);
        lemma_odd_part_split(x);
        lemma_fermat(p, base);
        assert(chain_term(base, p, m, k) == 1);
        if !strong_probable_prime(p, base) {
            lemma_chain_avoids_one(base, p, m, k);
        }
    }
}

/// Every prime passes the base-2 test.
pub proof fn lemma_primes_pass_base_two(p: nat)
    requires
        is_prime(p),
    ensures
        probably_prime(p, 2),
{
    if p > 2 {
        lemma_small_mod(2, p);
        lemma_primes_pass(p, 2);
    }
}

} // verus!
