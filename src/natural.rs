//! Arbitrary-precision natural numbers as little-endian base-2^32 limbs.

use num_bigint::BigUint;
use num_integer::Integer;
use vstd::arithmetic::power::pow;
use vstd::prelude::*;

verus! {

/// The value of little-endian base-2^32 limbs.
pub open spec fn limbs_value(s: Seq<u32>) -> nat
    decreases s.len(),
{
    if s.len() == 0 {
        0
    } else {
        s[0] as nat + 0x1_0000_0000 * limbs_value(s.drop_first())
    }
}

/// A natural number, written as base-2^32 digits, least significant first.
///
/// Any vector is a valid number: high zero limbs are allowed and do not
/// change the value.
pub struct BigNat {
    pub limbs: Vec<u32>,
}

impl View for BigNat {
    type V = nat;

    open spec fn view(&self) -> nat {
        limbs_value(self.limbs@)
    }
}

impl BigNat {
    /// The number whose limbs are `limbs`, least significant first.
    pub fn from_limbs(limbs: Vec<u32>) -> (r: BigNat)
        ensures
            r.limbs@ == limbs@,
            r@ == limbs_value(limbs@),
    {
        BigNat { limbs }
    }

    /// The number `v`.
    pub fn from_u32(v: u32) -> (r: BigNat)
        ensures
            r@ == v,
    {
        let r = BigNat { limbs: vec![v] };
        proof {
            assert(r.limbs@.drop_first() =~= Seq::<u32>::empty());
            reveal_with_fuel(limbs_value, 2);
        }
        r
    }

    /// The number `v`.
    pub fn from_u64(v: u64) -> (r: BigNat)
        ensures
            r@ == v,
    {
        let lo = (v % 0x1_0000_0000) as u32;
        let hi = (v / 0x1_0000_0000) as u32;
        let r = BigNat { limbs: vec![lo, hi] };
        proof {
            let s = r.limbs@;
            assert(s.drop_first().drop_first() =~= Seq::<u32>::empty());
            reveal_with_fuel(limbs_value, 3);
        }
        r
    }
}

/// Relies on `BigUint::eq` (with `BigUint::new`, which normalises the
/// limbs): equal values compare equal.
#[verifier::external_body]
pub(crate) fn nat_eq(a: &BigNat, b: &BigNat) -> (r: bool)
    ensures
        r == (a@ == b@),
{
    BigUint::new(a.limbs.clone()) == BigUint::new(b.limbs.clone())
}

/// Relies on `Integer::is_odd` for `BigUint`: the lowest bit of the value.
#[verifier::external_body]
pub(crate) fn nat_is_odd(a: &BigNat) -> (r: bool)
    ensures
        r == (a@ % 2 == 1),
{
    BigUint::new(a.limbs.clone()).is_odd()
}

/// Relies on `BigUint - u32`: the exact difference, which panics below zero.
#[verifier::external_body]
pub(crate) fn nat_sub_u32(a: &BigNat, b: u32) -> (r: BigNat)
    requires
        a@ >= b,
    ensures
        r@ == a@ - b,
{
    BigNat { limbs: (BigUint::new(a.limbs.clone()) - b).to_u32_digits() }
}

/// Relies on `&BigUint / &BigUint`: the truncated quotient, which panics
/// on a zero divisor.
#[verifier::external_body]
pub(crate) fn nat_div(a: &BigNat, b: &BigNat) -> (r: BigNat)
    requires
        b@ > 0,
    ensures
        r@ == a@ / b@,
{
    let q = &BigUint::new(a.limbs.clone()) / &BigUint::new(b.limbs.clone());
    BigNat { limbs: q.to_u32_digits() }
}

/// Relies on `BigUint::modpow`: `base^exponent mod modulus`, which panics
/// on a zero modulus. (For the modulus 1 and the exponent 0 it answers 1
/// rather than 0, so the modulus is kept above 1.)
#[verifier::external_body]
pub(crate) fn nat_modpow(base: &BigNat, exponent: &BigNat, modulus: &BigNat) -> (r: BigNat)
    requires
        modulus@ > 1,
    ensures
        r@ == pow(base@ as int, exponent@) % (modulus@ as int),
{
    let b = BigUint::new(base.limbs.clone());
    let e = BigUint::new(exponent.limbs.clone());
    let m = BigUint::new(modulus.limbs.clone());
    BigNat { limbs: b.modpow(&e, &m).to_u32_digits() }
}

} // verus!
