//! Arbitrary-precision naturals, held as base-2^32 limbs and computed with
//! `num_bigint`.
use num_bigint::BigUint;
use num_traits::ToPrimitive;
use vstd::arithmetic::power::pow;
use vstd::prelude::*;

verus! {

/// Value of little-endian base-2^32 limbs.
pub open spec fn limbs_value(s: Seq<u32>) -> nat
    decreases s.len(),
{
    if s.len() == 0 {
        0
    } else {
        s[0] as nat + 4294967296 * limbs_value(s.drop_first())
    }
}

/// A natural number, least significant limb first.
pub struct Big {
    pub limbs: Vec<u32>,
}

impl View for Big {
    type V = nat;

    open spec fn view(&self) -> nat {
        limbs_value(self.limbs@)
    }
}

impl Big {
    /// A second value equal to this one.
    pub fn duplicate(&self) -> (r: Big)
        ensures
            r@ == self@,
    {
        let limbs = self.limbs.clone();
        proof {
            assert(limbs@ =~= self.limbs@);
        }
        Big { limbs }
    }
}

/// Relies on `BigUint::from(u64)` and `BigUint::to_u32_digits`: the value is kept.
#[verifier::external_body]
pub(crate) fn big_from_u64(x: u64) -> (r: Big)
    ensures
        r@ == x,
{
    Big { limbs: BigUint::from(x).to_u32_digits() }
}

/// Relies on `BigUint::pow`: `base` raised to `exp`.
#[verifier::external_body]
pub(crate) fn big_pow(base: u32, exp: u32) -> (r: Big)
    ensures
        r@ == pow(base as int, exp as nat),
{
    Big { limbs: BigUint::from(base).pow(exp).to_u32_digits() }
}

/// Relies on `BigUint`'s `+`.
#[verifier::external_body]
pub(crate) fn big_add(a: &Big, b: &Big) -> (r: Big)
    ensures
        r@ == a@ + b@,
{
    let s = BigUint::new(a.limbs.clone()) + BigUint::new(b.limbs.clone());
    Big { limbs: s.to_u32_digits() }
}

/// Relies on `BigUint`'s `-`, which panics when `b` exceeds `a`.
#[verifier::external_body]
pub(crate) fn big_sub(a: &Big, b: &Big) -> (r: Big)
    requires
        b@ <= a@,
    ensures
        r@ == a@ - b@,
{
    let d = BigUint::new(a.limbs.clone()) - BigUint::new(b.limbs.clone());
    Big { limbs: d.to_u32_digits() }
}

/// Relies on `BigUint`'s `*`.
#[verifier::external_body]
pub(crate) fn big_mul(a: &Big, b: &Big) -> (r: Big)
    ensures
        r@ == a@ * b@,
{
    let p = BigUint::new(a.limbs.clone()) * BigUint::new(b.limbs.clone());
    Big { limbs: p.to_u32_digits() }
}

/// Relies on `BigUint`'s `/` by a `u32`, which panics on a zero divisor.
#[verifier::external_body]
pub(crate) fn big_div_u32(a: &Big, d: u32) -> (r: Big)
    requires
        d > 0,
    ensures
        r@ == a@ / (d as nat),
{
    let q = BigUint::new(a.limbs.clone()) / d;
    Big { limbs: q.to_u32_digits() }
}

/// Relies on `BigUint`'s `%` by a `u32` and on `ToPrimitive::to_u32`, which
/// succeeds on a remainder below the divisor.
#[verifier::external_body]
pub(crate) fn big_rem_u32(a: &Big, d: u32) -> (r: u32)
    requires
        d > 0,
    ensures
        r == a@ % (d as nat),
{
    (&BigUint::new(a.limbs.clone()) % d).to_u32().unwrap()
}

} // verus!
