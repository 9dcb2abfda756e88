//! Pseudo-type-level data: per-family static parameters reflected at runtime.
use vstd::prelude::*;
use crate::bigint::BigInt;

verus! {

/// A family's static datum (a modulus, a discriminant, ...), fixed per type.
pub trait TypeRep: Sized {
    /// The type of the simulated type-level static information.
    type Rep;

    /// The value that `rep` always returns.
    spec fn spec_rep() -> Self::Rep;

    /// Returns the static data for the type.
    fn rep() -> (r: Self::Rep)
        ensures
            r == Self::spec_rep(),
    ;
}

/// Convenience constructor for exponents from machine integers.
pub fn bigint(val: i64) -> (r: BigInt)
    ensures
        r.wf(),
        r@ == val as int,
{
    BigInt::from_i64(val)
}

} // verus!

verus! {

/// Floor of the base-two logarithm.
pub open spec fn flog2(n: nat) -> nat
    decreases n,
{
    if n < 2 {
        0
    } else {
        1 + flog2(n / 2)
    }
}

/// `flog2` brackets its argument between consecutive powers of two.
pub proof fn lemma_flog2_bounds(n: nat)
    requires
        n >= 1,
    ensures
        vstd::arithmetic::power2::pow2(flog2(n)) <= n,
        n < vstd::arithmetic::power2::pow2(flog2(n) + 1),
    decreases n,
{
    vstd::arithmetic::power2::lemma2_to64();
    if n < 2 {
    } else {
        lemma_flog2_bounds(n / 2);
        vstd::arithmetic::power2::lemma_pow2_adds(1, flog2(n / 2));
        vstd::arithmetic::power2::lemma_pow2_adds(1, flog2(n / 2) + 1);
    }
}

/// A 64-bit quantity has a base-two logarithm below 64.
proof fn lemma_flog2_small(n: nat)
    requires
        1 <= n < 0x10000000000000000,
    ensures
        flog2(n) <= 63,
{
    if flog2(n) > 63 {
        lemma_flog2_bounds(n);
        vstd::arithmetic::power2::lemma2_to64();
        if flog2(n) > 64 {
            vstd::arithmetic::power2::lemma_pow2_strictly_increases(64, flog2(n));
        }
        assert(vstd::arithmetic::power2::pow2(flog2(n)) >= vstd::arithmetic::power2::pow2(64));
    }
}

/// Computes the floor of the base-two logarithm by repeated halving.
#[verifier::loop_isolation(false)]
pub fn floor_log2(m: u64) -> (r: u64)
    requires
        m >= 1,
    ensures
        r == flog2(m as nat),
        r < 64,
{
    let mut v: u64 = m;
    let mut k: u64 = 0;
    while v >= 2
        invariant
            1 <= v <= m,
            k <= 64,
            flog2(m as nat) == k + flog2(v as nat),
        decreases v,
    {
        proof {
            if k >= 63 {
                lemma_flog2_small(m as nat);
                assert(flog2(v as nat) >= 1);
            }
        }
        v = v / 2;
        k = k + 1;
    }
    proof {
        lemma_flog2_small(m as nat);
    }
    k
}

} // verus!
