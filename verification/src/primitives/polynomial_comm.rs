//! Parameter setup for a polynomial commitment scheme over a group of
//! unknown order.
//!
//! Setup draws two generators, derives a hashed prime triple from three
//! random byte strings, validates the triple into an element `p`, and binds
//! the scheme to a maximum polynomial degree through `q = p^bound` with
//! `bound = 2*floor(log2(d_max + 1)) + 1`. The commit, open, and
//! evaluation-proof steps of the scheme are outside this crate's scope.
use vstd::prelude::*;
use core::marker::PhantomData;
use crate::bigint::BigInt;
use crate::groups::{pow_int, ElemFrom, GroupBase, GroupError, HashPrime, UnknownOrderGroup};
use crate::util::{flog2, floor_log2};

verus! {

/// Public parameters of the scheme: two unknown-order generators, the
/// validated hashed element `p`, and `q = p^bound`. Immutable once built.
pub struct PP<G: UnknownOrderGroup, T> {
    pub phantom: PhantomData<T>,
    pub disc: G::Elem,
    pub g: G::Elem,
    pub q: G::Elem,
    pub p: G::Elem,
}

/// A commitment to a polynomial: one group element.
pub struct PolyComm<G: UnknownOrderGroup, T> {
    pub phantom: PhantomData<T>,
    pub c: G::Elem,
}

/// The exponent that binds the parameters to a maximum degree `d_max`.
pub open spec fn setup_bound(d_max: nat) -> int {
    (2 * flog2(d_max + 1) + 1) as int
}

impl<G: ElemFrom<(BigInt, BigInt, BigInt)> + HashPrime + UnknownOrderGroup, T> PolyComm<G, T> {
    /// Deterministic core of `setup`: derives the hashed triple from the
    /// three given seeds. Fails when the triple does not reduce to an
    /// element of the family; the caller may retry with fresh seeds.
    pub fn setup_from_seeds(_lambda: usize, d_max: usize, s1: &[u8], s2: &[u8], s3: &[u8]) -> (r:
        Result<PP<G, T>, GroupError>)
        requires
            d_max < usize::MAX,
        ensures
            r is Err ==> r->Err_0 == GroupError::MalformedElement,
            r is Ok ==> G::val_of(&r->Ok_0.disc) == G::gen_val(),
            r is Ok ==> G::val_of(&r->Ok_0.g) == G::gen_val(),
            r is Ok ==> G::in_group(G::val_of(&r->Ok_0.p)),
            r is Ok ==> (exists|t: (BigInt, BigInt, BigInt)|
                {
                    &&& t.0.limbs@ == G::prime_limbs(s1@) && !t.0.neg
                    &&& t.1.limbs@ == G::prime_limbs(s2@) && !t.1.neg
                    &&& t.2.limbs@ == G::prime_limbs(s3@) && !t.2.neg
                    &&& G::elem_ok(t)
                    &&& G::val_of(&r->Ok_0.p) == G::elem_val(t)
                }),
            r is Ok ==> G::val_of(&r->Ok_0.q) == pow_int::<G>(
                G::val_of(&r->Ok_0.p),
                setup_bound(d_max as nat),
            ),
            r is Err ==> (exists|t: (BigInt, BigInt, BigInt)|
                {
                    &&& t.0.limbs@ == G::prime_limbs(s1@) && !t.0.neg
                    &&& t.1.limbs@ == G::prime_limbs(s2@) && !t.1.neg
                    &&& t.2.limbs@ == G::prime_limbs(s3@) && !t.2.neg
                    &&& !G::elem_ok(t)
                }),
    {
        let disc = G::unknown_order_elemnew();
        let g = G::unknown_order_elemnew();
        let a = G::pick_prime_integer(s1);
        let b = G::pick_prime_integer(s2);
        let c = G::pick_prime_integer(s3);
        let p = match G::elemnew((a, b, c)) {
            Ok(p) => p,
            Err(_) => {
                return Err(GroupError::MalformedElement);
            },
        };
        let log = floor_log2((d_max as u64) + 1);
        let bound = BigInt::from_u64(2 * log + 1);
        let q = G::exp(&p, &bound);
        Ok(PP { phantom: PhantomData, disc, g, p, q })
    }

    /// Generates public parameters for polynomials up to degree `d_max`,
    /// drawing the three hash seeds from the process's secure randomness.
    /// A failed validation is reported, not retried: the caller decides
    /// whether to call again with fresh randomness.
    ///
    /// Both generators come from the same deterministic per-family
    /// routine, so `disc` and `g` coincide in model value; no domain
    /// separation is claimed.
    pub fn setup(_lambda: usize, d_max: usize) -> (r: Result<PP<G, T>, GroupError>)
        requires
            d_max < usize::MAX,
        ensures
            r is Err ==> r->Err_0 == GroupError::MalformedElement,
            r is Ok ==> G::val_of(&r->Ok_0.disc) == G::gen_val(),
            r is Ok ==> G::val_of(&r->Ok_0.g) == G::gen_val(),
            r is Ok ==> G::in_group(G::val_of(&r->Ok_0.p)),
            r is Ok ==> G::val_of(&r->Ok_0.q) == pow_int::<G>(
                G::val_of(&r->Ok_0.p),
                setup_bound(d_max as nat),
            ),
    {
        let s1 = random_bytes_32();
        let s2 = random_bytes_32();
        let s3 = random_bytes_32();
        Self::setup_from_seeds(_lambda, d_max, s1.as_slice(), s2.as_slice(), s3.as_slice())
    }
}

/// Degree bound two gives the exponent three: `2*floor(log2(3)) + 1 == 3`.
pub proof fn lemma_setup_bound_degree_two()
    ensures
        setup_bound(2) == 3,
{
    assert(flog2(3) == 1 + flog2(1));
}

/// Relies on rand::thread_rng and Rng::gen: 32 bytes from the thread-local
/// cryptographically secure generator. Nothing is promised of their values.
#[verifier::external_body]
fn random_bytes_32() -> (r: Vec<u8>)
    ensures
        r@.len() == 32,
{
    let b: [u8; 32] = rand::Rng::gen(&mut rand::thread_rng());
    b.to_vec()
}

} // verus!
