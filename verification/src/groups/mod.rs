//! The group capability interface and the generic algorithms written
//! against it: binary exponentiation and divide-and-conquer
//! multi-exponentiation.
//!
//! Each family supplies an opaque element type `Elem` together with a
//! spec-level model `V` of its canonical forms; contracts and laws are
//! stated over the model, so distinct families can never be mixed.
use vstd::prelude::*;
use crate::bigint::BigInt;
use crate::util::TypeRep;

pub mod lemmas;
pub mod word_add;

verus! {

/// How an operation on group elements can fail.
#[derive(Clone, Copy, Debug, PartialEq, Eq, Structural)]
pub enum GroupError {
    /// Raw components do not reduce to a valid canonical element.
    MalformedElement,
    /// A batched operation was invoked with zero elements.
    EmptyInput,
}

/// The core of a mathematical group (abelian, as all families here are):
/// identity, composition, and inversion, with the group laws as a proof
/// obligation on every family. Exponentiation lives in [`Group`], which
/// needs the power functions below and so cannot be stated here.
///
/// Executable methods with a `_` suffix take the family's `TypeRep` data as
/// a parameter; the plain `idnew`, `opnew`, `exp`, and `invnew` fetch it
/// themselves.
pub trait GroupBase: TypeRep {
    /// The associated group element type for this family.
    type Elem;

    /// Spec-level model of an element's canonical form.
    type V;

    /// The model of an element.
    spec fn val_of(e: &Self::Elem) -> Self::V;

    /// Whether a model value denotes a canonical element of the family.
    spec fn in_group(v: Self::V) -> bool;

    /// Model of the identity element.
    spec fn id_val() -> Self::V;

    /// Model of the group operation.
    spec fn op_val(a: Self::V, b: Self::V) -> Self::V;

    /// Model of inversion.
    spec fn inv_val(a: Self::V) -> Self::V;

    /// The abelian group laws, which every family must establish.
    proof fn lemma_laws(a: Self::V, b: Self::V, c: Self::V)
        ensures
            Self::in_group(Self::id_val()),
            Self::in_group(a) && Self::in_group(b) ==> Self::in_group(Self::op_val(a, b)),
            Self::in_group(a) && Self::in_group(b) ==> Self::op_val(a, b) == Self::op_val(b, a),
            Self::in_group(a) && Self::in_group(b) && Self::in_group(c) ==> Self::op_val(
                Self::op_val(a, b),
                c,
            ) == Self::op_val(a, Self::op_val(b, c)),
            Self::in_group(a) ==> Self::op_val(a, Self::id_val()) == a,
            Self::in_group(a) ==> Self::in_group(Self::inv_val(a)) && Self::op_val(
                a,
                Self::inv_val(a),
            ) == Self::id_val(),
    ;

    /// A family-specific wrapper for the identity.
    fn id_(rep: &Self::Rep) -> (r: Self::Elem)
        ensures
            Self::val_of(&r) == Self::id_val(),
    ;

    /// A family-specific wrapper for the group operation.
    fn op_(rep: &Self::Rep, a: &Self::Elem, b: &Self::Elem) -> (r: Self::Elem)
        requires
            Self::in_group(Self::val_of(a)),
            Self::in_group(Self::val_of(b)),
        ensures
            Self::val_of(&r) == Self::op_val(Self::val_of(a), Self::val_of(b)),
    ;

    /// A family-specific wrapper for inversion.
    fn inv_(rep: &Self::Rep, a: &Self::Elem) -> (r: Self::Elem)
        requires
            Self::in_group(Self::val_of(a)),
        ensures
            Self::val_of(&r) == Self::inv_val(Self::val_of(a)),
    ;

    /// Returns the identity element of the group.
    fn idnew() -> (r: Self::Elem)
        ensures
            Self::val_of(&r) == Self::id_val(),
    {
        let rep = Self::rep();
        Self::id_(&rep)
    }

    /// Applies the group operation to elements `a` and `b`.
    fn opnew(a: &Self::Elem, b: &Self::Elem) -> (r: Self::Elem)
        requires
            Self::in_group(Self::val_of(a)),
            Self::in_group(Self::val_of(b)),
        ensures
            Self::val_of(&r) == Self::op_val(Self::val_of(a), Self::val_of(b)),
    {
        let rep = Self::rep();
        Self::op_(&rep, a, b)
    }

    /// Returns the group inverse of `a`.
    fn invnew(a: &Self::Elem) -> (r: Self::Elem)
        requires
            Self::in_group(Self::val_of(a)),
        ensures
            Self::val_of(&r) == Self::inv_val(Self::val_of(a)),
    {
        let rep = Self::rep();
        Self::inv_(&rep, a)
    }
}

/// `a` composed with itself `n` times, starting from the identity.
pub open spec fn pow_nat<G: GroupBase>(a: G::V, n: nat) -> G::V
    decreases n,
{
    if n == 0 {
        G::id_val()
    } else {
        G::op_val(a, pow_nat::<G>(a, (n - 1) as nat))
    }
}

/// Power with a signed exponent: a negative exponent raises the inverse.
pub open spec fn pow_int<G: GroupBase>(a: G::V, n: int) -> G::V {
    if n >= 0 {
        pow_nat::<G>(a, n as nat)
    } else {
        pow_nat::<G>(G::inv_val(a), (-n) as nat)
    }
}


/// A full group: the core operations together with exponentiation.
///
/// Every family gets the repeated-squaring default by implementing `exp_`
/// as a call to [`binary_exp`]; a family may substitute a faster method,
/// but the contract pins the observable result to `pow_int` either way.
pub trait Group: GroupBase {
    /// A family-specific wrapper for exponentiation, with repeated
    /// squaring as the provided default. Families may override it with a
    /// faster method, but the observable result is pinned to `pow_int`
    /// either way.
    fn exp_(rep: &Self::Rep, a: &Self::Elem, n: &BigInt) -> (r: Self::Elem)
        requires
            Self::in_group(Self::val_of(a)),
            n.wf(),
        ensures
            Self::val_of(&r) == pow_int::<Self>(Self::val_of(a), n@),
    {
        binary_exp::<Self>(rep, a, n)
    }

    /// Applies the group operation to `a` and itself `n` times.
    fn exp(a: &Self::Elem, n: &BigInt) -> (r: Self::Elem)
        requires
            Self::in_group(Self::val_of(a)),
            n.wf(),
        ensures
            Self::val_of(&r) == pow_int::<Self>(Self::val_of(a), n@),
    {
        let rep = Self::rep();
        Self::exp_(&rep, a, n)
    }
}

/// A group containing elements of unknown order.
///
/// **Note**: this does not imply that the group itself has unknown order;
/// the hardness of computing the element's order is a family-specific
/// design assumption, not something stated or verified here.
pub trait UnknownOrderGroup: Group {
    /// Model of the distinguished generator.
    spec fn gen_val() -> Self::V;

    /// A family-specific wrapper for the generator of believed-unknown
    /// order; deterministic with respect to `rep`.
    fn unknown_order_elem_(rep: &Self::Rep) -> (r: Self::Elem)
        ensures
            Self::val_of(&r) == Self::gen_val(),
            Self::in_group(Self::gen_val()),
    ;

    /// Returns an element of unknown order in the group.
    fn unknown_order_elemnew() -> (r: Self::Elem)
        ensures
            Self::val_of(&r) == Self::gen_val(),
            Self::in_group(Self::gen_val()),
    {
        let rep = Self::rep();
        Self::unknown_order_elem_(&rep)
    }
}

/// Like `From<T>`, but implemented on the group instead of the element
/// type. Construction validates the raw value and is the one fallible
/// operation of the interface.
pub trait ElemFrom<T>: Group {
    /// Which raw values reduce to a valid canonical element.
    spec fn elem_ok(val: T) -> bool;

    /// The canonical element a valid raw value denotes.
    spec fn elem_val(val: T) -> Self::V;

    /// Returns a group element built from an initial value, or reports
    /// that the value denotes no element of the family.
    fn elemnew(val: T) -> (r: Result<Self::Elem, GroupError>)
        ensures
            r is Ok <==> Self::elem_ok(val),
            r is Ok ==> Self::val_of(&r->Ok_0) == Self::elem_val(val) && Self::in_group(
                Self::elem_val(val),
            ),
            r is Err ==> r->Err_0 == GroupError::MalformedElement,
    ;
}

/// Primality of a natural number.
pub open spec fn is_prime(n: nat) -> bool {
    n >= 2 && forall|d: nat| 2 <= d < n ==> #[trigger] (n % d) != 0
}

/// A deterministic map from byte strings to primes, in the encoding used
/// for exponent arithmetic. The limbs are a function of the input bytes
/// alone (determinism), and the value they denote is prime.
pub trait HashPrime: Group {
    /// The family's native representation of a hashed prime, used for
    /// element construction.
    type Native;

    /// The numeric value a native representation denotes.
    spec fn native_val(n: Self::Native) -> int;

    /// The limbs of the prime derived from the given bytes.
    spec fn prime_limbs(t: Seq<u8>) -> Seq<u64>;

    /// The native form of the prime derived from the given bytes.
    spec fn native_prime(t: Seq<u8>) -> Self::Native;

    /// Maps `t` to the family's hashed prime, in the encoding used for
    /// exponent arithmetic.
    fn pick_prime_integer(t: &[u8]) -> (r: BigInt)
        ensures
            r.wf(),
            !r.neg,
            r.limbs@ == Self::prime_limbs(t@),
            is_prime(crate::bigint::limbs_val(Self::prime_limbs(t@))),
    ;

    /// Maps `t` to the same prime in the family-native representation:
    /// the two encodings denote the same number.
    fn pick_prime_native(t: &[u8]) -> (r: Self::Native)
        ensures
            r == Self::native_prime(t@),
            Self::native_val(r) == crate::bigint::limbs_val(Self::prime_limbs(t@)) as int,
    ;
}

} // verus!

verus! {

/// The default exponentiation: binary method by repeated squaring.
///
/// If `n` is negative the base is replaced by its inverse and the
/// magnitude of `n` is used. Zero returns the identity. The exponent's
/// limbs are consumed from the least significant bit upward: on an odd
/// remainder the accumulator takes the running square.
#[verifier::loop_isolation(false)]
pub fn binary_exp<G: GroupBase>(rep: &G::Rep, a: &G::Elem, n: &BigInt) -> (r: G::Elem)
    requires
        G::in_group(G::val_of(a)),
        n.wf(),
    ensures
        G::val_of(&r) == pow_int::<G>(G::val_of(a), n@),
{
    let ghost a0 = G::val_of(a);
    let id_elem = G::id_(rep);
    proof {
        G::lemma_laws(a0, a0, a0);
        lemmas::lemma_identity::<G>(a0);
    }
    let mut base = G::op_(rep, a, &id_elem);
    if n.neg {
        base = G::inv_(rep, &base);
        proof {
            lemmas::lemma_inverse::<G>(a0);
        }
    }
    let ghost b0 = G::val_of(&base);
    let ghost e = crate::bigint::limbs_val(n.limbs@);
    proof {
        if n.neg {
            crate::bigint::lemma_limbs_val_pos(n.limbs@);
        }
        assert(pow_int::<G>(a0, n@) == pow_nat::<G>(b0, e));
    }
    let mut val = id_elem;
    proof {
        lemmas::lemma_pow_in_group::<G>(b0, e);
        lemmas::lemma_identity::<G>(pow_nat::<G>(b0, e));
        vstd::arithmetic::power2::lemma2_to64();
    }
    proof {
        assert(n.limbs@.subrange(0, n.limbs@.len() as int) =~= n.limbs@);
    }
    let mut i: usize = 0;
    while i < n.limbs.len()
        invariant
            i <= n.limbs.len(),
            G::in_group(G::val_of(&val)),
            G::in_group(G::val_of(&base)),
            pow_nat::<G>(b0, e) == G::op_val(
                G::val_of(&val),
                pow_nat::<G>(
                    G::val_of(&base),
                    crate::bigint::limbs_val(n.limbs@.subrange(i as int, n.limbs@.len() as int)),
                ),
            ),
        decreases n.limbs.len() - i,
    {
        let mut cur: u64 = n.limbs[i];
        let ghost tail = crate::bigint::limbs_val(
            n.limbs@.subrange(i as int + 1, n.limbs@.len() as int),
        );
        proof {
            crate::bigint::lemma_limbs_val_suffix(n.limbs@, i as int);
            vstd::arithmetic::power2::lemma2_to64();
            assert(crate::bigint::limbs_val(
                n.limbs@.subrange(i as int, n.limbs@.len() as int),
            ) == cur + vstd::arithmetic::power2::pow2(64) * tail);
        }
        let mut j: usize = 0;
        while j < 64
            invariant
                j <= 64,
                cur < vstd::arithmetic::power2::pow2((64 - j) as nat),
                G::in_group(G::val_of(&val)),
                G::in_group(G::val_of(&base)),
                pow_nat::<G>(b0, e) == G::op_val(
                    G::val_of(&val),
                    pow_nat::<G>(
                        G::val_of(&base),
                        (cur + vstd::arithmetic::power2::pow2((64 - j) as nat) * tail) as nat,
                    ),
                ),
            decreases 64 - j,
        {
            let ghost valv = G::val_of(&val);
            let ghost basev = G::val_of(&base);
            let ghost rem: nat = (cur + vstd::arithmetic::power2::pow2((64 - j) as nat)
                * tail) as nat;
            proof {
                vstd::arithmetic::power2::lemma_pow2_adds(1, (63 - j) as nat);
                vstd::arithmetic::power2::lemma2_to64();
                assert(vstd::arithmetic::power2::pow2((64 - j) as nat) == 2
                    * vstd::arithmetic::power2::pow2((63 - j) as nat));
            }
            let ghost half: u64 = cur / 2;
            let ghost bit: u64 = cur % 2;
            let ghost rem2: nat = (half + vstd::arithmetic::power2::pow2((63 - j) as nat)
                * tail) as nat;
            proof {
                assert(cur == 2 * half + bit);
                assert(rem == bit + 2 * rem2) by (nonlinear_arith)
                    requires
                        cur == 2 * half + bit,
                        rem == cur + 2 * vstd::arithmetic::power2::pow2((63 - j) as nat) * tail,
                        rem2 == half + vstd::arithmetic::power2::pow2((63 - j) as nat) * tail,
                ;
            }
            if cur % 2 == 1 {
                val = G::op_(rep, &val, &base);
                proof {
                    assert(pow_nat::<G>(basev, rem) == G::op_val(
                        basev,
                        pow_nat::<G>(basev, (rem - 1) as nat),
                    ));
                    lemmas::lemma_pow_in_group::<G>(basev, (rem - 1) as nat);
                    G::lemma_laws(valv, basev, pow_nat::<G>(basev, (rem - 1) as nat));
                    assert(pow_nat::<G>(b0, e) == G::op_val(
                        G::val_of(&val),
                        pow_nat::<G>(basev, (2 * rem2) as nat),
                    ));
                }
            } else {
                proof {
                    assert(rem == 2 * rem2);
                }
            }
            base = G::op_(rep, &base, &base);
            proof {
                lemmas::lemma_pow_double::<G>(basev, rem2);
                G::lemma_laws(basev, basev, basev);
            }
            cur = cur / 2;
            j = j + 1;
        }
        proof {
            vstd::arithmetic::power2::lemma2_to64();
            assert(cur == 0);
            assert((cur + vstd::arithmetic::power2::pow2(0) * tail) as nat == tail);
            assert(pow_nat::<G>(b0, e) == G::op_val(
                G::val_of(&val),
                pow_nat::<G>(G::val_of(&base), tail),
            ));
        }
        i = i + 1;
    }
    proof {
        assert(n.limbs@.subrange(n.limbs@.len() as int, n.limbs@.len() as int)
            =~= Seq::<u64>::empty());
        lemmas::lemma_identity::<G>(G::val_of(&val));
    }
    val
}

} // verus!

verus! {

/// Product of a sequence of integers.
pub open spec fn sprod(xs: Seq<int>) -> int
    decreases xs.len(),
{
    if xs.len() == 0 {
        1
    } else {
        xs[0] * sprod(xs.drop_first())
    }
}

/// The values of a sequence of big integers.
pub open spec fn vals_of(xs: Seq<BigInt>) -> Seq<int> {
    xs.map_values(|b: BigInt| b@)
}

/// The models of a sequence of group elements.
pub open spec fn views_of<G: GroupBase>(es: Seq<G::Elem>) -> Seq<G::V> {
    es.map_values(|e: G::Elem| G::val_of(&e))
}

/// Every model value of the sequence denotes a canonical element.
pub open spec fn all_in_group<G: GroupBase>(vs: Seq<G::V>) -> bool {
    forall|i: int| 0 <= i < vs.len() ==> G::in_group(#[trigger] vs[i])
}

/// The batched product `∏ alphas[i] ^ (m * ∏_{j != i} xs[j])`: each element
/// is raised to `m` times the product of every exponent but its own. With
/// `m == 1` this is what multi-exponentiation computes.
pub open spec fn gbatch<G: GroupBase>(alphas: Seq<G::V>, xs: Seq<int>, m: int) -> G::V
    decreases alphas.len(),
{
    if alphas.len() == 0 {
        G::id_val()
    } else {
        G::op_val(
            pow_int::<G>(alphas[0], m * sprod(xs.drop_first())),
            gbatch::<G>(alphas.drop_first(), xs.drop_first(), m * xs[0]),
        )
    }
}

} // verus!

verus! {

/// The product of the exponents `x[lo..hi]`.
#[verifier::loop_isolation(false)]
fn prod_range(x: &[BigInt], lo: usize, hi: usize) -> (r: BigInt)
    requires
        lo <= hi <= x@.len(),
        forall|i: int| 0 <= i < x@.len() ==> (#[trigger] x@[i]).wf(),
    ensures
        r.wf(),
        r@ == sprod(vals_of(x@.subrange(lo as int, hi as int))),
{
    let mut r = BigInt::from_u64(1);
    let mut i: usize = lo;
    proof {
        assert(vals_of(x@.subrange(lo as int, lo as int)) =~= Seq::<int>::empty());
    }
    while i < hi
        invariant
            lo <= i <= hi,
            r.wf(),
            r@ == sprod(vals_of(x@.subrange(lo as int, i as int))),
        decreases hi - i,
    {
        let xi = vstd::slice::slice_index_get(x, i);
        proof {
            assert(vals_of(x@.subrange(lo as int, i as int + 1)) =~= vals_of(
                x@.subrange(lo as int, i as int),
            ).push(xi@));
            lemmas::lemma_sprod_push(vals_of(x@.subrange(lo as int, i as int)), xi@);
        }
        r = r.mul(xi);
        i = i + 1;
    }
    r
}

/// Views of a window of canonical elements are canonical.
proof fn lemma_views_window<G: GroupBase>(es: Seq<G::Elem>, lo: int, hi: int)
    requires
        0 <= lo <= hi <= es.len(),
        all_in_group::<G>(views_of::<G>(es)),
    ensures
        all_in_group::<G>(views_of::<G>(es.subrange(lo, hi))),
{
    let w = views_of::<G>(es.subrange(lo, hi));
    assert forall|i: int| 0 <= i < w.len() implies G::in_group(#[trigger] w[i]) by {
        assert(w[i] == G::val_of(&es[lo + i]));
        assert(views_of::<G>(es)[lo + i] == G::val_of(&es[lo + i]));
        assert(G::in_group(views_of::<G>(es)[lo + i]));
    }
}

/// The recursive core of `multi_exp` on the window `[lo, hi)`.
fn multi_exp_range<G: Group>(alphas: &[G::Elem], x: &[BigInt], lo: usize, hi: usize) -> (r:
    G::Elem)
    requires
        lo < hi <= alphas@.len(),
        alphas@.len() == x@.len(),
        forall|i: int| 0 <= i < x@.len() ==> (#[trigger] x@[i]).wf(),
        all_in_group::<G>(views_of::<G>(alphas@)),
    ensures
        G::val_of(&r) == gbatch::<G>(
            views_of::<G>(alphas@.subrange(lo as int, hi as int)),
            vals_of(x@.subrange(lo as int, hi as int)),
            1,
        ),
        G::in_group(G::val_of(&r)),
    decreases hi - lo,
{
    let ghost avs = views_of::<G>(alphas@.subrange(lo as int, hi as int));
    let ghost xvs = vals_of(x@.subrange(lo as int, hi as int));
    proof {
        assert(alphas@.subrange(0, alphas@.len() as int) =~= alphas@);
        lemma_views_window::<G>(alphas@, lo as int, hi as int);
    }
    if hi - lo == 1 {
        let a0 = vstd::slice::slice_index_get(alphas, lo);
        let id_elem = G::idnew();
        proof {
            assert(avs[0] == G::val_of(a0));
            assert(G::in_group(avs[0]));
            G::lemma_laws(G::val_of(a0), G::val_of(a0), G::val_of(a0));
            lemmas::lemma_identity::<G>(G::val_of(a0));
            lemmas::lemma_pow_int_one::<G>(G::val_of(a0));
            assert(avs.drop_first() =~= Seq::<G::V>::empty());
            assert(xvs.drop_first() =~= Seq::<int>::empty());
            assert(sprod(xvs.drop_first()) == 1);
            assert(gbatch::<G>(avs.drop_first(), xvs.drop_first(), 1 * xvs[0]) == G::id_val());
        }
        G::opnew(a0, &id_elem)
    } else {
        let mid = lo + (hi - lo) / 2;
        let x_star_l = prod_range(x, lo, mid);
        let x_star_r = prod_range(x, mid, hi);
        let l = multi_exp_range::<G>(alphas, x, lo, mid);
        let r = multi_exp_range::<G>(alphas, x, mid, hi);
        let ghost avl = views_of::<G>(alphas@.subrange(lo as int, mid as int));
        let ghost avr = views_of::<G>(alphas@.subrange(mid as int, hi as int));
        let ghost xvl = vals_of(x@.subrange(lo as int, mid as int));
        let ghost xvr = vals_of(x@.subrange(mid as int, hi as int));
        let le = G::exp(&l, &x_star_r);
        let re = G::exp(&r, &x_star_l);
        proof {
            assert(avs =~= avl + avr);
            assert(xvs =~= xvl + xvr);
            lemma_views_window::<G>(alphas@, lo as int, mid as int);
            lemma_views_window::<G>(alphas@, mid as int, hi as int);
            lemmas::lemma_gbatch_split::<G>(avl, xvl, avr, xvr, 1);
            lemmas::lemma_gbatch_scale::<G>(avl, xvl, 1, sprod(xvr));
            lemmas::lemma_gbatch_scale::<G>(avr, xvr, 1, sprod(xvl));
            lemmas::lemma_pow_int_in_group::<G>(G::val_of(&l), x_star_r@);
            lemmas::lemma_pow_int_in_group::<G>(G::val_of(&r), x_star_l@);
            G::lemma_laws(G::val_of(&le), G::val_of(&re), G::id_val());
        }
        G::opnew(&le, &re)
    }
}

/// Computes `∏ alphas[i] ^ (X / x[i])`, where `X` is the product of every
/// exponent in `x`, by splitting both sequences at the midpoint and
/// composing the two halves, each raised to the other half's product.
/// Invoking it with zero elements is ill-defined and reports `EmptyInput`.
pub fn multi_exp<G: Group>(alphas: &[G::Elem], x: &[BigInt]) -> (r: Result<G::Elem, GroupError>)
    requires
        alphas@.len() == x@.len(),
        forall|i: int| 0 <= i < x@.len() ==> (#[trigger] x@[i]).wf(),
        all_in_group::<G>(views_of::<G>(alphas@)),
    ensures
        r is Ok <==> alphas@.len() > 0,
        r is Err ==> r->Err_0 == GroupError::EmptyInput,
        r is Ok ==> G::val_of(&r->Ok_0) == gbatch::<G>(views_of::<G>(alphas@), vals_of(x@), 1)
            && G::in_group(G::val_of(&r->Ok_0)),
{
    if alphas.len() == 0 {
        Err(GroupError::EmptyInput)
    } else {
        let out = multi_exp_range::<G>(alphas, x, 0, alphas.len());
        proof {
            assert(alphas@.subrange(0, alphas@.len() as int) =~= alphas@);
            assert(x@.subrange(0, x@.len() as int) =~= x@);
        }
        Ok(out)
    }
}

} // verus!
