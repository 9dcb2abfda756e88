//! Consequences of the group laws: identity, inverse, and power lemmas,
//! proved once for every family from `Group::lemma_laws`.
use vstd::prelude::*;
use super::{GroupBase, pow_nat, pow_int};

verus! {

/// Identity law: the identity is neutral on both sides.
pub proof fn lemma_identity<G: GroupBase>(a: G::V)
    requires
        G::in_group(a),
    ensures
        G::op_val(a, G::id_val()) == a,
        G::op_val(G::id_val(), a) == a,
{
    G::lemma_laws(a, G::id_val(), a);
}

/// Inverse law: composing with the inverse yields the identity either way.
pub proof fn lemma_inverse<G: GroupBase>(a: G::V)
    requires
        G::in_group(a),
    ensures
        G::in_group(G::inv_val(a)),
        G::op_val(a, G::inv_val(a)) == G::id_val(),
        G::op_val(G::inv_val(a), a) == G::id_val(),
{
    G::lemma_laws(a, G::inv_val(a), a);
}

/// Any right inverse of `a` is the inverse of `a`.
pub proof fn lemma_inverse_unique<G: GroupBase>(a: G::V, x: G::V)
    requires
        G::in_group(a),
        G::in_group(x),
        G::op_val(a, x) == G::id_val(),
    ensures
        x == G::inv_val(a),
{
    let i = G::inv_val(a);
    lemma_inverse::<G>(a);
    // x == x * (a * i) == (x * a) * i == id * i == i
    lemma_identity::<G>(x);
    G::lemma_laws(x, a, i);
    assert(G::op_val(x, G::op_val(a, i)) == G::op_val(G::op_val(x, a), i));
    G::lemma_laws(x, a, a);
    assert(G::op_val(x, a) == G::op_val(a, x));
    lemma_identity::<G>(i);
}

/// The identity is its own inverse.
pub proof fn lemma_inverse_identity<G: GroupBase>()
    ensures
        G::inv_val(G::id_val()) == G::id_val(),
{
    G::lemma_laws(G::id_val(), G::id_val(), G::id_val());
    lemma_identity::<G>(G::id_val());
    lemma_inverse_unique::<G>(G::id_val(), G::id_val());
}

/// Double inversion is the identity map.
pub proof fn lemma_inverse_involution<G: GroupBase>(a: G::V)
    requires
        G::in_group(a),
    ensures
        G::inv_val(G::inv_val(a)) == a,
{
    let i = G::inv_val(a);
    lemma_inverse::<G>(a);
    lemma_inverse_unique::<G>(i, a);
}

/// The inverse of a product is the product of the inverses.
pub proof fn lemma_inverse_op<G: GroupBase>(a: G::V, b: G::V)
    requires
        G::in_group(a),
        G::in_group(b),
    ensures
        G::inv_val(G::op_val(a, b)) == G::op_val(G::inv_val(a), G::inv_val(b)),
{
    let ia = G::inv_val(a);
    let ib = G::inv_val(b);
    lemma_inverse::<G>(a);
    lemma_inverse::<G>(b);
    let ab = G::op_val(a, b);
    let iab = G::op_val(ia, ib);
    G::lemma_laws(a, b, a);
    assert(G::in_group(ab));
    G::lemma_laws(ia, ib, ia);
    assert(G::in_group(iab));
    // (a*b) * (ia*ib) == a * (b * (ia*ib)) == a * ((b*ia)*ib) == a * ((ia*b)*ib)
    //   == a * (ia*(b*ib)) == a * (ia*id) == a*ia == id
    G::lemma_laws(a, b, iab);
    G::lemma_laws(b, ia, ib);
    assert(G::op_val(b, ia) == G::op_val(ia, b));
    G::lemma_laws(ia, b, ib);
    lemma_identity::<G>(ia);
    assert(G::op_val(ab, iab) == G::op_val(a, G::op_val(ia, G::op_val(b, ib))));
    assert(G::op_val(ab, iab) == G::op_val(a, ia));
    lemma_inverse_unique::<G>(ab, iab);
}

/// Powers stay in the group.
pub proof fn lemma_pow_in_group<G: GroupBase>(a: G::V, n: nat)
    requires
        G::in_group(a),
    ensures
        G::in_group(pow_nat::<G>(a, n)),
    decreases n,
{
    G::lemma_laws(a, a, a);
    if n > 0 {
        lemma_pow_in_group::<G>(a, (n - 1) as nat);
        G::lemma_laws(a, pow_nat::<G>(a, (n - 1) as nat), a);
    }
}

/// The first power is the element itself.
pub proof fn lemma_pow_one<G: GroupBase>(a: G::V)
    requires
        G::in_group(a),
    ensures
        pow_nat::<G>(a, 1) == a,
{
    assert(pow_nat::<G>(a, 0) == G::id_val());
    assert(pow_nat::<G>(a, 1) == G::op_val(a, G::id_val()));
    lemma_identity::<G>(a);
}

/// Exponent addition: `a^(m+n) == a^m * a^n`.
pub proof fn lemma_pow_add<G: GroupBase>(a: G::V, m: nat, n: nat)
    requires
        G::in_group(a),
    ensures
        pow_nat::<G>(a, m + n) == G::op_val(pow_nat::<G>(a, m), pow_nat::<G>(a, n)),
    decreases m,
{
    lemma_pow_in_group::<G>(a, n);
    if m == 0 {
        lemma_identity::<G>(pow_nat::<G>(a, n));
    } else {
        lemma_pow_add::<G>(a, (m - 1) as nat, n);
        lemma_pow_in_group::<G>(a, (m - 1) as nat);
        G::lemma_laws(a, pow_nat::<G>(a, (m - 1) as nat), pow_nat::<G>(a, n));
        assert(pow_nat::<G>(a, m + n) == G::op_val(a, pow_nat::<G>(a, (m + n - 1) as nat)));
    }
}

/// Exponent multiplication: `a^(m*n) == (a^m)^n`.
pub proof fn lemma_pow_mul<G: GroupBase>(a: G::V, m: nat, n: nat)
    requires
        G::in_group(a),
    ensures
        pow_nat::<G>(a, m * n) == pow_nat::<G>(pow_nat::<G>(a, m), n),
    decreases n,
{
    lemma_pow_in_group::<G>(a, m);
    if n == 0 {
        assert(m * n == 0) by (nonlinear_arith)
            requires n == 0;
    } else {
        lemma_pow_mul::<G>(a, m, (n - 1) as nat);
        assert(m * n == m + m * ((n - 1) as nat)) by (nonlinear_arith)
            requires n >= 1;
        lemma_pow_add::<G>(a, m, m * ((n - 1) as nat));
        assert(pow_nat::<G>(pow_nat::<G>(a, m), n) == G::op_val(
            pow_nat::<G>(a, m),
            pow_nat::<G>(pow_nat::<G>(a, m), (n - 1) as nat),
        ));
    }
}

/// Repeated-squaring step: `a^(2n) == (a*a)^n`.
pub proof fn lemma_pow_double<G: GroupBase>(a: G::V, n: nat)
    requires
        G::in_group(a),
    ensures
        pow_nat::<G>(a, 2 * n) == pow_nat::<G>(G::op_val(a, a), n),
    decreases n,
{
    lemma_pow_mul::<G>(a, 2, n);
    lemma_pow_one::<G>(a);
    assert(pow_nat::<G>(a, 2) == G::op_val(a, pow_nat::<G>(a, 1)));
    assert(pow_nat::<G>(a, 2) == G::op_val(a, a));
}

/// A power of the identity is the identity.
pub proof fn lemma_pow_identity<G: GroupBase>(n: nat)
    ensures
        pow_nat::<G>(G::id_val(), n) == G::id_val(),
    decreases n,
{
    G::lemma_laws(G::id_val(), G::id_val(), G::id_val());
    if n > 0 {
        lemma_pow_identity::<G>((n - 1) as nat);
        lemma_identity::<G>(G::id_val());
    }
}

/// A power of the inverse is the inverse of the power.
pub proof fn lemma_pow_inverse<G: GroupBase>(a: G::V, n: nat)
    requires
        G::in_group(a),
    ensures
        pow_nat::<G>(G::inv_val(a), n) == G::inv_val(pow_nat::<G>(a, n)),
    decreases n,
{
    lemma_inverse::<G>(a);
    if n == 0 {
        lemma_inverse_identity::<G>();
    } else {
        lemma_pow_inverse::<G>(a, (n - 1) as nat);
        lemma_pow_in_group::<G>(a, (n - 1) as nat);
        lemma_inverse_op::<G>(a, pow_nat::<G>(a, (n - 1) as nat));
    }
}

} // verus!

verus! {

/// Rearranging a product of four factors: `(a*b)*(x*y) == (a*x)*(b*y)`.
pub proof fn lemma_op_shuffle<G: GroupBase>(a: G::V, b: G::V, x: G::V, y: G::V)
    requires
        G::in_group(a),
        G::in_group(b),
        G::in_group(x),
        G::in_group(y),
    ensures
        G::op_val(G::op_val(a, b), G::op_val(x, y)) == G::op_val(G::op_val(a, x), G::op_val(b, y)),
{
    G::lemma_laws(x, y, x);
    G::lemma_laws(b, x, y);
    G::lemma_laws(x, b, y);
    assert(G::op_val(b, x) == G::op_val(x, b));
    G::lemma_laws(b, y, b);
    G::lemma_laws(a, b, G::op_val(x, y));
    assert(G::op_val(b, G::op_val(x, y)) == G::op_val(G::op_val(b, x), y));
    assert(G::op_val(b, G::op_val(x, y)) == G::op_val(x, G::op_val(b, y)));
    G::lemma_laws(a, x, G::op_val(b, y));
}

/// A power of a product is the product of the powers (the group is abelian).
pub proof fn lemma_pow_op<G: GroupBase>(a: G::V, b: G::V, n: nat)
    requires
        G::in_group(a),
        G::in_group(b),
    ensures
        pow_nat::<G>(G::op_val(a, b), n) == G::op_val(pow_nat::<G>(a, n), pow_nat::<G>(b, n)),
    decreases n,
{
    G::lemma_laws(a, b, a);
    if n == 0 {
        lemma_identity::<G>(G::id_val());
    } else {
        lemma_pow_op::<G>(a, b, (n - 1) as nat);
        lemma_pow_in_group::<G>(a, (n - 1) as nat);
        lemma_pow_in_group::<G>(b, (n - 1) as nat);
        lemma_op_shuffle::<G>(a, b, pow_nat::<G>(a, (n - 1) as nat), pow_nat::<G>(b, (n - 1) as nat));
    }
}

/// Signed powers stay in the group.
pub proof fn lemma_pow_int_in_group<G: GroupBase>(a: G::V, n: int)
    requires
        G::in_group(a),
    ensures
        G::in_group(pow_int::<G>(a, n)),
{
    if n >= 0 {
        lemma_pow_in_group::<G>(a, n as nat);
    } else {
        lemma_inverse::<G>(a);
        lemma_pow_in_group::<G>(G::inv_val(a), (-n) as nat);
    }
}

/// The first signed power is the element itself.
pub proof fn lemma_pow_int_one<G: GroupBase>(a: G::V)
    requires
        G::in_group(a),
    ensures
        pow_int::<G>(a, 1) == a,
{
    lemma_pow_one::<G>(a);
}

/// A signed power of the identity is the identity.
pub proof fn lemma_pow_int_identity<G: GroupBase>(n: int)
    ensures
        pow_int::<G>(G::id_val(), n) == G::id_val(),
{
    G::lemma_laws(G::id_val(), G::id_val(), G::id_val());
    lemma_inverse_identity::<G>();
    if n >= 0 {
        lemma_pow_identity::<G>(n as nat);
    } else {
        lemma_pow_identity::<G>((-n) as nat);
    }
}

/// Negative exponent law: `a^(-n) == (a^n)^(-1)`.
pub proof fn lemma_pow_int_neg<G: GroupBase>(a: G::V, n: int)
    requires
        G::in_group(a),
    ensures
        pow_int::<G>(a, -n) == G::inv_val(pow_int::<G>(a, n)),
{
    lemma_inverse::<G>(a);
    if n == 0 {
        lemma_inverse_identity::<G>();
    } else if n > 0 {
        lemma_pow_inverse::<G>(a, n as nat);
    } else {
        lemma_pow_inverse::<G>(a, (-n) as nat);
        lemma_pow_in_group::<G>(a, (-n) as nat);
        lemma_inverse_involution::<G>(pow_nat::<G>(a, (-n) as nat));
    }
}

/// A signed power of a product is the product of the signed powers.
pub proof fn lemma_pow_int_op<G: GroupBase>(a: G::V, b: G::V, n: int)
    requires
        G::in_group(a),
        G::in_group(b),
    ensures
        pow_int::<G>(G::op_val(a, b), n) == G::op_val(pow_int::<G>(a, n), pow_int::<G>(b, n)),
{
    G::lemma_laws(a, b, a);
    if n >= 0 {
        lemma_pow_op::<G>(a, b, n as nat);
    } else {
        lemma_inverse::<G>(a);
        lemma_inverse::<G>(b);
        lemma_inverse_op::<G>(a, b);
        lemma_pow_op::<G>(G::inv_val(a), G::inv_val(b), (-n) as nat);
    }
}

/// Signed exponent multiplication: `a^(m*n) == (a^m)^n`.
pub proof fn lemma_pow_int_mul<G: GroupBase>(a: G::V, m: int, n: int)
    requires
        G::in_group(a),
    ensures
        pow_int::<G>(a, m * n) == pow_int::<G>(pow_int::<G>(a, m), n),
{
    lemma_inverse::<G>(a);
    if m >= 0 && n >= 0 {
        assert(m * n >= 0) by (nonlinear_arith)
            requires m >= 0 && n >= 0;
        lemma_pow_mul::<G>(a, m as nat, n as nat);
        assert((m as nat) * (n as nat) == (m * n) as nat) by (nonlinear_arith)
            requires m >= 0 && n >= 0;
    } else if m >= 0 && n < 0 {
        assert(m * n <= 0) by (nonlinear_arith)
            requires m >= 0 && n < 0;
        lemma_pow_inverse::<G>(a, m as nat);
        lemma_pow_mul::<G>(G::inv_val(a), m as nat, (-n) as nat);
        assert((m as nat) * ((-n) as nat) == (-(m * n)) as nat) by (nonlinear_arith)
            requires m >= 0 && n < 0;
        lemma_pow_in_group::<G>(a, m as nat);
        if m * n == 0 {
            assert(pow_int::<G>(a, m * n) == G::id_val());
            lemma_pow_identity::<G>(0);
        }
    } else if m < 0 && n >= 0 {
        assert(m * n <= 0) by (nonlinear_arith)
            requires m < 0 && n >= 0;
        lemma_pow_mul::<G>(G::inv_val(a), (-m) as nat, n as nat);
        assert(((-m) as nat) * (n as nat) == (-(m * n)) as nat) by (nonlinear_arith)
            requires m < 0 && n >= 0;
    } else {
        assert(m * n > 0) by (nonlinear_arith)
            requires m < 0 && n < 0;
        lemma_pow_inverse::<G>(G::inv_val(a), (-m) as nat);
        lemma_inverse_involution::<G>(a);
        lemma_pow_mul::<G>(a, (-m) as nat, (-n) as nat);
        assert(((-m) as nat) * ((-n) as nat) == (m * n) as nat) by (nonlinear_arith)
            requires m < 0 && n < 0;
        lemma_pow_in_group::<G>(a, (-m) as nat);
        assert(pow_int::<G>(pow_int::<G>(a, m), n) == pow_nat::<G>(
            G::inv_val(pow_nat::<G>(G::inv_val(a), (-m) as nat)),
            (-n) as nat,
        ));
        assert(G::inv_val(pow_nat::<G>(G::inv_val(a), (-m) as nat)) == G::inv_val(
            G::inv_val(pow_nat::<G>(a, (-m) as nat)),
        )) by {
            lemma_pow_inverse::<G>(a, (-m) as nat);
        }
        lemma_inverse_involution::<G>(pow_nat::<G>(a, (-m) as nat));
    }
}

} // verus!

verus! {

use super::{sprod, gbatch, all_in_group};

/// Appending a factor multiplies the product.
pub proof fn lemma_sprod_push(xs: Seq<int>, v: int)
    ensures
        sprod(xs.push(v)) == sprod(xs) * v,
    decreases xs.len(),
{
    if xs.len() == 0 {
        assert(xs.push(v).drop_first() =~= Seq::<int>::empty());
        assert(sprod(Seq::<int>::empty()) == 1);
        assert(xs.push(v)[0] == v);
        assert(sprod(xs.push(v)) == v * 1);
    } else {
        assert(xs.push(v).drop_first() =~= xs.drop_first().push(v));
        lemma_sprod_push(xs.drop_first(), v);
        assert(xs[0] * (sprod(xs.drop_first()) * v) == (xs[0] * sprod(xs.drop_first())) * v)
            by (nonlinear_arith);
    }
}

/// Concatenation multiplies the products.
pub proof fn lemma_sprod_concat(xs: Seq<int>, ys: Seq<int>)
    ensures
        sprod(xs + ys) == sprod(xs) * sprod(ys),
    decreases xs.len(),
{
    if xs.len() == 0 {
        assert(xs + ys =~= ys);
    } else {
        assert((xs + ys).drop_first() =~= xs.drop_first() + ys);
        lemma_sprod_concat(xs.drop_first(), ys);
        assert(xs[0] * (sprod(xs.drop_first()) * sprod(ys)) == (xs[0] * sprod(xs.drop_first()))
            * sprod(ys)) by (nonlinear_arith);
    }
}

/// Batched products stay in the group.
pub proof fn lemma_gbatch_in_group<G: GroupBase>(alphas: Seq<G::V>, xs: Seq<int>, m: int)
    requires
        all_in_group::<G>(alphas),
    ensures
        G::in_group(gbatch::<G>(alphas, xs, m)),
    decreases alphas.len(),
{
    if alphas.len() == 0 {
        G::lemma_laws(G::id_val(), G::id_val(), G::id_val());
    } else {
        assert(G::in_group(alphas[0]));
        assert(all_in_group::<G>(alphas.drop_first()));
        lemma_gbatch_in_group::<G>(alphas.drop_first(), xs.drop_first(), m * xs[0]);
        lemma_pow_int_in_group::<G>(alphas[0], m * sprod(xs.drop_first()));
        G::lemma_laws(
            pow_int::<G>(alphas[0], m * sprod(xs.drop_first())),
            gbatch::<G>(alphas.drop_first(), xs.drop_first(), m * xs[0]),
            G::id_val(),
        );
    }
}

/// Scaling the outer exponent raises the whole batch to that power.
pub proof fn lemma_gbatch_scale<G: GroupBase>(alphas: Seq<G::V>, xs: Seq<int>, m: int, s: int)
    requires
        all_in_group::<G>(alphas),
    ensures
        gbatch::<G>(alphas, xs, m * s) == pow_int::<G>(gbatch::<G>(alphas, xs, m), s),
    decreases alphas.len(),
{
    if alphas.len() == 0 {
        lemma_pow_int_identity::<G>(s);
    } else {
        let a0 = alphas[0];
        let p0 = sprod(xs.drop_first());
        assert(G::in_group(a0));
        assert(all_in_group::<G>(alphas.drop_first()));
        assert((m * s) * p0 == (m * p0) * s) by (nonlinear_arith);
        assert((m * s) * xs[0] == (m * xs[0]) * s) by (nonlinear_arith);
        lemma_gbatch_scale::<G>(alphas.drop_first(), xs.drop_first(), m * xs[0], s);
        lemma_pow_int_mul::<G>(a0, m * p0, s);
        lemma_pow_int_in_group::<G>(a0, m * p0);
        lemma_gbatch_in_group::<G>(alphas.drop_first(), xs.drop_first(), m * xs[0]);
        lemma_pow_int_op::<G>(
            pow_int::<G>(a0, m * p0),
            gbatch::<G>(alphas.drop_first(), xs.drop_first(), m * xs[0]),
            s,
        );
    }
}

/// The split law behind divide-and-conquer multi-exponentiation: a batch
/// over a concatenation is the left batch scaled by the right exponents'
/// product, composed with the right batch scaled by the left's.
pub proof fn lemma_gbatch_split<G: GroupBase>(
    a1: Seq<G::V>,
    x1: Seq<int>,
    a2: Seq<G::V>,
    x2: Seq<int>,
    m: int,
)
    requires
        a1.len() == x1.len(),
        a2.len() == x2.len(),
        all_in_group::<G>(a1),
        all_in_group::<G>(a2),
    ensures
        gbatch::<G>(a1 + a2, x1 + x2, m) == G::op_val(
            gbatch::<G>(a1, x1, m * sprod(x2)),
            gbatch::<G>(a2, x2, m * sprod(x1)),
        ),
    decreases a1.len(),
{
    if a1.len() == 0 {
        assert(a1 + a2 =~= a2);
        assert(x1 + x2 =~= x2);
        lemma_gbatch_in_group::<G>(a2, x2, m);
        lemma_identity::<G>(gbatch::<G>(a2, x2, m));
    } else {
        let h = a1[0];
        let x0 = x1[0];
        let a1t = a1.drop_first();
        let x1t = x1.drop_first();
        assert(G::in_group(h));
        assert(all_in_group::<G>(a1t));
        assert((a1 + a2).drop_first() =~= a1t + a2);
        assert((x1 + x2).drop_first() =~= x1t + x2);
        lemma_sprod_concat(x1t, x2);
        lemma_gbatch_split::<G>(a1t, x1t, a2, x2, m * x0);
        // Exponent bookkeeping, all ring identities.
        assert(m * (sprod(x1t) * sprod(x2)) == (m * sprod(x2)) * sprod(x1t)) by (nonlinear_arith);
        assert((m * x0) * sprod(x2) == (m * sprod(x2)) * x0) by (nonlinear_arith);
        assert((m * x0) * sprod(x1t) == m * (x0 * sprod(x1t))) by (nonlinear_arith);
        let ph = pow_int::<G>(h, (m * sprod(x2)) * sprod(x1t));
        let g1 = gbatch::<G>(a1t, x1t, (m * sprod(x2)) * x0);
        let g2 = gbatch::<G>(a2, x2, m * (x0 * sprod(x1t)));
        lemma_pow_int_in_group::<G>(h, (m * sprod(x2)) * sprod(x1t));
        lemma_gbatch_in_group::<G>(a1t, x1t, (m * sprod(x2)) * x0);
        lemma_gbatch_in_group::<G>(a2, x2, m * (x0 * sprod(x1t)));
        G::lemma_laws(ph, g1, g2);
        assert(gbatch::<G>(a1 + a2, x1 + x2, m) == G::op_val(ph, G::op_val(g1, g2)));
        assert(gbatch::<G>(a1, x1, m * sprod(x2)) == G::op_val(ph, g1));
    }
}

} // verus!

verus! {

/// `a` squared `k` times over.
pub open spec fn iter_square<G: GroupBase>(a: G::V, k: nat) -> G::V
    decreases k,
{
    if k == 0 {
        a
    } else {
        let s = iter_square::<G>(a, (k - 1) as nat);
        G::op_val(s, s)
    }
}

/// Repeated-squaring equivalence: squaring an element `k` times equals
/// raising the original to `2^k`.
pub proof fn lemma_repeated_square<G: GroupBase>(a: G::V, k: nat)
    requires
        G::in_group(a),
    ensures
        iter_square::<G>(a, k) == pow_nat::<G>(a, vstd::arithmetic::power2::pow2(k)),
    decreases k,
{
    vstd::arithmetic::power2::lemma2_to64();
    if k == 0 {
        lemma_pow_one::<G>(a);
    } else {
        lemma_repeated_square::<G>(a, (k - 1) as nat);
        let e = vstd::arithmetic::power2::pow2((k - 1) as nat);
        let s = pow_nat::<G>(a, e);
        lemma_pow_add::<G>(a, e, e);
        vstd::arithmetic::power2::lemma_pow2_adds(1, (k - 1) as nat);
    }
}

} // verus!
