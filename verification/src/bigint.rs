//! Signed arbitrary-precision integers, stored as base-2^64 limbs.
//!
//! Exponents of group elements can exceed any machine integer, so they are
//! carried as a sign together with little-endian limbs. The spec-level value
//! of a number is an `int`, reached through `View`.
use vstd::prelude::*;

verus! {

/// Value of a little-endian limb sequence.
pub open spec fn limbs_val(s: Seq<u64>) -> nat
    decreases s.len(),
{
    if s.len() == 0 {
        0
    } else {
        (s[0] + limbs_val(s.drop_first()) * 0x10000000000000000) as nat
    }
}

/// No trailing zero limb: every value has exactly one canonical limb sequence.
pub open spec fn limbs_canon(s: Seq<u64>) -> bool {
    s.len() == 0 || s[s.len() - 1] != 0
}

/// A signed arbitrary-precision integer; zero is stored with no limbs and
/// a positive sign.
pub struct BigInt {
    pub neg: bool,
    pub limbs: Vec<u64>,
}

impl BigInt {
    /// Canonical representation: no trailing zero limb, and no negative zero.
    pub open spec fn wf(&self) -> bool {
        limbs_canon(self.limbs@) && (self.neg ==> self.limbs@.len() > 0)
    }
}

impl View for BigInt {
    type V = int;

    open spec fn view(&self) -> int {
        if self.neg {
            -(limbs_val(self.limbs@) as int)
        } else {
            limbs_val(self.limbs@) as int
        }
    }
}

/// A canonical, non-empty limb sequence denotes a nonzero value.
pub proof fn lemma_limbs_val_pos(s: Seq<u64>)
    requires
        limbs_canon(s),
        s.len() > 0,
    ensures
        limbs_val(s) >= 1,
    decreases s.len(),
{
    if s.len() == 1 {
        assert(limbs_val(s) == (s[0] + limbs_val(s.drop_first()) * 0x10000000000000000) as nat);
        assert(s.drop_first().len() == 0);
    } else {
        let t = s.drop_first();
        assert(t[t.len() - 1] == s[s.len() - 1]);
        lemma_limbs_val_pos(t);
    }
}


/// Value of a single limb.
pub proof fn lemma_limbs_val_singleton(s: Seq<u64>)
    requires
        s.len() == 1,
    ensures
        limbs_val(s) == s[0],
{
    assert(limbs_val(s.drop_first()) == 0);
}

/// Dropping a trailing zero limb keeps the value.
proof fn lemma_drop_last_zero(s: Seq<u64>)
    requires
        s.len() > 0,
        s[s.len() - 1] == 0,
    ensures
        limbs_val(s) == limbs_val(s.drop_last()),
    decreases s.len(),
{
    if s.len() == 1 {
        assert(s[0] == 0);
        assert(limbs_val(s.drop_first()) == 0);
        assert(limbs_val(s.drop_last()) == 0);
    } else {
        let t = s.drop_first();
        assert(t[t.len() - 1] == s[s.len() - 1]);
        lemma_drop_last_zero(t);
        assert(s.drop_last().drop_first() =~= t.drop_last());
        assert(limbs_val(s.drop_last()) == (s[0] + limbs_val(t.drop_last()) * 0x10000000000000000) as nat);
    }
}


/// Peeling one limb off the front of a suffix.
pub proof fn lemma_limbs_val_suffix(s: Seq<u64>, i: int)
    requires
        0 <= i < s.len(),
    ensures
        limbs_val(s.subrange(i, s.len() as int)) == s[i] + limbs_val(
            s.subrange(i + 1, s.len() as int),
        ) * 0x10000000000000000,
{
    let t = s.subrange(i, s.len() as int);
    assert(t[0] == s[i]);
    assert(t.drop_first() =~= s.subrange(i + 1, s.len() as int));
}

impl BigInt {
    /// Builds the canonical number with the given sign and magnitude limbs.
    pub fn new(neg: bool, limbs: Vec<u64>) -> (r: BigInt)
        ensures
            r.wf(),
            r@ == if neg {
                -(limbs_val(limbs@) as int)
            } else {
                limbs_val(limbs@) as int
            },
    {
        let ghost orig = limbs@;
        let mut v = limbs;
        while v.len() > 0 && v[v.len() - 1] == 0
            invariant
                limbs_val(v@) == limbs_val(orig),
            decreases v.len(),
        {
            proof {
                lemma_drop_last_zero(v@);
            }
            let _ = v.pop();
        }
        if v.len() == 0 {
            BigInt { neg: false, limbs: v }
        } else {
            BigInt { neg, limbs: v }
        }
    }

    /// The number with the given small nonnegative value.
    pub fn from_u64(x: u64) -> (r: BigInt)
        ensures
            r.wf(),
            r@ == x as int,
    {
        let mut v: Vec<u64> = Vec::new();
        if x != 0 {
            v.push(x);
            proof {
                lemma_limbs_val_singleton(v@);
            }
        }
        BigInt { neg: false, limbs: v }
    }

    /// The number with the given small signed value.
    pub fn from_i64(x: i64) -> (r: BigInt)
        ensures
            r.wf(),
            r@ == x as int,
    {
        if x >= 0 {
            BigInt::from_u64(x as u64)
        } else {
            let m: u64 = (-(x as i128)) as u64;
            let mut v: Vec<u64> = Vec::new();
            v.push(m);
            proof {
                lemma_limbs_val_singleton(v@);
            }
            BigInt { neg: true, limbs: v }
        }
    }

    /// Decides well-formedness of the representation.
    pub fn wf_check(&self) -> (r: bool)
        ensures
            r == self.wf(),
    {
        let canon = self.limbs.len() == 0 || *self.limbs.last().unwrap() != 0;
        canon && (!self.neg || self.limbs.len() > 0)
    }
}

} // verus!

verus! {

use vstd::arithmetic::power::{lemma_pow0, lemma_pow1, lemma_pow_adds, lemma_pow_positive, pow};

/// The weight of the limb at position `i`.
pub open spec fn limb_weight(i: nat) -> int {
    pow(0x10000000000000000, i)
}

proof fn lemma_weight_facts(i: nat)
    ensures
        limb_weight(0) == 1,
        limb_weight(i + 1) == limb_weight(i) * 0x10000000000000000,
        limb_weight(i) >= 1,
{
    lemma_pow0(0x10000000000000000);
    lemma_pow1(0x10000000000000000);
    lemma_pow_adds(0x10000000000000000, i, 1);
    lemma_pow_positive(0x10000000000000000, i);
}

/// Appending a limb adds its weighted value.
proof fn lemma_limbs_val_snoc(s: Seq<u64>, v: u64)
    ensures
        limbs_val(s.push(v)) as int == limbs_val(s) + v * limb_weight(s.len()),
    decreases s.len(),
{
    lemma_weight_facts(s.len());
    if s.len() == 0 {
        lemma_limbs_val_singleton(s.push(v));
    } else {
        let t = s.drop_first();
        assert(s.push(v).drop_first() =~= t.push(v));
        lemma_limbs_val_snoc(t, v);
        lemma_weight_facts(t.len());
        assert(limbs_val(s.push(v)) as int == s[0] + (limbs_val(t) + v * limb_weight(t.len()))
            * 0x10000000000000000);
        assert((limbs_val(t) + v * limb_weight(t.len())) * 0x10000000000000000 == limbs_val(t)
            * 0x10000000000000000 + v * (limb_weight(t.len()) * 0x10000000000000000))
            by (nonlinear_arith);
    }
}

/// The prefix of `s` up to `i`, the whole of `s` once `i` passes its end.
pub open spec fn limbs_prefix(s: Seq<u64>, i: int) -> Seq<u64> {
    s.subrange(0, if i > s.len() { s.len() as int } else { i })
}

/// How the prefix value grows when one more position is taken in.
proof fn lemma_prefix_step(s: Seq<u64>, i: int)
    requires
        0 <= i,
    ensures
        i < s.len() ==> limbs_val(limbs_prefix(s, i + 1)) as int == limbs_val(limbs_prefix(s, i))
            + s[i] * limb_weight(i as nat),
        i >= s.len() ==> limbs_prefix(s, i + 1) == limbs_prefix(s, i),
{
    if i < s.len() {
        assert(limbs_prefix(s, i + 1) =~= limbs_prefix(s, i).push(s[i]));
        lemma_limbs_val_snoc(limbs_prefix(s, i), s[i]);
    } else {
        assert(limbs_prefix(s, i + 1) =~= limbs_prefix(s, i));
    }
}

/// Magnitude addition with carry propagation.
#[verifier::loop_isolation(false)]
fn add_mag(a: &Vec<u64>, b: &Vec<u64>) -> (r: Vec<u64>)
    ensures
        limbs_val(r@) == limbs_val(a@) + limbs_val(b@),
{
    let mut out: Vec<u64> = Vec::new();
    let mut carry: u64 = 0;
    let mut i: usize = 0;
    let n = if a.len() > b.len() {
        a.len()
    } else {
        b.len()
    };
    proof {
        assert(limbs_prefix(a@, 0) =~= Seq::<u64>::empty());
        assert(limbs_prefix(b@, 0) =~= Seq::<u64>::empty());
        assert(limbs_val(Seq::<u64>::empty()) == 0);
        lemma_weight_facts(0);
    }
    while i < n
        invariant
            i <= n,
            out@.len() == i,
            carry <= 1,
            limbs_val(out@) + carry * limb_weight(i as nat) == limbs_val(limbs_prefix(a@, i as int))
                + limbs_val(limbs_prefix(b@, i as int)),
        decreases n - i,
    {
        let da: u64 = if i < a.len() {
            a[i]
        } else {
            0
        };
        let db: u64 = if i < b.len() {
            b[i]
        } else {
            0
        };
        let wide: u128 = (da as u128) + (db as u128) + (carry as u128);
        let lo: u64 = (wide % 0x10000000000000000) as u64;
        let hi: u64 = (wide / 0x10000000000000000) as u64;
        proof {
            lemma_weight_facts(i as nat);
            lemma_limbs_val_snoc(out@, lo);
            lemma_prefix_step(a@, i as int);
            lemma_prefix_step(b@, i as int);
            assert(wide == lo + 0x10000000000000000 * hi);
            assert((lo + 0x10000000000000000 * hi) * limb_weight(i as nat) == lo * limb_weight(
                i as nat,
            ) + hi * (limb_weight(i as nat) * 0x10000000000000000)) by (nonlinear_arith);
            assert((da + db + carry) * limb_weight(i as nat) == da * limb_weight(i as nat) + db
                * limb_weight(i as nat) + carry * limb_weight(i as nat)) by (nonlinear_arith);
        }
        out.push(lo);
        carry = hi;
        i = i + 1;
    }
    proof {
        assert(limbs_prefix(a@, i as int) =~= a@);
        assert(limbs_prefix(b@, i as int) =~= b@);
        assert(limbs_val(out@) + carry * limb_weight(i as nat) == limbs_val(a@) + limbs_val(b@));
    }
    if carry > 0 {
        proof {
            lemma_limbs_val_snoc(out@, carry);
        }
        out.push(carry);
        proof {
            assert(limbs_val(out@) as int == limbs_val(a@) + limbs_val(b@));
        }
    } else {
        proof {
            assert(carry * limb_weight(i as nat) == 0) by (nonlinear_arith)
                requires carry == 0;
            assert(limbs_val(out@) == limbs_val(a@) + limbs_val(b@));
        }
    }
    out
}

/// Magnitude times a single limb, with carry propagation.
#[verifier::loop_isolation(false)]
fn mul_limb(a: &Vec<u64>, s: u64) -> (r: Vec<u64>)
    ensures
        limbs_val(r@) == limbs_val(a@) * s,
{
    let mut out: Vec<u64> = Vec::new();
    let mut carry: u64 = 0;
    let mut i: usize = 0;
    proof {
        assert(limbs_prefix(a@, 0) =~= Seq::<u64>::empty());
        assert(limbs_val(Seq::<u64>::empty()) == 0);
        assert(0 * s == 0) by (nonlinear_arith);
        lemma_weight_facts(0);
    }
    while i < a.len()
        invariant
            i <= a@.len(),
            out@.len() == i,
            limbs_val(out@) + carry * limb_weight(i as nat) == limbs_val(limbs_prefix(a@, i as int))
                * s,
        decreases a@.len() - i,
    {
        proof {
            assert((a@[i as int] as int) * (s as int) <= (0xffffffffffffffffint)
                * (0xffffffffffffffffint)) by (nonlinear_arith)
                requires a@[i as int] <= 0xffffffffffffffffu64 && s <= 0xffffffffffffffffu64;
        }
        let wide: u128 = (a[i] as u128) * (s as u128) + (carry as u128);
        let lo: u64 = (wide % 0x10000000000000000) as u64;
        let hi: u64 = (wide / 0x10000000000000000) as u64;
        proof {
            lemma_weight_facts(i as nat);
            lemma_limbs_val_snoc(out@, lo);
            lemma_prefix_step(a@, i as int);
            assert(wide == lo + 0x10000000000000000 * hi);
            assert((lo + 0x10000000000000000 * hi) * limb_weight(i as nat) == lo * limb_weight(
                i as nat,
            ) + hi * (limb_weight(i as nat) * 0x10000000000000000)) by (nonlinear_arith);
            assert((a@[i as int] * s + carry) * limb_weight(i as nat) == (a@[i as int] * s)
                * limb_weight(i as nat) + carry * limb_weight(i as nat)) by (nonlinear_arith);
            assert((limbs_val(limbs_prefix(a@, i as int)) + a@[i as int] * limb_weight(i as nat))
                * s == limbs_val(limbs_prefix(a@, i as int)) * s + (a@[i as int] * s)
                * limb_weight(i as nat)) by (nonlinear_arith);
        }
        out.push(lo);
        carry = hi;
        i = i + 1;
    }
    proof {
        assert(limbs_prefix(a@, i as int) =~= a@);
        assert(limbs_val(out@) + carry * limb_weight(i as nat) == limbs_val(a@) * s);
    }
    if carry > 0 {
        proof {
            lemma_limbs_val_snoc(out@, carry);
        }
        out.push(carry);
        proof {
            assert(limbs_val(out@) as int == limbs_val(a@) * s);
        }
    } else {
        proof {
            assert(carry * limb_weight(i as nat) == 0) by (nonlinear_arith)
                requires carry == 0;
            assert(limbs_val(out@) as int == limbs_val(a@) * s);
        }
    }
    out
}

/// One-limb left shift: multiplies the magnitude by the base.
#[verifier::loop_isolation(false)]
fn shift_limb(a: &Vec<u64>) -> (r: Vec<u64>)
    ensures
        limbs_val(r@) == limbs_val(a@) * 0x10000000000000000,
{
    let mut out: Vec<u64> = Vec::new();
    out.push(0);
    let mut i: usize = 0;
    while i < a.len()
        invariant
            i <= a@.len(),
            out@.len() == i + 1,
            out@[0] == 0,
            out@.drop_first() =~= a@.subrange(0, i as int),
        decreases a@.len() - i,
    {
        out.push(a[i]);
        proof {
            assert(out@.drop_first() =~= a@.subrange(0, i as int + 1));
        }
        i = i + 1;
    }
    proof {
        assert(out@.drop_first() =~= a@);
        assert(limbs_val(out@) == 0 + limbs_val(a@) * 0x10000000000000000);
    }
    out
}

/// Magnitude multiplication, folding from the most significant limb down.
#[verifier::loop_isolation(false)]
fn mul_mag(a: &Vec<u64>, b: &Vec<u64>) -> (r: Vec<u64>)
    ensures
        limbs_val(r@) == limbs_val(a@) * limbs_val(b@),
{
    let mut acc: Vec<u64> = Vec::new();
    let mut j: usize = b.len();
    proof {
        assert(b@.subrange(b@.len() as int, b@.len() as int) =~= Seq::<u64>::empty());
        assert(limbs_val(acc@) == limbs_val(a@) * 0) by (nonlinear_arith)
            requires limbs_val(acc@) == 0;
    }
    while j > 0
        invariant
            j <= b@.len(),
            limbs_val(acc@) == limbs_val(a@) * limbs_val(b@.subrange(j as int, b@.len() as int)),
        decreases j,
    {
        j = j - 1;
        let shifted = shift_limb(&acc);
        let part = mul_limb(a, b[j]);
        let ghost tail = limbs_val(b@.subrange(j as int + 1, b@.len() as int));
        acc = add_mag(&shifted, &part);
        proof {
            lemma_limbs_val_suffix(b@, j as int);
            assert((limbs_val(a@) * tail) * 0x10000000000000000 + limbs_val(a@) * b@[j as int]
                == limbs_val(a@) * (b@[j as int] + tail * 0x10000000000000000))
                by (nonlinear_arith);
        }
    }
    proof {
        assert(b@.subrange(0, b@.len() as int) =~= b@);
    }
    acc
}

impl BigInt {
    /// The product of two signed numbers.
    pub fn mul(&self, other: &BigInt) -> (r: BigInt)
        requires
            self.wf(),
            other.wf(),
        ensures
            r.wf(),
            r@ == self@ * other@,
    {
        let mag = mul_mag(&self.limbs, &other.limbs);
        let neg = self.neg != other.neg;
        let r = BigInt::new(neg, mag);
        proof {
            let va = limbs_val(self.limbs@) as int;
            let vb = limbs_val(other.limbs@) as int;
            if self.neg {
                if other.neg {
                    assert((-va) * (-vb) == va * vb) by (nonlinear_arith);
                } else {
                    assert((-va) * vb == -(va * vb)) by (nonlinear_arith);
                }
            } else {
                if other.neg {
                    assert(va * (-vb) == -(va * vb)) by (nonlinear_arith);
                }
            }
        }
        r
    }
}

} // verus!
