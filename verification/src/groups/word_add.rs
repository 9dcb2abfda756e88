//! A concrete group family over machine words: addition modulo 2^64.
//!
//! Its order is known, so it offers no cryptographic hardness; it exists to
//! show that the group laws are satisfiable and to exercise the generic
//! algorithms with exactly predictable values. All of it is verified; no
//! outside arithmetic is involved.
use vstd::prelude::*;
use vstd::arithmetic::div_mod::{
    lemma_add_mod_noop, lemma_mod_bound, lemma_mod_multiples_vanish, lemma_small_mod,
};
use crate::bigint::BigInt;
use crate::util::TypeRep;
use crate::groups::{ElemFrom, Group, GroupBase, GroupError};

verus! {

/// The additive group of `u64` words; the family parameter is trivial.
pub struct WordAdd;

impl TypeRep for WordAdd {
    type Rep = ();

    open spec fn spec_rep() -> () {
        ()
    }

    fn rep() -> (r: ()) {
        ()
    }
}

/// Reduces any integer into the group's carrier range.
pub open spec fn word_mod(v: int) -> int {
    v % 0x10000000000000000
}

proof fn lemma_word_mod_add(a: int, b: int)
    requires
        0 <= a < 0x10000000000000000,
        0 <= b < 0x10000000000000000,
    ensures
        0 <= word_mod(a + b) < 0x10000000000000000,
        a + b < 0x10000000000000000 ==> word_mod(a + b) == a + b,
        a + b >= 0x10000000000000000 ==> word_mod(a + b) == a + b - 0x10000000000000000,
{
    let m = 0x10000000000000000int;
    lemma_mod_bound(a + b, m);
    if a + b < m {
        lemma_small_mod((a + b) as nat, m as nat);
    } else {
        lemma_mod_multiples_vanish(-1, a + b, m);
        lemma_small_mod((a + b - m) as nat, m as nat);
    }
}

impl GroupBase for WordAdd {
    type Elem = u64;

    type V = int;

    open spec fn val_of(e: &u64) -> int {
        *e as int
    }

    open spec fn in_group(v: int) -> bool {
        0 <= v < 0x10000000000000000
    }

    open spec fn id_val() -> int {
        0
    }

    open spec fn op_val(a: int, b: int) -> int {
        word_mod(a + b)
    }

    open spec fn inv_val(a: int) -> int {
        if a == 0 {
            0
        } else {
            0x10000000000000000 - a
        }
    }

    proof fn lemma_laws(a: int, b: int, c: int) {
        let m = 0x10000000000000000int;
        if Self::in_group(a) && Self::in_group(b) {
            lemma_word_mod_add(a, b);
        }
        if Self::in_group(a) {
            lemma_word_mod_add(a, 0);
            lemma_word_mod_add(a, Self::inv_val(a));
        }
        if Self::in_group(a) && Self::in_group(b) && Self::in_group(c) {
            lemma_word_mod_add(a, b);
            lemma_word_mod_add(b, c);
            lemma_word_mod_add(word_mod(a + b), c);
            lemma_word_mod_add(a, word_mod(b + c));
            lemma_add_mod_noop(a + b, c, m);
            lemma_add_mod_noop(a, b + c, m);
            lemma_small_mod(a as nat, m as nat);
            lemma_small_mod(b as nat, m as nat);
            lemma_small_mod(c as nat, m as nat);
        }
    }

    fn id_(rep: &()) -> (r: u64) {
        0
    }

    fn op_(rep: &(), a: &u64, b: &u64) -> (r: u64) {
        let r = a.wrapping_add(*b);
        proof {
            lemma_word_mod_add(*a as int, *b as int);
        }
        r
    }

    fn inv_(rep: &(), a: &u64) -> (r: u64) {
        0u64.wrapping_sub(*a)
    }
}

impl Group for WordAdd {
}

impl ElemFrom<u64> for WordAdd {
    open spec fn elem_ok(val: u64) -> bool {
        true
    }

    open spec fn elem_val(val: u64) -> int {
        val as int
    }

    fn elemnew(val: u64) -> (r: Result<u64, GroupError>) {
        Ok(val)
    }
}

} // verus!

verus! {

use vstd::arithmetic::div_mod::lemma_mod_self_0;
use crate::bigint::{limbs_val, lemma_limbs_val_singleton};
use crate::groups::{HashPrime, UnknownOrderGroup};

impl UnknownOrderGroup for WordAdd {
    /// The word 1 generates the whole group; its order (2^64) is of course
    /// known, so this family gives the capability its interface but none of
    /// the cryptographic hardness a real unknown-order family assumes.
    open spec fn gen_val() -> int {
        1
    }

    fn unknown_order_elem_(rep: &()) -> (r: u64) {
        1
    }
}

/// The residue of an arbitrary-precision value in the group's carrier.
pub fn word_of_big(b: &BigInt) -> (r: u64)
    requires
        b.wf(),
    ensures
        r as int == word_mod(b@),
{
    let m: u64 = if b.limbs.len() == 0 {
        0
    } else {
        b.limbs[0]
    };
    proof {
        let s = b.limbs@;
        let w = 0x10000000000000000int;
        if s.len() == 0 {
            lemma_mod_self_0(w);
            assert(word_mod(0) == 0);
        } else {
            let rest = limbs_val(s.drop_first()) as int;
            assert(limbs_val(s) == s[0] + rest * w);
            lemma_mod_multiples_vanish(rest, s[0] as int, w);
            lemma_small_mod(s[0] as nat, w as nat);
            assert((s[0] + rest * w) % w == s[0] as int);
        }
    }
    if b.neg {
        let r = 0u64.wrapping_sub(m);
        proof {
            let s = b.limbs@;
            let w = 0x10000000000000000int;
            let rest = limbs_val(s.drop_first()) as int;
            assert(b@ == -(s[0] + rest * w));
            assert(-(s[0] + rest * w) == (w - s[0]) + (-rest - 1) * w) by (nonlinear_arith);
            lemma_mod_multiples_vanish(-rest - 1, w - s[0], w);
            if m == 0 {
                lemma_mod_self_0(w);
            } else {
                lemma_small_mod((w - s[0]) as nat, w as nat);
            }
        }
        r
    } else {
        m
    }
}

impl ElemFrom<(BigInt, BigInt, BigInt)> for WordAdd {
    /// Every triple reduces: the family has no invalid raw values.
    open spec fn elem_ok(val: (BigInt, BigInt, BigInt)) -> bool {
        val.0.wf() && val.1.wf() && val.2.wf()
    }

    open spec fn elem_val(val: (BigInt, BigInt, BigInt)) -> int {
        word_mod(val.0@ + val.1@ + val.2@)
    }

    fn elemnew(val: (BigInt, BigInt, BigInt)) -> (r: Result<u64, GroupError>) {
        if !(val.0.wf_check() && val.1.wf_check() && val.2.wf_check()) {
            return Err(GroupError::MalformedElement);
        }
        let a = word_of_big(&val.0);
        let b = word_of_big(&val.1);
        let c = word_of_big(&val.2);
        let r = a.wrapping_add(b).wrapping_add(c);
        proof {
            let w = 0x10000000000000000int;
            let (x, y, z) = (val.0@, val.1@, val.2@);
            lemma_add_mod_noop(x, y, w);
            lemma_add_mod_noop(x + y, z, w);
            lemma_word_mod_add(word_mod(x) as int, word_mod(y) as int);
            lemma_word_mod_add(word_mod(x + y) as int, word_mod(z) as int);
            lemma_mod_bound(x, w);
            lemma_mod_bound(y, w);
            lemma_mod_bound(z, w);
            lemma_mod_bound(x + y, w);
            lemma_small_mod(word_mod(x) as nat, w as nat);
            lemma_small_mod(word_mod(y) as nat, w as nat);
            lemma_small_mod(word_mod(z) as nat, w as nat);
        }
        Ok(r)
    }
}

/// A short checksum of a byte string, folded left to right.
pub open spec fn byte_fold(t: Seq<u8>) -> nat
    decreases t.len(),
{
    if t.len() == 0 {
        0
    } else {
        ((byte_fold(t.drop_last()) + t.last()) % 997) as nat
    }
}

/// The small prime this family's hash assigns to a checksum.
pub open spec fn fold_prime(h: nat) -> u64 {
    if h % 4 == 0 {
        2
    } else if h % 4 == 1 {
        3
    } else if h % 4 == 2 {
        5
    } else {
        7
    }
}

/// The four primes this family's hash can yield are prime.
proof fn lemma_single_digit_primes()
    ensures
        crate::groups::is_prime(2),
        crate::groups::is_prime(3),
        crate::groups::is_prime(5),
        crate::groups::is_prime(7),
{
    assert forall|d: nat| 2 <= d < 7 implies #[trigger] (7nat % d) != 0 by {
        if d == 2 {
            assert(7nat % 2 == 1);
        } else if d == 3 {
            assert(7nat % 3 == 1);
        } else if d == 4 {
            assert(7nat % 4 == 3);
        } else if d == 5 {
            assert(7nat % 5 == 2);
        } else {
            assert(7nat % 6 == 1);
        }
    }
    assert forall|d: nat| 2 <= d < 5 implies #[trigger] (5nat % d) != 0 by {
        if d == 2 {
            assert(5nat % 2 == 1);
        } else if d == 3 {
            assert(5nat % 3 == 2);
        } else {
            assert(5nat % 4 == 1);
        }
    }
    assert(3nat % 2 == 1);
}

impl HashPrime for WordAdd {
    type Native = u64;

    open spec fn native_val(n: u64) -> int {
        n as int
    }

    /// Deterministic and prime, though drawn from a tiny set: enough for a
    /// family whose group offers no hardness either.
    open spec fn prime_limbs(t: Seq<u8>) -> Seq<u64> {
        seq![fold_prime(byte_fold(t))]
    }

    open spec fn native_prime(t: Seq<u8>) -> u64 {
        fold_prime(byte_fold(t))
    }

    fn pick_prime_native(t: &[u8]) -> (r: u64) {
        let p = Self::pick_prime_integer(t);
        let r = p.limbs[0];
        proof {
            assert(Self::prime_limbs(t@)[0] == fold_prime(byte_fold(t@)));
            lemma_limbs_val_singleton(Self::prime_limbs(t@));
        }
        r
    }

    #[verifier::loop_isolation(false)]
    fn pick_prime_integer(t: &[u8]) -> (r: BigInt) {
        let mut h: u64 = 0;
        let mut i: usize = 0;
        while i < t.len()
            invariant
                i <= t@.len(),
                h < 997,
                h == byte_fold(t@.subrange(0, i as int)),
            decreases t@.len() - i,
        {
            let b = *vstd::slice::slice_index_get(t, i);
            proof {
                assert(t@.subrange(0, i as int + 1).drop_last() =~= t@.subrange(0, i as int));
                assert(t@.subrange(0, i as int + 1).last() == t@[i as int]);
            }
            h = (h + b as u64) % 997;
            i = i + 1;
        }
        proof {
            assert(t@.subrange(0, t@.len() as int) =~= t@);
        }
        let p: u64 = if h % 4 == 0 {
            2
        } else if h % 4 == 1 {
            3
        } else if h % 4 == 2 {
            5
        } else {
            7
        };
        let mut v: Vec<u64> = Vec::new();
        v.push(p);
        proof {
            lemma_limbs_val_singleton(v@);
            assert(v@ =~= seq![p]);
            lemma_single_digit_primes();
        }
        BigInt { neg: false, limbs: v }
    }
}

} // verus!
