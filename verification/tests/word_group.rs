use unknown_order::bigint::BigInt;
use unknown_order::util::bigint;
use unknown_order::groups::word_add::WordAdd;
use unknown_order::groups::{multi_exp, ElemFrom, Group, GroupBase, GroupError, UnknownOrderGroup};

#[test]
fn test_word_id_basic() {
    let g = WordAdd::unknown_order_elemnew();
    let id = WordAdd::idnew();
    assert_eq!(g, WordAdd::opnew(&g, &id));
    assert_eq!(g, WordAdd::opnew(&id, &g));
    assert_eq!(id, WordAdd::opnew(&id, &id));
}

#[test]
fn test_word_inv() {
    let id = WordAdd::idnew();
    let mut g: u64 = 17;
    for _ in 0..1000 {
        g = WordAdd::opnew(&g, &3);
        let g_inv = WordAdd::invnew(&g);
        assert_eq!(id, WordAdd::opnew(&g_inv, &g));
        assert_eq!(id, WordAdd::opnew(&g, &g_inv));
        assert_eq!(g, WordAdd::invnew(&g_inv));
    }
}

#[test]
fn test_word_exp_basic() {
    let anchor: u64 = 3;
    let mut g = WordAdd::idnew();
    for i in 1..=1000i64 {
        g = WordAdd::opnew(&g, &anchor);
        assert_eq!(g, WordAdd::exp(&anchor, &bigint(i)));
    }
}

#[test]
fn test_word_exp_zero_and_negative() {
    let a: u64 = 41;
    assert_eq!(WordAdd::exp(&a, &bigint(0)), WordAdd::idnew());
    let pos = WordAdd::exp(&a, &bigint(9));
    assert_eq!(WordAdd::exp(&a, &bigint(-9)), WordAdd::invnew(&pos));
    assert_eq!(WordAdd::exp(&a, &bigint(-1)), a.wrapping_neg());
}

#[test]
fn test_word_exp_multi_limb() {
    // 2^64 acts as zero on the additive word group; 2^64 + 5 acts as 5.
    let a: u64 = 1;
    let two_to_64 = BigInt::new(false, vec![0, 1]);
    assert_eq!(WordAdd::exp(&a, &two_to_64), 0);
    let big = BigInt::new(false, vec![5, 1]);
    assert_eq!(WordAdd::exp(&a, &big), 5);
}

#[test]
fn test_word_square_repeated() {
    let g0: u64 = 3;
    let mut g = g0;
    for i in 0..12u32 {
        g = WordAdd::opnew(&g, &g);
        let mut base = WordAdd::idnew();
        for _ in 0..(2u64.pow(i + 1)) {
            base = WordAdd::opnew(&g0, &base);
        }
        assert_eq!(g, base);
    }
}

#[test]
fn test_multi_exp_simple() {
    let alphas: Vec<u64> = vec![2, 3, 5];
    let x = vec![bigint(7), bigint(11), bigint(13)];
    // 2*(11*13) + 3*(7*13) + 5*(7*11) == 944 in the additive group.
    let r = multi_exp::<WordAdd>(&alphas, &x).unwrap();
    assert_eq!(r, 944);
}

#[test]
fn test_multi_exp_singleton() {
    let alphas: Vec<u64> = vec![99];
    let x = vec![bigint(12345)];
    assert_eq!(multi_exp::<WordAdd>(&alphas, &x).unwrap(), 99);
}

#[test]
fn test_multi_exp_empty_is_error() {
    let alphas: Vec<u64> = vec![];
    let x: Vec<BigInt> = vec![];
    assert_eq!(multi_exp::<WordAdd>(&alphas, &x), Err(GroupError::EmptyInput));
}

#[test]
fn test_multi_exp_all_but_one() {
    // Take g^100, ..., g^1000, form the full product, and check that
    // composing with one inverse leaves the product of the others.
    let g = WordAdd::unknown_order_elemnew();
    let mut gs: Vec<u64> = vec![];
    let mut g_star = WordAdd::idnew();
    for i in 1..=10i64 {
        let e = WordAdd::exp(&g, &bigint(100 * i));
        gs.push(e);
        g_star = WordAdd::opnew(&g_star, &e);
    }
    for i in 0..10usize {
        let mut rest = WordAdd::idnew();
        for (j, e) in gs.iter().enumerate() {
            if j != i {
                rest = WordAdd::opnew(&rest, e);
            }
        }
        let inv = WordAdd::invnew(&gs[i]);
        assert_eq!(WordAdd::opnew(&inv, &g_star), rest);
    }
}

#[test]
fn test_word_elem_same_class() {
    // Two distinct raw triples with the same reduced value construct to
    // bit-identical elements.
    let e1 = WordAdd::elemnew((bigint(10), bigint(20), bigint(30))).unwrap();
    let e2 = WordAdd::elemnew((bigint(60), bigint(0), bigint(0))).unwrap();
    assert_eq!(e1, e2);
    let e3 = WordAdd::elemnew((bigint(-4), bigint(64), bigint(0))).unwrap();
    assert_eq!(e1, e3);
}

#[test]
fn test_multi_exp_wide_exponents() {
    // Exponent products overflow one machine word; the result folds back
    // into the additive word group.
    let alphas: Vec<u64> = vec![5, 9, 11];
    let x = vec![
        BigInt::new(false, vec![(1u64 << 40) + 1]),
        BigInt::new(false, vec![(1u64 << 41) + 3]),
        BigInt::new(false, vec![(1u64 << 42) + 7]),
    ];
    let r = multi_exp::<WordAdd>(&alphas, &x).unwrap();
    assert_eq!(r, 312261302288585u64);
}

#[test]
fn test_word_elem_rejects_malformed() {
    // A representation with a trailing zero limb (or a negative zero) is
    // not canonical and is reported, not accepted.
    let bad = BigInt { neg: false, limbs: vec![1, 0] };
    let r = WordAdd::elemnew((bad, bigint(1), bigint(2)));
    assert_eq!(r, Err(GroupError::MalformedElement));
    let neg_zero = BigInt { neg: true, limbs: vec![] };
    let r2 = WordAdd::elemnew((bigint(1), neg_zero, bigint(2)));
    assert_eq!(r2, Err(GroupError::MalformedElement));
}
