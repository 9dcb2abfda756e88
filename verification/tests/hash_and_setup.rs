use unknown_order::bigint::BigInt;
use unknown_order::groups::word_add::WordAdd;
use unknown_order::groups::HashPrime;
use unknown_order::primitives::polynomial_comm::PolyComm;
use unknown_order::util::floor_log2;
use unknown_order::groups::UnknownOrderGroup;

fn is_prime_trial(n: u64) -> bool {
    if n < 2 {
        return false;
    }
    let mut d = 2u64;
    while d * d <= n {
        if n % d == 0 {
            return false;
        }
        d += 1;
    }
    true
}

fn value_of(b: &BigInt) -> u64 {
    assert!(!b.neg);
    match b.limbs.len() {
        0 => 0,
        1 => b.limbs[0],
        _ => panic!("unexpectedly large"),
    }
}

#[test]
fn test_hash_to_prime() {
    let b_1 = b"boom i got ur boyfriend";
    let b_2 = b"boom i got ur boyfriene";
    assert_ne!(b_1, b_2);
    let m_1 = WordAdd::pick_prime_integer(b_1);
    let m_2 = WordAdd::pick_prime_integer(b_2);
    let m_1_again = WordAdd::pick_prime_integer(b_1);
    assert_eq!(m_1.limbs, m_1_again.limbs);
    assert_eq!(m_1.neg, m_1_again.neg);
    assert_ne!(value_of(&m_1), value_of(&m_2));
    assert!(is_prime_trial(value_of(&m_1)));
    assert!(is_prime_trial(value_of(&m_2)));
}

#[test]
fn test_poly_setup() {
    let d_max = 2;
    let _lambda = 2048;
    let _a = WordAdd::unknown_order_elemnew();
    let _pp = PolyComm::<WordAdd, BigInt>::setup(_lambda, d_max);
}

#[test]
fn test_setup_bound_degree_two() {
    // d_max = 2 gives bound 2*floor(log2(3)) + 1 == 3, so q == p^3.
    let pp = PolyComm::<WordAdd, BigInt>::setup(2048, 2).unwrap();
    assert_eq!(pp.q, pp.p.wrapping_mul(3));
    assert_eq!(pp.disc, 1);
    assert_eq!(pp.g, 1);
}

#[test]
fn test_setup_degenerate_bound() {
    // d_max = 0 gives bound 1: q == p, and it is not an error.
    let pp = PolyComm::<WordAdd, BigInt>::setup(2048, 0).unwrap();
    assert_eq!(pp.q, pp.p);
}

#[test]
fn test_setup_from_seeds_deterministic() {
    let s1 = [1u8; 32];
    let s2 = [2u8; 32];
    let s3 = [3u8; 32];
    let a = PolyComm::<WordAdd, BigInt>::setup_from_seeds(2048, 4, &s1, &s2, &s3).unwrap();
    let b = PolyComm::<WordAdd, BigInt>::setup_from_seeds(2048, 4, &s1, &s2, &s3).unwrap();
    assert_eq!(a.p, b.p);
    assert_eq!(a.q, b.q);
    assert_eq!(a.disc, b.disc);
    assert_eq!(a.g, b.g);
}

#[test]
fn test_floor_log2_values() {
    assert_eq!(floor_log2(1), 0);
    assert_eq!(floor_log2(2), 1);
    assert_eq!(floor_log2(3), 1);
    assert_eq!(floor_log2(4), 2);
    assert_eq!(floor_log2(2048), 11);
    assert_eq!(floor_log2(u64::MAX), 63);
}

#[test]
fn test_hash_to_prime_native() {
    let b_1 = b"boom i got ur boyfriend";
    let n_1 = WordAdd::pick_prime_native(b_1);
    let n_1_again = WordAdd::pick_prime_native(b_1);
    assert_eq!(n_1, n_1_again);
    // Both encodings denote the same prime.
    assert_eq!(n_1, value_of(&WordAdd::pick_prime_integer(b_1)));
    assert!(is_prime_trial(n_1));
}
