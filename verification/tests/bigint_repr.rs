use unknown_order::bigint::BigInt;
use unknown_order::util::bigint;

#[test]
fn test_from_u64_zero_is_empty() {
    let z = BigInt::from_u64(0);
    assert!(!z.neg);
    assert_eq!(z.limbs.len(), 0);
    assert!(z.wf_check());
}

#[test]
fn test_from_u64_single_limb() {
    let v = BigInt::from_u64(12345);
    assert!(!v.neg);
    assert_eq!(v.limbs, vec![12345u64]);
}

#[test]
fn test_from_i64_negative() {
    let v = bigint(-7);
    assert!(v.neg);
    assert_eq!(v.limbs, vec![7u64]);
    assert!(v.wf_check());
}

#[test]
fn test_from_i64_min() {
    let v = BigInt::from_i64(i64::MIN);
    assert!(v.neg);
    assert_eq!(v.limbs, vec![0x8000_0000_0000_0000u64]);
}

#[test]
fn test_new_strips_trailing_zero_limbs() {
    let v = BigInt::new(false, vec![5, 0, 0]);
    assert_eq!(v.limbs, vec![5u64]);
    assert!(v.wf_check());
}

#[test]
fn test_new_negative_zero_normalises() {
    let v = BigInt::new(true, vec![0, 0]);
    assert!(!v.neg);
    assert_eq!(v.limbs.len(), 0);
    assert!(v.wf_check());
}

#[test]
fn test_mul_single_limb() {
    let a = BigInt::from_u64(1_000_003);
    let b = BigInt::from_u64(999_983);
    let p = a.mul(&b);
    assert!(!p.neg);
    assert_eq!(p.limbs, vec![1_000_003u64 * 999_983]);
}

#[test]
fn test_mul_carries_across_limbs() {
    let m = BigInt::from_u64(u64::MAX);
    let p = m.mul(&m);
    // (2^64 - 1)^2 == 2^128 - 2^65 + 1.
    assert_eq!(p.limbs, vec![0x1u64, 0xfffffffffffffffeu64]);
    let a = BigInt::from_u64(0x1234_5678_9ABC_DEF0);
    let b = BigInt::from_u64(0xFEDC_BA98_7654_3210);
    let p2 = a.mul(&b);
    assert_eq!(p2.limbs, vec![0x236d88fe5618cf00u64, 0x121fa00ad77d7422u64]);
}

#[test]
fn test_mul_signs_and_zero() {
    let a = bigint(-6);
    let b = bigint(7);
    let p = a.mul(&b);
    assert!(p.neg);
    assert_eq!(p.limbs, vec![42u64]);
    let q = a.mul(&bigint(-7));
    assert!(!q.neg);
    assert_eq!(q.limbs, vec![42u64]);
    let z = a.mul(&BigInt::from_u64(0));
    assert!(!z.neg);
    assert_eq!(z.limbs.len(), 0);
}
