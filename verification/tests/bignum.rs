use panic_calculators::bignum::{equals_u64, le, lt_u64, BigInt, BigNat};

#[test]
fn natural_from_machine_integers_and_limbs() {
    assert_eq!(BigNat::from_u64(0).to_decimal(), "0");
    assert_eq!(BigNat::from_u64(u64::MAX).to_decimal(), "18446744073709551615");
    let two_to_64 = BigNat::from_limbs(vec![0, 1]);
    assert_eq!(two_to_64.to_decimal(), "18446744073709551616");
    assert_eq!(BigNat::from_limbs(vec![5, 0, 0]).to_decimal(), "5");
    assert_eq!(two_to_64.copy().to_decimal(), "18446744073709551616");
}

#[test]
fn natural_limbs_give_the_value_back() {
    let n = BigNat::from_decimal("340282366920938463463374607431768211457").unwrap();
    assert_eq!(n.limbs().as_slice(), &[1u64, 0, 1]);
}

#[test]
fn natural_literals() {
    assert_eq!(BigNat::from_decimal("+007").unwrap().to_decimal(), "7");
    assert!(BigNat::from_decimal("").is_none());
    assert!(BigNat::from_decimal("+").is_none());
    assert!(BigNat::from_decimal("-1").is_none());
    assert!(BigNat::from_decimal("++1").is_none());
    assert!(BigNat::from_decimal("1a").is_none());
    assert!(BigNat::from_decimal(" 1").is_none());
}

#[test]
fn integer_literals() {
    assert_eq!(BigInt::from_decimal("-0042").unwrap().to_decimal(), "-42");
    assert_eq!(BigInt::from_decimal("+42").unwrap().to_decimal(), "42");
    assert_eq!(BigInt::from_decimal("-0").unwrap().to_decimal(), "0");
    assert!(BigInt::from_decimal("-").is_none());
    assert!(BigInt::from_decimal("-+1").is_none());
    assert!(BigInt::from_decimal("--1").is_none());
    assert!(BigInt::from_decimal("4.2").is_none());
}

#[test]
fn natural_comparisons() {
    let a = BigNat::from_u64(5);
    let b = BigNat::from_limbs(vec![0, 1]);
    assert!(le(&a, &b));
    assert!(!le(&b, &a));
    assert!(le(&a, &BigNat::from_u64(5)));
    assert!(equals_u64(&a, 5));
    assert!(!equals_u64(&b, 0));
    assert!(lt_u64(&a, 6));
    assert!(!lt_u64(&a, 5));
    assert!(!lt_u64(&b, u64::MAX));
}

#[test]
fn integer_sign_and_magnitude() {
    let x = BigInt::from_i64(-17);
    assert!(x.is_negative());
    assert_eq!(x.unsigned_abs().to_decimal(), "17");
    assert_eq!(x.neg().to_decimal(), "17");
    assert!(x.equals_i64(-17));
    assert!(!x.equals_i64(17));
    assert_eq!(BigInt::from_i64(i64::MIN).to_decimal(), "-9223372036854775808");
    let zero = BigInt::from_sign_and_magnitude(true, BigNat::from_u64(0));
    assert!(!zero.is_negative());
    assert!(zero.equals_i64(0));
    assert_eq!(zero.to_decimal(), "0");
    assert_eq!(BigInt::from_natural(BigNat::from_u64(9)).copy().to_decimal(), "9");
}

#[test]
fn printed_numbers_read_back() {
    for s in ["0", "1", "10", "123456789012345678901234567890"] {
        let n = BigNat::from_decimal(s).unwrap();
        assert_eq!(BigNat::from_decimal(&n.to_decimal()).unwrap().to_decimal(), s);
    }
    for s in ["-5", "0", "77777777777777777777777"] {
        let v = BigInt::from_decimal(s).unwrap();
        assert_eq!(BigInt::from_decimal(&v.to_decimal()).unwrap().to_decimal(), s);
    }
}
