use panic_calculators::bignum::BigNat;
use panic_calculators::combinatorics::{
    derangement, derangement_string, factorial, factorial_string, fibonacci, fibonacci_string,
    partition, partition_string, permutation, permutation_string,
};

fn natural(s: &str) -> BigNat {
    BigNat::from_decimal(s).unwrap()
}

fn dec(n: &BigNat) -> String {
    n.to_decimal()
}

#[test]
fn partition_of_small_numbers() {
    assert_eq!(dec(&partition(0, natural("1000"))), "1");
    assert_eq!(dec(&partition(1, natural("1000"))), "1");
    assert_eq!(dec(&partition(2, natural("1000"))), "2");
    assert_eq!(dec(&partition(5, natural("1000"))), "7");
    assert_eq!(dec(&partition(10, natural("1000"))), "42");
}

#[test]
fn partition_of_one_hundred() {
    assert_eq!(dec(&partition(100, natural("1000000000000"))), "190569292");
    assert_eq!(dec(&partition(100, natural("1000"))), "292");
}

#[test]
fn partition_modulo_at_most_one_is_zero() {
    assert_eq!(dec(&partition(10, natural("1"))), "0");
    assert_eq!(dec(&partition(10, natural("0"))), "0");
}

#[test]
fn partition_with_subtracted_terms_reduced() {
    // p(50) = 204226; modulo 7 the negative terms of the recurrence are folded back.
    assert_eq!(dec(&partition(50, natural("7"))), (204226u32 % 7).to_string());
}

#[test]
fn factorial_values() {
    assert_eq!(dec(&factorial(0, natural("1000"))), "1");
    assert_eq!(dec(&factorial(1, natural("1000"))), "1");
    assert_eq!(dec(&factorial(5, natural("1000"))), "120");
    assert_eq!(dec(&factorial(10, natural("1000007"))), "628779");
}

#[test]
fn factorial_modulo_at_most_one_is_zero() {
    assert_eq!(dec(&factorial(5, natural("1"))), "0");
    assert_eq!(dec(&factorial(5, natural("0"))), "0");
}

#[test]
fn derangement_values() {
    let expected = ["1", "0", "1", "2", "9", "44", "265", "1854"];
    for (a, e) in expected.iter().enumerate() {
        assert_eq!(dec(&derangement(a as u32, natural("1000000"))), *e);
    }
}

#[test]
fn derangement_reduced() {
    // D(7) = 1854 = 1854 mod 1000
    assert_eq!(dec(&derangement(7, natural("1000"))), "854");
    assert_eq!(dec(&derangement(3, natural("1"))), "0");
}

#[test]
fn permutation_values() {
    assert_eq!(dec(&permutation(natural("5"), 2, natural("1000"))), "20");
    assert_eq!(dec(&permutation(natural("10"), 3, natural("7"))), "6");
    assert_eq!(dec(&permutation(natural("5"), 0, natural("10"))), "1");
    assert_eq!(dec(&permutation(natural("5"), 5, natural("1000"))), "120");
}

#[test]
fn permutation_with_reduced_base_below_count_is_zero() {
    // 8 mod 7 = 1 < 3, and 8 * 7 * 6 = 336 is a multiple of 7.
    assert_eq!(dec(&permutation(natural("8"), 3, natural("7"))), "0");
    assert_eq!(dec(&permutation(natural("2"), 3, natural("100"))), "0");
}

#[test]
fn permutation_modulo_one() {
    assert_eq!(dec(&permutation(natural("5"), 2, natural("1"))), "0");
}

#[test]
fn fibonacci_values() {
    assert_eq!(dec(&fibonacci(natural("0"), natural("1000"))), "0");
    assert_eq!(dec(&fibonacci(natural("1"), natural("1000"))), "1");
    assert_eq!(dec(&fibonacci(natural("2"), natural("1000"))), "1");
    assert_eq!(dec(&fibonacci(natural("10"), natural("1000"))), "55");
    assert_eq!(dec(&fibonacci(natural("100"), natural("1000000007"))), "687995182");
    assert_eq!(
        dec(&fibonacci(natural("100"), natural("1000000000000000000000000"))),
        "354224848179261915075"
    );
}

#[test]
fn fibonacci_small_arguments_not_reduced_below_modulus() {
    assert_eq!(dec(&fibonacci(natural("1"), natural("2"))), "1");
    assert_eq!(dec(&fibonacci(natural("7"), natural("1"))), "0");
}

#[test]
fn fibonacci_residues_add_up() {
    let m = "97";
    for a in 0u32..30 {
        let f0: u32 = dec(&fibonacci(natural(&a.to_string()), natural(m))).parse().unwrap();
        let f1: u32 = dec(&fibonacci(natural(&(a + 1).to_string()), natural(m))).parse().unwrap();
        let f2: u32 = dec(&fibonacci(natural(&(a + 2).to_string()), natural(m))).parse().unwrap();
        assert_eq!(f2, (f0 + f1) % 97);
    }
}

#[test]
fn full_arrangement_is_factorial() {
    for n in 0u32..12 {
        assert_eq!(
            dec(&permutation(natural(&n.to_string()), n, natural("1000003"))),
            dec(&factorial(n, natural("1000003")))
        );
    }
}

#[test]
fn derangement_recurrence_holds() {
    let d: Vec<i64> = (0u32..10)
        .map(|a| dec(&derangement(a, natural("100000000"))).parse().unwrap())
        .collect();
    for n in 2..10usize {
        assert_eq!(d[n], (n as i64 - 1) * (d[n - 1] + d[n - 2]));
    }
}

#[test]
fn string_front_ends() {
    assert_eq!(partition_string("100".to_string(), "1000000000".to_string()), "190569292");
    assert_eq!(factorial_string("5".to_string(), "1000".to_string()), "120");
    assert_eq!(derangement_string("4".to_string(), "1000".to_string()), "9");
    assert_eq!(permutation_string("5".to_string(), "2".to_string(), "1000".to_string()), "20");
    assert_eq!(fibonacci_string("10".to_string(), "1000".to_string()), "55");
    assert_eq!(fibonacci_string("+10".to_string(), "+1000".to_string()), "55");
}
