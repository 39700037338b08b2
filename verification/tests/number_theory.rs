use panic_calculators::bignum::{BigInt, BigNat};
use panic_calculators::number_theory::{
    factor, factor_string, gcd_string, geometric_series, geometric_series_integer,
    geometric_series_string, is_prime, is_prime_string, kronecker_symbol, kronecker_symbol_string,
    lcm_string, modex, modex_integer, modex_string, pollard_rho, render_factorization, smooth, sum,
    trial_divide,
};

fn natural(s: &str) -> BigNat {
    BigNat::from_decimal(s).unwrap()
}

fn integer(s: &str) -> BigInt {
    BigInt::from_decimal(s).unwrap()
}

fn dec(n: &BigNat) -> String {
    n.to_decimal()
}

fn pairs(v: &Vec<(BigNat, u32)>) -> Vec<(String, u32)> {
    v.iter().map(|(p, e)| (dec(p), *e)).collect()
}

#[test]
fn modex_values() {
    assert_eq!(dec(&modex(natural("2"), natural("10"), natural("1000"))), "24");
    assert_eq!(dec(&modex(natural("3"), natural("0"), natural("7"))), "1");
    assert_eq!(dec(&modex(natural("2"), natural("100"), natural("1000000007"))), "976371285");
    assert_eq!(dec(&modex(natural("12345"), natural("3"), natural("10"))), "5");
}

#[test]
fn modex_degenerate_moduli() {
    assert_eq!(dec(&modex(natural("5"), natural("3"), natural("0"))), "0");
    assert_eq!(dec(&modex(natural("5"), natural("3"), natural("1"))), "0");
    assert_eq!(dec(&modex(natural("5"), natural("0"), natural("1"))), "0");
}

#[test]
fn modex_exponents_add() {
    let m = natural("1009");
    for (b, c) in [(3u32, 4u32), (10, 17), (0, 5), (31, 64)] {
        let ab: u64 = dec(&modex(natural("7"), natural(&b.to_string()), m.copy())).parse().unwrap();
        let ac: u64 = dec(&modex(natural("7"), natural(&c.to_string()), m.copy())).parse().unwrap();
        let abc: u64 = dec(&modex(natural("7"), natural(&(b + c).to_string()), m.copy())).parse().unwrap();
        assert_eq!(abc, ab * ac % 1009);
    }
}

#[test]
fn modex_integer_negative_base_and_exponent() {
    assert_eq!(dec(&modex_integer(integer("3"), integer("-1"), natural("7"))), "5");
    assert_eq!(dec(&modex_integer(integer("-2"), integer("3"), natural("7"))), "6");
    assert_eq!(dec(&modex_integer(integer("3"), integer("-2"), natural("7"))), "4");
}

#[test]
fn modex_integer_without_inverse_answers_modulus() {
    assert_eq!(dec(&modex_integer(integer("2"), integer("-1"), natural("4"))), "4");
    assert_eq!(dec(&modex_integer(integer("6"), integer("-3"), natural("9"))), "9");
}

#[test]
fn modex_integer_degenerate_moduli() {
    assert_eq!(dec(&modex_integer(integer("2"), integer("-1"), natural("1"))), "0");
    assert_eq!(dec(&modex_integer(integer("2"), integer("5"), natural("0"))), "0");
}

#[test]
fn negative_power_inverts() {
    let m = "101";
    for k in 1u32..6 {
        let pos: u64 = dec(&modex_integer(integer("5"), integer(&k.to_string()), natural(m))).parse().unwrap();
        let neg: u64 = dec(&modex_integer(integer("5"), integer(&format!("-{}", k)), natural(m))).parse().unwrap();
        assert_eq!(pos * neg % 101, 1);
    }
}

#[test]
fn geometric_series_values() {
    assert_eq!(dec(&geometric_series(natural("1"), natural("2"), natural("10"), natural("10000"))), "1023");
    assert_eq!(dec(&geometric_series(natural("2"), natural("3"), natural("4"), natural("1000"))), "80");
    assert_eq!(dec(&geometric_series(natural("2"), natural("3"), natural("5"), natural("1000"))), "242");
    assert_eq!(dec(&geometric_series(natural("2"), natural("3"), natural("5"), natural("100"))), "42");
}

#[test]
fn geometric_series_edge_cases() {
    assert_eq!(dec(&geometric_series(natural("3"), natural("2"), natural("0"), natural("10"))), "0");
    assert_eq!(dec(&geometric_series(natural("3"), natural("2"), natural("5"), natural("1"))), "0");
    // A single term is answered as given, without reduction.
    assert_eq!(dec(&geometric_series(natural("13"), natural("2"), natural("1"), natural("10"))), "13");
}

#[test]
fn geometric_series_telescopes() {
    // (r - 1) * series = a (r^n - 1) mod m
    let m = 1000003u64;
    let s: u64 = dec(&geometric_series(natural("5"), natural("3"), natural("20"), natural("1000003"))).parse().unwrap();
    let p: u64 = dec(&modex(natural("3"), natural("20"), natural("1000003"))).parse().unwrap();
    assert_eq!((2 * s) % m, (5 * (p + m - 1)) % m);
}

#[test]
fn geometric_series_integer_values() {
    assert_eq!(dec(&geometric_series_integer(integer("-1"), integer("2"), natural("3"), natural("10"))), "3");
    assert_eq!(dec(&geometric_series_integer(integer("1"), integer("-1"), natural("4"), natural("10"))), "0");
    assert_eq!(dec(&geometric_series_integer(integer("1"), integer("2"), natural("3"), natural("1"))), "0");
}

#[test]
fn is_prime_small() {
    for n in 0u32..2000 {
        let expected = n >= 2 && (2..n).take_while(|d| d * d <= n).all(|d| n % d != 0);
        assert_eq!(is_prime(natural(&n.to_string())), expected, "for {}", n);
    }
}

#[test]
fn is_prime_large() {
    assert!(is_prime(natural("1000003")));
    assert!(is_prime(natural("2305843009213693951")));
    assert!(!is_prime(natural("1000001")));
    assert!(!is_prime(natural("561")));
    assert!(!is_prime(natural("1000036000099")));
}

#[test]
fn kronecker_symbol_values() {
    let cases = [
        ("10", "5", 0i8),
        ("7", "5", -1),
        ("11", "5", 1),
        ("11", "9", 1),
        ("11", "8", -1),
        ("-7", "5", -1),
        ("-11", "5", 1),
        ("-11", "9", 1),
        ("-11", "8", -1),
        ("-11", "-8", 1),
    ];
    for (a, b, r) in cases {
        assert_eq!(kronecker_symbol(integer(a), integer(b)), r);
    }
}

#[test]
fn trial_divide_values() {
    let (f, rest) = trial_divide(natural("360"), natural("10"));
    assert_eq!(pairs(&f), vec![("2".to_string(), 3), ("3".to_string(), 2), ("5".to_string(), 1)]);
    assert_eq!(dec(&rest), "1");
    let (f, rest) = trial_divide(natural("4036"), natural("100"));
    assert_eq!(pairs(&f), vec![("2".to_string(), 2)]);
    assert_eq!(dec(&rest), "1009");
}

#[test]
fn trial_divide_zero_and_one() {
    let (f, rest) = trial_divide(natural("0"), natural("100"));
    assert!(f.is_empty());
    assert_eq!(dec(&rest), "0");
    let (f, rest) = trial_divide(natural("1"), natural("100"));
    assert!(f.is_empty());
    assert_eq!(dec(&rest), "1");
}

#[test]
fn pollard_rho_finds_a_factor() {
    assert_eq!(dec(&pollard_rho(&natural("8051"))), "97");
    let g: u64 = dec(&pollard_rho(&natural("1000036000099"))).parse().unwrap();
    assert!(g == 1000003 || g == 1000033);
}

#[test]
fn smooth_values() {
    assert_eq!(dec(&smooth(0)), "1");
    assert_eq!(dec(&smooth(1)), "1");
    assert_eq!(dec(&smooth(2)), "2");
    assert_eq!(dec(&smooth(3)), "6");
}

#[test]
fn factor_values() {
    let (f, rest) = factor(natural("360"));
    assert_eq!(pairs(&f), vec![("2".to_string(), 3), ("3".to_string(), 2), ("5".to_string(), 1)]);
    assert_eq!(dec(&rest), "1");
    let (f, rest) = factor(natural("1000036000099"));
    assert_eq!(pairs(&f), vec![("1000003".to_string(), 1), ("1000033".to_string(), 1)]);
    assert_eq!(dec(&rest), "1");
    let (f, rest) = factor(natural("0"));
    assert!(f.is_empty());
    assert_eq!(dec(&rest), "0");
}

#[test]
fn factor_product_gives_back_the_number() {
    for n in [2u64, 12, 97, 1000, 123456, 999999, 1000036000099] {
        let (f, rest) = factor(natural(&n.to_string()));
        let mut product: u128 = dec(&rest).parse().unwrap();
        for (p, e) in pairs(&f) {
            let p: u128 = p.parse().unwrap();
            product *= p.pow(e);
        }
        assert_eq!(product, n as u128);
    }
}

#[test]
fn factor_string_values() {
    assert_eq!(factor_string("360".to_string()), "2^3 x 3^2 x 5");
    assert_eq!(factor_string("97".to_string()), "97");
    assert_eq!(factor_string("2018".to_string()), "2 x 1009");
    assert_eq!(factor_string("1".to_string()), "");
    assert_eq!(factor_string("0".to_string()), "0 (failed to factor)");
    assert_eq!(factor_string("1000036000099".to_string()), "1000003 x 1000033");
}

#[test]
fn render_factorization_with_rest() {
    let f = vec![(natural("2"), 1u32), (natural("7"), 12u32)];
    assert_eq!(render_factorization(&f, &natural("1")), "2 x 7^12");
    assert_eq!(render_factorization(&f, &natural("143")), "2 x 7^12 x 143 (failed to factor)");
    assert_eq!(render_factorization(&Vec::new(), &natural("143")), "143 (failed to factor)");
}

#[test]
fn string_front_ends_number_theory() {
    assert_eq!(sum("12".to_string(), "-30".to_string()), "-18");
    assert_eq!(sum("99999999999999999999".to_string(), "1".to_string()), "100000000000000000000");
    assert_eq!(gcd_string("12".to_string(), "18".to_string()), "6");
    assert_eq!(gcd_string("0".to_string(), "5".to_string()), "5");
    assert_eq!(lcm_string("4".to_string(), "6".to_string()), "12");
    assert_eq!(lcm_string("0".to_string(), "5".to_string()), "0");
    assert_eq!(kronecker_symbol_string("7".to_string(), "5".to_string()), "-1");
    assert_eq!(modex_string("2".to_string(), "10".to_string(), "1000".to_string()), "24");
    assert_eq!(modex_string("3".to_string(), "-1".to_string(), "7".to_string()), "5");
    assert_eq!(
        geometric_series_string("1".to_string(), "2".to_string(), "10".to_string(), "10000".to_string()),
        "1023"
    );
    assert_eq!(is_prime_string("97".to_string()), "true");
    assert_eq!(is_prime_string("91".to_string()), "false");
}

#[test]
fn gcd_times_lcm_is_product() {
    for (a, b) in [(12u64, 18u64), (7, 13), (100, 75), (0, 9)] {
        let g: u64 = gcd_string(a.to_string(), b.to_string()).parse().unwrap();
        let l: u64 = lcm_string(a.to_string(), b.to_string()).parse().unwrap();
        assert_eq!(g * l, a * b);
    }
}

#[test]
fn geometric_series_splits() {
    // series(n1 + n2) = series(n1) + r^n1 * series(n2) modulo m
    let m = 1000003u64;
    for (n1, n2) in [(3u32, 4u32), (1, 6), (0, 5), (7, 1), (10, 13)] {
        let whole: u64 = dec(&geometric_series(natural("5"), natural("3"), natural(&(n1 + n2).to_string()), natural("1000003"))).parse().unwrap();
        let first: u64 = dec(&geometric_series(natural("5"), natural("3"), natural(&n1.to_string()), natural("1000003"))).parse().unwrap();
        let second: u64 = dec(&geometric_series(natural("5"), natural("3"), natural(&n2.to_string()), natural("1000003"))).parse().unwrap();
        let p: u64 = dec(&modex(natural("3"), natural(&n1.to_string()), natural("1000003"))).parse().unwrap();
        assert_eq!(whole % m, (first + p * second) % m);
    }
}

#[test]
fn factor_leaves_no_small_prime_in_rest() {
    for n in [360u64, 2018, 1000036000099, 999999, 1024] {
        let (_, rest) = factor(natural(&n.to_string()));
        let rest: u64 = dec(&rest).parse().unwrap();
        for p in 2..1000u64 {
            assert!(rest % p != 0 || rest == 0);
        }
    }
}

#[test]
fn factor_lists_a_repeated_large_prime_twice() {
    let (f, rest) = factor(natural("1000006000009"));
    assert_eq!(pairs(&f), vec![("1000003".to_string(), 1), ("1000003".to_string(), 1)]);
    assert_eq!(dec(&rest), "1");
}

