//! Number theory over arbitrary-precision integers: modular powers, geometric
//! series, primality and factorization.
use crate::bignum::{
    BigInt, BigNat, abs, equal, equals_u64, even, floor_sqrt, has_mod_inverse,
    kronecker_symbol_spec, le, lt, lt_u64, mod_inverse, mod_mul, nat_add, nat_mul, nat_sub, odd, rem,
    shr, significant_bits, square, trailing_zeros, div_exact, divisible_by, primes_up_to,
    is_prime_spec, limb_base, gcd, gcd_spec, abs_diff, mod_add, product, seq_product, lcm,
    lcm_spec, int_add, primes_through,
};
use crate::text::{bool_to_string, decimal, i8_to_string, is_integer_literal, is_natural_literal, integer_literal_value, natural_literal_value, signed_decimal, u32_to_string};
use crate::modular::{lemma_residue_add, lemma_residue_mul, residue};
use crate::fermat::{lemma_fermat_little, lemma_square_roots_of_one};
use vstd::arithmetic::div_mod::{lemma_mod_bound, lemma_mod_twice, lemma_small_mod};
use vstd::arithmetic::power::{
    lemma_pow0, lemma_pow1, lemma_pow_adds, lemma_pow_mod_noop, lemma_pow_multiplies, pow,
};
use vstd::arithmetic::power2::pow2;
use crate::bignum::{integer_to_string, natural_to_string, parse_integer, parse_natural};
use vstd::prelude::*;

verus! {

// ---------------------------------------------------------------------------
// Modular powers.
// ---------------------------------------------------------------------------

/// a^e mod m, for m > 0.
pub open spec fn pow_mod(a: nat, e: nat, m: nat) -> nat {
    residue(pow(a as int, e), m)
}

/// The inverse of `x` modulo `m`: the `y < m` with x y = 1 (mod m), when there is one.
pub open spec fn mod_inverse_spec(x: nat, m: nat) -> nat {
    choose|y: nat| y < m && #[trigger] ((x * y) % m) == 1
}

/// How the calculators bring an integer into 0..=m: a mod m for a >= 0, and
/// m - (|a| mod m) for a < 0 (which is m itself when m divides a).
pub open spec fn lift_residue(a: int, m: nat) -> nat {
    if a < 0 {
        (m - abs(a) % m) as nat
    } else {
        a as nat % m
    }
}

/// What [`modex_integer`] answers: 0 when m <= 1; a^b mod m when b >= 0; the
/// |b|-th power of the inverse of a modulo m when b < 0 and that inverse exists;
/// and m itself when it does not.
pub open spec fn modex_integer_spec(a: int, b: int, m: nat) -> nat {
    if m <= 1 {
        0
    } else {
        let x = lift_residue(a, m);
        if b >= 0 {
            pow_mod(x, b as nat, m)
        } else if has_mod_inverse(x, m) {
            pow_mod(mod_inverse_spec(x, m), abs(b), m)
        } else {
            m
        }
    }
}

/// The inverse modulo `m` is unique.
pub proof fn lemma_mod_inverse_unique(x: nat, y1: nat, y2: nat, m: nat)
    requires
        m > 1,
        y1 < m,
        y2 < m,
        (x * y1) % m == 1,
        (x * y2) % m == 1,
    ensures
        y1 == y2,
{
    let mi = m as int;
    lemma_residue_mul(y1 as int, (x * y2) as int, m);
    lemma_residue_mul((x * y1) as int, y2 as int, m);
    assert(y1 * (x * y2) == (x * y1) * y2) by (nonlinear_arith);
    lemma_small_mod(y1, m);
    lemma_small_mod(y2, m);
    assert(y1 as int * 1 == y1);
    assert(1 * y2 as int == y2);
}

/// One squaring step: a^e = (a^2)^(e / 2) a^(e mod 2), on residues.
proof fn lemma_square_and_multiply(r: nat, a: nat, e: nat, m: nat)
    requires
        m > 0,
    ensures
        ({
            let r2 = if e % 2 == 1 { (r * a) % m } else { r };
            (r2 * pow_mod((a * a) % m, e / 2, m)) % m == (r * pow_mod(a, e, m)) % m
        }),
{
    let mi = m as int;
    let h = e / 2;
    let sq = (a * a) % m;
    lemma_pow_mod_noop((a * a) as int, h, mi);
    lemma_pow_multiplies(a as int, 2, h);
    vstd::arithmetic::power::lemma_square_is_pow2(a as int);
    assert(pow((a * a) as int, h) == pow(a as int, 2 * h));
    let p2h = pow(a as int, 2 * h);
    // (r2 * residue(p2h)) % m == (r2 * p2h) % m
    let r2 = if e % 2 == 1 { (r * a) % m } else { r };
    lemma_residue_mul(r2 as int, p2h, m);
    lemma_residue_mul(r as int, pow(a as int, e), m);
    if e % 2 == 1 {
        lemma_pow_adds(a as int, 2 * h, 1);
        lemma_pow1(a as int);
        assert(pow(a as int, e) == p2h * a);
        lemma_residue_mul((r * a) as int, p2h, m);
        assert((r * a) * p2h == r * (p2h * a)) by (nonlinear_arith);
    } else {
        assert(e == 2 * h);
    }
}

/// a^b mod m, or 0 when m = 0, by repeated squaring.
pub fn modex(a: BigNat, b: BigNat, m: BigNat) -> (r: BigNat)
    ensures
        r@ == if m@ == 0 { 0 } else { pow_mod(a@, b@, m@) },
{
    if equals_u64(&m, 0) {
        return m;
    }
    let ghost (a0, b0) = (a@, b@);
    let mut a = rem(&a, &m);
    let mut b = b;
    let mut r = rem(&BigNat::from_u64(1), &m);
    proof {
        lemma_pow_mod_noop(a0 as int, b0, m@ as int);
        lemma_mod_bound(a0 as int, m@ as int);
        assert(pow_mod(a@, b@, m@) == pow_mod(a0, b0, m@));
        lemma_mod_bound(1, m@ as int);
        let p = pow(a@ as int, b@);
        lemma_residue_mul(1, p, m@);
        lemma_residue_mul(residue(1, m@) as int, p, m@);
        assert(1 * p == p);
        lemma_mod_twice(p, m@ as int);
        assert((r@ * pow_mod(a@, b@, m@)) % m@ == residue((residue(1, m@) * residue(p, m@)) as int, m@));
    }
    while lt_u64(&b, 1) == false
        invariant
            m@ > 0,
            a@ < m@,
            r@ < m@,
            (r@ * pow_mod(a@, b@, m@)) % m@ == pow_mod(a0, b0, m@),
        decreases b@,
    {
        proof {
            lemma_square_and_multiply(r@, a@, b@, m@);
            assert(pow2(1) == 2) by {
                vstd::arithmetic::power2::lemma2_to64();
            }
        }
        if odd(&b) {
            r = mod_mul(&r, &a, &m);
        }
        let a_copy = a.copy();
        a = mod_mul(&a, &a_copy, &m);
        b = shr(&b, 1);
    }
    proof {
        lemma_pow0(a@ as int);
        lemma_small_mod(r@, m@);
        lemma_residue_mul(r@ as int, 1, m@);
        assert(r@ * 1 == r@);
    }
    r
}

/// a^b mod m for integers a and b, or 0 when m <= 1.
///
/// `a` is first brought into 0..=m (see [`lift_residue`]). A negative exponent
/// asks for a power of the inverse of `a` modulo `m`; when there is none the
/// answer is `m` itself. Inverting a multiple of `m` panics in `malachite`, so a
/// negative exponent with a multiple of `m` is excluded.
pub fn modex_integer(a: BigInt, b: BigInt, m: BigNat) -> (r: BigNat)
    requires
        m@ <= 1 || b@ >= 0 || abs(a@) % m@ != 0,
    ensures
        r@ == modex_integer_spec(a@, b@, m@),
{
    if lt_u64(&m, 2) {
        return BigNat::from_u64(0);
    }
    let mut nat_a = if a.is_negative() {
        nat_sub(&m, &rem(&a.unsigned_abs(), &m))
    } else {
        rem(&a.unsigned_abs(), &m)
    };
    proof {
        lemma_mod_bound(abs(a@) as int, m@ as int);
    }
    assert(nat_a@ == lift_residue(a@, m@));
    if b.is_negative() {
        proof {
            if a@ >= 0 {
                lemma_mod_bound(a@, m@ as int);
            }
        }
        match mod_inverse(&nat_a, &m) {
            Some(inv) => {
                proof {
                    let y = mod_inverse_spec(nat_a@, m@);
                    assert(y < m@ && (nat_a@ * y) % m@ == 1);
                    lemma_mod_inverse_unique(nat_a@, inv@, y, m@);
                }
                nat_a = inv;
            },
            None => return m,
        }
    }
    modex(nat_a, b.unsigned_abs(), m)
}

// ---------------------------------------------------------------------------
// Geometric series.
// ---------------------------------------------------------------------------

/// 1 + r + r^2 + ... + r^(n - 1).
pub open spec fn geometric_sum(r: int, n: nat) -> int
    decreases n,
{
    if n == 0 {
        0
    } else {
        1 + r * geometric_sum(r, (n - 1) as nat)
    }
}

/// What [`geometric_series`] answers: 0 when m <= 1 or n = 0; `a` itself (not
/// reduced) when n = 1; and otherwise a (1 + r + ... + r^(n - 1)) mod m.
pub open spec fn geometric_series_spec(a: nat, r: nat, n: nat, m: nat) -> nat {
    if m <= 1 || n == 0 {
        0
    } else if n == 1 {
        a
    } else {
        residue(a * geometric_sum(r as int, n), m)
    }
}

/// Pairing consecutive terms: sum_{i < 2h} r^i = (1 + r) sum_{i < h} (r^2)^i.
pub proof fn lemma_geometric_sum_pairs(r: int, h: nat)
    ensures
        geometric_sum(r, 2 * h) == (1 + r) * geometric_sum(r * r, h),
    decreases h,
{
    if h > 0 {
        let g = (h - 1) as nat;
        lemma_geometric_sum_pairs(r, g);
        assert(2 * h - 1 == 2 * g + 1);
        let s = geometric_sum(r, 2 * g);
        assert(geometric_sum(r, (2 * g + 1) as nat) == 1 + r * s);
        assert(geometric_sum(r, 2 * h) == 1 + r * (1 + r * s));
        assert(geometric_sum(r * r, h) == 1 + (r * r) * geometric_sum(r * r, g));
        assert(1 + r * (1 + r * s) == (1 + r) * (1 + (r * r) * geometric_sum(r * r, g)))
            by (nonlinear_arith)
            requires
                s == (1 + r) * geometric_sum(r * r, g),
        ;
    }
}

/// Geometric sums of congruent ratios are congruent.
pub proof fn lemma_geometric_sum_congruent(r: int, s: int, n: nat, m: nat)
    requires
        m > 0,
        residue(r, m) == residue(s, m),
    ensures
        residue(geometric_sum(r, n), m) == residue(geometric_sum(s, n), m),
    decreases n,
{
    if n > 0 {
        let k = (n - 1) as nat;
        lemma_geometric_sum_congruent(r, s, k, m);
        let gr = geometric_sum(r, k);
        let gs = geometric_sum(s, k);
        lemma_residue_mul(r, gr, m);
        lemma_residue_mul(s, gr, m);
        lemma_residue_mul(s, gs, m);
        lemma_residue_mul(residue(r, m) as int, gr, m);
        lemma_residue_mul(residue(s, m) as int, gr, m);
        lemma_residue_add(r * gr, 1, m);
        lemma_residue_add(s * gs, 1, m);
        lemma_residue_add(1, r * gr, m);
        lemma_residue_add(1, s * gs, m);
        assert(residue(r * gr, m) == residue(s * gs, m));
        assert(geometric_sum(r, n) == r * gr + 1);
        assert(geometric_sum(s, n) == s * gs + 1);
    }
}

/// a + a r + ... + a r^(n - 1) modulo m, or 0 when m <= 1 or n = 0 (for n = 1 the
/// answer is `a` itself, not reduced).
///
/// Halves `n` by pairing terms when it is even and peels off the first term when
/// it is odd.
pub fn geometric_series(a: BigNat, r: BigNat, n: BigNat, m: BigNat) -> (res: BigNat)
    ensures
        res@ == geometric_series_spec(a@, r@, n@, m@),
    decreases n@,
{
    if lt_u64(&m, 2) || equals_u64(&n, 0) {
        return BigNat::from_u64(0);
    }
    if equals_u64(&n, 1) {
        return a;
    }
    let one = BigNat::from_u64(1);
    let ghost mi = m@ as int;
    if even(&n) {
        let a2 = rem(&nat_mul(&a, &nat_add(&r, &one)), &m);
        let r2 = rem(&nat_mul(&r, &r), &m);
        proof {
            assert(pow2(1) == 2) by {
                vstd::arithmetic::power2::lemma2_to64();
            }
        }
        let h = shr(&n, 1);
        let ghost hv = h@;
        assert(n@ == 2 * hv);
        let s = geometric_series(a2, r2, h, m);
        proof {
            lemma_geometric_sum_pairs(r@ as int, hv);
            let g = geometric_sum((r@ * r@) as int, hv);
            if hv == 1 {
                assert(geometric_sum((r@ * r@) as int, 0) == 0);
                assert(g == 1);
                let ri = r@ as int;
                assert(geometric_sum(ri, 0) == 0);
                assert(geometric_sum(ri, 1) == 1 + ri * geometric_sum(ri, 0));
                assert(geometric_sum(ri, 2) == 1 + ri * geometric_sum(ri, 1));
                assert(1 + ri * (1 + ri * 0) == 1 + ri) by (nonlinear_arith);
                assert(n@ == 2);
                assert(geometric_sum(ri, n@) == 1 + r@);
            } else {
                lemma_mod_twice((r@ * r@) as int, mi);
                lemma_geometric_sum_congruent((r@ * r@) as int, r2@ as int, hv, m@);
                lemma_residue_mul(a2@ as int, g, m@);
                lemma_residue_mul(a2@ as int, geometric_sum(r2@ as int, hv), m@);
                lemma_residue_mul((a@ * (r@ + 1)) as int, g, m@);
                assert((a@ * (r@ + 1)) * g == a@ * ((1 + r@) * g)) by (nonlinear_arith);
            }
        }
        s
    } else {
        let a2 = rem(&nat_mul(&a, &r), &m);
        let n1 = nat_sub(&n, &one);
        let s = geometric_series(a2.copy(), r.copy(), n1, m.copy());
        proof {
            let g = geometric_sum(r@ as int, (n@ - 1) as nat);
            assert(n@ >= 3);
            lemma_residue_mul((a@ * r@) as int, g, m@);
            lemma_residue_add(a@ as int, s@ as int, m@);
            lemma_residue_add(a@ * r@ * g, a@ as int, m@);
            lemma_residue_add(s@ as int, a@ as int, m@);
            lemma_mod_bound(a@ * r@ * g, mi);
            assert(s@ == residue(a@ * r@ * g, m@));
            assert(geometric_sum(r@ as int, n@) == 1 + r@ * g);
            assert(a@ * (1 + r@ * g) == a@ + a@ * r@ * g) by (nonlinear_arith);
        }
        rem(&nat_add(&a, &s), &m)
    }
}

/// [`geometric_series`] for integer `a` and `r`, both first brought into 0..=m
/// (see [`lift_residue`]); 0 when m <= 1.
pub fn geometric_series_integer(a: BigInt, r: BigInt, n: BigNat, m: BigNat) -> (res: BigNat)
    ensures
        res@ == if m@ <= 1 { 0 } else {
            geometric_series_spec(lift_residue(a@, m@), lift_residue(r@, m@), n@, m@)
        },
{
    if lt_u64(&m, 2) {
        return BigNat::from_u64(0);
    }
    proof {
        lemma_mod_bound(abs(a@) as int, m@ as int);
        lemma_mod_bound(abs(r@) as int, m@ as int);
    }
    let a = if a.is_negative() {
        nat_sub(&m, &rem(&a.unsigned_abs(), &m))
    } else {
        rem(&a.unsigned_abs(), &m)
    };
    let r = if r.is_negative() {
        nat_sub(&m, &rem(&r.unsigned_abs(), &m))
    } else {
        rem(&r.unsigned_abs(), &m)
    };
    geometric_series(a, r, n, m)
}

/// The Kronecker symbol (n / k), one of -1, 0 and 1.
pub fn kronecker_symbol(n: BigInt, k: BigInt) -> (r: i8)
    ensures
        r as int == kronecker_symbol_spec(n@, k@),
        -1 <= r <= 1,
{
    crate::bignum::kronecker_symbol(&n, &k)
}


// ---------------------------------------------------------------------------
// Primality.
// ---------------------------------------------------------------------------

/// `r` is floor(sqrt(n)).
pub open spec fn is_floor_sqrt(n: nat, r: nat) -> bool {
    r * r <= n < (r + 1) * (r + 1)
}

/// floor(sqrt(n)).
pub open spec fn isqrt_spec(n: nat) -> nat {
    choose|r: nat| #[trigger] is_floor_sqrt(n, r)
}

/// The exponent of 2 in a positive `x`.
pub open spec fn two_adic_valuation(x: nat) -> nat {
    choose|t: nat| x % pow2(t) == 0 && #[trigger] ((x / pow2(t)) % 2) == 1
}

/// The strong probable-prime test of odd `n` to base `a`, where n - 1 = q 2^s with
/// q odd: it passes when a = 0, when a^q = 1 (mod n), or when a^(q 2^t) = -1 (mod n)
/// for some t < s.
pub open spec fn strong_probable_prime_to_base(n: nat, a: nat, q: nat, s: nat) -> bool {
    ||| a == 0
    ||| pow_mod(a, q, n) == 1
    ||| exists|t: nat| t < s && #[trigger] pow_mod(a, q * pow2(t), n) == n - 1
}

/// The i-th base of [`is_prime`]'s test: floor(sqrt(n)) i + 2, reduced modulo n.
pub open spec fn miller_rabin_base(n: nat, i: nat) -> nat {
    (isqrt_spec(n) * i + 2) % n
}

/// What [`is_prime`] answers: exact below 4 and for even numbers; for odd n >= 5
/// the strong probable-prime test to the 16 bases `miller_rabin_base(n, i)`,
/// i < 16 (a Miller-Rabin test, which every prime passes: see
/// [`law_primes_pass_is_prime`]).
pub open spec fn is_probable_prime(n: nat) -> bool {
    if n < 4 {
        n > 1
    } else if n % 2 == 0 {
        false
    } else {
        let s = two_adic_valuation((n - 1) as nat);
        let q = ((n - 1) as nat) / pow2(s);
        forall|i: nat| i < 16 ==> #[trigger] strong_probable_prime_to_base(n, miller_rabin_base(n, i), q, s)
    }
}

pub proof fn lemma_isqrt_unique(n: nat, r: nat)
    requires
        r * r <= n < (r + 1) * (r + 1),
    ensures
        isqrt_spec(n) == r,
{
    assert(is_floor_sqrt(n, r));
    let c = isqrt_spec(n);
    assert(c * c <= n < (c + 1) * (c + 1));
    if c < r {
        assert((c + 1) * (c + 1) <= r * r) by (nonlinear_arith)
            requires
                c < r,
        ;
    } else if r < c {
        assert((r + 1) * (r + 1) <= c * c) by (nonlinear_arith)
            requires
                r < c,
        ;
    }
}

proof fn lemma_two_adic_unique(x: nat, t: nat)
    requires
        x % pow2(t) == 0,
        (x / pow2(t)) % 2 == 1,
    ensures
        two_adic_valuation(x) == t,
{
    let c = two_adic_valuation(x);
    assert(x % pow2(c) == 0 && (x / pow2(c)) % 2 == 1);
    if c < t {
        lemma_two_adic_order(x, c, t);
    } else if t < c {
        lemma_two_adic_order(x, t, c);
    }
}

proof fn lemma_two_adic_order(x: nat, t1: nat, t2: nat)
    requires
        t1 < t2,
        x % pow2(t2) == 0,
    ensures
        (x / pow2(t1)) % 2 == 0,
{
    let d = (t2 - t1) as nat;
    vstd::arithmetic::power2::lemma_pow2_pos(t2);
    vstd::arithmetic::power2::lemma_pow2_pos(t1);
    vstd::arithmetic::power2::lemma_pow2_adds(t1, d);
    vstd::arithmetic::power2::lemma_pow2_unfold(d);
    vstd::arithmetic::div_mod::lemma_fundamental_div_mod(x as int, pow2(t2) as int);
    let k = x / pow2(t2);
    assert(x == pow2(t2) * k);
    assert(x == pow2(t1) * (pow2(d) * k)) by (nonlinear_arith)
        requires
            x == pow2(t2) * k,
            pow2(t2) == pow2(t1) * pow2(d),
    ;
    vstd::arithmetic::div_mod::lemma_div_multiples_vanish((pow2(d) * k) as int, pow2(t1) as int);
    assert(x / pow2(t1) == pow2(d) * k);
    let h = pow2((d - 1) as nat);
    assert(pow2(d) * k == 2 * (h * k)) by (nonlinear_arith)
        requires
            pow2(d) == 2 * h,
    ;
    vstd::arithmetic::div_mod::lemma_mod_multiples_basic((h * k) as int, 2);
}

/// Squaring a power residue doubles the exponent.
proof fn lemma_pow_mod_square(a: nat, e: nat, n: nat)
    requires
        n > 0,
    ensures
        (pow_mod(a, e, n) * pow_mod(a, e, n)) % n == pow_mod(a, 2 * e, n),
{
    let p = pow(a as int, e);
    lemma_pow_adds(a as int, e, e);
    assert(e + e == 2 * e);
    lemma_residue_mul(p, p, n);
    lemma_residue_mul(residue(p, n) as int, p, n);
}

/// Whether `n` is prime, by a Miller-Rabin test to 16 fixed bases (exact below 4
/// and for even numbers).
pub fn is_prime(n: BigNat) -> (r: bool)
    ensures
        r == is_probable_prime(n@),
{
    if lt_u64(&n, 4) {
        return lt(&BigNat::from_u64(1), &n);
    }
    if even(&n) {
        return false;
    }
    let one = BigNat::from_u64(1);
    let two = BigNat::from_u64(2);
    let n1 = nat_sub(&n, &one);
    let mut q = n1.copy();
    let r = trailing_zeros(&q).unwrap();
    q = shr(&q, r);
    let isqrt = floor_sqrt(&n);
    let ghost s = r as nat;
    proof {
        lemma_two_adic_unique(n1@, s);
        lemma_isqrt_unique(n@, isqrt@);
        if r == 0 {
            vstd::arithmetic::power2::lemma2_to64();
            assert(n1@ / pow2(0) == n1@);
        }
    }
    let mut i: u32 = 0;
    while i < 16
        invariant
            n@ >= 5,
            n@ % 2 == 1,
            n1@ == n@ - 1,
            two@ == 2,
            isqrt@ == isqrt_spec(n@),
            s == two_adic_valuation(n1@),
            s == r,
            r >= 1,
            q@ == n1@ / pow2(s),
            forall|j: nat| j < i ==> #[trigger] strong_probable_prime_to_base(n@, miller_rabin_base(n@, j), q@, s),
        decreases 16 - i,
    {
        let a0 = rem(&nat_add(&nat_mul(&isqrt, &BigNat::from_u64(i as u64)), &two), &n);
        let ghost base = a0@;
        assert(base == miller_rabin_base(n@, i as nat));
        let significant_bits_of_base = significant_bits(&a0);
        if significant_bits_of_base != 0 {
            proof {
                vstd::arithmetic::power2::lemma2_to64();
            }
            let mut a = modex(a0, q.copy(), n.copy());
            if !equals_u64(&a, 1) {
                let mut t: u64 = 1;
                proof {
                    vstd::arithmetic::power2::lemma2_to64();
                    assert(q@ * pow2(0) == q@);
                }
                while t < r && !equal(&a, &n1)
                    invariant
                        1 <= t <= r,
                        n@ >= 5,
                        n1@ == n@ - 1,
                        s == r,
                        a@ == pow_mod(base, q@ * pow2((t - 1) as nat), n@),
                        forall|u: nat| u < t - 1 ==> #[trigger] pow_mod(base, q@ * pow2(u), n@) != n@ - 1,
                    decreases r - t,
                {
                    proof {
                        lemma_pow_mod_square(base, q@ * pow2((t - 1) as nat), n@);
                        vstd::arithmetic::power2::lemma_pow2_unfold(t as nat);
                        assert(2 * (q@ * pow2((t - 1) as nat)) == q@ * pow2(t as nat)) by (nonlinear_arith)
                            requires
                                pow2(t as nat) == 2 * pow2((t - 1) as nat),
                        ;
                    }
                    a = rem(&square(&a), &n);
                    t = t + 1;
                }
                if !equal(&a, &n1) {
                    proof {
                        assert(t == r);
                        assert(base != 0) by {
                            vstd::arithmetic::power2::lemma_pow2_pos((significant_bits_of_base - 1) as nat);
                        }
                        assert forall|u: nat| u < s implies #[trigger] pow_mod(base, q@ * pow2(u), n@) != n@ - 1 by {
                            if u == t - 1 {
                                assert(pow_mod(base, q@ * pow2(u), n@) == a@);
                            }
                        }
                        assert(!strong_probable_prime_to_base(n@, base, q@, s));
                        assert(!strong_probable_prime_to_base(n@, miller_rabin_base(n@, i as nat), q@, s));
                        assert(n@ % 2 == 1);
                        let nm1 = (n@ - 1) as nat;
                        assert(nm1 == n1@);
                        assert(two_adic_valuation(nm1) == s);
                        assert(nm1 / pow2(two_adic_valuation(nm1)) == q@);
                        assert(!(forall|j: nat| j < 16 ==> #[trigger] strong_probable_prime_to_base(n@, miller_rabin_base(n@, j), nm1 / pow2(two_adic_valuation(nm1)), two_adic_valuation(nm1))));
                        assert(!is_probable_prime(n@));
                    }
                    return false;
                }
                proof {
                    assert(pow_mod(base, q@ * pow2((t - 1) as nat), n@) == n@ - 1);
                    assert(strong_probable_prime_to_base(n@, base, q@, s));
                }
            } else {
                proof {
                    assert(strong_probable_prime_to_base(n@, base, q@, s));
                }
            }
        } else {
            proof {
                vstd::arithmetic::power2::lemma2_to64();
                assert(base == 0);
                assert(strong_probable_prime_to_base(n@, base, q@, s));
            }
        }
        i = i + 1;
    }
    true
}


/// Every positive number has a 2-adic valuation: x = 2^t w with w odd.
proof fn lemma_two_adic_exists(x: nat)
    requires
        x > 0,
    ensures
        x % pow2(two_adic_valuation(x)) == 0,
        (x / pow2(two_adic_valuation(x))) % 2 == 1,
    decreases x,
{
    if x % 2 == 1 {
        vstd::arithmetic::power2::lemma2_to64();
        assert(x % pow2(0) == 0 && (x / pow2(0)) % 2 == 1);
    } else {
        let h = x / 2;
        lemma_two_adic_exists(h);
        let t = two_adic_valuation(h);
        let pt = pow2(t);
        vstd::arithmetic::power2::lemma_pow2_pos(t);
        vstd::arithmetic::power2::lemma_pow2_unfold(t + 1);
        vstd::arithmetic::div_mod::lemma_fundamental_div_mod(h as int, pt as int);
        let w = h / pt;
        assert(x == pow2(t + 1) * w) by (nonlinear_arith)
            requires
                x == 2 * h,
                h == pt * w,
                pow2(t + 1) == 2 * pt,
        ;
        vstd::arithmetic::div_mod::lemma_mod_multiples_basic(w as int, pow2(t + 1) as int);
        vstd::arithmetic::div_mod::lemma_div_multiples_vanish(w as int, pow2(t + 1) as int);
        assert(w * pow2(t + 1) == pow2(t + 1) * w) by (nonlinear_arith);
        assert(x % pow2(t + 1) == 0 && (x / pow2(t + 1)) % 2 == 1);
    }
}

/// Squaring down the chain a^q, a^(2q), ..., a^(2^j q) modulo a prime n: when the
/// first is not 1 and the last is, some term before the last is n - 1.
proof fn lemma_square_chain(n: nat, a: nat, q: nat, j: nat)
    requires
        is_prime_spec(n),
        pow_mod(a, q, n) != 1,
        pow_mod(a, q * pow2(j), n) == 1,
    ensures
        exists|t: nat| t < j && #[trigger] pow_mod(a, q * pow2(t), n) == n - 1,
    decreases j,
{
    vstd::arithmetic::power2::lemma2_to64();
    if j == 0 {
        assert(q * pow2(0) == q);
    } else {
        let j1 = (j - 1) as nat;
        let e = q * pow2(j1);
        let x = pow_mod(a, e, n);
        lemma_pow_mod_square(a, e, n);
        vstd::arithmetic::power2::lemma_pow2_unfold(j);
        assert(2 * e == q * pow2(j)) by (nonlinear_arith)
            requires
                e == q * pow2(j1),
                pow2(j) == 2 * pow2(j1),
        ;
        if x == 1 {
            lemma_square_chain(n, a, q, j1);
        } else {
            lemma_mod_bound(pow(a as int, e), n as int);
            lemma_square_roots_of_one(n, x);
            assert(pow_mod(a, q * pow2(j1), n) == n - 1);
        }
    }
}

/// Only numbers above 1 pass [`is_prime`], and of the even ones only 2.
pub proof fn law_is_prime_refuses_small_and_even(n: nat)
    ensures
        is_probable_prime(n) ==> n >= 2,
        is_probable_prime(n) && n % 2 == 0 ==> n == 2,
        n == 2 || n == 3 ==> is_probable_prime(n),
{
}

/// Every prime passes the test of [`is_prime`]: for a prime `n`,
/// [`is_probable_prime`] holds, so `is_prime(n)` answers true. (By Fermat's little
/// theorem a^(n - 1) = 1 modulo n, and the only square roots of 1 modulo a prime
/// are 1 and n - 1.)
pub proof fn law_primes_pass_is_prime(n: nat)
    requires
        is_prime_spec(n),
    ensures
        is_probable_prime(n),
{
    if n >= 4 {
        assert(n % 2 != 0) by {
            assert(1 < 2nat < n);
        }
        let n1 = (n - 1) as nat;
        lemma_two_adic_exists(n1);
        let s = two_adic_valuation(n1);
        let q = n1 / pow2(s);
        vstd::arithmetic::power2::lemma_pow2_pos(s);
        vstd::arithmetic::div_mod::lemma_fundamental_div_mod(n1 as int, pow2(s) as int);
        assert(q * pow2(s) == n1) by (nonlinear_arith)
            requires
                n1 == pow2(s) * q + 0,
        ;
        assert forall|i: nat| i < 16 implies #[trigger] strong_probable_prime_to_base(n, miller_rabin_base(n, i), q, s) by {
            let a = miller_rabin_base(n, i);
            lemma_mod_bound((isqrt_spec(n) * i + 2) as int, n as int);
            if a != 0 && pow_mod(a, q, n) != 1 {
                lemma_fermat_little(n, a);
                assert(pow_mod(a, q * pow2(s), n) == 1);
                lemma_square_chain(n, a, q, s);
            }
        }
    }
}


/// Once a power residue is 1, squaring keeps it 1.
proof fn lemma_squares_of_one(a: nat, e: nat, k: nat, n: nat)
    requires
        n > 1,
        pow_mod(a, e, n) == 1,
    ensures
        pow_mod(a, e * pow2(k), n) == 1,
    decreases k,
{
    vstd::arithmetic::power2::lemma2_to64();
    if k == 0 {
        assert(e * pow2(0) == e);
    } else {
        let k1 = (k - 1) as nat;
        lemma_squares_of_one(a, e, k1, n);
        lemma_pow_mod_square(a, e * pow2(k1), n);
        vstd::arithmetic::power2::lemma_pow2_unfold(k);
        assert(2 * (e * pow2(k1)) == e * pow2(k)) by (nonlinear_arith)
            requires
                pow2(k) == 2 * pow2(k1),
        ;
        lemma_small_mod(1, n);
    }
}

/// A Fermat witness among the bases refutes: let r = floor(sqrt(n)); when one of
/// [`is_prime`]'s 16 bases a = (r i + 2) mod n, i < 16, is not 0 and a^(n - 1) is
/// not 1 modulo an odd n >= 5, of any size, then n is answered not prime. (Every
/// base the test accepts satisfies a^(n - 1) = 1 modulo n.)
pub proof fn law_fermat_witness_refutes(n: nat, r: nat, i: nat)
    requires
        n >= 5,
        n % 2 == 1,
        r * r <= n < (r + 1) * (r + 1),
        i < 16,
        (r * i + 2) % n != 0,
        pow_mod((r * i + 2) % n, (n - 1) as nat, n) != 1,
    ensures
        !is_probable_prime(n),
{
    lemma_isqrt_unique(n, r);
    assert(miller_rabin_base(n, i) == (r * i + 2) % n);
    let a = miller_rabin_base(n, i);
    let n1 = (n - 1) as nat;
    lemma_two_adic_exists(n1);
    let s = two_adic_valuation(n1);
    let q = n1 / pow2(s);
    vstd::arithmetic::power2::lemma_pow2_pos(s);
    vstd::arithmetic::div_mod::lemma_fundamental_div_mod(n1 as int, pow2(s) as int);
    assert(q * pow2(s) == n1) by (nonlinear_arith)
        requires
            n1 == pow2(s) * q + 0,
    ;
    if is_probable_prime(n) {
        assert(strong_probable_prime_to_base(n, a, q, s));
        if pow_mod(a, q, n) == 1 {
            lemma_squares_of_one(a, q, s, n);
        } else {
            let t = choose|t: nat| t < s && #[trigger] pow_mod(a, q * pow2(t), n) == n - 1;
            let e = q * pow2(t);
            lemma_pow_mod_square(a, e, n);
            assert(((n - 1) * (n - 1)) % (n as int) == 1) by {
                assert((n - 1) * (n - 1) == (n - 2) * n + 1) by (nonlinear_arith);
                vstd::arithmetic::div_mod::lemma_mod_multiples_vanish((n - 2) as int, 1, n as int);
                lemma_small_mod(1, n);
                assert((n - 2) * n == n * (n - 2)) by (nonlinear_arith);
            }
            vstd::arithmetic::power2::lemma_pow2_unfold(t + 1);
            assert(2 * e == q * pow2(t + 1)) by (nonlinear_arith)
                requires
                    e == q * pow2(t),
                    pow2(t + 1) == 2 * pow2(t),
            ;
            let d = (s - (t + 1)) as nat;
            lemma_squares_of_one(a, q * pow2(t + 1), d, n);
            vstd::arithmetic::power2::lemma_pow2_adds(t + 1, d);
            assert(q * pow2(t + 1) * pow2(d) == q * pow2(s)) by (nonlinear_arith)
                requires
                    pow2(t + 1) * pow2(d) == pow2(s),
            ;
        }
    }
}

/// A strong witness among the bases refutes: let r = floor(sqrt(n)) and
/// n - 1 = q 2^s with q odd; when one of [`is_prime`]'s 16 bases
/// a = (r i + 2) mod n, i < 16, is not 0, a^q is not 1 and no a^(q 2^t), t < s,
/// is n - 1 modulo n, then n (odd, >= 5, of any size) is answered not prime.
pub proof fn law_strong_witness_refutes(n: nat, r: nat, i: nat, q: nat, s: nat)
    requires
        n >= 5,
        n % 2 == 1,
        r * r <= n < (r + 1) * (r + 1),
        i < 16,
        q % 2 == 1,
        q * pow2(s) == n - 1,
        (r * i + 2) % n != 0,
        pow_mod((r * i + 2) % n, q, n) != 1,
        forall|t: nat| t < s ==> #[trigger] pow_mod((r * i + 2) % n, q * pow2(t), n) != n - 1,
    ensures
        !is_probable_prime(n),
{
    lemma_isqrt_unique(n, r);
    let n1 = (n - 1) as nat;
    vstd::arithmetic::power2::lemma_pow2_pos(s);
    vstd::arithmetic::div_mod::lemma_mod_multiples_basic(q as int, pow2(s) as int);
    vstd::arithmetic::div_mod::lemma_div_multiples_vanish(q as int, pow2(s) as int);
    assert(q * pow2(s) == pow2(s) * q) by (nonlinear_arith);
    lemma_two_adic_unique(n1, s);
    assert(miller_rabin_base(n, i) == (r * i + 2) % n);
    assert(!strong_probable_prime_to_base(n, miller_rabin_base(n, i), n1 / pow2(two_adic_valuation(n1)), two_adic_valuation(n1)));
}

// ---------------------------------------------------------------------------
// Factorization.
// ---------------------------------------------------------------------------

/// p^e as a natural number.
pub open spec fn prime_power(p: nat, e: nat) -> nat {
    pow(p as int, e) as nat
}

/// The (prime, exponent) pairs of a factor list, as numbers.
pub open spec fn factor_list_view(v: Seq<(BigNat, u32)>) -> Seq<(nat, nat)> {
    v.map_values(|x: (BigNat, u32)| (x.0@, x.1 as nat))
}

/// The product of p^e over a list of (p, e).
pub open spec fn factors_product(f: Seq<(nat, nat)>) -> nat
    decreases f.len(),
{
    if f.len() == 0 {
        1
    } else {
        factors_product(f.drop_last()) * prime_power(f.last().0, f.last().1)
    }
}

/// What [`trial_divide`] promises of (factors, rest) for n > 0: the factors are
/// distinct primes up to `bound` in increasing order with positive exponents,
/// n = (product of p^e) rest, and no prime up to `bound` (below 2^64) divides rest.
pub open spec fn is_trial_division(n: nat, bound: nat, f: Seq<(nat, nat)>, rest: nat) -> bool {
    &&& factors_product(f) * rest == n
    &&& forall|i: int| 0 <= i < f.len() ==> is_prime_spec(#[trigger] f[i].0) && f[i].0 <= bound && f[i].1 >= 1
    &&& forall|i: int, j: int| 0 <= i < j < f.len() ==> f[i].0 < f[j].0
    &&& forall|p: nat| is_prime_spec(p) && p <= bound && p < limb_base() ==> #[trigger] (rest % p) != 0
}

/// b^e >= 2^e for b >= 2.
proof fn lemma_pow_at_least_pow2(b: nat, e: nat)
    requires
        b >= 2,
    ensures
        pow(b as int, e) >= pow2(e),
    decreases e,
{
    vstd::arithmetic::power2::lemma_pow2(e);
    if e == 0 {
        lemma_pow0(b as int);
        lemma_pow0(2);
    } else {
        lemma_pow_at_least_pow2(b, (e - 1) as nat);
        vstd::arithmetic::power2::lemma_pow2((e - 1) as nat);
        lemma_pow_adds(b as int, (e - 1) as nat, 1);
        lemma_pow_adds(2, (e - 1) as nat, 1);
        lemma_pow1(b as int);
        lemma_pow1(2);
        let pb = pow(b as int, (e - 1) as nat);
        let p2 = pow(2, (e - 1) as nat);
        assert(pb * b >= p2 * 2) by (nonlinear_arith)
            requires
                pb >= p2,
                b >= 2,
                p2 >= 0,
        ;
    }
}

/// A divisor of a number not divisible by q is not divisible by q.
proof fn lemma_divisor_keeps_nondivisibility(x: nat, d: nat, q: nat)
    requires
        d > 0,
        q > 0,
        x % d == 0,
        x % q != 0,
    ensures
        (x / d) % q != 0,
{
    vstd::arithmetic::div_mod::lemma_fundamental_div_mod(x as int, d as int);
    let y = x / d;
    assert(x == d * y);
    if y % q == 0 {
        vstd::arithmetic::div_mod::lemma_fundamental_div_mod(y as int, q as int);
        let z = y / q;
        assert(x == (d * z) * q) by (nonlinear_arith)
            requires
                x == d * y,
                y == q * z,
        ;
        vstd::arithmetic::div_mod::lemma_mod_multiples_basic((d * z) as int, q as int);
    }
}

/// Divides the prime p out of m as often as it goes: (how often, what is left).
pub open spec fn strip_prime(m: nat, p: nat) -> (nat, nat)
    decreases m,
{
    if m > 0 && p > 1 && m % p == 0 {
        proof {
            vstd::arithmetic::div_mod::lemma_div_decreases(m as int, p as int);
        }
        let (e, rest) = strip_prime(m / p, p);
        (e + 1, rest)
    } else {
        (0, m)
    }
}

/// Trial division of n by the primes of `ps` in turn: the (p, e) pairs found, in
/// the order of `ps`, and what is left of n.
pub open spec fn trial_division_spec(n: nat, ps: Seq<nat>) -> (Seq<(nat, nat)>, nat)
    decreases ps.len(),
{
    if ps.len() == 0 {
        (Seq::empty(), n)
    } else {
        let (f, m) = trial_division_spec(n, ps.drop_last());
        let p = ps.last();
        let (e, m2) = strip_prime(m, p);
        (if e > 0 { f.push((p, e)) } else { f }, m2)
    }
}

/// The primes [`trial_divide`] tries for a bound: those up to the bound and below 2^64.
pub open spec fn trial_primes(bound: nat) -> Seq<nat> {
    primes_through(if bound < limb_base() { bound } else { (limb_base() - 1) as nat })
}

/// Strips every prime up to `bound` from `n`: returns the (prime, exponent) pairs
/// found, in increasing order, and the part of `n` they leave; ([], 0) for n = 0.
/// The answer is exactly [`trial_division_spec`] over [`trial_primes`].
///
/// An exponent is counted in a `u32`, so `n` must have fewer than 2^32 - 1 binary digits.
pub fn trial_divide(n: BigNat, bound: BigNat) -> (r: (Vec<(BigNat, u32)>, BigNat))
    requires
        n@ < pow2(u32::MAX as nat),
    ensures
        n@ == 0 ==> r.0@.len() == 0 && r.1@ == 0,
        n@ > 0 ==> is_trial_division(n@, bound@, factor_list_view(r.0@), r.1@),
        n@ > 0 ==> (factor_list_view(r.0@), r.1@) == trial_division_spec(n@, trial_primes(bound@)),
{
    if equals_u64(&n, 0) {
        return (Vec::new(), BigNat::from_u64(0));
    }
    let ghost n0 = n@;
    let mut n = n;
    let mut factors: Vec<(BigNat, u32)> = Vec::new();
    let primes = primes_up_to(&bound);
    let ghost pvs = primes@.map_values(|p: BigNat| p@);
    assert(factor_list_view(factors@) =~= Seq::<(nat, nat)>::empty());
    assert(pvs.subrange(0, 0) =~= Seq::<nat>::empty());
    assert(factors_product(Seq::<(nat, nat)>::empty()) == 1);
    let mut k: usize = 0;
    while k < primes.len()
        invariant
            0 <= k <= primes@.len(),
            0 < n@ <= n0,
            n0 < pow2(u32::MAX as nat),
            forall|i: int, j: int| 0 <= i < j < primes@.len() ==> primes@[i]@ < primes@[j]@,
            forall|i: int| 0 <= i < primes@.len() ==> is_prime_spec(#[trigger] primes@[i]@) && primes@[i]@ <= bound@,
            factors_product(factor_list_view(factors@)) * n@ == n0,
            forall|i: int| 0 <= i < factors@.len() ==> is_prime_spec(#[trigger] factor_list_view(factors@)[i].0)
                && factor_list_view(factors@)[i].0 <= bound@ && factor_list_view(factors@)[i].1 >= 1,
            forall|i: int| 0 <= i < factors@.len() ==> exists|j: int| 0 <= j < k && #[trigger] factor_list_view(factors@)[i].0 == primes@[j]@,
            forall|i: int, j: int| 0 <= i < j < factors@.len() ==> factor_list_view(factors@)[i].0 < factor_list_view(factors@)[j].0,
            forall|j: int| 0 <= j < k ==> #[trigger] (n@ % primes@[j]@) != 0,
            pvs == primes@.map_values(|p: BigNat| p@),
            (factor_list_view(factors@), n@) == trial_division_spec(n0, pvs.subrange(0, k as int)),
        decreases primes@.len() - k,
    {
        let p = primes[k].copy();
        let ghost pv = p@;
        assert(is_prime_spec(primes@[k as int]@));
        let ghost f_before = factor_list_view(factors@);
        let ghost m_before = n@;
        proof {
            assert(pvs.subrange(0, k + 1).drop_last() =~= pvs.subrange(0, k as int));
            assert(pvs.subrange(0, k + 1).last() == pv);
        }
        if divisible_by(&n, &p) {
            let ghost n_p = n@;
            let mut e: u32 = 0;
            let mut more = true;
            proof {
                lemma_pow0(pv as int);
                assert(prime_power(pv, 0) == 1);
                assert(1 * n@ == n@);
            }
            while more
                invariant
                    pv >= 2,
                    p@ == pv,
                    k < primes@.len(),
                    0 < n@,
                    n_p <= n0 < pow2(u32::MAX as nat),
                    n@ <= n_p,
                    prime_power(pv, e as nat) * n@ == n_p,
                    more == (n@ % pv == 0),
                    e == 0 ==> more,
                    forall|j: int| 0 <= j < k ==> #[trigger] (n@ % primes@[j]@) != 0,
                    primes@[k as int]@ == pv,
                    forall|i: int| 0 <= i < primes@.len() ==> is_prime_spec(#[trigger] primes@[i]@) && primes@[i]@ <= bound@,
                    strip_prime(n_p, pv) == ((e + strip_prime(n@, pv).0) as nat, strip_prime(n@, pv).1),
                decreases n@,
            {
                let ghost before = n@;
                proof {
                    vstd::arithmetic::div_mod::lemma_fundamental_div_mod(before as int, pv as int);
                    assert forall|j: int| 0 <= j < k implies #[trigger] ((before / pv) % primes@[j]@) != 0 by {
                        assert(is_prime_spec(primes@[j]@));
                        lemma_divisor_keeps_nondivisibility(before, pv, primes@[j]@);
                    }
                    lemma_pow_adds(pv as int, e as nat, 1);
                    lemma_pow1(pv as int);
                    vstd::arithmetic::power::lemma_pow_positive(pv as int, e as nat);
                    assert(prime_power(pv, (e + 1) as nat) * (before / pv) == n_p) by (nonlinear_arith)
                        requires
                            prime_power(pv, e as nat) * before == n_p,
                            before == pv * (before / pv),
                            prime_power(pv, (e + 1) as nat) == prime_power(pv, e as nat) * pv,
                    ;
                    lemma_pow_at_least_pow2(pv, (e + 1) as nat);
                    assert((before / pv) > 0) by {
                        if before / pv == 0 {
                            assert(before == 0);
                        }
                    }
                    assert(prime_power(pv, (e + 1) as nat) <= n_p) by (nonlinear_arith)
                        requires
                            prime_power(pv, (e + 1) as nat) * (before / pv) == n_p,
                            (before / pv) > 0,
                    ;
                    if e + 1 >= u32::MAX {
                        if e + 1 > u32::MAX {
                            vstd::arithmetic::power2::lemma_pow2_strictly_increases(u32::MAX as nat, (e + 1) as nat);
                        }
                    }
                    assert(before / pv < before) by {
                        vstd::arithmetic::div_mod::lemma_div_decreases(before as int, pv as int);
                    }
                }
                n = div_exact(&n, &p);
                e = e + 1;
                more = divisible_by(&n, &p);
            }
            proof {
                assert(strip_prime(n@, pv) == (0nat, n@));
                assert(factor_list_view(factors@.push((p, e))) =~= factor_list_view(factors@).push((pv, e as nat)));
                let f = factor_list_view(factors@);
                assert(factor_list_view(factors@.push((p, e))).drop_last() =~= f);
                assert(factors_product(f) * n_p == n0);
                assert(factors_product(f.push((pv, e as nat))) * n@ == n0) by (nonlinear_arith)
                    requires
                        factors_product(f) * n_p == n0,
                        prime_power(pv, e as nat) * n@ == n_p,
                        factors_product(f.push((pv, e as nat))) == factors_product(f) * prime_power(pv, e as nat),
                ;
            }
            factors.push((p, e));
        }
        k = k + 1;
    }
    proof {
        let f = factor_list_view(factors@);
        assert forall|q: nat| is_prime_spec(q) && q <= bound@ && q < limb_base() implies #[trigger] (n@ % q) != 0 by {
            let j = choose|j: int| 0 <= j < primes@.len() && #[trigger] primes@[j]@ == q;
        }
    }
    assert(pvs.subrange(0, primes@.len() as int) =~= pvs);
    assert(pvs == trial_primes(bound@));
    (factors, n)
}


/// gcd(a, b) divides a and b, and is positive when b is.
pub proof fn lemma_gcd_divides(a: nat, b: nat)
    ensures
        b > 0 ==> gcd_spec(a, b) > 0,
        gcd_spec(a, b) > 0 ==> a % gcd_spec(a, b) == 0 && b % gcd_spec(a, b) == 0,
    decreases b,
{
    let g = gcd_spec(a, b);
    if b == 0 {
        if a > 0 {
            vstd::arithmetic::div_mod::lemma_mod_self_0(a as int);
            lemma_small_mod(0, a);
        }
    } else {
        let r = a % b;
        lemma_gcd_divides(b, r);
        assert(g == gcd_spec(b, r));
        if g > 0 {
            vstd::arithmetic::div_mod::lemma_fundamental_div_mod(a as int, b as int);
            let qb = a / b;
            vstd::arithmetic::div_mod::lemma_fundamental_div_mod(b as int, g as int);
            vstd::arithmetic::div_mod::lemma_fundamental_div_mod(r as int, g as int);
            let kb = b / g;
            let kr = r / g;
            assert(a == g * (kb * qb + kr)) by (nonlinear_arith)
                requires
                    a == b * qb + r,
                    b == g * kb,
                    r == g * kr,
            ;
            vstd::arithmetic::div_mod::lemma_mod_multiples_basic((kb * qb + kr) as int, g as int);
            assert((kb * qb + kr) * g == g * (kb * qb + kr)) by (nonlinear_arith);
        }
    }
}

/// The pseudo-random step x -> x^2 + c modulo n.
fn rho_step(x: &BigNat, c: &BigNat, n: &BigNat) -> (r: BigNat)
    requires
        x@ < n@,
        c@ < n@,
    ensures
        r@ < n@,
        r@ == ((x@ * x@) % n@ + c@) % n@,
{
    let sq = mod_mul(x, x, n);
    proof {
        lemma_mod_bound((x@ * x@) as int, n@ as int);
    }
    let r = mod_add(&sq, c, n);
    proof {
        lemma_mod_bound((sq@ + c@) as int, n@ as int);
    }
    r
}

/// One step y -> y^2 + c of the walk modulo n.
pub open spec fn rho_walk_step(n: nat, c: nat, y: nat) -> nat {
    ((y * y) % n + c) % n
}

/// The walk after t steps from y.
pub open spec fn rho_walk(n: nat, c: nat, y: nat, t: nat) -> nat
    decreases t,
{
    if t == 0 {
        y
    } else {
        rho_walk_step(n, c, rho_walk(n, c, y, (t - 1) as nat))
    }
}

/// s steps of the walk from y, each multiplying q by |x - y| modulo n: the final
/// (y, q).
pub open spec fn rho_block(n: nat, c: nat, x: nat, y: nat, q: nat, s: nat) -> (nat, nat)
    decreases s,
{
    if s == 0 {
        (y, q)
    } else {
        let (y1, q1) = rho_block(n, c, x, y, q, (s - 1) as nat);
        let y2 = rho_walk_step(n, c, y1);
        (y2, (q1 * abs(x - y2)) % n)
    }
}

/// How far k is below bound (0 once it is not).
pub open spec fn remaining(bound: nat, k: nat) -> nat {
    if k < bound {
        (bound - k) as nat
    } else {
        0
    }
}

/// The blocks of one round of length r from position k: blocks of up to 4096
/// steps, each followed by g = gcd(q, n), while k < r and g = 1. The final (y, q, g).
pub open spec fn rho_blocks(n: nat, c: nat, x: nat, y: nat, q: nat, g: nat, r: nat, k: nat) -> (nat, nat, nat)
    decreases remaining(r, k),
{
    if k < r && g == 1 {
        let steps: nat = if 4096 < r - k { 4096 } else { (r - k) as nat };
        let (y2, q2) = rho_block(n, c, x, y, q, steps);
        rho_blocks(n, c, x, y2, q2, gcd_spec(q2, n), r, k + 4096)
    } else {
        (y, q, g)
    }
}

/// The rounds of Brent's search while r < 2^20 and g = 1: each sets x to the
/// current point, walks r steps to ys, runs the blocks, and doubles r. The final
/// (x, ys, g, r).
pub open spec fn rho_rounds(n: nat, c: nat, x: nat, y: nat, q: nat, ys: nat, g: nat, r: nat) -> (nat, nat, nat, nat)
    decreases remaining(1048576, r),
{
    if 0 < r < 1048576 && g == 1 {
        let y2 = rho_walk(n, c, y, r);
        let (y3, q3, g3) = rho_blocks(n, c, y, y2, q, g, r, 0);
        rho_rounds(n, c, y, y3, q3, y2, g3, 2 * r)
    } else {
        (x, ys, g, r)
    }
}

/// Replaying a round one step at a time from ys: the first gcd(|x - ys|, n)
/// above 1, or `None` when `limit` steps pass without one.
pub open spec fn rho_replay(n: nat, c: nat, x: nat, ys: nat, steps: nat, limit: nat) -> Option<nat>
    decreases remaining(limit, steps),
{
    if steps >= limit {
        None
    } else {
        let ys2 = rho_walk_step(n, c, ys);
        let g = gcd_spec(abs(x - ys2), n);
        if g == 1 {
            rho_replay(n, c, x, ys2, steps + 1, limit)
        } else {
            Some(g)
        }
    }
}

/// The search with constant c: `Some(g)` for a divisor g other than n, `Some(0)`
/// when the rounds end with gcd 1 (or the replay finds nothing), and `None` when
/// the gcd is n itself, to try the next constant.
pub open spec fn rho_attempt(n: nat, c: nat) -> Option<nat> {
    let (x, ys, g, r) = rho_rounds(n, c, 1, 1, 1, 1, 1, 1);
    if g == 1 {
        Some(0)
    } else if g == n {
        match rho_replay(n, c, x, ys, 0, r) {
            None => Some(0),
            Some(g2) => if g2 != n { Some(g2) } else { None },
        }
    } else {
        Some(g)
    }
}

/// What [`pollard_rho`] answers: the searches with c + 1, c + 2, ... in turn,
/// until one answers; 0 when the constant would reach n or pass `u32::MAX`.
pub open spec fn rho_search(n: nat, c: nat) -> nat
    decreases remaining(u32::MAX as nat, c),
{
    if c >= u32::MAX || c + 1 >= n {
        0
    } else {
        match rho_attempt(n, c + 1) {
            Some(g) => g,
            None => rho_search(n, c + 1),
        }
    }
}

/// Walking s steps and then t more is walking s + t.
proof fn lemma_walk_adds(n: nat, c: nat, y: nat, s: nat, t: nat)
    ensures
        rho_walk(n, c, rho_walk(n, c, y, s), t) == rho_walk(n, c, y, s + t),
    decreases t,
{
    if t > 0 {
        lemma_walk_adds(n, c, y, s, (t - 1) as nat);
        assert(s + t - 1 == s + (t - 1));
    }
}

/// A common divisor of a and b divides gcd(a, b).
proof fn lemma_common_divisor_divides_gcd(a: nat, b: nat, d: nat)
    requires
        d > 0,
        a % d == 0,
        b % d == 0,
    ensures
        gcd_spec(a, b) % d == 0,
    decreases b,
{
    if b > 0 {
        vstd::arithmetic::div_mod::lemma_fundamental_div_mod(a as int, b as int);
        vstd::arithmetic::div_mod::lemma_fundamental_div_mod(a as int, d as int);
        vstd::arithmetic::div_mod::lemma_fundamental_div_mod(b as int, d as int);
        let (qa, qb, k, rm) = (a / d, b / d, a / b, a % b);
        assert(a == b * k + rm);
        assert(a == d * qa);
        assert(b == d * qb);
        assert(rm == (qa - qb * k) * d) by (nonlinear_arith)
            requires
                a == b * k + rm,
                a == d * qa,
                b == d * qb,
        ;
        vstd::arithmetic::div_mod::lemma_mod_multiples_basic(qa - qb * k, d as int);
        lemma_common_divisor_divides_gcd(b, a % b, d);
    }
}

/// A divisor of n and of x divides x mod n.
proof fn lemma_divisor_survives_reduction(x: nat, n: nat, d: nat)
    requires
        n > 0,
        d > 0,
        n % d == 0,
        x % d == 0,
    ensures
        (x % n) % d == 0,
{
    vstd::arithmetic::div_mod::lemma_fundamental_div_mod(x as int, n as int);
    vstd::arithmetic::div_mod::lemma_fundamental_div_mod(x as int, d as int);
    vstd::arithmetic::div_mod::lemma_fundamental_div_mod(n as int, d as int);
    let (qx, qn, k, rm) = (x / d, n / d, x / n, x % n);
    assert(x == n * k + rm);
    assert(x == d * qx);
    assert(n == d * qn);
    assert(rm == (qx - qn * k) * d) by (nonlinear_arith)
        requires
            x == n * k + rm,
            x == d * qx,
            n == d * qn,
    ;
    vstd::arithmetic::div_mod::lemma_mod_multiples_basic(qx - qn * k, d as int);
}

/// A block of steps ends where the walk does, and the product it keeps is a
/// multiple of d (a divisor of n) when one of its differences |x - y| is.
proof fn lemma_block_catches(n: nat, c: nat, x: nat, y: nat, q: nat, s: nat, j: nat, d: nat)
    ensures
        rho_block(n, c, x, y, q, s).0 == rho_walk(n, c, y, s),
        n > 1 && d > 1 && n % d == 0 && (q % d == 0 || (1 <= j <= s && abs(x - rho_walk(n, c, y, j)) % d == 0))
            ==> rho_block(n, c, x, y, q, s).1 % d == 0,
    decreases s,
{
    if s > 0 {
        let s1 = (s - 1) as nat;
        lemma_block_catches(n, c, x, y, q, s1, j, d);
        let (y1, q1) = rho_block(n, c, x, y, q, s1);
        let y2 = rho_walk_step(n, c, y1);
        let z = abs(x - y2);
        if n > 1 && d > 1 && n % d == 0 && (q % d == 0 || (1 <= j <= s && abs(x - rho_walk(n, c, y, j)) % d == 0)) {
            assert(y2 == rho_walk(n, c, y, s));
            assert(q1 % d == 0 || z % d == 0);
            vstd::arithmetic::div_mod::lemma_fundamental_div_mod(q1 as int, d as int);
            vstd::arithmetic::div_mod::lemma_fundamental_div_mod(z as int, d as int);
            if q1 % d == 0 {
                assert(q1 * z == (q1 / d * z) * d) by (nonlinear_arith)
                    requires
                        q1 == d * (q1 / d),
                ;
                vstd::arithmetic::div_mod::lemma_mod_multiples_basic((q1 / d * z) as int, d as int);
            } else {
                assert(q1 * z == (q1 * (z / d)) * d) by (nonlinear_arith)
                    requires
                        z == d * (z / d),
                ;
                vstd::arithmetic::div_mod::lemma_mod_multiples_basic((q1 * (z / d)) as int, d as int);
            }
            lemma_divisor_survives_reduction(q1 * z, n, d);
        }
    }
}

/// The gcd of a multiple of d (a divisor of n > 1, d > 1) with n is not 1.
proof fn lemma_gcd_not_one(q: nat, n: nat, d: nat)
    requires
        n > 1,
        d > 1,
        n % d == 0,
        q % d == 0,
    ensures
        gcd_spec(q, n) != 1,
{
    lemma_common_divisor_divides_gcd(q, n, d);
    lemma_gcd_divides(q, n);
    if gcd_spec(q, n) == 1 {
        lemma_small_mod(1, d);
    }
}

/// The blocks of a round end with gcd 1 only after walking the whole round.
proof fn lemma_blocks_walk_the_round(n: nat, c: nat, x: nat, y0: nat, y: nat, q: nat, g: nat, r: nat, k: nat)
    requires
        k <= r,
        y == rho_walk(n, c, y0, k),
    ensures
        rho_blocks(n, c, x, y, q, g, r, k).2 == 1 ==> rho_blocks(n, c, x, y, q, g, r, k).0 == rho_walk(n, c, y0, r),
    decreases remaining(r, k),
{
    if k < r && g == 1 {
        let steps: nat = if 4096 < r - k { 4096 } else { (r - k) as nat };
        lemma_block_catches(n, c, x, y, q, steps, 0, 2);
        lemma_walk_adds(n, c, y0, k, steps);
        let (y2, q2) = rho_block(n, c, x, y, q, steps);
        let g2 = gcd_spec(q2, n);
        assert(rho_blocks(n, c, x, y, q, g, r, k) == rho_blocks(n, c, x, y2, q2, g2, r, k + 4096));
        assert(y2 == rho_walk(n, c, y0, k + steps));
        if 4096 < r - k {
            lemma_blocks_walk_the_round(n, c, x, y0, y2, q2, g2, r, k + 4096);
        } else {
            assert(k + steps == r);
            assert(rho_blocks(n, c, x, y2, q2, g2, r, k + 4096) == (y2, q2, g2));
        }
    }
}

/// The blocks of a round catch every difference |x - walk(y0, j)|, k < j <= r,
/// that shares a divisor d > 1 with n: the round then ends with gcd other than 1.
proof fn lemma_blocks_catch(n: nat, c: nat, x: nat, y0: nat, y: nat, q: nat, g: nat, r: nat, k: nat, j: nat, d: nat)
    requires
        n > 1,
        d > 1,
        n % d == 0,
        k <= r,
        y == rho_walk(n, c, y0, k),
        g != 1 || (k < j <= r && abs(x - rho_walk(n, c, y0, j)) % d == 0),
    ensures
        rho_blocks(n, c, x, y, q, g, r, k).2 != 1,
    decreases remaining(r, k),
{
    if k < r && g == 1 {
        let steps: nat = if 4096 < r - k { 4096 } else { (r - k) as nat };
        let jj = (j - k) as nat;
        lemma_walk_adds(n, c, y0, k, jj);
        lemma_walk_adds(n, c, y0, k, steps);
        lemma_block_catches(n, c, x, y, q, steps, jj, d);
        let (y2, q2) = rho_block(n, c, x, y, q, steps);
        let g2 = gcd_spec(q2, n);
        assert(rho_blocks(n, c, x, y, q, g, r, k) == rho_blocks(n, c, x, y2, q2, g2, r, k + 4096));
        assert(y2 == rho_walk(n, c, y0, k + steps));
        if g2 != 1 {
            assert(rho_blocks(n, c, x, y2, q2, g2, r, k + 4096) == (y2, q2, g2));
        }
        if j <= k + steps {
            assert(k + jj == j);
            lemma_gcd_not_one(q2, n, d);
        }
        if g2 == 1 {
            lemma_blocks_catch(n, c, x, y0, y2, q2, g2, r, k + 4096, j, d);
        }
    }
}

/// The rounds from round length r0 = 2^i0 (the walk at position 2 r0 - 2) end with
/// gcd other than 1 when the round of length 2^i, i0 <= i, 2^i < 2^20, meets a
/// difference sharing a divisor d > 1 with n.
proof fn lemma_rounds_catch(n: nat, c: nat, x: nat, y: nat, q: nat, ys: nat, g: nat, i0: nat, i: nat, j: nat, d: nat)
    requires
        n > 1,
        d > 1,
        n % d == 0,
        i0 <= i,
        pow2(i) < 1048576,
        y == rho_walk(n, c, 1, (2 * pow2(i0) - 2) as nat),
        1 <= j <= pow2(i),
        abs(rho_walk(n, c, 1, (2 * pow2(i) - 2) as nat) - rho_walk(n, c, 1, (3 * pow2(i) - 2 + j) as nat)) % d == 0,
    ensures
        rho_rounds(n, c, x, y, q, ys, g, pow2(i0)).2 != 1,
    decreases i - i0,
{
    let r0 = pow2(i0);
    vstd::arithmetic::power2::lemma_pow2_pos(i0);
    if i0 < i {
        vstd::arithmetic::power2::lemma_pow2_strictly_increases(i0, i);
    }
    if g == 1 {
        let p0 = (2 * r0 - 2) as nat;
        let y2 = rho_walk(n, c, y, r0);
        lemma_walk_adds(n, c, 1, p0, r0);
        assert(p0 + r0 == 3 * r0 - 2);
        assert(rho_walk(n, c, 0, 0) == 0);
        let (y3, q3, g3) = rho_blocks(n, c, y, y2, q, g, r0, 0);
        assert(y2 == rho_walk(n, c, y2, 0));
        assert(0 < r0 < 1048576);
        assert(rho_rounds(n, c, x, y, q, ys, g, r0) == rho_rounds(n, c, y, y3, q3, y2, g3, 2 * r0));
        if g3 != 1 {
            assert(rho_rounds(n, c, y, y3, q3, y2, g3, 2 * r0) == (y, y2, g3, 2 * r0));
        }
        if i0 == i {
            let jj = j;
            lemma_walk_adds(n, c, 1, (3 * r0 - 2) as nat, jj);
            lemma_blocks_catch(n, c, y, y2, y2, q, g, r0, 0, jj, d);
        } else {
            lemma_blocks_walk_the_round(n, c, y, y2, y2, q, g, r0, 0);
            if g3 == 1 {
                lemma_walk_adds(n, c, 1, (3 * r0 - 2) as nat, r0);
                vstd::arithmetic::power2::lemma_pow2_unfold(i0 + 1);
                assert(3 * r0 - 2 + r0 == 2 * pow2(i0 + 1) - 2);
                assert(2 * r0 == pow2(i0 + 1));
                assert(y3 == rho_walk(n, c, 1, (2 * pow2(i0 + 1) - 2) as nat));
                lemma_rounds_catch(n, c, y, y3, q3, y2, g3, i0 + 1, i, j, d);
            }
        }
    }
}

/// Brent's rounds search up to round length 2^20: in the round of length
/// r = 2^i < 2^20 the walk y_0 = 1, y_(t+1) = y_t^2 + c mod n compares y_(2r-2)
/// with y_(3r-2+j), 1 <= j <= r; when one of these differences shares a divisor
/// d > 1 with n, the rounds end with a gcd other than 1, so the search with this
/// c does not give up for want of a factor.
pub proof fn law_rho_rounds_catch_collisions(n: nat, c: nat, i: nat, j: nat, d: nat)
    requires
        n > 1,
        d > 1,
        n % d == 0,
        pow2(i) < 1048576,
        1 <= j <= pow2(i),
        abs(rho_walk(n, c, 1, (2 * pow2(i) - 2) as nat) - rho_walk(n, c, 1, (3 * pow2(i) - 2 + j) as nat)) % d == 0,
    ensures
        rho_rounds(n, c, 1, 1, 1, 1, 1, 1).2 != 1,
{
    vstd::arithmetic::power2::lemma2_to64();
    assert(rho_walk(n, c, 1, 0) == 1);
    lemma_rounds_catch(n, c, 1, 1, 1, 1, 1, 0, i, j, d);
}

/// Divisibility is transitive.
proof fn lemma_divides_trans(a: nat, b: nat, c: nat)
    requires
        b > 0,
        c > 0,
        a % b == 0,
        b % c == 0,
    ensures
        a % c == 0,
{
    vstd::arithmetic::div_mod::lemma_fundamental_div_mod(a as int, b as int);
    vstd::arithmetic::div_mod::lemma_fundamental_div_mod(b as int, c as int);
    let (k, l) = (a / b, b / c);
    assert(a == (k * l) * c) by (nonlinear_arith)
        requires
            a == b * k,
            b == c * l,
    ;
    vstd::arithmetic::div_mod::lemma_mod_multiples_basic((k * l) as int, c as int);
}

/// Every number from 2 on has a prime divisor.
proof fn lemma_prime_divisor_exists(m: nat)
    requires
        m >= 2,
    ensures
        exists|p: nat| is_prime_spec(p) && #[trigger] (m % p) == 0,
    decreases m,
{
    if is_prime_spec(m) {
        vstd::arithmetic::div_mod::lemma_mod_self_0(m as int);
        assert(is_prime_spec(m) && m % m == 0);
    } else {
        let d = choose|d: nat| 1 < d < m && #[trigger] (m % d) == 0;
        lemma_prime_divisor_exists(d);
        let p = choose|p: nat| is_prime_spec(p) && #[trigger] (d % p) == 0;
        lemma_divides_trans(m, d, p);
        assert(is_prime_spec(p) && m % p == 0);
    }
}

/// Products of numbers prime to n stay prime to n, modulo n.
proof fn lemma_coprime_product(q: nat, z: nat, n: nat)
    requires
        n > 1,
        gcd_spec(q, n) == 1,
        gcd_spec(z, n) == 1,
    ensures
        gcd_spec((q * z) % n, n) == 1,
{
    let x = (q * z) % n;
    let g = gcd_spec(x, n);
    lemma_gcd_divides(x, n);
    if g != 1 {
        lemma_prime_divisor_exists(g);
        let p = choose|p: nat| is_prime_spec(p) && #[trigger] (g % p) == 0;
        lemma_divides_trans(x, g, p);
        lemma_divides_trans(n, g, p);
        vstd::arithmetic::div_mod::lemma_fundamental_div_mod((q * z) as int, n as int);
        vstd::arithmetic::div_mod::lemma_fundamental_div_mod(x as int, p as int);
        vstd::arithmetic::div_mod::lemma_fundamental_div_mod(n as int, p as int);
        let (k, u, v) = ((q * z) / n, x / p, n / p);
        assert(q * z == (v * k + u) * p) by (nonlinear_arith)
            requires
                q * z == n * k + x,
                x == p * u,
                n == p * v,
        ;
        vstd::arithmetic::div_mod::lemma_mod_multiples_basic((v * k + u) as int, p as int);
        crate::fermat::lemma_euclid(p, q, z);
        if q % p == 0 {
            lemma_common_divisor_divides_gcd(q, n, p);
        } else {
            lemma_common_divisor_divides_gcd(z, n, p);
        }
        lemma_small_mod(1, p);
    }
}

/// A block whose differences are all prime to n keeps the product prime to n.
proof fn lemma_block_coprime(n: nat, c: nat, x: nat, y: nat, q: nat, s: nat)
    requires
        n > 1,
        gcd_spec(q, n) == 1,
        forall|j: nat| 1 <= j <= s ==> gcd_spec(abs(x - #[trigger] rho_walk(n, c, y, j)), n) == 1,
    ensures
        gcd_spec(rho_block(n, c, x, y, q, s).1, n) == 1,
    decreases s,
{
    if s > 0 {
        let s1 = (s - 1) as nat;
        lemma_block_coprime(n, c, x, y, q, s1);
        lemma_block_catches(n, c, x, y, q, s1, 0, 2);
        let (y1, q1) = rho_block(n, c, x, y, q, s1);
        let y2 = rho_walk_step(n, c, y1);
        assert(y2 == rho_walk(n, c, y, s));
        lemma_coprime_product(q1, abs(x - y2), n);
    }
}

/// The blocks of a round end with gcd(q, n) when they run at least once, and with
/// 1 when every difference of the round is prime to n and the product starts so.
proof fn lemma_blocks_coprime(n: nat, c: nat, x: nat, y0: nat, y: nat, q: nat, r: nat, k: nat)
    requires
        n > 1,
        k < r,
        y == rho_walk(n, c, y0, k),
    ensures
        rho_blocks(n, c, x, y, q, 1, r, k).2 == gcd_spec(rho_blocks(n, c, x, y, q, 1, r, k).1, n),
        gcd_spec(q, n) == 1 && (forall|j: nat| k < j <= r ==> gcd_spec(abs(x - #[trigger] rho_walk(n, c, y0, j)), n) == 1)
            ==> rho_blocks(n, c, x, y, q, 1, r, k).2 == 1,
    decreases remaining(r, k),
{
    let steps: nat = if 4096 < r - k { 4096 } else { (r - k) as nat };
    lemma_block_catches(n, c, x, y, q, steps, 0, 2);
    lemma_walk_adds(n, c, y0, k, steps);
    let (y2, q2) = rho_block(n, c, x, y, q, steps);
    let g2 = gcd_spec(q2, n);
    assert(rho_blocks(n, c, x, y, q, 1, r, k) == rho_blocks(n, c, x, y2, q2, g2, r, k + 4096));
    if gcd_spec(q, n) == 1 && (forall|j: nat| k < j <= r ==> gcd_spec(abs(x - #[trigger] rho_walk(n, c, y0, j)), n) == 1) {
        assert forall|j: nat| 1 <= j <= steps implies gcd_spec(abs(x - #[trigger] rho_walk(n, c, y, j)), n) == 1 by {
            lemma_walk_adds(n, c, y0, k, j);
            assert(gcd_spec(abs(x - rho_walk(n, c, y0, k + j)), n) == 1);
        }
        lemma_block_coprime(n, c, x, y, q, steps);
    }
    if k + 4096 < r && g2 == 1 {
        lemma_blocks_coprime(n, c, x, y0, y2, q2, r, k + 4096);
    } else {
        assert(rho_blocks(n, c, x, y2, q2, g2, r, k + 4096) == (y2, q2, g2));
    }
}

/// When the rounds (started with gcd(q, n) = 1) end with a gcd other than 1, it is
/// positive, and some difference |x - walk(ys, j)|, 1 <= j <= r, of the final
/// (x, ys, r) shares a divisor with n.
proof fn lemma_rounds_final_round(n: nat, c: nat, x: nat, y: nat, q: nat, ys: nat, r0: nat)
    requires
        n > 1,
        r0 > 0,
        gcd_spec(q, n) == 1,
    ensures
        rho_rounds(n, c, x, y, q, ys, 1, r0).2 > 0,
        rho_rounds(n, c, x, y, q, ys, 1, r0).2 != 1 ==> exists|j: nat|
            1 <= j <= rho_rounds(n, c, x, y, q, ys, 1, r0).3 && gcd_spec(
                abs(rho_rounds(n, c, x, y, q, ys, 1, r0).0 - #[trigger] rho_walk(n, c, rho_rounds(n, c, x, y, q, ys, 1, r0).1, j)),
                n,
            ) != 1,
    decreases remaining(1048576, r0),
{
    if r0 < 1048576 {
        let y2 = rho_walk(n, c, y, r0);
        assert(y2 == rho_walk(n, c, y2, 0));
        let (y3, q3, g3) = rho_blocks(n, c, y, y2, q, 1, r0, 0);
        lemma_blocks_coprime(n, c, y, y2, y2, q, r0, 0);
        assert(rho_rounds(n, c, x, y, q, ys, 1, r0) == rho_rounds(n, c, y, y3, q3, y2, g3, 2 * r0));
        lemma_gcd_divides(q3, n);
        assert(g3 == gcd_spec(q3, n));
        assert(g3 > 0);
        if g3 != 1 {
            assert(rho_rounds(n, c, y, y3, q3, y2, g3, 2 * r0) == (y, y2, g3, 2 * r0));
            assert(!(forall|j: nat| 0 < j <= r0 ==> gcd_spec(abs(y - #[trigger] rho_walk(n, c, y2, j)), n) == 1));
            let j = choose|j: nat| 0 < j <= r0 && gcd_spec(abs(y - #[trigger] rho_walk(n, c, y2, j)), n) != 1;
            assert(1 <= j <= 2 * r0 && gcd_spec(abs(y - rho_walk(n, c, y2, j)), n) != 1);
            let fin = rho_rounds(n, c, x, y, q, ys, 1, r0);
            assert(fin.0 == y && fin.1 == y2 && fin.3 == 2 * r0);
            assert(1 <= j <= fin.3 && gcd_spec(abs(fin.0 - rho_walk(n, c, fin.1, j)), n) != 1);
        } else {
            lemma_rounds_final_round(n, c, y, y3, q3, y2, 2 * r0);
            let fin = rho_rounds(n, c, x, y, q, ys, 1, r0);
            assert(fin == rho_rounds(n, c, y, y3, q3, y2, 1, 2 * r0));
            if fin.2 != 1 {
                let j = choose|j: nat| 1 <= j <= fin.3 && gcd_spec(abs(fin.0 - #[trigger] rho_walk(n, c, fin.1, j)), n) != 1;
                assert(1 <= j <= fin.3 && gcd_spec(abs(fin.0 - rho_walk(n, c, fin.1, j)), n) != 1);
            }
        }
    } else {
        assert(rho_rounds(n, c, x, y, q, ys, 1, r0) == (x, ys, 1nat, r0));
    }
}

/// The replay finds a difference sharing a divisor with n when there is one
/// within its limit.
proof fn lemma_replay_finds(n: nat, c: nat, x: nat, ys0: nat, ys: nat, steps: nat, limit: nat, j: nat)
    requires
        n > 1,
        ys == rho_walk(n, c, ys0, steps),
        steps < j <= limit,
        gcd_spec(abs(x - rho_walk(n, c, ys0, j)), n) != 1,
    ensures
        rho_replay(n, c, x, ys, steps, limit) matches Some(g) && g > 1,
    decreases remaining(limit, steps),
{
    let ys2 = rho_walk_step(n, c, ys);
    assert(ys2 == rho_walk(n, c, ys0, steps + 1));
    let g = gcd_spec(abs(x - ys2), n);
    lemma_gcd_divides(abs(x - ys2), n);
    if g == 1 {
        lemma_replay_finds(n, c, x, ys0, ys2, steps + 1, limit, j);
    }
}

/// gcd(1, n) = 1.
proof fn lemma_gcd_one(n: nat)
    requires
        n > 1,
    ensures
        gcd_spec(1, n) == 1,
{
    lemma_small_mod(1, n);
    assert(gcd_spec(1, n) == gcd_spec(n, 1));
    assert(n % 1 == 0);
    assert(gcd_spec(n, 1) == gcd_spec(1, 0));
}

/// The search with a constant c finds what its rounds meet: in the round of
/// length r = 2^i < 2^20 the walk y_0 = 1, y_(t+1) = y_t^2 + c mod n compares
/// y_(2r-2) with y_(3r-2+j), 1 <= j <= r; when one of these differences shares a
/// divisor d > 1 with n, the search with c does not give up: it answers a divisor
/// g with 1 < g, or moves on to the next constant (when the divisor it meets is n).
pub proof fn law_rho_finds_what_its_rounds_meet(n: nat, c: nat, i: nat, j: nat, d: nat)
    requires
        n > 1,
        d > 1,
        n % d == 0,
        pow2(i) < 1048576,
        1 <= j <= pow2(i),
        abs(rho_walk(n, c, 1, (2 * pow2(i) - 2) as nat) - rho_walk(n, c, 1, (3 * pow2(i) - 2 + j) as nat)) % d == 0,
    ensures
        rho_attempt(n, c) matches Some(g) ==> g > 1,
{
    law_rho_rounds_catch_collisions(n, c, i, j, d);
    lemma_gcd_one(n);
    lemma_rounds_final_round(n, c, 1, 1, 1, 1, 1);
    let (x, ys, g, r) = rho_rounds(n, c, 1, 1, 1, 1, 1, 1);
    if g == n {
        let jj = choose|jj: nat| 1 <= jj <= r && gcd_spec(abs(x - #[trigger] rho_walk(n, c, ys, jj)), n) != 1;
        assert(ys == rho_walk(n, c, ys, 0));
        lemma_replay_finds(n, c, x, ys, ys, 0, r, jj);
    }
}

/// What [`pollard_rho`] answers when its first walk (c = 1) meets a difference
/// sharing a divisor d > 1 with n in one of its rounds below 2^20: a divisor above
/// 1, unless that walk met n itself and the search moved on to c = 2.
pub proof fn law_pollard_rho_finds_what_its_first_walk_meets(n: nat, i: nat, j: nat, d: nat)
    requires
        n > 1,
        d > 1,
        n % d == 0,
        pow2(i) < 1048576,
        1 <= j <= pow2(i),
        abs(rho_walk(n, 1, 1, (2 * pow2(i) - 2) as nat) - rho_walk(n, 1, 1, (3 * pow2(i) - 2 + j) as nat)) % d == 0,
    ensures
        rho_attempt(n, 1) is None || rho_search(n, 0) > 1,
{
    law_rho_finds_what_its_rounds_meet(n, 1, i, j, d);
}

/// The rounds from length 2^i0 <= 2^20 that end with gcd 1 end at length 2^20.
proof fn lemma_rounds_stop(n: nat, c: nat, x: nat, y: nat, q: nat, ys: nat, g: nat, i0: nat)
    requires
        pow2(i0) <= 1048576,
    ensures
        rho_rounds(n, c, x, y, q, ys, g, pow2(i0)).2 == 1 ==> rho_rounds(n, c, x, y, q, ys, g, pow2(i0)).3 == 1048576,
    decreases 20 - i0,
{
    vstd::arithmetic::power2::lemma2_to64();
    vstd::arithmetic::power2::lemma_pow2_pos(i0);
    let r0 = pow2(i0);
    if r0 < 1048576 && g == 1 {
        if i0 >= 20 {
            if i0 > 20 {
                vstd::arithmetic::power2::lemma_pow2_strictly_increases(20, i0);
            }
        }
        vstd::arithmetic::power2::lemma_pow2_unfold(i0 + 1);
        let y2 = rho_walk(n, c, y, r0);
        let (y3, q3, g3) = rho_blocks(n, c, y, y2, q, g, r0, 0);
        assert(rho_rounds(n, c, x, y, q, ys, g, r0) == rho_rounds(n, c, y, y3, q3, y2, g3, pow2(i0 + 1)));
        if i0 + 1 <= 20 {
            if i0 + 1 < 20 {
                vstd::arithmetic::power2::lemma_pow2_strictly_increases(i0 + 1, 20);
            }
            lemma_rounds_stop(n, c, y, y3, q3, y2, g3, i0 + 1);
        }
    }
}

/// Brent's rounds give up only at length 2^20: when they end with gcd 1, the last
/// round length reached is exactly 2^20.
pub proof fn law_rho_rounds_give_up_at_2_20(n: nat, c: nat)
    ensures
        rho_rounds(n, c, 1, 1, 1, 1, 1, 1).2 == 1 ==> rho_rounds(n, c, 1, 1, 1, 1, 1, 1).3 == 1048576,
{
    vstd::arithmetic::power2::lemma2_to64();
    lemma_rounds_stop(n, c, 1, 1, 1, 1, 1, 0);
}

/// A nontrivial factor of `n` by Pollard's rho method with Brent's cycle
/// detection, or 0 when it finds none; exactly [`rho_search`]`(n, 0)`.
///
/// It tries x -> x^2 + c for c = 1, 2, ..., each for up to about 2^21 steps,
/// multiplying the differences modulo n in blocks of 4096 before taking a gcd;
/// when a block's gcd is n itself, it replays the round one step at a time, which
/// meets a difference sharing a factor with n within the round's steps. The answer
/// is 0 when a round ends with gcd 1, and also when c would reach n (the step
/// function requires c < n) or pass `u32::MAX`.
pub fn pollard_rho(n: &BigNat) -> (g: BigNat)
    requires
        n@ > 1,
    ensures
        g@ == rho_search(n@, 0),
        g@ == 0 || (1 < g@ < n@ && n@ % g@ == 0),
{
    let mut c: u32 = 0;
    loop
        invariant
            n@ > 1,
            rho_search(n@, c as nat) == rho_search(n@, 0),
        decreases u32::MAX - c,
    {
        if c == u32::MAX {
            return BigNat::from_u64(0);
        }
        c = c + 1;
        let cb = BigNat::from_u64(c as u64);
        if !lt(&cb, n) {
            return BigNat::from_u64(0);
        }
        let ghost cv = c as nat;
        let mut x = BigNat::from_u64(1);
        let mut y = x.copy();
        let mut r: u64 = 1;
        let mut q = BigNat::from_u64(1);
        let mut ys = y.copy();
        let m: u64 = 4096;
        let mut g = BigNat::from_u64(1);
        let ghost total = rho_rounds(n@, cv, 1, 1, 1, 1, 1, 1);
        while r < 1048576 && equals_u64(&g, 1)
            invariant
                n@ > 1,
                cb@ == cv,
                cb@ < n@,
                1 <= r <= 2097152,
                x@ < n@,
                y@ < n@,
                ys@ < n@,
                q@ < n@,
                g@ == 1 || (g@ > 0 && n@ % g@ == 0),
                m == 4096,
                rho_rounds(n@, cv, x@, y@, q@, ys@, g@, r as nat) == total,
            decreases 2097152 - r,
        {
            let ghost (y0, q0) = (y@, q@);
            x = y.copy();
            let mut t: u64 = 0;
            while t < r
                invariant
                    n@ > 1,
                    cb@ == cv,
                    cb@ < n@,
                    y@ < n@,
                    y@ == rho_walk(n@, cv, y0, t as nat),
                    t <= r,
                decreases r - t,
            {
                y = rho_step(&y, &cb, n);
                t = t + 1;
            }
            ys = y.copy();
            let ghost y2 = y@;
            let mut k: u64 = 0;
            while k < r && equals_u64(&g, 1)
                invariant
                    n@ > 1,
                    cb@ == cv,
                    cb@ < n@,
                    r <= 2097152,
                    k <= r + m,
                    m == 4096,
                    x@ < n@,
                    y@ < n@,
                    q@ < n@,
                    g@ == 1 || (g@ > 0 && n@ % g@ == 0),
                    rho_blocks(n@, cv, x@, y@, q@, g@, r as nat, k as nat) == rho_blocks(n@, cv, y0, y2, q0, 1, r as nat, 0),
                decreases r + m - k,
            {
                let steps = if m < r - k { m } else { r - k };
                let ghost (yb, qb) = (y@, q@);
                let mut t: u64 = 0;
                while t < steps
                    invariant
                        n@ > 1,
                        cb@ == cv,
                        cb@ < n@,
                        x@ < n@,
                        y@ < n@,
                        q@ < n@,
                        t <= steps,
                        (y@, q@) == rho_block(n@, cv, x@, yb, qb, t as nat),
                    decreases steps - t,
                {
                    y = rho_step(&y, &cb, n);
                    q = nat_mul(&q, &abs_diff(&x, &y));
                    q = rem(&q, n);
                    proof {
                        lemma_mod_bound(q@ as int, n@ as int);
                    }
                    t = t + 1;
                }
                g = gcd(&q, n);
                proof {
                    lemma_gcd_divides(q@, n@);
                }
                k = k + m;
            }
            r = r * 2;
        }
        if equals_u64(&g, 1) {
            return BigNat::from_u64(0);
        }
        if equal(&g, n) {
            g = BigNat::from_u64(1);
            let mut steps: u64 = 0;
            let ghost replay = rho_replay(n@, cv, x@, ys@, 0, r as nat);
            assert(rho_search(n@, 0) == match replay {
                None => 0,
                Some(g2) => if g2 != n@ { g2 } else { rho_search(n@, cv) },
            });
            while equals_u64(&g, 1)
                invariant
                    n@ > 1,
                    cb@ == cv,
                    cb@ < n@,
                    x@ < n@,
                    ys@ < n@,
                    r <= 2097152,
                    steps <= r,
                    g@ == 1 || (g@ > 0 && n@ % g@ == 0),
                    g@ == 1 ==> rho_replay(n@, cv, x@, ys@, steps as nat, r as nat) == replay,
                    g@ != 1 ==> replay == Some(g@),
                    rho_search(n@, 0) == match replay {
                        None => 0,
                        Some(g2) => if g2 != n@ { g2 } else { rho_search(n@, cv) },
                    },
                decreases r - steps,
            {
                if steps == r {
                    assert(rho_replay(n@, cv, x@, ys@, steps as nat, r as nat) is None);
                    return BigNat::from_u64(0);
                }
                ys = rho_step(&ys, &cb, n);
                g = gcd(&abs_diff(&x, &ys), n);
                proof {
                    lemma_gcd_divides(abs(x@ - ys@), n@);
                }
                steps = steps + 1;
            }
        }
        if !equal(&g, n) {
            proof {
                vstd::arithmetic::div_mod::lemma_mod_is_zero(n@, g@);
                if g@ > n@ {
                    lemma_small_mod(n@, g@);
                }
            }
            return g;
        }
    }
}


/// The product of the primes up to `n`.
pub open spec fn primorial(n: nat) -> nat
    decreases n,
{
    if n < 2 {
        1
    } else {
        primorial((n - 1) as nat) * if is_prime_spec(n) { n } else { 1 }
    }
}

/// The product of the primes up to `b`.
///
/// The loop meant to raise each prime up to sqrt(b) to its largest power up to
/// `b` compares the next power with itself, so it never stops once such a prime
/// exists, which is the case for b >= 4; those inputs are excluded.
pub fn smooth(b: u32) -> (r: BigNat)
    requires
        b < 4,
    ensures
        r@ == primorial(b as nat),
{
    let mut powers: Vec<BigNat> = Vec::new();
    let bound = BigNat::from_u64(b as u64);
    let isqrt = floor_sqrt(&bound);
    proof {
        if isqrt@ >= 2 {
            assert(isqrt@ * isqrt@ >= 4) by (nonlinear_arith)
                requires
                    isqrt@ >= 2,
            ;
        }
    }
    let small = primes_up_to(&isqrt);
    proof {
        if small@.len() > 0 {
            assert(is_prime_spec(small@[0]@));
        }
    }
    let mut i: usize = 0;
    while i < small.len()
        invariant
            small@.len() == 0,
            powers@.len() == 0,
        decreases small@.len() - i,
    {
        let p = small[i].copy();
        let mut a = p.copy();
        loop
            invariant
                i < small@.len(),
                small@.len() == 0,
            decreases 0nat,
        {
            let next = nat_mul(&a, &p);
            if lt(&next, &next) {
                break;
            }
            a = next;
        }
        powers.push(a);
        i = i + 1;
    }
    let all = primes_up_to(&bound);
    let mut j: usize = 0;
    while j < all.len()
        invariant
            j <= all@.len(),
            isqrt@ <= 1,
            powers@.len() == j,
            forall|t: int| 0 <= t < all@.len() ==> is_prime_spec(#[trigger] all@[t]@),
            forall|t: int| 0 <= t < j ==> #[trigger] powers@[t]@ == all@[t]@,
        decreases all@.len() - j,
    {
        let p = all[j].copy();
        if le(&p, &isqrt) {
            proof {
                assert(is_prime_spec(all@[j as int]@));
            }
        } else {
            powers.push(p);
        }
        j = j + 1;
    }
    proof {
        assert(is_prime_spec(2)) by {
            assert forall|d: nat| 1 < d < 2 implies #[trigger] (2nat % d) != 0 by {}
        }
        assert(is_prime_spec(3)) by {
            assert forall|d: nat| 1 < d < 3 implies #[trigger] (3nat % d) != 0 by {
                assert(d == 2);
            }
        }
        assert(!is_prime_spec(1));
        assert(primorial(0) == 1);
        assert(primorial(1) == 1);
        assert(primorial(2) == 2);
        assert(primorial(3) == primorial(2) * 3);
        assert(primorial(3) == 6);
        let pv = powers@.map_values(|x: BigNat| x@);
        if b <= 1 {
            if all@.len() > 0 {
                assert(is_prime_spec(all@[0]@));
            }
            assert(pv =~= Seq::<nat>::empty());
        } else {
            let w0 = choose|t: int| 0 <= t < all@.len() && #[trigger] all@[t]@ == 2;
            assert forall|t: int| 0 <= t < all@.len() implies #[trigger] all@[t]@ >= 2 by {
                assert(is_prime_spec(all@[t]@));
            }
            assert(w0 == 0) by {
                if w0 > 0 {
                    assert(all@[0]@ < all@[w0]@);
                }
            }
            if b == 2 {
                assert(all@.len() == 1) by {
                    if all@.len() > 1 {
                        assert(all@[0]@ < all@[1]@);
                    }
                }
                assert(pv =~= seq![2nat]);
                assert(pv.drop_last() =~= Seq::<nat>::empty());
                assert(seq_product(pv) == seq_product(pv.drop_last()) * 2);
            } else {
                let w1 = choose|t: int| 0 <= t < all@.len() && #[trigger] all@[t]@ == 3;
                assert(w1 == 1) by {
                    if w1 > 1 {
                        assert(all@[1]@ < all@[w1]@);
                        assert(all@[0]@ < all@[1]@);
                    }
                }
                assert(all@.len() == 2) by {
                    if all@.len() > 2 {
                        assert(all@[1]@ < all@[2]@);
                        assert(all@[2]@ <= 3);
                    }
                }
                assert(pv =~= seq![2nat, 3nat]);
                assert(pv.drop_last() =~= seq![2nat]);
                assert(pv.drop_last().drop_last() =~= Seq::<nat>::empty());
                assert(seq_product(pv.drop_last()) == seq_product(pv.drop_last().drop_last()) * 2);
                assert(seq_product(pv) == seq_product(pv.drop_last()) * 3);
            }
        }
    }
    product(&powers)
}


/// The lexicographic order of (prime, exponent) pairs.
pub open spec fn pair_le(a: (nat, nat), b: (nat, nat)) -> bool {
    a.0 < b.0 || (a.0 == b.0 && a.1 <= b.1)
}

/// No prime up to 1000 divides `x`.
pub open spec fn avoids_small_primes(x: nat) -> bool {
    forall|p: nat| is_prime_spec(p) && p <= 1000 ==> #[trigger] (x % p) != 0
}

/// A (p, e) pair that [`factor`] may report: a prime up to 1000 found by trial
/// division with its exponent, or a number that no prime up to 1000 divides and
/// that passed [`is_prime`], with exponent 1.
pub open spec fn is_reported_factor(f: (nat, nat)) -> bool {
    ||| is_prime_spec(f.0) && f.0 <= 1000 && f.1 >= 1
    ||| f.1 == 1 && is_probable_prime(f.0) && avoids_small_primes(f.0)
}

/// A part that [`factor`] gives up on: above 1, failing [`is_prime`], and one on
/// which [`pollard_rho`] answers 0.
pub open spec fn is_given_up_part(x: nat) -> bool {
    x > 1 && !is_probable_prime(x) && rho_search(x, 0) == 0 && avoids_small_primes(x)
}

/// Each prime up to 1000 appears in at most one pair.
pub open spec fn small_primes_once(f: Seq<(nat, nat)>) -> bool {
    forall|i: int, j: int|
        #![trigger f[i], f[j]]
        0 <= i < f.len() && 0 <= j < f.len() && i != j && is_prime_spec(f[i].0) && f[i].0 <= 1000 ==> f[i].0 != f[j].0
}

/// What [`factor`] promises of (factors, rest) for n > 0: n = (product of p^e) rest,
/// every pair is one it may report, the pairs are sorted, each prime up to 1000
/// appears once, no prime up to 1000 divides rest, and rest >= 1 is the product of
/// the parts it gave up on.
pub open spec fn is_factor_report(n: nat, f: Seq<(nat, nat)>, rest: nat) -> bool {
    &&& factors_product(f) * rest == n
    &&& forall|i: int| 0 <= i < f.len() ==> is_reported_factor(#[trigger] f[i])
    &&& forall|i: int, j: int| 0 <= i < j < f.len() ==> pair_le(f[i], f[j])
    &&& small_primes_once(f)
    &&& rest >= 1
    &&& avoids_small_primes(rest)
    &&& exists|parts: Seq<nat>|
        #[trigger] seq_product(parts) == rest
            && forall|i: int| 0 <= i < parts.len() ==> is_given_up_part(#[trigger] parts[i])
}

/// A divisor of a number that avoids the primes up to 1000 avoids them too.
proof fn lemma_divisor_avoids(x: nat, d: nat)
    requires
        d > 0,
        x % d == 0,
        avoids_small_primes(x),
    ensures
        avoids_small_primes(x / d),
{
    assert forall|p: nat| is_prime_spec(p) && p <= 1000 implies #[trigger] ((x / d) % p) != 0 by {
        assert(x % p != 0);
        lemma_divisor_keeps_nondivisibility(x, d, p);
    }
}

/// A product of numbers that avoid the primes up to 1000 avoids them.
proof fn lemma_product_avoids(s: Seq<nat>)
    requires
        forall|i: int| 0 <= i < s.len() ==> avoids_small_primes(#[trigger] s[i]),
    ensures
        avoids_small_primes(seq_product(s)),
    decreases s.len(),
{
    if s.len() == 0 {
        assert forall|p: nat| is_prime_spec(p) && p <= 1000 implies #[trigger] (1nat % p) != 0 by {
            lemma_small_mod(1, p);
        }
    } else {
        lemma_product_avoids(s.drop_last());
        let a = seq_product(s.drop_last());
        let b = s.last();
        assert(avoids_small_primes(b)) by {
            assert(b == s[s.len() - 1]);
        }
        assert forall|p: nat| is_prime_spec(p) && p <= 1000 implies #[trigger] (seq_product(s) % p) != 0 by {
            assert(a % p != 0);
            assert(b % p != 0);
            if (a * b) % p == 0 {
                crate::fermat::lemma_euclid(p, a, b);
            }
        }
    }
}

/// The sum of the squares of a sequence.
pub open spec fn sum_of_squares(s: Seq<nat>) -> nat
    decreases s.len(),
{
    if s.len() == 0 {
        0
    } else {
        sum_of_squares(s.drop_last()) + s.last() * s.last()
    }
}

/// Inserting a pair anywhere multiplies the product by its power.
proof fn lemma_factors_product_insert(s: Seq<(nat, nat)>, i: int, x: (nat, nat))
    requires
        0 <= i <= s.len(),
    ensures
        factors_product(s.insert(i, x)) == factors_product(s) * prime_power(x.0, x.1),
    decreases s.len(),
{
    if i == s.len() {
        assert(s.insert(i, x) =~= s.push(x));
        assert(s.push(x).drop_last() =~= s);
    } else {
        let t = s.drop_last();
        lemma_factors_product_insert(t, i, x);
        assert(s.insert(i, x).drop_last() =~= t.insert(i, x));
        assert(s.insert(i, x).last() == s.last());
        let a = factors_product(t);
        let b = prime_power(x.0, x.1);
        let c = prime_power(s.last().0, s.last().1);
        assert((a * b) * c == (a * c) * b) by (nonlinear_arith);
    }
}

/// `a` comes strictly before `b` in the lexicographic order of pairs.
fn pair_less(a: &(BigNat, u32), b: &(BigNat, u32)) -> (r: bool)
    ensures
        r == !pair_le((b.0@, b.1 as nat), (a.0@, a.1 as nat)),
{
    lt(&a.0, &b.0) || (equal(&a.0, &b.0) && a.1 < b.1)
}

/// A copy of a (prime, exponent) pair.
fn copy_pair(a: &(BigNat, u32)) -> (r: (BigNat, u32))
    ensures
        r.0@ == a.0@,
        r.1 == a.1,
{
    (a.0.copy(), a.1)
}

/// Inserts x into t before the first element from `pos` on that does not come
/// before or equal x.
pub open spec fn insert_pair(t: Seq<(nat, nat)>, x: (nat, nat), pos: nat) -> Seq<(nat, nat)>
    decreases t.len() - pos,
{
    if pos >= t.len() || !pair_le(t[pos as int], x) {
        t.insert(pos as int, x)
    } else {
        insert_pair(t, x, pos + 1)
    }
}

/// The pairs in lexicographic order, inserted one at a time in the order given.
pub open spec fn sort_pairs(s: Seq<(nat, nat)>) -> Seq<(nat, nat)>
    decreases s.len(),
{
    if s.len() == 0 {
        s
    } else {
        insert_pair(sort_pairs(s.drop_last()), s.last(), 0)
    }
}

/// The pairs in lexicographic order, by insertion.
fn sort_factors(v: &Vec<(BigNat, u32)>) -> (r: Vec<(BigNat, u32)>)
    ensures
        factors_product(factor_list_view(r@)) == factors_product(factor_list_view(v@)),
        forall|i: int| 0 <= i < r@.len() ==> exists|j: int| 0 <= j < v@.len() && #[trigger] factor_list_view(r@)[i] == factor_list_view(v@)[j],
        forall|i: int, j: int| 0 <= i < j < r@.len() ==> pair_le(factor_list_view(r@)[i], factor_list_view(r@)[j]),
        exists|idx: Seq<int>| #[trigger] idx.len() == r@.len()
            && (forall|i: int| 0 <= i < idx.len() ==> 0 <= #[trigger] idx[i] < v@.len()
                && factor_list_view(r@)[i] == factor_list_view(v@)[idx[i]])
            && (forall|i: int, j: int| 0 <= i < j < idx.len() ==> idx[i] != idx[j]),
        factor_list_view(r@) == sort_pairs(factor_list_view(v@)),
{
    let mut sorted: Vec<(BigNat, u32)> = Vec::new();
    let ghost mut idx: Seq<int> = Seq::empty();
    let mut k: usize = 0;
    assert(factor_list_view(v@.subrange(0, 0)) =~= Seq::<(nat, nat)>::empty());
    assert(factor_list_view(sorted@) =~= Seq::<(nat, nat)>::empty());
    while k < v.len()
        invariant
            idx.len() == sorted@.len(),
            forall|i: int| 0 <= i < idx.len() ==> 0 <= #[trigger] idx[i] < k
                && factor_list_view(sorted@)[i] == factor_list_view(v@)[idx[i]],
            forall|i: int, j: int| 0 <= i < j < idx.len() ==> idx[i] != idx[j],
            k <= v@.len(),
            factors_product(factor_list_view(sorted@)) == factors_product(factor_list_view(v@.subrange(0, k as int))),
            forall|i: int| 0 <= i < sorted@.len() ==> exists|j: int| 0 <= j < k && #[trigger] factor_list_view(sorted@)[i] == factor_list_view(v@)[j],
            forall|i: int, j: int| 0 <= i < j < sorted@.len() ==> pair_le(factor_list_view(sorted@)[i], factor_list_view(sorted@)[j]),
            factor_list_view(sorted@) == sort_pairs(factor_list_view(v@).subrange(0, k as int)),
        decreases v@.len() - k,
    {
        let x = copy_pair(&v[k]);
        let ghost xv = (x.0@, x.1 as nat);
        let ghost start = factor_list_view(sorted@);
        let mut pos: usize = 0;
        while pos < sorted.len() && !pair_less(&x, &sorted[pos])
            invariant
                pos <= sorted@.len(),
                xv == (x.0@, x.1 as nat),
                start == factor_list_view(sorted@),
                insert_pair(start, xv, pos as nat) == insert_pair(start, xv, 0),
                forall|i: int| 0 <= i < pos ==> pair_le(#[trigger] factor_list_view(sorted@)[i], xv),
            decreases sorted@.len() - pos,
        {
            pos = pos + 1;
        }
        let ghost old_view = factor_list_view(sorted@);
        sorted.insert(pos, x);
        proof {
            let pre = factor_list_view(v@).subrange(0, k + 1);
            assert(pre.drop_last() =~= factor_list_view(v@).subrange(0, k as int));
            assert(pre.last() == xv);
            assert(factor_list_view(sorted@) =~= old_view.insert(pos as int, xv));
            assert(insert_pair(start, xv, pos as nat) == start.insert(pos as int, xv));
            let old_idx = idx;
            idx = idx.insert(pos as int, k as int);
            let nv = factor_list_view(sorted@);
            assert(nv =~= old_view.insert(pos as int, xv));
            assert forall|t: int| 0 <= t < idx.len() implies 0 <= #[trigger] idx[t] < k + 1
                && nv[t] == factor_list_view(v@)[idx[t]] by {
                if t < pos {
                    assert(idx[t] == old_idx[t] && nv[t] == old_view[t]);
                } else if t == pos {
                    assert(idx[t] == k);
                } else {
                    assert(idx[t] == old_idx[t - 1] && nv[t] == old_view[t - 1]);
                }
            }
            assert forall|a: int, b: int| 0 <= a < b < idx.len() implies idx[a] != idx[b] by {
                if a < pos && b < pos {
                } else if a < pos && b == pos {
                    assert(old_idx[a] < k);
                } else if a < pos {
                    assert(idx[b] == old_idx[b - 1]);
                } else if a == pos {
                    assert(old_idx[b - 1] < k);
                } else {
                    assert(idx[a] == old_idx[a - 1] && idx[b] == old_idx[b - 1]);
                }
            }
        }
        proof {
            let nv = factor_list_view(sorted@);
            assert(nv =~= old_view.insert(pos as int, xv));
            lemma_factors_product_insert(old_view, pos as int, xv);
            let pre = factor_list_view(v@.subrange(0, k as int));
            assert(factor_list_view(v@.subrange(0, k + 1)) =~= pre.push(xv));
            assert(pre.push(xv).drop_last() =~= pre);
            assert(factor_list_view(v@)[k as int] == xv);
            assert forall|i: int| 0 <= i < sorted@.len() implies exists|j: int| 0 <= j < k + 1 && #[trigger] nv[i] == factor_list_view(v@)[j] by {
                if i < pos {
                    assert(nv[i] == old_view[i]);
                } else if i == pos {
                    assert(nv[i] == factor_list_view(v@)[k as int]);
                } else {
                    assert(nv[i] == old_view[i - 1]);
                }
            }
            assert forall|i: int, j: int| 0 <= i < j < sorted@.len() implies pair_le(nv[i], nv[j]) by {
                if pos < old_view.len() {
                    assert(!pair_le(old_view[pos as int], xv));
                }
                if j < pos {
                    assert(nv[i] == old_view[i] && nv[j] == old_view[j]);
                } else if j == pos {
                    assert(nv[i] == old_view[i]);
                } else if i < pos {
                    assert(nv[i] == old_view[i] && nv[j] == old_view[j - 1]);
                    assert(pair_le(old_view[pos as int], old_view[j - 1]) || j - 1 == pos);
                } else if i == pos {
                    assert(nv[j] == old_view[j - 1]);
                    assert(pair_le(old_view[pos as int], old_view[j - 1]) || j - 1 == pos);
                } else {
                    assert(nv[i] == old_view[i - 1] && nv[j] == old_view[j - 1]);
                }
            }
        }
        k = k + 1;
    }
    assert(v@.subrange(0, v@.len() as int) =~= v@);
    assert(factor_list_view(v@).subrange(0, v@.len() as int) =~= factor_list_view(v@));
    assert(idx.len() == sorted@.len());
    sorted
}


/// Values of a vector of naturals.
pub open spec fn nat_values(v: Seq<BigNat>) -> Seq<nat> {
    v.map_values(|x: BigNat| x@)
}

/// The work list of [`factor`]: take the last number to factor; keep it as a
/// factor (exponent 1) when it passes [`is_prime`]; otherwise split it into n/g
/// and g when [`pollard_rho`] finds g (both go back on the list, g last), and give
/// it up when it finds none. The final (factors found, parts given up).
pub open spec fn factor_work(found: Seq<(nat, nat)>, todo: Seq<nat>, given: Seq<nat>) -> (Seq<(nat, nat)>, Seq<nat>)
    decreases sum_of_squares(todo) + todo.len(),
{
    if todo.len() == 0 {
        (found, given)
    } else {
        let n = todo.last();
        let rest = todo.drop_last();
        proof {
            assert(sum_of_squares(todo) == sum_of_squares(rest) + n * n);
            assert(n * n >= 0) by (nonlinear_arith);
        }
        if is_probable_prime(n) {
            factor_work(found.push((n, 1)), rest, given)
        } else {
            let g = rho_search(n, 0);
            if 1 < g < n && n % g == 0 {
                let h = n / g;
                proof {
                    vstd::arithmetic::div_mod::lemma_fundamental_div_mod(n as int, g as int);
                    assert(n == g * h);
                    assert(h >= 2) by {
                        if h <= 1 {
                            assert(g * h <= g) by (nonlinear_arith)
                                requires
                                    h <= 1,
                            ;
                        }
                    }
                    assert(h * h + g * g + 1 < n * n) by (nonlinear_arith)
                        requires
                            n == g * h,
                            g >= 2,
                            h >= 2,
                    ;
                    let t = rest.push(h).push(g);
                    assert(t.drop_last() =~= rest.push(h));
                    assert(rest.push(h).drop_last() =~= rest);
                    assert(sum_of_squares(t) == sum_of_squares(rest.push(h)) + g * g);
                    assert(sum_of_squares(rest.push(h)) == sum_of_squares(rest) + h * h);
                }
                factor_work(found, rest.push(h).push(g), given)
            } else {
                factor_work(found, rest, given.push(n))
            }
        }
    }
}

/// What [`factor`] answers: ([], 0) for 0; otherwise trial division by the primes
/// up to 1000, the work list on what is left (when it is not 1), the factors
/// found sorted, and the product of the parts given up.
pub open spec fn factor_spec(n: nat) -> (Seq<(nat, nat)>, nat) {
    if n == 0 {
        (Seq::empty(), 0)
    } else {
        let (f, m) = trial_division_spec(n, primes_through(1000));
        let (found, given) = factor_work(f, if m == 1 { Seq::empty() } else { seq![m] }, Seq::empty());
        (sort_pairs(found), seq_product(given))
    }
}

/// Factors `n`: trial division by the primes up to 1000, then, for what is left,
/// [`is_prime`] to accept a part and [`pollard_rho`] to split it. Returns the
/// (prime, exponent) pairs in increasing order and the product of the parts that
/// could not be split (1 when none); ([], 0) for n = 0. The answer is exactly
/// [`factor_spec`], and it is a [`is_factor_report`].
pub fn factor(n: BigNat) -> (r: (Vec<(BigNat, u32)>, BigNat))
    requires
        n@ < pow2(u32::MAX as nat),
    ensures
        n@ == 0 ==> r.0@.len() == 0 && r.1@ == 0,
        n@ > 0 ==> is_factor_report(n@, factor_list_view(r.0@), r.1@),
        (factor_list_view(r.0@), r.1@) == factor_spec(n@),
{
    if equals_u64(&n, 0) {
        let none: Vec<(BigNat, u32)> = Vec::new();
        assert(factor_list_view(none@) =~= Seq::<(nat, nat)>::empty());
        return (none, BigNat::from_u64(0));
    }
    let ghost n0 = n@;
    let trial_division_result = trial_divide(n, BigNat::from_u64(1000));
    let mut ret = trial_division_result.0;
    let n = trial_division_result.1;
    let mut to_factor: Vec<BigNat> = Vec::new();
    proof {
        let fp = factors_product(factor_list_view(ret@));
        if n@ == 0 {
            assert(fp * n@ == 0) by (nonlinear_arith)
                requires
                    n@ == 0,
            ;
        }
    }
    if !equals_u64(&n, 1) {
        to_factor.push(n);
    }
    let mut given_up: Vec<BigNat> = Vec::new();
    proof {
        let f = factor_list_view(ret@);
        let fp = factors_product(f);
        assert(nat_values(given_up@) =~= Seq::<nat>::empty());
        assert(seq_product(nat_values(given_up@)) == 1);
        if to_factor@.len() == 0 {
            assert(nat_values(to_factor@) =~= Seq::<nat>::empty());
            assert(seq_product(nat_values(to_factor@)) == 1);
            assert(n@ == 1);
            assert(fp * 1 * 1 == fp) by (nonlinear_arith);
        } else {
            assert(nat_values(to_factor@).drop_last() =~= Seq::<nat>::empty());
            assert(seq_product(nat_values(to_factor@)) == 1 * n@);
            assert(fp * (1 * n@) * 1 == fp * n@) by (nonlinear_arith);
        }
        assert forall|i: int| 0 <= i < f.len() implies is_reported_factor(#[trigger] f[i]) by {
            assert(is_prime_spec(f[i].0));
        }
        assert forall|p: nat| is_prime_spec(p) && p <= 1000 implies #[trigger] (n@ % p) != 0 by {
            assert(p < limb_base());
        }
        assert forall|i: int, j: int|
            #![trigger f[i], f[j]]
            0 <= i < f.len() && 0 <= j < f.len() && i != j && is_prime_spec(f[i].0) && f[i].0 <= 1000 implies f[i].0 != f[j].0 by {
            if i < j {
                assert(f[i].0 < f[j].0);
            } else {
                assert(f[j].0 < f[i].0);
            }
        }
        if to_factor@.len() > 0 {
            assert(to_factor@[0]@ == n@);
            assert(nat_values(to_factor@) =~= seq![n@]);
        } else {
            assert(nat_values(to_factor@) =~= Seq::<nat>::empty());
        }
        assert(trial_primes(1000) == primes_through(1000));
    }
    let ghost work = factor_work(factor_list_view(ret@), nat_values(to_factor@), nat_values(given_up@));
    assert(factor_spec(n0) == (sort_pairs(work.0), seq_product(work.1)));
    while to_factor.len() > 0
        invariant
            n0 > 0,
            factors_product(factor_list_view(ret@)) * seq_product(nat_values(to_factor@)) * seq_product(nat_values(given_up@)) == n0,
            forall|i: int| 0 <= i < ret@.len() ==> is_reported_factor(#[trigger] factor_list_view(ret@)[i]),
            small_primes_once(factor_list_view(ret@)),
            forall|i: int| 0 <= i < to_factor@.len() ==> #[trigger] to_factor@[i]@ > 1
                && avoids_small_primes(to_factor@[i]@),
            forall|i: int| 0 <= i < given_up@.len() ==> is_given_up_part(#[trigger] given_up@[i]@),
            factor_work(factor_list_view(ret@), nat_values(to_factor@), nat_values(given_up@)) == work,
        decreases sum_of_squares(nat_values(to_factor@)),
    {
        let ghost before = nat_values(to_factor@);
        let n = to_factor.pop().unwrap();
        let ghost rest = nat_values(to_factor@);
        proof {
            assert(before.drop_last() =~= rest);
            assert(before.last() == n@);
            assert(avoids_small_primes(n@));
            assert(seq_product(before) == seq_product(rest) * n@);
            assert(sum_of_squares(before) == sum_of_squares(rest) + n@ * n@);
            assert(n@ * n@ > 0) by (nonlinear_arith)
                requires
                    n@ > 1,
            ;
        }
        let ghost fv = factor_list_view(ret@);
        let ghost old_given_up = nat_values(given_up@);
        let ghost gv = seq_product(old_given_up);
        if is_prime(n.copy()) {
            let ghost nv = n@;
            ret.push((n, 1));
            proof {
                assert(factor_list_view(ret@) =~= fv.push((nv, 1)));
                assert(fv.push((nv, 1)).drop_last() =~= fv);
                assert(factor_work(fv, before, old_given_up) == factor_work(fv.push((nv, 1)), rest, old_given_up));
                assert(nat_values(given_up@) == old_given_up);
                let nf = fv.push((nv, 1));
                assert forall|i: int, j: int|
                    #![trigger nf[i], nf[j]]
                    0 <= i < nf.len() && 0 <= j < nf.len() && i != j && is_prime_spec(nf[i].0) && nf[i].0 <= 1000 implies nf[i].0 != nf[j].0 by {
                    if i == fv.len() {
                        vstd::arithmetic::div_mod::lemma_mod_self_0(nv as int);
                        assert(nv % nv != 0);
                    } else if j == fv.len() {
                        vstd::arithmetic::div_mod::lemma_mod_self_0(nf[i].0 as int);
                        assert(nv % nf[i].0 != 0);
                    } else {
                        assert(nf[i] == fv[i] && nf[j] == fv[j]);
                    }
                }
                lemma_pow1(nv as int);
                assert(factors_product(fv.push((nv, 1))) == factors_product(fv) * nv);
                assert(factors_product(fv) * nv * seq_product(rest) * gv == factors_product(fv) * (seq_product(rest) * nv) * gv) by (nonlinear_arith);
            }
        } else {
            let g = pollard_rho(&n);
            if !equals_u64(&g, 0) {
                let h = div_exact(&n, &g);
                let ghost (nv, gval, hval) = (n@, g@, h@);
                proof {
                    vstd::arithmetic::div_mod::lemma_fundamental_div_mod(nv as int, gval as int);
                    assert(nv == gval * hval);
                    if hval <= 1 {
                        assert(gval * hval <= gval) by (nonlinear_arith)
                            requires
                                hval <= 1,
                        ;
                    }
                    assert(gval * gval + hval * hval < nv * nv) by (nonlinear_arith)
                        requires
                            nv == gval * hval,
                            gval > 1,
                            hval > 1,
                    ;
                    lemma_divisor_avoids(nv, gval);
                    vstd::arithmetic::div_mod::lemma_mod_multiples_basic(gval as int, hval as int);
                    vstd::arithmetic::div_mod::lemma_div_multiples_vanish(gval as int, hval as int);
                    assert(gval * hval == hval * gval) by (nonlinear_arith);
                    lemma_divisor_avoids(nv, hval);
                    assert(nv / hval == gval);
                }
                to_factor.push(h);
                to_factor.push(g);
                proof {
                    let after = nat_values(to_factor@);
                    assert(after =~= rest.push(hval).push(gval));
                    assert(!is_probable_prime(nv));
                    assert(rho_search(nv, 0) == gval);
                    assert(1 < gval < nv && nv % gval == 0);
                    assert(hval == nv / gval);
                    assert(factor_work(fv, before, old_given_up) == factor_work(fv, rest.push(hval).push(gval), old_given_up));
                    assert(nat_values(given_up@) == old_given_up);
                    assert(factor_list_view(ret@) == fv);
                    assert(after.drop_last() =~= rest.push(hval));
                    assert(rest.push(hval).drop_last() =~= rest);
                    assert(after.last() == gval);
                    assert(seq_product(after) == seq_product(after.drop_last()) * gval);
                    assert(seq_product(rest.push(hval)) == seq_product(rest) * hval);
                    assert(seq_product(after) == seq_product(rest) * hval * gval);
                    assert(sum_of_squares(after) == sum_of_squares(after.drop_last()) + gval * gval);
                    assert(sum_of_squares(rest.push(hval)) == sum_of_squares(rest) + hval * hval);
                    assert(sum_of_squares(after) == sum_of_squares(rest) + hval * hval + gval * gval);
                    let fp = factors_product(fv);
                    let rp = seq_product(rest);
                    assert(fp * (rp * hval * gval) * gv == fp * (rp * nv) * gv) by (nonlinear_arith)
                        requires
                            nv == gval * hval,
                    ;
                }
            } else {
                let ghost nv = n@;
                given_up.push(n);
                proof {
                    let gu = nat_values(given_up@);
                    assert(gu =~= old_given_up.push(nv));
                    assert(rho_search(nv, 0) == 0);
                    assert(factor_work(fv, before, old_given_up) == factor_work(fv, rest, old_given_up.push(nv)));
                    assert(factor_list_view(ret@) == fv);
                    assert(gu.drop_last() =~= old_given_up);
                    assert(gu.last() == nv);
                    assert(seq_product(gu) == gv * nv);
                    let fp = factors_product(fv);
                    let rp = seq_product(rest);
                    assert(fp * rp * (gv * nv) == fp * (rp * nv) * gv) by (nonlinear_arith);
                }
            }
        }
    }
    let sorted = sort_factors(&ret);
    let rest = product(&given_up);
    proof {
        assert(nat_values(to_factor@) =~= Seq::<nat>::empty());
        assert(work == (factor_list_view(ret@), nat_values(given_up@)));
        assert(nat_values(to_factor@) =~= Seq::<nat>::empty());
        let sv = factor_list_view(sorted@);
        assert forall|i: int| 0 <= i < sv.len() implies is_reported_factor(#[trigger] sv[i]) by {
            let j = choose|j: int| 0 <= j < ret@.len() && sv[i] == factor_list_view(ret@)[j];
        }
        let fv = factor_list_view(ret@);
        let idx = choose|idx: Seq<int>| #[trigger] idx.len() == sorted@.len()
            && (forall|i: int| 0 <= i < idx.len() ==> 0 <= #[trigger] idx[i] < ret@.len()
                && factor_list_view(sorted@)[i] == factor_list_view(ret@)[idx[i]])
            && (forall|i: int, j: int| 0 <= i < j < idx.len() ==> idx[i] != idx[j]);
        assert forall|i: int, j: int|
            #![trigger sv[i], sv[j]]
            0 <= i < sv.len() && 0 <= j < sv.len() && i != j && is_prime_spec(sv[i].0) && sv[i].0 <= 1000 implies sv[i].0 != sv[j].0 by {
            assert(sv[i] == fv[idx[i]] && sv[j] == fv[idx[j]]);
            if i < j {
                assert(idx[i] != idx[j]);
            } else {
                assert(idx[j] != idx[i]);
            }
            assert(fv[idx[i]].0 != fv[idx[j]].0);
        }
        let parts = nat_values(given_up@);
        lemma_seq_product_at_least_one(parts);
        assert(forall|i: int| 0 <= i < parts.len() ==> is_given_up_part(#[trigger] parts[i]));
        assert forall|i: int| 0 <= i < parts.len() implies avoids_small_primes(#[trigger] parts[i]) by {
            assert(is_given_up_part(parts[i]));
        }
        lemma_product_avoids(parts);
        assert(seq_product(parts) == rest@);
        assert(seq_product(nat_values(to_factor@)) == 1);
        let fp = factors_product(factor_list_view(ret@));
        assert(fp * 1 * rest@ == fp * rest@) by (nonlinear_arith);
        assert(factors_product(sv) * rest@ == n0);
    }
    (sorted, rest)
}

/// A product of numbers above 1 is at least 1.
proof fn lemma_seq_product_at_least_one(s: Seq<nat>)
    requires
        forall|i: int| 0 <= i < s.len() ==> #[trigger] s[i] > 1,
    ensures
        seq_product(s) >= 1,
    decreases s.len(),
{
    if s.len() > 0 {
        lemma_seq_product_at_least_one(s.drop_last());
        let p = seq_product(s.drop_last());
        assert(p * s.last() >= 1) by (nonlinear_arith)
            requires
                p >= 1,
                s.last() > 1,
        ;
    }
}


// ---------------------------------------------------------------------------
// Decimal front ends.
// ---------------------------------------------------------------------------

/// "p" for an exponent of 1, otherwise "p^e".
pub open spec fn factor_text(f: (nat, nat)) -> Seq<char> {
    if f.1 == 1 {
        decimal(f.0)
    } else {
        decimal(f.0) + "^"@ + decimal(f.1)
    }
}

/// The pairs' texts, separated by " x ".
pub open spec fn join_factors(f: Seq<(nat, nat)>) -> Seq<char>
    decreases f.len(),
{
    if f.len() == 0 {
        Seq::empty()
    } else {
        let acc = join_factors(f.drop_last());
        (if acc.len() == 0 { acc } else { acc + " x "@ }) + factor_text(f.last())
    }
}

/// How a factorization is printed: the pairs separated by " x ", followed, when
/// `rest` is not 1, by `rest` and " (failed to factor)".
pub open spec fn render_factorization_spec(f: Seq<(nat, nat)>, rest: nat) -> Seq<char> {
    let body = join_factors(f);
    if rest != 1 {
        (if body.len() == 0 { body } else { body + " x "@ }) + decimal(rest) + " (failed to factor)"@
    } else {
        body
    }
}

/// Prints a factorization as [`factor_string`] does.
pub fn render_factorization(factors: &Vec<(BigNat, u32)>, rest: &BigNat) -> (r: String)
    ensures
        r@ == render_factorization_spec(factor_list_view(factors@), rest@),
{
    let mut ret = String::new();
    let mut i: usize = 0;
    assert(factor_list_view(factors@).subrange(0, 0) =~= Seq::<(nat, nat)>::empty());
    while i < factors.len()
        invariant
            i <= factors@.len(),
            ret@ == join_factors(factor_list_view(factors@).subrange(0, i as int)),
        decreases factors@.len() - i,
    {
        let ghost f = factor_list_view(factors@);
        assert(f.subrange(0, i + 1).drop_last() =~= f.subrange(0, i as int));
        if !ret.as_str().is_empty() {
            ret.append(" x ");
        }
        let p = &factors[i].0;
        let e = factors[i].1;
        if e == 1 {
            ret.append(natural_to_string(p).as_str());
        } else {
            ret.append(natural_to_string(p).as_str());
            ret.append("^");
            ret.append(u32_to_string(e).as_str());
        }
        i = i + 1;
    }
    assert(factor_list_view(factors@).subrange(0, factors@.len() as int) =~= factor_list_view(factors@));
    if !equals_u64(rest, 1) {
        if !ret.as_str().is_empty() {
            ret.append(" x ");
        }
        ret.append(natural_to_string(rest).as_str());
        ret.append(" (failed to factor)");
    }
    ret
}

/// The sum of two decimal integers, in decimal.
pub fn sum(a: String, b: String) -> (r: String)
    requires
        is_integer_literal(a@),
        is_integer_literal(b@),
    ensures
        r@ == signed_decimal(integer_literal_value(a@) + integer_literal_value(b@)),
{
    let a = parse_integer(a.as_str()).unwrap();
    let b = parse_integer(b.as_str()).unwrap();
    integer_to_string(&int_add(&a, &b))
}

/// gcd of two decimal naturals, in decimal.
pub fn gcd_string(a: String, b: String) -> (r: String)
    requires
        is_natural_literal(a@),
        is_natural_literal(b@),
    ensures
        r@ == decimal(gcd_spec(natural_literal_value(a@), natural_literal_value(b@))),
{
    let a = parse_natural(a.as_str()).unwrap();
    let b = parse_natural(b.as_str()).unwrap();
    natural_to_string(&gcd(&a, &b))
}

/// lcm of two decimal naturals, in decimal.
pub fn lcm_string(a: String, b: String) -> (r: String)
    requires
        is_natural_literal(a@),
        is_natural_literal(b@),
    ensures
        r@ == decimal(lcm_spec(natural_literal_value(a@), natural_literal_value(b@))),
{
    let a = parse_natural(a.as_str()).unwrap();
    let b = parse_natural(b.as_str()).unwrap();
    natural_to_string(&lcm(&a, &b))
}

/// [`kronecker_symbol`] of two decimal integers, in decimal.
pub fn kronecker_symbol_string(a: String, b: String) -> (r: String)
    requires
        is_integer_literal(a@),
        is_integer_literal(b@),
    ensures
        r@ == signed_decimal(kronecker_symbol_spec(integer_literal_value(a@), integer_literal_value(b@))),
{
    let a = parse_integer(a.as_str()).unwrap();
    let b = parse_integer(b.as_str()).unwrap();
    i8_to_string(kronecker_symbol(a, b))
}

/// [`modex_integer`] on decimal text.
pub fn modex_string(a: String, b: String, m: String) -> (r: String)
    requires
        is_integer_literal(a@),
        is_integer_literal(b@),
        is_natural_literal(m@),
        ({
            let (av, bv, mv) = (integer_literal_value(a@), integer_literal_value(b@), natural_literal_value(m@));
            mv <= 1 || bv >= 0 || abs(av) % mv != 0
        }),
    ensures
        r@ == decimal(modex_integer_spec(integer_literal_value(a@), integer_literal_value(b@), natural_literal_value(m@))),
{
    let av = parse_integer(a.as_str()).unwrap();
    let bv = parse_integer(b.as_str()).unwrap();
    let mv = parse_natural(m.as_str()).unwrap();
    natural_to_string(&modex_integer(av, bv, mv))
}

/// [`geometric_series_integer`] on decimal text.
pub fn geometric_series_string(a: String, r: String, n: String, m: String) -> (res: String)
    requires
        is_integer_literal(a@),
        is_integer_literal(r@),
        is_natural_literal(n@),
        is_natural_literal(m@),
    ensures
        ({
            let (av, rv, nv, mv) = (integer_literal_value(a@), integer_literal_value(r@), natural_literal_value(n@), natural_literal_value(m@));
            res@ == decimal(if mv <= 1 { 0 } else { geometric_series_spec(lift_residue(av, mv), lift_residue(rv, mv), nv, mv) })
        }),
{
    let av = parse_integer(a.as_str()).unwrap();
    let rv = parse_integer(r.as_str()).unwrap();
    let nv = parse_natural(n.as_str()).unwrap();
    let mv = parse_natural(m.as_str()).unwrap();
    natural_to_string(&geometric_series_integer(av, rv, nv, mv))
}

/// [`is_prime`] on decimal text: "true" or "false".
pub fn is_prime_string(n: String) -> (r: String)
    requires
        is_natural_literal(n@),
    ensures
        r@ == if is_probable_prime(natural_literal_value(n@)) { "true"@ } else { "false"@ },
{
    let nv = parse_natural(n.as_str()).unwrap();
    bool_to_string(is_prime(nv))
}

/// [`factor`] on decimal text, printed as "p^e x q x ..." followed by the part it
/// could not split and " (failed to factor)" when that part is not 1.
pub fn factor_string(n: String) -> (r: String)
    requires
        is_natural_literal(n@),
        natural_literal_value(n@) < pow2(u32::MAX as nat),
    ensures
        ({
            let (f, rest) = factor_spec(natural_literal_value(n@));
            &&& r@ == render_factorization_spec(f, rest)
            &&& natural_literal_value(n@) > 0 ==> is_factor_report(natural_literal_value(n@), f, rest)
        }),
{
    let nv = parse_natural(n.as_str()).unwrap();
    let factors = factor(nv);
    render_factorization(&factors.0, &factors.1)
}


// ---------------------------------------------------------------------------
// Laws.
// ---------------------------------------------------------------------------

/// Powers multiply by adding exponents: what [`modex`] answers for a^(b + c) is
/// the product of its answers for a^b and a^c, reduced modulo m.
pub proof fn law_modex_exponents_add(a: nat, b: nat, c: nat, m: nat)
    requires
        m > 0,
    ensures
        pow_mod(a, b + c, m) == (pow_mod(a, b, m) * pow_mod(a, c, m)) % m,
{
    lemma_pow_adds(a as int, b, c);
    let pb = pow(a as int, b);
    let pc = pow(a as int, c);
    lemma_residue_mul(pb, pc, m);
    lemma_residue_mul(residue(pb, m) as int, pc, m);
}

/// A negative power is the inverse of the positive one: when `a` has an inverse
/// modulo m > 1, [`modex_integer`]'s answers for a^(-k) and a^k multiply to 1.
pub proof fn law_negative_power_inverts(a: int, k: nat, m: nat)
    requires
        m > 1,
        has_mod_inverse(lift_residue(a, m), m),
    ensures
        (modex_integer_spec(a, -(k as int), m) * modex_integer_spec(a, k as int, m)) % m == 1,
{
    let x = lift_residue(a, m);
    lemma_small_mod(1, m);
    if k == 0 {
        lemma_pow0(x as int);
        assert(modex_integer_spec(a, 0, m) == 1);
        assert(-(k as int) == 0);
    } else {
        let y = mod_inverse_spec(x, m);
        assert(y < m && (x * y) % m == 1);
        let py = pow(y as int, k);
        let px = pow(x as int, k);
        vstd::arithmetic::power::lemma_pow_distributes(y as int, x as int, k);
        lemma_residue_mul(py, px, m);
        lemma_residue_mul(residue(py, m) as int, px, m);
        lemma_pow_mod_noop((y * x) as int, k, m as int);
        assert(y * x == x * y) by (nonlinear_arith);
        vstd::arithmetic::power::lemma_pow1(1);
        vstd::arithmetic::power::lemma1_pow(k);
        assert(abs(-(k as int)) == k);
        assert(modex_integer_spec(a, -(k as int), m) == residue(py, m));
        assert(modex_integer_spec(a, k as int, m) == residue(px, m));
    }
}

/// 1 + r + ... + r^(n - 1) times r - 1 is r^n - 1.
pub proof fn lemma_geometric_sum_closed_form(r: int, n: nat)
    ensures
        (r - 1) * geometric_sum(r, n) == pow(r, n) - 1,
    decreases n,
{
    if n == 0 {
        lemma_pow0(r);
    } else {
        let k = (n - 1) as nat;
        lemma_geometric_sum_closed_form(r, k);
        lemma_pow_adds(r, 1, k);
        lemma_pow1(r);
        let g = geometric_sum(r, k);
        let pk = pow(r, k);
        assert(geometric_sum(r, n) == 1 + r * g);
        assert(pow(r, n) == r * pk) by {
            assert(1 + k == n);
        }
        assert((r - 1) * (1 + r * g) == r * pk - 1) by (nonlinear_arith)
            requires
                (r - 1) * g == pk - 1,
        ;
    }
}

/// A geometric series times (r - 1) telescopes: for m > 1, what
/// [`geometric_series`] answers times r - 1 is a (r^n - 1) modulo m, with r^n
/// as [`modex`] computes it.
pub proof fn law_geometric_series_telescopes(a: nat, r: nat, n: nat, m: nat)
    requires
        m > 1,
    ensures
        residue((r - 1) * geometric_series_spec(a, r, n, m), m) == residue(a * (pow_mod(r, n, m) - 1), m),
{
    let g = geometric_sum(r as int, n);
    lemma_geometric_sum_closed_form(r as int, n);
    let p = pow(r as int, n);
    lemma_residue_mul(a as int, p - 1, m);
    lemma_residue_add(p, 1, m);
    lemma_residue_mul(a as int, residue(p, m) - 1, m);
    lemma_residue_add(residue(p, m) as int, 1, m);
    vstd::arithmetic::div_mod::lemma_mod_twice(p, m as int);
    assert((r - 1) * (a * g) == a * (p - 1)) by (nonlinear_arith)
        requires
            (r - 1) * g == p - 1,
    ;
    if n == 0 {
        lemma_pow0(r as int);
        assert(a * (p - 1) == 0) by (nonlinear_arith)
            requires
                p == 1,
        ;
        assert((r - 1) * 0 == 0);
    } else if n == 1 {
        assert(geometric_sum(r as int, 0) == 0);
        assert(g == 1);
        assert(a * g == a);
    } else {
        lemma_residue_mul(r - 1, a * g, m);
    }
}

/// Splitting a geometric sum after n1 terms: the rest is the same sum scaled by r^n1.
pub proof fn lemma_geometric_sum_split(r: int, n1: nat, n2: nat)
    ensures
        geometric_sum(r, n1 + n2) == geometric_sum(r, n1) + pow(r, n1) * geometric_sum(r, n2),
    decreases n1,
{
    if n1 == 0 {
        lemma_pow0(r);
        assert(0 + n2 == n2);
    } else {
        let k = (n1 - 1) as nat;
        lemma_geometric_sum_split(r, k, n2);
        lemma_pow_adds(r, 1, k);
        lemma_pow1(r);
        let g2 = geometric_sum(r, n2);
        let pk = pow(r, k);
        assert(k + n2 + 1 == n1 + n2);
        assert(geometric_sum(r, n1 + n2) == 1 + r * geometric_sum(r, k + n2));
        assert(1 + r * (geometric_sum(r, k) + pk * g2) == (1 + r * geometric_sum(r, k)) + (r * pk) * g2)
            by (nonlinear_arith);
        assert(1 + k == n1);
    }
}

/// A geometric series splits after n1 terms: for m > 1, what [`geometric_series`]
/// answers for n1 + n2 terms is, modulo m, its answer for n1 terms plus r^n1 (as
/// [`modex`] computes it) times its answer for n2 terms.
pub proof fn law_geometric_series_splits(a: nat, r: nat, n1: nat, n2: nat, m: nat)
    requires
        m > 1,
    ensures
        residue(geometric_series_spec(a, r, n1 + n2, m) as int, m) == residue(
            (geometric_series_spec(a, r, n1, m) + pow_mod(r, n1, m) * geometric_series_spec(a, r, n2, m)) as int,
            m,
        ),
{
    let ri = r as int;
    assert forall|n: nat| residue(#[trigger] geometric_series_spec(a, r, n, m) as int, m) == residue(a * geometric_sum(ri, n), m) by {
        if n == 0 {
            assert(a * geometric_sum(ri, 0) == 0);
        } else if n == 1 {
            assert(geometric_sum(ri, 0) == 0);
            assert(geometric_sum(ri, 1) == 1);
            assert(a * geometric_sum(ri, 1) == a);
        } else {
            lemma_mod_twice(a * geometric_sum(ri, n), m as int);
        }
    }
    lemma_geometric_sum_split(ri, n1, n2);
    let s1 = geometric_series_spec(a, r, n1, m) as int;
    let s2 = geometric_series_spec(a, r, n2, m) as int;
    let g1 = a * geometric_sum(ri, n1);
    let g2 = a * geometric_sum(ri, n2);
    let p = pow(ri, n1);
    assert(a * geometric_sum(ri, n1 + n2) == g1 + p * g2) by (nonlinear_arith)
        requires
            geometric_sum(ri, n1 + n2) == geometric_sum(ri, n1) + p * geometric_sum(ri, n2),
            g1 == a * geometric_sum(ri, n1),
            g2 == a * geometric_sum(ri, n2),
    ;
    let pm = pow_mod(r, n1, m) as int;
    assert(residue(s2, m) == residue(g2, m));
    assert(residue(p * s2, m) == residue(p * g2, m)) by {
        lemma_residue_mul(p, s2, m);
        lemma_residue_mul(p, g2, m);
    }
    assert(residue(pm * s2, m) == residue(p * s2, m)) by {
        lemma_residue_mul(p, s2, m);
    }
    lemma_residue_add(s1, pm * s2, m);
    lemma_residue_add(g1, pm * s2, m);
    lemma_residue_add(pm * s2, g1, m);
    lemma_residue_add(p * g2, g1, m);
    lemma_residue_add(p * s2, g1, m);
    assert(residue(s1, m) == residue(g1, m));
}

/// Lifting keeps the residue: the number that the calculators put in place of an
/// integer `a` is congruent to `a` modulo m, in 0..m for a >= 0 and in 1..=m for
/// a < 0 (so a multiple of m below 0 becomes m itself).
pub proof fn law_lifted_base_is_congruent(a: int, m: nat)
    requires
        m > 0,
    ensures
        lift_residue(a, m) <= m,
        a >= 0 ==> lift_residue(a, m) < m,
        a < 0 ==> lift_residue(a, m) > 0,
        residue(lift_residue(a, m) as int, m) == residue(a, m),
{
    let mi = m as int;
    if a < 0 {
        vstd::arithmetic::div_mod::lemma_fundamental_div_mod(-a, mi);
        let q = (-a) / mi;
        let r = (-a) % mi;
        lemma_mod_bound(-a, mi);
        assert(mi - r == mi * (q + 1) + a) by (nonlinear_arith)
            requires
                -a == mi * q + r,
        ;
        vstd::arithmetic::div_mod::lemma_mod_multiples_vanish(q + 1, a, mi);
        assert(abs(a) % m == r);
    } else {
        lemma_mod_bound(a, mi);
        lemma_mod_twice(a, mi);
    }
}

/// For a non-negative exponent, [`modex_integer`] answers a^b mod m, whatever the
/// sign and size of `a`.
pub proof fn law_modex_integer_is_power(a: int, b: nat, m: nat)
    requires
        m > 1,
    ensures
        modex_integer_spec(a, b as int, m) == residue(pow(a, b), m),
{
    let x = lift_residue(a, m);
    law_lifted_base_is_congruent(a, m);
    lemma_pow_mod_noop(x as int, b, m as int);
    lemma_pow_mod_noop(a, b, m as int);
}

/// What [`geometric_series`] answers is a (1 + r + ... + r^(n - 1)) modulo m.
proof fn lemma_geometric_series_residue(a: nat, r: nat, n: nat, m: nat)
    requires
        m > 1,
    ensures
        residue(geometric_series_spec(a, r, n, m) as int, m) == residue(a * geometric_sum(r as int, n), m),
{
    let ri = r as int;
    if n == 0 {
        assert(a * geometric_sum(ri, 0) == 0);
    } else if n == 1 {
        assert(geometric_sum(ri, 0) == 0);
        assert(geometric_sum(ri, 1) == 1);
        assert(a * geometric_sum(ri, 1) == a) by (nonlinear_arith)
            requires
                geometric_sum(ri, 1) == 1,
        ;
    } else {
        lemma_mod_twice(a * geometric_sum(ri, n), m as int);
    }
}

/// [`geometric_series_integer`] answers a (1 + r + ... + r^(n - 1)) modulo m for
/// integers a and r of any sign and size (up to the residue: for n = 1 the lifted
/// `a` is answered as it is).
pub proof fn law_geometric_series_integer_is_sum(a: int, r: int, n: nat, m: nat)
    requires
        m > 1,
    ensures
        residue(geometric_series_spec(lift_residue(a, m), lift_residue(r, m), n, m) as int, m)
            == residue(a * geometric_sum(r, n), m),
{
    let la = lift_residue(a, m);
    let lr = lift_residue(r, m);
    law_lifted_base_is_congruent(a, m);
    law_lifted_base_is_congruent(r, m);
    lemma_geometric_series_residue(la, lr, n, m);
    lemma_geometric_sum_congruent(lr as int, r, n, m);
    let g1 = geometric_sum(lr as int, n);
    let g2 = geometric_sum(r, n);
    lemma_residue_mul(la as int, g1, m);
    lemma_residue_mul(la as int, g2, m);
    lemma_residue_mul(a, g2, m);
    lemma_residue_mul(la as int, g2, m);
    assert(residue(la * g2, m) == residue(a * g2, m)) by {
        lemma_residue_mul(la as int, g2, m);
        lemma_residue_mul(a, g2, m);
    }
}

/// gcd(a, b) lcm(a, b) = a b.
pub proof fn law_gcd_times_lcm(a: nat, b: nat)
    ensures
        gcd_spec(a, b) * lcm_spec(a, b) == a * b,
{
    if a != 0 && b != 0 {
        lemma_gcd_divides(a, b);
        let g = gcd_spec(a, b);
        vstd::arithmetic::div_mod::lemma_fundamental_div_mod(a as int, g as int);
        let k = a / g;
        assert(a * b == g * (k * b)) by (nonlinear_arith)
            requires
                a == g * k,
        ;
        vstd::arithmetic::div_mod::lemma_div_multiples_vanish((k * b) as int, g as int);
    } else {
        assert(a * b == 0) by (nonlinear_arith)
            requires
                a == 0 || b == 0,
        ;
    }
}

} // verus!
