//! Counting functions modulo a natural number `m`.
//!
//! Each function answers 0 when `m <= 1`, and otherwise the residue modulo `m`
//! of a classical counting sequence.
use crate::bignum::{
    BigNat, nat_add, factorial_spec, lt_u64, mod_add, mod_mul, mod_sub, nat_mul, rem,
    shl, square, nat_sub, to_bits_desc, bits_desc_value,
};
use vstd::arithmetic::div_mod::{
    lemma_add_mod_noop, lemma_mod_bound, lemma_mod_twice, lemma_small_mod, lemma_sub_mod_noop,
};
use vstd::arithmetic::mul::lemma_mul_is_commutative;
use crate::modular::{lemma_residue_add, lemma_residue_mul, residue};
use crate::text::{decimal, is_natural_literal, is_u32_literal, natural_literal_value, parse_u32};
use crate::bignum::{natural_to_string, parse_natural};
use vstd::prelude::*;

verus! {

// ---------------------------------------------------------------------------
// The counting sequences.
// ---------------------------------------------------------------------------

/// Derangement numbers: D(0) = 1 and D(n) = n D(n - 1) + (-1)^n.
pub open spec fn derangement_spec(n: nat) -> int
    decreases n,
{
    if n == 0 {
        1
    } else {
        n * derangement_spec((n - 1) as nat) + if n % 2 == 0 { 1int } else { -1int }
    }
}

/// The falling factorial a (a - 1) ... (a - b + 1), the number of ordered
/// selections of `b` items out of `a` (0 when b > a).
pub open spec fn falling_factorial(a: int, b: nat) -> int
    decreases b,
{
    if b == 0 {
        1
    } else {
        falling_factorial(a, (b - 1) as nat) * (a - (b - 1))
    }
}

/// Fibonacci numbers: F(0) = 0, F(1) = 1, F(n + 2) = F(n + 1) + F(n).
pub open spec fn fib(n: nat) -> nat
    decreases n,
{
    if n == 0 {
        0
    } else if n == 1 {
        1
    } else {
        fib((n - 1) as nat) + fib((n - 2) as nat)
    }
}

/// The j-th generalized pentagonal number, for j >= 1: k(3k - 1)/2 when j = 2k - 1
/// and k(3k + 1)/2 when j = 2k, which gives 1, 2, 5, 7, 12, 15, 22, 26, ...
pub open spec fn pentagonal(j: nat) -> nat {
    if j % 2 == 1 {
        let k = (j + 1) / 2;
        (k * (3 * k - 1) / 2) as nat
    } else {
        let k = j / 2;
        k * (3 * k + 1) / 2
    }
}

/// The sign of the j-th term of Euler's recurrence: + + - - + + - - ...
pub open spec fn pentagonal_sign(j: nat) -> int {
    if j % 4 == 1 || j % 4 == 2 {
        1
    } else {
        -1
    }
}

/// The number of partitions of `n`, by Euler's pentagonal number recurrence:
/// p(0) = 1 and p(n) = sum over j >= 1 with pentagonal(j) <= n of
/// pentagonal_sign(j) p(n - pentagonal(j)).
pub open spec fn partition_count(n: nat) -> int
    decreases n, 1int, 0int,
{
    if n == 0 {
        1
    } else {
        euler_tail(n, 1)
    }
}

/// The terms j, j + 1, ... of Euler's recurrence for p(n).
pub open spec fn euler_tail(n: nat, j: nat) -> int
    decreases n, 0int, n + 1 - j,
{
    if j == 0 || pentagonal(j) > n {
        0
    } else {
        proof {
            lemma_pentagonal_at_least(j);
        }
        pentagonal_sign(j) * partition_count((n - pentagonal(j)) as nat) + euler_tail(n, j + 1)
    }
}

/// The first two generalized pentagonal numbers.
pub proof fn lemma_pentagonal_first()
    ensures
        pentagonal(1) == 1,
        pentagonal(2) == 2,
{
    assert(1nat % 2 == 1);
    assert((1nat + 1) / 2 == 1);
    assert(1nat * (3 * 1nat - 1) == 2);
    assert(2nat % 2 == 0);
    assert(2nat / 2 == 1);
    assert(1nat * (3 * 1nat + 1) == 4);
}

/// pentagonal(j) >= j for j >= 1.
pub proof fn lemma_pentagonal_at_least(j: nat)
    requires
        j >= 1,
    ensures
        pentagonal(j) >= j,
{
    if j % 2 == 1 {
        let k = (j + 1) / 2;
        assert(j == 2 * k - 1);
        assert(k * (3 * k - 1) >= 2 * (2 * k - 1)) by (nonlinear_arith)
            requires
                k >= 1,
        ;
        assert(k * (3 * k - 1) / 2 >= 2 * k - 1) by (nonlinear_arith)
            requires
                k * (3 * k - 1) >= 2 * (2 * k - 1),
        ;
    } else {
        let k = j / 2;
        assert(j == 2 * k);
        assert(k * (3 * k + 1) >= 2 * (2 * k)) by (nonlinear_arith)
            requires
                k >= 1,
        ;
        assert(k * (3 * k + 1) / 2 >= 2 * k) by (nonlinear_arith)
            requires
                k * (3 * k + 1) >= 2 * (2 * k),
        ;
    }
}

/// Consecutive generalized pentagonal numbers differ by (j + 1)/2 when j + 1 is
/// even and by j + 1 when it is odd.
pub proof fn lemma_pentagonal_step(j: nat)
    requires
        j >= 1,
    ensures
        pentagonal(j + 1) == pentagonal(j) + if (j + 1) % 2 == 0 { (j + 1) / 2 } else { j + 1 },
{
    if j % 2 == 1 {
        let k = (j + 1) / 2;
        assert(j == 2 * k - 1);
        assert((j + 1) / 2 == k);
        assert(k * (3 * k + 1) / 2 == k * (3 * k - 1) / 2 + k) by (nonlinear_arith)
            requires
                k >= 1,
        ;
    } else {
        let k = j / 2;
        assert(j == 2 * k);
        assert(((j + 1) + 1) / 2 == k + 1);
        assert((k + 1) * (3 * (k + 1) - 1) / 2 == k * (3 * k + 1) / 2 + 2 * k + 1) by (nonlinear_arith)
            requires
                k >= 1,
        ;
    }
}

// ---------------------------------------------------------------------------
// Lemmas.
// ---------------------------------------------------------------------------

/// Falling factorials of congruent numbers are congruent.
proof fn lemma_falling_factorial_congruent(x: int, y: int, b: nat, m: nat)
    requires
        m > 0,
        residue(x, m) == residue(y, m),
    ensures
        residue(falling_factorial(x, b), m) == residue(falling_factorial(y, b), m),
    decreases b,
{
    if b > 0 {
        let c = (b - 1) as nat;
        lemma_falling_factorial_congruent(x, y, c, m);
        assert(residue(x - c, m) == residue(y - c, m)) by {
            lemma_residue_add(x, c as int, m);
            lemma_residue_add(y, c as int, m);
        }
        lemma_residue_mul(falling_factorial(x, c), x - c, m);
        lemma_residue_mul(falling_factorial(y, c), y - c, m);
        lemma_residue_mul(residue(falling_factorial(x, c), m) as int, x - c, m);
        lemma_residue_mul(residue(falling_factorial(y, c), m) as int, y - c, m);
        lemma_residue_mul(falling_factorial(x, c), residue(x - c, m) as int, m);
        lemma_residue_mul(falling_factorial(y, c), residue(y - c, m) as int, m);
    }
}

/// Selecting more items than there are gives no selection.
proof fn lemma_falling_factorial_zero(a: nat, b: nat)
    requires
        a < b,
    ensures
        falling_factorial(a as int, b) == 0,
    decreases b,
{
    let c = (b - 1) as nat;
    if a < c {
        lemma_falling_factorial_zero(a, c);
        assert(falling_factorial(a as int, b) == 0 * (a - c));
    } else {
        assert(falling_factorial(a as int, b) == falling_factorial(a as int, c) * 0);
    }
}

/// a (a - 1) ... (a - b + 1) (a - b)! = a!
pub proof fn lemma_falling_factorial_times_factorial(a: nat, b: nat)
    requires
        b <= a,
    ensures
        falling_factorial(a as int, b) * factorial_spec((a - b) as nat) == factorial_spec(a),
    decreases b,
{
    if b > 0 {
        let c = (b - 1) as nat;
        lemma_falling_factorial_times_factorial(a, c);
        let k = (a - b) as nat;
        assert(factorial_spec((a - c) as nat) == (a - c) * factorial_spec(k));
        assert(falling_factorial(a as int, b) * factorial_spec(k) == falling_factorial(a as int, c)
            * ((a - c) * factorial_spec(k))) by (nonlinear_arith)
            requires
                falling_factorial(a as int, b) == falling_factorial(a as int, c) * (a - c),
        ;
    }
}


/// F(a + b + 1) = F(a + 1) F(b + 1) + F(a) F(b).
pub proof fn lemma_fib_add(a: nat, b: nat)
    ensures
        fib(a + b + 1) == fib(a + 1) * fib(b + 1) + fib(a) * fib(b),
    decreases b,
{
    assert(fib(0) == 0);
    assert(fib(1) == 1);
    assert(fib(2) == 1);
    if b == 0 {
        assert(fib(a + 1) * 1 + fib(a) * 0 == fib(a + 1)) by (nonlinear_arith);
    } else if b == 1 {
        assert(fib(a + 2) == fib(a + 1) + fib(a));
        assert(fib(a + 1) * 1 + fib(a) * 1 == fib(a + 1) + fib(a)) by (nonlinear_arith);
    } else {
        lemma_fib_add(a, (b - 1) as nat);
        lemma_fib_add(a, (b - 2) as nat);
        let f1 = fib(a + 1);
        let f0 = fib(a);
        assert(fib(a + b + 1) == fib(a + b) + fib((a + b - 1) as nat));
        assert(fib(b + 1) == fib(b) + fib((b - 1) as nat));
        assert(fib(b) == fib((b - 1) as nat) + fib((b - 2) as nat));
        assert(f1 * fib(b + 1) + f0 * fib(b) == (f1 * fib(b) + f0 * fib((b - 1) as nat)) + (f1
            * fib((b - 1) as nat) + f0 * fib((b - 2) as nat))) by (nonlinear_arith)
            requires
                fib(b + 1) == fib(b) + fib((b - 1) as nat),
                fib(b) == fib((b - 1) as nat) + fib((b - 2) as nat),
        ;
    }
}

/// F(2k + 1) = F(k + 1)^2 + F(k)^2 and F(2k) = F(k) (2 F(k + 1) - F(k)).
pub proof fn lemma_fib_doubling(k: nat)
    ensures
        fib(2 * k + 1) == fib(k + 1) * fib(k + 1) + fib(k) * fib(k),
        fib(2 * k) == fib(k) * (2 * fib(k + 1) - fib(k)),
{
    lemma_fib_add(k, k);
    if k == 0 {
        assert(fib(0) == 0);
    } else {
        let j = (k - 1) as nat;
        lemma_fib_add(k, j);
        assert(fib(k + 1) == fib(k) + fib(j));
        assert(fib(k + 1) * fib(k) + fib(k) * fib(j) == fib(k) * (2 * fib(k + 1) - fib(k)))
            by (nonlinear_arith)
            requires
                fib(k + 1) == fib(k) + fib(j),
        ;
    }
}

/// The doubling step of the Fibonacci computation, carried out on residues.
proof fn lemma_fib_doubling_residues(k: nat, m: nat, x: nat, y: nat)
    requires
        m > 1,
        x == fib(k + 1) % m,
        y == fib(k) % m,
    ensures
        (x * x + y * y) % m == fib(2 * k + 1) % m,
        residue(y * (2 * x + m - y), m) == fib(2 * k) % m,
{
    lemma_fib_doubling(k);
    let f1 = fib(k + 1) as int;
    let f0 = fib(k) as int;
    let mi = m as int;
    lemma_residue_mul(f1, f1, m);
    lemma_residue_mul(residue(f1, m) as int, f1, m);
    lemma_residue_mul(f0, f0, m);
    lemma_residue_mul(residue(f0, m) as int, f0, m);
    assert(residue(x as int * x as int, m) == residue(f1 * f1, m));
    assert(residue(y as int * y as int, m) == residue(f0 * f0, m));
    let xi = x as int;
    let yi = y as int;
    lemma_add_mod_noop(xi * xi, yi * yi, mi);
    lemma_add_mod_noop(f1 * f1, f0 * f0, mi);
    // 2x + m - y is congruent to 2 F(k+1) - F(k)
    let d = 2 * xi + mi - yi;
    assert(residue(d, m) == residue(2 * f1 - f0, m)) by {
        lemma_residue_mul(2, f1, m);
        assert(residue(2 * xi, m) == residue(2 * f1, m));
        lemma_residue_add(2 * xi, yi, m);
        lemma_residue_add(2 * f1, yi, m);
        lemma_sub_mod_noop(2 * f1, yi, mi);
        lemma_sub_mod_noop(2 * f1, f0, mi);
        lemma_mod_bound(f0, mi);
        lemma_mod_twice(f0, mi);
        assert(residue(2 * xi - yi, m) == residue(2 * f1 - f0, m));
        vstd::arithmetic::div_mod::lemma_mod_add_multiples_vanish(2 * xi - yi, mi);
    }
    lemma_residue_mul(f0, d, m);
    lemma_residue_mul(f0, 2 * f1 - f0, m);
    lemma_residue_mul(yi, d, m);

}

// ---------------------------------------------------------------------------
// Executable functions.
// ---------------------------------------------------------------------------

/// `a! mod m`, or 0 when `m <= 1`.
///
/// Each factor is handed to a modular multiplication that requires it to be
/// reduced modulo `m`, so the computation panics when `2 <= m <= a`; those inputs
/// are excluded.
pub fn factorial(a: u32, m: BigNat) -> (r: BigNat)
    requires
        m@ <= 1 || a <= 1 || a < m@,
    ensures
        r@ == if m@ <= 1 { 0 } else { factorial_spec(a as nat) % m@ },
{
    if lt_u64(&m, 2) {
        return BigNat::from_u64(0);
    }
    assert(factorial_spec(1) == 1) by {
        assert(factorial_spec(0) == 1);
    }
    proof {
        lemma_small_mod(1, m@);
    }
    if a <= 1 {
        return BigNat::from_u64(1);
    }
    let mut ans = BigNat::from_u64(1);
    let mut i: u64 = 2;
    while i <= a as u64
        invariant
            2 <= i <= a as int + 1,
            a < m@,
            1 < m@,
            ans@ == factorial_spec((i - 1) as nat) % m@,
        decreases a as int - i + 1,
    {
        let f = BigNat::from_u64(i);
        proof {
            lemma_residue_mul(factorial_spec((i - 1) as nat) as int, i as int, m@);
            lemma_mul_is_commutative(i as int, factorial_spec((i - 1) as nat) as int);
        }
        ans = mod_mul(&ans, &f, &m);
        i = i + 1;
    }
    ans
}

/// The number of derangements of `a` items (permutations without a fixed point)
/// modulo `m`, or 0 when `m <= 1`.
///
/// Each multiplier 1, ..., a is handed to a modular multiplication that requires
/// it to be reduced modulo `m`, so the computation panics when `2 <= m <= a`;
/// those inputs are excluded.
pub fn derangement(a: u32, m: BigNat) -> (r: BigNat)
    requires
        m@ <= 1 || a < m@,
    ensures
        r@ == if m@ <= 1 { 0 } else { residue(derangement_spec(a as nat), m@) },
{
    if lt_u64(&m, 2) {
        return BigNat::from_u64(0);
    }
    proof {
        lemma_small_mod(1, m@);
    }
    let one = BigNat::from_u64(1);
    let mut ans = BigNat::from_u64(1);
    let mut i: u64 = 1;
    while i <= a as u64
        invariant
            1 <= i <= a as int + 1,
            a < m@,
            1 < m@,
            one@ == 1,
            ans@ == residue(derangement_spec((i - 1) as nat), m@),
        decreases a as int - i + 1,
    {
        let f = BigNat::from_u64(i);
        let ghost prev = derangement_spec((i - 1) as nat);
        proof {
            lemma_residue_mul(prev, i as int, m@);
            lemma_mul_is_commutative(i as int, prev);
            lemma_mod_bound(prev, m@ as int);
        }
        ans = mod_mul(&ans, &f, &m);
        assert(ans@ == residue(i * prev, m@));
        proof {
            lemma_residue_add(i * prev, 1, m@);
        }
        if i % 2 == 0 {
            ans = mod_add(&ans, &one, &m);
        } else {
            ans = mod_sub(&ans, &one, &m);
        }
        i = i + 1;
    }
    ans
}

/// The number of ordered selections of `b` items out of `a`, a (a - 1) ... (a - b + 1),
/// modulo `m`, or 0 when `m <= 1`.
///
/// The product is formed from `a mod m`; when `a mod m < b` one of its factors is
/// a multiple of `m` and the answer is 0.
pub fn permutation(a: BigNat, b: u32, m: BigNat) -> (r: BigNat)
    ensures
        r@ == if m@ <= 1 { 0 } else { residue(falling_factorial(a@ as int, b as nat), m@) },
{
    if lt_u64(&m, 2) {
        return BigNat::from_u64(0);
    }
    let ghost a0 = a@;
    let a = rem(&a, &m);
    proof {
        lemma_mod_bound(a0 as int, m@ as int);
        lemma_mod_twice(a0 as int, m@ as int);
        lemma_falling_factorial_congruent(a0 as int, a@ as int, b as nat, m@);
    }
    if lt_u64(&a, b as u64) {
        proof {
            lemma_falling_factorial_zero(a@, b as nat);
            lemma_small_mod(0, m@);
        }
        return BigNat::from_u64(0);
    }
    proof {
        lemma_small_mod(1, m@);
    }
    let mut ans = BigNat::from_u64(1);
    let mut i: u32 = 0;
    while i < b
        invariant
            0 <= i <= b,
            residue(falling_factorial(a0 as int, b as nat), m@) == residue(falling_factorial(a@ as int, b as nat), m@),
            b <= a@ < m@,
            1 < m@,
            ans@ == residue(falling_factorial(a@ as int, i as nat), m@),
        decreases b - i,
    {
        let f = nat_sub(&a, &BigNat::from_u64(i as u64));
        proof {
            lemma_residue_mul(falling_factorial(a@ as int, i as nat), a@ - i, m@);
            assert(falling_factorial(a@ as int, (i + 1) as nat) == falling_factorial(a@ as int, i as nat) * (a@ - i));
        }
        ans = mod_mul(&ans, &f, &m);
        i = i + 1;
    }
    ans
}


/// The `a`-th Fibonacci number modulo `m`, or 0 when `m <= 1`.
///
/// Computed by doubling along the binary digits of `a - 1`: from F(k) and
/// F(k + 1) it forms F(2k) = F(k) (2 F(k + 1) - F(k)) and F(2k + 1) = F(k + 1)^2 + F(k)^2.
pub fn fibonacci(a: BigNat, m: BigNat) -> (r: BigNat)
    ensures
        r@ == if m@ <= 1 { 0 } else { fib(a@) % m@ },
{
    if lt_u64(&m, 2) {
        return BigNat::from_u64(0);
    }
    assert(fib(0) == 0 && fib(1) == 1 && fib(2) == 1) by {
        assert(fib(0) == 0);
        assert(fib(1) == 1);
    }
    if lt_u64(&a, 2) {
        proof {
            lemma_small_mod(a@, m@);
        }
        return a;
    }
    proof {
        lemma_small_mod(1, m@);
        vstd::arithmetic::power2::lemma2_to64();
    }
    let one = BigNat::from_u64(1);
    let mut x = BigNat::from_u64(1);
    let mut y = BigNat::from_u64(1);
    let bits = to_bits_desc(&nat_sub(&a, &one));
    assert(bits@.subrange(0, 1).drop_last() =~= Seq::<bool>::empty());
    assert(bits_desc_value(bits@.subrange(0, 1)) == 1) by {
        assert(bits_desc_value(Seq::<bool>::empty()) == 0);
    }
    let mut i: usize = 1;
    while i < bits.len()
        invariant
            1 <= i <= bits@.len(),
            bits_desc_value(bits@) == a@ - 1,
            1 < m@,
            x@ == fib(bits_desc_value(bits@.subrange(0, i as int)) + 1) % m@,
            y@ == fib(bits_desc_value(bits@.subrange(0, i as int))) % m@,
        decreases bits@.len() - i,
    {
        let ghost k = bits_desc_value(bits@.subrange(0, i as int));
        proof {
            lemma_fib_doubling_residues(k, m@, x@, y@);
            lemma_mod_bound(fib(k) as int, m@ as int);
        }
        let ghost (x0, y0) = (x@, y@);
        assert(vstd::arithmetic::power2::pow2(1) == 2) by {
            vstd::arithmetic::power2::lemma2_to64();
        }
        let diff = nat_sub(&nat_add(&shl(&x, 1), &m), &y);
        assert(diff@ == 2 * x0 + m@ - y0);
        let sx = nat_add(&square(&x), &square(&y));
        let py = nat_mul(&y, &diff);
        x = rem(&sx, &m);
        y = rem(&py, &m);
        assert(x@ == fib(2 * k + 1) % m@);
        assert(py@ == y0 * (2 * x0 + m@ - y0));
        assert(y@ == residue(y0 * (2 * x0 + m@ - y0), m@));
        assert(y@ == fib(2 * k) % m@);
        assert(bits@.subrange(0, i + 1).drop_last() =~= bits@.subrange(0, i as int));
        assert(bits_desc_value(bits@.subrange(0, i + 1)) == 2 * k + if bits@[i as int] { 1nat } else { 0nat });
        if bits[i] {
            proof {
                assert(fib(2 * k + 2) == fib(2 * k + 1) + fib(2 * k));
                lemma_add_mod_noop(fib(2 * k) as int, fib(2 * k + 1) as int, m@ as int);
            }
            y = rem(&nat_add(&y, &x), &m);
            assert(y@ == fib(2 * k + 2) % m@);
            std::mem::swap(&mut x, &mut y);
        }
        i = i + 1;
    }
    assert(bits@.subrange(0, bits@.len() as int) =~= bits@);
    x
}


/// The number of partitions of `a` modulo `m`, or 0 when `m <= 1`.
///
/// Fills a table of p(0), ..., p(a) modulo `m` by Euler's pentagonal number
/// recurrence, in O(a sqrt(a)) steps.
pub fn partition(a: u32, m: BigNat) -> (r: BigNat)
    requires
        (a as int) < usize::MAX,
    ensures
        r@ == if m@ <= 1 { 0 } else { residue(partition_count(a as nat), m@) },
{
    if lt_u64(&m, 2) {
        return BigNat::from_u64(0);
    }
    proof {
        lemma_small_mod(1, m@);
        lemma_small_mod(0, m@);
        assert(partition_count(0) == 1);
        assert(partition_count(1) == 1) by {
            lemma_pentagonal_first();
            assert(euler_tail(1, 2) == 0);
            assert(euler_tail(1, 1) == 1 * partition_count(0) + euler_tail(1, 2));
        }
    }
    if a <= 1 {
        return BigNat::from_u64(1);
    }
    let n = a as usize;
    let mut table: Vec<BigNat> = Vec::new();
    while table.len() <= n
        invariant
            table@.len() <= n + 1,
            n < usize::MAX,
            forall|t: int| 0 <= t < table@.len() ==> #[trigger] table@[t]@ == 0,
        decreases n + 1 - table@.len(),
    {
        table.push(BigNat::from_u64(0));
    }
    table.set(0, BigNat::from_u64(1));
    table.set(1, BigNat::from_u64(1));
    let mut i: usize = 2;
    while i <= n
        invariant
            2 <= i <= n + 1,
            n < usize::MAX,
            n == a,
            table@.len() == n + 1,
            1 < m@,
            forall|t: int| 0 <= t < i ==> #[trigger] table@[t]@ == residue(partition_count(t as nat), m@),
        decreases n + 1 - i,
    {
        let mut cur = BigNat::from_u64(0);
        let mut j: u64 = 1;
        let mut k: u64 = 1;
        proof {
            lemma_pentagonal_first();
            lemma_small_mod(0, m@);
        }
        while k <= i as u64
            invariant
                2 <= i <= n,
                n == a,
                table@.len() == n + 1,
                1 < m@,
                forall|t: int| 0 <= t < i ==> #[trigger] table@[t]@ == residue(partition_count(t as nat), m@),
                1 <= j <= k,
                j <= i + 1,
                k == pentagonal(j as nat),
                cur@ == residue(partition_count(i as nat) - euler_tail(i as nat, j as nat), m@),
            decreases i + 2 - j,
        {
            let ghost x = partition_count(i as nat) - euler_tail(i as nat, j as nat);
            let ghost q = partition_count((i - k) as nat);
            let ghost mi = m@ as int;
            proof {
                lemma_pentagonal_at_least(j as nat);
                assert(euler_tail(i as nat, j as nat) == pentagonal_sign(j as nat) * q + euler_tail(i as nat, (j + 1) as nat));
                lemma_mod_bound(q, mi);
                lemma_mod_bound(x, mi);
                lemma_add_mod_noop(x, q, mi);
                lemma_sub_mod_noop(x, q, mi);
            }
            let pt = table[i - k as usize].copy();
            if j % 4 % 3 == 0 {
                let t = nat_add(&cur, &nat_sub(&m, &pt));
                cur = rem(&t, &m);
                proof {
                    vstd::arithmetic::div_mod::lemma_mod_add_multiples_vanish((x % mi) - (q % mi), mi);
                    assert(t@ == mi + ((x % mi) - (q % mi)));
                    assert(pentagonal_sign(j as nat) == -1);
                    assert(cur@ == residue(x - q, m@));
                    assert(-1 * q == -q);
                    assert(x - q == partition_count(i as nat) - euler_tail(i as nat, (j + 1) as nat));
                }
            } else {
                let t = nat_add(&cur, &pt);
                cur = rem(&t, &m);
                proof {
                    assert(pentagonal_sign(j as nat) == 1);
                    assert(cur@ == residue(x + q, m@));
                    assert(1 * q == q);
                    assert(x + q == partition_count(i as nat) - euler_tail(i as nat, (j + 1) as nat));
                }
            }
            proof {
                lemma_pentagonal_step(j as nat);
            }
            j = j + 1;
            k = k + if j % 2 == 0 { j / 2 } else { j };
        }
        proof {
            assert(euler_tail(i as nat, j as nat) == 0);
        }
        table.set(i, cur);
        i = i + 1;
    }
    table[n].copy()
}


// ---------------------------------------------------------------------------
// Decimal front ends: the arguments are read as decimal literals, the answer is
// printed in decimal.
// ---------------------------------------------------------------------------

/// [`partition`] on decimal text.
pub fn partition_string(a: String, m: String) -> (r: String)
    requires
        is_u32_literal(a@),
        is_natural_literal(m@),
        natural_literal_value(a@) < usize::MAX,
    ensures
        ({
            let (av, mv) = (natural_literal_value(a@), natural_literal_value(m@));
            r@ == decimal(if mv <= 1 { 0 } else { residue(partition_count(av), mv) })
        }),
{
    let av = parse_u32(a.as_str()).unwrap();
    let mv = parse_natural(m.as_str()).unwrap();
    natural_to_string(&partition(av, mv))
}

/// [`factorial`] on decimal text.
pub fn factorial_string(a: String, m: String) -> (r: String)
    requires
        is_u32_literal(a@),
        is_natural_literal(m@),
        ({
            let (av, mv) = (natural_literal_value(a@), natural_literal_value(m@));
            mv <= 1 || av <= 1 || av < mv
        }),
    ensures
        ({
            let (av, mv) = (natural_literal_value(a@), natural_literal_value(m@));
            r@ == decimal(if mv <= 1 { 0 } else { factorial_spec(av) % mv })
        }),
{
    let av = parse_u32(a.as_str()).unwrap();
    let mv = parse_natural(m.as_str()).unwrap();
    natural_to_string(&factorial(av, mv))
}

/// [`derangement`] on decimal text.
pub fn derangement_string(a: String, m: String) -> (r: String)
    requires
        is_u32_literal(a@),
        is_natural_literal(m@),
        ({
            let (av, mv) = (natural_literal_value(a@), natural_literal_value(m@));
            mv <= 1 || av < mv
        }),
    ensures
        ({
            let (av, mv) = (natural_literal_value(a@), natural_literal_value(m@));
            r@ == decimal(if mv <= 1 { 0 } else { residue(derangement_spec(av), mv) })
        }),
{
    let av = parse_u32(a.as_str()).unwrap();
    let mv = parse_natural(m.as_str()).unwrap();
    natural_to_string(&derangement(av, mv))
}

/// [`permutation`] on decimal text.
pub fn permutation_string(a: String, b: String, m: String) -> (r: String)
    requires
        is_natural_literal(a@),
        is_u32_literal(b@),
        is_natural_literal(m@),
    ensures
        ({
            let (av, bv, mv) = (natural_literal_value(a@), natural_literal_value(b@), natural_literal_value(m@));
            r@ == decimal(if mv <= 1 { 0 } else { residue(falling_factorial(av as int, bv), mv) })
        }),
{
    let av = parse_natural(a.as_str()).unwrap();
    let bv = parse_u32(b.as_str()).unwrap();
    let mv = parse_natural(m.as_str()).unwrap();
    natural_to_string(&permutation(av, bv, mv))
}

/// [`fibonacci`] on decimal text.
pub fn fibonacci_string(a: String, m: String) -> (r: String)
    requires
        is_natural_literal(a@),
        is_natural_literal(m@),
    ensures
        ({
            let (av, mv) = (natural_literal_value(a@), natural_literal_value(m@));
            r@ == decimal(if mv <= 1 { 0 } else { fib(av) % mv })
        }),
{
    let av = parse_natural(a.as_str()).unwrap();
    let mv = parse_natural(m.as_str()).unwrap();
    natural_to_string(&fibonacci(av, mv))
}

// ---------------------------------------------------------------------------
// Laws.
// ---------------------------------------------------------------------------

/// Arranging all `n` items is counting the permutations of `n` items: for a
/// modulus `m > 1`, what [`permutation`] answers for (n, n, m) is what
/// [`factorial`] answers for (n, m).
pub proof fn law_full_arrangement_is_factorial(n: nat, m: nat)
    requires
        m > 1,
    ensures
        residue(falling_factorial(n as int, n), m) == factorial_spec(n) % m,
{
    lemma_falling_factorial_times_factorial(n, n);
    assert(factorial_spec(0) == 1);
    assert(falling_factorial(n as int, n) == factorial_spec(n));
}

/// Derangement numbers satisfy D(n) = (n - 1) (D(n - 1) + D(n - 2)) for n >= 2.
pub proof fn law_derangement_recurrence(n: nat)
    requires
        n >= 2,
    ensures
        derangement_spec(n) == (n - 1) * (derangement_spec((n - 1) as nat) + derangement_spec((n - 2) as nat)),
{
    let d1 = derangement_spec((n - 1) as nat);
    let d2 = derangement_spec((n - 2) as nat);
    let s: int = if n % 2 == 0 { 1 } else { -1 };
    assert(derangement_spec(n) == n * d1 + s);
    assert(d1 == (n - 1) * d2 - s);
    assert(n * d1 + s == (n - 1) * (d1 + d2)) by (nonlinear_arith)
        requires
            d1 == (n - 1) * d2 - s,
    ;
}

/// Consecutive Fibonacci residues add up: F(a + 2) = F(a + 1) + F(a) modulo `m`,
/// so [`fibonacci`] answers for a + 2 the sum of its answers for a + 1 and a,
/// reduced modulo `m`.
pub proof fn law_fibonacci_residues_add(a: nat, m: nat)
    requires
        m > 1,
    ensures
        fib(a + 2) % m == (fib(a + 1) % m + fib(a) % m) % m,
{
    assert(fib(a + 2) == fib(a + 1) + fib(a));
    lemma_add_mod_noop(fib(a + 1) as int, fib(a) as int, m as int);
}

} // verus!
