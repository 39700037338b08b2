//! Fermat's little theorem, proved from the binomial theorem, and the facts about
//! primes that the Miller-Rabin test rests on.
use crate::bignum::is_prime_spec;
use vstd::arithmetic::div_mod::{
    lemma_fundamental_div_mod, lemma_mod_multiples_basic, lemma_mul_mod_noop_left, lemma_small_mod,
};
use vstd::arithmetic::power::{lemma_pow_positive, pow};
use vstd::prelude::*;

verus! {

/// Euclid's lemma for a factor reduced modulo the prime: if p divides a b with
/// 0 < a < p, then p divides b.
proof fn lemma_euclid_reduced(p: nat, a: nat, b: nat)
    requires
        is_prime_spec(p),
        0 < a < p,
        (a * b) % p == 0,
    ensures
        b % p == 0,
    decreases a,
{
    if a > 1 {
        // p = q a + r with 0 < r < a, and r b = p b - q (a b) is a multiple of p.
        let r = p % a;
        assert(r != 0) by {
            assert(1 < a < p);
            assert((p % a) != 0);
        }
        lemma_fundamental_div_mod(p as int, a as int);
        let q = p / a;
        lemma_fundamental_div_mod((a * b) as int, p as int);
        let k = (a * b) / p;
        assert(r * b == (b - q * k) * p) by (nonlinear_arith)
            requires
                p == a * q + r,
                a * b == p * k,
        ;
        lemma_mod_multiples_basic(b - q * k, p as int);
        lemma_euclid_reduced(p, r, b);
    } else {
        assert(a * b == b) by (nonlinear_arith)
            requires
                a == 1,
        ;
    }
}

/// Euclid's lemma: a prime that divides a product divides one of its factors.
pub proof fn lemma_euclid(p: nat, a: nat, b: nat)
    requires
        is_prime_spec(p),
        (a * b) % p == 0,
    ensures
        a % p == 0 || b % p == 0,
{
    let r = a % p;
    if r != 0 {
        lemma_mul_mod_noop_left(a as int, b as int, p as int);
        lemma_euclid_reduced(p, r, b);
    }
}

/// Modulo a prime p, the only square roots of 1 are 1 and p - 1.
pub proof fn lemma_square_roots_of_one(p: nat, x: nat)
    requires
        is_prime_spec(p),
        x < p,
        (x * x) % p == 1,
    ensures
        x == 1 || x == p - 1,
{
    if x == 0 {
        lemma_small_mod(0, p);
    } else if x != 1 {
        let below = (x - 1) as nat;
        let above = x + 1;
        lemma_fundamental_div_mod((x * x) as int, p as int);
        let k = (x * x) / p;
        assert(below * above == k * p) by (nonlinear_arith)
            requires
                x * x == p * k + 1,
                below == x - 1,
                above == x + 1,
        ;
        lemma_mod_multiples_basic(k as int, p as int);
        lemma_euclid(p, below, above);
        lemma_small_mod(below, p);
        if above < p {
            lemma_small_mod(above, p);
        }
    }
}

// ---------------------------------------------------------------------------
// Binomial coefficients and the binomial theorem.
// ---------------------------------------------------------------------------

/// The binomial coefficient C(n, k), by Pascal's rule.
pub open spec fn binomial(n: nat, k: nat) -> nat
    decreases n,
{
    if k == 0 {
        1
    } else if n == 0 {
        0
    } else {
        binomial((n - 1) as nat, (k - 1) as nat) + binomial((n - 1) as nat, k)
    }
}

/// C(n, k) = 0 for k > n.
proof fn lemma_binomial_above(n: nat, k: nat)
    requires
        k > n,
    ensures
        binomial(n, k) == 0,
    decreases n,
{
    if n > 0 {
        lemma_binomial_above((n - 1) as nat, (k - 1) as nat);
        lemma_binomial_above((n - 1) as nat, k);
    }
}

/// C(n, n) = 1.
proof fn lemma_binomial_diagonal(n: nat)
    ensures
        binomial(n, n) == 1,
    decreases n,
{
    if n > 0 {
        lemma_binomial_diagonal((n - 1) as nat);
        lemma_binomial_above((n - 1) as nat, n);
    }
}

/// The absorption identity k C(n, k) = n C(n - 1, k - 1).
proof fn lemma_binomial_absorption(n: nat, k: nat)
    requires
        n >= 1,
        k >= 1,
    ensures
        k * binomial(n, k) == n * binomial((n - 1) as nat, (k - 1) as nat),
    decreases n,
{
    let n1 = (n - 1) as nat;
    let k1 = (k - 1) as nat;
    if n == 1 {
        if k > 1 {
            lemma_binomial_above(0, k1);
        }
        assert(binomial(0, k) == 0);
        assert(binomial(1, k) == binomial(0, k1) + binomial(0, k));
        if k == 1 {
            assert(binomial(1, 1) == 1);
        } else {
            assert(binomial(1, k) == 0);
        }
    } else if k == 1 {
        lemma_binomial_absorption(n1, 1);
        assert(binomial((n1 - 1) as nat, 0) == 1);
        assert(binomial(n, 1) == binomial(n1, 0) + binomial(n1, 1));
        assert(binomial(n1, 1) == n1) by (nonlinear_arith)
            requires
                1 * binomial(n1, 1) == n1 * binomial((n1 - 1) as nat, 0),
                binomial((n1 - 1) as nat, 0) == 1,
        ;
        assert(binomial(n, 1) == n);
        assert(binomial(n1, 0) == 1);
        assert(k * binomial(n, k) == n * binomial(n1, k1));
    } else {
        let n2 = (n - 2) as nat;
        let k2 = (k - 2) as nat;
        lemma_binomial_absorption(n1, k1);
        lemma_binomial_absorption(n1, k);
        let a = binomial(n1, k1);
        let b = binomial(n1, k);
        assert(binomial(n, k) == a + b);
        assert(a == binomial(n2, k2) + binomial(n2, k1));
        assert(k1 * a == n1 * binomial(n2, k2));
        assert(k * b == n1 * binomial(n2, k1));
        assert(k * (a + b) == n * a) by (nonlinear_arith)
            requires
                k1 * a == n1 * binomial(n2, k2),
                k * b == n1 * binomial(n2, k1),
                a == binomial(n2, k2) + binomial(n2, k1),
                k1 == k - 1,
                n1 == n - 1,
        ;
    }
}

/// A prime p divides C(p, k) for 0 < k < p.
proof fn lemma_prime_divides_binomial(p: nat, k: nat)
    requires
        is_prime_spec(p),
        0 < k < p,
    ensures
        binomial(p, k) % p == 0,
{
    lemma_binomial_absorption(p, k);
    let c = binomial((p - 1) as nat, (k - 1) as nat);
    assert(k * binomial(p, k) == c * p) by (nonlinear_arith)
        requires
            k * binomial(p, k) == p * c,
    ;
    lemma_mod_multiples_basic(c as int, p as int);
    lemma_euclid(p, k, binomial(p, k));
    lemma_small_mod(k, p);
}

/// The first j terms of the binomial expansion of (1 + x)^n:
/// C(n, 0) + C(n, 1) x + ... + C(n, j - 1) x^(j - 1).
pub open spec fn binomial_partial(x: int, n: nat, j: nat) -> int
    decreases j,
{
    if j == 0 {
        0
    } else {
        binomial_partial(x, n, (j - 1) as nat) + binomial(n, (j - 1) as nat) * pow(x, (j - 1) as nat)
    }
}

/// Pascal's rule on partial expansions.
proof fn lemma_binomial_partial_pascal(x: int, n: nat, j: nat)
    ensures
        binomial_partial(x, n + 1, j + 1) == binomial_partial(x, n, j + 1) + x * binomial_partial(x, n, j),
    decreases j,
{
    reveal(pow);
    if j == 0 {
        assert(pow(x, 0) == 1);
        assert(binomial_partial(x, n + 1, 0) == 0);
        assert(binomial_partial(x, n, 0) == 0);
        assert(binomial_partial(x, n + 1, 1) == 1);
        assert(binomial_partial(x, n, 1) == 1);
    } else {
        let j1 = (j - 1) as nat;
        lemma_binomial_partial_pascal(x, n, j1);
        let lo = binomial_partial(x, n, j1);
        let mid = binomial_partial(x, n, j);
        let c1 = binomial(n, j1);
        let c2 = binomial(n, j);
        let pj1 = pow(x, j1);
        let pj = pow(x, j);
        assert(binomial(n + 1, j) == c1 + c2);
        assert(pj == x * pj1);
        assert(mid == lo + c1 * pj1);
        assert(binomial_partial(x, n + 1, j + 1) == binomial_partial(x, n + 1, j) + (c1 + c2) * pj);
        assert(binomial_partial(x, n + 1, j) == mid + x * lo);
        assert(binomial_partial(x, n, j + 1) == mid + c2 * pj);
        assert(mid + x * lo + (c1 + c2) * pj == mid + c2 * pj + x * mid) by (nonlinear_arith)
            requires
                pj == x * pj1,
                mid == lo + c1 * pj1,
        ;
    }
}

/// The binomial theorem: (1 + x)^n = C(n, 0) + C(n, 1) x + ... + C(n, n) x^n.
pub proof fn lemma_binomial_theorem(x: int, n: nat)
    ensures
        pow(1 + x, n) == binomial_partial(x, n, n + 1),
    decreases n,
{
    reveal(pow);
    if n == 0 {
        assert(pow(x, 0) == 1);
        assert(pow(1 + x, 0) == 1);
        assert(binomial_partial(x, 0, 0) == 0);
        assert(binomial_partial(x, 0, 1) == 1);
    } else {
        let n1 = (n - 1) as nat;
        lemma_binomial_theorem(x, n1);
        lemma_binomial_partial_pascal(x, n1, n);
        lemma_binomial_above(n1, n);
        assert(binomial_partial(x, n1, n + 1) == binomial_partial(x, n1, n) + 0 * pow(x, n));
        assert(pow(1 + x, n) == (1 + x) * pow(1 + x, n1));
        let s = binomial_partial(x, n1, n);
        assert((1 + x) * s == s + x * s) by (nonlinear_arith);
    }
}

/// Every middle term of the expansion of (1 + x)^p is a multiple of the prime p:
/// C(p, 0) + ... + C(p, j - 1) x^(j - 1) = 1 (mod p) for 1 <= j <= p.
proof fn lemma_binomial_partial_prime(p: nat, x: int, j: nat)
    requires
        is_prime_spec(p),
        1 <= j <= p,
    ensures
        (binomial_partial(x, p, j) - 1) % (p as int) == 0,
    decreases j,
{
    reveal(pow);
    let pi = p as int;
    if j == 1 {
        assert(pow(x, 0) == 1);
        assert(binomial_partial(x, p, 0) == 0);
        assert(binomial_partial(x, p, 1) == 1);
        lemma_small_mod(0, p);
    } else {
        let j1 = (j - 1) as nat;
        lemma_binomial_partial_prime(p, x, j1);
        lemma_prime_divides_binomial(p, j1);
        lemma_fundamental_div_mod(binomial(p, j1) as int, pi);
        lemma_fundamental_div_mod(binomial_partial(x, p, j1) - 1, pi);
        let c = binomial(p, j1) / p;
        let m = (binomial_partial(x, p, j1) - 1) / pi;
        let t = pow(x, j1);
        assert(binomial_partial(x, p, j) == binomial_partial(x, p, j1) + binomial(p, j1) * t);
        let a = binomial_partial(x, p, j1);
        let b = binomial(p, j1) as int;
        assert(a - 1 == pi * m);
        assert(b == pi * c);
        assert(b * t == (c * t) * pi) by (nonlinear_arith)
            requires
                b == pi * c,
        ;
        assert(binomial_partial(x, p, j) - 1 == (m + c * t) * pi) by (nonlinear_arith)
            requires
                binomial_partial(x, p, j) == a + b * t,
                a - 1 == pi * m,
                b * t == (c * t) * pi,
        ;
        lemma_mod_multiples_basic(m + c * t, pi);
    }
}

/// Modulo a prime p: (1 + x)^p = x^p + 1.
proof fn lemma_freshmans_dream(p: nat, x: int)
    requires
        is_prime_spec(p),
    ensures
        (pow(1 + x, p) - pow(x, p) - 1) % (p as int) == 0,
{
    lemma_binomial_partial_prime(p, x, p);
    lemma_binomial_theorem(x, p);
    lemma_binomial_diagonal(p);
    assert(binomial_partial(x, p, p + 1) == binomial_partial(x, p, p) + 1 * pow(x, p));
}

/// a^p = a modulo a prime p.
proof fn lemma_pow_prime_congruent(p: nat, a: nat)
    requires
        is_prime_spec(p),
    ensures
        (pow(a as int, p) - a) % (p as int) == 0,
    decreases a,
{
    reveal(pow);
    if a == 0 {
        assert(pow(0, p) == 0 * pow(0, (p - 1) as nat));
        lemma_small_mod(0, p);
    } else {
        let a1 = (a - 1) as nat;
        lemma_pow_prime_congruent(p, a1);
        lemma_freshmans_dream(p, a1 as int);
        let pi = p as int;
        lemma_fundamental_div_mod(pow(a1 as int, p) - a1, pi);
        lemma_fundamental_div_mod(pow(1 + a1 as int, p) - pow(a1 as int, p) - 1, pi);
        let m1 = (pow(a1 as int, p) - a1) / pi;
        let m2 = (pow(1 + a1 as int, p) - pow(a1 as int, p) - 1) / pi;
        assert(1 + a1 == a as int);
        assert(pow(a as int, p) - a == (m1 + m2) * pi) by (nonlinear_arith)
            requires
                pow(a1 as int, p) - a1 == pi * m1 + 0,
                pow(a as int, p) - pow(a1 as int, p) - 1 == pi * m2 + 0,
                a == a1 + 1,
        ;
        lemma_mod_multiples_basic(m1 + m2, pi);
    }
}

/// Fermat's little theorem: a^(p - 1) = 1 modulo a prime p, for 0 < a < p.
pub proof fn lemma_fermat_little(p: nat, a: nat)
    requires
        is_prime_spec(p),
        0 < a < p,
    ensures
        pow(a as int, (p - 1) as nat) % (p as int) == 1,
{
    reveal(pow);
    let e = (p - 1) as nat;
    lemma_pow_prime_congruent(p, a);
    lemma_pow_positive(a as int, e);
    let t = pow(a as int, e);
    assert(pow(a as int, p) == a * t);
    let u = (t - 1) as nat;
    assert(a * u == pow(a as int, p) - a) by (nonlinear_arith)
        requires
            pow(a as int, p) == a * t,
            u == t - 1,
    ;
    lemma_euclid(p, a, u);
    lemma_small_mod(a, p);
    lemma_fundamental_div_mod(u as int, p as int);
    let k = u / p;
    assert(t == k * p + 1);
    vstd::arithmetic::div_mod::lemma_mod_multiples_vanish(k as int, 1, p as int);
    lemma_small_mod(1, p);
}

} // verus!
