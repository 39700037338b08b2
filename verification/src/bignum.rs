//! Arbitrary-precision naturals and integers.
//!
//! A [`BigNat`] holds its value as little-endian 64-bit limbs and a [`BigInt`]
//! as a sign and a [`BigNat`] magnitude. Every arithmetic operation is carried
//! out by `malachite`: each call sits behind a small wrapper whose contract
//! states the result over the mathematical values of the operands.
use malachite::Integer;
use malachite::Natural;
use malachite::base::num::arithmetic::traits::AbsDiff;
use malachite::base::num::arithmetic::traits::DivExact;
use malachite::base::num::arithmetic::traits::DivisibleBy;
use malachite::base::num::arithmetic::traits::FloorSqrt;
use malachite::base::num::arithmetic::traits::Gcd;
use malachite::base::num::arithmetic::traits::Lcm;
use malachite::base::num::arithmetic::traits::ModAdd;
use malachite::base::num::arithmetic::traits::ModInverse;
use malachite::base::num::arithmetic::traits::ModMul;
use malachite::base::num::arithmetic::traits::ModSub;
use malachite::base::num::arithmetic::traits::Parity;
use malachite::base::num::arithmetic::traits::Pow;
use malachite::base::num::arithmetic::traits::Square;
use malachite::base::num::arithmetic::traits::UnsignedAbs;
use malachite::base::num::arithmetic::traits::Factorial;
use malachite::base::num::arithmetic::traits::KroneckerSymbol;
use malachite::base::num::conversion::traits::SaturatingFrom;
use malachite::base::num::factorization::traits::Primes;
use malachite::base::num::logic::traits::BitConvertible;
use malachite::base::num::logic::traits::SignificantBits;
use crate::text::{decimal, integer_literal_value, is_integer_literal, is_natural_literal, natural_literal_value, signed_decimal};
use vstd::prelude::*;
use vstd::arithmetic::power2::pow2;
use vstd::arithmetic::power::pow;

verus! {

// ---------------------------------------------------------------------------
// Mathematical vocabulary shared by the contracts below.
// ---------------------------------------------------------------------------

/// 2^64, the radix of a limb.
pub open spec fn limb_base() -> nat {
    0x1_0000_0000_0000_0000nat
}

/// The value of little-endian limbs.
pub open spec fn limbs_value(s: Seq<u64>) -> nat
    decreases s.len(),
{
    if s.len() == 0 {
        0
    } else {
        s[0] as nat + limb_base() * limbs_value(s.drop_first())
    }
}

/// The value of bits listed most significant first.
pub open spec fn bits_desc_value(bits: Seq<bool>) -> nat
    decreases bits.len(),
{
    if bits.len() == 0 {
        0
    } else {
        2 * bits_desc_value(bits.drop_last()) + if bits.last() { 1nat } else { 0nat }
    }
}

/// Greatest common divisor, by Euclid's recursion (gcd(a, 0) = a).
pub open spec fn gcd_spec(a: nat, b: nat) -> nat
    decreases b,
{
    if b == 0 {
        a
    } else {
        gcd_spec(b, a % b)
    }
}

/// Least common multiple (0 when either argument is 0).
pub open spec fn lcm_spec(a: nat, b: nat) -> nat {
    if a == 0 || b == 0 {
        0
    } else {
        a * b / gcd_spec(a, b)
    }
}

/// `p` is a prime number.
pub open spec fn is_prime_spec(p: nat) -> bool {
    p > 1 && forall|d: nat| 1 < d < p ==> #[trigger] (p % d) != 0
}

/// n!
pub open spec fn factorial_spec(n: nat) -> nat
    decreases n,
{
    if n == 0 {
        1
    } else {
        n * factorial_spec((n - 1) as nat)
    }
}

/// The product of a sequence of naturals.
pub open spec fn seq_product(s: Seq<nat>) -> nat
    decreases s.len(),
{
    if s.len() == 0 {
        1
    } else {
        seq_product(s.drop_last()) * s.last()
    }
}

/// |x|
pub open spec fn abs(x: int) -> nat {
    if x < 0 {
        (-x) as nat
    } else {
        x as nat
    }
}

/// Quotient rounded towards zero.
pub open spec fn trunc_div(a: int, b: int) -> int {
    let q = (abs(a) / abs(b)) as int;
    if (a < 0) != (b < 0) {
        -q
    } else {
        q
    }
}

/// Remainder of the division rounded towards zero (it has the sign of `a`).
pub open spec fn trunc_rem(a: int, b: int) -> int {
    a - b * trunc_div(a, b)
}

/// Division rounds towards zero: a = b q + r with |r| < |b|, and r is 0 or has the
/// sign of a (so -7 / 2 = -3 with remainder -1, and 7 / -2 = -3 with remainder 1).
pub proof fn law_division_rounds_towards_zero(a: int, b: int)
    requires
        b != 0,
    ensures
        a == b * trunc_div(a, b) + trunc_rem(a, b),
        abs(trunc_rem(a, b)) < abs(b),
        trunc_rem(a, b) == 0 || (trunc_rem(a, b) < 0) == (a < 0),
{
    let (ua, ub) = (abs(a), abs(b));
    vstd::arithmetic::div_mod::lemma_fundamental_div_mod(ua as int, ub as int);
    vstd::arithmetic::div_mod::lemma_mod_bound(ua as int, ub as int);
    let q = (ua / ub) as int;
    let m = (ua % ub) as int;
    assert(ua == ub * q + m);
    if (a < 0) != (b < 0) {
        assert(trunc_div(a, b) == -q);
        if a < 0 {
            assert(trunc_rem(a, b) == -m) by (nonlinear_arith)
                requires
                    a == -(ub * q + m),
                    b == ub,
                    trunc_rem(a, b) == a - b * (-q),
            ;
        } else {
            assert(trunc_rem(a, b) == m) by (nonlinear_arith)
                requires
                    a == ub * q + m,
                    b == -ub,
                    trunc_rem(a, b) == a - b * (-q),
            ;
        }
    } else {
        assert(trunc_div(a, b) == q);
        if a < 0 {
            assert(trunc_rem(a, b) == -m) by (nonlinear_arith)
                requires
                    a == -(ub * q + m),
                    b == -ub,
                    trunc_rem(a, b) == a - b * q,
            ;
        } else {
            assert(trunc_rem(a, b) == m) by (nonlinear_arith)
                requires
                    a == ub * q + m,
                    b == ub,
                    trunc_rem(a, b) == a - b * q,
            ;
        }
    }
}

/// `x` has an inverse modulo `m`.
pub open spec fn has_mod_inverse(x: nat, m: nat) -> bool {
    exists|y: nat| y < m && #[trigger] ((x * y) % m) == 1
}

/// The value of the Kronecker symbol (a / b), as `malachite` computes it.
pub uninterp spec fn kronecker_symbol_spec(a: int, b: int) -> int;

// ---------------------------------------------------------------------------
// Arbitrary-precision naturals.
// ---------------------------------------------------------------------------

/// An arbitrary-precision natural number.
#[derive(Debug)]
pub struct BigNat {
    limbs: Vec<u64>,
}

impl View for BigNat {
    type V = nat;

    closed spec fn view(&self) -> nat {
        limbs_value(self.limbs@)
    }
}

impl BigNat {
    /// The natural number `v`.
    pub fn from_u64(v: u64) -> (r: BigNat)
        ensures
            r@ == v,
    {
        let mut limbs: Vec<u64> = Vec::new();
        if v != 0 {
            limbs.push(v);
        }
        proof {
            if v != 0 {
                assert(limbs@.drop_first() =~= Seq::<u64>::empty());
                assert(limbs_value(limbs@.drop_first()) == 0);
                assert(limbs_value(limbs@) == v);
            } else {
                assert(limbs_value(limbs@) == 0);
            }
        }
        BigNat { limbs }
    }

    /// The natural number whose little-endian 64-bit limbs are `limbs`.
    pub fn from_limbs(limbs: Vec<u64>) -> (r: BigNat)
        ensures
            r@ == limbs_value(limbs@),
    {
        BigNat { limbs }
    }

    /// Little-endian 64-bit limbs of the value.
    pub fn limbs(&self) -> (r: &Vec<u64>)
        ensures
            limbs_value(r@) == self@,
    {
        &self.limbs
    }

    /// A copy of the value.
    pub fn copy(&self) -> (r: BigNat)
        ensures
            r@ == self@,
    {
        BigNat { limbs: self.limbs.clone() }
    }
}

/// `malachite`'s ordering of `Natural`: `a < b`.
#[verifier::external_body]
pub(crate) fn lt(a: &BigNat, b: &BigNat) -> (r: bool)
    ensures
        r == (a@ < b@),
{
    Natural::from_limbs_asc(&a.limbs) < Natural::from_limbs_asc(&b.limbs)
}

/// `malachite`'s equality of `Natural`: `a == b`.
#[verifier::external_body]
pub(crate) fn equal(a: &BigNat, b: &BigNat) -> (r: bool)
    ensures
        r == (a@ == b@),
{
    Natural::from_limbs_asc(&a.limbs) == Natural::from_limbs_asc(&b.limbs)
}

/// `a <= b`.
pub fn le(a: &BigNat, b: &BigNat) -> (r: bool)
    ensures
        r == (a@ <= b@),
{
    !lt(b, a)
}

/// `a == v` for a machine integer `v`.
pub fn equals_u64(a: &BigNat, v: u64) -> (r: bool)
    ensures
        r == (a@ == v),
{
    equal(a, &BigNat::from_u64(v))
}

/// `a < v` for a machine integer `v`.
pub fn lt_u64(a: &BigNat, v: u64) -> (r: bool)
    ensures
        r == (a@ < v),
{
    lt(a, &BigNat::from_u64(v))
}

/// `malachite`'s `Natural + Natural`.
#[verifier::external_body]
pub(crate) fn nat_add(a: &BigNat, b: &BigNat) -> (r: BigNat)
    ensures
        r@ == a@ + b@,
{
    BigNat { limbs: (Natural::from_limbs_asc(&a.limbs) + Natural::from_limbs_asc(&b.limbs)).into_limbs_asc() }
}

/// `malachite`'s `Natural - Natural`, which panics when the difference is negative.
#[verifier::external_body]
pub(crate) fn nat_sub(a: &BigNat, b: &BigNat) -> (r: BigNat)
    requires
        b@ <= a@,
    ensures
        r@ == a@ - b@,
{
    BigNat { limbs: (Natural::from_limbs_asc(&a.limbs) - Natural::from_limbs_asc(&b.limbs)).into_limbs_asc() }
}

/// `malachite`'s `Natural * Natural`.
#[verifier::external_body]
pub(crate) fn nat_mul(a: &BigNat, b: &BigNat) -> (r: BigNat)
    ensures
        r@ == a@ * b@,
{
    BigNat { limbs: (Natural::from_limbs_asc(&a.limbs) * Natural::from_limbs_asc(&b.limbs)).into_limbs_asc() }
}

/// `malachite`'s `Square::square` of a `Natural`.
#[verifier::external_body]
pub(crate) fn square(a: &BigNat) -> (r: BigNat)
    ensures
        r@ == a@ * a@,
{
    BigNat { limbs: Natural::from_limbs_asc(&a.limbs).square().into_limbs_asc() }
}

/// `malachite`'s `Natural % Natural`, which panics on a zero divisor.
#[verifier::external_body]
pub(crate) fn rem(a: &BigNat, m: &BigNat) -> (r: BigNat)
    requires
        m@ > 0,
    ensures
        r@ == a@ % m@,
{
    BigNat { limbs: (Natural::from_limbs_asc(&a.limbs) % Natural::from_limbs_asc(&m.limbs)).into_limbs_asc() }
}

/// `malachite`'s `Natural << u64`: multiplication by 2^bits.
#[verifier::external_body]
pub(crate) fn shl(a: &BigNat, bits: u64) -> (r: BigNat)
    ensures
        r@ == a@ * pow2(bits as nat),
{
    BigNat { limbs: (Natural::from_limbs_asc(&a.limbs) << bits).into_limbs_asc() }
}

/// `malachite`'s `Natural >> u64`: division by 2^bits, rounded down.
#[verifier::external_body]
pub(crate) fn shr(a: &BigNat, bits: u64) -> (r: BigNat)
    ensures
        r@ == a@ / pow2(bits as nat),
{
    BigNat { limbs: (Natural::from_limbs_asc(&a.limbs) >> bits).into_limbs_asc() }
}

/// `malachite`'s `Parity::odd` of a `Natural`.
#[verifier::external_body]
pub(crate) fn odd(a: &BigNat) -> (r: bool)
    ensures
        r == (a@ % 2 == 1),
{
    Natural::from_limbs_asc(&a.limbs).odd()
}

/// `malachite`'s `Parity::even` of a `Natural`.
#[verifier::external_body]
pub(crate) fn even(a: &BigNat) -> (r: bool)
    ensures
        r == (a@ % 2 == 0),
{
    Natural::from_limbs_asc(&a.limbs).even()
}

/// `malachite`'s `ModAdd::mod_add`, which panics unless both summands are reduced modulo `m`.
#[verifier::external_body]
pub(crate) fn mod_add(a: &BigNat, b: &BigNat, m: &BigNat) -> (r: BigNat)
    requires
        a@ < m@,
        b@ < m@,
    ensures
        r@ == (a@ + b@) % m@,
{
    let x = Natural::from_limbs_asc(&a.limbs);
    BigNat { limbs: x.mod_add(Natural::from_limbs_asc(&b.limbs), Natural::from_limbs_asc(&m.limbs)).into_limbs_asc() }
}

/// `malachite`'s `ModSub::mod_sub`, which panics unless both operands are reduced modulo `m`.
#[verifier::external_body]
pub(crate) fn mod_sub(a: &BigNat, b: &BigNat, m: &BigNat) -> (r: BigNat)
    requires
        a@ < m@,
        b@ < m@,
    ensures
        r@ == (a@ - b@) % (m@ as int),
{
    let x = Natural::from_limbs_asc(&a.limbs);
    BigNat { limbs: x.mod_sub(Natural::from_limbs_asc(&b.limbs), Natural::from_limbs_asc(&m.limbs)).into_limbs_asc() }
}

/// `malachite`'s `ModMul::mod_mul`, which panics unless both factors are reduced modulo `m`.
#[verifier::external_body]
pub(crate) fn mod_mul(a: &BigNat, b: &BigNat, m: &BigNat) -> (r: BigNat)
    requires
        a@ < m@,
        b@ < m@,
    ensures
        r@ == (a@ * b@) % m@,
{
    let x = Natural::from_limbs_asc(&a.limbs);
    BigNat { limbs: x.mod_mul(Natural::from_limbs_asc(&b.limbs), Natural::from_limbs_asc(&m.limbs)).into_limbs_asc() }
}

/// `malachite`'s `ModInverse::mod_inverse`: the inverse of `a` modulo `m`, if there
/// is one. It panics when `a` is 0 or not reduced modulo `m`.
#[verifier::external_body]
pub(crate) fn mod_inverse(a: &BigNat, m: &BigNat) -> (r: Option<BigNat>)
    requires
        0 < a@ < m@,
    ensures
        r is Some <==> has_mod_inverse(a@, m@),
        r matches Some(y) ==> y@ < m@ && (a@ * y@) % m@ == 1,
{
    match Natural::from_limbs_asc(&a.limbs).mod_inverse(Natural::from_limbs_asc(&m.limbs)) {
        Some(y) => Some(BigNat { limbs: y.into_limbs_asc() }),
        None => None,
    }
}

/// `malachite`'s `FloorSqrt::floor_sqrt` of a `Natural`.
#[verifier::external_body]
pub(crate) fn floor_sqrt(a: &BigNat) -> (r: BigNat)
    ensures
        r@ * r@ <= a@ < (r@ + 1) * (r@ + 1),
{
    BigNat { limbs: Natural::from_limbs_asc(&a.limbs).floor_sqrt().into_limbs_asc() }
}

/// `malachite`'s `trailing_zeros` of a `Natural`: the exponent of 2 in it, or
/// `None` for 0.
#[verifier::external_body]
pub(crate) fn trailing_zeros(a: &BigNat) -> (r: Option<u64>)
    ensures
        r is None <==> a@ == 0,
        r matches Some(t) ==> a@ % pow2(t as nat) == 0 && (a@ / pow2(t as nat)) % 2 == 1,
{
    Natural::from_limbs_asc(&a.limbs).trailing_zeros()
}

/// `malachite`'s `SignificantBits::significant_bits` of a `Natural`: 0 for 0,
/// otherwise floor(log2 a) + 1.
#[verifier::external_body]
pub(crate) fn significant_bits(a: &BigNat) -> (r: u64)
    ensures
        a@ < pow2(r as nat),
        r > 0 ==> pow2((r - 1) as nat) <= a@,
{
    Natural::from_limbs_asc(&a.limbs).significant_bits()
}

/// `malachite`'s `BitConvertible::to_bits_desc`: the binary digits, most significant
/// first, beginning with `true` (empty for 0).
#[verifier::external_body]
pub(crate) fn to_bits_desc(a: &BigNat) -> (r: Vec<bool>)
    ensures
        bits_desc_value(r@) == a@,
        r@.len() == 0 <==> a@ == 0,
        r@.len() > 0 ==> r@[0],
{
    Natural::from_limbs_asc(&a.limbs).to_bits_desc()
}

/// `malachite`'s `Gcd::gcd` of two `Natural`s.
#[verifier::external_body]
pub(crate) fn gcd(a: &BigNat, b: &BigNat) -> (r: BigNat)
    ensures
        r@ == gcd_spec(a@, b@),
{
    BigNat { limbs: Natural::from_limbs_asc(&a.limbs).gcd(Natural::from_limbs_asc(&b.limbs)).into_limbs_asc() }
}

/// `malachite`'s `Lcm::lcm` of two `Natural`s.
#[verifier::external_body]
pub(crate) fn lcm(a: &BigNat, b: &BigNat) -> (r: BigNat)
    ensures
        r@ == lcm_spec(a@, b@),
{
    BigNat { limbs: Natural::from_limbs_asc(&a.limbs).lcm(Natural::from_limbs_asc(&b.limbs)).into_limbs_asc() }
}

/// `malachite`'s `AbsDiff::abs_diff` of two `Natural`s.
#[verifier::external_body]
pub(crate) fn abs_diff(a: &BigNat, b: &BigNat) -> (r: BigNat)
    ensures
        r@ == abs(a@ - b@),
{
    BigNat { limbs: Natural::from_limbs_asc(&a.limbs).abs_diff(Natural::from_limbs_asc(&b.limbs)).into_limbs_asc() }
}

/// `malachite`'s `DivExact::div_exact`, which may panic or return nonsense unless
/// `b` is a nonzero divisor of `a`.
#[verifier::external_body]
pub(crate) fn div_exact(a: &BigNat, b: &BigNat) -> (r: BigNat)
    requires
        b@ > 0,
        a@ % b@ == 0,
    ensures
        r@ == a@ / b@,
{
    BigNat { limbs: Natural::from_limbs_asc(&a.limbs).div_exact(Natural::from_limbs_asc(&b.limbs)).into_limbs_asc() }
}

/// `malachite`'s `DivisibleBy::divisible_by`: whether `a` is a multiple of `b`
/// (0 is the only multiple of 0).
#[verifier::external_body]
pub(crate) fn divisible_by(a: &BigNat, b: &BigNat) -> (r: bool)
    ensures
        r == if b@ == 0 { a@ == 0 } else { a@ % b@ == 0 },
{
    Natural::from_limbs_asc(&a.limbs).divisible_by(Natural::from_limbs_asc(&b.limbs))
}

/// The primes up to b, in increasing order.
pub open spec fn primes_through(b: nat) -> Seq<nat>
    decreases b,
{
    if b < 2 {
        Seq::empty()
    } else {
        primes_through((b - 1) as nat) + if is_prime_spec(b) { seq![b] } else { Seq::empty() }
    }
}

/// `malachite`'s `Natural::primes_less_than_or_equal_to`, collected: every prime up to
/// `bound` (and up to 2^64 - 1, as the sieve runs over `u64`), in increasing order.
#[verifier::external_body]
pub(crate) fn primes_up_to(bound: &BigNat) -> (r: Vec<BigNat>)
    ensures
        r@.map_values(|p: BigNat| p@) == primes_through(
            if bound@ < limb_base() { bound@ } else { (limb_base() - 1) as nat },
        ),
        forall|i: int, j: int| 0 <= i < j < r@.len() ==> r@[i]@ < r@[j]@,
        forall|i: int| 0 <= i < r@.len() ==> is_prime_spec(#[trigger] r@[i]@) && r@[i]@ <= bound@,
        forall|p: nat|
            is_prime_spec(p) && p <= bound@ && p < limb_base() ==> exists|i: int|
                0 <= i < r@.len() && #[trigger] r@[i]@ == p,
{
    Natural::primes_less_than_or_equal_to(&Natural::from_limbs_asc(&bound.limbs))
        .map(|p| BigNat { limbs: p.into_limbs_asc() })
        .collect()
}

/// `malachite`'s `Product` of `Natural`s (1 for none).
#[verifier::external_body]
pub(crate) fn product(v: &Vec<BigNat>) -> (r: BigNat)
    ensures
        r@ == seq_product(v@.map_values(|x: BigNat| x@)),
{
    BigNat { limbs: v.iter().map(|x| Natural::from_limbs_asc(&x.limbs)).product::<Natural>().into_limbs_asc() }
}

/// `malachite`'s `Natural::factorial`.
#[verifier::external_body]
pub(crate) fn natural_factorial(n: u64) -> (r: BigNat)
    ensures
        r@ == factorial_spec(n as nat),
{
    BigNat { limbs: Natural::factorial(n).into_limbs_asc() }
}

/// `malachite`'s `u64::saturating_from(&Natural)`.
#[verifier::external_body]
pub(crate) fn saturating_to_u64(a: &BigNat) -> (r: u64)
    ensures
        r == if a@ <= u64::MAX { a@ } else { u64::MAX as nat },
{
    u64::saturating_from(&Natural::from_limbs_asc(&a.limbs))
}

// ---------------------------------------------------------------------------
// Arbitrary-precision integers.
// ---------------------------------------------------------------------------

/// An arbitrary-precision integer: a sign and a magnitude (a negative zero is zero).
#[derive(Debug)]
pub struct BigInt {
    negative: bool,
    magnitude: BigNat,
}

impl View for BigInt {
    type V = int;

    closed spec fn view(&self) -> int {
        if self.negative {
            -(self.magnitude@ as int)
        } else {
            self.magnitude@ as int
        }
    }
}

impl BigInt {
    /// The integer `n`.
    pub fn from_natural(n: BigNat) -> (r: BigInt)
        ensures
            r@ == n@ as int,
    {
        BigInt { negative: false, magnitude: n }
    }

    /// The integer with the given sign and magnitude (`negative` is ignored for 0).
    pub fn from_sign_and_magnitude(negative: bool, magnitude: BigNat) -> (r: BigInt)
        ensures
            r@ == if negative { -(magnitude@ as int) } else { magnitude@ as int },
    {
        BigInt { negative, magnitude }
    }

    /// The integer `v`.
    pub fn from_i64(v: i64) -> (r: BigInt)
        ensures
            r@ == v,
    {
        if v < 0 {
            let m: u64 = if v == i64::MIN { 0x8000_0000_0000_0000u64 } else { (-v) as u64 };
            BigInt { negative: true, magnitude: BigNat::from_u64(m) }
        } else {
            BigInt { negative: false, magnitude: BigNat::from_u64(v as u64) }
        }
    }

    /// |self|
    pub fn unsigned_abs(&self) -> (r: BigNat)
        ensures
            r@ == abs(self@),
    {
        self.magnitude.copy()
    }

    /// Whether the value is negative.
    pub fn is_negative(&self) -> (r: bool)
        ensures
            r == (self@ < 0),
    {
        self.negative && !equals_u64(&self.magnitude, 0)
    }

    /// A copy of the value.
    pub fn copy(&self) -> (r: BigInt)
        ensures
            r@ == self@,
    {
        BigInt { negative: self.negative, magnitude: self.magnitude.copy() }
    }

    /// -self
    pub fn neg(&self) -> (r: BigInt)
        ensures
            r@ == -self@,
    {
        BigInt { negative: !self.negative, magnitude: self.magnitude.copy() }
    }

    /// `self == v` for a machine integer `v`.
    pub fn equals_i64(&self, v: i64) -> (r: bool)
        ensures
            r == (self@ == v),
    {
        let w = BigInt::from_i64(v);
        let same_magnitude = equal(&self.magnitude, &w.magnitude);
        if equals_u64(&self.magnitude, 0) {
            v == 0
        } else {
            same_magnitude && self.negative == w.negative
        }
    }
}

/// `malachite`'s `Integer + Integer`.
#[verifier::external_body]
pub(crate) fn int_add(a: &BigInt, b: &BigInt) -> (r: BigInt)
    ensures
        r@ == a@ + b@,
{
    let x = Integer::from_sign_and_abs(!a.negative, Natural::from_limbs_asc(&a.magnitude.limbs));
    let r = x + Integer::from_sign_and_abs(!b.negative, Natural::from_limbs_asc(&b.magnitude.limbs));
    BigInt { negative: r < 0, magnitude: BigNat { limbs: r.unsigned_abs().into_limbs_asc() } }
}

/// `malachite`'s `Integer - Integer`.
#[verifier::external_body]
pub(crate) fn int_sub(a: &BigInt, b: &BigInt) -> (r: BigInt)
    ensures
        r@ == a@ - b@,
{
    let x = Integer::from_sign_and_abs(!a.negative, Natural::from_limbs_asc(&a.magnitude.limbs));
    let r = x - Integer::from_sign_and_abs(!b.negative, Natural::from_limbs_asc(&b.magnitude.limbs));
    BigInt { negative: r < 0, magnitude: BigNat { limbs: r.unsigned_abs().into_limbs_asc() } }
}

/// `malachite`'s `Integer * Integer`.
#[verifier::external_body]
pub(crate) fn int_mul(a: &BigInt, b: &BigInt) -> (r: BigInt)
    ensures
        r@ == a@ * b@,
{
    let x = Integer::from_sign_and_abs(!a.negative, Natural::from_limbs_asc(&a.magnitude.limbs));
    let r = x * Integer::from_sign_and_abs(!b.negative, Natural::from_limbs_asc(&b.magnitude.limbs));
    BigInt { negative: r < 0, magnitude: BigNat { limbs: r.unsigned_abs().into_limbs_asc() } }
}

/// `malachite`'s `Integer / Integer`: the quotient rounded towards zero. It panics
/// on a zero divisor.
#[verifier::external_body]
pub(crate) fn int_div(a: &BigInt, b: &BigInt) -> (r: BigInt)
    requires
        b@ != 0,
    ensures
        r@ == trunc_div(a@, b@),
{
    let x = Integer::from_sign_and_abs(!a.negative, Natural::from_limbs_asc(&a.magnitude.limbs));
    let r = x / Integer::from_sign_and_abs(!b.negative, Natural::from_limbs_asc(&b.magnitude.limbs));
    BigInt { negative: r < 0, magnitude: BigNat { limbs: r.unsigned_abs().into_limbs_asc() } }
}

/// `malachite`'s `Integer % Integer`: the remainder with the sign of `a`. It panics
/// on a zero divisor.
#[verifier::external_body]
pub(crate) fn int_rem(a: &BigInt, b: &BigInt) -> (r: BigInt)
    requires
        b@ != 0,
    ensures
        r@ == trunc_rem(a@, b@),
{
    let x = Integer::from_sign_and_abs(!a.negative, Natural::from_limbs_asc(&a.magnitude.limbs));
    let r = x % Integer::from_sign_and_abs(!b.negative, Natural::from_limbs_asc(&b.magnitude.limbs));
    BigInt { negative: r < 0, magnitude: BigNat { limbs: r.unsigned_abs().into_limbs_asc() } }
}

/// `malachite`'s `Pow<u64>` of an `Integer`.
#[verifier::external_body]
pub(crate) fn int_pow(a: &BigInt, e: u64) -> (r: BigInt)
    ensures
        r@ == pow(a@, e as nat),
{
    let x = Integer::from_sign_and_abs(!a.negative, Natural::from_limbs_asc(&a.magnitude.limbs));
    let r = x.pow(e);
    BigInt { negative: r < 0, magnitude: BigNat { limbs: r.unsigned_abs().into_limbs_asc() } }
}

/// `malachite`'s `FloorSqrt::floor_sqrt` of an `Integer`, which panics on negatives.
#[verifier::external_body]
pub(crate) fn int_floor_sqrt(a: &BigInt) -> (r: BigInt)
    requires
        a@ >= 0,
    ensures
        r@ >= 0,
        r@ * r@ <= a@ < (r@ + 1) * (r@ + 1),
{
    let x = Integer::from_sign_and_abs(!a.negative, Natural::from_limbs_asc(&a.magnitude.limbs));
    let r = x.floor_sqrt();
    BigInt { negative: r < 0, magnitude: BigNat { limbs: r.unsigned_abs().into_limbs_asc() } }
}

/// `malachite`'s `KroneckerSymbol::kronecker_symbol` of two `Integer`s; the Kronecker
/// symbol is one of -1, 0 and 1.
#[verifier::external_body]
pub(crate) fn kronecker_symbol(a: &BigInt, b: &BigInt) -> (r: i8)
    ensures
        r as int == kronecker_symbol_spec(a@, b@),
        -1 <= r <= 1,
{
    let x = Integer::from_sign_and_abs(!a.negative, Natural::from_limbs_asc(&a.magnitude.limbs));
    x.kronecker_symbol(Integer::from_sign_and_abs(!b.negative, Natural::from_limbs_asc(&b.magnitude.limbs)))
}

// ---------------------------------------------------------------------------
// Decimal text.
// ---------------------------------------------------------------------------

/// `malachite`'s `Natural::from_str`: a nonempty string of decimal digits with an
/// optional single leading '+'.
#[verifier::external_body]
pub(crate) fn parse_natural(s: &str) -> (r: Option<BigNat>)
    ensures
        r is Some <==> is_natural_literal(s@),
        r matches Some(v) ==> v@ == natural_literal_value(s@),
{
    match s.parse::<Natural>() {
        Ok(v) => Some(BigNat { limbs: v.into_limbs_asc() }),
        Err(_) => None,
    }
}

/// `malachite`'s `Integer::from_str`: a nonempty string of decimal digits with an
/// optional single leading '+' or '-'.
#[verifier::external_body]
pub(crate) fn parse_integer(s: &str) -> (r: Option<BigInt>)
    ensures
        r is Some <==> is_integer_literal(s@),
        r matches Some(v) ==> v@ == integer_literal_value(s@),
{
    match s.parse::<Integer>() {
        Ok(v) => Some(BigInt { negative: v < 0, magnitude: BigNat { limbs: v.unsigned_abs().into_limbs_asc() } }),
        Err(_) => None,
    }
}

/// `malachite`'s `Display` of a `Natural`: its decimal digits.
#[verifier::external_body]
pub(crate) fn natural_to_string(n: &BigNat) -> (r: String)
    ensures
        r@ == decimal(n@),
{
    Natural::from_limbs_asc(&n.limbs).to_string()
}

/// `malachite`'s `Display` of an `Integer`: its decimal digits, after '-' when negative.
#[verifier::external_body]
pub(crate) fn integer_to_string(n: &BigInt) -> (r: String)
    ensures
        r@ == signed_decimal(n@),
{
    Integer::from_sign_and_abs(!n.negative, Natural::from_limbs_asc(&n.magnitude.limbs)).to_string()
}

} // verus!
