//! Decimal text: what the calculators accept and print.
//!
//! Reading and printing numbers is done by `malachite` (its wrappers sit beside
//! the number types in `bignum`) and by `std`; each call sits behind a wrapper
//! whose contract states the digits read or written.
use crate::bignum::{BigInt, BigNat, abs, integer_to_string, natural_to_string, parse_integer, parse_natural};
use vstd::prelude::*;

verus! {

/// `c` is one of the ASCII digits '0' to '9'.
pub open spec fn is_digit(c: char) -> bool {
    '0' <= c <= '9'
}

/// The value of an ASCII digit.
pub open spec fn digit_value(c: char) -> nat {
    (c as int - '0' as int) as nat
}

/// The ASCII digit of `d < 10`.
pub open spec fn digit_char(d: nat) -> char {
    (d + '0' as int) as char
}

/// Every character of `s` is an ASCII digit.
pub open spec fn all_digits(s: Seq<char>) -> bool {
    forall|i: int| 0 <= i < s.len() ==> is_digit(#[trigger] s[i])
}

/// The value of a string of decimal digits, most significant first.
pub open spec fn digits_value(s: Seq<char>) -> nat
    decreases s.len(),
{
    if s.len() == 0 {
        0
    } else {
        digits_value(s.drop_last()) * 10 + digit_value(s.last())
    }
}

/// `s` without one leading '+', if it has one.
pub open spec fn unsigned_digits(s: Seq<char>) -> Seq<char> {
    if s.len() > 0 && s[0] == '+' {
        s.drop_first()
    } else {
        s
    }
}

/// `s` without one leading '+' or '-', if it has one.
pub open spec fn signed_digits(s: Seq<char>) -> Seq<char> {
    if s.len() > 0 && (s[0] == '+' || s[0] == '-') {
        s.drop_first()
    } else {
        s
    }
}

/// A natural number literal: an optional '+' and at least one decimal digit.
pub open spec fn is_natural_literal(s: Seq<char>) -> bool {
    unsigned_digits(s).len() > 0 && all_digits(unsigned_digits(s))
}

/// The value of a natural number literal.
pub open spec fn natural_literal_value(s: Seq<char>) -> nat {
    digits_value(unsigned_digits(s))
}

/// A natural number literal whose value fits in a `u32`.
pub open spec fn is_u32_literal(s: Seq<char>) -> bool {
    is_natural_literal(s) && natural_literal_value(s) <= u32::MAX
}

/// An integer literal: an optional '+' or '-' and at least one decimal digit.
pub open spec fn is_integer_literal(s: Seq<char>) -> bool {
    signed_digits(s).len() > 0 && all_digits(signed_digits(s))
}

/// The value of an integer literal.
pub open spec fn integer_literal_value(s: Seq<char>) -> int {
    if s.len() > 0 && s[0] == '-' {
        -(digits_value(signed_digits(s)) as int)
    } else {
        digits_value(signed_digits(s)) as int
    }
}

/// The decimal digits of `n`, without leading zeros ("0" for zero).
pub open spec fn decimal(n: nat) -> Seq<char>
    decreases n,
{
    if n < 10 {
        seq![digit_char(n)]
    } else {
        decimal(n / 10).push(digit_char(n % 10))
    }
}

/// The decimal form of an integer, with a leading '-' when it is negative.
pub open spec fn signed_decimal(v: int) -> Seq<char> {
    if v < 0 {
        seq!['-'] + decimal((-v) as nat)
    } else {
        decimal(v as nat)
    }
}

/// The digits of `decimal(n)` are ASCII digits worth `n`.
proof fn lemma_decimal_digits(n: nat)
    ensures
        decimal(n).len() > 0,
        all_digits(decimal(n)),
        digits_value(decimal(n)) == n,
    decreases n,
{
    if n < 10 {
        let s = decimal(n);
        assert(s.drop_last() =~= Seq::<char>::empty());
        assert(digits_value(s.drop_last()) == 0);
    } else {
        lemma_decimal_digits(n / 10);
        let s = decimal(n);
        let prefix = decimal(n / 10);
        assert(s.drop_last() =~= prefix);
        assert(s.last() == digit_char(n % 10));
        assert forall|i: int| 0 <= i < s.len() implies is_digit(#[trigger] s[i]) by {
            if i < prefix.len() {
                assert(s[i] == prefix[i]);
            }
        }
    }
}

/// What is printed reads back: the decimal form of `n` is a natural number
/// literal worth `n`, so an answer of one calculator can be handed to another.
pub proof fn law_decimal_reads_back(n: nat)
    ensures
        is_natural_literal(decimal(n)),
        natural_literal_value(decimal(n)) == n,
{
    lemma_decimal_digits(n);
    let s = decimal(n);
    assert(is_digit(s[0]));
    assert(unsigned_digits(s) == s);
}

/// What is printed reads back: the decimal form of an integer `v` is an integer
/// literal worth `v`.
pub proof fn law_signed_decimal_reads_back(v: int)
    ensures
        is_integer_literal(signed_decimal(v)),
        integer_literal_value(signed_decimal(v)) == v,
{
    let n = abs(v);
    lemma_decimal_digits(n);
    let d = decimal(n);
    assert(is_digit(d[0]));
    if v < 0 {
        let s = signed_decimal(v);
        assert(s == seq!['-'] + d);
        assert(s.drop_first() =~= d);
        assert(signed_digits(s) == d);
    } else {
        assert(signed_digits(d) == d);
    }
}

/// `std`'s `u32::from_str`: an optional '+' followed by decimal digits, whose value
/// fits in a `u32`.
#[verifier::external_body]
pub(crate) fn parse_u32(s: &str) -> (r: Option<u32>)
    ensures
        r is Some <==> is_u32_literal(s@),
        r matches Some(v) ==> v == natural_literal_value(s@),
{
    s.parse::<u32>().ok()
}

/// `std`'s `Display` of a `u32`: its decimal digits.
#[verifier::external_body]
pub(crate) fn u32_to_string(v: u32) -> (r: String)
    ensures
        r@ == decimal(v as nat),
{
    v.to_string()
}

/// `std`'s `Display` of an `i8`: its decimal digits, after '-' when negative.
#[verifier::external_body]
pub(crate) fn i8_to_string(v: i8) -> (r: String)
    ensures
        r@ == signed_decimal(v as int),
{
    v.to_string()
}

/// `std`'s `String::push`.
#[verifier::external_body]
pub(crate) fn push_char(s: &mut String, c: char)
    ensures
        final(s)@ == old(s)@.push(c),
{
    s.push(c)
}

impl BigNat {
    /// Reads a natural number literal: decimal digits after an optional '+'.
    pub fn from_decimal(s: &str) -> (r: Option<BigNat>)
        ensures
            r is Some <==> is_natural_literal(s@),
            r matches Some(v) ==> v@ == natural_literal_value(s@),
    {
        parse_natural(s)
    }

    /// The decimal digits of the value.
    pub fn to_decimal(&self) -> (r: String)
        ensures
            r@ == decimal(self@),
    {
        natural_to_string(self)
    }
}

impl BigInt {
    /// Reads an integer literal: decimal digits after an optional '+' or '-'.
    pub fn from_decimal(s: &str) -> (r: Option<BigInt>)
        ensures
            r is Some <==> is_integer_literal(s@),
            r matches Some(v) ==> v@ == integer_literal_value(s@),
    {
        parse_integer(s)
    }

    /// The decimal digits of the value, after '-' when it is negative.
    pub fn to_decimal(&self) -> (r: String)
        ensures
            r@ == signed_decimal(self@),
    {
        integer_to_string(self)
    }
}

/// `std`'s `Display` of a `bool`: "true" or "false".
pub fn bool_to_string(b: bool) -> (r: String)
    ensures
        r@ == if b { "true"@ } else { "false"@ },
{
    if b {
        String::from_str("true")
    } else {
        String::from_str("false")
    }
}


/// `std`'s `char::is_alphanumeric`, as std's Unicode tables decide it.
pub uninterp spec fn char_is_alphanumeric(c: char) -> bool;

/// `std`'s `char::is_alphabetic`, as std's Unicode tables decide it.
pub uninterp spec fn char_is_alphabetic(c: char) -> bool;

/// `std`'s `char::is_whitespace`, as std's Unicode tables decide it.
pub uninterp spec fn char_is_whitespace(c: char) -> bool;

/// `c` is an ASCII letter.
pub open spec fn is_ascii_letter(c: char) -> bool {
    ('a' <= c <= 'z') || ('A' <= c <= 'Z')
}

/// `std`'s `char::is_alphanumeric`: alphabetic or numeric; among ASCII characters
/// exactly the letters and digits.
#[verifier::external_body]
pub(crate) fn is_alphanumeric(c: char) -> (r: bool)
    ensures
        r == char_is_alphanumeric(c),
        (c as u32) < 128 ==> (r <==> is_ascii_letter(c) || is_digit(c)),
{
    c.is_alphanumeric()
}

/// `std`'s `char::is_alphabetic`: the Unicode Alphabetic property; among ASCII
/// characters exactly the letters.
#[verifier::external_body]
pub(crate) fn is_alphabetic(c: char) -> (r: bool)
    ensures
        r == char_is_alphabetic(c),
        (c as u32) < 128 ==> (r <==> is_ascii_letter(c)),
{
    c.is_alphabetic()
}

/// `std`'s `char::is_whitespace`: the Unicode White_Space property; among ASCII
/// characters exactly tab, line feed, vertical tab, form feed, carriage return
/// and space.
#[verifier::external_body]
pub(crate) fn is_whitespace(c: char) -> (r: bool)
    ensures
        r == char_is_whitespace(c),
        (c as u32) < 128 ==> (r <==> (9 <= (c as u32) <= 13 || c == ' ')),
{
    c.is_whitespace()
}

} // verus!
