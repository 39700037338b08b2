//! Integer expressions: `+ - * / % ^ !`, parentheses and `isqrt`, evaluated
//! exactly over arbitrary-precision integers.
use crate::text::{char_is_alphabetic, char_is_alphanumeric, char_is_whitespace, is_alphabetic, is_alphanumeric, is_whitespace, push_char};
use crate::bignum::{
    BigInt, BigNat, even, factorial_spec, int_add, int_div, int_floor_sqrt,
    int_mul, int_pow, int_rem, int_sub, lt_u64, natural_factorial, saturating_to_u64, trunc_div,
    trunc_rem,
};
use crate::number_theory::{isqrt_spec, lemma_isqrt_unique};
use crate::text::{integer_literal_value, is_integer_literal};
use vstd::arithmetic::power::pow;
use crate::bignum::{parse_integer};
use vstd::prelude::*;

verus! {

// ---------------------------------------------------------------------------
// Tokens.
// ---------------------------------------------------------------------------

/// A lexical unit of an expression.
pub enum Token {
    Num(String),
    Add,
    Sub,
    Mul,
    Div,
    Mod,
    Pow,
    Fac,
    LPar,
    RPar,
    Comma,
    Func(String),
}

/// A token, with the text of a number or a function name as characters.
pub enum TokenSpec {
    Num(Seq<char>),
    Add,
    Sub,
    Mul,
    Div,
    Mod,
    Pow,
    Fac,
    LPar,
    RPar,
    Comma,
    Func(Seq<char>),
}

impl View for Token {
    type V = TokenSpec;

    open spec fn view(&self) -> TokenSpec {
        match self {
            Token::Num(s) => TokenSpec::Num(s@),
            Token::Add => TokenSpec::Add,
            Token::Sub => TokenSpec::Sub,
            Token::Mul => TokenSpec::Mul,
            Token::Div => TokenSpec::Div,
            Token::Mod => TokenSpec::Mod,
            Token::Pow => TokenSpec::Pow,
            Token::Fac => TokenSpec::Fac,
            Token::LPar => TokenSpec::LPar,
            Token::RPar => TokenSpec::RPar,
            Token::Comma => TokenSpec::Comma,
            Token::Func(s) => TokenSpec::Func(s@),
        }
    }
}

/// The tokens of a vector.
pub open spec fn tokens_view(v: Seq<Token>) -> Seq<TokenSpec> {
    v.map_values(|t: Token| t@)
}

/// The token of an operator character, if it is one.
pub open spec fn operator_token(c: char) -> Option<TokenSpec> {
    if c == '+' {
        Some(TokenSpec::Add)
    } else if c == '-' {
        Some(TokenSpec::Sub)
    } else if c == '*' {
        Some(TokenSpec::Mul)
    } else if c == '/' {
        Some(TokenSpec::Div)
    } else if c == '%' {
        Some(TokenSpec::Mod)
    } else if c == '^' {
        Some(TokenSpec::Pow)
    } else if c == '!' {
        Some(TokenSpec::Fac)
    } else if c == '(' {
        Some(TokenSpec::LPar)
    } else if c == ')' {
        Some(TokenSpec::RPar)
    } else if c == ',' {
        Some(TokenSpec::Comma)
    } else {
        None
    }
}

/// Characters that extend a word (a number or a function name).
pub open spec fn is_word_char(c: char) -> bool {
    char_is_alphanumeric(c) || c == '.'
}

/// Ends the current word: a function name if it starts with a letter, otherwise
/// a number.
pub open spec fn flush_word(tokens: Seq<TokenSpec>, word: Seq<char>) -> Seq<TokenSpec> {
    if word.len() == 0 {
        tokens
    } else if char_is_alphabetic(word[0]) {
        tokens.push(TokenSpec::Func(word))
    } else {
        tokens.push(TokenSpec::Num(word))
    }
}

/// The message for a character that is no token.
pub open spec fn unknown_operator_message(c: char) -> Seq<char> {
    "Unknown operator "@.push(c)
}

/// Tokens read so far and the word being read, after the characters of `s`.
pub open spec fn tokenize_state(s: Seq<char>) -> Result<(Seq<TokenSpec>, Seq<char>), Seq<char>>
    decreases s.len(),
{
    if s.len() == 0 {
        Ok((Seq::empty(), Seq::empty()))
    } else {
        match tokenize_state(s.drop_last()) {
            Err(e) => Err(e),
            Ok((tokens, word)) => {
                let c = s.last();
                if is_word_char(c) {
                    Ok((tokens, word.push(c)))
                } else if char_is_whitespace(c) {
                    Ok((flush_word(tokens, word), Seq::empty()))
                } else {
                    match operator_token(c) {
                        Some(t) => Ok((flush_word(tokens, word).push(t), Seq::empty())),
                        None => Err(unknown_operator_message(c)),
                    }
                }
            },
        }
    }
}

/// The tokens of `s`: words of alphanumeric characters and '.', operators,
/// parentheses and commas, separated by optional whitespace; any other character
/// is an error.
pub open spec fn tokenize_spec(s: Seq<char>) -> Result<Seq<TokenSpec>, Seq<char>> {
    match tokenize_state(s) {
        Ok((tokens, word)) => Ok(flush_word(tokens, word)),
        Err(e) => Err(e),
    }
}

/// Once reading fails, it fails with the same message for every extension.
proof fn lemma_tokenize_error_persists(s: Seq<char>, k: int)
    requires
        0 <= k <= s.len(),
        tokenize_state(s.subrange(0, k)) is Err,
    ensures
        tokenize_state(s) == tokenize_state(s.subrange(0, k)),
    decreases s.len() - k,
{
    if k == s.len() {
        assert(s.subrange(0, k) =~= s);
    } else {
        assert(s.subrange(0, k + 1).drop_last() =~= s.subrange(0, k));
        lemma_tokenize_error_persists(s, k + 1);
    }
}

/// Ends the current word, pushing it as a token when it is not empty.
fn flush_partial(partial: &mut String, tokens: &mut Vec<Token>)
    ensures
        final(partial)@ == Seq::<char>::empty(),
        tokens_view(final(tokens)@) == flush_word(tokens_view(old(tokens)@), old(partial)@),
{
    if partial.as_str().is_empty() {
        return;
    }
    let first = partial.as_str().get_char(0);
    let mut word = String::new();
    std::mem::swap(&mut word, partial);
    let ghost old_view = tokens_view(tokens@);
    if is_alphabetic(first) {
        tokens.push(Token::Func(word));
    } else {
        tokens.push(Token::Num(word));
    }
    assert(tokens_view(tokens@) =~= old_view.push(tokens@.last()@));
}

/// Splits an expression into tokens.
pub fn tokenize(s: &str) -> (r: Result<Vec<Token>, String>)
    ensures
        match tokenize_spec(s@) {
            Ok(t) => r is Ok && tokens_view(r->Ok_0@) == t,
            Err(e) => r is Err && r->Err_0@ == e,
        },
{
    let mut tokens: Vec<Token> = Vec::new();
    let mut partial = String::new();
    let len = s.unicode_len();
    let mut i: usize = 0;
    assert(s@.subrange(0, 0) =~= Seq::<char>::empty());
    assert(tokens_view(tokens@) =~= Seq::<TokenSpec>::empty());
    while i < len
        invariant
            i <= len,
            len == s@.len(),
            tokenize_state(s@.subrange(0, i as int)) == Ok::<(Seq<TokenSpec>, Seq<char>), Seq<char>>((tokens_view(tokens@), partial@)),
        decreases len - i,
    {
        let c = s.get_char(i);
        assert(s@.subrange(0, i + 1).drop_last() =~= s@.subrange(0, i as int));
        assert(s@.subrange(0, i + 1).last() == c);
        if is_alphanumeric(c) || c == '.' {
            push_char(&mut partial, c);
        } else {
            flush_partial(&mut partial, &mut tokens);
            if !is_whitespace(c) {
                let ghost before = tokens_view(tokens@);
                let t = if c == '+' {
                    Token::Add
                } else if c == '-' {
                    Token::Sub
                } else if c == '*' {
                    Token::Mul
                } else if c == '/' {
                    Token::Div
                } else if c == '%' {
                    Token::Mod
                } else if c == '^' {
                    Token::Pow
                } else if c == '!' {
                    Token::Fac
                } else if c == '(' {
                    Token::LPar
                } else if c == ')' {
                    Token::RPar
                } else if c == ',' {
                    Token::Comma
                } else {
                    let mut message = String::from_str("Unknown operator ");
                    push_char(&mut message, c);
                    proof {
                        lemma_tokenize_error_persists(s@, i + 1);
                    }
                    return Err(message);
                };
                tokens.push(t);
                assert(tokens_view(tokens@) =~= before.push(tokens@.last()@));
            }
        }
        i = i + 1;
    }
    assert(s@.subrange(0, len as int) =~= s@);
    flush_partial(&mut partial, &mut tokens);
    Ok(tokens)
}


// ---------------------------------------------------------------------------
// Expressions.
// ---------------------------------------------------------------------------

/// A parsed expression.
pub enum Expression {
    Num(String),
    Add(Box<Expression>, Box<Expression>),
    Neg(Box<Expression>),
    Sub(Box<Expression>, Box<Expression>),
    Mul(Box<Expression>, Box<Expression>),
    Div(Box<Expression>, Box<Expression>),
    Mod(Box<Expression>, Box<Expression>),
    Pow(Box<Expression>, Box<Expression>),
    Fac(Box<Expression>),
    Isqrt(Box<Expression>),
}

/// An expression, with the text of a number literal as characters.
pub enum ExprSpec {
    Num(Seq<char>),
    Add(Box<ExprSpec>, Box<ExprSpec>),
    Neg(Box<ExprSpec>),
    Sub(Box<ExprSpec>, Box<ExprSpec>),
    Mul(Box<ExprSpec>, Box<ExprSpec>),
    Div(Box<ExprSpec>, Box<ExprSpec>),
    Mod(Box<ExprSpec>, Box<ExprSpec>),
    Pow(Box<ExprSpec>, Box<ExprSpec>),
    Fac(Box<ExprSpec>),
    Isqrt(Box<ExprSpec>),
}

/// The abstract form of an expression.
pub open spec fn expr_view(e: Expression) -> ExprSpec
    decreases e,
{
    match e {
        Expression::Num(s) => ExprSpec::Num(s@),
        Expression::Add(l, r) => ExprSpec::Add(Box::new(expr_view(*l)), Box::new(expr_view(*r))),
        Expression::Neg(x) => ExprSpec::Neg(Box::new(expr_view(*x))),
        Expression::Sub(l, r) => ExprSpec::Sub(Box::new(expr_view(*l)), Box::new(expr_view(*r))),
        Expression::Mul(l, r) => ExprSpec::Mul(Box::new(expr_view(*l)), Box::new(expr_view(*r))),
        Expression::Div(l, r) => ExprSpec::Div(Box::new(expr_view(*l)), Box::new(expr_view(*r))),
        Expression::Mod(l, r) => ExprSpec::Mod(Box::new(expr_view(*l)), Box::new(expr_view(*r))),
        Expression::Pow(l, r) => ExprSpec::Pow(Box::new(expr_view(*l)), Box::new(expr_view(*r))),
        Expression::Fac(x) => ExprSpec::Fac(Box::new(expr_view(*x))),
        Expression::Isqrt(x) => ExprSpec::Isqrt(Box::new(expr_view(*x))),
    }
}

/// The abstract form of a parse result.
pub open spec fn parse_result_view(r: Result<Expression, String>) -> Result<ExprSpec, Seq<char>> {
    match r {
        Ok(e) => Ok(expr_view(e)),
        Err(m) => Err(m@),
    }
}

/// The operator classes the parser splits on, loosest first.
#[derive(Clone, Copy)]
pub enum OperatorClass {
    Additive,
    Multiplicative,
    Power,
    Factorial,
    Function,
}

/// `t` is a token of the class.
pub open spec fn of_class(t: TokenSpec, c: OperatorClass) -> bool {
    match c {
        OperatorClass::Additive => t is Add || t is Sub,
        OperatorClass::Multiplicative => t is Mul || t is Div || t is Mod,
        OperatorClass::Power => t is Pow,
        OperatorClass::Factorial => t is Fac,
        OperatorClass::Function => t is Func,
    }
}

/// +1 for '(', -1 for ')', 0 otherwise.
pub open spec fn paren_delta(t: TokenSpec) -> int {
    match t {
        TokenSpec::LPar => 1,
        TokenSpec::RPar => -1,
        _ => 0,
    }
}

/// The parenthesis depth before position k: open minus closed parentheses in t[..k].
pub open spec fn depth_at(t: Seq<TokenSpec>, k: int) -> int
    decreases k,
{
    if k <= 0 {
        0
    } else {
        depth_at(t, k - 1) + paren_delta(t[k - 1])
    }
}

/// Some prefix of `t` closes more parentheses than it opens.
pub open spec fn dips_below_zero(t: Seq<TokenSpec>) -> bool {
    exists|k: int| 0 < k <= t.len() && #[trigger] depth_at(t, k) < 0
}

/// Position k holds a token of the class outside all parentheses.
pub open spec fn top_level_at(t: Seq<TokenSpec>, k: int, c: OperatorClass) -> bool {
    of_class(t[k], c) && depth_at(t, k) == 0
}

/// The last k < n with [`top_level_at`], or -1.
pub open spec fn last_top_level(t: Seq<TokenSpec>, n: int, c: OperatorClass) -> int
    decreases n,
{
    if n <= 0 {
        -1
    } else if top_level_at(t, n - 1, c) {
        n - 1
    } else {
        last_top_level(t, n - 1, c)
    }
}

/// The first k >= from with [`top_level_at`], or -1.
pub open spec fn first_top_level(t: Seq<TokenSpec>, from: int, c: OperatorClass) -> int
    decreases t.len() - from,
{
    if from >= t.len() || from < 0 {
        -1
    } else if top_level_at(t, from, c) {
        from
    } else {
        first_top_level(t, from + 1, c)
    }
}

/// The two-operand expression of an operator token.
pub open spec fn binary_spec(op: TokenSpec, l: ExprSpec, r: ExprSpec) -> ExprSpec {
    match op {
        TokenSpec::Add => ExprSpec::Add(Box::new(l), Box::new(r)),
        TokenSpec::Sub => ExprSpec::Sub(Box::new(l), Box::new(r)),
        TokenSpec::Mul => ExprSpec::Mul(Box::new(l), Box::new(r)),
        TokenSpec::Div => ExprSpec::Div(Box::new(l), Box::new(r)),
        TokenSpec::Mod => ExprSpec::Mod(Box::new(l), Box::new(r)),
        _ => ExprSpec::Pow(Box::new(l), Box::new(r)),
    }
}

/// The grammar. A single token must be a number. Parentheses must balance.
/// Otherwise the expression splits at the last top-level `+` or `-` (a leading
/// one is unary, its operand parsed first), else at the last top-level `*`, `/`
/// or `%`, else at the first top-level `^`, else it is a factorial if its last
/// top-level `!` ends it, else a function application if it starts with a
/// top-level function name (only `isqrt` exists), else a parenthesized expression.
pub open spec fn parse_spec(t: Seq<TokenSpec>) -> Result<ExprSpec, Seq<char>>
    decreases t.len(),
{
    let n = t.len() as int;
    if n == 0 {
        Err("Empty expression"@)
    } else if n == 1 {
        match t[0] {
            TokenSpec::Num(s) => Ok(ExprSpec::Num(s)),
            _ => Err("Malformed"@),
        }
    } else if dips_below_zero(t) {
        Err("Unmatched )"@)
    } else if depth_at(t, n) != 0 {
        Err("Unmatched ("@)
    } else {
        let ia = last_top_level(t, n, OperatorClass::Additive);
        if 0 <= ia < n {
            match parse_spec(t.subrange(ia + 1, n)) {
                Err(e) => Err(e),
                Ok(right) => if ia == 0 {
                    if t[ia] is Add {
                        Ok(right)
                    } else {
                        Ok(ExprSpec::Neg(Box::new(right)))
                    }
                } else {
                    match parse_spec(t.subrange(0, ia)) {
                        Err(e) => Err(e),
                        Ok(left) => Ok(binary_spec(t[ia], left, right)),
                    }
                },
            }
        } else {
            let im = last_top_level(t, n, OperatorClass::Multiplicative);
            if 0 <= im < n {
                match parse_spec(t.subrange(0, im)) {
                    Err(e) => Err(e),
                    Ok(left) => match parse_spec(t.subrange(im + 1, n)) {
                        Err(e) => Err(e),
                        Ok(right) => Ok(binary_spec(t[im], left, right)),
                    },
                }
            } else {
                let ip = first_top_level(t, 0, OperatorClass::Power);
                if 0 <= ip < n {
                    match parse_spec(t.subrange(0, ip)) {
                        Err(e) => Err(e),
                        Ok(left) => match parse_spec(t.subrange(ip + 1, n)) {
                            Err(e) => Err(e),
                            Ok(right) => Ok(ExprSpec::Pow(Box::new(left), Box::new(right))),
                        },
                    }
                } else {
                    let ifac = last_top_level(t, n, OperatorClass::Factorial);
                    if 0 <= ifac < n {
                        if ifac != n - 1 {
                            Err("Invalid expression, operator missing"@)
                        } else {
                            match parse_spec(t.subrange(0, ifac)) {
                                Err(e) => Err(e),
                                Ok(left) => Ok(ExprSpec::Fac(Box::new(left))),
                            }
                        }
                    } else {
                        let ifn = first_top_level(t, 0, OperatorClass::Function);
                        if 0 <= ifn < n {
                            if ifn != 0 {
                                Err("Invalid expression, operator missing"@)
                            } else {
                                match parse_spec(t.subrange(1, n)) {
                                    Err(e) => Err(e),
                                    Ok(right) => if t[0]->Func_0 == "isqrt"@ {
                                        Ok(ExprSpec::Isqrt(Box::new(right)))
                                    } else {
                                        Err("Invalid function name "@ + t[0]->Func_0)
                                    },
                                }
                            }
                        } else if t[0] is LPar && t[n - 1] is RPar {
                            parse_spec(t.subrange(1, n - 1))
                        } else {
                            Err("No operations"@)
                        }
                    }
                }
            }
        }
    }
}

/// [`last_top_level`] is k when k qualifies and nothing after it below n does.
proof fn lemma_last_top_level_is(t: Seq<TokenSpec>, n: int, k: int, c: OperatorClass)
    requires
        0 <= k < n,
        top_level_at(t, k, c),
        forall|j: int| k < j < n ==> !#[trigger] top_level_at(t, j, c),
    ensures
        last_top_level(t, n, c) == k,
    decreases n,
{
    if n - 1 > k {
        lemma_last_top_level_is(t, n - 1, k, c);
    }
}

/// [`last_top_level`] is -1 when nothing below n qualifies.
proof fn lemma_last_top_level_none(t: Seq<TokenSpec>, n: int, c: OperatorClass)
    requires
        forall|j: int| 0 <= j < n ==> !#[trigger] top_level_at(t, j, c),
    ensures
        last_top_level(t, n, c) == -1,
    decreases n,
{
    if n > 0 {
        lemma_last_top_level_none(t, n - 1, c);
    }
}

/// [`first_top_level`] is k when k qualifies and nothing from `from` before it does.
proof fn lemma_first_top_level_is(t: Seq<TokenSpec>, from: int, k: int, c: OperatorClass)
    requires
        0 <= from <= k < t.len(),
        top_level_at(t, k, c),
        forall|j: int| from <= j < k ==> !#[trigger] top_level_at(t, j, c),
    ensures
        first_top_level(t, from, c) == k,
    decreases k - from,
{
    if from < k {
        lemma_first_top_level_is(t, from + 1, k, c);
    }
}

/// What [`first_top_level`] finds qualifies.
proof fn lemma_first_top_level_found(t: Seq<TokenSpec>, from: int, c: OperatorClass)
    requires
        0 <= from,
    ensures
        first_top_level(t, from, c) == -1 || (from <= first_top_level(t, from, c) < t.len()
            && top_level_at(t, first_top_level(t, from, c), c)),
    decreases t.len() - from,
{
    if from < t.len() && !top_level_at(t, from, c) {
        lemma_first_top_level_found(t, from + 1, c);
    }
}

/// [`first_top_level`] is -1 when nothing from `from` on qualifies.
proof fn lemma_first_top_level_none(t: Seq<TokenSpec>, from: int, c: OperatorClass)
    requires
        0 <= from,
        forall|j: int| from <= j < t.len() ==> !#[trigger] top_level_at(t, j, c),
    ensures
        first_top_level(t, from, c) == -1,
    decreases t.len() - from,
{
    if from < t.len() {
        lemma_first_top_level_none(t, from + 1, c);
    }
}


/// Depth changes by at most one per token.
proof fn lemma_depth_bounded(t: Seq<TokenSpec>, k: int)
    requires
        0 <= k,
    ensures
        -k <= depth_at(t, k) <= k,
    decreases k,
{
    if k > 0 {
        lemma_depth_bounded(t, k - 1);
    }
}

/// Whether a token belongs to an operator class.
fn in_class(t: &Token, c: OperatorClass) -> (r: bool)
    ensures
        r == of_class(t@, c),
{
    match c {
        OperatorClass::Additive => match t {
            Token::Add | Token::Sub => true,
            _ => false,
        },
        OperatorClass::Multiplicative => match t {
            Token::Mul | Token::Div | Token::Mod => true,
            _ => false,
        },
        OperatorClass::Power => match t {
            Token::Pow => true,
            _ => false,
        },
        OperatorClass::Factorial => match t {
            Token::Fac => true,
            _ => false,
        },
        OperatorClass::Function => match t {
            Token::Func(_) => true,
            _ => false,
        },
    }
}

/// Checks that the parentheses of tokens[lo..hi] balance: 0 when they do, 1 when
/// some prefix closes more than it opens, 2 when some stay open.
fn paren_balance(tokens: &Vec<Token>, lo: usize, hi: usize) -> (r: u8)
    requires
        lo <= hi <= tokens@.len(),
    ensures
        r == 1 <==> dips_below_zero(tokens_view(tokens@).subrange(lo as int, hi as int)),
        r == 2 <==> !dips_below_zero(tokens_view(tokens@).subrange(lo as int, hi as int))
            && depth_at(tokens_view(tokens@).subrange(lo as int, hi as int), hi - lo) != 0,
        r <= 2,
{
    let ghost t = tokens_view(tokens@).subrange(lo as int, hi as int);
    let mut depth: i128 = 0;
    let mut i: usize = lo;
    while i < hi
        invariant
            lo <= i <= hi <= tokens@.len(),
            t == tokens_view(tokens@).subrange(lo as int, hi as int),
            depth == depth_at(t, i - lo),
            forall|k: int| 0 < k <= i - lo ==> #[trigger] depth_at(t, k) >= 0,
        decreases hi - i,
    {
        proof {
            lemma_depth_bounded(t, i - lo);
            assert(t[i - lo] == tokens@[i as int]@);
        }
        match &tokens[i] {
            Token::LPar => {
                depth = depth + 1;
            },
            Token::RPar => {
                depth = depth - 1;
                if depth < 0 {
                    assert(depth_at(t, i + 1 - lo) < 0);
                    return 1;
                }
            },
            _ => {},
        }
        i = i + 1;
    }
    if depth != 0 {
        2
    } else {
        0
    }
}

/// The last position in tokens[lo..hi] holding a token of the class outside all
/// parentheses, scanning from the right; requires balanced parentheses.
fn find_last_top_level(tokens: &Vec<Token>, lo: usize, hi: usize, c: OperatorClass) -> (r: Option<usize>)
    requires
        lo <= hi <= tokens@.len(),
        depth_at(tokens_view(tokens@).subrange(lo as int, hi as int), hi - lo) == 0,
    ensures
        match r {
            Some(k) => lo <= k < hi && last_top_level(tokens_view(tokens@).subrange(lo as int, hi as int), hi - lo, c) == k - lo,
            None => last_top_level(tokens_view(tokens@).subrange(lo as int, hi as int), hi - lo, c) == -1,
        },
{
    let ghost t = tokens_view(tokens@).subrange(lo as int, hi as int);
    let mut depth: i128 = 0;
    let mut i: usize = hi;
    while i > lo
        invariant
            lo <= i <= hi <= tokens@.len(),
            t == tokens_view(tokens@).subrange(lo as int, hi as int),
            depth_at(t, hi - lo) == 0,
            depth == depth_at(t, hi - lo) - depth_at(t, i - lo),
            forall|j: int| i - lo <= j < hi - lo ==> !#[trigger] top_level_at(t, j, c),
        decreases i - lo,
    {
        i = i - 1;
        proof {
            lemma_depth_bounded(t, i - lo);
            lemma_depth_bounded(t, hi - lo);
            assert(t[i - lo] == tokens@[i as int]@);
            assert(depth_at(t, i + 1 - lo) == depth_at(t, i - lo) + paren_delta(t[i - lo]));
        }
        match &tokens[i] {
            Token::LPar => {
                depth = depth + 1;
            },
            Token::RPar => {
                depth = depth - 1;
            },
            tok => {
                if in_class(tok, c) && depth == 0 {
                    proof {
                        lemma_last_top_level_is(t, hi - lo, i - lo, c);
                    }
                    return Some(i);
                }
            },
        }
    }
    proof {
        lemma_last_top_level_none(t, hi - lo, c);
    }
    None
}

/// The first position in tokens[lo..hi] holding a token of the class outside all
/// parentheses, scanning from the left.
fn find_first_top_level(tokens: &Vec<Token>, lo: usize, hi: usize, c: OperatorClass) -> (r: Option<usize>)
    requires
        lo <= hi <= tokens@.len(),
    ensures
        match r {
            Some(k) => lo <= k < hi && first_top_level(tokens_view(tokens@).subrange(lo as int, hi as int), 0, c) == k - lo,
            None => first_top_level(tokens_view(tokens@).subrange(lo as int, hi as int), 0, c) == -1,
        },
{
    let ghost t = tokens_view(tokens@).subrange(lo as int, hi as int);
    let mut depth: i128 = 0;
    let mut i: usize = lo;
    while i < hi
        invariant
            lo <= i <= hi <= tokens@.len(),
            t == tokens_view(tokens@).subrange(lo as int, hi as int),
            depth == depth_at(t, i - lo),
            forall|j: int| 0 <= j < i - lo ==> !#[trigger] top_level_at(t, j, c),
        decreases hi - i,
    {
        proof {
            lemma_depth_bounded(t, i - lo);
            assert(t[i - lo] == tokens@[i as int]@);
        }
        match &tokens[i] {
            Token::LPar => {
                depth = depth + 1;
            },
            Token::RPar => {
                depth = depth - 1;
            },
            tok => {
                if in_class(tok, c) && depth == 0 {
                    proof {
                        lemma_first_top_level_is(t, 0, i - lo, c);
                    }
                    return Some(i);
                }
            },
        }
        i = i + 1;
    }
    proof {
        lemma_first_top_level_none(t, 0, c);
    }
    None
}


/// The two-operand expression of an operator token.
fn make_binary(op: &Token, l: Expression, r: Expression) -> (e: Expression)
    ensures
        expr_view(e) == binary_spec(op@, expr_view(l), expr_view(r)),
{
    match op {
        Token::Add => Expression::Add(Box::new(l), Box::new(r)),
        Token::Sub => Expression::Sub(Box::new(l), Box::new(r)),
        Token::Mul => Expression::Mul(Box::new(l), Box::new(r)),
        Token::Div => Expression::Div(Box::new(l), Box::new(r)),
        Token::Mod => Expression::Mod(Box::new(l), Box::new(r)),
        _ => Expression::Pow(Box::new(l), Box::new(r)),
    }
}

/// Parses tokens[lo..hi] (see [`parse_spec`]).
fn parse_slice(tokens: &Vec<Token>, lo: usize, hi: usize) -> (r: Result<Expression, String>)
    requires
        lo <= hi <= tokens@.len(),
    ensures
        parse_result_view(r) == parse_spec(tokens_view(tokens@).subrange(lo as int, hi as int)),
    decreases hi - lo, 3nat,
{
    let ghost t = tokens_view(tokens@).subrange(lo as int, hi as int);
    if hi == lo {
        return Err(String::from_str("Empty expression"));
    }
    if hi - lo == 1 {
        assert(t[0] == tokens@[lo as int]@);
        return match &tokens[lo] {
            Token::Num(num) => Ok(Expression::Num(num.clone())),
            _ => Err(String::from_str("Malformed")),
        };
    }
    let balance = paren_balance(tokens, lo, hi);
    if balance == 1 {
        return Err(String::from_str("Unmatched )"));
    }
    if balance == 2 {
        return Err(String::from_str("Unmatched ("));
    }
    parse_sum_or_product(tokens, lo, hi)
}

/// Parses balanced tokens[lo..hi], at least two of them, splitting at a top-level
/// `+`, `-`, `*`, `/` or `%` when there is one.
fn parse_sum_or_product(tokens: &Vec<Token>, lo: usize, hi: usize) -> (r: Result<Expression, String>)
    requires
        lo + 2 <= hi <= tokens@.len(),
        !dips_below_zero(tokens_view(tokens@).subrange(lo as int, hi as int)),
        depth_at(tokens_view(tokens@).subrange(lo as int, hi as int), hi - lo) == 0,
    ensures
        parse_result_view(r) == parse_spec(tokens_view(tokens@).subrange(lo as int, hi as int)),
    decreases hi - lo, 2nat,
{
    let ghost all = tokens_view(tokens@);
    let ghost t = all.subrange(lo as int, hi as int);
    let ghost n = (hi - lo) as int;
    match find_last_top_level(tokens, lo, hi, OperatorClass::Additive) {
        Some(i) => {
            assert(t.subrange(i + 1 - lo, n) =~= all.subrange(i + 1, hi as int));
            assert(t[i - lo] == tokens@[i as int]@);
            let right = match parse_slice(tokens, i + 1, hi) {
                Ok(e) => e,
                Err(m) => return Err(m),
            };
            if i == lo {
                return match &tokens[i] {
                    Token::Add => Ok(right),
                    _ => Ok(Expression::Neg(Box::new(right))),
                };
            }
            assert(t.subrange(0, i - lo) =~= all.subrange(lo as int, i as int));
            let left = match parse_slice(tokens, lo, i) {
                Ok(e) => e,
                Err(m) => return Err(m),
            };
            return Ok(make_binary(&tokens[i], left, right));
        },
        None => {},
    }
    match find_last_top_level(tokens, lo, hi, OperatorClass::Multiplicative) {
        Some(i) => {
            assert(t.subrange(i + 1 - lo, n) =~= all.subrange(i + 1, hi as int));
            assert(t.subrange(0, i - lo) =~= all.subrange(lo as int, i as int));
            assert(t[i - lo] == tokens@[i as int]@);
            let left = match parse_slice(tokens, lo, i) {
                Ok(e) => e,
                Err(m) => return Err(m),
            };
            let right = match parse_slice(tokens, i + 1, hi) {
                Ok(e) => e,
                Err(m) => return Err(m),
            };
            return Ok(make_binary(&tokens[i], left, right));
        },
        None => {},
    }
    parse_power_or_unary(tokens, lo, hi)
}

/// Parses balanced tokens[lo..hi], at least two of them, with no top-level `+`,
/// `-`, `*`, `/` or `%`: a power, a factorial, a function application or a
/// parenthesized expression.
fn parse_power_or_unary(tokens: &Vec<Token>, lo: usize, hi: usize) -> (r: Result<Expression, String>)
    requires
        lo + 2 <= hi <= tokens@.len(),
        !dips_below_zero(tokens_view(tokens@).subrange(lo as int, hi as int)),
        depth_at(tokens_view(tokens@).subrange(lo as int, hi as int), hi - lo) == 0,
        last_top_level(tokens_view(tokens@).subrange(lo as int, hi as int), hi - lo, OperatorClass::Additive) == -1,
        last_top_level(tokens_view(tokens@).subrange(lo as int, hi as int), hi - lo, OperatorClass::Multiplicative) == -1,
    ensures
        parse_result_view(r) == parse_spec(tokens_view(tokens@).subrange(lo as int, hi as int)),
    decreases hi - lo, 1nat,
{
    let ghost all = tokens_view(tokens@);
    let ghost t = all.subrange(lo as int, hi as int);
    let ghost n = (hi - lo) as int;
    match find_first_top_level(tokens, lo, hi, OperatorClass::Power) {
        Some(i) => {
            assert(t.subrange(i + 1 - lo, n) =~= all.subrange(i + 1, hi as int));
            assert(t.subrange(0, i - lo) =~= all.subrange(lo as int, i as int));
            let left = match parse_slice(tokens, lo, i) {
                Ok(e) => e,
                Err(m) => return Err(m),
            };
            let right = match parse_slice(tokens, i + 1, hi) {
                Ok(e) => e,
                Err(m) => return Err(m),
            };
            return Ok(Expression::Pow(Box::new(left), Box::new(right)));
        },
        None => {},
    }
    match find_last_top_level(tokens, lo, hi, OperatorClass::Factorial) {
        Some(i) => {
            if i != hi - 1 {
                return Err(String::from_str("Invalid expression, operator missing"));
            }
            assert(t.subrange(0, i - lo) =~= all.subrange(lo as int, i as int));
            let left = match parse_slice(tokens, lo, i) {
                Ok(e) => e,
                Err(m) => return Err(m),
            };
            return Ok(Expression::Fac(Box::new(left)));
        },
        None => {},
    }
    match find_first_top_level(tokens, lo, hi, OperatorClass::Function) {
        Some(i) => {
            if i != lo {
                return Err(String::from_str("Invalid expression, operator missing"));
            }
            proof {
                lemma_first_top_level_found(t, 0, OperatorClass::Function);
                assert(t[0] == tokens@[lo as int]@);
                assert(t.subrange(1, n) =~= all.subrange(lo + 1, hi as int));
            }
            return parse_function(tokens, lo, hi);
        },
        None => {},
    }
    assert(t[0] == tokens@[lo as int]@);
    assert(t[n - 1] == tokens@[hi - 1]@);
    let opens = match &tokens[lo] {
        Token::LPar => true,
        _ => false,
    };
    let closes = match &tokens[hi - 1] {
        Token::RPar => true,
        _ => false,
    };
    if opens && closes {
        assert(t.subrange(1, n - 1) =~= all.subrange(lo + 1, hi - 1));
        return parse_slice(tokens, lo + 1, hi - 1);
    }
    Err(String::from_str("No operations"))
}

/// Parses tokens[lo..hi] that start with a function name: the application of
/// `isqrt` to the rest.
fn parse_function(tokens: &Vec<Token>, lo: usize, hi: usize) -> (r: Result<Expression, String>)
    requires
        lo + 2 <= hi <= tokens@.len(),
        tokens@[lo as int]@ is Func,
    ensures
        parse_result_view(r) == match parse_spec(tokens_view(tokens@).subrange(lo + 1, hi as int)) {
            Err(e) => Err(e),
            Ok(right) => if tokens@[lo as int]@->Func_0 == "isqrt"@ {
                Ok(ExprSpec::Isqrt(Box::new(right)))
            } else {
                Err("Invalid function name "@ + tokens@[lo as int]@->Func_0)
            },
        },
    decreases hi - lo, 0nat,
{
    let right = match parse_slice(tokens, lo + 1, hi) {
        Ok(e) => e,
        Err(m) => return Err(m),
    };
    match &tokens[lo] {
        Token::Func(name) => {
            if *name == String::from_str("isqrt") {
                Ok(Expression::Isqrt(Box::new(right)))
            } else {
                Err(String::from_str("Invalid function name ").concat(name.as_str()))
            }
        },
        _ => Err(String::from_str("Invalid expression, operator missing")),
    }
}

/// Parses a token sequence into an expression (see [`parse_spec`]).
pub fn parse(tokens: &Vec<Token>) -> (r: Result<Expression, String>)
    ensures
        parse_result_view(r) == parse_spec(tokens_view(tokens@)),
{
    assert(tokens_view(tokens@).subrange(0, tokens@.len() as int) =~= tokens_view(tokens@));
    parse_slice(tokens, 0, tokens.len())
}

/// Without parentheses the depth is 0 everywhere.
proof fn lemma_depth_flat(t: Seq<TokenSpec>, k: int)
    requires
        forall|i: int| 0 <= i < t.len() ==> !(#[trigger] t[i] is LPar) && !(t[i] is RPar),
        k <= t.len(),
    ensures
        depth_at(t, k) == 0,
    decreases k,
{
    if k > 0 {
        lemma_depth_flat(t, k - 1);
    }
}

/// `op` is `+` or `-`.
pub open spec fn is_additive(op: TokenSpec) -> bool {
    op is Add || op is Sub
}

/// `op` is `*`, `/` or `%`.
pub open spec fn is_multiplicative(op: TokenSpec) -> bool {
    op is Mul || op is Div || op is Mod
}

/// `*`, `/` and `%` bind tighter than `+` and `-`, on either side: for numbers a,
/// b, c, "a + b % c" (and every such mix) parses as a + (b % c), and "a % b + c"
/// as (a % b) + c.
pub proof fn law_multiplicative_binds_tighter(a: Seq<char>, b: Seq<char>, c: Seq<char>, add: TokenSpec, mul: TokenSpec)
    requires
        is_additive(add),
        is_multiplicative(mul),
    ensures
        parse_spec(seq![TokenSpec::Num(a), add, TokenSpec::Num(b), mul, TokenSpec::Num(c)])
            == Ok::<ExprSpec, Seq<char>>(binary_spec(add, ExprSpec::Num(a), binary_spec(mul, ExprSpec::Num(b), ExprSpec::Num(c)))),
        parse_spec(seq![TokenSpec::Num(a), mul, TokenSpec::Num(b), add, TokenSpec::Num(c)])
            == Ok::<ExprSpec, Seq<char>>(binary_spec(add, binary_spec(mul, ExprSpec::Num(a), ExprSpec::Num(b)), ExprSpec::Num(c))),
{
    let t1 = seq![TokenSpec::Num(a), add, TokenSpec::Num(b), mul, TokenSpec::Num(c)];
    let t2 = seq![TokenSpec::Num(a), mul, TokenSpec::Num(b), add, TokenSpec::Num(c)];
    let na = seq![TokenSpec::Num(a)];
    let nc = seq![TokenSpec::Num(c)];
    let bmc = seq![TokenSpec::Num(b), mul, TokenSpec::Num(c)];
    let amb = seq![TokenSpec::Num(a), mul, TokenSpec::Num(b)];
    assert forall|k: int| 0 <= k <= 5 implies depth_at(t1, k) == 0 && depth_at(t2, k) == 0 by {
        lemma_depth_flat(t1, k);
        lemma_depth_flat(t2, k);
    }
    assert forall|k: int| 0 <= k <= 3 implies depth_at(bmc, k) == 0 && depth_at(amb, k) == 0 by {
        lemma_depth_flat(bmc, k);
        lemma_depth_flat(amb, k);
    }
    assert(!dips_below_zero(t1));
    assert(!dips_below_zero(t2));
    assert(!dips_below_zero(bmc));
    assert(!dips_below_zero(amb));
    // "a add b mul c": the last top-level additive operator is at 1.
    assert(top_level_at(t1, 1, OperatorClass::Additive));
    assert forall|j: int| 1 < j < 5 implies !#[trigger] top_level_at(t1, j, OperatorClass::Additive) by {}
    lemma_last_top_level_is(t1, 5, 1, OperatorClass::Additive);
    assert(t1.subrange(2, 5) =~= bmc);
    assert(t1.subrange(0, 1) =~= na);
    assert forall|j: int| 0 <= j < 3 implies !#[trigger] top_level_at(bmc, j, OperatorClass::Additive) by {}
    lemma_last_top_level_none(bmc, 3, OperatorClass::Additive);
    assert(top_level_at(bmc, 1, OperatorClass::Multiplicative));
    assert forall|j: int| 1 < j < 3 implies !#[trigger] top_level_at(bmc, j, OperatorClass::Multiplicative) by {}
    lemma_last_top_level_is(bmc, 3, 1, OperatorClass::Multiplicative);
    assert(bmc.subrange(0, 1) =~= seq![TokenSpec::Num(b)]);
    assert(bmc.subrange(2, 3) =~= nc);
    // "a mul b add c": the last top-level additive operator is at 3.
    assert(top_level_at(t2, 3, OperatorClass::Additive));
    assert forall|j: int| 3 < j < 5 implies !#[trigger] top_level_at(t2, j, OperatorClass::Additive) by {}
    lemma_last_top_level_is(t2, 5, 3, OperatorClass::Additive);
    assert(t2.subrange(4, 5) =~= nc);
    assert(t2.subrange(0, 3) =~= amb);
    assert forall|j: int| 0 <= j < 3 implies !#[trigger] top_level_at(amb, j, OperatorClass::Additive) by {}
    lemma_last_top_level_none(amb, 3, OperatorClass::Additive);
    assert(top_level_at(amb, 1, OperatorClass::Multiplicative));
    assert forall|j: int| 1 < j < 3 implies !#[trigger] top_level_at(amb, j, OperatorClass::Multiplicative) by {}
    lemma_last_top_level_is(amb, 3, 1, OperatorClass::Multiplicative);
    assert(amb.subrange(0, 1) =~= na);
    assert(amb.subrange(2, 3) =~= seq![TokenSpec::Num(b)]);
    let nb = seq![TokenSpec::Num(b)];
    assert(parse_spec(na) == Ok::<ExprSpec, Seq<char>>(ExprSpec::Num(a)));
    assert(parse_spec(nb) == Ok::<ExprSpec, Seq<char>>(ExprSpec::Num(b)));
    assert(parse_spec(nc) == Ok::<ExprSpec, Seq<char>>(ExprSpec::Num(c)));
    assert(depth_at(bmc, 3) == 0 && depth_at(amb, 3) == 0 && depth_at(t1, 5) == 0 && depth_at(t2, 5) == 0);
    assert(parse_spec(bmc) == Ok::<ExprSpec, Seq<char>>(binary_spec(mul, ExprSpec::Num(b), ExprSpec::Num(c))));
    assert(parse_spec(amb) == Ok::<ExprSpec, Seq<char>>(binary_spec(mul, ExprSpec::Num(a), ExprSpec::Num(b))));
    assert(parse_spec(t1) == Ok::<ExprSpec, Seq<char>>(binary_spec(add, ExprSpec::Num(a), binary_spec(mul, ExprSpec::Num(b), ExprSpec::Num(c)))));
}

/// In a sequence without parentheses, a token is at top level exactly when it is
/// of the class.
proof fn lemma_flat_top_level(t: Seq<TokenSpec>, k: int, c: OperatorClass)
    requires
        forall|i: int| 0 <= i < t.len() ==> !(#[trigger] t[i] is LPar) && !(t[i] is RPar),
        0 <= k < t.len(),
    ensures
        top_level_at(t, k, c) == of_class(t[k], c),
{
    lemma_depth_flat(t, k);
}

/// Three flat tokens "a op b", for a binary operator op.
proof fn lemma_parse_binary(a: Seq<char>, op: TokenSpec, b: Seq<char>)
    requires
        is_additive(op) || is_multiplicative(op) || op is Pow,
    ensures
        parse_spec(seq![TokenSpec::Num(a), op, TokenSpec::Num(b)])
            == Ok::<ExprSpec, Seq<char>>(binary_spec(op, ExprSpec::Num(a), ExprSpec::Num(b))),
{
    let t = seq![TokenSpec::Num(a), op, TokenSpec::Num(b)];
    assert forall|k: int, c: OperatorClass| 0 <= k < 3 implies #[trigger] top_level_at(t, k, c) == of_class(t[k], c) by {
        lemma_flat_top_level(t, k, c);
    }
    assert forall|k: int| 0 <= k <= 3 implies depth_at(t, k) == 0 by {
        lemma_depth_flat(t, k);
    }
    assert(!dips_below_zero(t));
    assert(t.subrange(0, 1) =~= seq![TokenSpec::Num(a)]);
    assert(t.subrange(2, 3) =~= seq![TokenSpec::Num(b)]);
    assert(parse_spec(seq![TokenSpec::Num(a)]) == Ok::<ExprSpec, Seq<char>>(ExprSpec::Num(a)));
    assert(parse_spec(seq![TokenSpec::Num(b)]) == Ok::<ExprSpec, Seq<char>>(ExprSpec::Num(b)));
    if is_additive(op) {
        lemma_last_top_level_is(t, 3, 1, OperatorClass::Additive);
    } else if is_multiplicative(op) {
        lemma_last_top_level_none(t, 3, OperatorClass::Additive);
        lemma_last_top_level_is(t, 3, 1, OperatorClass::Multiplicative);
    } else {
        lemma_last_top_level_none(t, 3, OperatorClass::Additive);
        lemma_last_top_level_none(t, 3, OperatorClass::Multiplicative);
        lemma_first_top_level_is(t, 0, 1, OperatorClass::Power);
    }
}

/// Operators of one level associate to the left: for numbers a, b, c and two
/// operators both among `+ -` or both among `* / %`, "a op1 b op2 c" parses as
/// (a op1 b) op2 c; so "10 - 2 - 3" is 5 and "8 / 4 / 2" is 1.
pub proof fn law_same_level_associates_left(a: Seq<char>, b: Seq<char>, c: Seq<char>, op1: TokenSpec, op2: TokenSpec)
    requires
        (is_additive(op1) && is_additive(op2)) || (is_multiplicative(op1) && is_multiplicative(op2)),
    ensures
        parse_spec(seq![TokenSpec::Num(a), op1, TokenSpec::Num(b), op2, TokenSpec::Num(c)])
            == Ok::<ExprSpec, Seq<char>>(binary_spec(op2, binary_spec(op1, ExprSpec::Num(a), ExprSpec::Num(b)), ExprSpec::Num(c))),
{
    let t = seq![TokenSpec::Num(a), op1, TokenSpec::Num(b), op2, TokenSpec::Num(c)];
    assert forall|k: int, cl: OperatorClass| 0 <= k < 5 implies #[trigger] top_level_at(t, k, cl) == of_class(t[k], cl) by {
        lemma_flat_top_level(t, k, cl);
    }
    assert forall|k: int| 0 <= k <= 5 implies depth_at(t, k) == 0 by {
        lemma_depth_flat(t, k);
    }
    assert(!dips_below_zero(t));
    lemma_parse_binary(a, op1, b);
    assert(t.subrange(0, 3) =~= seq![TokenSpec::Num(a), op1, TokenSpec::Num(b)]);
    assert(t.subrange(4, 5) =~= seq![TokenSpec::Num(c)]);
    assert(parse_spec(seq![TokenSpec::Num(c)]) == Ok::<ExprSpec, Seq<char>>(ExprSpec::Num(c)));
    if is_additive(op1) {
        lemma_last_top_level_is(t, 5, 3, OperatorClass::Additive);
    } else {
        lemma_last_top_level_none(t, 5, OperatorClass::Additive);
        lemma_last_top_level_is(t, 5, 3, OperatorClass::Multiplicative);
    }
}

/// `^` binds tighter than `* / %` and associates to the right: "a ^ b ^ c" parses
/// as a ^ (b ^ c), "a op b ^ c" as a op (b ^ c) and "a ^ b op c" as (a ^ b) op c.
pub proof fn law_power_binds_tightest(a: Seq<char>, b: Seq<char>, c: Seq<char>, op: TokenSpec)
    requires
        is_multiplicative(op),
    ensures
        parse_spec(seq![TokenSpec::Num(a), TokenSpec::Pow, TokenSpec::Num(b), TokenSpec::Pow, TokenSpec::Num(c)])
            == Ok::<ExprSpec, Seq<char>>(ExprSpec::Pow(Box::new(ExprSpec::Num(a)), Box::new(
                ExprSpec::Pow(Box::new(ExprSpec::Num(b)), Box::new(ExprSpec::Num(c))),
            ))),
        parse_spec(seq![TokenSpec::Num(a), op, TokenSpec::Num(b), TokenSpec::Pow, TokenSpec::Num(c)])
            == Ok::<ExprSpec, Seq<char>>(binary_spec(op, ExprSpec::Num(a), binary_spec(TokenSpec::Pow, ExprSpec::Num(b), ExprSpec::Num(c)))),
        parse_spec(seq![TokenSpec::Num(a), TokenSpec::Pow, TokenSpec::Num(b), op, TokenSpec::Num(c)])
            == Ok::<ExprSpec, Seq<char>>(binary_spec(op, binary_spec(TokenSpec::Pow, ExprSpec::Num(a), ExprSpec::Num(b)), ExprSpec::Num(c))),
{
    let na = seq![TokenSpec::Num(a)];
    let nc = seq![TokenSpec::Num(c)];
    assert(parse_spec(na) == Ok::<ExprSpec, Seq<char>>(ExprSpec::Num(a)));
    assert(parse_spec(nc) == Ok::<ExprSpec, Seq<char>>(ExprSpec::Num(c)));
    lemma_parse_binary(b, TokenSpec::Pow, c);
    lemma_parse_binary(a, TokenSpec::Pow, b);
    let t1 = seq![TokenSpec::Num(a), TokenSpec::Pow, TokenSpec::Num(b), TokenSpec::Pow, TokenSpec::Num(c)];
    let t2 = seq![TokenSpec::Num(a), op, TokenSpec::Num(b), TokenSpec::Pow, TokenSpec::Num(c)];
    let t3 = seq![TokenSpec::Num(a), TokenSpec::Pow, TokenSpec::Num(b), op, TokenSpec::Num(c)];
    assert forall|k: int, cl: OperatorClass| 0 <= k < 5 implies #[trigger] top_level_at(t1, k, cl) == of_class(t1[k], cl)
        && top_level_at(t2, k, cl) == of_class(t2[k], cl) && top_level_at(t3, k, cl) == of_class(t3[k], cl) by {
        lemma_flat_top_level(t1, k, cl);
        lemma_flat_top_level(t2, k, cl);
        lemma_flat_top_level(t3, k, cl);
    }
    assert forall|k: int| 0 <= k <= 5 implies depth_at(t1, k) == 0 && depth_at(t2, k) == 0 && depth_at(t3, k) == 0 by {
        lemma_depth_flat(t1, k);
        lemma_depth_flat(t2, k);
        lemma_depth_flat(t3, k);
    }
    assert(!dips_below_zero(t1));
    assert(!dips_below_zero(t2));
    assert(!dips_below_zero(t3));
    assert(t1.subrange(0, 1) =~= na && t2.subrange(0, 1) =~= na);
    assert(t1.subrange(2, 5) =~= seq![TokenSpec::Num(b), TokenSpec::Pow, TokenSpec::Num(c)]);
    assert(t2.subrange(2, 5) =~= seq![TokenSpec::Num(b), TokenSpec::Pow, TokenSpec::Num(c)]);
    assert(t3.subrange(0, 3) =~= seq![TokenSpec::Num(a), TokenSpec::Pow, TokenSpec::Num(b)]);
    assert(t3.subrange(4, 5) =~= nc);
    lemma_last_top_level_none(t1, 5, OperatorClass::Additive);
    lemma_last_top_level_none(t1, 5, OperatorClass::Multiplicative);
    lemma_first_top_level_is(t1, 0, 1, OperatorClass::Power);
    lemma_last_top_level_none(t2, 5, OperatorClass::Additive);
    lemma_last_top_level_is(t2, 5, 1, OperatorClass::Multiplicative);
    lemma_last_top_level_none(t3, 5, OperatorClass::Additive);
    lemma_last_top_level_is(t3, 5, 3, OperatorClass::Multiplicative);
}

/// A leading minus negates everything after it: "- a ^ b" parses as -(a ^ b), so
/// "-2^2" is -4, and "- a op b" for op among `* / %` as -(a op b).
pub proof fn law_leading_minus_negates_the_rest(a: Seq<char>, b: Seq<char>, op: TokenSpec)
    requires
        is_multiplicative(op) || op is Pow,
    ensures
        parse_spec(seq![TokenSpec::Sub, TokenSpec::Num(a), op, TokenSpec::Num(b)])
            == Ok::<ExprSpec, Seq<char>>(ExprSpec::Neg(Box::new(binary_spec(op, ExprSpec::Num(a), ExprSpec::Num(b))))),
{
    let t = seq![TokenSpec::Sub, TokenSpec::Num(a), op, TokenSpec::Num(b)];
    assert forall|k: int, cl: OperatorClass| 0 <= k < 4 implies #[trigger] top_level_at(t, k, cl) == of_class(t[k], cl) by {
        lemma_flat_top_level(t, k, cl);
    }
    assert forall|k: int| 0 <= k <= 4 implies depth_at(t, k) == 0 by {
        lemma_depth_flat(t, k);
    }
    assert(!dips_below_zero(t));
    lemma_last_top_level_is(t, 4, 0, OperatorClass::Additive);
    assert(t.subrange(1, 4) =~= seq![TokenSpec::Num(a), op, TokenSpec::Num(b)]);
    lemma_parse_binary(a, op, b);
}

/// So "a + b % c" evaluates to a + (b rem c), rounded towards zero, for integer
/// literals a, b, c with c's value not 0.
pub proof fn law_sum_of_remainder(a: Seq<char>, b: Seq<char>, c: Seq<char>, refuses: spec_fn(int, int) -> bool)
    requires
        is_integer_literal(a),
        is_integer_literal(b),
        is_integer_literal(c),
        integer_literal_value(c) != 0,
    ensures
        parse_spec(seq![TokenSpec::Num(a), TokenSpec::Add, TokenSpec::Num(b), TokenSpec::Mod, TokenSpec::Num(c)])
            matches Ok(e) && eval_spec(e, refuses) == Evaluation::Value(
                integer_literal_value(a) + trunc_rem(integer_literal_value(b), integer_literal_value(c)),
            ),
{
    law_multiplicative_binds_tighter(a, b, c, TokenSpec::Add, TokenSpec::Mod);
    let (va, vb, vc) = (integer_literal_value(a), integer_literal_value(b), integer_literal_value(c));
    let rem = binary_spec(TokenSpec::Mod, ExprSpec::Num(b), ExprSpec::Num(c));
    assert(eval_spec(ExprSpec::Num(a), refuses) == Evaluation::Value(va));
    assert(eval_spec(ExprSpec::Num(b), refuses) == Evaluation::Value(vb));
    assert(eval_spec(ExprSpec::Num(c), refuses) == Evaluation::Value(vc));
    assert(eval_spec(rem, refuses) == Evaluation::Value(trunc_rem(vb, vc)));
    assert(eval_spec(binary_spec(TokenSpec::Add, ExprSpec::Num(a), rem), refuses) == Evaluation::Value(va + trunc_rem(vb, vc)));
}

/// Inside a pair of enclosing parentheses the depth is one more than in `t`.
proof fn lemma_depth_wrapped(t: Seq<TokenSpec>, k: int)
    requires
        1 <= k <= t.len() + 1,
    ensures
        depth_at(seq![TokenSpec::LPar] + t + seq![TokenSpec::RPar], k) == 1 + depth_at(t, k - 1),
    decreases k,
{
    let w = seq![TokenSpec::LPar] + t + seq![TokenSpec::RPar];
    if k == 1 {
        assert(w[0] == TokenSpec::LPar);
        assert(depth_at(w, 0) == 0);
        assert(depth_at(t, 0) == 0);
    } else {
        lemma_depth_wrapped(t, k - 1);
        assert(w[k - 1] == t[k - 2]);
    }
}

/// Redundant parentheses change nothing: when `t` balances its parentheses (no
/// prefix closes more than it opens, and all are closed), `(t)` parses as `t`
/// does, to the same expression or the same error.
pub proof fn law_parentheses_are_transparent(t: Seq<TokenSpec>)
    requires
        !dips_below_zero(t),
        depth_at(t, t.len() as int) == 0,
    ensures
        parse_spec(seq![TokenSpec::LPar] + t + seq![TokenSpec::RPar]) == parse_spec(t),
{
    let w = seq![TokenSpec::LPar] + t + seq![TokenSpec::RPar];
    let n = w.len() as int;
    assert(n == t.len() + 2);
    assert forall|k: int| 1 <= k < n implies #[trigger] depth_at(w, k) >= 1 by {
        lemma_depth_wrapped(t, k);
        if k - 1 > 0 {
            assert(!(depth_at(t, k - 1) < 0));
        }
    }
    assert(depth_at(w, n) == 0) by {
        lemma_depth_wrapped(t, n - 1);
        assert(w[n - 1] == TokenSpec::RPar);
    }
    assert(!dips_below_zero(w)) by {
        assert forall|k: int| 0 < k <= n implies !(#[trigger] depth_at(w, k) < 0) by {
            if k < n {
                assert(depth_at(w, k) >= 1);
            }
        }
    }
    assert forall|k: int, c: OperatorClass| 0 <= k < n implies !#[trigger] top_level_at(w, k, c) by {
        if k == 0 {
            assert(w[0] == TokenSpec::LPar);
        } else {
            assert(depth_at(w, k) >= 1);
        }
    }
    lemma_last_top_level_none(w, n, OperatorClass::Additive);
    lemma_last_top_level_none(w, n, OperatorClass::Multiplicative);
    lemma_first_top_level_none(w, 0, OperatorClass::Power);
    lemma_last_top_level_none(w, n, OperatorClass::Factorial);
    lemma_first_top_level_none(w, 0, OperatorClass::Function);
    assert(w[0] is LPar && w[n - 1] is RPar);
    assert(w.subrange(1, n - 1) =~= t);
}


// ---------------------------------------------------------------------------
// Evaluation.
// ---------------------------------------------------------------------------

/// The outcome of evaluating an expression: a value, an error message, or an
/// abort (a panic in `malachite`, which the evaluator's callers must rule out).
pub enum Evaluation {
    Value(int),
    Failure(Seq<char>),
    Abort,
}

/// The message for a power whose result would exceed 2^100000.
pub open spec fn too_large_power_message() -> Seq<char> {
    "Exponentiation result is too large (>= 2^100000)"@
}

/// A binary operation on two evaluated operands: the left operand's failure
/// first, then the right one's, then `f`.
pub open spec fn after_operands(l: Evaluation, r: Evaluation, f: spec_fn(int, int) -> Evaluation) -> Evaluation {
    match l {
        Evaluation::Value(a) => match r {
            Evaluation::Value(b) => f(a, b),
            other => other,
        },
        other => other,
    }
}

/// A unary operation on an evaluated operand.
pub open spec fn after_operand(x: Evaluation, f: spec_fn(int) -> Evaluation) -> Evaluation {
    match x {
        Evaluation::Value(a) => f(a),
        other => other,
    }
}

/// base^exp: 1^e = 1, (-1)^e by parity, negative exponents and exponents of
/// 100000 or more refused; a zero base or exponent (otherwise) aborts, as
/// `malachite`'s logarithm used for the size estimate panics on 0.
pub open spec fn power_outcome(base: int, exp: int) -> Evaluation {
    if base == 1 {
        Evaluation::Value(1)
    } else if base == -1 {
        Evaluation::Value(if exp % 2 == 0 { 1 } else { -1 })
    } else if exp < 0 {
        Evaluation::Failure("Exponent is negative but |base| > 1"@)
    } else if exp >= 100000 {
        Evaluation::Failure(too_large_power_message())
    } else if base == 0 || exp == 0 {
        Evaluation::Abort
    } else {
        Evaluation::Value(pow(base, exp as nat))
    }
}

/// The value of an expression over the integers, with division and remainder
/// rounded towards zero. Powers are taken as in [`power_decision`], where
/// `refuses(base, exp)` is the size estimate's verdict on that power.
pub open spec fn eval_spec(e: ExprSpec, refuses: spec_fn(int, int) -> bool) -> Evaluation
    decreases e,
{
    match e {
        ExprSpec::Num(s) => if is_integer_literal(s) {
            Evaluation::Value(integer_literal_value(s))
        } else {
            Evaluation::Failure("Number literal can't be converted to an integer"@)
        },
        ExprSpec::Add(l, r) => after_operands(eval_spec(*l, refuses), eval_spec(*r, refuses), |a: int, b: int| Evaluation::Value(a + b)),
        ExprSpec::Neg(x) => after_operand(eval_spec(*x, refuses), |a: int| Evaluation::Value(-a)),
        ExprSpec::Sub(l, r) => after_operands(eval_spec(*l, refuses), eval_spec(*r, refuses), |a: int, b: int| Evaluation::Value(a - b)),
        ExprSpec::Mul(l, r) => after_operands(eval_spec(*l, refuses), eval_spec(*r, refuses), |a: int, b: int| Evaluation::Value(a * b)),
        ExprSpec::Div(l, r) => after_operands(eval_spec(*l, refuses), eval_spec(*r, refuses), |a: int, b: int|
            if b == 0 { Evaluation::Failure("Division by 0"@) } else { Evaluation::Value(trunc_div(a, b)) }),
        ExprSpec::Mod(l, r) => after_operands(eval_spec(*l, refuses), eval_spec(*r, refuses), |a: int, b: int|
            if b == 0 { Evaluation::Failure("Modulo by 0"@) } else { Evaluation::Value(trunc_rem(a, b)) }),
        ExprSpec::Pow(l, r) => after_operands(eval_spec(*l, refuses), eval_spec(*r, refuses), |a: int, b: int| power_decision(a, b, refuses(a, b))),
        ExprSpec::Fac(x) => after_operand(eval_spec(*x, refuses), |a: int|
            if a < 0 {
                Evaluation::Failure("factorial of a negative number"@)
            } else if a >= 8600 {
                Evaluation::Failure("factorial result is too large (>= 2^100000"@)
            } else {
                Evaluation::Value(factorial_spec(a as nat) as int)
            }),
        ExprSpec::Isqrt(x) => after_operand(eval_spec(*x, refuses), |a: int|
            if a < 0 {
                Evaluation::Failure("isqrt of negative"@)
            } else {
                Evaluation::Value(isqrt_spec(a as nat) as int)
            }),
    }
}

/// The abstract form of an evaluation result (`None` for an abort).
pub open spec fn evaluation_view(r: Option<Result<BigInt, String>>) -> Evaluation {
    match r {
        Some(Ok(v)) => Evaluation::Value(v@),
        Some(Err(m)) => Evaluation::Failure(m@),
        None => Evaluation::Abort,
    }
}

/// What the evaluator needs of the size estimate: it accepts every base other
/// than 0, 1 and -1 with an exponent in 1..100000, and its verdict depends on the
/// values of base and exponent alone.
pub open spec fn estimate_callable<F: Fn(&BigInt, &BigInt) -> bool>(too_large: F) -> bool {
    &&& forall|b: BigInt, x: BigInt| b@ != 0 && b@ != 1 && b@ != -1 && 0 < x@ < 100000 ==> #[trigger] too_large.requires((&b, &x))
    &&& forall|b1: BigInt, x1: BigInt, b2: BigInt, x2: BigInt, r1: bool, r2: bool|
        #![trigger too_large.ensures((&b1, &x1), r1), too_large.ensures((&b2, &x2), r2)]
        b1@ == b2@ && x1@ == x2@ && too_large.ensures((&b1, &x1), r1) && too_large.ensures((&b2, &x2), r2) ==> r1 == r2
}

/// The size estimate refuses base^exp.
pub open spec fn refused_by<F: Fn(&BigInt, &BigInt) -> bool>(too_large: F, base: int, exp: int) -> bool {
    exists|b: BigInt, x: BigInt| b@ == base && x@ == exp && #[trigger] too_large.ensures((&b, &x), true)
}

/// The size estimate's verdicts, as a relation on base and exponent.
pub open spec fn refusals<F: Fn(&BigInt, &BigInt) -> bool>(too_large: F) -> spec_fn(int, int) -> bool {
    |base: int, exp: int| refused_by(too_large, base, exp)
}

/// What a power gives once the size estimate has answered `refused` for it: the
/// exact checks of [`power_outcome`] first, then the too-large failure when the
/// estimate refused, else the power.
pub open spec fn power_decision(base: int, exp: int, refused: bool) -> Evaluation {
    match power_outcome(base, exp) {
        Evaluation::Value(v) => if base != 1 && base != -1 && refused {
            Evaluation::Failure(too_large_power_message())
        } else {
            Evaluation::Value(v)
        },
        other => other,
    }
}

/// Below the limit, powers are exact: for a base other than 0, 1 and -1 and an
/// exponent 0 < exp < 100000 that the size estimate does not refuse, the power is
/// base^exp.
pub proof fn law_power_is_exact_below_the_limit(base: int, exp: int, refused: bool)
    requires
        base != 0 && base != 1 && base != -1,
        0 < exp < 100000,
        !refused,
    ensures
        power_decision(base, exp, refused) == Evaluation::Value(pow(base, exp as nat)),
{
}

/// A power is refused as too large only when its exponent is at least 100000 or
/// when the size estimate refused it; powers of 1 and -1 are never refused.
pub proof fn law_too_large_only_past_the_limit(base: int, exp: int, refused: bool)
    ensures
        power_decision(base, exp, refused) == Evaluation::Failure(too_large_power_message())
            ==> base != 1 && base != -1 && (exp >= 100000 || (refused && 0 < exp)),
        base == 1 ==> power_decision(base, exp, refused) == Evaluation::Value(1),
        base == -1 ==> power_decision(base, exp, refused) == Evaluation::Value(if exp % 2 == 0 { 1 } else { -1 }),
{
    reveal_strlit("Exponentiation result is too large (>= 2^100000)");
    reveal_strlit("Exponent is negative but |base| > 1");
    assert("Exponent is negative but |base| > 1"@.len() != too_large_power_message().len());
}

/// A power expression whose operands evaluate to a base other than 0, 1 and -1 and
/// an exponent 0 < exp < 100000 that the estimate does not refuse evaluates to
/// base^exp.
pub proof fn law_power_expression_is_exact(l: ExprSpec, r: ExprSpec, refuses: spec_fn(int, int) -> bool)
    requires
        eval_spec(l, refuses) matches Evaluation::Value(b) && b != 0 && b != 1 && b != -1,
        eval_spec(r, refuses) matches Evaluation::Value(e) && 0 < e < 100000,
        !refuses(eval_spec(l, refuses)->Value_0, eval_spec(r, refuses)->Value_0),
    ensures
        eval_spec(ExprSpec::Pow(Box::new(l), Box::new(r)), refuses)
            == Evaluation::Value(pow(eval_spec(l, refuses)->Value_0, eval_spec(r, refuses)->Value_0 as nat)),
{
    law_power_is_exact_below_the_limit(eval_spec(l, refuses)->Value_0, eval_spec(r, refuses)->Value_0, false);
}

/// base^exp with the checks of [`power_outcome`], given the size estimate's
/// verdict `refused` on it (the estimate is consulted only for a base other than
/// 0, 1 and -1 and an exponent in 1..100000, which is where it is required).
pub fn power_with_estimate(base: BigInt, exp: BigInt, refused: bool) -> (r: Result<BigInt, String>)
    requires
        !(power_outcome(base@, exp@) is Abort),
    ensures
        evaluation_view(Some(r)) == power_decision(base@, exp@, refused),
{
    if base.equals_i64(1) {
        return Ok(BigInt::from_i64(1));
    }
    if base.equals_i64(-1) {
        let e = even(&exp.unsigned_abs());
        proof {
            if exp@ < 0 {
                assert((-exp@) % 2 == 0 <==> exp@ % 2 == 0) by {
                    vstd::arithmetic::div_mod::lemma_fundamental_div_mod(exp@, 2);
                    vstd::arithmetic::div_mod::lemma_fundamental_div_mod(-exp@, 2);
                }
            }
        }
        return Ok(BigInt::from_i64(if e { 1 } else { -1 }));
    }
    if exp.is_negative() {
        return Err(String::from_str("Exponent is negative but |base| > 1"));
    }
    let magnitude = exp.unsigned_abs();
    if !lt_u64(&magnitude, 100000) {
        return Err(String::from_str("Exponentiation result is too large (>= 2^100000)"));
    }
    if refused {
        return Err(String::from_str("Exponentiation result is too large (>= 2^100000)"));
    }
    Ok(int_pow(&base, saturating_to_u64(&magnitude)))
}

/// base^exp with the checks of [`power_outcome`], consulting the size estimate
/// `too_large` where it is required; `None` where the estimate would panic (a zero
/// base or exponent).
fn power<F: Fn(&BigInt, &BigInt) -> bool>(base: BigInt, exp: BigInt, too_large: &F) -> (r: Option<Result<BigInt, String>>)
    requires
        estimate_callable(*too_large),
    ensures
        evaluation_view(r) == power_decision(base@, exp@, refused_by(*too_large, base@, exp@)),
{
    let outcome_is_abort = !base.equals_i64(1) && !base.equals_i64(-1) && !exp.is_negative()
        && lt_u64(&exp.unsigned_abs(), 100000) && (base.equals_i64(0) || exp.equals_i64(0));
    if outcome_is_abort {
        return None;
    }
    let consult = !base.equals_i64(1) && !base.equals_i64(-1) && !exp.is_negative()
        && lt_u64(&exp.unsigned_abs(), 100000);
    let refused = if consult { too_large(&base, &exp) } else { false };
    proof {
        if consult {
            assert(too_large.ensures((&base, &exp), refused));
            if refused {
                assert(too_large.ensures((&base, &exp), true));
            } else if refused_by(*too_large, base@, exp@) {
                let (b, x) = choose|b: BigInt, x: BigInt| b@ == base@ && x@ == exp@ && #[trigger] too_large.ensures((&b, &x), true);
                assert(too_large.ensures((&b, &x), true));
            }
        }
    }
    Some(power_with_estimate(base, exp, refused))
}

/// Evaluates an expression (see [`eval_spec`]); `None` where `malachite` would panic.
fn evaluate_outcome<F: Fn(&BigInt, &BigInt) -> bool>(expression: &Expression, too_large: &F) -> (r: Option<Result<BigInt, String>>)
    requires
        estimate_callable(*too_large),
    ensures
        evaluation_view(r) == eval_spec(expr_view(*expression), refusals(*too_large)),
    decreases expression,
{
    match expression {
        Expression::Num(s) => match parse_integer(s.as_str()) {
            Some(v) => Some(Ok(v)),
            None => Some(Err(String::from_str("Number literal can't be converted to an integer"))),
        },
        Expression::Add(l, r) => {
            let a = match evaluate_outcome(l, too_large) { Some(Ok(v)) => v, other => return other };
            let b = match evaluate_outcome(r, too_large) { Some(Ok(v)) => v, other => return other };
            Some(Ok(int_add(&a, &b)))
        },
        Expression::Neg(x) => {
            let a = match evaluate_outcome(x, too_large) { Some(Ok(v)) => v, other => return other };
            Some(Ok(a.neg()))
        },
        Expression::Sub(l, r) => {
            let a = match evaluate_outcome(l, too_large) { Some(Ok(v)) => v, other => return other };
            let b = match evaluate_outcome(r, too_large) { Some(Ok(v)) => v, other => return other };
            Some(Ok(int_sub(&a, &b)))
        },
        Expression::Mul(l, r) => {
            let a = match evaluate_outcome(l, too_large) { Some(Ok(v)) => v, other => return other };
            let b = match evaluate_outcome(r, too_large) { Some(Ok(v)) => v, other => return other };
            Some(Ok(int_mul(&a, &b)))
        },
        Expression::Div(l, r) => {
            let num = match evaluate_outcome(l, too_large) { Some(Ok(v)) => v, other => return other };
            let den = match evaluate_outcome(r, too_large) { Some(Ok(v)) => v, other => return other };
            if den.equals_i64(0) {
                return Some(Err(String::from_str("Division by 0")));
            }
            Some(Ok(int_div(&num, &den)))
        },
        Expression::Mod(l, r) => {
            let num = match evaluate_outcome(l, too_large) { Some(Ok(v)) => v, other => return other };
            let den = match evaluate_outcome(r, too_large) { Some(Ok(v)) => v, other => return other };
            if den.equals_i64(0) {
                return Some(Err(String::from_str("Modulo by 0")));
            }
            Some(Ok(int_rem(&num, &den)))
        },
        Expression::Pow(l, r) => {
            let base = match evaluate_outcome(l, too_large) { Some(Ok(v)) => v, other => return other };
            let exp = match evaluate_outcome(r, too_large) { Some(Ok(v)) => v, other => return other };
            power(base, exp, too_large)
        },
        Expression::Fac(x) => {
            let operand = match evaluate_outcome(x, too_large) { Some(Ok(v)) => v, other => return other };
            if operand.is_negative() {
                return Some(Err(String::from_str("factorial of a negative number")));
            }
            let magnitude = operand.unsigned_abs();
            if !lt_u64(&magnitude, 8600) {
                return Some(Err(String::from_str("factorial result is too large (>= 2^100000")));
            }
            Some(Ok(BigInt::from_natural(natural_factorial(saturating_to_u64(&magnitude)))))
        },
        Expression::Isqrt(x) => {
            let operand = match evaluate_outcome(x, too_large) { Some(Ok(v)) => v, other => return other };
            if operand.is_negative() {
                return Some(Err(String::from_str("isqrt of negative")));
            }
            let root = int_floor_sqrt(&operand);
            proof {
                lemma_isqrt_unique(operand@ as nat, root@ as nat);
            }
            Some(Ok(root))
        },
    }
}


/// Evaluates an expression (see [`eval_spec`]). `too_large` is the estimate of
/// whether base^exp reaches 2^100000, consulted for powers that pass the exact
/// checks; when it answers yes the evaluation fails with that message. Inputs on
/// which `malachite` would panic (a zero base or exponent reaching that estimate)
/// are excluded.
pub fn evaluate<F: Fn(&BigInt, &BigInt) -> bool>(expression: &Expression, too_large: &F) -> (r: Result<BigInt, String>)
    requires
        estimate_callable(*too_large),
        !(eval_spec(expr_view(*expression), refusals(*too_large)) is Abort),
    ensures
        evaluation_view(Some(r)) == eval_spec(expr_view(*expression), refusals(*too_large)),
{
    match evaluate_outcome(expression, too_large) {
        Some(r) => r,
        None => Err(String::from_str("Exponentiation result is too large (>= 2^100000)")),
    }
}

/// What reading an expression gives: the tokenizer's or the parser's error, or
/// the evaluation of the parsed expression.
pub open spec fn parse_to_int_spec(s: Seq<char>, refuses: spec_fn(int, int) -> bool) -> Evaluation {
    match tokenize_spec(s) {
        Err(e) => Evaluation::Failure(e),
        Ok(t) => match parse_spec(t) {
            Err(e) => Evaluation::Failure(e),
            Ok(e) => eval_spec(e, refuses),
        },
    }
}

/// Reads and evaluates an integer expression, such as "2^10 - isqrt(50) * 3!".
/// Inputs whose evaluation would make `malachite` panic are excluded; see
/// [`try_parse_to_int`] for the function that reports them.
pub fn parse_to_int<F: Fn(&BigInt, &BigInt) -> bool>(s: &str, too_large: &F) -> (r: Result<BigInt, String>)
    requires
        estimate_callable(*too_large),
        !(parse_to_int_spec(s@, refusals(*too_large)) is Abort),
    ensures
        evaluation_view(Some(r)) == parse_to_int_spec(s@, refusals(*too_large)),
{
    let tokens = match tokenize(s) {
        Ok(t) => t,
        Err(m) => return Err(m),
    };
    let expression = match parse(&tokens) {
        Ok(e) => e,
        Err(m) => return Err(m),
    };
    evaluate(&expression, too_large)
}

/// [`parse_to_int`], with `None` for the inputs on which evaluating would make
/// `malachite` panic (a power with a zero base or exponent that reaches the size
/// estimate).
pub fn try_parse_to_int<F: Fn(&BigInt, &BigInt) -> bool>(s: &str, too_large: &F) -> (r: Option<Result<BigInt, String>>)
    requires
        estimate_callable(*too_large),
    ensures
        evaluation_view(r) == parse_to_int_spec(s@, refusals(*too_large)),
{
    let tokens = match tokenize(s) {
        Ok(t) => t,
        Err(m) => return Some(Err(m)),
    };
    let expression = match parse(&tokens) {
        Ok(e) => e,
        Err(m) => return Some(Err(m)),
    };
    evaluate_outcome(&expression, too_large)
}

/// What reading a natural number expression gives: [`parse_to_int_spec`], with
/// negative values refused.
pub open spec fn parse_to_natural_spec(s: Seq<char>, refuses: spec_fn(int, int) -> bool) -> Evaluation {
    match parse_to_int_spec(s, refuses) {
        Evaluation::Value(v) => if v < 0 {
            Evaluation::Failure("Not a natural"@)
        } else {
            Evaluation::Value(v)
        },
        other => other,
    }
}

/// The abstract form of a natural number result.
pub open spec fn natural_result_view(r: Result<BigNat, String>) -> Evaluation {
    match r {
        Ok(v) => Evaluation::Value(v@ as int),
        Err(m) => Evaluation::Failure(m@),
    }
}

/// Reads and evaluates an expression whose value must be a natural number.
pub fn parse_to_natural<F: Fn(&BigInt, &BigInt) -> bool>(s: &str, too_large: &F) -> (r: Result<BigNat, String>)
    requires
        estimate_callable(*too_large),
        !(parse_to_int_spec(s@, refusals(*too_large)) is Abort),
    ensures
        natural_result_view(r) == parse_to_natural_spec(s@, refusals(*too_large)),
{
    natural_of(parse_to_int(s, too_large))
}

/// An integer result as a natural number, refusing negative values.
fn natural_of(r: Result<BigInt, String>) -> (n: Result<BigNat, String>)
    ensures
        natural_result_view(n) == match evaluation_view(Some(r)) {
            Evaluation::Value(v) => if v < 0 { Evaluation::Failure("Not a natural"@) } else { Evaluation::Value(v) },
            other => other,
        },
{
    match r {
        Ok(v) => if v.is_negative() {
            Err(String::from_str("Not a natural"))
        } else {
            Ok(v.unsigned_abs())
        },
        Err(m) => Err(m),
    }
}

/// [`parse_to_natural`], with `None` for the inputs on which evaluating would make
/// `malachite` panic.
pub fn try_parse_to_natural<F: Fn(&BigInt, &BigInt) -> bool>(s: &str, too_large: &F) -> (r: Option<Result<BigNat, String>>)
    requires
        estimate_callable(*too_large),
    ensures
        match r {
            None => parse_to_int_spec(s@, refusals(*too_large)) is Abort,
            Some(v) => natural_result_view(v) == parse_to_natural_spec(s@, refusals(*too_large)),
        },
{
    match try_parse_to_int(s, too_large) {
        None => None,
        Some(r) => Some(natural_of(r)),
    }
}

} // verus!
