//! Modular combinatorics, number theory and an integer expression evaluator
//! over arbitrary-precision integers.
pub mod bignum;
pub mod modular;
pub mod number_theory;
pub mod combinatorics;
pub mod expression_parser;
pub mod text;
pub mod fermat;
