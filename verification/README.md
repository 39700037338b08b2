# panic_calculators

Calculators over arbitrary-precision integers: counting functions modulo `m`
(partitions, factorials, derangements, arrangements, Fibonacci numbers), number
theory (modular powers, geometric series, a Miller-Rabin primality test, trial
division, Pollard's rho, factorization, the Kronecker symbol) and an evaluator
for integer expressions such as `2^10 - isqrt(50) * 3!`.

The library in `src/` is verified with Verus. The arithmetic itself is done by
`malachite`; each call sits behind a small wrapper whose contract states the
result over the mathematical values of the operands, and everything built on
those calls is proved against its contract.

- `src/bignum.rs`: the `BigNat` and `BigInt` types and the `malachite` wrappers.
- `src/text.rs`: decimal literals and printing.
- `src/modular.rs`, `src/fermat.rs`: residues, Euclid's lemma, the binomial
  theorem and Fermat's little theorem.
- `src/combinatorics.rs`, `src/number_theory.rs`: the calculators and their
  decimal front ends, with the laws they satisfy.
- `src/expression_parser.rs`: tokenizer, parser and evaluator.

`app/` is the command-line program and the JavaScript exports, plus what cannot
be verified: binomial tail probabilities and the size estimate for powers, both
in floating point.
