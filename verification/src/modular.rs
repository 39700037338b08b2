//! Residues modulo a natural number.
use vstd::arithmetic::div_mod::{
    lemma_add_mod_noop, lemma_mod_bound, lemma_mod_twice, lemma_mul_mod_noop_general,
    lemma_sub_mod_noop,
};
use vstd::prelude::*;

verus! {

/// `x mod m` for an integer `x` and a positive modulus, as a natural number.
pub open spec fn residue(x: int, m: nat) -> nat {
    (x % (m as int)) as nat
}

/// Reducing a factor does not change the residue of a product.
pub proof fn lemma_residue_mul(x: int, y: int, m: nat)
    requires
        m > 0,
    ensures
        residue(residue(x, m) * y, m) == residue(x * y, m),
        residue(x * residue(y, m), m) == residue(x * y, m),
{
    lemma_mul_mod_noop_general(x, y, m as int);
    lemma_mod_bound(x, m as int);
    lemma_mod_bound(y, m as int);
}

/// Reducing a term does not change the residue of a sum or difference.
pub proof fn lemma_residue_add(x: int, y: int, m: nat)
    requires
        m > 0,
    ensures
        residue(residue(x, m) + y, m) == residue(x + y, m),
        residue(residue(x, m) - y, m) == residue(x - y, m),
{
    lemma_mod_bound(x, m as int);
    lemma_add_mod_noop(x, y, m as int);
    lemma_add_mod_noop(x % (m as int), y, m as int);
    lemma_mod_twice(x, m as int);
    lemma_sub_mod_noop(x, y, m as int);
    lemma_sub_mod_noop(x % (m as int), y, m as int);
}

} // verus!
