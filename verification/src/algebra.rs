//! Facts about arithmetic on field representatives that the proofs about
//! gates and chip operations rest on.

use crate::field::{
    fadd, fdiv, fe, finv, fmul, fneg, fsub, invertible, is_inverse, modulus,
};
use vstd::arithmetic::div_mod::{
    lemma_add_mod_noop, lemma_mul_mod_noop_general,
};
use vstd::arithmetic::mul::{lemma_mul_is_associative, lemma_mul_is_commutative};
use vstd::prelude::*;

verus! {

/// Representatives are reduced, and reducing a reduced value changes nothing.
pub proof fn lemma_fe_range(x: int)
    ensures
        fe(x) < modulus(),
        0 <= x < modulus() ==> fe(x) == x,
        fe(fe(x) as int) == fe(x),
{
}

/// Reducing a summand first does not change a reduced sum.
pub proof fn lemma_fe_add(x: int, y: int)
    ensures
        fe(fe(x) + y) == fe(x + y),
        fe(x + fe(y)) == fe(x + y),
        fe(fe(x) as int + fe(y) as int) == fe(x + y),
{
    lemma_add_mod_noop(x, y, modulus() as int);
    lemma_add_mod_noop(fe(x) as int, y, modulus() as int);
    lemma_add_mod_noop(x, fe(y) as int, modulus() as int);
}

/// Reducing a factor first does not change a reduced product.
pub proof fn lemma_fe_mul(x: int, y: int)
    ensures
        fe(fe(x) * y) == fe(x * y),
        fe(x * fe(y)) == fe(x * y),
        fe(fe(x) as int * fe(y) as int) == fe(x * y),
{
    let m = modulus() as int;
    lemma_mul_mod_noop_general(x, y, m);
}

/// Subtraction on representatives is the reduced integer difference.
pub proof fn lemma_fsub_is_difference(a: nat, b: nat)
    ensures
        fsub(a, b) == fe(a - b),
{
    lemma_fe_add(a as int, -(b as int));
}

/// Subtracting reduced values gives zero exactly when they are equal.
pub proof fn lemma_fsub_zero(a: nat, b: nat)
    requires
        a < modulus(),
        b < modulus(),
    ensures
        fsub(a, b) == 0 <==> a == b,
{
    lemma_fsub_is_difference(a, b);
}

/// Zero and one behave as the identities, and zero absorbs products.
pub proof fn lemma_identities(a: nat)
    ensures
        fadd(a, 0) == fe(a as int),
        fadd(0, a) == fe(a as int),
        fmul(a, 1) == fe(a as int),
        fmul(1, a) == fe(a as int),
        fmul(a, 0) == 0,
        fmul(0, a) == 0,
        fsub(a, a) == 0,
        fneg(0) == 0,
{
    lemma_fsub_is_difference(a, a);
    assert(a * 1 == a) by (nonlinear_arith);
    assert(1 * a == a) by (nonlinear_arith);
    assert(a * 0 == 0) by (nonlinear_arith);
    assert(0 * a == 0) by (nonlinear_arith);
}

/// Field multiplication is commutative.
pub proof fn lemma_fmul_commutative(a: nat, b: nat)
    ensures
        fmul(a, b) == fmul(b, a),
{
    lemma_mul_is_commutative(a as int, b as int);
}

/// Field multiplication is associative.
pub proof fn lemma_fmul_associative(a: nat, b: nat, c: nat)
    ensures
        fmul(fmul(a, b), c) == fmul(a, fmul(b, c)),
{
    lemma_fe_mul(a as int * b as int, c as int);
    lemma_fe_mul(a as int, b as int * c as int);
    lemma_mul_is_associative(a as int, b as int, c as int);
}

/// A reduced inverse is unique, so `finv` names it.
pub proof fn lemma_inverse_unique(a: nat, b: nat)
    requires
        is_inverse(a, b),
    ensures
        finv(a) == b,
{
    let c = finv(a);
    assert(is_inverse(a, c));
    // b == b * (a * c) == (b * a) * c == c
    lemma_fmul_associative(b, a, c);
    lemma_fmul_commutative(b, a);
    lemma_identities(b);
    lemma_identities(c);
    lemma_fe_range(b as int);
    lemma_fe_range(c as int);
}

/// Zero has no inverse, and `finv` gives zero for it.
pub proof fn lemma_zero_has_no_inverse()
    ensures
        finv(0) == 0,
{
    assert forall|b: nat| !is_inverse(0, b) by {
        lemma_identities(b);
    }
}

/// Dividing and multiplying back by an invertible element cancels.
pub proof fn lemma_div_cancel(a: nat, b: nat)
    requires
        a < modulus(),
        invertible(b),
    ensures
        fmul(fdiv(a, b), b) == a,
{
    lemma_fmul_associative(a, finv(b), b);
    lemma_fmul_commutative(finv(b), b);
    lemma_identities(a);
    lemma_fe_range(a as int);
}

/// Multiplying by an invertible element and dividing by it again cancels.
pub proof fn lemma_mul_cancel(a: nat, b: nat)
    requires
        a < modulus(),
        invertible(b),
    ensures
        fdiv(fmul(a, b), b) == a,
{
    lemma_fmul_associative(a, b, finv(b));
    lemma_identities(a);
    lemma_fe_range(a as int);
}

/// A product with an invertible factor vanishes only where the other
/// factor does.
pub proof fn lemma_no_zero_divisor(a: nat, b: nat)
    requires
        invertible(a),
        b < modulus(),
        fmul(a, b) == 0,
    ensures
        b == 0,
{
    lemma_fmul_commutative(a, b);
    lemma_mul_cancel(b, a);
    lemma_identities(finv(a));
}

/// An invertible divisor divides in one way: `x * b == a` exactly when
/// `x == a / b`.
pub proof fn lemma_division(a: nat, b: nat, x: nat)
    requires
        a < modulus(),
        x < modulus(),
        invertible(b),
    ensures
        fmul(x, b) == a <==> x == fdiv(a, b),
{
    lemma_mul_cancel(x, b);
    lemma_div_cancel(a, b);
}

} // verus!
