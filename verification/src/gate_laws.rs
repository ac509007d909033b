//! What each gate enforces: the relation between the cells of a window on
//! which all of its polynomials vanish.

use crate::algebra::{
    lemma_division, lemma_fe_add, lemma_fe_range, lemma_fsub_is_difference, lemma_fsub_zero,
    lemma_identities, lemma_no_zero_divisor,
};
use crate::config::{
    add_x_residue, add_y_residue, bit_term, gate_vanishes, nibble_sum, on_curve_poly, point_at,
    GateKind,
};
use crate::curve::{
    add_defined, add_x_den, add_x_num, add_y_den, add_y_num, curve_cross, curve_lhs,
    double_defined, double_x_den, double_x_num, double_y_den, double_y_num, on_curve, reduced,
    te_add, te_conditional_add, te_double, Affine,
};
use crate::expr::Window;
use crate::field::{fadd, fe, fmul, fsub, invertible, modulus};
use vstd::prelude::*;

verus! {

/// The addition gate is met exactly where the cell below holds the sum.
pub proof fn lemma_add_gate(w: Window)
    requires
        w.a[1] < modulus(),
    ensures
        gate_vanishes(GateKind::Add, w) <==> w.a[1] == fadd(w.a[0], w.b[0]),
{
    lemma_fe_range((w.a[0] + w.b[0]) as int);
    lemma_fsub_zero(fadd(w.a[0], w.b[0]), w.a[1]);
}

/// The multiplication gate is met exactly where the cell below holds the
/// product.
pub proof fn lemma_mul_gate(w: Window)
    requires
        w.a[1] < modulus(),
    ensures
        gate_vanishes(GateKind::Mul, w) <==> w.a[1] == fmul(w.a[0], w.b[0]),
{
    lemma_fe_range((w.a[0] * w.b[0]) as int);
    lemma_fsub_zero(fmul(w.a[0], w.b[0]), w.a[1]);
}

/// The on-curve gate is met exactly where the point at the row satisfies
/// the curve equation.
pub proof fn lemma_on_curve_gate(w: Window)
    ensures
        gate_vanishes(GateKind::OnCurve, w) <==> on_curve(point_at(w, 0)),
{
    let p = point_at(w, 0);
    let l = curve_lhs(p);
    let c = curve_cross(p);
    lemma_fsub_is_difference(l, 1);
    lemma_fsub_is_difference(fsub(l, 1), c);
    lemma_fe_add(l - 1, -(c as int));
    // the polynomial is the reduced difference l - 1 - c
    assert(on_curve_poly(w) == fe(l - 1 - c));
    assert(fadd(1, c) == fe((1 + c) as int));
}

/// A value is zero or has an inverse, as every element of a field does.
pub open spec fn zero_or_invertible(v: nat) -> bool {
    v == 0 || invertible(v)
}

/// The term `v (1 - v)` vanishes exactly on bits, among the reduced values
/// that are zero or invertible.
pub proof fn lemma_bit_term(v: nat)
    requires
        v < modulus(),
        zero_or_invertible(v),
    ensures
        bit_term(v) == 0 <==> (v == 0 || v == 1),
{
    lemma_identities(v);
    lemma_identities(fsub(1, v));
    lemma_identities(1);
    lemma_fsub_is_difference(1, v);
    if v != 0 && bit_term(v) == 0 {
        lemma_fe_range(1 - v);
        lemma_no_zero_divisor(v, fsub(1, v));
        lemma_fsub_zero(1, v);
    }
}

/// The partial bit decomposition gate is met exactly where the four
/// candidates are bits and the output is the accumulation, among the
/// windows whose candidates are reduced and zero or invertible.
pub proof fn lemma_partial_bit_decom_gate(w: Window)
    requires
        w.a[0] < modulus() && zero_or_invertible(w.a[0]),
        w.b[0] < modulus() && zero_or_invertible(w.b[0]),
        w.a[1] < modulus() && zero_or_invertible(w.a[1]),
        w.b[1] < modulus() && zero_or_invertible(w.b[1]),
        w.b[2] < modulus(),
    ensures
        gate_vanishes(GateKind::PartialBitDecomp, w) <==> {
            &&& w.a[0] == 0 || w.a[0] == 1
            &&& w.b[0] == 0 || w.b[0] == 1
            &&& w.a[1] == 0 || w.a[1] == 1
            &&& w.b[1] == 0 || w.b[1] == 1
            &&& w.b[2] == nibble_sum(w)
        },
{
    lemma_bit_term(w.a[0]);
    lemma_bit_term(w.b[0]);
    lemma_bit_term(w.a[1]);
    lemma_bit_term(w.b[1]);
    lemma_fe_range(0);
    lemma_fsub_zero(nibble_sum(w), w.b[2]);
}

/// Bits meet the partial bit decomposition gate together with their
/// accumulation.
pub proof fn lemma_bits_meet_decom_gate(w: Window)
    requires
        w.a[0] == 0 || w.a[0] == 1,
        w.b[0] == 0 || w.b[0] == 1,
        w.a[1] == 0 || w.a[1] == 1,
        w.b[1] == 0 || w.b[1] == 1,
        w.b[2] == nibble_sum(w),
    ensures
        gate_vanishes(GateKind::PartialBitDecomp, w),
{
    lemma_identities(0);
    lemma_identities(1);
    lemma_identities(nibble_sum(w));
    assert(fsub(1, 1) == 0);
    assert(fsub(1, 0) == 1);
}

/// The doubling gate is met exactly where the point at the next row is the
/// double of the point at the row, among the windows where the doubling
/// law applies and the next point is reduced.
#[verifier::rlimit(30)]
pub proof fn lemma_ec_double_gate(w: Window)
    requires
        double_defined(point_at(w, 0)),
        reduced(point_at(w, 1)),
    ensures
        gate_vanishes(GateKind::EcDouble, w) <==> point_at(w, 1) == te_double(point_at(w, 0)),
{
    reveal(te_double);
    let p = point_at(w, 0);
    let r = point_at(w, 1);
    lemma_fe_range((fmul(p.x, p.y) + fmul(p.y, p.x)) as int);
    lemma_fsub_is_difference(fmul(p.y, p.y), fmul(crate::curve::curve_a(), fmul(p.x, p.x)));
    lemma_fe_range(fmul(p.y, p.y) - fmul(crate::curve::curve_a(), fmul(p.x, p.x)));
    lemma_fe_range((r.x * double_x_den(p)) as int);
    lemma_fe_range((r.y * double_y_den(p)) as int);
    lemma_division(double_x_num(p), double_x_den(p), r.x);
    lemma_division(double_y_num(p), double_y_den(p), r.y);
    lemma_fsub_zero(double_x_num(p), fmul(r.x, double_x_den(p)));
    lemma_fsub_zero(double_y_num(p), fmul(r.y, double_y_den(p)));
}

/// The shares of the addition law vanish exactly on the sum of two points,
/// among the reduced points, where the law applies.
#[verifier::rlimit(30)]
pub proof fn lemma_add_residues(p: Affine, q: Affine, r: Affine)
    requires
        add_defined(p, q),
        reduced(r),
    ensures
        add_x_residue(p, q, r) == 0 <==> r.x == te_add(p, q).x,
        add_y_residue(p, q, r) == 0 <==> r.y == te_add(p, q).y,
{
    reveal(te_add);
    lemma_fe_range((fmul(p.x, q.y) + fmul(p.y, q.x)) as int);
    lemma_fsub_is_difference(fmul(p.y, q.y), fmul(fmul(crate::curve::curve_a(), p.x), q.x));
    lemma_fe_range(fmul(p.y, q.y) - fmul(fmul(crate::curve::curve_a(), p.x), q.x));
    lemma_fe_range((r.x * add_x_den(p, q)) as int);
    lemma_fe_range((r.y * add_y_den(p, q)) as int);
    lemma_division(add_x_num(p, q), add_x_den(p, q), r.x);
    lemma_division(add_y_num(p, q), add_y_den(p, q), r.y);
    lemma_fsub_zero(fmul(r.x, add_x_den(p, q)), add_x_num(p, q));
    lemma_fsub_zero(fmul(r.y, add_y_den(p, q)), add_y_num(p, q));
}

/// With the condition at one, the conditional addition gate is met exactly
/// where the result is the sum, among the windows where the addition law
/// applies and the result is reduced.
#[verifier::rlimit(30)]
pub proof fn lemma_conditional_ec_add_gate_one(w: Window)
    requires
        w.a[2] == 1,
        add_defined(point_at(w, 0), point_at(w, 1)),
        reduced(point_at(w, 3)),
    ensures
        gate_vanishes(GateKind::ConditionalEcAdd, w) <==> point_at(w, 3) == te_add(
            point_at(w, 0),
            point_at(w, 1),
        ),
{
    let p = point_at(w, 0);
    let q = point_at(w, 1);
    let r = point_at(w, 3);
    lemma_add_residues(p, q, r);
    lemma_identities(1);
    lemma_identities(0);
    assert(fsub(1, 1) == 0);
    lemma_identities(fsub(r.x, p.x));
    lemma_identities(fsub(r.y, p.y));
    lemma_identities(add_x_residue(p, q, r));
    lemma_identities(add_y_residue(p, q, r));
    lemma_fe_range(add_x_residue(p, q, r) as int);
    lemma_fe_range(add_y_residue(p, q, r) as int);
    lemma_fe_range(0);
}

/// With the condition at zero, the conditional addition gate is met
/// exactly where the result is the first point, among the windows whose
/// first point and result are reduced.
#[verifier::rlimit(30)]
pub proof fn lemma_conditional_ec_add_gate_zero(w: Window)
    requires
        w.a[2] == 0,
        reduced(point_at(w, 0)),
        reduced(point_at(w, 3)),
    ensures
        gate_vanishes(GateKind::ConditionalEcAdd, w) <==> point_at(w, 3) == point_at(w, 0),
{
    let p = point_at(w, 0);
    let q = point_at(w, 1);
    let r = point_at(w, 3);
    lemma_identities(add_x_residue(p, q, r));
    lemma_identities(add_y_residue(p, q, r));
    lemma_identities(0);
    assert(fsub(1, 0) == 1);
    lemma_identities(fsub(r.x, p.x));
    lemma_identities(fsub(r.y, p.y));
    lemma_fe_range(fsub(r.x, p.x) as int);
    lemma_fe_range(fsub(r.y, p.y) as int);
    lemma_fe_range(0);
    lemma_fsub_zero(r.x, p.x);
    lemma_fsub_zero(r.y, p.y);
}

/// Under a boolean condition the conditional addition gate is met exactly
/// where the result is the conditional sum, among the windows whose first
/// point and result are reduced and where, for the condition at one, the
/// addition law applies.
pub proof fn lemma_conditional_ec_add_gate(w: Window)
    requires
        w.a[2] == 0 || w.a[2] == 1,
        reduced(point_at(w, 0)),
        reduced(point_at(w, 3)),
        w.a[2] == 1 ==> add_defined(point_at(w, 0), point_at(w, 1)),
    ensures
        gate_vanishes(GateKind::ConditionalEcAdd, w) <==> point_at(w, 3) == te_conditional_add(
            point_at(w, 0),
            point_at(w, 1),
            w.a[2],
        ),
{
    crate::curve::lemma_conditional_add(point_at(w, 0), point_at(w, 1));
    if w.a[2] == 1 {
        lemma_conditional_ec_add_gate_one(w);
    } else {
        lemma_conditional_ec_add_gate_zero(w);
    }
}

} // verus!
