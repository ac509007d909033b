//! The layouts of the chip's operations: which cells each one writes,
//! which copy constraints it records, and when its gate is met.

use crate::config::GateKind;
use crate::curve::{
    add_defined, double_defined, on_curve, reduced, te_conditional_add, te_double, Affine,
};
use crate::expr::Lane;
use crate::field::{fadd, fmul};
use crate::gate_laws::{
    lemma_add_gate, lemma_bits_meet_decom_gate, lemma_conditional_ec_add_gate,
    lemma_ec_double_gate, lemma_mul_gate, lemma_on_curve_gate,
};
use crate::table::{larger, TableView};
use crate::table_laws::{lemma_laid_out, lemma_reach};
use vstd::prelude::*;

verus! {

/// No copy constraints.
pub open spec fn no_pairs() -> Seq<((Lane, int), (Lane, int))> {
    Seq::empty()
}

/// The write of a single value into lane `A` of a row.
pub open spec fn field_writes(off: int, f: nat) -> Seq<(Lane, int, nat)> {
    seq![(Lane::A, off, f)]
}

/// The writes of a binary operation: `x` and `y` in the row and the result
/// `z` in lane `A` of the next.
pub open spec fn binary_writes(off: int, x: nat, y: nat, z: nat) -> Seq<(Lane, int, nat)> {
    seq![(Lane::A, off, x), (Lane::B, off, y), (Lane::A, off + 1, z)]
}

/// The writes of a partial bit decomposition: `[x1, y1, x2, y2, x3, y3]`
/// over three rows.
pub open spec fn decomp_writes(off: int, v: Seq<nat>) -> Seq<(Lane, int, nat)> {
    seq![
        (Lane::A, off, v[0]),
        (Lane::B, off, v[1]),
        (Lane::A, off + 1, v[2]),
        (Lane::B, off + 1, v[3]),
        (Lane::A, off + 2, v[4]),
        (Lane::B, off + 2, v[5]),
    ]
}

/// The writes of the padding: one value in both lanes of two rows.
pub open spec fn pad_writes(off: int, v: nat) -> Seq<(Lane, int, nat)> {
    seq![(Lane::A, off, v), (Lane::B, off, v), (Lane::A, off + 1, v), (Lane::B, off + 1, v)]
}

/// The writes of a point: its coordinates in the two lanes of a row.
pub open spec fn point_writes(off: int, p: Affine) -> Seq<(Lane, int, nat)> {
    seq![(Lane::A, off, p.x), (Lane::B, off, p.y)]
}

/// The writes of a doubling: the point in the row and the result in the
/// next.
pub open spec fn double_writes(off: int, p: Affine, r: Affine) -> Seq<(Lane, int, nat)> {
    seq![(Lane::A, off, p.x), (Lane::B, off, p.y), (Lane::A, off + 1, r.x), (Lane::B, off + 1, r.y)]
}

/// The writes of a conditional addition: the two points in the row and the
/// next, the condition in lane `A` two rows down and the result three rows
/// down.
pub open spec fn conditional_add_writes(off: int, p: Affine, q: Affine, c: nat, r: Affine) -> Seq<
    (Lane, int, nat),
> {
    seq![
        (Lane::A, off, p.x),
        (Lane::B, off, p.y),
        (Lane::A, off + 1, q.x),
        (Lane::B, off + 1, q.y),
        (Lane::A, off + 2, c),
        (Lane::A, off + 3, r.x),
        (Lane::B, off + 3, r.y),
    ]
}

/// The copy constraints that tie the two lanes of a row to the cells a
/// point came from.
pub open spec fn point_pairs(off: int, x: (Lane, int), y: (Lane, int)) -> Seq<
    ((Lane, int), (Lane, int)),
> {
    seq![((Lane::A, off), x), ((Lane::B, off), y)]
}

/// The copy constraints of a conditional addition: the two points and the
/// condition, each tied to the cells it came from.
pub open spec fn conditional_add_pairs(
    off: int,
    px: (Lane, int),
    py: (Lane, int),
    qx: (Lane, int),
    qy: (Lane, int),
    c: (Lane, int),
) -> Seq<((Lane, int), (Lane, int))> {
    seq![
        ((Lane::A, off), px),
        ((Lane::B, off), py),
        ((Lane::A, off + 1), qx),
        ((Lane::B, off + 1), qy),
        ((Lane::A, off + 2), c),
    ]
}

/// Writing a single value extends the table and keeps it satisfied.
pub proof fn lemma_field_layout(t: TableView, off: int, f: nat)
    requires
        t.a.len() == t.b.len(),
        0 <= off,
    ensures
        t.writes_fresh(field_writes(off, f)) <==> t.cell(Lane::A, off) is None,
        t.writes_fresh(field_writes(off, f)) ==> ({
            let n = t.laid_out(field_writes(off, f), no_pairs(), None);
            &&& n.extends(t)
            &&& n.rows() == larger(t.rows(), off + 1)
            &&& n.cell(Lane::A, off) == Some(f)
            &&& t.satisfied() ==> n.satisfied()
        }),
{
    reveal(TableView::satisfied);
    reveal(TableView::extends);
    let w = field_writes(off, f);
    assert(w[0] == (Lane::A, off, f));
    if t.writes_fresh(w) {
        lemma_laid_out(t, w, no_pairs(), None);
        lemma_reach(w, off + 1, 0);
        assert(no_pairs().len() == 0);
    }
}

/// The layout of a sum meets the addition gate.
pub proof fn lemma_add_layout(t: TableView, off: int, x: nat, y: nat)
    requires
        t.a.len() == t.b.len(),
        t.writes_fresh(binary_writes(off, x, y, fadd(x, y))),
    ensures
        ({
            let n = t.laid_out(
                binary_writes(off, x, y, fadd(x, y)),
                no_pairs(),
                Some((GateKind::Add, off)),
            );
            &&& n.gate_holds(GateKind::Add, off)
            &&& n.extends(t)
            &&& n.rows() == larger(t.rows(), off + 2)
            &&& n.cell(Lane::A, off + 1) == Some(fadd(x, y))
            &&& t.satisfied() ==> n.satisfied()
        }),
{
    reveal(TableView::satisfied);
    reveal(TableView::extends);
    let w = binary_writes(off, x, y, fadd(x, y));
    let n = t.laid_out(w, no_pairs(), Some((GateKind::Add, off)));
    lemma_laid_out(t, w, no_pairs(), Some((GateKind::Add, off)));
    assert(w[0] == (Lane::A, off, x) && w[1] == (Lane::B, off, y) && w[2] == (
        Lane::A,
        off + 1,
        fadd(x, y),
    ));
    lemma_add_gate(n.window(off));
    lemma_reach(w, off + 2, 2);
    assert(no_pairs().len() == 0);
}

/// The layout of a product meets the multiplication gate.
pub proof fn lemma_mul_layout(t: TableView, off: int, x: nat, y: nat)
    requires
        t.a.len() == t.b.len(),
        t.writes_fresh(binary_writes(off, x, y, fmul(x, y))),
    ensures
        ({
            let n = t.laid_out(
                binary_writes(off, x, y, fmul(x, y)),
                no_pairs(),
                Some((GateKind::Mul, off)),
            );
            &&& n.gate_holds(GateKind::Mul, off)
            &&& n.extends(t)
            &&& n.rows() == larger(t.rows(), off + 2)
            &&& n.cell(Lane::A, off + 1) == Some(fmul(x, y))
            &&& t.satisfied() ==> n.satisfied()
        }),
{
    reveal(TableView::satisfied);
    reveal(TableView::extends);
    let w = binary_writes(off, x, y, fmul(x, y));
    let n = t.laid_out(w, no_pairs(), Some((GateKind::Mul, off)));
    lemma_laid_out(t, w, no_pairs(), Some((GateKind::Mul, off)));
    assert(w[0] == (Lane::A, off, x) && w[1] == (Lane::B, off, y) && w[2] == (
        Lane::A,
        off + 1,
        fmul(x, y),
    ));
    lemma_mul_gate(n.window(off));
    lemma_reach(w, off + 2, 2);
    assert(no_pairs().len() == 0);
}

/// The six values of a partial bit decomposition are consistent: the four
/// candidates are bits and the output is the accumulation onto the input.
pub open spec fn decomp_consistent(v: Seq<nat>) -> bool {
    &&& v[0] == 0 || v[0] == 1
    &&& v[1] == 0 || v[1] == 1
    &&& v[2] == 0 || v[2] == 1
    &&& v[3] == 0 || v[3] == 1
    &&& v[5] == fadd(
        fadd(fadd(fadd(v[0], fmul(2, v[1])), fmul(4, v[2])), fmul(8, v[3])),
        fmul(16, v[4]),
    )
}

/// The layout of a partial bit decomposition extends the table and writes
/// its three rows and no others. Where the values are consistent its gate
/// is met; where, in addition, the table was satisfied and the copy
/// constraints recorded with it are met, the table stays satisfied.
#[verifier::rlimit(30)]
pub proof fn lemma_decomp_layout(
    t: TableView,
    off: int,
    v: Seq<nat>,
    pairs: Seq<((Lane, int), (Lane, int))>,
)
    requires
        t.a.len() == t.b.len(),
        t.writes_fresh(decomp_writes(off, v)),
    ensures
        ({
            let n = t.laid_out(
                decomp_writes(off, v),
                pairs,
                Some((GateKind::PartialBitDecomp, off)),
            );
            &&& n.extends(t)
            &&& n.a.len() == n.b.len()
            &&& n.rows() == larger(t.rows(), off + 3)
            &&& n.cell(Lane::A, off) == Some(v[0])
            &&& n.cell(Lane::B, off) == Some(v[1])
            &&& n.cell(Lane::A, off + 1) == Some(v[2])
            &&& n.cell(Lane::B, off + 1) == Some(v[3])
            &&& n.cell(Lane::A, off + 2) == Some(v[4])
            &&& n.cell(Lane::B, off + 2) == Some(v[5])
            &&& forall|lane: Lane, r: int|
                (r < off || r >= off + 3) ==> #[trigger] n.cell(lane, r) == t.cell(lane, r)
            &&& decomp_consistent(v) ==> n.gate_holds(GateKind::PartialBitDecomp, off)
            &&& (decomp_consistent(v) && t.satisfied() && forall|j: int|
                0 <= j < pairs.len() ==> n.copy_holds(#[trigger] pairs[j])) ==> n.satisfied()
        }),
{
    reveal(TableView::satisfied);
    reveal(TableView::extends);
    let w = decomp_writes(off, v);
    let n = t.laid_out(w, pairs, Some((GateKind::PartialBitDecomp, off)));
    lemma_laid_out(t, w, pairs, Some((GateKind::PartialBitDecomp, off)));
    assert(w[0] == (Lane::A, off, v[0]) && w[1] == (Lane::B, off, v[1]) && w[2] == (
        Lane::A,
        off + 1,
        v[2],
    ) && w[3] == (Lane::B, off + 1, v[3]) && w[4] == (Lane::A, off + 2, v[4]) && w[5] == (
        Lane::B,
        off + 2,
        v[5],
    ));
    assert forall|lane: Lane, r: int| (r < off || r >= off + 3) implies #[trigger] n.cell(lane, r)
        == t.cell(lane, r) by {
        assert forall|i: int| 0 <= i < w.len() implies (#[trigger] w[i]).0 != lane || w[i].1
            != r by {}
    }
    lemma_reach(w, off + 3, 5);
    if decomp_consistent(v) {
        lemma_bits_meet_decom_gate(n.window(off));
    }
}

/// The padding extends the table and keeps it satisfied.
pub proof fn lemma_pad_layout(t: TableView, off: int, v: nat)
    requires
        t.a.len() == t.b.len(),
        t.writes_fresh(pad_writes(off, v)),
    ensures
        ({
            let n = t.laid_out(pad_writes(off, v), no_pairs(), None);
            &&& n.extends(t)
            &&& n.rows() == larger(t.rows(), off + 2)
            &&& t.satisfied() ==> n.satisfied()
        }),
{
    reveal(TableView::satisfied);
    reveal(TableView::extends);
    lemma_laid_out(t, pad_writes(off, v), no_pairs(), None);
    lemma_reach(pad_writes(off, v), off + 2, 3);
    assert(no_pairs().len() == 0);
}

/// The on-curve gate at a row whose two lanes are written is met exactly
/// when the point in them lies on the curve.
pub proof fn lemma_on_curve_row(t: TableView, row: int, p: Affine)
    requires
        t.cell(Lane::A, row) == Some(p.x),
        t.cell(Lane::B, row) == Some(p.y),
    ensures
        t.gate_holds(GateKind::OnCurve, row) <==> on_curve(p),
{
    reveal(TableView::satisfied);
    reveal(TableView::extends);
    lemma_on_curve_gate(t.window(row));
}

/// Writing a point extends the table and puts its coordinates into the two
/// lanes of the row. Without a gate the table stays satisfied; with the
/// on-curve gate that gate is met exactly when the point lies on the curve,
/// and the table stays satisfied where it does.
#[verifier::rlimit(30)]
pub proof fn lemma_point_layout(t: TableView, off: int, p: Affine)
    requires
        t.a.len() == t.b.len(),
        t.writes_fresh(point_writes(off, p)),
    ensures
        ({
            let n = t.laid_out(point_writes(off, p), no_pairs(), None);
            &&& n.extends(t)
            &&& n.a.len() == n.b.len()
            &&& n.rows() == larger(t.rows(), off + 1)
            &&& n.cell(Lane::A, off) == Some(p.x)
            &&& n.cell(Lane::B, off) == Some(p.y)
            &&& forall|lane: Lane, r: int| r != off ==> #[trigger] n.cell(lane, r) == t.cell(lane, r)
            &&& t.satisfied() ==> n.satisfied()
        }),
        ({
            let n = t.laid_out(point_writes(off, p), no_pairs(), Some((GateKind::OnCurve, off)));
            &&& n.extends(t)
            &&& n.rows() == larger(t.rows(), off + 1)
            &&& n.cell(Lane::A, off) == Some(p.x)
            &&& n.cell(Lane::B, off) == Some(p.y)
            &&& n.gate_holds(GateKind::OnCurve, off) <==> on_curve(p)
            &&& t.satisfied() && on_curve(p) ==> n.satisfied()
            &&& !on_curve(p) ==> !n.satisfied()
        }),
{
    reveal(TableView::satisfied);
    reveal(TableView::extends);
    let w = point_writes(off, p);
    assert(w[0] == (Lane::A, off, p.x) && w[1] == (Lane::B, off, p.y));
    assert(no_pairs().len() == 0);
    lemma_laid_out(t, w, no_pairs(), None);
    lemma_laid_out(t, w, no_pairs(), Some((GateKind::OnCurve, off)));
    lemma_reach(w, off + 1, 1);
    assert forall|lane: Lane, r: int| r != off implies #[trigger] t.laid_out(
        w,
        no_pairs(),
        None,
    ).cell(lane, r) == t.cell(lane, r) by {
        assert forall|i: int| 0 <= i < w.len() implies (#[trigger] w[i]).0 != lane || w[i].1
            != r by {}
    }
    let checked = t.laid_out(w, no_pairs(), Some((GateKind::OnCurve, off)));
    lemma_on_curve_row(checked, off, p);
    if !on_curve(p) {
        crate::table_laws::lemma_unmet_gate(checked, t.gates.len() as int);
    }
}

/// Switching the on-curve gate on at a row extends the table; where the
/// two lanes of the row hold a point, that gate is met exactly when the
/// point lies on the curve, and the table stays satisfied where it does.
pub proof fn lemma_enforce_layout(t: TableView, row: int, p: Affine)
    requires
        t.a.len() == t.b.len(),
    ensures
        ({
            let n = t.laid_out(Seq::empty(), no_pairs(), Some((GateKind::OnCurve, row)));
            &&& n.extends(t)
            &&& n.a == t.a
            &&& n.b == t.b
            &&& (t.cell(Lane::A, row) == Some(p.x) && t.cell(Lane::B, row) == Some(p.y)) ==> (
            n.gate_holds(GateKind::OnCurve, row) <==> on_curve(p))
            &&& (t.cell(Lane::A, row) == Some(p.x) && t.cell(Lane::B, row) == Some(p.y)
                && t.satisfied() && on_curve(p)) ==> n.satisfied()
            &&& (t.cell(Lane::A, row) == Some(p.x) && t.cell(Lane::B, row) == Some(p.y)
                && !on_curve(p)) ==> !n.satisfied()
        }),
{
    reveal(TableView::satisfied);
    reveal(TableView::extends);
    let w = Seq::<(Lane, int, nat)>::empty();
    let n = t.laid_out(w, no_pairs(), Some((GateKind::OnCurve, row)));
    assert(no_pairs().len() == 0);
    lemma_laid_out(t, w, no_pairs(), Some((GateKind::OnCurve, row)));
    assert(n.a =~= t.a);
    assert(n.b =~= t.b);
    if t.cell(Lane::A, row) == Some(p.x) && t.cell(Lane::B, row) == Some(p.y) {
        assert(n.cell(Lane::A, row) == t.cell(Lane::A, row));
        assert(n.cell(Lane::B, row) == t.cell(Lane::B, row));
        lemma_on_curve_row(n, row, p);
        if !on_curve(p) {
            crate::table_laws::lemma_unmet_gate(n, t.gates.len() as int);
        }
    }
}

/// The layout of a doubling extends the table and puts the double into the
/// next row. Where the doubling law applies its gate is met; where, in
/// addition, the table was satisfied and the cells the point came from
/// hold its coordinates, the table stays satisfied.
#[verifier::rlimit(30)]
pub proof fn lemma_double_layout(t: TableView, off: int, p: Affine, x: (Lane, int), y: (Lane, int))
    requires
        t.a.len() == t.b.len(),
        t.writes_fresh(double_writes(off, p, te_double(p))),
    ensures
        ({
            let n = t.laid_out(
                double_writes(off, p, te_double(p)),
                point_pairs(off, x, y),
                Some((GateKind::EcDouble, off)),
            );
            &&& n.extends(t)
            &&& n.a.len() == n.b.len()
            &&& n.rows() == larger(t.rows(), off + 2)
            &&& n.cell(Lane::A, off + 1) == Some(te_double(p).x)
            &&& n.cell(Lane::B, off + 1) == Some(te_double(p).y)
            &&& forall|lane: Lane, r: int|
                (r < off || r >= off + 2) ==> #[trigger] n.cell(lane, r) == t.cell(lane, r)
            &&& double_defined(p) ==> n.gate_holds(GateKind::EcDouble, off)
            &&& (double_defined(p) && t.satisfied() && t.cell(x.0, x.1) == Some(p.x) && t.cell(
                y.0,
                y.1,
            ) == Some(p.y)) ==> n.satisfied()
        }),
{
    reveal(TableView::satisfied);
    reveal(TableView::extends);
    let w = double_writes(off, p, te_double(p));
    let pairs = point_pairs(off, x, y);
    let n = t.laid_out(w, pairs, Some((GateKind::EcDouble, off)));
    lemma_laid_out(t, w, pairs, Some((GateKind::EcDouble, off)));
    assert(w[0] == (Lane::A, off, p.x) && w[1] == (Lane::B, off, p.y) && w[2] == (
        Lane::A,
        off + 1,
        te_double(p).x,
    ) && w[3] == (Lane::B, off + 1, te_double(p).y));
    assert forall|lane: Lane, r: int| (r < off || r >= off + 2) implies #[trigger] n.cell(lane, r)
        == t.cell(lane, r) by {
        assert forall|i: int| 0 <= i < w.len() implies (#[trigger] w[i]).0 != lane || w[i].1
            != r by {}
    }
    lemma_reach(w, off + 2, 3);
    if double_defined(p) {
        crate::curve::lemma_results_reduced(p, p, 0);
        lemma_ec_double_gate(n.window(off));
    }
    if t.cell(x.0, x.1) == Some(p.x) && t.cell(y.0, y.1) == Some(p.y) {
        assert(n.cell(x.0, x.1) == t.cell(x.0, x.1));
        assert(n.cell(y.0, y.1) == t.cell(y.0, y.1));
        assert(pairs[0] == ((Lane::A, off), x) && pairs[1] == ((Lane::B, off), y));
        assert forall|j: int| 0 <= j < pairs.len() implies n.copy_holds(#[trigger] pairs[j]) by {
            assert(j == 0 || j == 1);
        }
    }
}

/// The condition under which a conditional addition's gate is met: the
/// condition is a bit and, where it is one, the addition law applies.
pub open spec fn conditional_add_regular(p: Affine, q: Affine, c: nat) -> bool {
    (c == 0 || c == 1) && (c == 1 ==> add_defined(p, q))
}

/// The layout of a conditional addition extends the table and puts the
/// conditional sum three rows down. Where the addition is regular and the
/// first point reduced its gate is met; where, in addition, the table was
/// satisfied and the cells the inputs came from hold their values, the
/// table stays satisfied.
#[verifier::rlimit(30)]
pub proof fn lemma_conditional_add_layout(
    t: TableView,
    off: int,
    p: Affine,
    q: Affine,
    c: nat,
    px: (Lane, int),
    py: (Lane, int),
    qx: (Lane, int),
    qy: (Lane, int),
    cc: (Lane, int),
)
    requires
        t.a.len() == t.b.len(),
        t.writes_fresh(conditional_add_writes(off, p, q, c, te_conditional_add(p, q, c))),
        reduced(p),
    ensures
        ({
            let n = t.laid_out(
                conditional_add_writes(off, p, q, c, te_conditional_add(p, q, c)),
                conditional_add_pairs(off, px, py, qx, qy, cc),
                Some((GateKind::ConditionalEcAdd, off)),
            );
            &&& n.extends(t)
            &&& n.a.len() == n.b.len()
            &&& n.rows() == larger(t.rows(), off + 4)
            &&& n.cell(Lane::A, off + 3) == Some(te_conditional_add(p, q, c).x)
            &&& n.cell(Lane::B, off + 3) == Some(te_conditional_add(p, q, c).y)
            &&& forall|lane: Lane, r: int|
                (r < off || r >= off + 4) ==> #[trigger] n.cell(lane, r) == t.cell(lane, r)
            &&& conditional_add_regular(p, q, c) ==> n.gate_holds(GateKind::ConditionalEcAdd, off)
            &&& (conditional_add_regular(p, q, c) && t.satisfied() && t.cell(px.0, px.1) == Some(
                p.x,
            ) && t.cell(py.0, py.1) == Some(p.y) && t.cell(qx.0, qx.1) == Some(q.x) && t.cell(
                qy.0,
                qy.1,
            ) == Some(q.y) && t.cell(cc.0, cc.1) == Some(c)) ==> n.satisfied()
        }),
{
    reveal(TableView::satisfied);
    reveal(TableView::extends);
    let r = te_conditional_add(p, q, c);
    let w = conditional_add_writes(off, p, q, c, r);
    let pairs = conditional_add_pairs(off, px, py, qx, qy, cc);
    let n = t.laid_out(w, pairs, Some((GateKind::ConditionalEcAdd, off)));
    lemma_laid_out(t, w, pairs, Some((GateKind::ConditionalEcAdd, off)));
    assert(w[0] == (Lane::A, off, p.x) && w[1] == (Lane::B, off, p.y) && w[2] == (
        Lane::A,
        off + 1,
        q.x,
    ) && w[3] == (Lane::B, off + 1, q.y) && w[4] == (Lane::A, off + 2, c) && w[5] == (
        Lane::A,
        off + 3,
        r.x,
    ) && w[6] == (Lane::B, off + 3, r.y));
    assert forall|lane: Lane, r: int| (r < off || r >= off + 4) implies #[trigger] n.cell(lane, r)
        == t.cell(lane, r) by {
        assert forall|i: int| 0 <= i < w.len() implies (#[trigger] w[i]).0 != lane || w[i].1
            != r by {}
    }
    lemma_reach(w, off + 4, 6);
    if conditional_add_regular(p, q, c) {
        crate::curve::lemma_results_reduced(p, q, c);
        lemma_conditional_ec_add_gate(n.window(off));
    }
    if t.cell(px.0, px.1) == Some(p.x) && t.cell(py.0, py.1) == Some(p.y) && t.cell(qx.0, qx.1)
        == Some(q.x) && t.cell(qy.0, qy.1) == Some(q.y) && t.cell(cc.0, cc.1) == Some(c) {
        assert(n.cell(px.0, px.1) == t.cell(px.0, px.1));
        assert(n.cell(py.0, py.1) == t.cell(py.0, py.1));
        assert(n.cell(qx.0, qx.1) == t.cell(qx.0, qx.1));
        assert(n.cell(qy.0, qy.1) == t.cell(qy.0, qy.1));
        assert(n.cell(cc.0, cc.1) == t.cell(cc.0, cc.1));
        assert(pairs[0] == ((Lane::A, off), px) && pairs[1] == ((Lane::B, off), py) && pairs[2]
            == ((Lane::A, off + 1), qx) && pairs[3] == ((Lane::B, off + 1), qy) && pairs[4] == (
            (Lane::A, off + 2),
            cc,
        ));
        assert forall|j: int| 0 <= j < pairs.len() implies n.copy_holds(#[trigger] pairs[j]) by {
            assert(j == 0 || j == 1 || j == 2 || j == 3 || j == 4);
        }
    }
}

/// Two unwritten rows take the writes of a doubling.
pub proof fn lemma_double_fresh(t: TableView, off: int, p: Affine, r: Affine)
    requires
        0 <= off,
        t.rows_free(off, off + 2),
    ensures
        t.writes_fresh(double_writes(off, p, r)),
{
}

/// The rows of a conditional addition, unwritten where it writes, take its
/// writes.
pub proof fn lemma_conditional_add_fresh(
    t: TableView,
    off: int,
    p: Affine,
    q: Affine,
    c: nat,
    r: Affine,
)
    requires
        0 <= off,
        t.rows_free(off, off + 2),
        t.cell(Lane::A, off + 2) is None,
        t.rows_free(off + 3, off + 4),
    ensures
        t.writes_fresh(conditional_add_writes(off, p, q, c, r)),
{
}

/// An unwritten row takes the writes of a point.
pub proof fn lemma_point_fresh(t: TableView, off: int, p: Affine)
    requires
        0 <= off,
        t.rows_free(off, off + 1),
    ensures
        t.writes_fresh(point_writes(off, p)),
{
}

/// Two unwritten rows take the writes of a binary operation.
pub proof fn lemma_binary_fresh(t: TableView, off: int, x: nat, y: nat, z: nat)
    requires
        0 <= off,
        t.rows_free(off, off + 2),
    ensures
        t.writes_fresh(binary_writes(off, x, y, z)),
{
}

/// Two unwritten rows take the writes of the padding.
pub proof fn lemma_pad_fresh(t: TableView, off: int, v: nat)
    requires
        0 <= off,
        t.rows_free(off, off + 2),
    ensures
        t.writes_fresh(pad_writes(off, v)),
{
}

/// Three unwritten rows take the writes of a partial bit decomposition.
pub proof fn lemma_decomp_fresh(t: TableView, off: int, v: Seq<nat>)
    requires
        0 <= off,
        t.rows_free(off, off + 3),
    ensures
        t.writes_fresh(decomp_writes(off, v)),
{
}

} // verus!
