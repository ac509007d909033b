//! Gate templates: for each kind of gate the polynomials that must all
//! vanish on every row where a gate of that kind is switched on.

use crate::curve::{
    add_x_den, add_x_num, add_y_den, add_y_num, curve_a_element, curve_cross, curve_d_element,
    curve_lhs, double_x_den, double_x_num, double_y_den, double_y_num, Affine,
};
use crate::expr::{Expr, Lane, Window};
use crate::field::{fadd, fmul, fsub, Fe};
use vstd::prelude::*;

verus! {

/// The kinds of gate.
#[derive(Clone, Copy, Debug, PartialEq, Eq, Structural)]
pub enum GateKind {
    /// `a[0] + b[0] = a[1]`.
    Add,
    /// `a[0] * b[0] = a[1]`.
    Mul,
    /// Four bits folded into an accumulator.
    PartialBitDecomp,
    /// The point at the row lies on the curve.
    OnCurve,
    /// The point at the next row is the double of the one at the row.
    EcDouble,
    /// The point three rows down is the conditional sum of the two points
    /// at the row and the next.
    ConditionalEcAdd,
}

/// The point in the two lanes of the window at a rotation.
pub open spec fn point_at(w: Window, rotation: int) -> Affine {
    Affine { x: w.a[rotation], y: w.b[rotation] }
}

/// The polynomial `a[0] + b[0] - a[1]`.
pub open spec fn add_gate_poly(w: Window) -> nat {
    fsub(fadd(w.a[0], w.b[0]), w.a[1])
}

/// The polynomial `a[0] * b[0] - a[1]`.
pub open spec fn mul_gate_poly(w: Window) -> nat {
    fsub(fmul(w.a[0], w.b[0]), w.a[1])
}

/// The term `v * (1 - v)`, which vanishes on bits.
pub open spec fn bit_term(v: nat) -> nat {
    fmul(v, fsub(1, v))
}

/// The accumulation `x1 + 2 y1 + 4 x2 + 8 y2 + 16 x3` of four bits onto
/// the accumulator `x3`.
pub open spec fn nibble_sum(w: Window) -> nat {
    fadd(
        fadd(fadd(fadd(w.a[0], fmul(2, w.b[0])), fmul(4, w.a[1])), fmul(8, w.b[1])),
        fmul(16, w.a[2]),
    )
}

/// The polynomial `x1 + 2 y1 + 4 x2 + 8 y2 + 16 x3 - y3` of the partial bit
/// decomposition.
pub open spec fn decom_sum_poly(w: Window) -> nat {
    fsub(nibble_sum(w), w.b[2])
}

/// The polynomial `a x^2 + y^2 - 1 - d x^2 y^2` on the point at the row.
pub open spec fn on_curve_poly(w: Window) -> nat {
    let p = point_at(w, 0);
    fsub(fsub(curve_lhs(p), 1), curve_cross(p))
}

/// The first polynomial of the doubling law: with `(x1, y1)` at the row
/// and `(x2, y2)` at the next, `x1 y1 + y1 x1 - x2 (1 + d x1^2 y1^2)`.
pub open spec fn double_x_poly(w: Window) -> nat {
    let p = point_at(w, 0);
    fsub(double_x_num(p), fmul(w.a[1], double_x_den(p)))
}

/// The second polynomial of the doubling law:
/// `(y1^2 - a x1^2) - y2 (1 - d x1^2 y1^2)`.
pub open spec fn double_y_poly(w: Window) -> nat {
    let p = point_at(w, 0);
    fsub(double_y_num(p), fmul(w.b[1], double_y_den(p)))
}

/// The first coordinate's share `x3 (1 + d x1 x2 y1 y2) - (x1 y2 + y1 x2)`
/// of the addition law.
pub open spec fn add_x_residue(p: Affine, q: Affine, r: Affine) -> nat {
    fsub(fmul(r.x, add_x_den(p, q)), add_x_num(p, q))
}

/// The second coordinate's share `y3 (1 - d x1 x2 y1 y2) - (y1 y2 - a x1 x2)`
/// of the addition law.
pub open spec fn add_y_residue(p: Affine, q: Affine, r: Affine) -> nat {
    fsub(fmul(r.y, add_y_den(p, q)), add_y_num(p, q))
}

/// The first polynomial of the conditional addition: with the two points
/// at the row and the next, the condition `c` in lane `A` two rows down
/// and the result three rows down, `c` times the first coordinate's share
/// of the addition law plus `1 - c` times `x3 - x1`.
pub open spec fn conditional_x_poly(w: Window) -> nat {
    let p = point_at(w, 0);
    let q = point_at(w, 1);
    let c = w.a[2];
    let r = point_at(w, 3);
    fadd(fmul(c, add_x_residue(p, q, r)), fmul(fsub(1, c), fsub(r.x, p.x)))
}

/// The second polynomial of the conditional addition: `c` times the
/// second coordinate's share of the addition law plus `1 - c` times
/// `y3 - y1`.
pub open spec fn conditional_y_poly(w: Window) -> nat {
    let p = point_at(w, 0);
    let q = point_at(w, 1);
    let c = w.a[2];
    let r = point_at(w, 3);
    fadd(fmul(c, add_y_residue(p, q, r)), fmul(fsub(1, c), fsub(r.y, p.y)))
}

/// Every polynomial of a gate kind vanishes on the window.
pub open spec fn gate_vanishes(kind: GateKind, w: Window) -> bool {
    match kind {
        GateKind::Add => add_gate_poly(w) == 0,
        GateKind::Mul => mul_gate_poly(w) == 0,
        GateKind::PartialBitDecomp => {
            &&& decom_sum_poly(w) == 0
            &&& bit_term(w.a[0]) == 0
            &&& bit_term(w.b[0]) == 0
            &&& bit_term(w.a[1]) == 0
            &&& bit_term(w.b[1]) == 0
        },
        GateKind::OnCurve => on_curve_poly(w) == 0,
        GateKind::EcDouble => double_x_poly(w) == 0 && double_y_poly(w) == 0,
        GateKind::ConditionalEcAdd => conditional_x_poly(w) == 0 && conditional_y_poly(w) == 0,
    }
}

/// Every polynomial of a sequence vanishes on the window.
pub open spec fn all_vanish(es: Seq<Expr>, w: Window) -> bool {
    forall|i: int| 0 <= i < es.len() ==> (#[trigger] es[i]).eval(w) == 0
}

/// The polynomials of a sequence read, between them, exactly the cells of
/// a set.
pub open spec fn read_exactly(es: Seq<Expr>, cells: Set<(Lane, int)>) -> bool {
    &&& forall|i: int, q: (Lane, int)|
        0 <= i < es.len() && (#[trigger] es[i]).reads().contains(q) ==> #[trigger] cells.contains(
            q,
        )
    &&& forall|q: (Lane, int)| #[trigger]
        cells.contains(q) ==> exists|i: int|
            0 <= i < es.len() && (#[trigger] es[i]).reads().contains(q)
}

/// Every polynomial of a sequence is well formed.
pub open spec fn all_wf(es: Seq<Expr>) -> bool {
    forall|i: int| 0 <= i < es.len() ==> (#[trigger] es[i]).wf()
}

/// The cells a gate kind reads, each as a lane and a rotation.
pub open spec fn gate_reads(kind: GateKind) -> Set<(Lane, int)> {
    match kind {
        GateKind::Add => set![(Lane::A, 0int), (Lane::B, 0int), (Lane::A, 1int)],
        GateKind::Mul => set![(Lane::A, 0int), (Lane::B, 0int), (Lane::A, 1int)],
        GateKind::PartialBitDecomp => set![
            (Lane::A, 0int),
            (Lane::B, 0int),
            (Lane::A, 1int),
            (Lane::B, 1int),
            (Lane::A, 2int),
            (Lane::B, 2int)
        ],
        GateKind::OnCurve => set![(Lane::A, 0int), (Lane::B, 0int)],
        GateKind::EcDouble => set![
            (Lane::A, 0int),
            (Lane::B, 0int),
            (Lane::A, 1int),
            (Lane::B, 1int)
        ],
        GateKind::ConditionalEcAdd => set![
            (Lane::A, 0int),
            (Lane::B, 0int),
            (Lane::A, 1int),
            (Lane::B, 1int),
            (Lane::A, 2int),
            (Lane::A, 3int),
            (Lane::B, 3int)
        ],
    }
}

/// The configuration of the chip: the two witness lanes its gates read.
#[derive(Clone, Copy, Debug)]
pub struct ECConfig {
    pub a: Lane,
    pub b: Lane,
}

impl ECConfig {
    /// The first lane is `A` and the second is `B`.
    pub open spec fn wf(&self) -> bool {
        self.a == Lane::A && self.b == Lane::B
    }

    /// The configuration over the two lanes of the table.
    pub fn configure() -> (r: ECConfig)
        ensures
            r.wf(),
    {
        ECConfig { a: Lane::A, b: Lane::B }
    }

    /// The addition gate: the single polynomial `a[0] + b[0] - a[1]`.
    pub fn add_gate(&self) -> (es: Vec<Expr>)
        requires
            self.wf(),
        ensures
            es.len() == 1,
            es[0].wf(),
            es[0].reads() == gate_reads(GateKind::Add),
            forall|w: Window| #[trigger] es[0].eval(w) == add_gate_poly(w),
    {
        let a0 = Expr::advice(self.a, 0);
        let b0 = Expr::advice(self.b, 0);
        let a1 = Expr::advice(self.a, 1);
        let e = a0.plus(b0).minus(a1);
        proof {
            assert(e.reads() =~= gate_reads(GateKind::Add));
        }
        vec![e]
    }

    /// The multiplication gate: the single polynomial `a[0] * b[0] - a[1]`.
    pub fn mul_gate(&self) -> (es: Vec<Expr>)
        requires
            self.wf(),
        ensures
            es.len() == 1,
            es[0].wf(),
            es[0].reads() == gate_reads(GateKind::Mul),
            forall|w: Window| #[trigger] es[0].eval(w) == mul_gate_poly(w),
    {
        let a0 = Expr::advice(self.a, 0);
        let b0 = Expr::advice(self.b, 0);
        let a1 = Expr::advice(self.a, 1);
        let e = a0.times(b0).minus(a1);
        proof {
            assert(e.reads() =~= gate_reads(GateKind::Mul));
        }
        vec![e]
    }

    /// The on-curve gate: the single polynomial that holds the point at
    /// the row to the curve equation.
    pub fn on_curve_gate(&self) -> (es: Vec<Expr>)
        requires
            self.wf(),
        ensures
            es.len() == 1,
            es[0].wf(),
            es[0].reads() == gate_reads(GateKind::OnCurve),
            forall|w: Window| #[trigger] es[0].eval(w) == on_curve_poly(w),
    {
        let one = Expr::constant(Fe::one());
        let curve_param_a = Expr::constant(curve_a_element());
        let a0 = Expr::advice(self.a, 0);
        let b0 = Expr::advice(self.b, 0);
        let e = curve_param_a.times(a0.square()).plus(b0.square()).minus(one).minus(
            self.cross_term(),
        );
        proof {
            assert(e.reads() =~= gate_reads(GateKind::OnCurve));
        }
        vec![e]
    }

    /// The product `d x^2 y^2` over the point at the row.
    fn cross_term(&self) -> (e: Expr)
        requires
            self.wf(),
        ensures
            e.wf(),
            e.reads() == set![(Lane::A, 0int), (Lane::B, 0int)],
            forall|w: Window| #[trigger] e.eval(w) == curve_cross(point_at(w, 0)),
    {
        let curve_param_d = Expr::constant(curve_d_element());
        let a0 = Expr::advice(self.a, 0);
        let b0 = Expr::advice(self.b, 0);
        let e = curve_param_d.times(a0.square()).times(b0.square());
        proof {
            assert(e.reads() =~= set![(Lane::A, 0int), (Lane::B, 0int)]);
        }
        e
    }

    /// The first coordinate's polynomial of the doubling law.
    fn double_x_equation(&self) -> (e: Expr)
        requires
            self.wf(),
        ensures
            e.wf(),
            e.reads() == set![(Lane::A, 0int), (Lane::B, 0int), (Lane::A, 1int)],
            forall|w: Window| #[trigger] e.eval(w) == double_x_poly(w),
    {
        let one = Expr::constant(Fe::one());
        let a0 = Expr::advice(self.a, 0);
        let b0 = Expr::advice(self.b, 0);
        let a1 = Expr::advice(self.a, 1);
        let cross = self.cross_term();
        let num = a0.duplicate().times(b0.duplicate()).plus(b0.times(a0));
        let e = num.minus(a1.times(one.plus(cross)));
        proof {
            assert(e.reads() =~= set![(Lane::A, 0int), (Lane::B, 0int), (Lane::A, 1int)]);
        }
        e
    }

    /// The second coordinate's polynomial of the doubling law.
    fn double_y_equation(&self) -> (e: Expr)
        requires
            self.wf(),
        ensures
            e.wf(),
            e.reads() == set![(Lane::A, 0int), (Lane::B, 0int), (Lane::B, 1int)],
            forall|w: Window| #[trigger] e.eval(w) == double_y_poly(w),
    {
        let one = Expr::constant(Fe::one());
        let curve_param_a = Expr::constant(curve_a_element());
        let a0 = Expr::advice(self.a, 0);
        let b0 = Expr::advice(self.b, 0);
        let b1 = Expr::advice(self.b, 1);
        let cross = self.cross_term();
        let num = b0.square().minus(curve_param_a.times(a0.square()));
        let e = num.minus(b1.times(one.minus(cross)));
        proof {
            assert(e.reads() =~= set![(Lane::A, 0int), (Lane::B, 0int), (Lane::B, 1int)]);
        }
        e
    }

    /// The doubling gate: one polynomial for each coordinate of the
    /// doubling law.
    pub fn ec_double_gate(&self) -> (es: Vec<Expr>)
        requires
            self.wf(),
        ensures
            es.len() == 2,
            all_wf(es@),
            read_exactly(es@, gate_reads(GateKind::EcDouble)),
            forall|w: Window| #[trigger] es[0].eval(w) == double_x_poly(w),
            forall|w: Window| #[trigger] es[1].eval(w) == double_y_poly(w),
    {
        let x3_equation = self.double_x_equation();
        let y3_equation = self.double_y_equation();
        let es = vec![x3_equation, y3_equation];
        proof {
            let cells = gate_reads(GateKind::EcDouble);
            assert(es[0].reads().contains((Lane::A, 0int)));
            assert(es[0].reads().contains((Lane::B, 0int)));
            assert(es[0].reads().contains((Lane::A, 1int)));
            assert(es[1].reads().contains((Lane::B, 1int)));
        }
        es
    }

    /// The term `v * (1 - v)` over a cell.
    fn bit_term_of(lane: Lane, rotation: u8) -> (e: Expr)
        requires
            rotation <= 3,
        ensures
            e.wf(),
            e.reads() == set![(lane, rotation as int)],
            forall|w: Window| #[trigger] e.eval(w) == bit_term(w.get(lane, rotation as int)),
    {
        let one = Expr::constant(Fe::one());
        let v = Expr::advice(lane, rotation);
        let e = v.duplicate().times(one.minus(v));
        proof {
            assert(e.reads() =~= set![(lane, rotation as int)]);
        }
        e
    }

    /// The polynomial `x1 + 2 y1 + 4 x2 + 8 y2 + 16 x3 - y3`.
    fn decom_sum(&self) -> (e: Expr)
        requires
            self.wf(),
        ensures
            e.wf(),
            e.reads() == gate_reads(GateKind::PartialBitDecomp),
            forall|w: Window| #[trigger] e.eval(w) == decom_sum_poly(w),
    {
        let two = Expr::constant(Fe::from_u64(2));
        let four = Expr::constant(Fe::from_u64(4));
        let eight = Expr::constant(Fe::from_u64(8));
        let sixteen = Expr::constant(Fe::from_u64(16));
        let a0 = Expr::advice(self.a, 0);
        let b0 = Expr::advice(self.b, 0);
        let a1 = Expr::advice(self.a, 1);
        let b1 = Expr::advice(self.b, 1);
        let a2 = Expr::advice(self.a, 2);
        let b2 = Expr::advice(self.b, 2);
        let e = a0.plus(two.times(b0)).plus(four.times(a1)).plus(eight.times(b1)).plus(
            sixteen.times(a2),
        ).minus(b2);
        proof {
            assert(e.reads() =~= gate_reads(GateKind::PartialBitDecomp));
        }
        e
    }

    /// The partial bit decomposition gate: the accumulation, and one
    /// polynomial for each of the four bit candidates.
    #[verifier::rlimit(30)]
    pub fn partial_bit_decom_gate(&self) -> (es: Vec<Expr>)
        requires
            self.wf(),
        ensures
            es.len() == 5,
            all_wf(es@),
            read_exactly(es@, gate_reads(GateKind::PartialBitDecomp)),
            forall|w: Window| #[trigger] es[0].eval(w) == decom_sum_poly(w),
            forall|w: Window| #[trigger] es[1].eval(w) == bit_term(w.a[0]),
            forall|w: Window| #[trigger] es[2].eval(w) == bit_term(w.b[0]),
            forall|w: Window| #[trigger] es[3].eval(w) == bit_term(w.a[1]),
            forall|w: Window| #[trigger] es[4].eval(w) == bit_term(w.b[1]),
    {
        let sum = self.decom_sum();
        let t0 = ECConfig::bit_term_of(self.a, 0);
        let t1 = ECConfig::bit_term_of(self.b, 0);
        let t2 = ECConfig::bit_term_of(self.a, 1);
        let t3 = ECConfig::bit_term_of(self.b, 1);
        let es = vec![sum, t0, t1, t2, t3];
        proof {
            assert forall|q: (Lane, int)| #[trigger]
                gate_reads(GateKind::PartialBitDecomp).contains(q) implies exists|i: int|
                0 <= i < es@.len() && (#[trigger] es@[i]).reads().contains(q) by {
                assert(es@[0].reads().contains(q));
            }
        }
        es
    }

    /// The first coordinate's share of the addition law over the window.
    fn add_x_share(&self) -> (e: Expr)
        requires
            self.wf(),
        ensures
            e.wf(),
            e.reads() == set![
                (Lane::A, 0int),
                (Lane::B, 0int),
                (Lane::A, 1int),
                (Lane::B, 1int),
                (Lane::A, 3int)
            ],
            forall|w: Window| #[trigger]
                e.eval(w) == add_x_residue(point_at(w, 0), point_at(w, 1), point_at(w, 3)),
    {
        let one = Expr::constant(Fe::one());
        let a0 = Expr::advice(self.a, 0);
        let b0 = Expr::advice(self.b, 0);
        let a1 = Expr::advice(self.a, 1);
        let b1 = Expr::advice(self.b, 1);
        let a2 = Expr::advice(self.a, 3);
        let divider_1 = one.plus(self.add_cross_term());
        let dividend_1 = a0.times(b1).plus(b0.times(a1));
        let e = a2.times(divider_1).minus(dividend_1);
        proof {
            assert(e.reads() =~= set![
                (Lane::A, 0int),
                (Lane::B, 0int),
                (Lane::A, 1int),
                (Lane::B, 1int),
                (Lane::A, 3int)
            ]);
        }
        e
    }

    /// The second coordinate's share of the addition law over the window.
    fn add_y_share(&self) -> (e: Expr)
        requires
            self.wf(),
        ensures
            e.wf(),
            e.reads() == set![
                (Lane::A, 0int),
                (Lane::B, 0int),
                (Lane::A, 1int),
                (Lane::B, 1int),
                (Lane::B, 3int)
            ],
            forall|w: Window| #[trigger]
                e.eval(w) == add_y_residue(point_at(w, 0), point_at(w, 1), point_at(w, 3)),
    {
        let one = Expr::constant(Fe::one());
        let curve_param_a = Expr::constant(curve_a_element());
        let a0 = Expr::advice(self.a, 0);
        let b0 = Expr::advice(self.b, 0);
        let a1 = Expr::advice(self.a, 1);
        let b1 = Expr::advice(self.b, 1);
        let b2 = Expr::advice(self.b, 3);
        let divider_2 = one.minus(self.add_cross_term());
        let dividend_2 = b0.times(b1).minus(curve_param_a.times(a0).times(a1));
        let e = b2.times(divider_2).minus(dividend_2);
        proof {
            assert(e.reads() =~= set![
                (Lane::A, 0int),
                (Lane::B, 0int),
                (Lane::A, 1int),
                (Lane::B, 1int),
                (Lane::B, 3int)
            ]);
        }
        e
    }

    /// The product `d x1 x2 y1 y2` over the two points of the window.
    fn add_cross_term(&self) -> (e: Expr)
        requires
            self.wf(),
        ensures
            e.wf(),
            e.reads() == set![(Lane::A, 0int), (Lane::B, 0int), (Lane::A, 1int), (Lane::B, 1int)],
            forall|w: Window| #[trigger]
                e.eval(w) == crate::curve::add_cross(point_at(w, 0), point_at(w, 1)),
    {
        let curve_param_d = Expr::constant(curve_d_element());
        let a0 = Expr::advice(self.a, 0);
        let b0 = Expr::advice(self.b, 0);
        let a1 = Expr::advice(self.a, 1);
        let b1 = Expr::advice(self.b, 1);
        let e = curve_param_d.times(a0).times(a1).times(b0).times(b1);
        proof {
            assert(e.reads() =~= set![
                (Lane::A, 0int),
                (Lane::B, 0int),
                (Lane::A, 1int),
                (Lane::B, 1int)
            ]);
        }
        e
    }

    /// The blend `c * share + (1 - c) * (result - first)` for one
    /// coordinate, with the condition `c` in lane `A` two rows down.
    fn blended(&self, share: Expr, lane: Lane) -> (e: Expr)
        requires
            self.wf(),
            share.wf(),
        ensures
            e.wf(),
            e.reads() == share.reads().union(
                set![(Lane::A, 2int), (lane, 3int), (lane, 0int)],
            ),
            forall|w: Window| #[trigger]
                e.eval(w) == fadd(
                    fmul(w.a[2], share.eval(w)),
                    fmul(fsub(1, w.a[2]), fsub(w.get(lane, 3), w.get(lane, 0))),
                ),
    {
        let one = Expr::constant(Fe::one());
        let condition = Expr::advice(self.a, 2);
        let result = Expr::advice(lane, 3);
        let first = Expr::advice(lane, 0);
        let keep = one.minus(condition.duplicate()).times(result.minus(first));
        let ghost share_reads = share.reads();
        let e = condition.times(share).plus(keep);
        proof {
            assert(e.reads() =~= share_reads.union(
                set![(Lane::A, 2int), (lane, 3int), (lane, 0int)],
            ));
        }
        e
    }

    /// The conditional addition gate: for each coordinate one polynomial
    /// that folds both branches together by the condition.
    #[verifier::rlimit(30)]
    pub fn conditional_ec_add_gate(&self) -> (es: Vec<Expr>)
        requires
            self.wf(),
        ensures
            es.len() == 2,
            all_wf(es@),
            read_exactly(es@, gate_reads(GateKind::ConditionalEcAdd)),
            forall|w: Window| #[trigger] es[0].eval(w) == conditional_x_poly(w),
            forall|w: Window| #[trigger] es[1].eval(w) == conditional_y_poly(w),
    {
        let x3_comp = self.add_x_share();
        let y3_comp = self.add_y_share();
        let x = self.blended(x3_comp, Lane::A);
        let y = self.blended(y3_comp, Lane::B);
        let es = vec![x, y];
        proof {
            assert(es[0].reads().contains((Lane::A, 0int)));
            assert(es[0].reads().contains((Lane::B, 0int)));
            assert(es[0].reads().contains((Lane::A, 1int)));
            assert(es[0].reads().contains((Lane::B, 1int)));
            assert(es[0].reads().contains((Lane::A, 2int)));
            assert(es[0].reads().contains((Lane::A, 3int)));
            assert(es[1].reads().contains((Lane::B, 3int)));
        }
        es
    }

    /// The polynomials of a kind of gate: it is met on a row where each of
    /// them vanishes.
    #[verifier::rlimit(30)]
    pub fn gate(&self, kind: GateKind) -> (es: Vec<Expr>)
        requires
            self.wf(),
        ensures
            all_wf(es@),
            read_exactly(es@, gate_reads(kind)),
            forall|w: Window| #[trigger] all_vanish(es@, w) == gate_vanishes(kind, w),
    {
        let es = match kind {
            GateKind::Add => self.add_gate(),
            GateKind::Mul => self.mul_gate(),
            GateKind::PartialBitDecomp => self.partial_bit_decom_gate(),
            GateKind::OnCurve => self.on_curve_gate(),
            GateKind::EcDouble => self.ec_double_gate(),
            GateKind::ConditionalEcAdd => self.conditional_ec_add_gate(),
        };
        proof {
            assert forall|w: Window| #[trigger] all_vanish(es@, w) == gate_vanishes(kind, w) by {
                if gate_vanishes(kind, w) {
                    assert forall|i: int| 0 <= i < es@.len() implies (#[trigger] es@[i]).eval(w)
                        == 0 by {}
                }
                if all_vanish(es@, w) {
                    assert(es@[0].eval(w) == 0);
                    if es@.len() > 1 {
                        assert(es@[1].eval(w) == 0);
                    }
                    if es@.len() > 2 {
                        assert(es@[2].eval(w) == 0);
                        assert(es@[3].eval(w) == 0);
                        assert(es@[4].eval(w) == 0);
                    }
                }
            }
            if kind == GateKind::Add || kind == GateKind::Mul || kind == GateKind::OnCurve {
                assert forall|q: (Lane, int)| #[trigger]
                    gate_reads(kind).contains(q) implies exists|i: int|
                    0 <= i < es@.len() && (#[trigger] es@[i]).reads().contains(q) by {
                    assert(es@[0].reads().contains(q));
                }
            }
        }
        es
    }
}

} // verus!
