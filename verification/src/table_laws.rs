//! How the table's operations relate: written cells stay, and what was
//! met stays met as the table grows.

use crate::config::{gate_reads, gate_vanishes, GateKind};
use crate::expr::{Lane, Window};
use crate::table::{larger, reach, TableView};
use vstd::prelude::*;

verus! {

/// Whether the polynomials of a gate vanish depends only on the cells that
/// it reads.
pub proof fn lemma_gate_poly_reads(kind: GateKind, w1: Window, w2: Window)
    requires
        forall|q: (Lane, int)| #[trigger]
            gate_reads(kind).contains(q) ==> w1.get(q.0, q.1) == w2.get(q.0, q.1),
    ensures
        gate_vanishes(kind, w1) == gate_vanishes(kind, w2),
{
    reveal(TableView::satisfied);
    reveal(TableView::extends);
    let a0 = (Lane::A, 0int);
    let b0 = (Lane::B, 0int);
    let a1 = (Lane::A, 1int);
    let b1 = (Lane::B, 1int);
    let a2 = (Lane::A, 2int);
    let b2 = (Lane::B, 2int);
    let a3 = (Lane::A, 3int);
    let b3 = (Lane::B, 3int);
    match kind {
        GateKind::Add => {
            assert(gate_reads(kind).contains(a0) && gate_reads(kind).contains(b0) && gate_reads(
                kind,
            ).contains(a1));
        },
        GateKind::Mul => {
            assert(gate_reads(kind).contains(a0) && gate_reads(kind).contains(b0) && gate_reads(
                kind,
            ).contains(a1));
        },
        GateKind::PartialBitDecomp => {
            assert(gate_reads(kind).contains(a0) && gate_reads(kind).contains(b0) && gate_reads(
                kind,
            ).contains(a1) && gate_reads(kind).contains(b1) && gate_reads(kind).contains(a2)
                && gate_reads(kind).contains(b2));
        },
        GateKind::OnCurve => {
            assert(gate_reads(kind).contains(a0) && gate_reads(kind).contains(b0));
        },
        GateKind::EcDouble => {
            assert(gate_reads(kind).contains(a0) && gate_reads(kind).contains(b0) && gate_reads(
                kind,
            ).contains(a1) && gate_reads(kind).contains(b1));
        },
        GateKind::ConditionalEcAdd => {
            assert(gate_reads(kind).contains(a0) && gate_reads(kind).contains(b0) && gate_reads(
                kind,
            ).contains(a1) && gate_reads(kind).contains(b1) && gate_reads(kind).contains(a2)
                && gate_reads(kind).contains(a3) && gate_reads(kind).contains(b3));
        },
    }
}

/// No gate reads beyond rotation three.
pub proof fn lemma_gate_reads_range(kind: GateKind, q: (Lane, int))
    requires
        gate_reads(kind).contains(q),
    ensures
        0 <= q.1 <= 3,
{
    reveal(TableView::satisfied);
    reveal(TableView::extends);
}

/// A gate that is met stays met in a table that extends the one it was met
/// in.
pub proof fn lemma_extends_keeps_gate(old: TableView, new: TableView, kind: GateKind, row: int)
    requires
        new.extends(old),
        old.gate_holds(kind, row),
    ensures
        new.gate_holds(kind, row),
{
    reveal(TableView::satisfied);
    reveal(TableView::extends);
    assert forall|q: (Lane, int)| #[trigger] gate_reads(kind).contains(q) implies new.cell(
        q.0,
        row + q.1,
    ) is Some && new.window(row).get(q.0, q.1) == old.window(row).get(q.0, q.1) by {
        lemma_gate_reads_range(kind, q);
        assert(old.cell(q.0, row + q.1) is Some);
    }
    lemma_gate_poly_reads(kind, new.window(row), old.window(row));
}

/// A copy constraint that is met stays met in a table that extends the one
/// it was met in.
pub proof fn lemma_extends_keeps_copy(
    old: TableView,
    new: TableView,
    c: ((Lane, int), (Lane, int)),
)
    requires
        new.extends(old),
        old.copy_holds(c),
    ensures
        new.copy_holds(c),
{
    reveal(TableView::satisfied);
    reveal(TableView::extends);
    assert(old.cell(c.0.0, c.0.1) is Some);
    assert(old.cell(c.1.0, c.1.1) is Some);
}

/// A table that extends a satisfied one is satisfied as soon as the gates
/// and copy constraints it adds are met.
pub proof fn lemma_extension_satisfied(old: TableView, new: TableView)
    requires
        new.extends(old),
        old.satisfied(),
        forall|i: int|
            old.gates.len() <= i < new.gates.len() ==> new.gate_holds(
                (#[trigger] new.gates[i]).0,
                new.gates[i].1,
            ),
        forall|j: int|
            old.copies.len() <= j < new.copies.len() ==> new.copy_holds(#[trigger] new.copies[j]),
    ensures
        new.satisfied(),
{
    reveal(TableView::satisfied);
    reveal(TableView::extends);
    assert forall|i: int| 0 <= i < new.gates.len() implies new.gate_holds(
        (#[trigger] new.gates[i]).0,
        new.gates[i].1,
    ) by {
        if i < old.gates.len() {
            assert(new.gates.subrange(0, old.gates.len() as int)[i] == new.gates[i]);
            assert(old.gates[i] == new.gates[i]);
            lemma_extends_keeps_gate(old, new, old.gates[i].0, old.gates[i].1);
        }
    }
    assert forall|j: int| 0 <= j < new.copies.len() implies new.copy_holds(
        #[trigger] new.copies[j],
    ) by {
        if j < old.copies.len() {
            assert(new.copies.subrange(0, old.copies.len() as int)[j] == new.copies[j]);
            assert(old.copies[j] == new.copies[j]);
            lemma_extends_keeps_copy(old, new, old.copies[j]);
        }
    }
}

/// Every table extends itself.
pub proof fn lemma_extends_self(t: TableView)
    ensures
        t.extends(t),
{
    reveal(TableView::satisfied);
    reveal(TableView::extends);
    assert(t.gates.subrange(0, t.gates.len() as int) =~= t.gates);
    assert(t.copies.subrange(0, t.copies.len() as int) =~= t.copies);
}

/// Extension is transitive.
pub proof fn lemma_extends_chain(first: TableView, second: TableView, third: TableView)
    requires
        second.extends(first),
        third.extends(second),
    ensures
        third.extends(first),
{
    reveal(TableView::satisfied);
    reveal(TableView::extends);
    assert(third.gates.subrange(0, first.gates.len() as int) =~= first.gates) by {
        assert forall|i: int| 0 <= i < first.gates.len() implies third.gates[i]
            == first.gates[i] by {
            assert(second.gates.subrange(0, first.gates.len() as int)[i] == second.gates[i]);
            assert(third.gates.subrange(0, second.gates.len() as int)[i] == third.gates[i]);
        }
    }
    assert(third.copies.subrange(0, first.copies.len() as int) =~= first.copies) by {
        assert forall|i: int| 0 <= i < first.copies.len() implies third.copies[i]
            == first.copies[i] by {
            assert(second.copies.subrange(0, first.copies.len() as int)[i] == second.copies[i]);
            assert(third.copies.subrange(0, second.copies.len() as int)[i] == third.copies[i]);
        }
    }
    assert forall|lane: Lane, row: int| (#[trigger] first.cell(lane, row)) is Some implies third.cell(
        lane,
        row,
    ) == first.cell(lane, row) by {
        assert(second.cell(lane, row) == first.cell(lane, row));
    }
}

/// Writing into an unwritten cell extends the table, puts the value into
/// that cell and leaves every other cell as it was.
pub proof fn lemma_assign(t: TableView, lane: Lane, row: int, v: nat)
    requires
        t.a.len() == t.b.len(),
        0 <= row,
        t.cell(lane, row) is None,
    ensures
        t.assign(lane, row, v).extends(t),
        t.assign(lane, row, v).a.len() == t.assign(lane, row, v).b.len(),
        t.assign(lane, row, v).rows() == (if row + 1 > t.rows() { row + 1 } else { t.rows() }),
        t.assign(lane, row, v).cell(lane, row) == Some(v),
        forall|l: Lane, r: int|
            (l != lane || r != row) ==> #[trigger] t.assign(lane, row, v).cell(l, r) == t.cell(
                l,
                r,
            ),
        t.assign(lane, row, v).gates == t.gates,
        t.assign(lane, row, v).copies == t.copies,
{
    reveal(TableView::satisfied);
    reveal(TableView::extends);
    let n = t.assign(lane, row, v);
    assert(n.gates.subrange(0, t.gates.len() as int) =~= t.gates);
    assert(n.copies.subrange(0, t.copies.len() as int) =~= t.copies);
}

/// Switching a gate on extends the table and changes no cell.
pub proof fn lemma_enable(t: TableView, kind: GateKind, row: int)
    ensures
        t.enable(kind, row).extends(t),
        t.enable(kind, row).a == t.a,
        t.enable(kind, row).b == t.b,
        t.enable(kind, row).copies == t.copies,
        t.enable(kind, row).gates.len() == t.gates.len() + 1,
        t.enable(kind, row).gates[t.gates.len() as int] == (kind, row),
{
    reveal(TableView::satisfied);
    reveal(TableView::extends);
    let n = t.enable(kind, row);
    assert(n.gates.subrange(0, t.gates.len() as int) =~= t.gates);
    assert(n.copies.subrange(0, t.copies.len() as int) =~= t.copies);
}

/// Recording a copy constraint extends the table and changes no cell.
pub proof fn lemma_constrain(t: TableView, c: (Lane, int), d: (Lane, int))
    ensures
        t.constrain(c, d).extends(t),
        t.constrain(c, d).a == t.a,
        t.constrain(c, d).b == t.b,
        t.constrain(c, d).gates == t.gates,
        t.constrain(c, d).copies.len() == t.copies.len() + 1,
        t.constrain(c, d).copies[t.copies.len() as int] == (c, d),
{
    reveal(TableView::satisfied);
    reveal(TableView::extends);
    let n = t.constrain(c, d);
    assert(n.gates.subrange(0, t.gates.len() as int) =~= t.gates);
    assert(n.copies.subrange(0, t.copies.len() as int) =~= t.copies);
}

/// A sequence of writes to distinct unwritten cells extends the table,
/// puts each value into its cell and leaves every other cell as it was.
#[verifier::rlimit(30)]
pub proof fn lemma_assign_all(t: TableView, writes: Seq<(Lane, int, nat)>)
    requires
        t.a.len() == t.b.len(),
        t.writes_fresh(writes),
    ensures
        t.assign_all(writes).extends(t),
        t.assign_all(writes).a.len() == t.assign_all(writes).b.len(),
        t.assign_all(writes).rows() == larger(t.rows(), reach(writes)),
        forall|i: int|
            0 <= i < writes.len() ==> t.assign_all(writes).cell(
                (#[trigger] writes[i]).0,
                writes[i].1,
            ) == Some(writes[i].2),
        forall|l: Lane, r: int|
            (forall|i: int| 0 <= i < writes.len() ==> (#[trigger] writes[i]).0 != l || writes[i].1
                != r) ==> #[trigger] t.assign_all(writes).cell(l, r) == t.cell(l, r),
        t.assign_all(writes).gates == t.gates,
        t.assign_all(writes).copies == t.copies,
    decreases writes.len(),
{
    reveal(TableView::satisfied);
    reveal(TableView::extends);
    if writes.len() == 0 {
        lemma_extends_self(t);
    } else {
        let front = writes.drop_last();
        let last = writes.last();
        let k = writes.len() - 1;
        assert(writes[k] == last);
        assert forall|i: int| 0 <= i < front.len() implies front[i] == writes[i] by {}
        assert(t.writes_fresh(front)) by {
            assert forall|i: int| 0 <= i < front.len() implies 0 <= (#[trigger] front[i]).1
                && t.cell(front[i].0, front[i].1) is None by {
                assert(front[i] == writes[i]);
            }
            assert forall|i: int, j: int| 0 <= i < j < front.len() implies (#[trigger] front[i]).0
                != (#[trigger] front[j]).0 || front[i].1 != front[j].1 by {
                assert(front[i] == writes[i] && front[j] == writes[j]);
            }
        }
        lemma_assign_all(t, front);
        let mid = t.assign_all(front);
        assert(mid.cell(last.0, last.1) == t.cell(last.0, last.1)) by {
            assert forall|i: int| 0 <= i < front.len() implies (#[trigger] front[i]).0 != last.0
                || front[i].1 != last.1 by {
                assert(front[i] == writes[i]);
            }
        }
        lemma_assign(mid, last.0, last.1, last.2);
        let n = mid.assign(last.0, last.1, last.2);
        assert(n == t.assign_all(writes));
        lemma_extends_chain(t, mid, n);
        assert forall|i: int| 0 <= i < writes.len() implies n.cell(
            (#[trigger] writes[i]).0,
            writes[i].1,
        ) == Some(writes[i].2) by {
            if i < k {
                assert(front[i] == writes[i]);
                assert(mid.cell(front[i].0, front[i].1) == Some(front[i].2));
                assert(writes[i].0 != writes[k].0 || writes[i].1 != writes[k].1);
                assert(n.cell(writes[i].0, writes[i].1) == mid.cell(writes[i].0, writes[i].1));
            }
        }
        assert forall|l: Lane, r: int|
            (forall|i: int| 0 <= i < writes.len() ==> (#[trigger] writes[i]).0 != l || writes[i].1
                != r) implies #[trigger] n.cell(l, r) == t.cell(l, r) by {
            assert(writes[k].0 != l || writes[k].1 != r);
            assert forall|i: int| 0 <= i < front.len() implies (#[trigger] front[i]).0 != l
                || front[i].1 != r by {
                assert(front[i] == writes[i]);
            }
            assert(n.cell(l, r) == mid.cell(l, r));
            assert(mid.cell(l, r) == t.cell(l, r));
        }
    }
}

/// A step of layout with writes to distinct unwritten cells extends the
/// table, puts each value into its cell, leaves every other cell as it was
/// and appends its copy constraints and its gate. Where the table was
/// satisfied and the step's own copy constraints and gate are met, the
/// table stays satisfied.
#[verifier::rlimit(30)]
pub proof fn lemma_laid_out(
    t: TableView,
    writes: Seq<(Lane, int, nat)>,
    pairs: Seq<((Lane, int), (Lane, int))>,
    gate: Option<(GateKind, int)>,
)
    requires
        t.a.len() == t.b.len(),
        t.writes_fresh(writes),
    ensures
        t.laid_out(writes, pairs, gate).extends(t),
        t.laid_out(writes, pairs, gate).a.len() == t.laid_out(writes, pairs, gate).b.len(),
        t.laid_out(writes, pairs, gate).rows() == larger(t.rows(), reach(writes)),
        forall|i: int|
            0 <= i < writes.len() ==> t.laid_out(writes, pairs, gate).cell(
                (#[trigger] writes[i]).0,
                writes[i].1,
            ) == Some(writes[i].2),
        forall|l: Lane, r: int|
            (forall|i: int| 0 <= i < writes.len() ==> (#[trigger] writes[i]).0 != l || writes[i].1
                != r) ==> #[trigger] t.laid_out(writes, pairs, gate).cell(l, r) == t.cell(l, r),
        t.laid_out(writes, pairs, gate).copies == t.copies + pairs,
        t.laid_out(writes, pairs, gate).gates == (match gate {
            Some(g) => t.gates.push(g),
            None => t.gates,
        }),
        ({
            let n = t.laid_out(writes, pairs, gate);
            &&& t.satisfied()
            &&& forall|j: int| 0 <= j < pairs.len() ==> n.copy_holds(#[trigger] pairs[j])
            &&& gate matches Some(g) ==> n.gate_holds(g.0, g.1)
        }) ==> t.laid_out(writes, pairs, gate).satisfied(),
{
    reveal(TableView::satisfied);
    reveal(TableView::extends);
    let w = t.assign_all(writes);
    let c = w.constrain_all(pairs);
    let n = t.laid_out(writes, pairs, gate);
    lemma_assign_all(t, writes);
    assert(c.extends(w)) by {
        assert(c.gates.subrange(0, w.gates.len() as int) =~= w.gates);
        assert(c.copies.subrange(0, w.copies.len() as int) =~= w.copies);
    }
    lemma_extends_chain(t, w, c);
    match gate {
        Some(g) => {
            lemma_enable(c, g.0, g.1);
            lemma_extends_chain(t, c, n);
            assert(n.gates =~= t.gates.push(g));
        },
        None => {},
    }
    assert(n.a == w.a && n.b == w.b);
    assert forall|l: Lane, r: int| #[trigger] n.cell(l, r) == w.cell(l, r) by {}
    if t.satisfied() && (forall|j: int| 0 <= j < pairs.len() ==> n.copy_holds(#[trigger] pairs[j]))
        && (gate matches Some(g) ==> n.gate_holds(g.0, g.1)) {
        assert forall|i: int| t.gates.len() <= i < n.gates.len() implies n.gate_holds(
            (#[trigger] n.gates[i]).0,
            n.gates[i].1,
        ) by {
            assert(gate is Some);
            assert(n.gates[i] == gate->Some_0);
        }
        assert forall|j: int| t.copies.len() <= j < n.copies.len() implies n.copy_holds(
            #[trigger] n.copies[j],
        ) by {
            assert(n.copies[j] == pairs[j - t.copies.len()]);
        }
        lemma_extension_satisfied(t, n);
    }
}

/// A table with a gate that is switched on and not met is not satisfied.
pub proof fn lemma_unmet_gate(t: TableView, i: int)
    requires
        0 <= i < t.gates.len(),
        !t.gate_holds(t.gates[i].0, t.gates[i].1),
    ensures
        !t.satisfied(),
{
    reveal(TableView::satisfied);
}

/// A table with a copy constraint that is not met is not satisfied.
pub proof fn lemma_unmet_copy(t: TableView, j: int)
    requires
        0 <= j < t.copies.len(),
        !t.copy_holds(t.copies[j]),
    ensures
        !t.satisfied(),
{
    reveal(TableView::satisfied);
}

/// In a satisfied table every gate that is switched on is met, and every
/// copy constraint.
pub proof fn lemma_satisfied(t: TableView)
    requires
        t.satisfied(),
    ensures
        forall|i: int|
            0 <= i < t.gates.len() ==> t.gate_holds((#[trigger] t.gates[i]).0, t.gates[i].1),
        forall|j: int| 0 <= j < t.copies.len() ==> t.copy_holds(#[trigger] t.copies[j]),
{
    reveal(TableView::satisfied);
}

/// Switching a gate on a second time at the same row demands nothing new:
/// the table is satisfied after it exactly when it was before.
pub proof fn lemma_enable_idempotent(t: TableView, kind: GateKind, row: int)
    ensures
        t.enable(kind, row).enable(kind, row).satisfied() == t.enable(kind, row).satisfied(),
{
    reveal(TableView::satisfied);
    let once = t.enable(kind, row);
    let twice = once.enable(kind, row);
    assert forall|lane: Lane, r: int| #[trigger] twice.cell(lane, r) == once.cell(lane, r) by {}
    assert forall|k: GateKind, r: int| twice.gate_holds(k, r) == once.gate_holds(k, r) by {
        assert(twice.window(r) =~= once.window(r)) by {
            assert(twice.window(r).a =~= once.window(r).a);
            assert(twice.window(r).b =~= once.window(r).b);
        }
    }
    assert forall|c: ((Lane, int), (Lane, int))| twice.copy_holds(c) == once.copy_holds(c) by {}
    if once.satisfied() {
        assert forall|i: int| 0 <= i < twice.gates.len() implies twice.gate_holds(
            (#[trigger] twice.gates[i]).0,
            twice.gates[i].1,
        ) by {
            if i < once.gates.len() {
                assert(twice.gates[i] == once.gates[i]);
            } else {
                assert(twice.gates[i] == once.gates[once.gates.len() - 1]);
            }
        }
        assert forall|j: int| 0 <= j < twice.copies.len() implies twice.copy_holds(
            #[trigger] twice.copies[j],
        ) by {
            assert(twice.copies[j] == once.copies[j]);
        }
    }
    if twice.satisfied() {
        assert forall|i: int| 0 <= i < once.gates.len() implies once.gate_holds(
            (#[trigger] once.gates[i]).0,
            once.gates[i].1,
        ) by {
            assert(twice.gates[i] == once.gates[i]);
        }
        assert forall|j: int| 0 <= j < once.copies.len() implies once.copy_holds(
            #[trigger] once.copies[j],
        ) by {
            assert(twice.copies[j] == once.copies[j]);
        }
    }
}

/// Writes whose rows all lie below `end`, one of them in the row just
/// below it, reach up to `end`.
pub proof fn lemma_reach(writes: Seq<(Lane, int, nat)>, end: int, top: int)
    requires
        0 <= end,
        0 <= top < writes.len(),
        writes[top].1 == end - 1,
        forall|i: int| 0 <= i < writes.len() ==> (#[trigger] writes[i]).1 < end,
    ensures
        reach(writes) == end,
    decreases writes.len(),
{
    lemma_reach_bound(writes, end);
    let front = writes.drop_last();
    if top < writes.len() - 1 {
        assert(front[top] == writes[top]);
        lemma_reach(front, end, top);
    } else {
        lemma_reach_bound(front, end);
    }
}

/// Writes whose rows all lie below `end` do not reach beyond `end`.
pub proof fn lemma_reach_bound(writes: Seq<(Lane, int, nat)>, end: int)
    requires
        0 <= end,
        forall|i: int| 0 <= i < writes.len() ==> (#[trigger] writes[i]).1 < end,
    ensures
        reach(writes) <= end,
    decreases writes.len(),
{
    if writes.len() > 0 {
        let front = writes.drop_last();
        assert forall|i: int| 0 <= i < front.len() implies (#[trigger] front[i]).1 < end by {
            assert(front[i] == writes[i]);
        }
        lemma_reach_bound(front, end);
        assert(writes.last() == writes[writes.len() - 1]);
    }
}

/// A table keeps the cells of the table it extends.
pub proof fn lemma_extends_keeps_cell(old: TableView, new: TableView, lane: Lane, row: int)
    requires
        new.extends(old),
        old.cell(lane, row) is Some,
    ensures
        new.cell(lane, row) == old.cell(lane, row),
        old.rows() <= new.rows(),
{
    reveal(TableView::extends);
}

/// A table that ends by a row has nothing written from that row on.
pub proof fn lemma_ends_by(t: TableView, off: int, to: int)
    requires
        t.a.len() == t.b.len(),
        t.ends_by(off),
    ensures
        t.rows_free(off, to),
        forall|lane: Lane, row: int| row >= off ==> (#[trigger] t.cell(lane, row)) is None,
{
}

} // verus!
