//! The witness table: two lanes of cells that are written once, the gates
//! switched on per row, and the copy constraints between cells.

use crate::config::{gate_reads, gate_vanishes, ECConfig, GateKind};
use crate::expr::{Expr, Lane, Window};
use crate::field::Fe;
use vstd::prelude::*;

verus! {

/// The place of a cell: its lane and its row.
#[derive(Clone, Copy, Debug, PartialEq, Eq, Structural)]
pub struct CellRef {
    pub lane: Lane,
    pub row: usize,
}

/// A cell that has been written: its place and the value it holds.
#[derive(Clone, Copy, Debug)]
pub struct AssignedCell {
    pub lane: Lane,
    pub row: usize,
    pub value: Fe,
}

impl AssignedCell {
    /// The place of the cell.
    pub fn cell(&self) -> (r: CellRef)
        ensures
            r == (CellRef { lane: self.lane, row: self.row }),
    {
        CellRef { lane: self.lane, row: self.row }
    }

    /// The value the cell holds.
    pub fn value(&self) -> (r: Fe)
        ensures
            r == self.value,
    {
        self.value
    }
}

/// Why an operation on the table failed. That a gate or a copy constraint
/// is not met is no failure of an operation: it shows when the table is
/// tested for satisfaction.
#[derive(Clone, Copy, Debug, PartialEq, Eq, Structural)]
pub enum ChipError {
    /// The cell to be written holds a value already.
    AssignmentConflict,
}

/// The table as a mathematical value.
pub struct TableView {
    /// The cells of lane `A`, row by row.
    pub a: Seq<Option<nat>>,
    /// The cells of lane `B`, row by row.
    pub b: Seq<Option<nat>>,
    /// The gates switched on, each with its row, in the order of switching.
    pub gates: Seq<(GateKind, int)>,
    /// The pairs of cells constrained to be equal, in the order of
    /// recording.
    pub copies: Seq<((Lane, int), (Lane, int))>,
}

/// A lane lengthened with unwritten cells to at least `len` rows.
pub open spec fn padded(cells: Seq<Option<nat>>, len: int) -> Seq<Option<nat>> {
    Seq::new(
        (if len > cells.len() { len } else { cells.len() as int }) as nat,
        |i: int| if i < cells.len() { cells[i] } else { None },
    )
}

impl TableView {
    /// The table without rows, gates or copy constraints.
    pub open spec fn empty() -> TableView {
        TableView { a: Seq::empty(), b: Seq::empty(), gates: Seq::empty(), copies: Seq::empty() }
    }

    /// The number of rows.
    pub open spec fn rows(self) -> int {
        self.a.len() as int
    }

    /// The cells of a lane.
    pub open spec fn lane(self, lane: Lane) -> Seq<Option<nat>> {
        match lane {
            Lane::A => self.a,
            Lane::B => self.b,
        }
    }

    /// The content of a cell: `None` where nothing was written or the row
    /// lies outside the table.
    pub open spec fn cell(self, lane: Lane, row: int) -> Option<nat> {
        if 0 <= row < self.lane(lane).len() {
            self.lane(lane)[row]
        } else {
            None
        }
    }

    /// The value a gate sees in a cell: what was written, and zero
    /// otherwise.
    pub open spec fn value(self, lane: Lane, row: int) -> nat {
        match self.cell(lane, row) {
            Some(v) => v,
            None => 0,
        }
    }

    /// The window of values around a row.
    pub open spec fn window(self, row: int) -> Window {
        Window {
            a: Seq::new(4, |r: int| self.value(Lane::A, row + r)),
            b: Seq::new(4, |r: int| self.value(Lane::B, row + r)),
        }
    }

    /// Every cell that a gate of the kind reads from `row` has been written.
    pub open spec fn reads_assigned(self, kind: GateKind, row: int) -> bool {
        forall|q: (Lane, int)| #[trigger]
            gate_reads(kind).contains(q) ==> self.cell(q.0, row + q.1) is Some
    }

    /// A gate of the kind, switched on at `row`, is met: its cells are
    /// written and each of its polynomials vanishes.
    pub open spec fn gate_holds(self, kind: GateKind, row: int) -> bool {
        self.reads_assigned(kind, row) && gate_vanishes(kind, self.window(row))
    }

    /// The copy constraint is met: both cells are written and hold the same
    /// value.
    pub open spec fn copy_holds(self, c: ((Lane, int), (Lane, int))) -> bool {
        self.cell(c.0.0, c.0.1) is Some && self.cell(c.0.0, c.0.1) == self.cell(c.1.0, c.1.1)
    }

    /// Every gate that is switched on and every copy constraint is met.
    #[verifier::opaque]
    pub open spec fn satisfied(self) -> bool {
        &&& forall|i: int|
            0 <= i < self.gates.len() ==> self.gate_holds(
                (#[trigger] self.gates[i]).0,
                self.gates[i].1,
            )
        &&& forall|j: int| 0 <= j < self.copies.len() ==> self.copy_holds(#[trigger] self.copies[j])
    }

    /// The table after writing `v` into a cell, lengthened where the row
    /// lies beyond its end.
    pub open spec fn assign(self, lane: Lane, row: int, v: nat) -> TableView {
        let a = padded(self.a, row + 1);
        let b = padded(self.b, row + 1);
        match lane {
            Lane::A => TableView { a: a.update(row, Some(v)), b: b, ..self },
            Lane::B => TableView { a: a, b: b.update(row, Some(v)), ..self },
        }
    }

    /// Nothing has been written into the rows from `from` up to, but not
    /// including, `to`.
    pub open spec fn rows_free(self, from: int, to: int) -> bool {
        forall|lane: Lane, row: int| from <= row < to ==> (#[trigger] self.cell(lane, row)) is None
    }

    /// The table after a sequence of writes, each a lane, a row and a
    /// value, made in order.
    pub open spec fn assign_all(self, writes: Seq<(Lane, int, nat)>) -> TableView
        decreases writes.len(),
    {
        if writes.len() == 0 {
            self
        } else {
            self.assign_all(writes.drop_last()).assign(
                writes.last().0,
                writes.last().1,
                writes.last().2,
            )
        }
    }

    /// The writes go to cells of the table that are unwritten, no two of
    /// them to the same cell.
    pub open spec fn writes_fresh(self, writes: Seq<(Lane, int, nat)>) -> bool {
        &&& forall|i: int|
            0 <= i < writes.len() ==> 0 <= (#[trigger] writes[i]).1 && self.cell(
                writes[i].0,
                writes[i].1,
            ) is None
        &&& forall|i: int, j: int|
            0 <= i < j < writes.len() ==> (#[trigger] writes[i]).0 != (#[trigger] writes[j]).0
                || writes[i].1 != writes[j].1
    }

    /// The table after switching a gate on at a row.
    pub open spec fn enable(self, kind: GateKind, row: int) -> TableView {
        TableView { gates: self.gates.push((kind, row)), ..self }
    }

    /// The table after recording that two cells are to be equal.
    pub open spec fn constrain(self, c: (Lane, int), d: (Lane, int)) -> TableView {
        TableView { copies: self.copies.push((c, d)), ..self }
    }

    /// The table has no row at or below `off`: everything from there on is
    /// unwritten.
    pub open spec fn ends_by(self, off: int) -> bool {
        self.rows() <= off
    }

    /// The table after recording a sequence of copy constraints in order.
    pub open spec fn constrain_all(self, pairs: Seq<((Lane, int), (Lane, int))>) -> TableView {
        TableView { copies: self.copies + pairs, ..self }
    }

    /// The table after a step of layout: the writes, then the copy
    /// constraints, then a gate, if there is one.
    pub open spec fn laid_out(
        self,
        writes: Seq<(Lane, int, nat)>,
        pairs: Seq<((Lane, int), (Lane, int))>,
        gate: Option<(GateKind, int)>,
    ) -> TableView {
        let t = self.assign_all(writes).constrain_all(pairs);
        match gate {
            Some(g) => t.enable(g.0, g.1),
            None => t,
        }
    }

    /// The table keeps all of `old`: its written cells with their values,
    /// and its gates and copy constraints in front of any new ones.
    #[verifier::opaque]
    pub open spec fn extends(self, old: TableView) -> bool {
        &&& old.rows() <= self.rows()
        &&& forall|lane: Lane, row: int|
            (#[trigger] old.cell(lane, row)) is Some ==> self.cell(lane, row) == old.cell(
                lane,
                row,
            )
        &&& old.gates.len() <= self.gates.len()
        &&& self.gates.subrange(0, old.gates.len() as int) == old.gates
        &&& old.copies.len() <= self.copies.len()
        &&& self.copies.subrange(0, old.copies.len() as int) == old.copies
    }
}

/// The first row beyond every write of a sequence, and zero for no writes.
pub open spec fn reach(writes: Seq<(Lane, int, nat)>) -> int
    decreases writes.len(),
{
    if writes.len() == 0 {
        0
    } else {
        let before = reach(writes.drop_last());
        if writes.last().1 + 1 > before {
            writes.last().1 + 1
        } else {
            before
        }
    }
}

/// The larger of two integers.
pub open spec fn larger(a: int, b: int) -> int {
    if a > b {
        a
    } else {
        b
    }
}

/// A sequence of writes as lanes, rows and values.
pub open spec fn writes_view(writes: Seq<(Lane, usize, Fe)>) -> Seq<(Lane, int, nat)> {
    Seq::new(writes.len(), |i: int| (writes[i].0, writes[i].1 as int, writes[i].2@))
}

/// A sequence of pairs of cells as lanes and rows.
pub open spec fn pairs_view(pairs: Seq<(CellRef, CellRef)>) -> Seq<((Lane, int), (Lane, int))> {
    Seq::new(
        pairs.len(),
        |i: int| ((pairs[i].0.lane, pairs[i].0.row as int), (pairs[i].1.lane, pairs[i].1.row as int)),
    )
}

/// A gate with its row as a gate and an integer.
pub open spec fn gate_view(gate: Option<(GateKind, usize)>) -> Option<(GateKind, int)> {
    match gate {
        Some(g) => Some((g.0, g.1 as int)),
        None => None,
    }
}

/// Every cell that the polynomial reads from `row` has been written.
pub open spec fn readable(e: Expr, t: TableView, row: int) -> bool
    decreases e,
{
    match e {
        Expr::Constant(_) => true,
        Expr::Advice(lane, rotation) => t.cell(lane, row + rotation) is Some,
        Expr::Negated(inner) => readable(*inner, t, row),
        Expr::Sum(l, r) => readable(*l, t, row) && readable(*r, t, row),
        Expr::Product(l, r) => readable(*l, t, row) && readable(*r, t, row),
    }
}

/// A polynomial is readable exactly when each cell in its set of reads has
/// been written.
pub proof fn lemma_readable(e: Expr, t: TableView, row: int)
    ensures
        readable(e, t, row) <==> (forall|q: (Lane, int)| #[trigger]
            e.reads().contains(q) ==> t.cell(q.0, row + q.1) is Some),
    decreases e,
{
    let all_written = forall|q: (Lane, int)| #[trigger]
        e.reads().contains(q) ==> t.cell(q.0, row + q.1) is Some;
    match e {
        Expr::Constant(_) => {
            assert(all_written);
        },
        Expr::Advice(lane, rotation) => {
            assert(e.reads().contains((lane, rotation as int)));
            if readable(e, t, row) {
                assert forall|q: (Lane, int)| #[trigger] e.reads().contains(q) implies t.cell(
                    q.0,
                    row + q.1,
                ) is Some by {
                    assert(q == (lane, rotation as int));
                }
            }
        },
        Expr::Negated(inner) => {
            lemma_readable(*inner, t, row);
            assert(e.reads() == inner.reads());
        },
        Expr::Sum(l, r) => {
            lemma_readable(*l, t, row);
            lemma_readable(*r, t, row);
            lemma_part_unwritten(e, *l, t, row);
            lemma_part_unwritten(e, *r, t, row);
            if readable(e, t, row) {
                assert forall|q: (Lane, int)| #[trigger] e.reads().contains(q) implies t.cell(
                    q.0,
                    row + q.1,
                ) is Some by {
                    assert(l.reads().contains(q) || r.reads().contains(q));
                }
            }
        },
        Expr::Product(l, r) => {
            lemma_readable(*l, t, row);
            lemma_readable(*r, t, row);
            lemma_part_unwritten(e, *l, t, row);
            lemma_part_unwritten(e, *r, t, row);
            if readable(e, t, row) {
                assert forall|q: (Lane, int)| #[trigger] e.reads().contains(q) implies t.cell(
                    q.0,
                    row + q.1,
                ) is Some by {
                    assert(l.reads().contains(q) || r.reads().contains(q));
                }
            }
        },
    }
}

/// A cell that a part of a polynomial reads and finds unwritten is one that
/// the polynomial reads and finds unwritten.
proof fn lemma_part_unwritten(e: Expr, part: Expr, t: TableView, row: int)
    requires
        forall|q: (Lane, int)| part.reads().contains(q) ==> e.reads().contains(q),
    ensures
        !(forall|q: (Lane, int)| #[trigger]
            part.reads().contains(q) ==> t.cell(q.0, row + q.1) is Some) ==> !(forall|
            q: (Lane, int),
        | #[trigger]
            e.reads().contains(q) ==> t.cell(q.0, row + q.1) is Some),
{
    if !(forall|q: (Lane, int)| #[trigger]
        part.reads().contains(q) ==> t.cell(q.0, row + q.1) is Some) {
        let q = choose|q: (Lane, int)| #[trigger]
            part.reads().contains(q) && !(t.cell(q.0, row + q.1) is Some);
        assert(e.reads().contains(q));
    }
}

/// The two-lane witness table.
#[derive(Debug)]
pub struct Table {
    pub a: Vec<Option<Fe>>,
    pub b: Vec<Option<Fe>>,
    pub gates: Vec<(GateKind, usize)>,
    pub copies: Vec<(CellRef, CellRef)>,
}

/// The value of a cell's content.
pub open spec fn content_view(c: Option<Fe>) -> Option<nat> {
    match c {
        Some(v) => Some(v@),
        None => None,
    }
}

/// The values of a lane's cells.
pub open spec fn lane_view(cells: Seq<Option<Fe>>) -> Seq<Option<nat>> {
    Seq::new(cells.len(), |i: int| content_view(cells[i]))
}

impl View for Table {
    type V = TableView;

    open spec fn view(&self) -> TableView {
        TableView {
            a: lane_view(self.a@),
            b: lane_view(self.b@),
            gates: Seq::new(self.gates@.len(), |i: int| (self.gates@[i].0, self.gates@[i].1 as int)),
            copies: Seq::new(
                self.copies@.len(),
                |i: int|
                    (
                        (self.copies@[i].0.lane, self.copies@[i].0.row as int),
                        (self.copies@[i].1.lane, self.copies@[i].1.row as int),
                    ),
            ),
        }
    }
}

impl Table {
    /// Both lanes have the same number of rows and every written value is
    /// canonical.
    pub open spec fn wf(&self) -> bool {
        &&& self.a.len() == self.b.len()
        &&& forall|i: int|
            0 <= i < self.a.len() ==> ((#[trigger] self.a[i]) matches Some(v) ==> v.wf())
        &&& forall|i: int|
            0 <= i < self.b.len() ==> ((#[trigger] self.b[i]) matches Some(v) ==> v.wf())
    }

    /// The content of a cell as the table holds it.
    pub open spec fn content(&self, lane: Lane, row: int) -> Option<Fe> {
        let cells = match lane {
            Lane::A => self.a@,
            Lane::B => self.b@,
        };
        if 0 <= row < cells.len() {
            cells[row]
        } else {
            None
        }
    }

    /// The handle stands for a cell of the table that holds its value.
    pub open spec fn holds(&self, c: AssignedCell) -> bool {
        self@.cell(c.lane, c.row as int) == Some(c.value@)
    }

    /// An empty table.
    pub fn new() -> (r: Table)
        ensures
            r.wf(),
            r@ == TableView::empty(),
            r@.satisfied(),
    {
        let r = Table { a: Vec::new(), b: Vec::new(), gates: Vec::new(), copies: Vec::new() };
        proof {
            reveal(TableView::satisfied);
            assert(r@.a =~= Seq::empty());
            assert(r@.b =~= Seq::empty());
            assert(r@.gates =~= Seq::empty());
            assert(r@.copies =~= Seq::empty());
        }
        r
    }

    /// The number of rows.
    pub fn rows(&self) -> (r: usize)
        ensures
            r == self@.rows(),
    {
        self.a.len()
    }

    /// The content of a cell.
    pub fn get(&self, lane: Lane, row: usize) -> (r: Option<Fe>)
        requires
            self.wf(),
        ensures
            r == self.content(lane, row as int),
            content_view(r) == self@.cell(lane, row as int),
            r matches Some(v) ==> v.wf(),
    {
        match lane {
            Lane::A => if row < self.a.len() {
                self.a[row]
            } else {
                None
            },
            Lane::B => if row < self.b.len() {
                self.b[row]
            } else {
                None
            },
        }
    }

    /// Whether nothing has been written into a cell.
    pub fn is_free(&self, lane: Lane, row: usize) -> (r: bool)
        requires
            self.wf(),
        ensures
            r == (self@.cell(lane, row as int) is None),
    {
        self.get(lane, row).is_none()
    }
    /// Lengthens both lanes with unwritten cells to at least `len` rows.
    fn reserve_rows(&mut self, len: usize)
        requires
            old(self).wf(),
        ensures
            final(self).wf(),
            final(self).a.len() >= len,
            final(self)@.a == padded(old(self)@.a, len as int),
            final(self)@.b == padded(old(self)@.b, len as int),
            final(self).gates == old(self).gates,
            final(self).copies == old(self).copies,
    {
        let ghost start = self.a.len();
        while self.a.len() < len
            invariant
                self.wf(),
                old(self).a.len() == start,
                old(self).b.len() == start,
                start <= self.a.len(),
                self.a.len() <= len || self.a.len() == start,
                forall|i: int| 0 <= i < start ==> self.a@[i] == old(self).a@[i],
                forall|i: int| 0 <= i < start ==> self.b@[i] == old(self).b@[i],
                forall|i: int| start <= i < self.a.len() ==> self.a@[i] is None,
                forall|i: int| start <= i < self.b.len() ==> self.b@[i] is None,
                self.gates == old(self).gates,
                self.copies == old(self).copies,
            decreases len - self.a.len(),
        {
            self.a.push(None);
            self.b.push(None);
        }
        proof {
            assert(self@.a =~= padded(old(self)@.a, len as int));
            assert(self@.b =~= padded(old(self)@.b, len as int));
        }
    }

    /// Writes a value into a cell that holds none yet, lengthening the
    /// table where the row lies beyond its end. A cell that holds a value
    /// is left as it is, and the conflict is reported.
    pub fn assign(&mut self, lane: Lane, row: usize, value: Fe) -> (r: Result<
        AssignedCell,
        ChipError,
    >)
        requires
            old(self).wf(),
            value.wf(),
            row < usize::MAX,
        ensures
            final(self).wf(),
            r is Ok <==> old(self)@.cell(lane, row as int) is None,
            r matches Ok(c) ==> c == (AssignedCell { lane, row, value }) && final(self)@ == old(
                self,
            )@.assign(lane, row as int, value@) && final(self).holds(c),
            r matches Err(e) ==> e == ChipError::AssignmentConflict && *final(self) == *old(self),
    {
        if !self.is_free(lane, row) {
            return Err(ChipError::AssignmentConflict);
        }
        let ghost before = self@;
        self.reserve_rows(row + 1);
        let ghost padded_a = self@.a;
        let ghost padded_b = self@.b;
        match lane {
            Lane::A => {
                self.a.set(row, Some(value));
            },
            Lane::B => {
                self.b.set(row, Some(value));
            },
        }
        proof {
            let after = before.assign(lane, row as int, value@);
            assert(padded_a == padded(before.a, row + 1));
            assert(padded_b == padded(before.b, row + 1));
            assert(self@.a =~= after.a);
            assert(self@.b =~= after.b);
            assert(self@.gates =~= after.gates);
            assert(self@.copies =~= after.copies);
        }
        Ok(AssignedCell { lane, row, value })
    }

    /// Switches a gate on at a row.
    pub fn enable_gate(&mut self, kind: GateKind, row: usize)
        requires
            old(self).wf(),
        ensures
            final(self).wf(),
            final(self)@ == old(self)@.enable(kind, row as int),
    {
        self.gates.push((kind, row));
        proof {
            let after = old(self)@.enable(kind, row as int);
            assert(self@.gates =~= after.gates);
            assert(self@.copies =~= after.copies);
        }
    }

    /// Records that two cells are to hold the same value. Nothing is asked
    /// of the cells at this point: a constraint on a cell that is never
    /// written is never met.
    pub fn constrain_equal(&mut self, c: CellRef, d: CellRef)
        requires
            old(self).wf(),
        ensures
            final(self).wf(),
            final(self)@ == old(self)@.constrain(
                (c.lane, c.row as int),
                (d.lane, d.row as int),
            ),
    {
        self.copies.push((c, d));
        proof {
            let after = old(self)@.constrain((c.lane, c.row as int), (d.lane, d.row as int));
            assert(self@.gates =~= after.gates);
            assert(self@.copies =~= after.copies);
        }
    }
    /// The value of a polynomial on the window around a row, provided every
    /// cell it reads has been written.
    pub fn evaluate(&self, e: &Expr, row: usize) -> (r: Option<Fe>)
        requires
            self.wf(),
            e.wf(),
        ensures
            r is Some <==> readable(*e, self@, row as int),
            r matches Some(v) ==> v.wf() && v@ == e.eval(self@.window(row as int)),
        decreases e,
    {
        match e {
            Expr::Constant(c) => Some(*c),
            Expr::Advice(lane, rotation) => {
                let rot: usize = *rotation as usize;
                if row > usize::MAX - rot {
                    None
                } else {
                    self.get(*lane, row + rot)
                }
            },
            Expr::Negated(inner) => match self.evaluate(inner, row) {
                Some(v) => Some(v.negated()),
                None => None,
            },
            Expr::Sum(l, r) => {
                let lv = self.evaluate(l, row);
                let rv = self.evaluate(r, row);
                match (lv, rv) {
                    (Some(x), Some(y)) => Some(x.plus(&y)),
                    _ => None,
                }
            },
            Expr::Product(l, r) => {
                let lv = self.evaluate(l, row);
                let rv = self.evaluate(r, row);
                match (lv, rv) {
                    (Some(x), Some(y)) => Some(x.times(&y)),
                    _ => None,
                }
            },
        }
    }

    /// Whether a gate, taken as switched on at a row, is met.
    #[verifier::rlimit(30)]
    pub fn gate_is_met(&self, config: &ECConfig, kind: GateKind, row: usize) -> (r: bool)
        requires
            self.wf(),
            config.wf(),
        ensures
            r == self@.gate_holds(kind, row as int),
    {
        let es = config.gate(kind);
        let ghost w = self@.window(row as int);
        proof {
            assert(crate::config::all_vanish(es@, w) == gate_vanishes(kind, w));
        }
        let mut i: usize = 0;
        while i < es.len()
            invariant
                self.wf(),
                i <= es.len(),
                w == self@.window(row as int),
                crate::config::all_wf(es@),
                crate::config::read_exactly(es@, gate_reads(kind)),
                crate::config::all_vanish(es@, w) == gate_vanishes(kind, w),
                forall|k: int|
                    0 <= k < i ==> readable(#[trigger] es@[k], self@, row as int) && es@[k].eval(w)
                        == 0,
            decreases es.len() - i,
        {
            proof {
                assert(es@[i as int].wf());
            }
            match self.evaluate(&es[i], row) {
                Some(v) => {
                    if !v.is_zero() {
                        proof {
                            assert(es@[i as int].eval(w) != 0);
                            assert(!crate::config::all_vanish(es@, w));
                        }
                        return false;
                    }
                },
                None => {
                    proof {
                        lemma_readable(es@[i as int], self@, row as int);
                        let q = choose|q: (Lane, int)| #[trigger]
                            es@[i as int].reads().contains(q) && !(self@.cell(q.0, row + q.1)
                                is Some);
                        assert(gate_reads(kind).contains(q));
                    }
                    return false;
                },
            }
            i = i + 1;
        }
        proof {
            assert(crate::config::all_vanish(es@, w));
            assert forall|q: (Lane, int)| #[trigger] gate_reads(kind).contains(q) implies self@.cell(
                q.0,
                row + q.1,
            ) is Some by {
                let k = choose|k: int| 0 <= k < es@.len() && (#[trigger] es@[k]).reads().contains(q);
                lemma_readable(es@[k], self@, row as int);
            }
        }
        true
    }

    /// Whether a copy constraint between two cells is met.
    pub fn copy_is_met(&self, c: CellRef, d: CellRef) -> (r: bool)
        requires
            self.wf(),
        ensures
            r == self@.copy_holds(((c.lane, c.row as int), (d.lane, d.row as int))),
    {
        match (self.get(c.lane, c.row), self.get(d.lane, d.row)) {
            (Some(x), Some(y)) => x.is_equal(&y),
            _ => false,
        }
    }

    /// Whether every gate that is switched on and every copy constraint is
    /// met.
    pub fn is_satisfied(&self, config: &ECConfig) -> (r: bool)
        requires
            self.wf(),
            config.wf(),
        ensures
            r == self@.satisfied(),
    {
        let mut i: usize = 0;
        while i < self.gates.len()
            invariant
                self.wf(),
                config.wf(),
                i <= self.gates.len(),
                forall|k: int|
                    0 <= k < i ==> self@.gate_holds((#[trigger] self@.gates[k]).0, self@.gates[k].1),
            decreases self.gates.len() - i,
        {
            let kind = self.gates[i].0;
            let row = self.gates[i].1;
            if !self.gate_is_met(config, kind, row) {
                proof {
                    reveal(TableView::satisfied);
                    assert(self@.gates[i as int] == (kind, row as int));
                }
                return false;
            }
            i = i + 1;
        }
        let mut j: usize = 0;
        while j < self.copies.len()
            invariant
                self.wf(),
                j <= self.copies.len(),
                forall|k: int| 0 <= k < j ==> self@.copy_holds(#[trigger] self@.copies[k]),
            decreases self.copies.len() - j,
        {
            let c = self.copies[j].0;
            let d = self.copies[j].1;
            if !self.copy_is_met(c, d) {
                proof {
                    reveal(TableView::satisfied);
                    assert(self@.copies[j as int] == ((c.lane, c.row as int), (d.lane, d.row as int)));
                }
                return false;
            }
            j = j + 1;
        }
        proof {
            reveal(TableView::satisfied);
        }
        true
    }
    /// Whether the writes go to unwritten cells, no two to the same cell.
    pub fn writes_are_fresh(&self, writes: &Vec<(Lane, usize, Fe)>) -> (r: bool)
        requires
            self.wf(),
        ensures
            r == self@.writes_fresh(writes_view(writes@)),
    {
        let ghost view = writes_view(writes@);
        let mut i: usize = 0;
        while i < writes.len()
            invariant
                self.wf(),
                view == writes_view(writes@),
                i <= writes.len(),
                forall|k: int|
                    0 <= k < i ==> 0 <= (#[trigger] view[k]).1 && self@.cell(view[k].0, view[k].1)
                        is None,
                forall|k: int, m: int|
                    0 <= k < m < i ==> (#[trigger] view[k]).0 != (#[trigger] view[m]).0
                        || view[k].1 != view[m].1,
            decreases writes.len() - i,
        {
            let lane = writes[i].0;
            let row = writes[i].1;
            assert(view[i as int] == (lane, row as int, writes[i as int].2@));
            if !self.is_free(lane, row) {
                return false;
            }
            let mut j: usize = 0;
            while j < i
                invariant
                    view == writes_view(writes@),
                    j <= i,
                    i < writes.len(),
                    lane == writes[i as int].0,
                    row == writes[i as int].1,
                    forall|k: int|
                        0 <= k < j ==> (#[trigger] view[k]).0 != view[i as int].0 || view[k].1
                            != view[i as int].1,
                decreases i - j,
            {
                assert(view[j as int] == (writes[j as int].0, writes[j as int].1 as int, writes[j as int].2@));
                if writes[j].0 == lane && writes[j].1 == row {
                    proof {
                        assert(view[j as int].0 == view[i as int].0 && view[j as int].1
                            == view[i as int].1);
                    }
                    return false;
                }
                j = j + 1;
            }
            i = i + 1;
        }
        true
    }

    /// Makes a step of layout in one piece: writes the values, records the
    /// copy constraints and switches a gate on, if there is one. Where a
    /// write would go to a cell that holds a value, or two writes to the
    /// same cell, nothing is changed and the conflict is reported.
    #[verifier::rlimit(30)]
    pub fn lay_out(
        &mut self,
        writes: &Vec<(Lane, usize, Fe)>,
        pairs: &Vec<(CellRef, CellRef)>,
        gate: Option<(GateKind, usize)>,
    ) -> (r: Result<Vec<AssignedCell>, ChipError>)
        requires
            old(self).wf(),
            forall|i: int|
                0 <= i < writes.len() ==> (#[trigger] writes[i]).2.wf() && writes[i].1
                    < usize::MAX,
        ensures
            final(self).wf(),
            r is Ok <==> old(self)@.writes_fresh(writes_view(writes@)),
            r matches Ok(cells) ==> {
                &&& final(self)@ == old(self)@.laid_out(
                    writes_view(writes@),
                    pairs_view(pairs@),
                    gate_view(gate),
                )
                &&& cells.len() == writes.len()
                &&& forall|i: int|
                    0 <= i < cells.len() ==> (#[trigger] cells[i]) == (AssignedCell {
                        lane: writes[i].0,
                        row: writes[i].1,
                        value: writes[i].2,
                    })
            },
            r matches Err(e) ==> e == ChipError::AssignmentConflict && *final(self) == *old(self),
    {
        if !self.writes_are_fresh(writes) {
            return Err(ChipError::AssignmentConflict);
        }
        let ghost before = self@;
        let ghost view = writes_view(writes@);
        let mut cells: Vec<AssignedCell> = Vec::new();
        let mut i: usize = 0;
        proof {
            assert(view.take(0) =~= Seq::empty());
        }
        while i < writes.len()
            invariant
                self.wf(),
                view == writes_view(writes@),
                before.a.len() == before.b.len(),
                before.writes_fresh(view),
                forall|k: int|
                    0 <= k < writes.len() ==> (#[trigger] writes[k]).2.wf() && writes[k].1
                        < usize::MAX,
                i <= writes.len(),
                self@ == before.assign_all(view.take(i as int)),
                cells.len() == i,
                forall|k: int|
                    0 <= k < i ==> (#[trigger] cells[k]) == (AssignedCell {
                        lane: writes[k].0,
                        row: writes[k].1,
                        value: writes[k].2,
                    }),
            decreases writes.len() - i,
        {
            let lane = writes[i].0;
            let row = writes[i].1;
            let value = writes[i].2;
            proof {
                let done = view.take(i as int);
                assert(view[i as int] == (lane, row as int, value@));
                assert(before.writes_fresh(done)) by {
                    assert forall|k: int| 0 <= k < done.len() implies 0 <= (#[trigger] done[k]).1
                        && before.cell(done[k].0, done[k].1) is None by {
                        assert(done[k] == view[k]);
                    }
                    assert forall|k: int, m: int| 0 <= k < m < done.len() implies (
                    #[trigger] done[k]).0 != (#[trigger] done[m]).0 || done[k].1 != done[m].1 by {
                        assert(done[k] == view[k] && done[m] == view[m]);
                    }
                }
                crate::table_laws::lemma_assign_all(before, done);
                assert forall|k: int| 0 <= k < done.len() implies (#[trigger] done[k]).0 != lane
                    || done[k].1 != row by {
                    assert(done[k] == view[k]);
                }
                assert(self@.cell(lane, row as int) == before.cell(lane, row as int));
                assert(view.take(i + 1).drop_last() =~= done);
                assert(view.take(i + 1).last() == view[i as int]);
            }
            match self.assign(lane, row, value) {
                Ok(c) => {
                    cells.push(c);
                },
                Err(_) => {},
            }
            i = i + 1;
        }
        proof {
            assert(view.take(writes.len() as int) =~= view);
        }
        let ghost written = self@;
        let mut j: usize = 0;
        while j < pairs.len()
            invariant
                self.wf(),
                j <= pairs.len(),
                self@.a == written.a,
                self@.b == written.b,
                self@.gates == written.gates,
                self@.copies == written.copies + pairs_view(pairs@).take(j as int),
            decreases pairs.len() - j,
        {
            let ghost prev = self@;
            self.constrain_equal(pairs[j].0, pairs[j].1);
            proof {
                let pv = pairs_view(pairs@);
                assert(pv.take(j + 1) =~= pv.take(j as int).push(pv[j as int]));
                assert(self@.copies =~= written.copies + pv.take(j + 1));
            }
            j = j + 1;
        }
        proof {
            assert(pairs_view(pairs@).take(pairs.len() as int) =~= pairs_view(pairs@));
            assert(self@ == written.constrain_all(pairs_view(pairs@)));
        }
        match gate {
            Some(g) => {
                self.enable_gate(g.0, g.1);
            },
            None => {},
        }
        Ok(cells)
    }
    /// Whether nothing has been written into the rows from `from` up to,
    /// but not including, `to`.
    pub fn rows_are_free(&self, from: usize, to: usize) -> (r: bool)
        requires
            self.wf(),
        ensures
            r == self@.rows_free(from as int, to as int),
    {
        let mut row: usize = from;
        while row < to && row < self.a.len()
            invariant
                self.wf(),
                from <= row,
                forall|lane: Lane, k: int| from <= k < row ==> (#[trigger] self@.cell(lane, k)) is None,
            decreases self.a.len() - row,
        {
            if !(self.is_free(Lane::A, row) && self.is_free(Lane::B, row)) {
                return false;
            }
            proof {
                assert forall|lane: Lane, k: int| from <= k < row + 1 implies (#[trigger] self@.cell(
                    lane,
                    k,
                )) is None by {
                    if k == row {
                        assert(lane == Lane::A || lane == Lane::B);
                    }
                }
            }
            row = row + 1;
        }
        true
    }
}

} // verus!
