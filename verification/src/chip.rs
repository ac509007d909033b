//! The chip: operations that lay witnesses out in the table, switch the
//! matching gate on and advance the row offset.

use crate::config::{ECConfig, GateKind};
use crate::curve::{
    add_defined, add_x_den, add_y_den, double_defined, double_x_den, double_y_den, on_curve,
    te_conditional_add, te_double, Affine, Point,
};
use crate::expr::Lane;
use crate::field::{fadd, fmul, Fe};
use crate::layout::{
    binary_writes, conditional_add_pairs, conditional_add_regular, conditional_add_writes,
    decomp_consistent, decomp_writes, double_writes, field_writes, lemma_add_layout,
    lemma_binary_fresh, lemma_conditional_add_fresh, lemma_conditional_add_layout,
    lemma_decomp_fresh, lemma_decomp_layout, lemma_double_fresh, lemma_double_layout,
    lemma_enforce_layout, lemma_field_layout, lemma_mul_layout, lemma_pad_fresh,
    lemma_pad_layout, lemma_point_fresh, lemma_point_layout, no_pairs, pad_writes, point_pairs,
    point_writes,
};
use crate::table::{
    larger, pairs_view, writes_view, AssignedCell, CellRef, ChipError, Table, TableView,
};
use crate::table_laws::lemma_ends_by;
use vstd::prelude::*;

verus! {

/// A point whose coordinates have been written into the table.
#[derive(Clone, Copy, Debug)]
pub struct AssignedECPoint {
    pub x: AssignedCell,
    pub y: AssignedCell,
}

impl View for AssignedECPoint {
    type V = Affine;

    open spec fn view(&self) -> Affine {
        Affine { x: self.x.value@, y: self.y.value@ }
    }
}

impl AssignedECPoint {
    /// Both coordinates are canonical.
    pub open spec fn wf(&self) -> bool {
        self.x.value.wf() && self.y.value.wf()
    }

    /// The coordinates sit in the two lanes of one row.
    pub open spec fn in_row(&self) -> bool {
        self.x.lane == Lane::A && self.y.lane == Lane::B && self.x.row == self.y.row
    }

    /// The point in the two lanes of a row.
    pub open spec fn at(row: usize, p: Point) -> AssignedECPoint {
        AssignedECPoint {
            x: AssignedCell { lane: Lane::A, row, value: p.x },
            y: AssignedCell { lane: Lane::B, row, value: p.y },
        }
    }

    /// The point the cells hold.
    pub fn point(&self) -> (p: Point)
        ensures
            p.x == self.x.value,
            p.y == self.y.value,
    {
        Point { x: self.x.value, y: self.y.value }
    }
}

/// The place of a cell as a lane and a row.
pub open spec fn place(c: AssignedCell) -> (Lane, int) {
    (c.lane, c.row as int)
}

/// The values of a sequence of field elements.
pub open spec fn values_of(elements: Seq<Fe>) -> Seq<nat> {
    Seq::new(elements.len(), |i: int| elements[i]@)
}

/// The value that padding repeats: what lane `A` holds in the row above
/// the offset, and zero where that is nothing.
pub open spec fn pad_value(t: TableView, off: int) -> nat {
    t.value(Lane::A, off - 1)
}

/// The writes of a partial bit decomposition as the table takes them.
#[verifier::rlimit(30)]
pub(crate) fn decomp_cells(config: &ECConfig, row: usize, bits: &[Fe; 6]) -> (writes: Vec<(Lane, usize, Fe)>)
    requires
        config.wf(),
        forall|i: int| 0 <= i < 6 ==> (#[trigger] bits[i]).wf(),
        row + 3 <= usize::MAX,
    ensures
        writes_view(writes@) == decomp_writes(row as int, values_of(bits@)),
        writes.len() == 6,
        writes[0] == (Lane::A, row, bits[0]),
        writes[1] == (Lane::B, row, bits[1]),
        writes[2] == (Lane::A, (row + 1) as usize, bits[2]),
        writes[3] == (Lane::B, (row + 1) as usize, bits[3]),
        writes[4] == (Lane::A, (row + 2) as usize, bits[4]),
        writes[5] == (Lane::B, (row + 2) as usize, bits[5]),
        forall|i: int|
            0 <= i < writes.len() ==> (#[trigger] writes[i]).2.wf() && writes[i].1 < usize::MAX,
{
    let writes = vec![
        (config.a, row, bits[0]),
        (config.b, row, bits[1]),
        (config.a, row + 1, bits[2]),
        (config.b, row + 1, bits[3]),
        (config.a, row + 2, bits[4]),
        (config.b, row + 2, bits[5]),
    ];
    proof {
        assert(writes_view(writes@) =~= decomp_writes(row as int, values_of(bits@)));
    }
    writes
}

/// The writes of a doubling as the table takes them.
fn double_cells(config: &ECConfig, row: usize, p: &Point, d: &Point) -> (writes: Vec<
    (Lane, usize, Fe),
>)
    requires
        config.wf(),
        p.wf(),
        d.wf(),
        row + 2 <= usize::MAX,
    ensures
        writes_view(writes@) == double_writes(row as int, p@, d@),
        writes.len() == 4,
        writes[2] == (Lane::A, (row + 1) as usize, d.x),
        writes[3] == (Lane::B, (row + 1) as usize, d.y),
        forall|i: int|
            0 <= i < writes.len() ==> (#[trigger] writes[i]).2.wf() && writes[i].1 < usize::MAX,
{
    let writes = vec![(config.a, row, p.x), (config.b, row, p.y), (config.a, row + 1, d.x), (
        config.b,
        row + 1,
        d.y,
    )];
    proof {
        assert(writes_view(writes@) =~= double_writes(row as int, p@, d@));
    }
    writes
}

/// The copy constraints that tie a row to the cells of a point as the
/// table takes them.
fn point_ties(config: &ECConfig, row: usize, p1: &AssignedECPoint) -> (pairs: Vec<
    (CellRef, CellRef),
>)
    requires
        config.wf(),
    ensures
        pairs_view(pairs@) == point_pairs(row as int, place(p1.x), place(p1.y)),
{
    let pairs = vec![
        (CellRef { lane: config.a, row }, p1.x.cell()),
        (CellRef { lane: config.b, row }, p1.y.cell()),
    ];
    proof {
        assert(pairs_view(pairs@) =~= point_pairs(row as int, place(p1.x), place(p1.y)));
    }
    pairs
}

/// The writes of a conditional addition as the table takes them.
#[verifier::rlimit(30)]
fn conditional_add_cells(
    config: &ECConfig,
    row: usize,
    p: &Point,
    q: &Point,
    c: &Fe,
    s: &Point,
) -> (writes: Vec<(Lane, usize, Fe)>)
    requires
        config.wf(),
        p.wf(),
        q.wf(),
        c.wf(),
        s.wf(),
        row + 4 <= usize::MAX,
    ensures
        writes_view(writes@) == conditional_add_writes(row as int, p@, q@, c@, s@),
        writes.len() == 7,
        writes[5] == (Lane::A, (row + 3) as usize, s.x),
        writes[6] == (Lane::B, (row + 3) as usize, s.y),
        forall|i: int|
            0 <= i < writes.len() ==> (#[trigger] writes[i]).2.wf() && writes[i].1 < usize::MAX,
{
    let writes = vec![
        (config.a, row, p.x),
        (config.b, row, p.y),
        (config.a, row + 1, q.x),
        (config.b, row + 1, q.y),
        (config.a, row + 2, *c),
        (config.a, row + 3, s.x),
        (config.b, row + 3, s.y),
    ];
    proof {
        assert(writes_view(writes@) =~= conditional_add_writes(row as int, p@, q@, c@, s@));
    }
    writes
}

/// The copy constraints of a conditional addition as the table takes them.
fn conditional_add_ties(
    config: &ECConfig,
    row: usize,
    p1: &AssignedECPoint,
    p2: &AssignedECPoint,
    bit: &AssignedCell,
) -> (pairs: Vec<(CellRef, CellRef)>)
    requires
        config.wf(),
        row + 4 <= usize::MAX,
    ensures
        pairs_view(pairs@) == conditional_add_pairs(
            row as int,
            place(p1.x),
            place(p1.y),
            place(p2.x),
            place(p2.y),
            place(*bit),
        ),
{
    let pairs = vec![
        (CellRef { lane: config.a, row }, p1.x.cell()),
        (CellRef { lane: config.b, row }, p1.y.cell()),
        (CellRef { lane: config.a, row: row + 1 }, p2.x.cell()),
        (CellRef { lane: config.b, row: row + 1 }, p2.y.cell()),
        (CellRef { lane: config.a, row: row + 2 }, bit.cell()),
    ];
    proof {
        assert(pairs_view(pairs@) =~= conditional_add_pairs(
            row as int,
            place(p1.x),
            place(p1.y),
            place(p2.x),
            place(p2.y),
            place(*bit),
        ));
    }
    pairs
}

/// The chip over a configuration of lanes.
#[derive(Clone, Copy, Debug)]
pub struct ECChip {
    pub config: ECConfig,
}

impl ECChip {
    /// The configuration the chip's gates are registered with.
    pub fn configure() -> (r: ECConfig)
        ensures
            r.wf(),
    {
        ECConfig::configure()
    }

    /// The chip over a configuration.
    pub fn construct(config: ECConfig) -> (r: ECChip)
        ensures
            r.config == config,
    {
        ECChip { config }
    }

    /// Writes a field element into lane `A` of the row at the offset and
    /// advances the offset by one row. No gate is switched on.
    pub fn load_private_field(
        &self,
        table: &mut Table,
        config: &ECConfig,
        f: &Fe,
        offset: &mut usize,
    ) -> (r: Result<AssignedCell, ChipError>)
        requires
            old(table).wf(),
            config.wf(),
            f.wf(),
            *old(offset) < usize::MAX,
        ensures
            final(table).wf(),
            old(table)@.ends_by(*old(offset) as int) ==> r is Ok,
            r is Ok <==> old(table)@.cell(Lane::A, *old(offset) as int) is None,
            r matches Ok(c) ==> {
                &&& c == (AssignedCell { lane: Lane::A, row: *old(offset), value: *f })
                &&& final(table)@ == old(table)@.laid_out(
                    field_writes(*old(offset) as int, f@),
                    no_pairs(),
                    None,
                )
                &&& *final(offset) == *old(offset) + 1
                &&& final(table).holds(c)
                &&& final(table)@.extends(old(table)@)
                &&& final(table)@.rows() == larger(old(table)@.rows(), *final(offset) as int)
                &&& old(table)@.satisfied() ==> final(table)@.satisfied()
            },
            r matches Err(e) ==> e == ChipError::AssignmentConflict && *final(table) == *old(table)
                && *final(offset) == *old(offset),
    {
        let row: usize = *offset;
        let writes = vec![(config.a, row, *f)];
        let pairs: Vec<(CellRef, CellRef)> = Vec::new();
        proof {
            if table@.ends_by(row as int) {
                lemma_ends_by(table@, row as int, row + 1);
            }
            let w = field_writes(row as int, f@);
            assert(writes_view(writes@) =~= w);
            assert(pairs_view(pairs@) =~= no_pairs());
            lemma_field_layout(table@, row as int, f@);
        }
        match table.lay_out(&writes, &pairs, None) {
            Ok(cells) => {
                *offset = row + 1;
                Ok(cells[0])
            },
            Err(e) => Err(e),
        }
    }

    /// Lays out `x`, `y` and their sum over two rows, switches the addition
    /// gate on and returns the cell of the sum.
    pub fn add(
        &self,
        table: &mut Table,
        config: &ECConfig,
        x: &Fe,
        y: &Fe,
        offset: &mut usize,
    ) -> (r: Result<AssignedCell, ChipError>)
        requires
            old(table).wf(),
            config.wf(),
            x.wf(),
            y.wf(),
            *old(offset) + 2 <= usize::MAX,
        ensures
            final(table).wf(),
            old(table)@.ends_by(*old(offset) as int) ==> r is Ok,
            r is Ok <==> old(table)@.writes_fresh(
                binary_writes(*old(offset) as int, x@, y@, fadd(x@, y@)),
            ),
            r matches Ok(c) ==> {
                &&& c.lane == Lane::A
                &&& c.row == *old(offset) + 1
                &&& c.value.wf()
                &&& c.value@ == fadd(x@, y@)
                &&& final(table)@ == old(table)@.laid_out(
                    binary_writes(*old(offset) as int, x@, y@, fadd(x@, y@)),
                    no_pairs(),
                    Some((GateKind::Add, *old(offset) as int)),
                )
                &&& *final(offset) == *old(offset) + 2
                &&& final(table).holds(c)
                &&& final(table)@.extends(old(table)@)
                &&& final(table)@.rows() == larger(old(table)@.rows(), *final(offset) as int)
                &&& final(table)@.gate_holds(GateKind::Add, *old(offset) as int)
                &&& old(table)@.satisfied() ==> final(table)@.satisfied()
            },
            r matches Err(e) ==> e == ChipError::AssignmentConflict && *final(table) == *old(table)
                && *final(offset) == *old(offset),
    {
        let row: usize = *offset;
        let z = x.plus(y);
        let writes = vec![(config.a, row, *x), (config.b, row, *y), (config.a, row + 1, z)];
        let pairs: Vec<(CellRef, CellRef)> = Vec::new();
        proof {
            if table@.ends_by(row as int) {
                lemma_ends_by(table@, row as int, row + 2);
                lemma_binary_fresh(table@, row as int, x@, y@, z@);
            }
            let w = binary_writes(row as int, x@, y@, z@);
            assert(writes_view(writes@) =~= w);
            assert(pairs_view(pairs@) =~= no_pairs());
            if table@.writes_fresh(w) {
                lemma_add_layout(table@, row as int, x@, y@);
            }
        }
        match table.lay_out(&writes, &pairs, Some((GateKind::Add, row))) {
            Ok(cells) => {
                *offset = row + 2;
                Ok(cells[2])
            },
            Err(e) => Err(e),
        }
    }

    /// Lays out `x`, `y` and their product over two rows, switches the
    /// multiplication gate on and returns the cell of the product.
    pub fn mul(
        &self,
        table: &mut Table,
        config: &ECConfig,
        x: &Fe,
        y: &Fe,
        offset: &mut usize,
    ) -> (r: Result<AssignedCell, ChipError>)
        requires
            old(table).wf(),
            config.wf(),
            x.wf(),
            y.wf(),
            *old(offset) + 2 <= usize::MAX,
        ensures
            final(table).wf(),
            old(table)@.ends_by(*old(offset) as int) ==> r is Ok,
            r is Ok <==> old(table)@.writes_fresh(
                binary_writes(*old(offset) as int, x@, y@, fmul(x@, y@)),
            ),
            r matches Ok(c) ==> {
                &&& c.lane == Lane::A
                &&& c.row == *old(offset) + 1
                &&& c.value.wf()
                &&& c.value@ == fmul(x@, y@)
                &&& final(table)@ == old(table)@.laid_out(
                    binary_writes(*old(offset) as int, x@, y@, fmul(x@, y@)),
                    no_pairs(),
                    Some((GateKind::Mul, *old(offset) as int)),
                )
                &&& *final(offset) == *old(offset) + 2
                &&& final(table).holds(c)
                &&& final(table)@.extends(old(table)@)
                &&& final(table)@.rows() == larger(old(table)@.rows(), *final(offset) as int)
                &&& final(table)@.gate_holds(GateKind::Mul, *old(offset) as int)
                &&& old(table)@.satisfied() ==> final(table)@.satisfied()
            },
            r matches Err(e) ==> e == ChipError::AssignmentConflict && *final(table) == *old(table)
                && *final(offset) == *old(offset),
    {
        let row: usize = *offset;
        let z = x.times(y);
        let writes = vec![(config.a, row, *x), (config.b, row, *y), (config.a, row + 1, z)];
        let pairs: Vec<(CellRef, CellRef)> = Vec::new();
        proof {
            if table@.ends_by(row as int) {
                lemma_ends_by(table@, row as int, row + 2);
                lemma_binary_fresh(table@, row as int, x@, y@, z@);
            }
            let w = binary_writes(row as int, x@, y@, z@);
            assert(writes_view(writes@) =~= w);
            assert(pairs_view(pairs@) =~= no_pairs());
            if table@.writes_fresh(w) {
                lemma_mul_layout(table@, row as int, x@, y@);
            }
        }
        match table.lay_out(&writes, &pairs, Some((GateKind::Mul, row))) {
            Ok(cells) => {
                *offset = row + 2;
                Ok(cells[2])
            },
            Err(e) => Err(e),
        }
    }
    /// Lays out the six values `[x1, y1, x2, y2, x3, y3]` of one step of a
    /// bit decomposition over three rows and switches the partial bit
    /// decomposition gate on. Returns the six cells in that order; the last
    /// is the new accumulator.
    #[verifier::rlimit(30)]
    pub fn partial_bit_decomp(
        &self,
        table: &mut Table,
        config: &ECConfig,
        bits: &[Fe; 6],
        offset: &mut usize,
    ) -> (r: Result<Vec<AssignedCell>, ChipError>)
        requires
            old(table).wf(),
            config.wf(),
            forall|i: int| 0 <= i < 6 ==> (#[trigger] bits[i]).wf(),
            *old(offset) + 3 <= usize::MAX,
        ensures
            final(table).wf(),
            old(table)@.ends_by(*old(offset) as int) ==> r is Ok,
            r is Ok <==> old(table)@.writes_fresh(
                decomp_writes(*old(offset) as int, values_of(bits@)),
            ),
            r matches Ok(cells) ==> {
                &&& cells.len() == 6
                &&& forall|i: int|
                    0 <= i < 6 ==> (#[trigger] cells[i]).value == bits[i] && final(table).holds(
                        cells[i],
                    )
                &&& cells[0].lane == Lane::A && cells[0].row == *old(offset)
                &&& cells[1].lane == Lane::B && cells[1].row == *old(offset)
                &&& cells[2].lane == Lane::A && cells[2].row == *old(offset) + 1
                &&& cells[3].lane == Lane::B && cells[3].row == *old(offset) + 1
                &&& cells[4].lane == Lane::A && cells[4].row == *old(offset) + 2
                &&& cells[5].lane == Lane::B && cells[5].row == *old(offset) + 2
                &&& final(table)@ == old(table)@.laid_out(
                    decomp_writes(*old(offset) as int, values_of(bits@)),
                    no_pairs(),
                    Some((GateKind::PartialBitDecomp, *old(offset) as int)),
                )
                &&& *final(offset) == *old(offset) + 3
                &&& final(table)@.extends(old(table)@)
                &&& final(table)@.rows() == larger(old(table)@.rows(), *final(offset) as int)
                &&& decomp_consistent(values_of(bits@)) ==> final(table)@.gate_holds(
                    GateKind::PartialBitDecomp,
                    *old(offset) as int,
                )
                &&& decomp_consistent(values_of(bits@)) && old(table)@.satisfied() ==> final(table)@.satisfied()
            },
            r matches Err(e) ==> e == ChipError::AssignmentConflict && *final(table) == *old(table)
                && *final(offset) == *old(offset),
    {
        let row: usize = *offset;
        let writes = decomp_cells(config, row, bits);
        let pairs: Vec<(CellRef, CellRef)> = Vec::new();
        proof {
            if table@.ends_by(row as int) {
                lemma_ends_by(table@, row as int, row + 3);
                lemma_decomp_fresh(table@, row as int, values_of(bits@));
            }
            assert(pairs_view(pairs@) =~= no_pairs());
            if table@.writes_fresh(writes_view(writes@)) {
                lemma_decomp_layout(table@, row as int, values_of(bits@), no_pairs());
                assert(no_pairs().len() == 0);
            }
        }
        match table.lay_out(&writes, &pairs, Some((GateKind::PartialBitDecomp, row))) {
            Ok(cells) => {
                *offset = row + 3;
                Ok(cells)
            },
            Err(e) => Err(e),
        }
    }

    /// Fills both lanes of the two rows at the offset with the value that
    /// lane `A` holds in the row above, or with zero where it holds none,
    /// and advances the offset by two rows. No gate is switched on.
    pub fn pad(&self, table: &mut Table, config: &ECConfig, offset: &mut usize) -> (r: Result<
        (),
        ChipError,
    >)
        requires
            old(table).wf(),
            config.wf(),
            *old(offset) + 2 <= usize::MAX,
        ensures
            final(table).wf(),
            old(table)@.ends_by(*old(offset) as int) ==> r is Ok,
            r is Ok <==> old(table)@.writes_fresh(
                pad_writes(*old(offset) as int, pad_value(old(table)@, *old(offset) as int)),
            ),
            r is Ok ==> {
                &&& final(table)@ == old(table)@.laid_out(
                    pad_writes(*old(offset) as int, pad_value(old(table)@, *old(offset) as int)),
                    no_pairs(),
                    None,
                )
                &&& *final(offset) == *old(offset) + 2
                &&& final(table)@.extends(old(table)@)
                &&& final(table)@.rows() == larger(old(table)@.rows(), *final(offset) as int)
                &&& old(table)@.satisfied() ==> final(table)@.satisfied()
            },
            r matches Err(e) ==> e == ChipError::AssignmentConflict && *final(table) == *old(table)
                && *final(offset) == *old(offset),
    {
        let row: usize = *offset;
        let above = if row > 0 {
            table.get(config.a, row - 1)
        } else {
            None
        };
        let v = match above {
            Some(v) => v,
            None => Fe::zero(),
        };
        let writes = vec![(config.a, row, v), (config.b, row, v), (config.a, row + 1, v), (
            config.b,
            row + 1,
            v,
        )];
        let pairs: Vec<(CellRef, CellRef)> = Vec::new();
        proof {
            if table@.ends_by(row as int) {
                lemma_ends_by(table@, row as int, row + 2);
                lemma_pad_fresh(table@, row as int, v@);
            }
            let w = pad_writes(row as int, pad_value(table@, row as int));
            assert(v@ == pad_value(table@, row as int));
            assert(writes_view(writes@) =~= w);
            assert(pairs_view(pairs@) =~= no_pairs());
            if table@.writes_fresh(w) {
                lemma_pad_layout(table@, row as int, v@);
            }
        }
        match table.lay_out(&writes, &pairs, None) {
            Ok(_) => {
                *offset = row + 2;
                Ok(())
            },
            Err(e) => Err(e),
        }
    }

    /// Writes a point into the two lanes of the row at the offset and
    /// advances the offset by one row. No gate is switched on: whether the
    /// point lies on the curve is left open.
    pub fn load_private_point_unchecked(
        &self,
        table: &mut Table,
        config: &ECConfig,
        p: &Point,
        offset: &mut usize,
    ) -> (r: Result<AssignedECPoint, ChipError>)
        requires
            old(table).wf(),
            config.wf(),
            p.wf(),
            *old(offset) < usize::MAX,
        ensures
            final(table).wf(),
            old(table)@.ends_by(*old(offset) as int) ==> r is Ok,
            r is Ok <==> old(table)@.writes_fresh(point_writes(*old(offset) as int, p@)),
            r matches Ok(q) ==> {
                &&& q == AssignedECPoint::at(*old(offset), *p)
                &&& final(table)@ == old(table)@.laid_out(
                    point_writes(*old(offset) as int, p@),
                    no_pairs(),
                    None,
                )
                &&& *final(offset) == *old(offset) + 1
                &&& final(table).holds(q.x)
                &&& final(table).holds(q.y)
                &&& final(table)@.extends(old(table)@)
                &&& final(table)@.rows() == larger(old(table)@.rows(), *final(offset) as int)
                &&& old(table)@.satisfied() ==> final(table)@.satisfied()
            },
            r matches Err(e) ==> e == ChipError::AssignmentConflict && *final(table) == *old(table)
                && *final(offset) == *old(offset),
    {
        let row: usize = *offset;
        let writes = vec![(config.a, row, p.x), (config.b, row, p.y)];
        let pairs: Vec<(CellRef, CellRef)> = Vec::new();
        proof {
            if table@.ends_by(row as int) {
                lemma_ends_by(table@, row as int, row + 1);
                lemma_point_fresh(table@, row as int, p@);
            }
            let w = point_writes(row as int, p@);
            assert(writes_view(writes@) =~= w);
            assert(pairs_view(pairs@) =~= no_pairs());
            if table@.writes_fresh(w) {
                lemma_point_layout(table@, row as int, p@);
            }
        }
        match table.lay_out(&writes, &pairs, None) {
            Ok(cells) => {
                *offset = row + 1;
                Ok(AssignedECPoint { x: cells[0], y: cells[1] })
            },
            Err(e) => Err(e),
        }
    }

    /// Writes a point into the two lanes of the row at the offset, switches
    /// the on-curve gate on at that row and advances the offset by one row.
    pub fn load_private_point(
        &self,
        table: &mut Table,
        config: &ECConfig,
        p: &Point,
        offset: &mut usize,
    ) -> (r: Result<AssignedECPoint, ChipError>)
        requires
            old(table).wf(),
            config.wf(),
            p.wf(),
            *old(offset) < usize::MAX,
        ensures
            final(table).wf(),
            old(table)@.ends_by(*old(offset) as int) ==> r is Ok,
            r is Ok <==> old(table)@.writes_fresh(point_writes(*old(offset) as int, p@)),
            r matches Ok(q) ==> {
                &&& q == AssignedECPoint::at(*old(offset), *p)
                &&& final(table)@ == old(table)@.laid_out(
                    point_writes(*old(offset) as int, p@),
                    no_pairs(),
                    Some((GateKind::OnCurve, *old(offset) as int)),
                )
                &&& *final(offset) == *old(offset) + 1
                &&& final(table).holds(q.x)
                &&& final(table).holds(q.y)
                &&& final(table)@.extends(old(table)@)
                &&& final(table)@.rows() == larger(old(table)@.rows(), *final(offset) as int)
                &&& final(table)@.gate_holds(GateKind::OnCurve, *old(offset) as int) <==> on_curve(
                    p@,
                )
                &&& old(table)@.satisfied() && on_curve(p@) ==> final(table)@.satisfied()
                &&& !on_curve(p@) ==> !final(table)@.satisfied()
            },
            r matches Err(e) ==> e == ChipError::AssignmentConflict && *final(table) == *old(table)
                && *final(offset) == *old(offset),
    {
        let row: usize = *offset;
        let writes = vec![(config.a, row, p.x), (config.b, row, p.y)];
        let pairs: Vec<(CellRef, CellRef)> = Vec::new();
        proof {
            if table@.ends_by(row as int) {
                lemma_ends_by(table@, row as int, row + 1);
                lemma_point_fresh(table@, row as int, p@);
            }
            let w = point_writes(row as int, p@);
            assert(writes_view(writes@) =~= w);
            assert(pairs_view(pairs@) =~= no_pairs());
            if table@.writes_fresh(w) {
                lemma_point_layout(table@, row as int, p@);
            }
        }
        match table.lay_out(&writes, &pairs, Some((GateKind::OnCurve, row))) {
            Ok(cells) => {
                *offset = row + 1;
                Ok(AssignedECPoint { x: cells[0], y: cells[1] })
            },
            Err(e) => Err(e),
        }
    }

    /// Switches the on-curve gate on at the row of a point that sits in the
    /// two lanes of one row. The offset stays where it is. Doing so again
    /// changes nothing about what the table demands.
    pub fn enforce_on_curve(
        &self,
        table: &mut Table,
        config: &ECConfig,
        point: &AssignedECPoint,
        offset: &mut usize,
    ) -> (r: Result<(), ChipError>)
        requires
            old(table).wf(),
            config.wf(),
            point.in_row(),
        ensures
            final(table).wf(),
            r is Ok,
            final(table)@ == old(table)@.enable(GateKind::OnCurve, point.x.row as int),
            *final(offset) == *old(offset),
            final(table)@.extends(old(table)@),
            final(table)@.rows() == old(table)@.rows(),
            old(table).holds(point.x) && old(table).holds(point.y) ==> (final(table)@.gate_holds(
                GateKind::OnCurve,
                point.x.row as int,
            ) <==> on_curve(point@)),
            old(table).holds(point.x) && old(table).holds(point.y) && old(table)@.satisfied()
                && on_curve(point@) ==> final(table)@.satisfied(),
            old(table).holds(point.x) && old(table).holds(point.y) && !on_curve(point@) ==> !final(table)@.satisfied(),
    {
        proof {
            lemma_enforce_layout(table@, point.x.row as int, point@);
            let n = table@.laid_out(
                Seq::empty(),
                no_pairs(),
                Some((GateKind::OnCurve, point.x.row as int)),
            );
            assert(table@.copies + no_pairs() =~= table@.copies);
            assert(n == table@.enable(GateKind::OnCurve, point.x.row as int));
        }
        table.enable_gate(GateKind::OnCurve, point.x.row);
        Ok(())
    }

    /// Lays out a point and its double over two rows, ties the point to the
    /// cells it came from, switches the doubling gate on and returns the
    /// double.
    #[verifier::rlimit(30)]
    pub fn point_double(
        &self,
        table: &mut Table,
        config: &ECConfig,
        p1: &AssignedECPoint,
        offset: &mut usize,
    ) -> (r: Result<AssignedECPoint, ChipError>)
        requires
            old(table).wf(),
            config.wf(),
            p1.wf(),
            *old(offset) + 2 <= usize::MAX,
        ensures
            final(table).wf(),
            old(table)@.ends_by(*old(offset) as int) ==> r is Ok,
            r is Ok <==> old(table)@.writes_fresh(
                double_writes(*old(offset) as int, p1@, te_double(p1@)),
            ),
            r matches Ok(q) ==> {
                &&& q.wf()
                &&& q.in_row()
                &&& q.x.row == *old(offset) + 1
                &&& q@ == te_double(p1@)
                &&& final(table)@ == old(table)@.laid_out(
                    double_writes(*old(offset) as int, p1@, te_double(p1@)),
                    point_pairs(*old(offset) as int, place(p1.x), place(p1.y)),
                    Some((GateKind::EcDouble, *old(offset) as int)),
                )
                &&& *final(offset) == *old(offset) + 2
                &&& final(table).holds(q.x)
                &&& final(table).holds(q.y)
                &&& final(table)@.extends(old(table)@)
                &&& final(table)@.rows() == larger(old(table)@.rows(), *final(offset) as int)
                &&& double_x_den(p1@) != 0 && double_y_den(p1@) != 0 ==> double_defined(p1@)
                &&& double_defined(p1@) ==> final(table)@.gate_holds(
                    GateKind::EcDouble,
                    *old(offset) as int,
                )
                &&& (double_defined(p1@) && old(table)@.satisfied() && old(table).holds(p1.x)
                    && old(table).holds(p1.y)) ==> final(table)@.satisfied()
            },
            r matches Err(e) ==> e == ChipError::AssignmentConflict && *final(table) == *old(table)
                && *final(offset) == *old(offset),
    {
        let row: usize = *offset;
        let p = p1.point();
        let d = p.doubled();
        let writes = double_cells(config, row, &p, &d);
        let pairs = point_ties(config, row, p1);
        proof {
            if table@.ends_by(row as int) {
                lemma_ends_by(table@, row as int, row + 2);
                lemma_double_fresh(table@, row as int, p1@, te_double(p1@));
            }
            assert(p@ == p1@);
            if table@.writes_fresh(writes_view(writes@)) {
                lemma_double_layout(table@, row as int, p1@, place(p1.x), place(p1.y));
            }
        }
        match table.lay_out(&writes, &pairs, Some((GateKind::EcDouble, row))) {
            Ok(cells) => {
                *offset = row + 2;
                Ok(AssignedECPoint { x: cells[2], y: cells[3] })
            },
            Err(e) => Err(e),
        }
    }

    /// Lays out two points, a condition and their conditional sum over four
    /// rows, ties the inputs to the cells they came from, switches the
    /// conditional addition gate on and returns the result: the sum where
    /// the condition is one, the first point where it is zero. This gate
    /// does not hold the condition to be a bit; that is the caller's part.
    #[verifier::rlimit(30)]
    pub fn conditional_point_add(
        &self,
        table: &mut Table,
        config: &ECConfig,
        p1: &AssignedECPoint,
        p2: &AssignedECPoint,
        bit: &AssignedCell,
        offset: &mut usize,
    ) -> (r: Result<AssignedECPoint, ChipError>)
        requires
            old(table).wf(),
            config.wf(),
            p1.wf(),
            p2.wf(),
            bit.value.wf(),
            *old(offset) + 4 <= usize::MAX,
        ensures
            final(table).wf(),
            old(table)@.ends_by(*old(offset) as int) ==> r is Ok,
            r is Ok <==> old(table)@.writes_fresh(
                conditional_add_writes(
                    *old(offset) as int,
                    p1@,
                    p2@,
                    bit.value@,
                    te_conditional_add(p1@, p2@, bit.value@),
                ),
            ),
            r matches Ok(q) ==> {
                &&& q.wf()
                &&& q.in_row()
                &&& q.x.row == *old(offset) + 3
                &&& q@ == te_conditional_add(p1@, p2@, bit.value@)
                &&& final(table)@ == old(table)@.laid_out(
                    conditional_add_writes(
                        *old(offset) as int,
                        p1@,
                        p2@,
                        bit.value@,
                        te_conditional_add(p1@, p2@, bit.value@),
                    ),
                    conditional_add_pairs(
                        *old(offset) as int,
                        place(p1.x),
                        place(p1.y),
                        place(p2.x),
                        place(p2.y),
                        place(*bit),
                    ),
                    Some((GateKind::ConditionalEcAdd, *old(offset) as int)),
                )
                &&& *final(offset) == *old(offset) + 4
                &&& final(table).holds(q.x)
                &&& final(table).holds(q.y)
                &&& final(table)@.extends(old(table)@)
                &&& final(table)@.rows() == larger(old(table)@.rows(), *final(offset) as int)
                &&& add_x_den(p1@, p2@) != 0 && add_y_den(p1@, p2@) != 0 ==> add_defined(p1@, p2@)
                &&& conditional_add_regular(p1@, p2@, bit.value@) ==> final(table)@.gate_holds(
                    GateKind::ConditionalEcAdd,
                    *old(offset) as int,
                )
                &&& (conditional_add_regular(p1@, p2@, bit.value@) && old(table)@.satisfied()
                    && old(table).holds(p1.x) && old(table).holds(p1.y) && old(table).holds(p2.x)
                    && old(table).holds(p2.y) && old(table).holds(*bit)) ==> final(table)@.satisfied()
            },
            r matches Err(e) ==> e == ChipError::AssignmentConflict && *final(table) == *old(table)
                && *final(offset) == *old(offset),
    {
        let row: usize = *offset;
        let p = p1.point();
        let q = p2.point();
        let c = bit.value;
        let s = p.conditional_plus(&q, &c);
        let writes = conditional_add_cells(config, row, &p, &q, &c, &s);
        let pairs = conditional_add_ties(config, row, p1, p2, bit);
        proof {
            if table@.ends_by(row as int) {
                lemma_ends_by(table@, row as int, row + 4);
                lemma_conditional_add_fresh(
                    table@,
                    row as int,
                    p1@,
                    p2@,
                    c@,
                    te_conditional_add(p1@, p2@, c@),
                );
            }
            assert(p@ == p1@ && q@ == p2@);
            if table@.writes_fresh(writes_view(writes@)) {
                lemma_conditional_add_layout(
                    table@,
                    row as int,
                    p1@,
                    p2@,
                    c@,
                    place(p1.x),
                    place(p1.y),
                    place(p2.x),
                    place(p2.y),
                    place(*bit),
                );
            }
        }
        match table.lay_out(&writes, &pairs, Some((GateKind::ConditionalEcAdd, row))) {
            Ok(cells) => {
                *offset = row + 4;
                Ok(AssignedECPoint { x: cells[5], y: cells[6] })
            },
            Err(e) => Err(e),
        }
    }
}

} // verus!
