//! Bit decomposition in the table: four bits per step, folded from the
//! most significant nibble down into a running accumulator.

use crate::algebra::lemma_fe_range;
use crate::bits::{lemma_shift_step, shifted, u128_bit};
use crate::chip::{values_of, ECChip};
use crate::config::{ECConfig, GateKind};
use crate::expr::Lane;
use crate::field::{fadd, fmul, le_limb, le_value, Fe};
use crate::layout::{
    decomp_consistent, decomp_writes, field_writes, lemma_decomp_fresh, lemma_decomp_layout,
    lemma_field_layout, no_pairs,
};
use crate::table::{larger, pairs_view, AssignedCell, CellRef, ChipError, Table, TableView};
use crate::table_laws::{
    lemma_constrain, lemma_ends_by, lemma_extends_chain, lemma_extends_self,
};
use vstd::arithmetic::power2::{lemma2_to64, lemma_pow2_adds, lemma_pow2_unfold, pow2};
use vstd::prelude::*;

verus! {

/// The rows the decomposition of a 128-bit integer takes: three per step
/// and one for the integer itself.
pub const DECOMPOSE_ROWS: usize = 97;

/// Bit `i` of an integer as zero or one.
pub open spec fn bit_value(value: u128, i: int) -> nat {
    if u128_bit(value, i) {
        1
    } else {
        0
    }
}

/// The position of the lowest bit that step `step` folds in.
pub open spec fn step_shift(step: int) -> int {
    4 * (31 - step)
}

/// The accumulator that step `step` starts from: the bits above those it
/// folds in.
pub open spec fn accumulator_before(value: u128, step: int) -> nat {
    if step <= 0 {
        0
    } else {
        (value >> ((step_shift(step) + 4) as u128)) as nat
    }
}

/// The accumulator that step `step` ends with.
pub open spec fn accumulator_after(value: u128, step: int) -> nat {
    (value >> (step_shift(step) as u128)) as nat
}

/// The six values `[x1, y1, x2, y2, x3, y3]` of step `step`.
pub open spec fn step_values(value: u128, step: int) -> Seq<nat> {
    seq![
        bit_value(value, step_shift(step)),
        bit_value(value, step_shift(step) + 1),
        bit_value(value, step_shift(step) + 2),
        bit_value(value, step_shift(step) + 3),
        accumulator_before(value, step),
        accumulator_after(value, step),
    ]
}

/// Four bits and an accumulator below `2^124` accumulate in the field as
/// they do in the integers.
proof fn lemma_small_accumulation(v0: nat, v1: nat, v2: nat, v3: nat, v4: nat)
    requires
        v0 <= 1,
        v1 <= 1,
        v2 <= 1,
        v3 <= 1,
        v4 < 0x1000_0000_0000_0000_0000_0000_0000_0000,
    ensures
        fadd(fadd(fadd(fadd(v0, fmul(2, v1)), fmul(4, v2)), fmul(8, v3)), fmul(16, v4)) == v0 + 2
            * v1 + 4 * v2 + 8 * v3 + 16 * v4,
{
    reveal(TableView::satisfied);
    reveal(TableView::extends);
    lemma_fe_range((2 * v1) as int);
    lemma_fe_range((4 * v2) as int);
    lemma_fe_range((8 * v3) as int);
    lemma_fe_range((16 * v4) as int);
    assert(fmul(2, v1) == 2 * v1);
    assert(fmul(4, v2) == 4 * v2);
    assert(fmul(8, v3) == 8 * v3);
    assert(fmul(16, v4) == 16 * v4);
    lemma_fe_range((v0 + 2 * v1) as int);
    lemma_fe_range((v0 + 2 * v1 + 4 * v2) as int);
    lemma_fe_range((v0 + 2 * v1 + 4 * v2 + 8 * v3) as int);
    lemma_fe_range((v0 + 2 * v1 + 4 * v2 + 8 * v3 + 16 * v4) as int);
}

/// The values of every step are consistent.
#[verifier::rlimit(30)]
pub proof fn lemma_step_consistent(value: u128, step: int)
    requires
        0 <= step < 32,
    ensures
        decomp_consistent(step_values(value, step)),
        step > 0 ==> accumulator_before(value, step) == accumulator_after(value, step - 1),
        accumulator_after(value, 31) == value,
{
    reveal(TableView::satisfied);
    reveal(TableView::extends);
    let sh = step_shift(step) as u128;
    let s1 = (sh + 1) as u128;
    let s2 = (sh + 2) as u128;
    let s3 = (sh + 3) as u128;
    let s4 = (sh + 4) as u128;
    let x = value >> sh;
    assert(value >> 0u128 == value) by (bit_vector);
    assert(x == (if x & 1 == 1 { 1u128 } else { 0u128 }) + 2 * (if (x >> 1) & 1 == 1 {
        1u128
    } else {
        0u128
    }) + 4 * (if (x >> 2) & 1 == 1 { 1u128 } else { 0u128 }) + 8 * (if (x >> 3) & 1 == 1 {
        1u128
    } else {
        0u128
    }) + 16 * (x >> 4) && (x >> 4) < 0x1000_0000_0000_0000_0000_0000_0000_0000u128)
        by (bit_vector);
    assert((value >> sh) >> 1 == value >> s1) by (bit_vector)
        requires
            sh <= 124,
            s1 == sh + 1,
    ;
    assert((value >> sh) >> 2 == value >> s2) by (bit_vector)
        requires
            sh <= 124,
            s2 == sh + 2,
    ;
    assert((value >> sh) >> 3 == value >> s3) by (bit_vector)
        requires
            sh <= 124,
            s3 == sh + 3,
    ;
    let b0: nat = if (value >> sh) & 1 == 1 { 1 } else { 0 };
    let b1: nat = if (value >> s1) & 1 == 1 { 1 } else { 0 };
    let b2: nat = if (value >> s2) & 1 == 1 { 1 } else { 0 };
    let b3: nat = if (value >> s3) & 1 == 1 { 1 } else { 0 };
    if step == 0 {
        assert((value >> sh) >> 4 == 0) by (bit_vector)
            requires
                sh == 124,
        ;
        lemma_small_accumulation(b0, b1, b2, b3, 0);
    } else {
        assert((value >> sh) >> 4 == value >> s4) by (bit_vector)
            requires
                sh <= 120,
                s4 == sh + 4,
        ;
        lemma_small_accumulation(b0, b1, b2, b3, (value >> s4) as nat);
    }
}

/// The copy constraint of a step laid out from `row`: for every step but
/// the first, its starting accumulator tied to the accumulator in the row
/// above.
pub open spec fn step_pairs(row: int, step: int) -> Seq<((Lane, int), (Lane, int))> {
    if step == 0 {
        no_pairs()
    } else {
        seq![((Lane::A, row + 2), (Lane::B, row - 1))]
    }
}

/// The table after one step laid out from `row`: its six values over three
/// rows, its copy constraint and its gate.
pub open spec fn step_table(t: TableView, row: int, value: u128, step: int) -> TableView {
    t.laid_out(
        decomp_writes(row, step_values(value, step)),
        step_pairs(row, step),
        Some((GateKind::PartialBitDecomp, row)),
    )
}

/// The table after the first `steps` steps of the decomposition of `value`
/// from row `off`.
pub open spec fn decompose_steps(t: TableView, off: int, value: u128, steps: int) -> TableView
    decreases steps,
{
    if steps <= 0 {
        t
    } else {
        step_table(decompose_steps(t, off, value, steps - 1), off + 3 * (steps - 1), value, steps - 1)
    }
}

/// What one step does to the table: it extends it, writes its three rows
/// and no others, and keeps a satisfied table satisfied.
#[verifier::rlimit(30)]
pub proof fn lemma_step_table(t: TableView, row: int, value: u128, step: int)
    requires
        t.a.len() == t.b.len(),
        0 <= row,
        0 <= step < 32,
        t.rows_free(row, row + 3),
        step > 0 ==> t.cell(Lane::B, row - 1) == Some(accumulator_after(value, step - 1)),
    ensures
        step_table(t, row, value, step).extends(t),
        step_table(t, row, value, step).a.len() == step_table(t, row, value, step).b.len(),
        step_table(t, row, value, step).rows() == larger(t.rows(), row + 3),
        forall|lane: Lane, r: int|
            (r < row || r >= row + 3) ==> #[trigger] step_table(t, row, value, step).cell(lane, r)
                == t.cell(lane, r),
        step_table(t, row, value, step).cell(Lane::A, row) == Some(step_values(value, step)[0]),
        step_table(t, row, value, step).cell(Lane::B, row) == Some(step_values(value, step)[1]),
        step_table(t, row, value, step).cell(Lane::A, row + 1) == Some(
            step_values(value, step)[2],
        ),
        step_table(t, row, value, step).cell(Lane::B, row + 1) == Some(
            step_values(value, step)[3],
        ),
        step_table(t, row, value, step).cell(Lane::A, row + 2) == Some(
            accumulator_before(value, step),
        ),
        step_table(t, row, value, step).cell(Lane::B, row + 2) == Some(
            accumulator_after(value, step),
        ),
        t.satisfied() ==> step_table(t, row, value, step).satisfied(),
{
    reveal(TableView::satisfied);
    reveal(TableView::extends);
    let v = step_values(value, step);
    let w = decomp_writes(row, v);
    let pairs = step_pairs(row, step);
    lemma_decomp_fresh(t, row, v);
    lemma_step_consistent(value, step);
    lemma_decomp_layout(t, row, v, pairs);
    let n = step_table(t, row, value, step);
    if step > 0 {
        assert(pairs[0] == ((Lane::A, row + 2), (Lane::B, row - 1)));
        assert(n.cell(Lane::B, row - 1) == t.cell(Lane::B, row - 1));
        assert(n.copy_holds(pairs[0]));
    }
    assert forall|j: int| 0 <= j < pairs.len() implies n.copy_holds(#[trigger] pairs[j]) by {
        assert(j == 0);
    }
}

/// The table after the decomposition of `value` from row `off`: the 32
/// steps, then the integer itself in lane `A` of the row below them, tied
/// to the last accumulator.
pub open spec fn decompose_layout(t: TableView, off: int, value: u128) -> TableView {
    decompose_steps(t, off, value, 32).laid_out(
        field_writes(off + 96, value as nat),
        no_pairs(),
        None,
    ).constrain((Lane::A, off + 96), (Lane::B, off + 95))
}

/// The cells the decomposition writes are unwritten.
pub open spec fn decompose_free(t: TableView, off: int) -> bool {
    t.rows_free(off, off + 96) && t.cell(Lane::A, off + 96) is None
}

/// The lane of bit `i` of the decomposition.
pub open spec fn bit_lane(i: int) -> Lane {
    if i % 2 == 0 {
        Lane::A
    } else {
        Lane::B
    }
}

/// The row, counted from the first, of bit `i` of the decomposition.
pub open spec fn bit_row(i: int) -> int {
    3 * (31 - i / 4) + (i % 4) / 2
}

/// What the first `steps` steps do to the table: they extend it, leave the
/// rows below them as they were, put every bit they fold in into its cell
/// and the last accumulator into lane `B` of their last row, and keep a
/// satisfied table satisfied.
#[verifier::rlimit(30)]
pub proof fn lemma_decompose_steps(t: TableView, off: int, value: u128, steps: int)
    requires
        t.a.len() == t.b.len(),
        0 <= off,
        0 <= steps <= 32,
        t.rows_free(off, off + 3 * steps),
    ensures
        decompose_steps(t, off, value, steps).extends(t),
        decompose_steps(t, off, value, steps).a.len() == decompose_steps(
            t,
            off,
            value,
            steps,
        ).b.len(),
        steps > 0 ==> decompose_steps(t, off, value, steps).rows() == larger(
            t.rows(),
            off + 3 * steps,
        ),
        forall|lane: Lane, row: int|
            row >= off + 3 * steps ==> #[trigger] decompose_steps(t, off, value, steps).cell(
                lane,
                row,
            ) == t.cell(lane, row),
        forall|i: int|
            128 - 4 * steps <= i < 128 ==> #[trigger] decompose_steps(t, off, value, steps).cell(
                bit_lane(i),
                off + bit_row(i),
            ) == Some(bit_value(value, i)),
        steps > 0 ==> decompose_steps(t, off, value, steps).cell(Lane::B, off + 3 * steps - 1)
            == Some(accumulator_after(value, steps - 1)),
        t.satisfied() ==> decompose_steps(t, off, value, steps).satisfied(),
    decreases steps,
{
    reveal(TableView::satisfied);
    reveal(TableView::extends);
    if steps == 0 {
        lemma_extends_self(t);
    } else {
        let step = steps - 1;
        let row = off + 3 * step;
        let prev = decompose_steps(t, off, value, step);
        assert(t.rows_free(off, off + 3 * step));
        lemma_decompose_steps(t, off, value, step);
        assert(prev.rows_free(row, row + 3)) by {
            assert forall|lane: Lane, r: int| row <= r < row + 3 implies (#[trigger] prev.cell(
                lane,
                r,
            )) is None by {
                assert(t.cell(lane, r) is None);
            }
        }
        lemma_step_table(prev, row, value, step);
        let n = decompose_steps(t, off, value, steps);
        assert(n == step_table(prev, row, value, step));
        lemma_extends_chain(t, prev, n);
        assert forall|lane: Lane, r: int| r >= off + 3 * steps implies #[trigger] n.cell(lane, r)
            == t.cell(lane, r) by {
            assert(n.cell(lane, r) == prev.cell(lane, r));
        }
        assert forall|i: int| 128 - 4 * steps <= i < 128 implies #[trigger] n.cell(
            bit_lane(i),
            off + bit_row(i),
        ) == Some(bit_value(value, i)) by {
            if i >= 128 - 4 * step {
                assert(off + bit_row(i) < row);
                assert(n.cell(bit_lane(i), off + bit_row(i)) == prev.cell(
                    bit_lane(i),
                    off + bit_row(i),
                ));
            } else {
                let k = i - (128 - 4 * steps);
                assert(0 <= k < 4);
                assert(i == step_shift(step) + k);
                assert(step_values(value, step)[k] == bit_value(value, i));
            }
        }
    }
}

/// What the decomposition does to the table: it extends it, puts every bit
/// into its cell and the integer below the steps, leaves the rows further
/// down as they were, and keeps a satisfied table satisfied.
#[verifier::rlimit(30)]
pub proof fn lemma_decompose_layout(t: TableView, off: int, value: u128)
    requires
        t.a.len() == t.b.len(),
        0 <= off,
        decompose_free(t, off),
    ensures
        decompose_layout(t, off, value).extends(t),
        decompose_layout(t, off, value).a.len() == decompose_layout(t, off, value).b.len(),
        decompose_layout(t, off, value).rows() == larger(t.rows(), off + 97),
        forall|i: int|
            0 <= i < 128 ==> #[trigger] decompose_layout(t, off, value).cell(
                bit_lane(i),
                off + bit_row(i),
            ) == Some(bit_value(value, i)),
        decompose_layout(t, off, value).cell(Lane::A, off + 96) == Some(value as nat),
        forall|lane: Lane, row: int|
            (row >= off + 97 || row < off) ==> #[trigger] decompose_layout(t, off, value).cell(
                lane,
                row,
            ) == t.cell(lane, row),
        t.satisfied() ==> decompose_layout(t, off, value).satisfied(),
{
    reveal(TableView::satisfied);
    reveal(TableView::extends);
    let s = decompose_steps(t, off, value, 32);
    lemma_decompose_steps(t, off, value, 32);
    lemma_steps_above(t, off, value, 32);
    let w = field_writes(off + 96, value as nat);
    assert(s.cell(Lane::A, off + 96) == t.cell(Lane::A, off + 96));
    lemma_field_layout(s, off + 96, value as nat);
    crate::table_laws::lemma_laid_out(s, w, no_pairs(), None);
    let l = s.laid_out(w, no_pairs(), None);
    let n = decompose_layout(t, off, value);
    lemma_constrain(l, (Lane::A, off + 96), (Lane::B, off + 95));
    lemma_extends_chain(t, s, l);
    lemma_extends_chain(t, l, n);
    assert(w[0] == (Lane::A, off + 96, value as nat));
    assert forall|lane: Lane, row: int| #[trigger] n.cell(lane, row) == l.cell(lane, row) by {}
    assert forall|lane: Lane, row: int|
        (lane != Lane::A || row != off + 96) implies #[trigger] l.cell(lane, row) == s.cell(
        lane,
        row,
    ) by {
        assert forall|i: int| 0 <= i < w.len() implies (#[trigger] w[i]).0 != lane || w[i].1
            != row by {}
    }
    lemma_step_consistent(value, 31);
    assert forall|i: int| 0 <= i < 128 implies #[trigger] n.cell(bit_lane(i), off + bit_row(i))
        == Some(bit_value(value, i)) by {
        assert(off + bit_row(i) < off + 96);
        assert(n.cell(bit_lane(i), off + bit_row(i)) == l.cell(bit_lane(i), off + bit_row(i)));
        assert(l.cell(bit_lane(i), off + bit_row(i)) == s.cell(bit_lane(i), off + bit_row(i)));
    }
    assert forall|lane: Lane, row: int| (row >= off + 97 || row < off) implies #[trigger] n.cell(
        lane,
        row,
    ) == t.cell(lane, row) by {
        assert(n.cell(lane, row) == l.cell(lane, row));
        assert(l.cell(lane, row) == s.cell(lane, row));
    }
    if t.satisfied() {
        assert(l.cell(Lane::B, off + 95) == s.cell(Lane::B, off + 95));
        assert(n.copy_holds(((Lane::A, off + 96), (Lane::B, off + 95))));
        crate::table_laws::lemma_extension_satisfied(l, n);
    }
}

/// The steps leave the rows above the first as they were.
pub proof fn lemma_steps_above(t: TableView, off: int, value: u128, steps: int)
    requires
        t.a.len() == t.b.len(),
        0 <= off,
        0 <= steps <= 32,
        t.rows_free(off, off + 3 * steps),
    ensures
        forall|lane: Lane, row: int|
            row < off ==> #[trigger] decompose_steps(t, off, value, steps).cell(lane, row)
                == t.cell(lane, row),
    decreases steps,
{
    reveal(TableView::satisfied);
    reveal(TableView::extends);
    if steps > 0 {
        let step = steps - 1;
        let row = off + 3 * step;
        let prev = decompose_steps(t, off, value, step);
        assert(t.rows_free(off, off + 3 * step));
        lemma_steps_above(t, off, value, step);
        lemma_decompose_steps(t, off, value, step);
        assert(prev.rows_free(row, row + 3)) by {
            assert forall|lane: Lane, r: int| row <= r < row + 3 implies (#[trigger] prev.cell(
                lane,
                r,
            )) is None by {
                assert(t.cell(lane, r) is None);
            }
        }
        lemma_step_table(prev, row, value, step);
        let n = decompose_steps(t, off, value, steps);
        assert forall|lane: Lane, r: int| r < off implies #[trigger] n.cell(lane, r) == t.cell(
            lane,
            r,
        ) by {
            assert(n.cell(lane, r) == prev.cell(lane, r));
        }
    }
}

/// A cell stands for bit `i` of the decomposition of `value` from row
/// `off`: it sits where that bit is written and holds it.
pub open spec fn is_bit_cell(c: AssignedCell, i: int, off: int, value: u128) -> bool {
    &&& c.lane == bit_lane(i)
    &&& c.row == off + bit_row(i)
    &&& c.value.wf()
    &&& c.value@ == bit_value(value, i)
}

/// The bit that is the `j`-th to be written: steps go from the top nibble
/// down, and each writes its four bits from the lowest up.
pub open spec fn written_bit(j: int) -> int {
    4 * (31 - j / 4) + j % 4
}

/// The number that a sequence of cells stands for when each holds the
/// digit of its position: the sum of `value * 2^i` over the cells.
pub open spec fn cells_value(cells: Seq<AssignedCell>) -> nat
    decreases cells.len(),
{
    if cells.len() == 0 {
        0
    } else {
        cells[0].value@ + 2 * cells_value(cells.drop_first())
    }
}

/// The bit cells of an integer from position `from` upwards stand for the
/// integer shifted down by `from`.
proof fn lemma_cells_value_suffix(value: u128, cells: Seq<AssignedCell>, off: int, from: int)
    requires
        cells.len() == 128,
        0 <= from <= 128,
        forall|i: int| 0 <= i < 128 ==> is_bit_cell(#[trigger] cells[i], i, off, value),
    ensures
        cells_value(cells.subrange(from, 128)) == shifted(value, from),
    decreases 128 - from,
{
    let tail = cells.subrange(from, 128);
    if from < 128 {
        assert(tail[0] == cells[from]);
        assert(is_bit_cell(cells[from], from, off, value));
        assert(tail.drop_first() =~= cells.subrange(from + 1, 128));
        lemma_cells_value_suffix(value, cells, off, from + 1);
        lemma_shift_step(value, from);
    }
}

/// The bit cells of an integer stand for the integer.
pub proof fn lemma_bit_cells_reconstruct(value: u128, cells: Seq<AssignedCell>, off: int)
    requires
        cells.len() == 128,
        forall|i: int| 0 <= i < 128 ==> is_bit_cell(#[trigger] cells[i], i, off, value),
    ensures
        cells_value(cells) == value,
{
    lemma_cells_value_suffix(value, cells, off, 0);
    assert(cells.subrange(0, 128) =~= cells);
    lemma_shift_step(value, 0);
}

/// A sequence of cells followed by another stands for the value of the
/// first plus the value of the second, weighted by two to the length of
/// the first.
pub proof fn lemma_cells_value_concat(low: Seq<AssignedCell>, high: Seq<AssignedCell>)
    ensures
        cells_value(low + high) == cells_value(low) + pow2(low.len()) * cells_value(high),
    decreases low.len(),
{
    let c = cells_value(high) as int;
    if low.len() == 0 {
        assert(low + high =~= high);
        lemma2_to64();
        assert(pow2(0) * c == c) by (nonlinear_arith)
            requires
                pow2(0) == 1,
        ;
    } else {
        let rest = low.drop_first();
        assert((low + high).drop_first() =~= rest + high);
        assert((low + high)[0] == low[0]);
        lemma_cells_value_concat(rest, high);
        lemma_pow2_unfold(low.len());
        let q = pow2(rest.len()) as int;
        let p = pow2(low.len()) as int;
        assert(p == 2 * q);
        assert(2 * (q * c) == p * c) by (nonlinear_arith)
            requires
                p == 2 * q,
        ;
    }
}

/// The six field elements of a step.
#[verifier::rlimit(30)]
fn step_inputs(digits: &Vec<u64>, value: u128, step: usize) -> (r: [Fe; 6])
    requires
        digits.len() == 128,
        forall|i: int|
            0 <= i < 128 ==> digits[i] == (if u128_bit(value, i) { 1u64 } else { 0u64 }),
        step < 32,
    ensures
        forall|i: int| 0 <= i < 6 ==> (#[trigger] r[i]).wf(),
        values_of(r@) == step_values(value, step as int),
        forall|k: int|
            0 <= k < 4 ==> (#[trigger] r[k])@ == bit_value(value, step_shift(step as int) + k),
{
    let low: usize = 4 * (31 - step);
    let shift: u128 = low as u128;
    let before: u128 = if step == 0 {
        0
    } else {
        value >> (shift + 4)
    };
    let after: u128 = value >> shift;
    let r = [
        Fe::from_u64(digits[low]),
        Fe::from_u64(digits[low + 1]),
        Fe::from_u64(digits[low + 2]),
        Fe::from_u64(digits[low + 3]),
        Fe::from_u128(before),
        Fe::from_u128(after),
    ];
    proof {
        assert(values_of(r@) =~= step_values(value, step as int));
    }
    r
}

/// The bit cells in little-endian order, from the order they were written
/// in.
fn in_bit_order(written: &Vec<AssignedCell>, off: usize, value: u128) -> (cells: Vec<AssignedCell>)
    requires
        written.len() == 128,
        forall|j: int|
            0 <= j < 128 ==> is_bit_cell(#[trigger] written[j], written_bit(j), off as int, value),
    ensures
        cells.len() == 128,
        forall|i: int| 0 <= i < 128 ==> is_bit_cell(#[trigger] cells[i], i, off as int, value),
{
    let mut cells: Vec<AssignedCell> = Vec::new();
    let mut i: usize = 0;
    while i < 128
        invariant
            i <= 128,
            cells.len() == i,
            written.len() == 128,
            forall|j: int|
                0 <= j < 128 ==> is_bit_cell(
                    #[trigger] written[j],
                    written_bit(j),
                    off as int,
                    value,
                ),
            forall|k: int| 0 <= k < i ==> is_bit_cell(#[trigger] cells[k], k, off as int, value),
        decreases 128 - i,
    {
        let j: usize = 4 * (31 - i / 4) + i % 4;
        proof {
            assert(written_bit(j as int) == i);
        }
        cells.push(written[j]);
        i = i + 1;
    }
    cells
}

/// A cell is the `k`-th of the four bit cells that step `step` writes from
/// `row`.
pub open spec fn is_step_cell(c: AssignedCell, k: int, row: int, value: u128, step: int) -> bool {
    &&& c.lane == (if k == 0 || k == 2 {
        Lane::A
    } else {
        Lane::B
    })
    &&& c.row == (if k < 2 {
        row
    } else {
        row + 1
    })
    &&& c.value.wf()
    &&& c.value@ == bit_value(value, step_shift(step) + k)
}

/// Lays out one step from the row at the offset, in rows known to be
/// unwritten, and returns its four bit cells.
#[verifier::rlimit(30)]
fn fold_step(
    chip: &ECChip,
    table: &mut Table,
    config: &ECConfig,
    digits: &Vec<u64>,
    value: u128,
    step: usize,
    offset: &mut usize,
) -> (cells: Vec<AssignedCell>)
    requires
        old(table).wf(),
        config.wf(),
        digits.len() == 128,
        forall|i: int|
            0 <= i < 128 ==> digits[i] == (if u128_bit(value, i) { 1u64 } else { 0u64 }),
        step < 32,
        *old(offset) + 3 <= usize::MAX,
        step > 0 ==> *old(offset) >= 1,
        old(table)@.rows_free(*old(offset) as int, *old(offset) + 3),
    ensures
        final(table).wf(),
        final(table)@ == step_table(old(table)@, *old(offset) as int, value, step as int),
        *final(offset) == *old(offset) + 3,
        cells.len() == 4,
        forall|k: int|
            0 <= k < 4 ==> is_step_cell(
                #[trigger] cells[k],
                k,
                *old(offset) as int,
                value,
                step as int,
            ),
{
    let six = step_inputs(digits, value, step);
    let row: usize = *offset;
    let writes = crate::chip::decomp_cells(config, row, &six);
    let mut pairs: Vec<(CellRef, CellRef)> = Vec::new();
    if step > 0 {
        pairs.push((CellRef { lane: config.a, row: row + 2 }, CellRef { lane: config.b, row: row - 1 }));
    }
    proof {
        lemma_decomp_fresh(table@, row as int, step_values(value, step as int));
        assert(pairs_view(pairs@) =~= step_pairs(row as int, step as int));
        assert(values_of(six@)[0] == six[0]@ && values_of(six@)[1] == six[1]@ && values_of(
            six@,
        )[2] == six[2]@ && values_of(six@)[3] == six[3]@);
    }
    let mut cells: Vec<AssignedCell> = Vec::new();
    match table.lay_out(&writes, &pairs, Some((GateKind::PartialBitDecomp, row))) {
        Ok(all) => {
            cells.push(all[0]);
            cells.push(all[1]);
            cells.push(all[2]);
            cells.push(all[3]);
        },
        Err(_) => {},
    }
    *offset = row + 3;
    cells
}

impl ECChip {
    /// Decomposes a 128-bit integer into its bits in the table: 32 steps of
    /// four bits each, from the most significant nibble down, chained
    /// through their accumulators, and the integer itself below them, tied
    /// to the last accumulator. Returns the 128 bit cells, least significant
    /// first, and advances the offset by 97 rows.
    #[verifier::rlimit(30)]
    pub fn decompose_u128(
        &self,
        table: &mut Table,
        config: &ECConfig,
        value: &u128,
        offset: &mut usize,
    ) -> (r: Result<Vec<AssignedCell>, ChipError>)
        requires
            old(table).wf(),
            config.wf(),
            *old(offset) + DECOMPOSE_ROWS <= usize::MAX,
        ensures
            final(table).wf(),
            r is Ok <==> decompose_free(old(table)@, *old(offset) as int),
            old(table)@.ends_by(*old(offset) as int) ==> r is Ok,
            r matches Ok(cells) ==> {
                &&& cells.len() == 128
                &&& forall|i: int|
                    0 <= i < 128 ==> is_bit_cell(
                        #[trigger] cells[i],
                        i,
                        *old(offset) as int,
                        *value,
                    ) && final(table).holds(cells[i])
                &&& cells_value(cells@) == *value
                &&& final(table)@ == decompose_layout(old(table)@, *old(offset) as int, *value)
                &&& *final(offset) == *old(offset) + DECOMPOSE_ROWS
                &&& final(table)@.extends(old(table)@)
                &&& final(table)@.rows() == larger(old(table)@.rows(), *final(offset) as int)
                &&& old(table)@.satisfied() ==> final(table)@.satisfied()
            },
            r matches Err(e) ==> e == ChipError::AssignmentConflict && *final(table) == *old(table)
                && *final(offset) == *old(offset),
    {
        let off: usize = *offset;
        proof {
            if table@.ends_by(off as int) {
                lemma_ends_by(table@, off as int, off + 96);
            }
        }
        if !(table.rows_are_free(off, off + 96) && table.is_free(config.a, off + 96)) {
            return Err(ChipError::AssignmentConflict);
        }
        let digits = crate::bits::decompose_u128(value);
        let ghost before = table@;
        let mut written: Vec<AssignedCell> = Vec::new();
        let mut step: usize = 0;
        while step < 32
            invariant
                table.wf(),
                config.wf(),
                step <= 32,
                off + 97 <= usize::MAX,
                before.a.len() == before.b.len(),
                decompose_free(before, off as int),
                digits.len() == 128,
                forall|i: int|
                    0 <= i < 128 ==> digits[i] == (if u128_bit(*value, i) { 1u64 } else { 0u64 }),
                table@ == decompose_steps(before, off as int, *value, step as int),
                *offset == off + 3 * step,
                written.len() == 4 * step,
                forall|j: int|
                    0 <= j < 4 * step ==> is_bit_cell(
                        #[trigger] written[j],
                        written_bit(j),
                        off as int,
                        *value,
                    ),
            decreases 32 - step,
        {
            proof {
                assert(before.rows_free(off as int, off + 3 * step));
                lemma_decompose_steps(before, off as int, *value, step as int);
                assert(table@.rows_free(off + 3 * step, off + 3 * step + 3)) by {
                    assert forall|lane: Lane, r: int|
                        off + 3 * step <= r < off + 3 * step + 3 implies (#[trigger] table@.cell(
                        lane,
                        r,
                    )) is None by {
                        assert(before.cell(lane, r) is None);
                    }
                }
            }
            let cells = fold_step(self, table, config, &digits, *value, step, offset);
            proof {
                let s = step as int;
                assert(written_bit(4 * s) == step_shift(s) && written_bit(4 * s + 1) == step_shift(
                    s,
                ) + 1 && written_bit(4 * s + 2) == step_shift(s) + 2 && written_bit(4 * s + 3)
                    == step_shift(s) + 3);
                assert(bit_row(step_shift(s)) == 3 * s && bit_row(step_shift(s) + 1) == 3 * s
                    && bit_row(step_shift(s) + 2) == 3 * s + 1 && bit_row(step_shift(s) + 3) == 3
                    * s + 1);
                assert(bit_lane(step_shift(s)) == Lane::A && bit_lane(step_shift(s) + 1)
                    == Lane::B && bit_lane(step_shift(s) + 2) == Lane::A && bit_lane(
                    step_shift(s) + 3,
                ) == Lane::B);
                assert(is_step_cell(cells[0], 0, off + 3 * s, *value, s));
                assert(is_step_cell(cells[1], 1, off + 3 * s, *value, s));
                assert(is_step_cell(cells[2], 2, off + 3 * s, *value, s));
                assert(is_step_cell(cells[3], 3, off + 3 * s, *value, s));
            }
            written.push(cells[0]);
            written.push(cells[1]);
            written.push(cells[2]);
            written.push(cells[3]);
            step = step + 1;
        }
        let f = Fe::from_u128(*value);
        proof {
            lemma_decompose_steps(before, off as int, *value, 32);
            lemma_decompose_layout(before, off as int, *value);
        }
        match self.load_private_field(table, config, &f, offset) {
            Ok(c) => {
                table.constrain_equal(c.cell(), CellRef { lane: config.b, row: off + 95 });
            },
            Err(e) => {
                return Err(e);
            },
        }
        let cells = in_bit_order(&written, off, *value);
        proof {
            lemma_bit_cells_reconstruct(*value, cells@, off as int);
        }
        Ok(cells)
    }
}

/// The rows the decomposition of a scalar takes: those of its two halves.
pub const SCALAR_ROWS: usize = 194;

/// The low 128 bits of the little-endian value of a 32-byte encoding.
pub open spec fn scalar_low(e: Seq<u8>) -> u128 {
    (le_limb(e, 0) + 0x1_0000_0000_0000_0000 * le_limb(e, 8)) as u128
}

/// The high 128 bits of the little-endian value of a 32-byte encoding.
pub open spec fn scalar_high(e: Seq<u8>) -> u128 {
    (le_limb(e, 16) + 0x1_0000_0000_0000_0000 * le_limb(e, 24)) as u128
}

/// Bit `i` of the little-endian value of a 32-byte encoding, as zero or
/// one.
pub open spec fn scalar_bit(e: Seq<u8>, i: int) -> nat {
    if i < 128 {
        bit_value(scalar_low(e), i)
    } else {
        bit_value(scalar_high(e), i - 128)
    }
}

/// The table after the decomposition of a scalar from row `off`: its low
/// half, then its high half.
pub open spec fn scalar_layout(t: TableView, off: int, e: Seq<u8>) -> TableView {
    decompose_layout(decompose_layout(t, off, scalar_low(e)), off + 97, scalar_high(e))
}

/// The cells the decomposition of a scalar writes are unwritten.
pub open spec fn scalar_free(t: TableView, off: int) -> bool {
    decompose_free(t, off) && decompose_free(t, off + 97)
}

/// The lane of bit `i` of the decomposition of a scalar.
pub open spec fn scalar_bit_lane(i: int) -> Lane {
    if i < 128 {
        bit_lane(i)
    } else {
        bit_lane(i - 128)
    }
}

/// The row, counted from the first, of bit `i` of the decomposition of a
/// scalar.
pub open spec fn scalar_bit_row(i: int) -> int {
    if i < 128 {
        bit_row(i)
    } else {
        97 + bit_row(i - 128)
    }
}

/// A cell stands for bit `i` of the decomposition of a scalar from row
/// `off`.
pub open spec fn is_scalar_bit_cell(c: AssignedCell, i: int, off: int, e: Seq<u8>) -> bool {
    &&& c.lane == scalar_bit_lane(i)
    &&& c.row == off + scalar_bit_row(i)
    &&& c.value.wf()
    &&& c.value@ == scalar_bit(e, i)
}

/// What the decomposition of a scalar does to the table: it extends it,
/// puts every bit into its cell, leaves the rows outside its own as they
/// were, and keeps a satisfied table satisfied.
#[verifier::rlimit(30)]
pub proof fn lemma_scalar_layout(t: TableView, off: int, e: Seq<u8>)
    requires
        t.a.len() == t.b.len(),
        0 <= off,
        scalar_free(t, off),
    ensures
        scalar_layout(t, off, e).extends(t),
        scalar_layout(t, off, e).a.len() == scalar_layout(t, off, e).b.len(),
        scalar_layout(t, off, e).rows() == larger(t.rows(), off + 194),
        decompose_free(decompose_layout(t, off, scalar_low(e)), off + 97),
        forall|i: int|
            0 <= i < 256 ==> #[trigger] scalar_layout(t, off, e).cell(
                scalar_bit_lane(i),
                off + scalar_bit_row(i),
            ) == Some(scalar_bit(e, i)),
        forall|lane: Lane, row: int|
            (row >= off + 194 || row < off) ==> #[trigger] scalar_layout(t, off, e).cell(lane, row)
                == t.cell(lane, row),
        t.satisfied() ==> scalar_layout(t, off, e).satisfied(),
{
    let low = decompose_layout(t, off, scalar_low(e));
    let n = scalar_layout(t, off, e);
    lemma_decompose_layout(t, off, scalar_low(e));
    assert(decompose_free(low, off + 97)) by {
        assert forall|lane: Lane, row: int| off + 97 <= row < off + 97 + 96 implies (
        #[trigger] low.cell(lane, row)) is None by {
            assert(t.cell(lane, row) is None);
        }
        assert(low.cell(Lane::A, off + 97 + 96) == t.cell(Lane::A, off + 97 + 96));
    }
    lemma_decompose_layout(low, off + 97, scalar_high(e));
    lemma_extends_chain(t, low, n);
    assert forall|i: int| 0 <= i < 256 implies #[trigger] n.cell(
        scalar_bit_lane(i),
        off + scalar_bit_row(i),
    ) == Some(scalar_bit(e, i)) by {
        if i < 128 {
            lemma_bit_row(i);
            assert(low.cell(bit_lane(i), off + bit_row(i)) == Some(bit_value(scalar_low(e), i)));
            assert(n.cell(bit_lane(i), off + bit_row(i)) == low.cell(bit_lane(i), off + bit_row(i)));
        } else {
            let k = i - 128;
            assert(n.cell(bit_lane(k), off + 97 + bit_row(k)) == Some(
                bit_value(scalar_high(e), k),
            ));
        }
    }
    assert forall|lane: Lane, row: int| (row >= off + 194 || row < off) implies #[trigger] n.cell(
        lane,
        row,
    ) == t.cell(lane, row) by {
        assert(n.cell(lane, row) == low.cell(lane, row));
        assert(low.cell(lane, row) == t.cell(lane, row));
    }
}

/// Every bit of a decomposition sits in one of the rows of its steps.
pub proof fn lemma_bit_row(i: int)
    requires
        0 <= i < 128,
    ensures
        0 <= bit_row(i) < 96,
{
}

impl ECChip {
    /// Decomposes a scalar, given as its canonical little-endian encoding,
    /// into its 256 bits in the table: the low 128 bits of the encoding's
    /// value, then the high 128 bits, each as `decompose_u128` lays them
    /// out. Returns the 256 bit cells, least significant first, and advances
    /// the offset by 194 rows.
    #[verifier::rlimit(30)]
    pub fn decompose_scalar(
        &self,
        table: &mut Table,
        config: &ECConfig,
        scalar: &[u8; 32],
        offset: &mut usize,
    ) -> (r: Result<Vec<AssignedCell>, ChipError>)
        requires
            old(table).wf(),
            config.wf(),
            *old(offset) + SCALAR_ROWS <= usize::MAX,
        ensures
            final(table).wf(),
            r is Ok <==> scalar_free(old(table)@, *old(offset) as int),
            old(table)@.ends_by(*old(offset) as int) ==> r is Ok,
            r matches Ok(cells) ==> {
                &&& cells.len() == 256
                &&& forall|i: int|
                    0 <= i < 256 ==> is_scalar_bit_cell(
                        #[trigger] cells[i],
                        i,
                        *old(offset) as int,
                        scalar@,
                    ) && final(table).holds(cells[i])
                &&& cells_value(cells@) == le_value(scalar@)
                &&& final(table)@ == scalar_layout(old(table)@, *old(offset) as int, scalar@)
                &&& *final(offset) == *old(offset) + SCALAR_ROWS
                &&& final(table)@.extends(old(table)@)
                &&& final(table)@.rows() == larger(old(table)@.rows(), *final(offset) as int)
                &&& old(table)@.satisfied() ==> final(table)@.satisfied()
            },
            r matches Err(e) ==> e == ChipError::AssignmentConflict && *final(table) == *old(table)
                && *final(offset) == *old(offset),
    {
        let off: usize = *offset;
        proof {
            if table@.ends_by(off as int) {
                lemma_ends_by(table@, off as int, off + 96);
                lemma_ends_by(table@, off + 97, off + 193);
            }
        }
        if !(table.rows_are_free(off, off + 96) && table.is_free(config.a, off + 96)
            && table.rows_are_free(off + 97, off + 193) && table.is_free(config.a, off + 193)) {
            return Err(ChipError::AssignmentConflict);
        }
        let halves = crate::bits::field_decompose_u128(scalar);
        let high: u128 = halves.0;
        let low: u128 = halves.1;
        let ghost before = table@;
        proof {
            lemma_scalar_layout(before, off as int, scalar@);
        }
        let mut cells = match self.decompose_u128(table, config, &low, offset) {
            Ok(cells) => cells,
            Err(e) => {
                return Err(e);
            },
        };
        let upper = match self.decompose_u128(table, config, &high, offset) {
            Ok(cells) => cells,
            Err(e) => {
                return Err(e);
            },
        };
        let ghost lower = cells@;
        let mut i: usize = 0;
        while i < 128
            invariant
                i <= 128,
                cells@ == lower + upper@.take(i as int),
                off + 194 <= usize::MAX,
                low == scalar_low(scalar@),
                high == scalar_high(scalar@),
                upper.len() == 128,
                cells.len() == 128 + i,
                forall|k: int|
                    0 <= k < 128 ==> is_bit_cell(#[trigger] upper[k], k, off + 97, high),
                forall|k: int|
                    0 <= k < 128 + i ==> is_scalar_bit_cell(
                        #[trigger] cells[k],
                        k,
                        off as int,
                        scalar@,
                    ),
            decreases 128 - i,
        {
            cells.push(upper[i]);
            proof {
                assert(upper@.take(i + 1) =~= upper@.take(i as int).push(upper@[i as int]));
                assert(cells@ =~= lower + upper@.take(i + 1));
            }
            i = i + 1;
        }
        proof {
            assert(upper@.take(128) =~= upper@);
            lemma_cells_value_concat(lower, upper@);
            lemma2_to64();
            lemma_pow2_adds(64, 64);
        }
        Ok(cells)
    }
}

} // verus!
