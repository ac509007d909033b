//! Scalar multiplication in the table: double-and-add over the bits of the
//! scalar, from the most significant down.

use crate::chip::{place, AssignedECPoint, ECChip};
use crate::config::{ECConfig, GateKind};
use crate::curve::{
    double_defined, identity, lemma_results_reduced, reduced, te_add, te_conditional_add,
    te_double, Affine, Point,
};
use crate::bits::{lemma_shift_step, shifted};
use crate::decompose::{
    is_scalar_bit_cell, lemma_scalar_layout, scalar_bit, scalar_bit_lane, scalar_bit_row,
    scalar_free, scalar_high, scalar_layout, scalar_low,
};
use crate::field::{le_limb, le_value};
use crate::expr::Lane;
use crate::layout::{
    conditional_add_pairs, conditional_add_regular, conditional_add_writes, double_writes,
    lemma_conditional_add_fresh, lemma_conditional_add_layout, lemma_double_fresh,
    lemma_double_layout, lemma_point_fresh, lemma_point_layout, no_pairs, point_pairs,
    point_writes,
};
use crate::table::{larger, AssignedCell, ChipError, Table, TableView};
use crate::table_laws::{lemma_ends_by, lemma_extends_chain, lemma_extends_self};
use vstd::arithmetic::power2::{lemma2_to64, lemma_pow2_adds, lemma_pow2_unfold, pow2};
use vstd::prelude::*;

verus! {

/// The rows a scalar multiplication takes: one for the base point, 194 for
/// the bits of the scalar, one for the neutral element and six for each of
/// the 256 rounds.
pub const MUL_ROWS: usize = 1732;

/// The 256 bits of the little-endian value of a 32-byte encoding, least
/// significant first, each as zero or one.
pub open spec fn scalar_bits(e: Seq<u8>) -> Seq<nat> {
    Seq::new(256, |i: int| scalar_bit(e, i))
}

/// The accumulator after the first `rounds` rounds of double-and-add over
/// 256 bits, given least significant first and taken from the most
/// significant down: it starts at the neutral element, and each round
/// doubles it and then adds the base point where the round's bit is one.
pub open spec fn double_and_add(base: Affine, bits: Seq<nat>, rounds: int) -> Affine
    decreases rounds,
{
    if rounds <= 0 {
        identity()
    } else {
        te_conditional_add(
            te_double(double_and_add(base, bits, rounds - 1)),
            base,
            bits[256 - rounds],
        )
    }
}

/// In each of the first `rounds` rounds the doubling law applies to the
/// accumulator and the conditional addition is regular.
pub open spec fn mul_regular(base: Affine, bits: Seq<nat>, rounds: int) -> bool
    decreases rounds,
{
    rounds <= 0 || {
        let acc = double_and_add(base, bits, rounds - 1);
        &&& mul_regular(base, bits, rounds - 1)
        &&& double_defined(acc)
        &&& conditional_add_regular(te_double(acc), base, bits[256 - rounds])
    }
}

/// The first row of round `k`, counted from zero, of a multiplication laid
/// out from row `off`.
pub open spec fn round_row(off: int, k: int) -> int {
    off + 196 + 6 * k
}

/// The row of the accumulator that round `k` starts from.
pub open spec fn acc_row(off: int, k: int) -> int {
    off + 195 + 6 * k
}

/// The place of bit `i` of the scalar in a multiplication laid out from
/// row `off`.
pub open spec fn bit_place(off: int, i: int) -> (Lane, int) {
    (scalar_bit_lane(i), off + 1 + scalar_bit_row(i))
}

/// The cells that a round laid out from `row` writes are unwritten.
pub open spec fn round_free(t: TableView, row: int) -> bool {
    t.rows_free(row, row + 4) && t.cell(Lane::A, row + 4) is None && t.rows_free(row + 5, row + 6)
}

/// The table after a round: the doubling of the accumulator `acc`, taken
/// from the cells at `from`, then the conditional addition of the base
/// point, taken from row `off`, under the condition `c`, taken from the
/// cell at `bit`.
pub open spec fn round_layout(
    t: TableView,
    off: int,
    row: int,
    from: int,
    bit: (Lane, int),
    acc: Affine,
    base: Affine,
    c: nat,
) -> TableView {
    let d = te_double(acc);
    t.laid_out(
        double_writes(row, acc, d),
        point_pairs(row, (Lane::A, from), (Lane::B, from)),
        Some((GateKind::EcDouble, row)),
    ).laid_out(
        conditional_add_writes(row + 2, d, base, c, te_conditional_add(d, base, c)),
        conditional_add_pairs(
            row + 2,
            (Lane::A, row + 1),
            (Lane::B, row + 1),
            (Lane::A, off),
            (Lane::B, off),
            bit,
        ),
        Some((GateKind::ConditionalEcAdd, row + 2)),
    )
}

/// The table after round `k` of a multiplication laid out from row `off`.
pub open spec fn round_table(t: TableView, off: int, base: Affine, bits: Seq<nat>, k: int)
    -> TableView {
    round_layout(
        t,
        off,
        round_row(off, k),
        acc_row(off, k),
        bit_place(off, 255 - k),
        double_and_add(base, bits, k),
        base,
        bits[255 - k],
    )
}

/// The table after the first `rounds` rounds.
pub open spec fn mul_rounds(t: TableView, off: int, base: Affine, bits: Seq<nat>, rounds: int)
    -> TableView
    decreases rounds,
{
    if rounds <= 0 {
        t
    } else {
        round_table(mul_rounds(t, off, base, bits, rounds - 1), off, base, bits, rounds - 1)
    }
}

/// The table before the rounds: the base point in row `off`, the bits of
/// the scalar from the row below, and the neutral element below them.
pub open spec fn mul_prelude(t: TableView, off: int, base: Affine, e: Seq<u8>) -> TableView {
    scalar_layout(t.laid_out(point_writes(off, base), no_pairs(), None), off + 1, e).laid_out(
        point_writes(off + 195, identity()),
        no_pairs(),
        None,
    )
}

/// The table after the multiplication of `base` by the scalar with the
/// encoding `e`, laid out from row `off`.
pub open spec fn point_mul_layout(t: TableView, off: int, base: Affine, e: Seq<u8>) -> TableView {
    mul_rounds(mul_prelude(t, off, base, e), off, base, scalar_bits(e), 256)
}

/// The cells the multiplication writes are unwritten.
pub open spec fn point_mul_free(t: TableView, off: int) -> bool {
    &&& t.rows_free(off, off + 1)
    &&& scalar_free(t, off + 1)
    &&& t.rows_free(off + 195, off + 196)
    &&& forall|k: int| 0 <= k < 256 ==> round_free(t, #[trigger] round_row(off, k))
}

/// The accumulator is reduced after every number of rounds.
pub proof fn lemma_accumulator_reduced(base: Affine, bits: Seq<nat>, rounds: int)
    ensures
        reduced(double_and_add(base, bits, rounds)),
        reduced(te_double(double_and_add(base, bits, rounds))),
    decreases rounds,
{
    let acc = double_and_add(base, bits, rounds);
    lemma_results_reduced(acc, base, 0);
    if rounds > 0 {
        let prev = double_and_add(base, bits, rounds - 1);
        lemma_results_reduced(te_double(prev), base, bits[256 - rounds]);
    }
}

/// What a round does to the table: it extends it, writes its six rows and
/// no others, and puts the next accumulator into its last row. Where the
/// table was satisfied, the round is regular and the cells it takes its
/// inputs from hold them, the table stays satisfied.
#[verifier::rlimit(30)]
pub proof fn lemma_round_layout(
    t: TableView,
    off: int,
    row: int,
    from: int,
    bit: (Lane, int),
    acc: Affine,
    base: Affine,
    c: nat,
)
    requires
        t.a.len() == t.b.len(),
        0 <= off < row,
        from < row,
        bit.1 < row,
        round_free(t, row),
        reduced(te_double(acc)),
    ensures
        ({
            let n = round_layout(t, off, row, from, bit, acc, base, c);
            let next = te_conditional_add(te_double(acc), base, c);
            &&& n.extends(t)
            &&& n.a.len() == n.b.len()
            &&& n.rows() == larger(t.rows(), row + 6)
            &&& forall|lane: Lane, r: int|
                (r < row || r >= row + 6) ==> #[trigger] n.cell(lane, r) == t.cell(lane, r)
            &&& n.cell(Lane::A, row + 5) == Some(next.x)
            &&& n.cell(Lane::B, row + 5) == Some(next.y)
            &&& ({
                &&& t.satisfied()
                &&& double_defined(acc)
                &&& conditional_add_regular(te_double(acc), base, c)
                &&& t.cell(Lane::A, from) == Some(acc.x)
                &&& t.cell(Lane::B, from) == Some(acc.y)
                &&& t.cell(Lane::A, off) == Some(base.x)
                &&& t.cell(Lane::B, off) == Some(base.y)
                &&& t.cell(bit.0, bit.1) == Some(c)
            }) ==> n.satisfied()
        }),
{
    let d = te_double(acc);
    let next = te_conditional_add(d, base, c);
    lemma_double_fresh(t, row, acc, d);
    lemma_double_layout(t, row, acc, (Lane::A, from), (Lane::B, from));
    let mid = t.laid_out(
        double_writes(row, acc, d),
        point_pairs(row, (Lane::A, from), (Lane::B, from)),
        Some((GateKind::EcDouble, row)),
    );
    assert(mid.rows_free(row + 2, row + 4)) by {
        assert forall|lane: Lane, r: int| row + 2 <= r < row + 4 implies (#[trigger] mid.cell(
            lane,
            r,
        )) is None by {
            assert(t.cell(lane, r) is None);
        }
    }
    assert(mid.cell(Lane::A, row + 4) == t.cell(Lane::A, row + 4));
    assert(mid.rows_free(row + 5, row + 6)) by {
        assert forall|lane: Lane, r: int| row + 5 <= r < row + 6 implies (#[trigger] mid.cell(
            lane,
            r,
        )) is None by {
            assert(t.cell(lane, r) is None);
        }
    }
    lemma_conditional_add_fresh(mid, row + 2, d, base, c, next);
    lemma_conditional_add_layout(
        mid,
        row + 2,
        d,
        base,
        c,
        (Lane::A, row + 1),
        (Lane::B, row + 1),
        (Lane::A, off),
        (Lane::B, off),
        bit,
    );
    let n = round_layout(t, off, row, from, bit, acc, base, c);
    lemma_extends_chain(t, mid, n);
    assert forall|lane: Lane, r: int| (r < row || r >= row + 6) implies #[trigger] n.cell(lane, r)
        == t.cell(lane, r) by {
        assert(n.cell(lane, r) == mid.cell(lane, r));
        assert(mid.cell(lane, r) == t.cell(lane, r));
    }
    assert(mid.cell(Lane::A, off) == t.cell(Lane::A, off));
    assert(mid.cell(Lane::B, off) == t.cell(Lane::B, off));
    assert(mid.cell(bit.0, bit.1) == t.cell(bit.0, bit.1));
}

/// The bits of a scalar sit above the rounds.
pub proof fn lemma_bit_place(off: int, i: int)
    requires
        0 <= i < 256,
    ensures
        off + 1 <= bit_place(off, i).1 < off + 195,
{
}

/// The inputs of the rounds are where the rounds take them from: the base
/// point in row `off`, the neutral element in the row above the first
/// round, and every bit at its place.
pub open spec fn inputs_held(t: TableView, off: int, base: Affine, bits: Seq<nat>) -> bool {
    &&& t.cell(Lane::A, off) == Some(base.x)
    &&& t.cell(Lane::B, off) == Some(base.y)
    &&& t.cell(Lane::A, off + 195) == Some(identity().x)
    &&& t.cell(Lane::B, off + 195) == Some(identity().y)
    &&& forall|i: int|
        0 <= i < 256 ==> t.cell((#[trigger] bit_place(off, i)).0, bit_place(off, i).1) == Some(
            bits[i],
        )
}

/// What the first `rounds` rounds do to the table: they extend it and
/// write their own rows and no others. Where their inputs are held, the
/// accumulator they reach sits in their last row; where, in addition, the
/// table was satisfied and the rounds are regular, the table stays
/// satisfied.
#[verifier::rlimit(30)]
pub proof fn lemma_mul_rounds(t: TableView, off: int, base: Affine, bits: Seq<nat>, rounds: int)
    requires
        t.a.len() == t.b.len(),
        0 <= off,
        0 <= rounds <= 256,
        forall|k: int| 0 <= k < rounds ==> round_free(t, #[trigger] round_row(off, k)),
    ensures
        mul_rounds(t, off, base, bits, rounds).extends(t),
        mul_rounds(t, off, base, bits, rounds).a.len() == mul_rounds(
            t,
            off,
            base,
            bits,
            rounds,
        ).b.len(),
        rounds > 0 ==> mul_rounds(t, off, base, bits, rounds).rows() == larger(
            t.rows(),
            round_row(off, rounds),
        ),
        forall|lane: Lane, r: int|
            (r < off + 196 || r >= round_row(off, rounds)) ==> #[trigger] mul_rounds(
                t,
                off,
                base,
                bits,
                rounds,
            ).cell(lane, r) == t.cell(lane, r),
        inputs_held(t, off, base, bits) ==> {
            &&& mul_rounds(t, off, base, bits, rounds).cell(Lane::A, acc_row(off, rounds)) == Some(
                double_and_add(base, bits, rounds).x,
            )
            &&& mul_rounds(t, off, base, bits, rounds).cell(Lane::B, acc_row(off, rounds)) == Some(
                double_and_add(base, bits, rounds).y,
            )
        },
        (inputs_held(t, off, base, bits) && t.satisfied() && mul_regular(base, bits, rounds))
            ==> mul_rounds(t, off, base, bits, rounds).satisfied(),
    decreases rounds,
{
    if rounds == 0 {
        lemma_extends_self(t);
    } else {
        let k = rounds - 1;
        let row = round_row(off, k);
        let prev = mul_rounds(t, off, base, bits, k);
        lemma_mul_rounds(t, off, base, bits, k);
        let acc = double_and_add(base, bits, k);
        let c = bits[255 - k];
        lemma_accumulator_reduced(base, bits, k);
        lemma_bit_place(off, 255 - k);
        assert(round_free(t, round_row(off, k)));
        assert(round_free(prev, row)) by {
            assert forall|lane: Lane, r: int| row <= r < row + 4 implies (#[trigger] prev.cell(
                lane,
                r,
            )) is None by {
                assert(t.cell(lane, r) is None);
            }
            assert(prev.cell(Lane::A, row + 4) == t.cell(Lane::A, row + 4));
            assert forall|lane: Lane, r: int| row + 5 <= r < row + 6 implies (#[trigger] prev.cell(
                lane,
                r,
            )) is None by {
                assert(t.cell(lane, r) is None);
            }
        }
        lemma_round_layout(prev, off, row, acc_row(off, k), bit_place(off, 255 - k), acc, base, c);
        let n = mul_rounds(t, off, base, bits, rounds);
        assert(n == round_layout(
            prev,
            off,
            row,
            acc_row(off, k),
            bit_place(off, 255 - k),
            acc,
            base,
            c,
        ));
        lemma_extends_chain(t, prev, n);
        assert forall|lane: Lane, r: int|
            (r < off + 196 || r >= round_row(off, rounds)) implies #[trigger] n.cell(lane, r)
            == t.cell(lane, r) by {
            assert(n.cell(lane, r) == prev.cell(lane, r));
        }
        if inputs_held(t, off, base, bits) {
            assert(prev.cell(Lane::A, off) == t.cell(Lane::A, off));
            assert(prev.cell(Lane::B, off) == t.cell(Lane::B, off));
            let b = bit_place(off, 255 - k);
            assert(prev.cell(b.0, b.1) == t.cell(b.0, b.1));
            assert(t.cell(b.0, b.1) == Some(bits[255 - k]));
        }
    }
}

/// What the prelude does to the table: it extends it, puts the inputs of
/// the rounds where they are taken from, writes no row from the first
/// round on, and keeps a satisfied table satisfied.
#[verifier::rlimit(30)]
pub proof fn lemma_mul_prelude(t: TableView, off: int, base: Affine, e: Seq<u8>)
    requires
        t.a.len() == t.b.len(),
        0 <= off,
        t.rows_free(off, off + 1),
        scalar_free(t, off + 1),
        t.rows_free(off + 195, off + 196),
    ensures
        mul_prelude(t, off, base, e).extends(t),
        mul_prelude(t, off, base, e).a.len() == mul_prelude(t, off, base, e).b.len(),
        mul_prelude(t, off, base, e).rows() == larger(t.rows(), off + 196),
        inputs_held(mul_prelude(t, off, base, e), off, base, scalar_bits(e)),
        forall|lane: Lane, r: int|
            (r < off || r >= off + 196) ==> #[trigger] mul_prelude(t, off, base, e).cell(lane, r)
                == t.cell(lane, r),
        t.satisfied() ==> mul_prelude(t, off, base, e).satisfied(),
        scalar_free(t.laid_out(point_writes(off, base), no_pairs(), None), off + 1),
        scalar_layout(
            t.laid_out(point_writes(off, base), no_pairs(), None),
            off + 1,
            e,
        ).rows_free(off + 195, off + 196),
{
    lemma_point_fresh(t, off, base);
    lemma_point_layout(t, off, base);
    let t1 = t.laid_out(point_writes(off, base), no_pairs(), None);
    assert(scalar_free(t1, off + 1)) by {
        assert forall|lane: Lane, r: int| off + 1 <= r < off + 1 + 96 implies (#[trigger] t1.cell(
            lane,
            r,
        )) is None by {
            assert(t.cell(lane, r) is None);
        }
        assert(t1.cell(Lane::A, off + 1 + 96) == t.cell(Lane::A, off + 1 + 96));
        assert forall|lane: Lane, r: int| off + 98 <= r < off + 98 + 96 implies (#[trigger] t1.cell(
            lane,
            r,
        )) is None by {
            assert(t.cell(lane, r) is None);
        }
        assert(t1.cell(Lane::A, off + 98 + 96) == t.cell(Lane::A, off + 98 + 96));
    }
    lemma_scalar_layout(t1, off + 1, e);
    let t2 = scalar_layout(t1, off + 1, e);
    assert(t2.rows_free(off + 195, off + 196)) by {
        assert forall|lane: Lane, r: int| off + 195 <= r < off + 196 implies (#[trigger] t2.cell(
            lane,
            r,
        )) is None by {
            assert(t2.cell(lane, r) == t1.cell(lane, r));
            assert(t1.cell(lane, r) == t.cell(lane, r));
            assert(t.cell(lane, r) is None);
        }
    }
    lemma_point_fresh(t2, off + 195, identity());
    lemma_point_layout(t2, off + 195, identity());
    let p = mul_prelude(t, off, base, e);
    lemma_extends_chain(t, t1, t2);
    lemma_extends_chain(t, t2, p);
    assert(p.cell(Lane::A, off) == t2.cell(Lane::A, off));
    assert(t2.cell(Lane::A, off) == t1.cell(Lane::A, off));
    assert(p.cell(Lane::B, off) == t2.cell(Lane::B, off));
    assert(t2.cell(Lane::B, off) == t1.cell(Lane::B, off));
    assert forall|i: int| 0 <= i < 256 implies p.cell(
        (#[trigger] bit_place(off, i)).0,
        bit_place(off, i).1,
    ) == Some(scalar_bits(e)[i]) by {
        lemma_bit_place(off, i);
        let b = bit_place(off, i);
        assert(p.cell(b.0, b.1) == t2.cell(b.0, b.1));
        assert(t2.cell(scalar_bit_lane(i), off + 1 + scalar_bit_row(i)) == Some(scalar_bit(e, i)));
    }
    assert forall|lane: Lane, r: int| (r < off || r >= off + 196) implies #[trigger] p.cell(lane, r)
        == t.cell(lane, r) by {
        assert(p.cell(lane, r) == t2.cell(lane, r));
        assert(t2.cell(lane, r) == t1.cell(lane, r));
        assert(t1.cell(lane, r) == t.cell(lane, r));
    }
}

/// What the multiplication does to the table: it extends it and puts the
/// result of double-and-add into its last row. Where the table was
/// satisfied and all rounds are regular, the table stays satisfied.
pub proof fn lemma_point_mul_layout(t: TableView, off: int, base: Affine, e: Seq<u8>)
    requires
        t.a.len() == t.b.len(),
        0 <= off,
        point_mul_free(t, off),
    ensures
        point_mul_layout(t, off, base, e).extends(t),
        point_mul_layout(t, off, base, e).rows() == larger(t.rows(), off + 1732),
        point_mul_layout(t, off, base, e).cell(Lane::A, off + 1731) == Some(
            double_and_add(base, scalar_bits(e), 256).x,
        ),
        point_mul_layout(t, off, base, e).cell(Lane::B, off + 1731) == Some(
            double_and_add(base, scalar_bits(e), 256).y,
        ),
        (t.satisfied() && mul_regular(base, scalar_bits(e), 256)) ==> point_mul_layout(
            t,
            off,
            base,
            e,
        ).satisfied(),
{
    lemma_mul_prelude(t, off, base, e);
    let p = mul_prelude(t, off, base, e);
    lemma_prelude_keeps_rounds_free(t, off, base, e);
    lemma_mul_rounds(p, off, base, scalar_bits(e), 256);
    lemma_extends_chain(t, p, point_mul_layout(t, off, base, e));
}

/// The prelude leaves the rows of the rounds unwritten.
pub proof fn lemma_prelude_keeps_rounds_free(t: TableView, off: int, base: Affine, e: Seq<u8>)
    requires
        t.a.len() == t.b.len(),
        0 <= off,
        point_mul_free(t, off),
    ensures
        forall|k: int|
            0 <= k < 256 ==> round_free(mul_prelude(t, off, base, e), #[trigger] round_row(off, k)),
{
    lemma_mul_prelude(t, off, base, e);
    let p = mul_prelude(t, off, base, e);
    assert forall|k: int| 0 <= k < 256 implies round_free(p, #[trigger] round_row(off, k)) by {
        let row = round_row(off, k);
        assert(round_free(t, row));
        assert forall|lane: Lane, r: int| row <= r < row + 4 implies (#[trigger] p.cell(lane, r))
            is None by {
            assert(t.cell(lane, r) is None);
        }
        assert(p.cell(Lane::A, row + 4) == t.cell(Lane::A, row + 4));
        assert forall|lane: Lane, r: int| row + 5 <= r < row + 6 implies (#[trigger] p.cell(
            lane,
            r,
        )) is None by {
            assert(t.cell(lane, r) is None);
        }
    }
}

/// Lays out one round from the row at the offset, in rows known to be
/// unwritten where the round writes, and returns the next accumulator.
#[verifier::rlimit(30)]
fn mul_round(
    chip: &ECChip,
    table: &mut Table,
    config: &ECConfig,
    acc: &AssignedECPoint,
    base: &AssignedECPoint,
    bit: &AssignedCell,
    offset: &mut usize,
) -> (next: AssignedECPoint)
    requires
        old(table).wf(),
        config.wf(),
        acc.wf(),
        acc.in_row(),
        base.wf(),
        base.in_row(),
        bit.value.wf(),
        *old(offset) + 6 <= usize::MAX,
        round_free(old(table)@, *old(offset) as int),
    ensures
        final(table).wf(),
        final(table)@ == round_layout(
            old(table)@,
            base.x.row as int,
            *old(offset) as int,
            acc.x.row as int,
            place(*bit),
            acc@,
            base@,
            bit.value@,
        ),
        *final(offset) == *old(offset) + 6,
        next.wf(),
        next.in_row(),
        next.x.row == *old(offset) + 5,
        next@ == te_conditional_add(te_double(acc@), base@, bit.value@),
{
    let row: usize = *offset;
    proof {
        lemma_double_fresh(table@, row as int, acc@, te_double(acc@));
        lemma_double_layout(table@, row as int, acc@, place(acc.x), place(acc.y));
    }
    let doubled = match chip.point_double(table, config, acc, offset) {
        Ok(d) => d,
        Err(_) => *acc,
    };
    proof {
        let mid = table@;
        let before = old(table)@;
        assert(mid.rows_free(row + 2, row + 4)) by {
            assert forall|lane: Lane, r: int| row + 2 <= r < row + 4 implies (#[trigger] mid.cell(
                lane,
                r,
            )) is None by {
                assert(before.cell(lane, r) is None);
            }
        }
        assert(mid.cell(Lane::A, row + 4) == before.cell(Lane::A, row + 4));
        assert(mid.rows_free(row + 5, row + 6)) by {
            assert forall|lane: Lane, r: int| row + 5 <= r < row + 6 implies (#[trigger] mid.cell(
                lane,
                r,
            )) is None by {
                assert(before.cell(lane, r) is None);
            }
        }
        lemma_conditional_add_fresh(
            mid,
            row + 2,
            doubled@,
            base@,
            bit.value@,
            te_conditional_add(doubled@, base@, bit.value@),
        );
    }
    match chip.conditional_point_add(table, config, &doubled, base, bit, offset) {
        Ok(n) => n,
        Err(_) => doubled,
    }
}

/// Whether the cells that the rounds of a multiplication laid out from
/// row `off` write are unwritten.
fn rounds_are_free(table: &Table, off: usize) -> (r: bool)
    requires
        table.wf(),
        off + 1732 <= usize::MAX,
    ensures
        r == (forall|k: int| 0 <= k < 256 ==> round_free(table@, #[trigger] round_row(off as int, k))),
{
    let mut k: usize = 0;
    while k < 256
        invariant
            table.wf(),
            off + 1732 <= usize::MAX,
            k <= 256,
            forall|j: int| 0 <= j < k ==> round_free(table@, #[trigger] round_row(off as int, j)),
        decreases 256 - k,
    {
        let row: usize = off + 196 + 6 * k;
        if !(table.rows_are_free(row, row + 4) && table.is_free(Lane::A, row + 4)
            && table.rows_are_free(row + 5, row + 6)) {
            proof {
                assert(!round_free(table@, round_row(off as int, k as int)));
            }
            return false;
        }
        k = k + 1;
    }
    true
}

impl ECChip {
    /// Multiplies a point by a scalar, given as its canonical little-endian
    /// encoding, with double-and-add in the table. The base point goes into
    /// the row at the offset, the bits of the scalar below it, the neutral
    /// element below them, and then, for each bit from the most significant
    /// down, a doubling of the accumulator and a conditional addition of
    /// the base point under that bit. Returns the last accumulator and
    /// advances the offset by 1732 rows.
    #[verifier::rlimit(30)]
    pub fn point_mul(
        &self,
        table: &mut Table,
        config: &ECConfig,
        base: &Point,
        scalar: &[u8; 32],
        offset: &mut usize,
    ) -> (r: Result<AssignedECPoint, ChipError>)
        requires
            old(table).wf(),
            config.wf(),
            base.wf(),
            *old(offset) + MUL_ROWS <= usize::MAX,
        ensures
            final(table).wf(),
            r is Ok <==> point_mul_free(old(table)@, *old(offset) as int),
            old(table)@.ends_by(*old(offset) as int) ==> r is Ok,
            r matches Ok(q) ==> {
                &&& q.wf()
                &&& q.in_row()
                &&& q.x.row == *old(offset) + 1731
                &&& q@ == double_and_add(base@, scalar_bits(scalar@), 256)
                &&& final(table)@ == point_mul_layout(
                    old(table)@,
                    *old(offset) as int,
                    base@,
                    scalar@,
                )
                &&& *final(offset) == *old(offset) + MUL_ROWS
                &&& final(table).holds(q.x)
                &&& final(table).holds(q.y)
                &&& final(table)@.extends(old(table)@)
                &&& final(table)@.rows() == larger(old(table)@.rows(), *final(offset) as int)
                &&& (old(table)@.satisfied() && mul_regular(base@, scalar_bits(scalar@), 256))
                    ==> final(table)@.satisfied()
            },
            r matches Err(e) ==> e == ChipError::AssignmentConflict && *final(table) == *old(table)
                && *final(offset) == *old(offset),
    {
        let off: usize = *offset;
        proof {
            if table@.ends_by(off as int) {
                lemma_tidy_is_free(table@, off as int);
            }
        }
        if !(table.rows_are_free(off, off + 1) && table.rows_are_free(off + 1, off + 97)
            && table.is_free(Lane::A, off + 97) && table.rows_are_free(off + 98, off + 194)
            && table.is_free(Lane::A, off + 194) && table.rows_are_free(off + 195, off + 196)
            && rounds_are_free(table, off)) {
            return Err(ChipError::AssignmentConflict);
        }
        let ghost before = table@;
        let ghost bits = scalar_bits(scalar@);
        proof {
            lemma_mul_prelude(before, off as int, base@, scalar@);
            lemma_prelude_keeps_rounds_free(before, off as int, base@, scalar@);
            lemma_point_mul_layout(before, off as int, base@, scalar@);
            lemma_point_fresh(before, off as int, base@);
        }
        let base_cell = match self.load_private_point_unchecked(table, config, base, offset) {
            Ok(c) => c,
            Err(e) => {
                return Err(e);
            },
        };
        let cells = match self.decompose_scalar(table, config, scalar, offset) {
            Ok(c) => c,
            Err(e) => {
                return Err(e);
            },
        };
        let neutral = Point::identity();
        proof {
            lemma_point_fresh(table@, off + 195, neutral@);
        }
        let mut acc = match self.load_private_point_unchecked(table, config, &neutral, offset) {
            Ok(c) => c,
            Err(e) => {
                return Err(e);
            },
        };
        let ghost start = table@;
        let mut k: usize = 0;
        while k < 256
            invariant
                table.wf(),
                config.wf(),
                k <= 256,
                off + 1732 <= usize::MAX,
                start.a.len() == start.b.len(),
                start == mul_prelude(before, off as int, base@, scalar@),
                bits == scalar_bits(scalar@),
                forall|j: int| 0 <= j < 256 ==> round_free(start, #[trigger] round_row(off as int, j)),
                table@ == mul_rounds(start, off as int, base@, bits, k as int),
                *offset == off + 196 + 6 * k,
                base_cell == AssignedECPoint::at(off, *base),
                base.wf(),
                cells.len() == 256,
                forall|i: int|
                    0 <= i < 256 ==> is_scalar_bit_cell(
                        #[trigger] cells[i],
                        i,
                        off + 1,
                        scalar@,
                    ),
                acc.wf(),
                acc.in_row(),
                acc.x.row == off + 195 + 6 * k,
                acc@ == double_and_add(base@, bits, k as int),
            decreases 256 - k,
        {
            let bit = cells[255 - k];
            proof {
                lemma_mul_rounds(start, off as int, base@, bits, k as int);
                let row = round_row(off as int, k as int);
                assert(round_free(start, row));
                assert(round_free(table@, row)) by {
                    assert forall|lane: Lane, r: int| row <= r < row + 4 implies (
                    #[trigger] table@.cell(lane, r)) is None by {
                        assert(start.cell(lane, r) is None);
                    }
                    assert(table@.cell(Lane::A, row + 4) == start.cell(Lane::A, row + 4));
                    assert forall|lane: Lane, r: int| row + 5 <= r < row + 6 implies (
                    #[trigger] table@.cell(lane, r)) is None by {
                        assert(start.cell(lane, r) is None);
                    }
                }
                assert(is_scalar_bit_cell(bit, 255 - k, off + 1, scalar@));
                assert(place(bit) == bit_place(off as int, 255 - k));
                assert(bit.value@ == bits[255 - k]);
            }
            acc = mul_round(self, table, config, &acc, &base_cell, &bit, offset);
            k = k + 1;
        }
        Ok(acc)
    }
}

/// Multiplying by zero gives the neutral element: where every bit is zero,
/// double-and-add ends at the neutral element, and every round is regular.
pub proof fn lemma_mul_by_zero(base: Affine, bits: Seq<nat>)
    requires
        bits.len() == 256,
        forall|i: int| 0 <= i < 256 ==> bits[i] == 0,
    ensures
        double_and_add(base, bits, 256) == identity(),
        mul_regular(base, bits, 256),
{
    lemma_leading_zeros(base, bits, 256);
}

/// Multiplying a reduced point by one gives the point: where the lowest
/// bit is one and every other bit is zero, double-and-add ends at the base
/// point, and every round is regular.
pub proof fn lemma_mul_by_one(base: Affine, bits: Seq<nat>)
    requires
        bits.len() == 256,
        reduced(base),
        bits[0] == 1,
        forall|i: int| 1 <= i < 256 ==> bits[i] == 0,
    ensures
        double_and_add(base, bits, 256) == base,
        mul_regular(base, bits, 256),
{
    lemma_leading_zeros(base, bits, 255);
    crate::curve::lemma_double_identity();
    crate::curve::lemma_add_identity(base);
    lemma_results_reduced(identity(), base, 1);
    crate::curve::lemma_conditional_add(identity(), base);
}

/// Rounds over zero bits leave the accumulator at the neutral element and
/// are regular.
pub proof fn lemma_leading_zeros(base: Affine, bits: Seq<nat>, rounds: int)
    requires
        bits.len() == 256,
        0 <= rounds <= 256,
        forall|i: int| 256 - rounds <= i < 256 ==> bits[i] == 0,
    ensures
        double_and_add(base, bits, rounds) == identity(),
        mul_regular(base, bits, rounds),
    decreases rounds,
{
    if rounds > 0 {
        lemma_leading_zeros(base, bits, rounds - 1);
        crate::curve::lemma_double_identity();
        lemma_results_reduced(identity(), base, 0);
        crate::curve::lemma_conditional_add(identity(), base);
    }
}

/// The `n`-fold sum of a point with itself: the neutral element for zero,
/// and one more addition of the point for each step up.
pub open spec fn multiple(base: Affine, n: nat) -> Affine
    decreases n,
{
    if n == 0 {
        identity()
    } else {
        te_add(multiple(base, (n - 1) as nat), base)
    }
}

/// The number that the `rounds` most significant of 256 bits stand for.
pub open spec fn top_bits_value(bits: Seq<nat>, rounds: int) -> nat
    decreases rounds,
{
    if rounds <= 0 {
        0
    } else {
        2 * top_bits_value(bits, rounds - 1) + bits[256 - rounds]
    }
}

/// The addition law is associative where one more base point is added to
/// a sum of two multiples of the base point.
pub open spec fn adds_associatively(base: Affine) -> bool {
    forall|a: nat, b: nat| #[trigger]
        te_add(multiple(base, a), multiple(base, b + 1)) == te_add(
            te_add(multiple(base, a), multiple(base, b)),
            base,
        )
}

/// Where the addition law is associative on the multiples of a point, the
/// sum of two multiples is the multiple by the sum.
pub proof fn lemma_multiples_add(base: Affine, a: nat, b: nat)
    requires
        adds_associatively(base),
    ensures
        te_add(multiple(base, a), multiple(base, b)) == multiple(base, a + b),
    decreases b,
{
    if b == 0 {
        lemma_results_reduced(multiple(base, (a - 1) as nat), base, 0);
        crate::curve::lemma_add_identity_right(multiple(base, a));
    } else {
        let c = (b - 1) as nat;
        lemma_multiples_add(base, a, c);
        assert(te_add(multiple(base, a), multiple(base, c + 1)) == te_add(
            te_add(multiple(base, a), multiple(base, c)),
            base,
        ));
        assert(multiple(base, a + b) == te_add(multiple(base, (a + b - 1) as nat), base));
    }
}

/// Where the addition law is associative on the multiples of a point,
/// double-and-add over bits computes the multiple of the point by the
/// number that the bits stand for.
pub proof fn lemma_double_and_add_is_multiple(base: Affine, bits: Seq<nat>, rounds: int)
    requires
        bits.len() == 256,
        0 <= rounds <= 256,
        forall|i: int| 0 <= i < 256 ==> bits[i] == 0 || bits[i] == 1,
        adds_associatively(base),
    ensures
        double_and_add(base, bits, rounds) == multiple(base, top_bits_value(bits, rounds)),
    decreases rounds,
{
    if rounds > 0 {
        lemma_double_and_add_is_multiple(base, bits, rounds - 1);
        let v = top_bits_value(bits, rounds - 1);
        let acc = multiple(base, v);
        crate::curve::lemma_double_is_add(acc);
        lemma_multiples_add(base, v, v);
        let doubled = multiple(base, v + v);
        lemma_results_reduced(acc, acc, 0);
        crate::curve::lemma_conditional_add(doubled, base);
        assert(multiple(base, (v + v + 1) as nat) == te_add(doubled, base));
    }
}

/// The most significant bits of a scalar, up to all of its high half,
/// stand for that half shifted down.
proof fn lemma_top_bits_high(e: Seq<u8>, rounds: int)
    requires
        0 <= rounds <= 128,
    ensures
        top_bits_value(scalar_bits(e), rounds) == shifted(scalar_high(e), 128 - rounds),
    decreases rounds,
{
    if rounds > 0 {
        lemma_top_bits_high(e, rounds - 1);
        lemma_shift_step(scalar_high(e), 128 - rounds);
        assert(scalar_bits(e)[256 - rounds] == scalar_bit(e, 256 - rounds));
    }
}

/// The most significant bits of a scalar, from its high half on, stand for
/// the high half, weighted, plus the low half shifted down.
proof fn lemma_top_bits_low(e: Seq<u8>, rounds: int)
    requires
        128 <= rounds <= 256,
    ensures
        top_bits_value(scalar_bits(e), rounds) == scalar_high(e) * pow2((rounds - 128) as nat)
            + shifted(scalar_low(e), 256 - rounds),
    decreases rounds,
{
    let h = scalar_high(e) as int;
    if rounds == 128 {
        lemma_top_bits_high(e, 128);
        lemma_shift_step(scalar_high(e), 0);
        lemma2_to64();
        assert(h * pow2(0) == h) by (nonlinear_arith)
            requires
                pow2(0) == 1,
        ;
    } else {
        lemma_top_bits_low(e, rounds - 1);
        lemma_shift_step(scalar_low(e), 256 - rounds);
        assert(scalar_bits(e)[256 - rounds] == scalar_bit(e, 256 - rounds));
        lemma_pow2_unfold((rounds - 128) as nat);
        let q = pow2((rounds - 129) as nat) as int;
        let p = pow2((rounds - 128) as nat) as int;
        assert(p == 2 * q);
        assert(2 * (h * q) == h * p) by (nonlinear_arith)
            requires
                p == 2 * q,
        ;
    }
}

/// All 256 bits of a scalar stand for the little-endian value of its
/// encoding.
#[verifier::rlimit(30)]
pub proof fn lemma_scalar_bits_value(e: Seq<u8>)
    requires
        e.len() == 32,
    ensures
        top_bits_value(scalar_bits(e), 256) == le_value(e),
        forall|i: int| 0 <= i < 256 ==> scalar_bits(e)[i] == 0 || scalar_bits(e)[i] == 1,
{
    lemma_top_bits_low(e, 256);
    lemma_shift_step(scalar_low(e), 0);
    lemma2_to64();
    lemma_pow2_adds(64, 64);
    crate::field::lemma_le_limb_injective(e, e, 0);
    crate::field::lemma_le_limb_injective(e, e, 8);
    crate::field::lemma_le_limb_injective(e, e, 16);
    crate::field::lemma_le_limb_injective(e, e, 24);
    let h = scalar_high(e) as int;
    let p = pow2(128) as int;
    assert(pow2(64) == 0x1_0000_0000_0000_0000);
    assert(p == 0x1_0000_0000_0000_0000 * 0x1_0000_0000_0000_0000);
    assert(h * p == 0x1_0000_0000_0000_0000_0000_0000_0000_0000 * h) by (nonlinear_arith)
        requires
            p == 0x1_0000_0000_0000_0000_0000_0000_0000_0000,
    ;
    assert(h == le_limb(e, 16) + 0x1_0000_0000_0000_0000 * le_limb(e, 24));
    assert(scalar_low(e) == le_limb(e, 0) + 0x1_0000_0000_0000_0000 * le_limb(e, 8));
}

/// Where the addition law is associative on the multiples of a point,
/// double-and-add over the bits of a scalar computes the multiple of the
/// point by the little-endian value of the scalar's encoding.
pub proof fn lemma_point_mul_is_multiple(base: Affine, e: Seq<u8>)
    requires
        e.len() == 32,
        adds_associatively(base),
    ensures
        double_and_add(base, scalar_bits(e), 256) == multiple(base, le_value(e)),
{
    lemma_scalar_bits_value(e);
    lemma_double_and_add_is_multiple(base, scalar_bits(e), 256);
}

/// A table that ends by a row has room for a multiplication from that row.
pub proof fn lemma_tidy_is_free(t: TableView, off: int)
    requires
        t.a.len() == t.b.len(),
        0 <= off,
        t.ends_by(off),
    ensures
        point_mul_free(t, off),
{
    lemma_ends_by(t, off, off + 1);
    assert forall|k: int| 0 <= k < 256 implies round_free(t, #[trigger] round_row(off, k)) by {
        lemma_ends_by(t, off, round_row(off, k) + 6);
    }
}

} // verus!
