use edwards_chip::chip::ECChip;
use edwards_chip::config::GateKind;
use edwards_chip::curve::Point;
use edwards_chip::expr::{Expr, Lane};
use edwards_chip::field::Fe;
use edwards_chip::table::{CellRef, Table};

fn rows(cells: &[(u64, u64)]) -> Table {
    let mut table = Table::new();
    for (row, (a, b)) in cells.iter().enumerate() {
        table.assign(Lane::A, row, Fe::from_u64(*a)).unwrap();
        table.assign(Lane::B, row, Fe::from_u64(*b)).unwrap();
    }
    table
}

#[test]
fn add_and_mul_gates_evaluate_their_polynomials() {
    let config = ECChip::configure();
    let table = rows(&[(3, 4), (7, 0)]);
    assert_eq!(config.add_gate().len(), 1);
    assert_eq!(config.mul_gate().len(), 1);
    // 3 + 4 - 7 = 0
    assert!(table.evaluate(&config.add_gate()[0], 0).unwrap().is_zero());
    // 3 * 4 - 7 = 5
    assert!(table.evaluate(&config.mul_gate()[0], 0).unwrap().is_equal(&Fe::from_u64(5)));
    assert!(table.gate_is_met(&config, GateKind::Add, 0));
    assert!(!table.gate_is_met(&config, GateKind::Mul, 0));
    // the row below is not written, so no gate can be read there
    assert!(table.evaluate(&config.add_gate()[0], 1).is_none());
    assert!(!table.gate_is_met(&config, GateKind::Add, 1));
}

#[test]
fn partial_bit_decom_gate_folds_four_bits() {
    let config = ECChip::configure();
    // bits 1, 0, 0, 1 onto the accumulator 5: 1 + 8 + 16 * 5 = 89
    let met = rows(&[(1, 0), (0, 1), (5, 89)]);
    assert!(met.gate_is_met(&config, GateKind::PartialBitDecomp, 0));
    let wrong_sum = rows(&[(1, 0), (0, 1), (5, 90)]);
    assert!(!wrong_sum.gate_is_met(&config, GateKind::PartialBitDecomp, 0));
    // 2 + 8 + 80 = 90, but 2 is no bit: 2 * (1 - 2) = -2 is left over
    let not_a_bit = rows(&[(2, 0), (0, 1), (5, 90)]);
    let constraints = config.partial_bit_decom_gate();
    assert_eq!(constraints.len(), 5);
    assert!(not_a_bit.evaluate(&constraints[0], 0).unwrap().is_zero());
    let left = not_a_bit.evaluate(&constraints[1], 0).unwrap();
    assert!(left.is_equal(&Fe::from_u64(2).negated()));
    assert!(not_a_bit.evaluate(&constraints[2], 0).unwrap().is_zero());
    assert!(!not_a_bit.gate_is_met(&config, GateKind::PartialBitDecomp, 0));
    // an output lowered by that remainder does not make up for it
    let made_up = rows(&[(2, 0), (0, 1), (5, 88)]);
    assert!(!made_up.gate_is_met(&config, GateKind::PartialBitDecomp, 0));
}

#[test]
fn curve_gates_follow_the_group_law() {
    let config = ECChip::configure();
    let g = Point::generator();
    let h = g.doubled();
    let sum = g.plus(&h);
    let mut table = Table::new();
    let layout = [(g.x, g.y), (h.x, h.y), (Fe::one(), Fe::zero()), (sum.x, sum.y)];
    for (row, (a, b)) in layout.iter().enumerate() {
        table.assign(Lane::A, row, *a).unwrap();
        table.assign(Lane::B, row, *b).unwrap();
    }
    assert!(table.gate_is_met(&config, GateKind::OnCurve, 0));
    assert!(table.gate_is_met(&config, GateKind::OnCurve, 1));
    assert!(table.gate_is_met(&config, GateKind::OnCurve, 3));
    assert!(!table.gate_is_met(&config, GateKind::OnCurve, 2));
    assert!(table.gate_is_met(&config, GateKind::EcDouble, 0));
    assert!(!table.gate_is_met(&config, GateKind::EcDouble, 1));
    assert!(table.gate_is_met(&config, GateKind::ConditionalEcAdd, 0));
    // a result right in one coordinate only is refused
    let mut half = Table::new();
    let wrong = [(g.x, g.y), (h.x, h.y), (Fe::one(), Fe::zero()), (sum.x, g.y)];
    for (row, (a, b)) in wrong.iter().enumerate() {
        half.assign(Lane::A, row, *a).unwrap();
        half.assign(Lane::B, row, *b).unwrap();
    }
    assert!(!half.gate_is_met(&config, GateKind::ConditionalEcAdd, 0));
    assert!(half.evaluate(&config.conditional_ec_add_gate()[0], 0).unwrap().is_zero());
    assert!(!half.evaluate(&config.conditional_ec_add_gate()[1], 0).unwrap().is_zero());
    for kind in [
        GateKind::Add,
        GateKind::Mul,
        GateKind::PartialBitDecomp,
        GateKind::OnCurve,
        GateKind::EcDouble,
        GateKind::ConditionalEcAdd,
    ] {
        let by_kind = config.gate(kind);
        let by_name = match kind {
            GateKind::Add => config.add_gate(),
            GateKind::Mul => config.mul_gate(),
            GateKind::PartialBitDecomp => config.partial_bit_decom_gate(),
            GateKind::OnCurve => config.on_curve_gate(),
            GateKind::EcDouble => config.ec_double_gate(),
            GateKind::ConditionalEcAdd => config.conditional_ec_add_gate(),
        };
        assert_eq!(by_kind.len(), by_name.len());
        for (e, f) in by_kind.iter().zip(by_name.iter()) {
            let v = table.evaluate(e, 0).unwrap();
            assert!(v.is_equal(&table.evaluate(f, 0).unwrap()));
        }
    }
}

#[test]
fn expressions_evaluate_on_the_window() {
    let config = ECChip::configure();
    let table = rows(&[(2, 3), (5, 7), (11, 13), (17, 19)]);
    let e = Expr::advice(Lane::A, 3)
        .times(Expr::advice(Lane::B, 2))
        .minus(Expr::constant(Fe::from_u64(21)))
        .plus(Expr::advice(Lane::B, 0).square());
    // 17 * 13 - 21 + 3 * 3 = 209
    assert!(table.evaluate(&e, 0).unwrap().is_equal(&Fe::from_u64(209)));
    assert!(table.evaluate(&e, 1).is_none());
    let copy = e.duplicate();
    assert!(table.evaluate(&copy, 0).unwrap().is_equal(&Fe::from_u64(209)));
}

#[test]
fn copy_constraints_compare_cells() {
    let config = ECChip::configure();
    let mut table = rows(&[(2, 3), (2, 7)]);
    let a0 = CellRef { lane: Lane::A, row: 0 };
    let a1 = CellRef { lane: Lane::A, row: 1 };
    let b1 = CellRef { lane: Lane::B, row: 1 };
    let a2 = CellRef { lane: Lane::A, row: 2 };
    assert!(table.copy_is_met(a0, a1));
    assert!(!table.copy_is_met(a0, b1));
    assert!(!table.copy_is_met(a0, a2));
    table.constrain_equal(a0, a1);
    assert!(table.is_satisfied(&config));
    table.constrain_equal(a0, b1);
    assert!(!table.is_satisfied(&config));
}

#[test]
fn lay_out_is_all_or_nothing() {
    let config = ECChip::configure();
    let mut table = rows(&[(2, 3)]);
    let writes = vec![(Lane::A, 1, Fe::from_u64(5)), (Lane::B, 0, Fe::from_u64(6))];
    assert!(!table.writes_are_fresh(&writes));
    assert!(table.lay_out(&writes, &vec![], Some((GateKind::Add, 0))).is_err());
    assert_eq!(table.rows(), 1);
    assert!(table.is_satisfied(&config));
    let twice = vec![(Lane::A, 1, Fe::from_u64(5)), (Lane::A, 1, Fe::from_u64(5))];
    assert!(table.lay_out(&twice, &vec![], None).is_err());
    let fresh = vec![(Lane::A, 1, Fe::from_u64(5)), (Lane::B, 3, Fe::from_u64(6))];
    let cells = table.lay_out(&fresh, &vec![], Some((GateKind::Add, 0))).unwrap();
    assert_eq!(cells.len(), 2);
    assert_eq!(cells[1].cell(), CellRef { lane: Lane::B, row: 3 });
    assert_eq!(table.rows(), 4);
    assert!(table.is_free(Lane::A, 3));
    assert!(table.rows_are_free(2, 3));
    assert!(!table.rows_are_free(2, 4));
    // 2 + 3 = 5
    assert!(table.is_satisfied(&config));
}

#[test]
fn gates_on_one_row_must_all_be_met() {
    let config = ECChip::configure();
    let g = Point::generator();
    let h = g.doubled();
    let mut table = Table::new();
    table.assign(Lane::A, 0, g.x).unwrap();
    table.assign(Lane::B, 0, g.y).unwrap();
    table.assign(Lane::A, 1, h.x).unwrap();
    table.assign(Lane::B, 1, h.y).unwrap();
    table.enable_gate(GateKind::OnCurve, 0);
    table.enable_gate(GateKind::EcDouble, 0);
    assert!(table.is_satisfied(&config));
    // g.x + g.y is not h.x
    table.enable_gate(GateKind::Add, 0);
    assert!(!table.is_satisfied(&config));
}
