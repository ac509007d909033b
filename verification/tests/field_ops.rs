use ark_std::rand::RngCore;
use ark_std::test_rng;
use edwards_chip::chip::ECChip;
use edwards_chip::config::ECConfig;
use edwards_chip::decompose::DECOMPOSE_ROWS;
use edwards_chip::expr::Lane;
use edwards_chip::field::Fe;
use edwards_chip::table::{ChipError, Table};

/// A random element below `2^254`, which is below the field order.
fn random_element(rng: &mut impl RngCore) -> Fe {
    let mut bytes = [0u8; 32];
    rng.fill_bytes(&mut bytes);
    bytes[31] &= 0x3f;
    Fe::from_repr(bytes).unwrap()
}

struct ArithTestCircuit {
    f1: Fe,
    f2: Fe,
    f3: Fe,      // f3 = f1 + f2
    f4: Fe,      // f4 = f1 * f2
    f5: [Fe; 6], // partial bit decom
}

impl ArithTestCircuit {
    fn synthesize(&self, config: ECConfig) -> Result<Table, ChipError> {
        let field_chip = ECChip::construct(config);
        let mut table = Table::new();
        let mut offset = 0;

        // unit test: addition
        {
            let f3_rec = field_chip.add(&mut table, &config, &self.f1, &self.f2, &mut offset)?;
            let f3 = field_chip.load_private_field(&mut table, &config, &self.f3, &mut offset)?;
            table.constrain_equal(f3.cell(), f3_rec.cell());
        }

        // unit test: multiplication
        {
            let f4_rec = field_chip.mul(&mut table, &config, &self.f1, &self.f2, &mut offset)?;
            let f4 = field_chip.load_private_field(&mut table, &config, &self.f4, &mut offset)?;
            table.constrain_equal(f4.cell(), f4_rec.cell());
        }

        // unit test: partial bit decompose
        {
            let _cells = field_chip.partial_bit_decomp(&mut table, &config, &self.f5, &mut offset)?;
        }

        // unit test: decompose u128
        {
            let bytes = (0..16).map(|x| x).collect::<Vec<u8>>();
            let a = u128::from_le_bytes(bytes.try_into().unwrap());
            let _cells = field_chip.decompose_u128(&mut table, &config, &a, &mut offset)?;
        }

        // pad the last two rows
        field_chip.pad(&mut table, &config, &mut offset).unwrap();

        Ok(table)
    }
}

fn decom_witness(first: u64, f1: &Fe, tail: u64) -> [Fe; 6] {
    [
        Fe::from_u64(first),
        Fe::zero(),
        Fe::zero(),
        Fe::one(),
        *f1,
        f1.times(&Fe::from_u64(16)).plus(&Fe::from_u64(tail)),
    ]
}

#[test]
fn test_field_ops() {
    let k = 10;

    let mut rng = test_rng();

    let f1 = random_element(&mut rng);
    let f2 = random_element(&mut rng);
    let f3 = f1.plus(&f2);
    let f4 = f1.times(&f2);
    let config = ECChip::configure();
    {
        let f5 = decom_witness(1, &f1, 9);
        let circuit = ArithTestCircuit { f1, f2, f3, f4, f5 };

        let table = circuit.synthesize(config).unwrap();
        assert!(table.rows() <= 1 << k);
        assert!(table.is_satisfied(&config));
    }

    // error case: addition fails
    {
        let f3 = f1.plus(&f1);
        let f5 = decom_witness(1, &f1, 9);
        let circuit = ArithTestCircuit { f1, f2, f3, f4, f5 };

        let table = circuit.synthesize(config).unwrap();
        assert!(!table.is_satisfied(&config));
    }
    // error case: multiplication fails
    {
        let f4 = f1.times(&f1);
        let f5 = decom_witness(1, &f1, 9);
        let circuit = ArithTestCircuit { f1, f2, f3, f4, f5 };

        let table = circuit.synthesize(config).unwrap();
        assert!(!table.is_satisfied(&config));
    }
    // error case: not binary
    {
        let f5 = decom_witness(2, &f1, 10);
        let circuit = ArithTestCircuit { f1, f2, f3, f4, f5 };

        let table = circuit.synthesize(config).unwrap();
        assert!(!table.is_satisfied(&config));
    }
    // error case: sum not equal
    {
        let f5 = decom_witness(0, &f1, 10);
        let circuit = ArithTestCircuit { f1, f2, f3, f4, f5 };

        let table = circuit.synthesize(config).unwrap();
        assert!(!table.is_satisfied(&config));
    }
}

#[test]
fn add_and_mul_cells_hold_the_results() {
    let config = ECChip::configure();
    let chip = ECChip::construct(config);
    let mut table = Table::new();
    let mut offset = 0;
    let x = Fe::from_u64(7);
    let y = Fe::from_u64(35);
    let sum = chip.add(&mut table, &config, &x, &y, &mut offset).unwrap();
    assert_eq!(offset, 2);
    assert!(sum.value().is_equal(&Fe::from_u64(42)));
    assert_eq!(sum.cell().row, 1);
    let product = chip.mul(&mut table, &config, &x, &y, &mut offset).unwrap();
    assert_eq!(offset, 4);
    assert!(product.value().is_equal(&Fe::from_u64(245)));
    assert_eq!(product.cell().row, 3);
    assert!(table.is_satisfied(&config));
    assert_eq!(table.rows(), 4);
}

#[test]
fn writing_a_cell_twice_is_a_conflict() {
    let config = ECChip::configure();
    let chip = ECChip::construct(config);
    let mut table = Table::new();
    let mut offset = 0;
    chip.load_private_field(&mut table, &config, &Fe::from_u64(1), &mut offset).unwrap();
    let mut stale = 0;
    let again = chip.load_private_field(&mut table, &config, &Fe::from_u64(2), &mut stale);
    assert_eq!(again.unwrap_err(), ChipError::AssignmentConflict);
    assert_eq!(stale, 0);
    assert_eq!(table.rows(), 1);
    let sum = chip.add(&mut table, &config, &Fe::one(), &Fe::one(), &mut stale);
    assert_eq!(sum.unwrap_err(), ChipError::AssignmentConflict);
    let bits = chip.decompose_u128(&mut table, &config, &5, &mut stale);
    assert_eq!(bits.unwrap_err(), ChipError::AssignmentConflict);
    assert_eq!(table.rows(), 1);
    assert!(table.is_satisfied(&config));
}

#[test]
fn decompose_u128_cells_reconstruct_the_value() {
    let config = ECChip::configure();
    let chip = ECChip::construct(config);
    for value in [0u128, 1, 0x0f0e_0d0c_0b0a_0908_0706_0504_0302_0100, u128::MAX] {
        let mut table = Table::new();
        let mut offset = 0;
        let cells = chip.decompose_u128(&mut table, &config, &value, &mut offset).unwrap();
        assert_eq!(offset, 97);
        assert_eq!(offset, DECOMPOSE_ROWS);
        assert_eq!(cells.len(), 128);
        let mut sum: u128 = 0;
        for (i, c) in cells.iter().enumerate() {
            let bit = (value >> i) & 1;
            assert!(c.value().is_equal(&Fe::from_u128(bit)));
            sum += bit << i;
        }
        assert_eq!(sum, value);
        assert!(table.is_satisfied(&config));
    }
}

#[test]
fn pad_repeats_the_value_above() {
    let config = ECChip::configure();
    let chip = ECChip::construct(config);
    let mut table = Table::new();
    let mut offset = 0;
    chip.pad(&mut table, &config, &mut offset).unwrap();
    assert_eq!(offset, 2);
    assert!(table.get(Lane::B, 1).unwrap().is_zero());
    chip.load_private_field(&mut table, &config, &Fe::from_u64(9), &mut offset).unwrap();
    chip.pad(&mut table, &config, &mut offset).unwrap();
    assert_eq!(offset, 5);
    assert!(table.get(Lane::A, 4).unwrap().is_equal(&Fe::from_u64(9)));
    assert!(table.get(Lane::B, 3).unwrap().is_equal(&Fe::from_u64(9)));
    assert!(table.is_satisfied(&config));
}

/// The table with one cell holding another value.
fn tampered(table: &Table, lane: Lane, row: usize, value: Fe) -> Table {
    let mut copy = Table::new();
    for r in 0..table.rows() {
        for l in [Lane::A, Lane::B] {
            if let Some(v) = table.get(l, r) {
                let v = if l == lane && r == row { value } else { v };
                copy.assign(l, r, v).unwrap();
            }
        }
    }
    for (kind, row) in table.gates.iter() {
        copy.enable_gate(*kind, *row);
    }
    for (c, d) in table.copies.iter() {
        copy.constrain_equal(*c, *d);
    }
    copy
}

#[test]
fn a_flipped_bit_or_accumulator_fails_the_decomposition() {
    let config = ECChip::configure();
    let chip = ECChip::construct(config);
    let value: u128 = 0x0123_4567_89ab_cdef_0fed_cba9_8765_4321;
    let mut table = Table::new();
    let mut offset = 0;
    let cells = chip.decompose_u128(&mut table, &config, &value, &mut offset).unwrap();
    assert!(table.is_satisfied(&config));
    assert!(tampered(&table, Lane::A, 0, table.get(Lane::A, 0).unwrap()).is_satisfied(&config));
    for i in [0usize, 1, 5, 64, 127] {
        let c = cells[i].cell();
        for other in [2u64, 3, 1 - ((value >> i) & 1) as u64] {
            let broken = tampered(&table, c.lane, c.row, Fe::from_u64(other));
            assert!(!broken.is_satisfied(&config), "bit {} set to {}", i, other);
        }
        let minus_one = tampered(&table, c.lane, c.row, Fe::one().negated());
        assert!(!minus_one.is_satisfied(&config));
    }
    // the accumulator after the first step and the one after the last
    for row in [2usize, 95] {
        let held = table.get(Lane::B, row).unwrap();
        let broken = tampered(&table, Lane::B, row, held.plus(&Fe::one()));
        assert!(!broken.is_satisfied(&config));
    }
    // the integer itself, below the steps
    let broken = tampered(&table, Lane::A, 96, Fe::from_u128(value + 1));
    assert!(!broken.is_satisfied(&config));
}
