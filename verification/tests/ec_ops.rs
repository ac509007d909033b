use edwards_chip::chip::{AssignedECPoint, ECChip};
use edwards_chip::config::ECConfig;
use edwards_chip::curve::Point;
use edwards_chip::decompose::SCALAR_ROWS;
use edwards_chip::field::Fe;
use edwards_chip::scalar_mul::MUL_ROWS;
use edwards_chip::table::{ChipError, Table};

fn scalar(n: u64) -> [u8; 32] {
    let mut bytes = [0u8; 32];
    bytes[..8].copy_from_slice(&n.to_le_bytes());
    bytes
}

/// Double-and-add outside the table, from the most significant bit down.
fn times(p: &Point, s: &[u8; 32]) -> Point {
    let mut acc = Point::identity();
    for i in (0..256).rev() {
        acc = acc.doubled();
        if (s[i / 8] >> (i % 8)) & 1 == 1 {
            acc = acc.plus(p);
        }
    }
    acc
}

fn same(p: &Point, q: &Point) -> bool {
    p.x.is_equal(&q.x) && p.y.is_equal(&q.y)
}

fn point(x: &str, y: &str) -> Point {
    Point { x: Fe::from_decimal(x).unwrap(), y: Fe::from_decimal(y).unwrap() }
}

struct ECTestCircuit {
    s: [u8; 32],
    p1: Point,
    p2: Point,
    p3: Point, // p1 + p2
    p4: Point, // 2p1
    p5: Point, // p1 * s
}

fn tie(table: &mut Table, p: &AssignedECPoint, q: &AssignedECPoint) {
    table.constrain_equal(p.x.cell(), q.x.cell());
    table.constrain_equal(p.y.cell(), q.y.cell());
}

impl ECTestCircuit {
    fn synthesize(&self, config: ECConfig) -> Result<Table, ChipError> {
        let ec_chip = ECChip::construct(config);
        let mut table = Table::new();
        let mut offset = 0;
        // unit test: `load private unchecked`, then `enforce is on curve`
        let _p1 = {
            let p1 = ec_chip
                .load_private_point_unchecked(&mut table, &config, &self.p1, &mut offset)
                .unwrap();
            ec_chip.enforce_on_curve(&mut table, &config, &p1, &mut offset).unwrap();
            p1
        };
        // unit test: load private
        let _p2 = ec_chip.load_private_point(&mut table, &config, &self.p2, &mut offset).unwrap();
        let p3 = ec_chip.load_private_point(&mut table, &config, &self.p3, &mut offset).unwrap();
        let p4 = ec_chip.load_private_point(&mut table, &config, &self.p4, &mut offset).unwrap();
        let p5 = ec_chip.load_private_point(&mut table, &config, &self.p5, &mut offset).unwrap();

        // unit test: point addition with 1
        {
            let p1 = ec_chip
                .load_private_point_unchecked(&mut table, &config, &self.p1, &mut offset)
                .unwrap();
            let p2 = ec_chip
                .load_private_point_unchecked(&mut table, &config, &self.p2, &mut offset)
                .unwrap();
            let bit =
                ec_chip.load_private_field(&mut table, &config, &Fe::from_u64(1), &mut offset)?;
            let p3_rec = ec_chip
                .conditional_point_add(&mut table, &config, &p1, &p2, &bit, &mut offset)
                .unwrap();

            tie(&mut table, &p3, &p3_rec);
        }

        // unit test: point addition with 0
        {
            let p1 = ec_chip
                .load_private_point_unchecked(&mut table, &config, &self.p1, &mut offset)
                .unwrap();
            let p2 = ec_chip
                .load_private_point_unchecked(&mut table, &config, &self.p2, &mut offset)
                .unwrap();
            let bit = ec_chip
                .load_private_field(&mut table, &config, &Fe::from_u64(0), &mut offset)
                .unwrap();
            let p3_rec = ec_chip
                .conditional_point_add(&mut table, &config, &p1, &p2, &bit, &mut offset)
                .unwrap();

            tie(&mut table, &p1, &p3_rec);
        }

        // unit test: point doubling
        {
            let p1 = ec_chip
                .load_private_point_unchecked(&mut table, &config, &self.p1, &mut offset)
                .unwrap();
            let p4_rec = ec_chip.point_double(&mut table, &config, &p1, &mut offset).unwrap();

            tie(&mut table, &p4, &p4_rec);
        }

        // unit test: scalar decomposition
        {
            let start = offset;
            let _scalar_cells =
                ec_chip.decompose_scalar(&mut table, &config, &self.s, &mut offset).unwrap();
            println!("scalar decompose uses {} rows", offset - start);
        }

        // unit test: curve mul
        {
            let start = offset;
            let p5_rec =
                ec_chip.point_mul(&mut table, &config, &self.p1, &self.s, &mut offset).unwrap();
            tie(&mut table, &p5, &p5_rec);

            println!("curve mul uses {} rows", offset - start);
            println!("offset here is: {}", offset);
        }

        // pad the last two rows
        ec_chip.pad(&mut table, &config, &mut offset).unwrap();

        Ok(table)
    }
}

#[test]
fn test_ec_ops() {
    let k = 14;

    let sa = scalar(55);
    let config = ECChip::configure();

    let p1 = times(&Point::generator(), &scalar(123123));
    let p2 = times(&Point::generator(), &sa);
    let p3 = p1.plus(&p2);
    let p4 = p1.plus(&p1);
    let p5 = times(&p1, &sa);

    {
        let circuit = ECTestCircuit { s: sa, p1, p2, p3, p4, p5 };

        let table = circuit.synthesize(config).unwrap();
        assert!(table.rows() <= 1 << k);
        assert!(table.is_satisfied(&config));
    }

    // error case: add not equal
    {
        let p3 = p1.plus(&p1);
        let circuit = ECTestCircuit { s: sa, p1, p2, p3, p4, p5 };

        let table = circuit.synthesize(config).unwrap();
        assert!(!table.is_satisfied(&config));
    }

    // error case: double not equal
    {
        let p4 = p1.plus(&p2);
        let circuit = ECTestCircuit { s: sa, p1, p2, p3, p4, p5 };

        let table = circuit.synthesize(config).unwrap();
        assert!(!table.is_satisfied(&config));
    }
}

#[test]
fn multiples_of_the_generator_match_known_values() {
    let g = Point::generator();
    assert!(g.is_on_curve());
    let p1 = times(&g, &scalar(123123));
    assert!(same(
        &p1,
        &point(
            "43061131038002758976019812602761687543979884249551437001571467139353952180050",
            "17384586228158432403548756638666610462602391946471901826157627368003434701764",
        )
    ));
    let p2 = times(&g, &scalar(55));
    assert!(same(
        &p2,
        &point(
            "46893479828158618053371056686205236202083321856087869446245065147718269952333",
            "49367244599997440444667805934791576592977043616337707635700869694001905794851",
        )
    ));
    assert!(same(
        &times(&p1, &scalar(55)),
        &point(
            "34307706984617258995469302086592325428091481217978897395851185855351079898107",
            "31756046438348404995154725900334527071116000021744467144953007129660334099967",
        )
    ));
    let two_g = point(
        "21829743261194590194992413705867576097158323059182896808782966767024601242412",
        "19075870567762384361343718229920461045746972450262741916171739040424605531019",
    );
    assert!(same(&g.doubled(), &two_g));
    assert!(same(&g.plus(&g), &two_g));
    assert!(p1.is_on_curve() && p2.is_on_curve() && two_g.is_on_curve());
}

#[test]
fn points_off_the_curve_fail_the_on_curve_gate() {
    let config = ECChip::configure();
    let chip = ECChip::construct(config);
    let off = Point { x: Fe::from_u64(1), y: Fe::from_u64(1) };
    assert!(!off.is_on_curve());
    assert!(Point::from_xy(off.x, off.y).is_none());
    let g = Point::generator();
    assert!(Point::from_xy(g.x, g.y).is_some());

    let mut table = Table::new();
    let mut offset = 0;
    chip.load_private_point(&mut table, &config, &g, &mut offset).unwrap();
    assert!(table.is_satisfied(&config));
    let loaded = chip.load_private_point_unchecked(&mut table, &config, &off, &mut offset).unwrap();
    assert!(table.is_satisfied(&config));
    chip.enforce_on_curve(&mut table, &config, &loaded, &mut offset).unwrap();
    assert_eq!(offset, 2);
    assert!(!table.is_satisfied(&config));

    let mut checked = Table::new();
    let mut offset = 0;
    chip.load_private_point(&mut checked, &config, &off, &mut offset).unwrap();
    assert!(!checked.is_satisfied(&config));
}

#[test]
fn enforcing_twice_changes_nothing() {
    let config = ECChip::configure();
    let chip = ECChip::construct(config);
    let mut table = Table::new();
    let mut offset = 0;
    let g = chip
        .load_private_point_unchecked(&mut table, &config, &Point::generator(), &mut offset)
        .unwrap();
    chip.enforce_on_curve(&mut table, &config, &g, &mut offset).unwrap();
    chip.enforce_on_curve(&mut table, &config, &g, &mut offset).unwrap();
    assert_eq!(offset, 1);
    assert_eq!(table.rows(), 1);
    assert!(table.is_satisfied(&config));
}

#[test]
fn conditional_add_selects_by_the_bit() {
    let config = ECChip::configure();
    let chip = ECChip::construct(config);
    let g = Point::generator();
    let h = g.doubled();
    for bit in [0u64, 1] {
        let mut table = Table::new();
        let mut offset = 0;
        let p = chip.load_private_point(&mut table, &config, &g, &mut offset).unwrap();
        let q = chip.load_private_point(&mut table, &config, &h, &mut offset).unwrap();
        let c = chip.load_private_field(&mut table, &config, &Fe::from_u64(bit), &mut offset).unwrap();
        let r = chip.conditional_point_add(&mut table, &config, &p, &q, &c, &mut offset).unwrap();
        assert_eq!(offset, 7);
        let expected = if bit == 1 { g.plus(&h) } else { g };
        assert!(same(&r.point(), &expected));
        assert!(table.is_satisfied(&config));
    }
}

#[test]
fn point_mul_covers_the_range_of_scalars() {
    let config = ECChip::configure();
    let chip = ECChip::construct(config);
    let g = Point::generator();
    let order: [u8; 32] = [
        0xe1, 0xe7, 0x76, 0x28, 0xb5, 0x06, 0xfd, 0x74, 0x71, 0x04, 0x19, 0x74, 0x00, 0x87, 0x8f,
        0xff, 0x00, 0x76, 0x68, 0x02, 0x02, 0x76, 0xce, 0x0c, 0x52, 0x5f, 0x67, 0xca, 0xd4, 0x69,
        0xfb, 0x1c,
    ];
    let mut top = order;
    top[0] = 0xe0;
    let minus_g = Point { x: g.x.negated(), y: g.y };
    let cases: [([u8; 32], Point); 5] = [
        (scalar(0), Point::identity()),
        (scalar(1), g),
        (scalar(2), g.doubled()),
        (top, minus_g),
        (order, Point::identity()),
    ];
    for (s, expected) in cases.iter() {
        let mut table = Table::new();
        let mut offset = 0;
        let r = chip.point_mul(&mut table, &config, &g, s, &mut offset).unwrap();
        assert_eq!(offset, 1732);
        assert_eq!(offset, MUL_ROWS);
        assert_eq!(r.x.cell().row, 1731);
        assert!(same(&r.point(), expected));
        assert!(same(&r.point(), &times(&g, s)));
        assert!(table.is_satisfied(&config));
    }
}

#[test]
fn decompose_scalar_gives_the_bits_of_the_encoding() {
    let config = ECChip::configure();
    let chip = ECChip::construct(config);
    let mut s = [0u8; 32];
    for (i, b) in s.iter_mut().enumerate() {
        *b = (i as u8).wrapping_mul(37).wrapping_add(11);
    }
    let mut table = Table::new();
    let mut offset = 0;
    let cells = chip.decompose_scalar(&mut table, &config, &s, &mut offset).unwrap();
    assert_eq!(offset, 194);
    assert_eq!(offset, SCALAR_ROWS);
    assert_eq!(cells.len(), 256);
    for (i, c) in cells.iter().enumerate() {
        let bit = (s[i / 8] >> (i % 8)) & 1;
        assert!(c.value().is_equal(&Fe::from_u64(bit as u64)), "{}-th bit failed", i);
    }
    assert!(table.is_satisfied(&config));
}
