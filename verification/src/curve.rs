//! The twisted Edwards curve `a x^2 + y^2 = 1 + d x^2 y^2` over the base
//! field, with the Bandersnatch coefficients, and its addition law.

use crate::algebra::{
    lemma_fe_range, lemma_fmul_associative, lemma_identities, lemma_inverse_unique,
};
use crate::field::{fadd, fdiv, fmul, fneg, fsub, invertible, modulus, Fe};
use vstd::prelude::*;

verus! {

/// The coefficient `a = -5`.
pub open spec fn curve_a() -> nat {
    fneg(5)
}

/// The coefficient `d`.
pub open spec fn curve_d() -> nat {
    45022363124591815672509500913686876175488063829319466900776701791074614335719nat
}

/// The coefficient `a` as a field element.
pub fn curve_a_element() -> (r: Fe)
    ensures
        r.wf(),
        r@ == curve_a(),
{
    Fe::from_u64(5).negated()
}

/// The coefficient `d` as a field element.
pub fn curve_d_element() -> (r: Fe)
    ensures
        r.wf(),
        r@ == curve_d(),
{
    let bytes: [u8; 32] = [
        0xe7, 0x58, 0x8d, 0x18, 0xf5, 0xf2, 0x69, 0xb3,
        0x92, 0x4f, 0xe5, 0x77, 0x71, 0x67, 0x66, 0xcb,
        0xd8, 0xb6, 0xe3, 0x6b, 0xf8, 0x3b, 0x6e, 0xc6,
        0xcb, 0x67, 0xc2, 0x33, 0x26, 0xc1, 0x89, 0x63,
    ];
    match Fe::from_repr(bytes) {
        Some(d) => d,
        None => Fe::zero(),
    }
}

/// An affine point as a pair of field representatives.
pub struct Affine {
    pub x: nat,
    pub y: nat,
}

/// Both coordinates are reduced.
pub open spec fn reduced(p: Affine) -> bool {
    p.x < modulus() && p.y < modulus()
}

/// The square of a representative.
pub open spec fn fsquare(v: nat) -> nat {
    fmul(v, v)
}

/// The left side `a x^2 + y^2` of the curve equation.
pub open spec fn curve_lhs(p: Affine) -> nat {
    fadd(fmul(curve_a(), fsquare(p.x)), fsquare(p.y))
}

/// The product `d x^2 y^2` of the curve equation.
pub open spec fn curve_cross(p: Affine) -> nat {
    fmul(fmul(curve_d(), fsquare(p.x)), fsquare(p.y))
}

/// The point satisfies `a x^2 + y^2 = 1 + d x^2 y^2`.
pub open spec fn on_curve(p: Affine) -> bool {
    curve_lhs(p) == fadd(1, curve_cross(p))
}

/// The neutral element `(0, 1)`.
pub open spec fn identity() -> Affine {
    Affine { x: 0, y: 1 }
}

/// The product `d x1 x2 y1 y2` shared by both denominators of the addition
/// law.
pub open spec fn add_cross(p: Affine, q: Affine) -> nat {
    fmul(fmul(fmul(fmul(curve_d(), p.x), q.x), p.y), q.y)
}

/// The numerator `x1 y2 + y1 x2`.
pub open spec fn add_x_num(p: Affine, q: Affine) -> nat {
    fadd(fmul(p.x, q.y), fmul(p.y, q.x))
}

/// The denominator `1 + d x1 x2 y1 y2`.
pub open spec fn add_x_den(p: Affine, q: Affine) -> nat {
    fadd(1, add_cross(p, q))
}

/// The numerator `y1 y2 - a x1 x2`.
pub open spec fn add_y_num(p: Affine, q: Affine) -> nat {
    fsub(fmul(p.y, q.y), fmul(fmul(curve_a(), p.x), q.x))
}

/// The denominator `1 - d x1 x2 y1 y2`.
pub open spec fn add_y_den(p: Affine, q: Affine) -> nat {
    fsub(1, add_cross(p, q))
}

/// The twisted Edwards sum of two points.
#[verifier::opaque]
pub open spec fn te_add(p: Affine, q: Affine) -> Affine {
    Affine {
        x: fdiv(add_x_num(p, q), add_x_den(p, q)),
        y: fdiv(add_y_num(p, q), add_y_den(p, q)),
    }
}

/// Both denominators of the sum are invertible, so the addition law
/// applies.
pub open spec fn add_defined(p: Affine, q: Affine) -> bool {
    invertible(add_x_den(p, q)) && invertible(add_y_den(p, q))
}

/// The numerator `x y + y x` of the doubling law.
pub open spec fn double_x_num(p: Affine) -> nat {
    fadd(fmul(p.x, p.y), fmul(p.y, p.x))
}

/// The denominator `1 + d x^2 y^2` of the doubling law.
pub open spec fn double_x_den(p: Affine) -> nat {
    fadd(1, curve_cross(p))
}

/// The numerator `y^2 - a x^2` of the doubling law.
pub open spec fn double_y_num(p: Affine) -> nat {
    fsub(fsquare(p.y), fmul(curve_a(), fsquare(p.x)))
}

/// The denominator `1 - d x^2 y^2` of the doubling law.
pub open spec fn double_y_den(p: Affine) -> nat {
    fsub(1, curve_cross(p))
}

/// The twisted Edwards double of a point.
#[verifier::opaque]
pub open spec fn te_double(p: Affine) -> Affine {
    Affine {
        x: fdiv(double_x_num(p), double_x_den(p)),
        y: fdiv(double_y_num(p), double_y_den(p)),
    }
}

/// Both denominators of the double are invertible.
pub open spec fn double_defined(p: Affine) -> bool {
    invertible(double_x_den(p)) && invertible(double_y_den(p))
}

/// The arithmetic blend `c * s + (1 - c) * v` of two values.
pub open spec fn blend(c: nat, s: nat, v: nat) -> nat {
    fadd(fmul(c, s), fmul(fsub(1, c), v))
}

/// The sum `p + q` where `c` is one and `p` where `c` is zero, blended
/// arithmetically in between.
#[verifier::opaque]
pub open spec fn te_conditional_add(p: Affine, q: Affine, c: nat) -> Affine {
    Affine { x: blend(c, te_add(p, q).x, p.x), y: blend(c, te_add(p, q).y, p.y) }
}

/// Sums, doubles and conditional sums have reduced coordinates.
pub proof fn lemma_results_reduced(p: Affine, q: Affine, c: nat)
    ensures
        reduced(te_add(p, q)),
        reduced(te_double(p)),
        reduced(te_conditional_add(p, q, c)),
        reduced(identity()),
{
    reveal(te_add);
    reveal(te_double);
    reveal(te_conditional_add);
}

/// Doubling a point is adding it to itself.
pub proof fn lemma_double_is_add(p: Affine)
    ensures
        te_double(p) == te_add(p, p),
        double_defined(p) == add_defined(p, p),
{
    reveal(te_add);
    reveal(te_double);
    reveal(te_conditional_add);
    let d = curve_d();
    let a = curve_a();
    // d x x y y, from the left, is (d x^2) y^2
    lemma_fmul_associative(d, p.x, p.x);
    lemma_fmul_associative(fmul(d, fsquare(p.x)), p.y, p.y);
    assert(add_cross(p, p) == curve_cross(p));
    lemma_fmul_associative(a, p.x, p.x);
}

/// With the condition at one the conditional sum is the sum, and with the
/// condition at zero it is the first point.
pub proof fn lemma_conditional_add(p: Affine, q: Affine)
    requires
        reduced(p),
    ensures
        te_conditional_add(p, q, 1) == te_add(p, q),
        te_conditional_add(p, q, 0) == p,
{
    reveal(te_add);
    reveal(te_double);
    reveal(te_conditional_add);
    let s = te_add(p, q);
    lemma_blend(s.x, p.x);
    lemma_blend(s.y, p.y);
    lemma_fe_range(s.x as int);
    lemma_fe_range(s.y as int);
    lemma_fe_range(p.x as int);
    lemma_fe_range(p.y as int);
}

/// A blend with condition one is the first value and with condition zero
/// the second, both reduced.
pub proof fn lemma_blend(s: nat, v: nat)
    ensures
        blend(1, s, v) == crate::field::fe(s as int),
        blend(0, s, v) == crate::field::fe(v as int),
{
    lemma_identities(s);
    lemma_identities(v);
    lemma_identities(1);
    lemma_identities(0);
    assert(fsub(1, 1) == 0);
    assert(fsub(1, 0) == 1);
    lemma_identities(crate::field::fe(s as int));
    lemma_identities(crate::field::fe(v as int));
    lemma_fe_range(s as int);
    lemma_fe_range(v as int);
}

/// An affine point with coordinates in the base field.
#[derive(Clone, Copy, Debug)]
pub struct Point {
    pub x: Fe,
    pub y: Fe,
}

impl View for Point {
    type V = Affine;

    open spec fn view(&self) -> Affine {
        Affine { x: self.x@, y: self.y@ }
    }
}

impl Point {
    /// Both coordinates are canonical.
    pub open spec fn wf(&self) -> bool {
        self.x.wf() && self.y.wf()
    }

    /// The neutral element `(0, 1)`.
    pub fn identity() -> (r: Point)
        ensures
            r.wf(),
            r@ == identity(),
    {
        Point { x: Fe::zero(), y: Fe::one() }
    }

    /// Whether the point satisfies the curve equation.
    pub fn is_on_curve(&self) -> (r: bool)
        requires
            self.wf(),
        ensures
            r == on_curve(self@),
    {
        let xx = self.x.times(&self.x);
        let yy = self.y.times(&self.y);
        let lhs = curve_a_element().times(&xx).plus(&yy);
        let rhs = Fe::one().plus(&curve_d_element().times(&xx).times(&yy));
        lhs.is_equal(&rhs)
    }

    /// The point with the given coordinates, if it lies on the curve.
    pub fn from_xy(x: Fe, y: Fe) -> (r: Option<Point>)
        requires
            x.wf(),
            y.wf(),
        ensures
            r is Some <==> on_curve(Affine { x: x@, y: y@ }),
            r matches Some(p) ==> p.x == x && p.y == y,
    {
        let p = Point { x, y };
        if p.is_on_curve() {
            Some(p)
        } else {
            None
        }
    }

    /// The twisted Edwards sum of two points.
    pub fn plus(&self, other: &Point) -> (r: Point)
        requires
            self.wf(),
            other.wf(),
        ensures
            r.wf(),
            r@ == te_add(self@, other@),
            add_x_den(self@, other@) != 0 && add_y_den(self@, other@) != 0 ==> add_defined(
                self@,
                other@,
            ),
    {
        proof {
            reveal(te_add);
            reveal(te_double);
            reveal(te_conditional_add);
        }
        let one = Fe::one();
        let cross = curve_d_element().times(&self.x).times(&other.x).times(&self.y).times(
            &other.y,
        );
        let x_num = self.x.times(&other.y).plus(&self.y.times(&other.x));
        let x_den = one.plus(&cross);
        let y_num = self.y.times(&other.y).minus(&curve_a_element().times(&self.x).times(&other.x));
        let y_den = one.minus(&cross);
        Point { x: x_num.divided_by(&x_den), y: y_num.divided_by(&y_den) }
    }

    /// The twisted Edwards double of the point.
    pub fn doubled(&self) -> (r: Point)
        requires
            self.wf(),
        ensures
            r.wf(),
            r@ == te_double(self@),
            double_x_den(self@) != 0 && double_y_den(self@) != 0 ==> double_defined(self@),
    {
        proof {
            reveal(te_add);
            reveal(te_double);
            reveal(te_conditional_add);
        }
        let one = Fe::one();
        let xx = self.x.times(&self.x);
        let yy = self.y.times(&self.y);
        let cross = curve_d_element().times(&xx).times(&yy);
        let x_num = self.x.times(&self.y).plus(&self.y.times(&self.x));
        let x_den = one.plus(&cross);
        let y_num = yy.minus(&curve_a_element().times(&xx));
        let y_den = one.minus(&cross);
        Point { x: x_num.divided_by(&x_den), y: y_num.divided_by(&y_den) }
    }

    /// The sum with `other` blended in by `condition`: the sum where it is
    /// one, the point itself where it is zero.
    pub fn conditional_plus(&self, other: &Point, condition: &Fe) -> (r: Point)
        requires
            self.wf(),
            other.wf(),
            condition.wf(),
        ensures
            r.wf(),
            r@ == te_conditional_add(self@, other@, condition@),
            add_x_den(self@, other@) != 0 && add_y_den(self@, other@) != 0 ==> add_defined(
                self@,
                other@,
            ),
    {
        proof {
            reveal(te_add);
            reveal(te_double);
            reveal(te_conditional_add);
        }
        let sum = self.plus(other);
        let rest = Fe::one().minus(condition);
        Point {
            x: condition.times(&sum.x).plus(&rest.times(&self.x)),
            y: condition.times(&sum.y).plus(&rest.times(&self.y)),
        }
    }
}

/// The first coordinate of the generator of the prime-order subgroup.
pub open spec fn generator_x() -> nat {
    18886178867200960497001835917649091219057080094937609519140440539760939937304nat
}

/// The second coordinate of the generator of the prime-order subgroup.
pub open spec fn generator_y() -> nat {
    19188667384257783945677642223292697773471335439753913231509108946878080696678nat
}

impl Point {
    /// The generator of the prime-order subgroup.
    pub fn generator() -> (r: Point)
        ensures
            r.wf(),
            r@ == (Affine { x: generator_x(), y: generator_y() }),
            on_curve(r@),
    {
        proof {
            lemma_generator_on_curve();
        }
        let xs: [u8; 32] = [
            0x18, 0xae, 0x52, 0xa2, 0x66, 0x18, 0xe7, 0xe1,
            0x65, 0x84, 0x99, 0xad, 0x22, 0xc0, 0x79, 0x2b,
            0xf3, 0x42, 0xbe, 0x7b, 0x77, 0x11, 0x37, 0x74,
            0xc5, 0x34, 0x0b, 0x2c, 0xcc, 0x32, 0xc1, 0x29,
        ];
        let ys: [u8; 32] = [
            0x66, 0x41, 0x97, 0xcc, 0xb6, 0x67, 0x31, 0x5e,
            0x60, 0x64, 0xe4, 0xee, 0x81, 0xad, 0x8c, 0x35,
            0x86, 0xd5, 0xdc, 0xba, 0x50, 0x8b, 0x7d, 0x15,
            0x0f, 0x3e, 0x12, 0xda, 0x9e, 0x66, 0x6c, 0x2a,
        ];
        let x = match Fe::from_repr(xs) {
            Some(v) => v,
            None => Fe::zero(),
        };
        let y = match Fe::from_repr(ys) {
            Some(v) => v,
            None => Fe::zero(),
        };
        Point { x, y }
    }
}

/// The generator lies on the curve.
#[verifier::rlimit(30)]
pub proof fn lemma_generator_on_curve()
    ensures
        on_curve(Affine { x: generator_x(), y: generator_y() }),
{
    let x = generator_x();
    let y = generator_y();
    let xx = fmul(x, x);
    let yy = fmul(y, y);
    assert(xx == 0x692b6f2f62766811901b6400cab9eb191d468e5de6475647215dff0a9be16f6enat);
    assert(yy == 0xf8993f1043f711c9e9342c0a2dbfeedd8a848ef3f5e25630a3e383ca446e7d9nat);
    let axx = fmul(curve_a(), xx);
    assert(curve_a() == 0x73eda753299d7d483339d80809a1d80553bda402fffe5bfefffffffefffffffcnat);
    assert(axx == 0x35cb18b2e3c36a112f9844243a87a09d10536c3980931c97592a04c5f498d2dfnat);
    let dxx = fmul(curve_d(), xx);
    assert(dxx == 0x13fbee724bb3367a9481f38c1fe3862a3da12fac6bb2b40a062e0d9b2bf0ebebnat);
    let cross = fmul(dxx, yy);
    assert(cross == 0x4554aca3e802db2dce2b86e4dd639f8ae8fbb528bff141fa63683d0298dfbab7nat);
}

/// One is its own inverse.
pub proof fn lemma_one_invertible()
    ensures
        invertible(1),
        crate::field::finv(1) == 1,
{
    lemma_identities(1);
    lemma_inverse_unique(1, 1);
}

/// The neutral element lies on the curve.
pub proof fn lemma_identity_on_curve()
    ensures
        on_curve(identity()),
{
    lemma_identities(curve_a());
    lemma_identities(curve_d());
    lemma_identities(1);
    lemma_identities(0);
}

/// Doubling the neutral element gives the neutral element, and the
/// doubling law applies to it.
#[verifier::rlimit(30)]
pub proof fn lemma_double_identity()
    ensures
        te_double(identity()) == identity(),
        double_defined(identity()),
{
    reveal(te_double);
    lemma_one_invertible();
    lemma_identities(curve_a());
    lemma_identities(curve_d());
    lemma_identities(1);
    lemma_identities(0);
    let p = identity();
    assert(fsquare(p.x) == 0);
    assert(fsquare(p.y) == 1);
    assert(curve_cross(p) == 0);
    assert(double_x_num(p) == 0);
    assert(double_x_den(p) == 1);
    assert(double_y_num(p) == 1);
    assert(double_y_den(p) == 1);
}

/// Adding a reduced point to the neutral element gives the point, and the
/// addition law applies.
#[verifier::rlimit(30)]
pub proof fn lemma_add_identity(p: Affine)
    requires
        reduced(p),
    ensures
        te_add(identity(), p) == p,
        add_defined(identity(), p),
{
    reveal(te_add);
    lemma_one_invertible();
    let o = identity();
    lemma_identities(curve_d());
    lemma_identities(curve_a());
    lemma_identities(p.x);
    lemma_identities(p.y);
    lemma_identities(1);
    lemma_identities(0);
    lemma_fe_range(p.x as int);
    lemma_fe_range(p.y as int);
    assert(fmul(curve_d(), o.x) == 0);
    assert(fmul(fmul(curve_d(), o.x), p.x) == 0);
    assert(fmul(fmul(fmul(curve_d(), o.x), p.x), o.y) == 0);
    assert(add_cross(o, p) == 0);
    assert(add_x_den(o, p) == 1);
    assert(add_y_den(o, p) == 1);
    assert(fmul(o.x, p.y) == 0);
    assert(fmul(o.y, p.x) == p.x);
    assert(add_x_num(o, p) == p.x);
    assert(fmul(o.y, p.y) == p.y);
    assert(fmul(curve_a(), o.x) == 0);
    assert(fmul(fmul(curve_a(), o.x), p.x) == 0);
    assert(add_y_num(o, p) == p.y);
}

/// Adding the neutral element to a reduced point gives the point, and the
/// addition law applies.
#[verifier::rlimit(30)]
pub proof fn lemma_add_identity_right(p: Affine)
    requires
        reduced(p),
    ensures
        te_add(p, identity()) == p,
        add_defined(p, identity()),
{
    reveal(te_add);
    lemma_one_invertible();
    let o = identity();
    lemma_identities(curve_d());
    lemma_identities(curve_a());
    lemma_identities(p.x);
    lemma_identities(p.y);
    lemma_identities(1);
    lemma_identities(0);
    lemma_fe_range(p.x as int);
    lemma_fe_range(p.y as int);
    lemma_identities(fmul(curve_d(), p.x));
    assert(fmul(fmul(curve_d(), p.x), o.x) == 0);
    assert(fmul(fmul(fmul(curve_d(), p.x), o.x), p.y) == 0);
    assert(add_cross(p, o) == 0);
    assert(add_x_den(p, o) == 1);
    assert(add_y_den(p, o) == 1);
    assert(fmul(p.x, o.y) == p.x);
    assert(fmul(p.y, o.x) == 0);
    assert(add_x_num(p, o) == p.x);
    assert(fmul(p.y, o.y) == p.y);
    lemma_identities(fmul(curve_a(), p.x));
    assert(fmul(fmul(curve_a(), p.x), o.x) == 0);
    assert(add_y_num(p, o) == p.y);
}

} // verus!
