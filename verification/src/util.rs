//! Small helpers around witness values and the curve's constants.

use crate::curve::{on_curve, Affine, Point};
use crate::field::{decimal_value, fe, is_decimal, Fe};
use vstd::prelude::*;

verus! {

/// The value behind a witness that may be unknown: the value itself where
/// it is known, and the default of its type where it is not.
pub fn leak<T: Copy + Default>(a: &Option<&T>) -> (t: T)
    ensures
        match *a {
            Some(x) => t == *x,
            None => call_ensures(T::default, (), t),
        },
{
    match a {
        Some(x) => **x,
        None => T::default(),
    }
}

/// The decimal numeral of the first coordinate of the generator times the
/// negative of `2^256`.
pub open spec fn neg_generator_x() -> Seq<char> {
    "18743181854947712744276314946015096264026721778860333623839716915275138628836"@
}

/// The decimal numeral of the second coordinate of the generator times the
/// negative of `2^256`.
pub open spec fn neg_generator_y() -> Seq<char> {
    "43352142484310984921680343085101029755736011421988478594111694112306153004843"@
}

/// The point that the two numerals stand for.
pub open spec fn neg_generator() -> Affine {
    Affine {
        x: fe(decimal_value(neg_generator_x()) as int),
        y: fe(decimal_value(neg_generator_y()) as int),
    }
}

/// The generator times the negative of `2^256`, read from its decimal
/// coordinates, together with the two coordinates; `None` unless both
/// numerals are accepted and the point lies on the curve.
pub fn neg_generator_times_2_to_256() -> (r: Option<(Point, Fe, Fe)>)
    ensures
        r is Some <==> is_decimal(neg_generator_x()) && is_decimal(neg_generator_y()) && on_curve(
            neg_generator(),
        ),
        r matches Some(t) ==> t.0.wf() && t.0@ == neg_generator() && t.0.x == t.1 && t.0.y == t.2,
{
    let x = Fe::from_decimal(
        "18743181854947712744276314946015096264026721778860333623839716915275138628836",
    );
    let y = Fe::from_decimal(
        "43352142484310984921680343085101029755736011421988478594111694112306153004843",
    );
    match (x, y) {
        (Some(x), Some(y)) => match Point::from_xy(x, y) {
            Some(p) => Some((p, x, y)),
            None => None,
        },
        _ => None,
    }
}

} // verus!
