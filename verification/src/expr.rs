//! Polynomial constraint expressions over the cells of a two-lane table,
//! read relative to the row on which a gate is switched on.

use crate::field::{fadd, fmul, fneg, fsub, Fe};
use vstd::prelude::*;

verus! {

/// One of the two witness lanes of the table.
#[derive(Clone, Copy, Debug, PartialEq, Eq, Structural)]
pub enum Lane {
    A,
    B,
}

/// The largest rotation a gate reads, counted in rows below its own.
pub const MAX_ROTATION: u8 = 3;

/// The values a gate sees: for each lane, the cells at rotations `0..=3`.
pub struct Window {
    pub a: Seq<nat>,
    pub b: Seq<nat>,
}

impl Window {
    /// The value in `lane` at `rotation`.
    pub open spec fn get(self, lane: Lane, rotation: int) -> nat {
        match lane {
            Lane::A => self.a[rotation],
            Lane::B => self.b[rotation],
        }
    }
}

/// A polynomial in the cells around a row.
#[derive(Debug)]
pub enum Expr {
    /// A field constant.
    Constant(Fe),
    /// The cell of a lane at a rotation.
    Advice(Lane, u8),
    /// The additive inverse of an expression.
    Negated(Box<Expr>),
    /// The sum of two expressions.
    Sum(Box<Expr>, Box<Expr>),
    /// The product of two expressions.
    Product(Box<Expr>, Box<Expr>),
}

impl Expr {
    /// Constants are canonical and no rotation exceeds `MAX_ROTATION`.
    pub open spec fn wf(self) -> bool
        decreases self,
    {
        match self {
            Expr::Constant(c) => c.wf(),
            Expr::Advice(_, rotation) => rotation <= MAX_ROTATION,
            Expr::Negated(e) => e.wf(),
            Expr::Sum(l, r) => l.wf() && r.wf(),
            Expr::Product(l, r) => l.wf() && r.wf(),
        }
    }

    /// The value of the polynomial on a window of cells.
    pub open spec fn eval(self, w: Window) -> nat
        decreases self,
    {
        match self {
            Expr::Constant(c) => c@,
            Expr::Advice(lane, rotation) => w.get(lane, rotation as int),
            Expr::Negated(e) => fneg(e.eval(w)),
            Expr::Sum(l, r) => fadd(l.eval(w), r.eval(w)),
            Expr::Product(l, r) => fmul(l.eval(w), r.eval(w)),
        }
    }

    /// The cells the polynomial reads, each as a lane and a rotation.
    pub open spec fn reads(self) -> Set<(Lane, int)>
        decreases self,
    {
        match self {
            Expr::Constant(_) => Set::empty(),
            Expr::Advice(lane, rotation) => set![(lane, rotation as int)],
            Expr::Negated(e) => e.reads(),
            Expr::Sum(l, r) => l.reads().union(r.reads()),
            Expr::Product(l, r) => l.reads().union(r.reads()),
        }
    }

    /// A constant polynomial.
    pub fn constant(c: Fe) -> (e: Expr)
        requires
            c.wf(),
        ensures
            e == Expr::Constant(c),
            e.wf(),
            e.reads() == Set::<(Lane, int)>::empty(),
            forall|w: Window| #[trigger] e.eval(w) == c@,
    {
        Expr::Constant(c)
    }

    /// The cell of `lane` at `rotation` rows below the row a gate is
    /// switched on at.
    pub fn advice(lane: Lane, rotation: u8) -> (e: Expr)
        requires
            rotation <= MAX_ROTATION,
        ensures
            e == Expr::Advice(lane, rotation),
            e.wf(),
            e.reads() == set![(lane, rotation as int)],
            forall|w: Window| #[trigger] e.eval(w) == w.get(lane, rotation as int),
    {
        Expr::Advice(lane, rotation)
    }

    /// A copy of the expression.
    pub fn duplicate(&self) -> (e: Expr)
        ensures
            e == *self,
        decreases self,
    {
        match self {
            Expr::Constant(c) => Expr::Constant(*c),
            Expr::Advice(lane, rotation) => Expr::Advice(*lane, *rotation),
            Expr::Negated(inner) => Expr::Negated(Box::new(inner.duplicate())),
            Expr::Sum(l, r) => Expr::Sum(Box::new(l.duplicate()), Box::new(r.duplicate())),
            Expr::Product(l, r) => Expr::Product(Box::new(l.duplicate()), Box::new(r.duplicate())),
        }
    }

    /// The sum of two expressions.
    pub fn plus(self, other: Expr) -> (e: Expr)
        ensures
            e == Expr::Sum(Box::new(self), Box::new(other)),
            e.wf() == (self.wf() && other.wf()),
            e.reads() == self.reads().union(other.reads()),
            forall|w: Window| #[trigger] e.eval(w) == fadd(self.eval(w), other.eval(w)),
    {
        Expr::Sum(Box::new(self), Box::new(other))
    }

    /// The difference of two expressions: the sum with the negated second.
    pub fn minus(self, other: Expr) -> (e: Expr)
        ensures
            e == Expr::Sum(Box::new(self), Box::new(Expr::Negated(Box::new(other)))),
            e.wf() == (self.wf() && other.wf()),
            e.reads() == self.reads().union(other.reads()),
            forall|w: Window| #[trigger] e.eval(w) == fsub(self.eval(w), other.eval(w)),
    {
        proof {
            reveal_with_fuel(Expr::eval, 2);
            reveal_with_fuel(Expr::reads, 2);
            reveal_with_fuel(Expr::wf, 2);
        }
        Expr::Sum(Box::new(self), Box::new(Expr::Negated(Box::new(other))))
    }

    /// The product of two expressions.
    pub fn times(self, other: Expr) -> (e: Expr)
        ensures
            e == Expr::Product(Box::new(self), Box::new(other)),
            e.wf() == (self.wf() && other.wf()),
            e.reads() == self.reads().union(other.reads()),
            forall|w: Window| #[trigger] e.eval(w) == fmul(self.eval(w), other.eval(w)),
    {
        Expr::Product(Box::new(self), Box::new(other))
    }

    /// The product of an expression with itself.
    pub fn square(&self) -> (e: Expr)
        ensures
            e == Expr::Product(Box::new(*self), Box::new(*self)),
            e.wf() == self.wf(),
            e.reads() == self.reads(),
            forall|w: Window| #[trigger] e.eval(w) == fmul(self.eval(w), self.eval(w)),
    {
        proof {
            assert(self.reads().union(self.reads()) =~= self.reads());
        }
        Expr::Product(Box::new(self.duplicate()), Box::new(self.duplicate()))
    }
}

} // verus!
