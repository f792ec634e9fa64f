//! The arithmetic that a warp is computed in.
//!
//! [`Arith`] holds the meaning of the operations as specification functions and
//! [`Scalar`] their executable counterparts. Formulas are stated once over `Arith`,
//! and so can be read both in the machine arithmetic that runs and in the exact
//! arithmetic of the real numbers ([`Exact`]).

use crate::algebra::{over, times};
use vstd::float::float_cast_spec;
use vstd::prelude::*;
use vstd::std_specs::cmp::{eq_ensures, ge_ensures, lt_ensures};
use vstd::std_specs::ops::{add_ensures, div_ensures, mul_ensures, sub_ensures};

verus! {

/// The meaning of scalar arithmetic.
///
/// Each operation has a default: the value that vstd's relation for the
/// corresponding machine operation picks out. A verified type replaces the defaults
/// by definitions of its own; a type of ordinary Rust keeps them.
pub trait Arith: Sized {
    /// `self + rhs`.
    open spec fn plus(self, rhs: Self) -> Self {
        choose|r: Self| add_ensures::<Self>(self, rhs, r)
    }

    /// `self - rhs`.
    open spec fn minus(self, rhs: Self) -> Self {
        choose|r: Self| sub_ensures::<Self>(self, rhs, r)
    }

    /// `self * rhs`.
    open spec fn times(self, rhs: Self) -> Self {
        choose|r: Self| mul_ensures::<Self>(self, rhs, r)
    }

    /// `self / rhs`.
    open spec fn over(self, rhs: Self) -> Self {
        choose|r: Self| div_ensures::<Self>(self, rhs, r)
    }

    /// `self == rhs`.
    open spec fn same(self, rhs: Self) -> bool {
        choose|b: bool| eq_ensures::<Self>(self, rhs, b)
    }

    /// `self < rhs`.
    open spec fn below(self, rhs: Self) -> bool {
        choose|b: bool| lt_ensures::<Self>(self, rhs, b)
    }

    /// `self >= rhs`. Not the negation of `below` where an operand has no order, as a
    /// NaN has none.
    open spec fn reaches(self, rhs: Self) -> bool {
        choose|b: bool| ge_ensures::<Self>(self, rhs, b)
    }

    /// The scalar nearest to a pixel index.
    open spec fn of_index(n: usize) -> Self {
        choose|r: Self| float_cast_spec::<usize, Self>(n, r)
    }

    /// The integral part, as a pixel index.
    open spec fn index(self) -> usize {
        choose|n: usize| float_cast_spec::<Self, usize>(self, n)
    }
}

/// The scalar 0.
pub open spec fn nought<A: Arith>() -> A {
    A::of_index(0)
}

/// The scalar 1.
pub open spec fn unit<A: Arith>() -> A {
    A::of_index(1)
}

/// Executable scalar arithmetic, as samples and matrix entries have it.
///
/// The operations are functions of their operands. For binary floating point this
/// takes all NaNs as one value, for which many bit patterns stand. The warp is verified
/// for every type that keeps the contracts; [`Fixed`](crate::fixed::Fixed) is one of
/// which that is proved.
pub trait Scalar: Arith + Copy {
    /// The scalar that a pattern of four bytes stands for.
    open spec fn of_bits(w: u32) -> Self {
        choose|r: Self| float_cast_spec::<u32, Self>(w, r)
    }

    fn add(self, rhs: Self) -> (r: Self)
        ensures
            r == self.plus(rhs),
    ;

    fn sub(self, rhs: Self) -> (r: Self)
        ensures
            r == self.minus(rhs),
    ;

    fn mul(self, rhs: Self) -> (r: Self)
        ensures
            r == self.times(rhs),
    ;

    fn div(self, rhs: Self) -> (r: Self)
        ensures
            r == self.over(rhs),
    ;

    fn equals(self, rhs: Self) -> (r: bool)
        ensures
            r == self.same(rhs),
    ;

    fn less_than(self, rhs: Self) -> (r: bool)
        ensures
            r == self.below(rhs),
    ;

    fn at_least(self, rhs: Self) -> (r: bool)
        ensures
            r == self.reaches(rhs),
    ;

    fn from_index(n: usize) -> (r: Self)
        ensures
            r == Self::of_index(n),
    ;

    /// The integral part. For a scalar from 0 up to, and not including, an index `n`
    /// it is less than `n`: also where `n` is rounded up to a scalar, as the scalar
    /// before that one is less than `n`. A scalar without order has an integral part
    /// less than every `n` but 0.
    fn to_index(self) -> (r: usize)
        ensures
            r == self.index(),
            forall|n: usize|
                self.reaches(nought()) && self.below(#[trigger] Self::of_index(n)) ==> r < n,
            forall|n: usize|
                n > 0 && !self.below(nought()) && !self.reaches(#[trigger] Self::of_index(n))
                    ==> r < n,
    ;

    /// A pattern of four bytes that stands for the scalar.
    fn to_bits(self) -> (r: u32)
        ensures
            Self::of_bits(r) == self,
    ;

    fn from_bits(w: u32) -> (r: Self)
        ensures
            r == Self::of_bits(w),
    ;
}

/// Exact arithmetic on the real numbers. It exists in specifications only.
#[verifier::ext_equal]
pub struct Exact {
    pub value: real,
}

impl Arith for Exact {
    open spec fn plus(self, rhs: Self) -> Self {
        Exact { value: self.value + rhs.value }
    }

    open spec fn minus(self, rhs: Self) -> Self {
        Exact { value: self.value - rhs.value }
    }

    open spec fn times(self, rhs: Self) -> Self {
        Exact { value: times(self.value, rhs.value) }
    }

    open spec fn over(self, rhs: Self) -> Self {
        Exact { value: over(self.value, rhs.value) }
    }

    open spec fn same(self, rhs: Self) -> bool {
        self.value == rhs.value
    }

    open spec fn below(self, rhs: Self) -> bool {
        self.value < rhs.value
    }

    open spec fn reaches(self, rhs: Self) -> bool {
        self.value >= rhs.value
    }

    open spec fn of_index(n: usize) -> Self {
        Exact { value: n as int as real }
    }

    open spec fn index(self) -> usize {
        self.value.floor() as usize
    }
}

} // verus!
