//! Signed fixed point with sixteen integer and sixteen fractional bits: an arithmetic
//! for machines without floating point, and one of which every operation is verified.

use crate::scalar::{Arith, Scalar};
use crate::warp::ordered;
use vstd::prelude::*;

verus! {

/// The number of steps between two neighbouring integers.
pub const ONE: i64 = 65536;

/// The number `raw / 65536`. Results that do not fit saturate; inexact ones are
/// rounded down.
#[derive(Clone, Copy, Debug, PartialEq, Eq, Structural)]
pub struct Fixed {
    pub raw: i32,
}

/// The value of type `i32` nearest to `v`.
pub open spec fn saturated(v: int) -> i32 {
    if v > i32::MAX {
        i32::MAX
    } else if v < i32::MIN {
        i32::MIN
    } else {
        v as i32
    }
}

/// The greatest integer that is at most `n / d`, for `d` other than 0.
pub open spec fn quotient_down(n: int, d: int) -> int {
    if d > 0 {
        n / d
    } else {
        (-n) / (-d)
    }
}

fn saturate(v: i64) -> (r: i32)
    ensures
        r == saturated(v as int),
{
    if v > i32::MAX as i64 {
        i32::MAX
    } else if v < i32::MIN as i64 {
        i32::MIN
    } else {
        v as i32
    }
}

proof fn lemma_round_down(n: int, d: int)
    requires
        n < 0,
        d > 0,
    ensures
        n / d == -((-n + d - 1) / d),
{
    let q = (-n + d - 1) / d;
    let r = (-n + d - 1) % d;
    vstd::arithmetic::div_mod::lemma_fundamental_div_mod(-n + d - 1, d);
    assert(n == d * (-q) + (d - 1 - r)) by (nonlinear_arith)
        requires
            -n + d - 1 == d * q + r,
    ;
    vstd::arithmetic::div_mod::lemma_fundamental_div_mod_converse(n, d, -q, d - 1 - r);
}

fn divide_down(n: i64, d: i64) -> (r: i64)
    requires
        -0x4000_0000_0000_0000 <= n <= 0x4000_0000_0000_0000,
        -0x1_0000_0000 <= d <= 0x1_0000_0000,
        d != 0,
    ensures
        r == quotient_down(n as int, d as int),
{
    let (m, e): (i64, i64) = if d > 0 {
        (n, d)
    } else {
        (-n, -d)
    };
    if m >= 0 {
        (m as u64 / e as u64) as i64
    } else {
        proof {
            lemma_round_down(m as int, e as int);
        }
        -(((-m + e - 1) as u64 / e as u64) as i64)
    }
}

impl Arith for Fixed {
    open spec fn plus(self, rhs: Self) -> Self {
        Fixed { raw: saturated(self.raw + rhs.raw) }
    }

    open spec fn minus(self, rhs: Self) -> Self {
        Fixed { raw: saturated(self.raw - rhs.raw) }
    }

    open spec fn times(self, rhs: Self) -> Self {
        Fixed { raw: saturated(quotient_down(self.raw * rhs.raw, ONE as int)) }
    }

    /// A quotient by 0 saturates to the side of the dividend; 0 by 0 is 0.
    open spec fn over(self, rhs: Self) -> Self {
        if rhs.raw != 0 {
            Fixed { raw: saturated(quotient_down(self.raw * ONE, rhs.raw as int)) }
        } else if self.raw > 0 {
            Fixed { raw: i32::MAX }
        } else if self.raw < 0 {
            Fixed { raw: i32::MIN }
        } else {
            Fixed { raw: 0 }
        }
    }

    open spec fn same(self, rhs: Self) -> bool {
        self.raw == rhs.raw
    }

    open spec fn below(self, rhs: Self) -> bool {
        self.raw < rhs.raw
    }

    open spec fn reaches(self, rhs: Self) -> bool {
        self.raw >= rhs.raw
    }

    open spec fn of_index(n: usize) -> Self {
        Fixed { raw: saturated(n * ONE) }
    }

    open spec fn index(self) -> usize {
        if self.raw < 0 {
            0
        } else {
            (self.raw as int / ONE as int) as usize
        }
    }
}

impl Scalar for Fixed {
    open spec fn of_bits(w: u32) -> Self {
        Fixed { raw: w as i32 }
    }

    fn add(self, rhs: Self) -> (r: Self) {
        Fixed { raw: saturate(self.raw as i64 + rhs.raw as i64) }
    }

    fn sub(self, rhs: Self) -> (r: Self) {
        Fixed { raw: saturate(self.raw as i64 - rhs.raw as i64) }
    }

    fn mul(self, rhs: Self) -> (r: Self) {
        let (a, b): (i64, i64) = (self.raw as i64, rhs.raw as i64);
        assert(-0x4000_0000_0000_0000 <= a * b <= 0x4000_0000_0000_0000) by (nonlinear_arith)
            requires
                -0x8000_0000 <= a <= 0x8000_0000,
                -0x8000_0000 <= b <= 0x8000_0000,
        ;
        Fixed { raw: saturate(divide_down(a * b, ONE)) }
    }

    fn div(self, rhs: Self) -> (r: Self) {
        if rhs.raw != 0 {
            Fixed { raw: saturate(divide_down(self.raw as i64 * ONE, rhs.raw as i64)) }
        } else if self.raw > 0 {
            Fixed { raw: i32::MAX }
        } else if self.raw < 0 {
            Fixed { raw: i32::MIN }
        } else {
            Fixed { raw: 0 }
        }
    }

    fn equals(self, rhs: Self) -> (r: bool) {
        self.raw == rhs.raw
    }

    fn less_than(self, rhs: Self) -> (r: bool) {
        self.raw < rhs.raw
    }

    fn at_least(self, rhs: Self) -> (r: bool) {
        self.raw >= rhs.raw
    }

    fn from_index(n: usize) -> (r: Self) {
        if n > 32767 {
            Fixed { raw: i32::MAX }
        } else {
            Fixed { raw: n as i32 * 65536 }
        }
    }

    fn to_index(self) -> (r: usize) {
        if self.raw < 0 {
            0
        } else {
            (self.raw as u32 / 65536) as usize
        }
    }

    fn to_bits(self) -> (r: u32) {
        let raw: i32 = self.raw;
        assert((raw as u32) as i32 == raw) by (bit_vector);
        raw as u32
    }

    fn from_bits(w: u32) -> (r: Self) {
        Fixed { raw: w as i32 }
    }
}

/// Only one bit pattern stands for a number.
pub proof fn fixed_bits_law(v: u32, w: u32)
    requires
        Fixed::of_bits(v) == Fixed::of_bits(w),
    ensures
        v == w,
{
    assert(v as i32 == w as i32 ==> v == w) by (bit_vector);
}

/// Every point has an order.
pub proof fn fixed_order_law(x: Fixed, y: Fixed, width: usize, height: usize)
    ensures
        ordered(x, y, width, height),
{
}

} // verus!
