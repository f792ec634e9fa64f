//! What fixed point makes of numbers, and how near interpolation in it comes to the mean
//! that it stands for.

use crate::fixed::{quotient_down, Fixed};
use crate::image::InterpolationMode;
use crate::interpolation::{interpolated, mix};
use crate::outcome::{next, pixel};
use crate::scalar::{unit, Arith};
use vstd::arithmetic::div_mod::lemma_fundamental_div_mod;
use vstd::arithmetic::mul::{lemma_mul_is_associative, lemma_mul_is_distributive_add_other_way};
use vstd::prelude::*;

verus! {

/// Sums and differences are exact where they fit, and the nearest bound where not.
pub proof fn fixed_sum_law(a: Fixed, b: Fixed)
    ensures
        i32::MIN <= a.raw + b.raw <= i32::MAX ==> a.plus(b).raw == a.raw + b.raw,
        a.raw + b.raw > i32::MAX ==> a.plus(b).raw == i32::MAX,
        a.raw + b.raw < i32::MIN ==> a.plus(b).raw == i32::MIN,
        i32::MIN <= a.raw - b.raw <= i32::MAX ==> a.minus(b).raw == a.raw - b.raw,
        a.raw - b.raw > i32::MAX ==> a.minus(b).raw == i32::MAX,
        a.raw - b.raw < i32::MIN ==> a.minus(b).raw == i32::MIN,
{
}

/// A product is the greatest number that is not above it, where that fits, and the
/// nearest bound where not.
pub proof fn fixed_product_law(a: Fixed, b: Fixed)
    ensures
        ({
            let (r, p) = (a.times(b).raw, a.raw * b.raw);
            &&& 65536 * i32::MIN <= p < 65536 * (i32::MAX + 1) ==> 65536 * r <= p < 65536 * (r + 1)
            &&& p >= 65536 * (i32::MAX + 1) ==> r == i32::MAX
            &&& p < 65536 * i32::MIN ==> r == i32::MIN
        }),
{
}

/// The number with the other sign.
pub open spec fn negative(a: Fixed) -> Fixed {
    Fixed { raw: (-a.raw) as i32 }
}

/// A quotient by a positive number is the greatest number that is not above it, where
/// that fits, and the nearest bound where not; the quotient by the negative of a divisor
/// is that of the negative dividend.
pub proof fn fixed_quotient_law(a: Fixed, b: Fixed)
    requires
        b.raw > 0,
    ensures
        ({
            let (r, n) = (a.over(b).raw, a.raw * 65536);
            &&& b.raw * i32::MIN <= n < b.raw * (i32::MAX + 1) ==> b.raw * r <= n < b.raw * (r + 1)
            &&& n >= b.raw * (i32::MAX + 1) ==> r == i32::MAX
            &&& n < b.raw * i32::MIN ==> r == i32::MIN
        }),
        a.raw > i32::MIN ==> negative(a).over(negative(b)) == a.over(b),
{
    let (n, d) = (a.raw * 65536, b.raw as int);
    let q = n / d;
    lemma_fundamental_div_mod(n, d);
    let (lo, hi) = (i32::MIN as int, i32::MAX as int);
    assert(n >= d * lo ==> q >= lo) by (nonlinear_arith)
        requires
            n == d * q + n % d,
            0 <= n % d < d,
    ;
    assert(n < d * (hi + 1) ==> q <= hi) by (nonlinear_arith)
        requires
            n == d * q + n % d,
            0 <= n % d < d,
    ;
    assert(n >= d * (hi + 1) ==> q > hi) by (nonlinear_arith)
        requires
            n == d * q + n % d,
            0 <= n % d < d,
    ;
    assert(n < d * lo ==> q < lo) by (nonlinear_arith)
        requires
            n == d * q + n % d,
            0 <= n % d < d,
    ;
    assert(d * q <= n < d * (q + 1)) by (nonlinear_arith)
        requires
            n == d * q + n % d,
            0 <= n % d < d,
    ;
}

/// The integral part of a number that is not negative, and the number of an index.
pub proof fn fixed_index_law(x: Fixed, n: usize)
    ensures
        x.raw >= 0 ==> 65536 * x.index() <= x.raw < 65536 * (x.index() + 1),
        x.raw < 0 ==> x.index() == 0,
        n <= 32767 ==> Fixed::of_index(n).raw == 65536 * n,
        n > 32767 ==> Fixed::of_index(n).raw == i32::MAX,
{
}

proof fn lemma_fixed_mix(a: Fixed, b: Fixed, t: Fixed)
    requires
        0 <= t.raw < 65536,
    ensures
        ({
            let (r, e) = (mix(a, b, t).raw, a.raw * (65536 - t.raw) + b.raw * t.raw);
            e - 2 * 65536 < 65536 * r <= e
        }),
{
    let (s, u) = (65536 - t.raw, t.raw as int);
    let (x, y) = (a.raw as int, b.raw as int);
    assert(unit::<Fixed>().minus(t).raw == s);
    let (lo, hi) = (i32::MIN as int, i32::MAX as int);
    assert(lo * s <= x * s <= hi * s && lo * u <= y * u <= hi * u) by (nonlinear_arith)
        requires
            lo <= x <= hi,
            lo <= y <= hi,
            s >= 0,
            u >= 0,
    ;
    assert(lo * s + lo * u == lo * 65536 && hi * s + hi * u == hi * 65536) by (nonlinear_arith)
        requires
            s + u == 65536,
    ;
    let (f, g) = (quotient_down(x * s, 65536), quotient_down(y * u, 65536));
    assert(lo * 65536 <= lo * s && hi * s <= hi * 65536);
    assert(lo <= f <= hi && lo <= g <= hi);
    assert(a.times(unit::<Fixed>().minus(t)).raw == f);
    assert(b.times(t).raw == g);
}

/// In fixed point bilinear interpolation at the point `(x, y)`, in the square with the
/// pixel in column `i` and row `j` at its upper left, comes within four steps below the
/// mean of the pixels at its corners by area, and not above it. At the right and lower
/// edge the pixels of the edge stand for those beyond it.
pub proof fn fixed_area_law(
    src: Seq<Fixed>,
    width: usize,
    height: usize,
    channels: usize,
    x: Fixed,
    y: Fixed,
    i: int,
    j: int,
    k: int,
)
    requires
        0 <= i < width,
        0 <= j < height,
        65536 * i <= x.raw < 65536 * (i + 1),
        65536 * j <= y.raw < 65536 * (j + 1),
    ensures
        ({
            let (w, h, c) = (width as int, height as int, channels as int);
            let (i1, j1) = (next(i, w), next(j, h));
            let (s, t) = (x.raw - 65536 * i, y.raw - 65536 * j);
            let mean = pixel(src, w, c, i, j, k).raw * ((65536 - s) * (65536 - t)) + pixel(
                src,
                w,
                c,
                i1,
                j,
                k,
            ).raw * (s * (65536 - t)) + pixel(src, w, c, i, j1, k).raw * ((65536 - s) * t) + pixel(
                src,
                w,
                c,
                i1,
                j1,
                k,
            ).raw * (s * t);
            let r = interpolated(src, w, h, c, x, y, k, InterpolationMode::Bilinear).raw;
            mean - 4 * 0x1_0000_0000 < 0x1_0000_0000 * r <= mean
        }),
{
    let (w, h, c) = (width as int, height as int, channels as int);
    let (i1, j1) = (next(i, w), next(j, h));
    let (dx, dy) = (x.minus(Fixed::of_index(x.index())), y.minus(Fixed::of_index(y.index())));
    let (s, t) = (x.raw - 65536 * i, y.raw - 65536 * j);
    assert(x.index() == i && y.index() == j);
    assert(dx.raw == s && dy.raw == t);
    let (v00, v10) = (pixel(src, w, c, i, j, k), pixel(src, w, c, i1, j, k));
    let (v01, v11) = (pixel(src, w, c, i, j1, k), pixel(src, w, c, i1, j1, k));
    let (upper, lower) = (mix(v00, v10, dx), mix(v01, v11, dx));
    lemma_fixed_mix(v00, v10, dx);
    lemma_fixed_mix(v01, v11, dx);
    lemma_fixed_mix(upper, lower, dy);
    let (p, q) = (65536 - s, 65536 - t);
    let (e, f) = (v00.raw * p + v10.raw * s, v01.raw * p + v11.raw * s);
    let (a, b) = (upper.raw as int, lower.raw as int);
    let r = mix(upper, lower, dy).raw as int;
    assert((e - 2 * 65536) * q <= (65536 * a) * q <= e * q) by (nonlinear_arith)
        requires
            e - 2 * 65536 <= 65536 * a <= e,
            q >= 0,
    ;
    assert((f - 2 * 65536) * t <= (65536 * b) * t <= f * t) by (nonlinear_arith)
        requires
            f - 2 * 65536 <= 65536 * b <= f,
            t >= 0,
    ;
    assert((e - 2 * 65536) * q == e * q - 2 * 65536 * q && (f - 2 * 65536) * t == f * t - 2 * 65536
        * t) by (nonlinear_arith);
    assert((65536 * a) * q == 65536 * (a * q) && (65536 * b) * t == 65536 * (b * t))
        by (nonlinear_arith);
    lemma_mul_is_distributive_add_other_way(q, v00.raw * p, v10.raw * s);
    lemma_mul_is_distributive_add_other_way(t, v01.raw * p, v11.raw * s);
    lemma_mul_is_associative(v00.raw as int, p, q);
    lemma_mul_is_associative(v10.raw as int, s, q);
    lemma_mul_is_associative(v01.raw as int, p, t);
    lemma_mul_is_associative(v11.raw as int, s, t);
    assert(interpolated(src, w, h, c, x, y, k, InterpolationMode::Bilinear).raw == r);
}

} // verus!
