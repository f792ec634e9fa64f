//! What comes of a warp, in numbers: laws that speak of samples, points and distances,
//! and not of the steps by which a warp gets there.

use crate::algebra::{
    lemma_associates, lemma_commutes, lemma_constants, lemma_distributes, lemma_product,
    lemma_product_over, lemma_sum_expands, lemma_volume_expands, of_int, times, triple,
};
use crate::fixed::Fixed;
use crate::gpu::{after_thread, kernel_image, outside, source_point, GpuWarpContext};
use crate::image::{
    lemma_offset_in_range, lemma_place_of_sample, lemma_sample_place, InterpolationMode,
};
use crate::interpolation::{inside, interpolated, nearest_index, neighbour};
use crate::laws::{distance, fixed_distance, fixed_nearest_law, nearest_law, range_law};
use crate::matrix::{
    determinant, inverse, lemma_determinant_is_volume, line, round_trip_law, row_at, singular,
    transformed,
};
use crate::scalar::{Arith, Exact};
use crate::warp::warped;
use vstd::arithmetic::mul::lemma_mul_is_commutative;
use vstd::prelude::*;

verus! {

/// The sample of channel `k` in column `i` and row `j`.
pub open spec fn pixel<A>(src: Seq<A>, width: int, channels: int, i: int, j: int, k: int) -> A {
    src[(j * width + i) * channels + k]
}

/// The mean of four numbers at the corners of a square of side 1, at the distance `s`
/// from its left and `t` from its upper side: each counts as the area of the rectangle
/// between the point and the opposite corner.
pub open spec fn by_area(
    upper: (real, real),
    lower: (real, real),
    s: real,
    t: real,
) -> real {
    upper.0 * (((1 as real) - s) * ((1 as real) - t)) + upper.1 * (s * ((1 as real) - t)) + lower.0
        * (((1 as real) - s) * t) + lower.1 * (s * t)
}

/// `i + 1`, or `i` where that is the last of `bound` indices.
pub open spec fn next(i: int, bound: int) -> int {
    if i + 1 < bound {
        i + 1
    } else {
        i
    }
}

proof fn lemma_by_area(a: real, b: real, c: real, d: real, s: real, t: real)
    ensures
        times(times(a, (1 as real) - s) + times(b, s), (1 as real) - t) + times(
            times(c, (1 as real) - s) + times(d, s),
            t,
        ) == by_area((a, b), (c, d), s, t),
{
    let (p, q) = ((1 as real) - s, (1 as real) - t);
    lemma_pair_expands(times(a, p), times(b, s), q);
    lemma_pair_expands(times(c, p), times(d, s), t);
    lemma_associates(a, p, q);
    lemma_associates(b, s, q);
    lemma_associates(c, p, t);
    lemma_associates(d, s, t);
    lemma_product(p, q);
    lemma_product(s, q);
    lemma_product(p, t);
    lemma_product(s, t);
    lemma_product(a, p * q);
    lemma_product(b, s * q);
    lemma_product(c, p * t);
    lemma_product(d, s * t);
}

proof fn lemma_pair_expands(a: real, b: real, x: real)
    ensures
        times(a + b, x) == times(a, x) + times(b, x),
{
    lemma_sum_expands(a, b, 0 as real, x);
    lemma_constants(x);
    lemma_commutes(x, 0 as real);
}

/// In exact arithmetic bilinear interpolation at the point `(x, y)`, in the square with
/// the pixel in column `i` and row `j` at its upper left, is the mean of the pixels at its
/// corners by area. At the right and lower edge the pixels of the edge stand for those
/// beyond it.
pub proof fn bilinear_area_law(
    src: Seq<Exact>,
    width: usize,
    height: usize,
    channels: usize,
    x: Exact,
    y: Exact,
    i: int,
    j: int,
    k: int,
)
    requires
        0 <= i < width,
        0 <= j < height,
        of_int(i) <= x.value < of_int(i + 1),
        of_int(j) <= y.value < of_int(j + 1),
    ensures
        ({
            let (w, h, c) = (width as int, height as int, channels as int);
            let (i1, j1) = (next(i, w), next(j, h));
            interpolated(src, w, h, c, x, y, k, InterpolationMode::Bilinear).value == by_area(
                (pixel(src, w, c, i, j, k).value, pixel(src, w, c, i1, j, k).value),
                (pixel(src, w, c, i, j1, k).value, pixel(src, w, c, i1, j1, k).value),
                x.value - of_int(i),
                y.value - of_int(j),
            )
        }),
{
    let (w, c) = (width as int, channels as int);
    let (i1, j1) = (next(i, w), next(j, height as int));
    assert(x.value.floor() == i && y.value.floor() == j);
    assert(x.index() == i && y.index() == j);
    lemma_by_area(
        pixel(src, w, c, i, j, k).value,
        pixel(src, w, c, i1, j, k).value,
        pixel(src, w, c, i, j1, k).value,
        pixel(src, w, c, i1, j1, k).value,
        x.value - of_int(i),
        y.value - of_int(j),
    );
}

/// The surface `p + q * x + r * y + s * x * y`.
pub open spec fn surface(p: real, q: real, r: real, s: real, x: real, y: real) -> real {
    p + q * x + r * y + s * (x * y)
}

proof fn lemma_surface_steps(p: real, q: real, r: real, s: real, x: real, y: real, d: real)
    ensures
        surface(p, q, r, s, x + d, y) == surface(p, q, r, s, x, y) + times(q + times(s, y), d),
        surface(p, q, r, s, x, y + d) == surface(p, q, r, s, x, y) + times(r + times(s, x), d),
{
    lemma_product(q, x + d);
    lemma_product(q, x);
    lemma_product(r, y);
    lemma_product(r, y + d);
    lemma_product(x + d, y);
    lemma_product(x, y + d);
    lemma_product(x, y);
    lemma_product(s, times(x + d, y));
    lemma_product(s, times(x, y + d));
    lemma_product(s, times(x, y));
    lemma_distributes(q, x, d);
    lemma_distributes(r, y, d);
    lemma_pair_expands(x, d, y);
    lemma_distributes(x, y, d);
    lemma_distributes(s, times(x, y), times(d, y));
    lemma_distributes(s, times(x, y), times(x, d));
    lemma_pair_expands(q, times(s, y), d);
    lemma_pair_expands(r, times(s, x), d);
    lemma_associates(s, y, d);
    lemma_associates(s, x, d);
    lemma_commutes(y, d);
}

/// In exact arithmetic bilinear interpolation is exact on every surface
/// `p + q * x + r * y + s * x * y`, at every point between the centres of pixels.
pub proof fn bilinear_surface_law(
    src: Seq<Exact>,
    width: usize,
    height: usize,
    channels: usize,
    x: Exact,
    y: Exact,
    k: int,
    p: real,
    q: real,
    r: real,
    s: real,
)
    requires
        forall|i: int, j: int|
            0 <= i < width && 0 <= j < height ==> (#[trigger] pixel(
                src,
                width as int,
                channels as int,
                i,
                j,
                k,
            )).value == surface(p, q, r, s, of_int(i), of_int(j)),
        (0 as real) <= x.value < of_int(width - 1),
        (0 as real) <= y.value < of_int(height - 1),
    ensures
        interpolated(
            src,
            width as int,
            height as int,
            channels as int,
            x,
            y,
            k,
            InterpolationMode::Bilinear,
        ).value == surface(p, q, r, s, x.value, y.value),
{
    let (w, c) = (width as int, channels as int);
    let (i, j) = (x.value.floor(), y.value.floor());
    let (u, v) = (of_int(i), of_int(j));
    let (dx, dy) = (x.value - u, y.value - v);
    let one = 1 as real;
    assert(0 <= i && i + 1 < width && 0 <= j && j + 1 < height);
    bilinear_area_law(src, width, height, channels, x, y, i, j, k);
    let (v00, v10) = (pixel(src, w, c, i, j, k).value, pixel(src, w, c, i + 1, j, k).value);
    let (v01, v11) = (pixel(src, w, c, i, j + 1, k).value, pixel(src, w, c, i + 1, j + 1, k).value);
    assert(of_int(i + 1) == u + one && of_int(j + 1) == v + one);
    lemma_by_area(v00, v10, v01, v11, dx, dy);
    lemma_surface_between(p, q, r, s, u, v, dx);
    lemma_surface_between(p, q, r, s, u, v + one, dx);
    let (upper, lower) = (surface(p, q, r, s, x.value, v), surface(p, q, r, s, x.value, v + one));
    assert(times(v00, one - dx) + times(v10, dx) == upper);
    assert(times(v01, one - dx) + times(v11, dx) == lower);
    lemma_surface_steps(p, q, r, s, x.value, v, one);
    lemma_surface_steps(p, q, r, s, x.value, v, dy);
    lemma_between(upper, r + times(s, x.value), dy);
    lemma_constants(r + times(s, x.value));
}

proof fn lemma_between(a: real, d: real, t: real)
    ensures
        times(a, (1 as real) - t) + times(a + d, t) == a + times(d, t),
{
    lemma_distributes(a, 1 as real, t);
    lemma_constants(a);
    lemma_pair_expands(a, d, t);
}

proof fn lemma_surface_between(p: real, q: real, r: real, s: real, x: real, y: real, t: real)
    ensures
        times(surface(p, q, r, s, x, y), (1 as real) - t) + times(
            surface(p, q, r, s, x + (1 as real), y),
            t,
        ) == surface(p, q, r, s, x + t, y),
{
    let d = q + times(s, y);
    lemma_surface_steps(p, q, r, s, x, y, 1 as real);
    lemma_surface_steps(p, q, r, s, x, y, t);
    lemma_constants(d);
    lemma_between(surface(p, q, r, s, x, y), d, t);
}

/// No index below `bound` is nearer to `x` than `i`, and none that is as near is greater.
pub open spec fn is_nearest(x: real, i: int, bound: int) -> bool {
    &&& 0 <= i < bound
    &&& forall|a: int|
        0 <= a < bound ==> {
            &&& distance(x, of_int(i)) <= distance(x, #[trigger] of_int(a))
            &&& distance(x, of_int(i)) == distance(x, of_int(a)) ==> a <= i
        }
}

/// In exact arithmetic nearest mode gives, at a point inside the image, the sample of the
/// pixel in the nearest column and the nearest row.
pub proof fn nearest_sample_law(
    src: Seq<Exact>,
    width: usize,
    height: usize,
    channels: usize,
    x: Exact,
    y: Exact,
    i: int,
    j: int,
    k: int,
)
    requires
        (0 as real) <= x.value < of_int(width as int),
        (0 as real) <= y.value < of_int(height as int),
        is_nearest(x.value, i, width as int),
        is_nearest(y.value, j, height as int),
    ensures
        interpolated(
            src,
            width as int,
            height as int,
            channels as int,
            x,
            y,
            k,
            InterpolationMode::Nearest,
        ) == pixel(src, width as int, channels as int, i, j, k),
{
    nearest_law(x, width, i);
    nearest_law(y, height, j);
    let (a, b) = (nearest_index(x, width as int), nearest_index(y, height as int));
    assert(distance(x.value, of_int(i)) <= distance(x.value, of_int(a)));
    assert(distance(y.value, of_int(j)) <= distance(y.value, of_int(b)));
    assert(a == i && b == j);
}

/// No index below `bound` is nearer to `x` than `i`, and none that is as near is greater.
pub open spec fn is_fixed_nearest(x: Fixed, i: int, bound: int) -> bool {
    &&& 0 <= i < bound
    &&& forall|a: int|
        0 <= a < bound ==> {
            &&& fixed_distance(x, i) <= #[trigger] fixed_distance(x, a)
            &&& fixed_distance(x, i) == fixed_distance(x, a) ==> a <= i
        }
}

/// In fixed point nearest mode gives, at a point inside the image, the sample of the
/// pixel in the nearest column and the nearest row.
pub proof fn fixed_nearest_sample_law(
    src: Seq<Fixed>,
    width: usize,
    height: usize,
    channels: usize,
    x: Fixed,
    y: Fixed,
    i: int,
    j: int,
    k: int,
)
    requires
        0 <= x.raw < 65536 * width,
        0 <= y.raw < 65536 * height,
        x.raw < i32::MAX && y.raw < i32::MAX,
        is_fixed_nearest(x, i, width as int),
        is_fixed_nearest(y, j, height as int),
    ensures
        interpolated(
            src,
            width as int,
            height as int,
            channels as int,
            x,
            y,
            k,
            InterpolationMode::Nearest,
        ) == pixel(src, width as int, channels as int, i, j, k),
{
    fixed_nearest_law(x, width, i);
    fixed_nearest_law(y, height, j);
    let (a, b) = (nearest_index(x, width as int), nearest_index(y, height as int));
    assert(fixed_distance(x, i) <= fixed_distance(x, a));
    assert(fixed_distance(y, j) <= fixed_distance(y, b));
    assert(a == i && b == j);
}

/// In exact arithmetic a point is inside an image where neither coordinate is negative
/// and both are less than the sides, and nowhere else.
pub proof fn inside_law(x: Exact, y: Exact, width: usize, height: usize)
    ensures
        inside(x, y, width, height) <==> (0 as real) <= x.value < of_int(width as int) && (
        0 as real) <= y.value < of_int(height as int),
{
}

/// The determinant of a matrix, as the sum over the six ways to take an entry from each
/// row and each column.
pub open spec fn signed_sum(m: Seq<Exact>) -> real {
    m[0].value * (m[4].value * m[8].value) + m[1].value * (m[5].value * m[6].value) + m[2].value * (
    m[3].value * m[7].value) - m[2].value * (m[4].value * m[6].value) - m[1].value * (m[3].value
        * m[8].value) - m[0].value * (m[5].value * m[7].value)
}

/// In exact arithmetic the determinant is the signed sum of products of entries, and a
/// matrix is singular where that is 0, and nowhere else.
pub proof fn determinant_law(m: Seq<Exact>)
    requires
        m.len() == 9,
    ensures
        determinant(m).value == signed_sum(m),
        singular(m) <==> signed_sum(m) == 0 as real,
{
    let (u, v, w) = (line(m, 0, 1), line(m, 3, 1), line(m, 6, 1));
    lemma_determinant_is_volume(m);
    lemma_volume_expands(u, v, w);
    lemma_triple_product(u.0, v.1, w.2);
    lemma_triple_product(u.0, v.2, w.1);
    lemma_triple_product(u.1, v.2, w.0);
    lemma_triple_product(u.1, v.0, w.2);
    lemma_triple_product(u.2, v.0, w.1);
    lemma_triple_product(u.2, v.1, w.0);
}

proof fn lemma_triple_product(a: real, b: real, c: real)
    ensures
        triple(a, b, c) == a * (b * c),
{
    lemma_product(b, c);
    lemma_product(a, b * c);
}

/// The matrix carries one point to another: what it makes of the coordinates and 1 is a
/// multiple, other than 0, of the coordinates of the other and 1.
pub open spec fn carries(m: Seq<Exact>, from: (real, real), to: (real, real)) -> bool {
    let (u, v) = from;
    let w = m[6].value * u + m[7].value * v + m[8].value;
    &&& w != 0 as real
    &&& m[0].value * u + m[1].value * v + m[2].value == to.0 * w
    &&& m[3].value * u + m[4].value * v + m[5].value == to.1 * w
}

/// In exact arithmetic a point is transformed to where the matrix carries it.
pub proof fn carries_law(m: Seq<Exact>, from: (real, real), to: (real, real))
    requires
        m.len() == 9,
        carries(m, from, to),
    ensures
        transformed(Exact { value: from.0 }, Exact { value: from.1 }, m) == (
            Exact { value: to.0 },
            Exact { value: to.1 },
        ),
{
    let (x, y) = (Exact { value: from.0 }, Exact { value: from.1 });
    lemma_row_value(m, 0, from);
    lemma_row_value(m, 3, from);
    lemma_row_value(m, 6, from);
    let w = row_at(m, 6, x, y).value;
    lemma_product(to.0, w);
    lemma_product(to.1, w);
    lemma_product_over(to.0, w);
    lemma_product_over(to.1, w);
}

proof fn lemma_row_value(m: Seq<Exact>, row: int, at: (real, real))
    ensures
        row_at(m, row, Exact { value: at.0 }, Exact { value: at.1 }).value == m[row].value * at.0
            + m[row + 1].value * at.1 + m[row + 2].value,
{
    lemma_product(m[row].value, at.0);
    lemma_product(m[row + 1].value, at.1);
}

/// `out` is channel `k` of an image at the point `at`, by an offered mode: the mean by
/// area of the pixels around it, or the nearest of all pixels; and `off` where the point
/// is not in the image.
pub open spec fn shows(
    out: Exact,
    off: Exact,
    src: Seq<Exact>,
    width: int,
    height: int,
    channels: int,
    at: (real, real),
    k: int,
    mode: InterpolationMode,
) -> bool {
    let (u, v) = at;
    let here = (0 as real) <= u < of_int(width) && (0 as real) <= v < of_int(height);
    let (i, j) = (u.floor(), v.floor());
    let (i1, j1) = (next(i, width), next(j, height));
    &&& !here ==> out == off
    &&& here && mode is Bilinear ==> out.value == by_area(
        (
            pixel(src, width, channels, i, j, k).value,
            pixel(src, width, channels, i1, j, k).value,
        ),
        (
            pixel(src, width, channels, i, j1, k).value,
            pixel(src, width, channels, i1, j1, k).value,
        ),
        u - of_int(i),
        v - of_int(j),
    )
    &&& here && mode is Nearest ==> forall|a: int, b: int|
        #![trigger pixel(src, width, channels, a, b, k)]
        is_nearest(u, a, width) && is_nearest(v, b, height) ==> out == pixel(
            src,
            width,
            channels,
            a,
            b,
            k,
        )
}

proof fn lemma_shows(
    off: Exact,
    src: Seq<Exact>,
    width: usize,
    height: usize,
    channels: usize,
    at: (real, real),
    k: int,
    mode: InterpolationMode,
)
    ensures
        ({
            let (w, h, c) = (width as int, height as int, channels as int);
            let (x, y) = (Exact { value: at.0 }, Exact { value: at.1 });
            shows(
                if inside(x, y, width, height) {
                    interpolated(src, w, h, c, x, y, k, mode)
                } else {
                    off
                },
                off,
                src,
                w,
                h,
                c,
                at,
                k,
                mode,
            )
        }),
{
    let (w, h, c) = (width as int, height as int, channels as int);
    let (x, y) = (Exact { value: at.0 }, Exact { value: at.1 });
    inside_law(x, y, width, height);
    if inside(x, y, width, height) {
        if mode is Bilinear {
            let (i, j) = (at.0.floor(), at.1.floor());
            assert(of_int(i) <= at.0 < of_int(i + 1) && of_int(j) <= at.1 < of_int(j + 1));
            assert(0 <= i < width && 0 <= j < height);
            bilinear_area_law(src, width, height, channels, x, y, i, j, k);
        }
        if mode is Nearest {
            assert forall|a: int, b: int|
                #![trigger pixel(src, w, c, a, b, k)]
                is_nearest(at.0, a, w) && is_nearest(at.1, b, h) implies interpolated(
                src,
                w,
                h,
                c,
                x,
                y,
                k,
                mode,
            ) == pixel(src, w, c, a, b, k) by {
                nearest_sample_law(src, width, height, channels, x, y, a, b, k);
            }
        }
    }
}

/// In exact arithmetic, by the matrix `inv_m` from output to input: the output pixel in
/// column `to.0` and row `to.1` shows the point that the matrix carries it to, and keeps
/// its samples where that is not in the input image.
pub proof fn pixel_shows_law(
    before: Seq<Exact>,
    src: Seq<Exact>,
    inv_m: Seq<Exact>,
    src_size: (usize, usize),
    dst_size: (usize, usize),
    channels: usize,
    mode: InterpolationMode,
    to: (usize, usize),
    at: (real, real),
    k: int,
)
    requires
        inv_m.len() == 9,
        before.len() == dst_size.0 * dst_size.1 * channels,
        to.0 < dst_size.0,
        to.1 < dst_size.1,
        0 <= k < channels,
        carries(inv_m, (of_int(to.0 as int), of_int(to.1 as int)), at),
    ensures
        ({
            let (sw, sh, dw, c) = (
                src_size.0 as int,
                src_size.1 as int,
                dst_size.0 as int,
                channels as int,
            );
            let after = warped(before, src, inv_m, sw, sh, dw, c, mode);
            &&& after.len() == before.len()
            &&& shows(
                pixel(after, dw, c, to.0 as int, to.1 as int, k),
                pixel(before, dw, c, to.0 as int, to.1 as int, k),
                src,
                sw,
                sh,
                c,
                at,
                k,
                mode,
            )
        }),
{
    let (w, h, c) = (dst_size.0 as int, dst_size.1 as int, channels as int);
    let p = to.1 * w + to.0;
    lemma_offset_in_range(w, h, c, to.0 as int, to.1 as int, k);
    lemma_place_of_sample(p, k, c);
    lemma_place_of_sample(to.1 as int, to.0 as int, w);
    carries_law(inv_m, (of_int(to.0 as int), of_int(to.1 as int)), at);
    assert(source_point(inv_m, w, p) == (Exact { value: at.0 }, Exact { value: at.1 }));
    let off = pixel(before, w, c, to.0 as int, to.1 as int, k);
    lemma_shows(off, src, src_size.0, src_size.1, channels, at, k, mode);
}

/// In exact arithmetic a warp by `m` shows, at the output pixel in column `to.0` and row
/// `to.1`, the point of the input that `m` carries there, and keeps the samples of the
/// pixel where that point is not in the input image.
pub proof fn warp_law(
    before: Seq<Exact>,
    src: Seq<Exact>,
    m: Seq<Exact>,
    src_size: (usize, usize),
    dst_size: (usize, usize),
    channels: usize,
    mode: InterpolationMode,
    to: (usize, usize),
    at: (real, real),
    k: int,
)
    requires
        m.len() == 9,
        signed_sum(m) != 0 as real,
        before.len() == dst_size.0 * dst_size.1 * channels,
        to.0 < dst_size.0,
        to.1 < dst_size.1,
        0 <= k < channels,
        carries(m, at, (of_int(to.0 as int), of_int(to.1 as int))),
    ensures
        !singular(m),
        ({
            let (sw, sh, dw, c) = (
                src_size.0 as int,
                src_size.1 as int,
                dst_size.0 as int,
                channels as int,
            );
            let after = warped(before, src, inverse(m), sw, sh, dw, c, mode);
            &&& after.len() == before.len()
            &&& shows(
                pixel(after, dw, c, to.0 as int, to.1 as int, k),
                pixel(before, dw, c, to.0 as int, to.1 as int, k),
                src,
                sw,
                sh,
                c,
                at,
                k,
                mode,
            )
        }),
{
    let (w, h, c) = (dst_size.0 as int, dst_size.1 as int, channels as int);
    let p = to.1 * w + to.0;
    let (x, y) = (Exact { value: at.0 }, Exact { value: at.1 });
    lemma_offset_in_range(w, h, c, to.0 as int, to.1 as int, k);
    lemma_place_of_sample(p, k, c);
    lemma_place_of_sample(to.1 as int, to.0 as int, w);
    determinant_law(m);
    carries_law(m, at, (of_int(to.0 as int), of_int(to.1 as int)));
    lemma_row_value(m, 6, at);
    round_trip_law(x, y, m);
    assert(source_point(inverse(m), w, p) == (x, y));
    let off = pixel(before, w, c, to.0 as int, to.1 as int, k);
    lemma_shows(off, src, src_size.0, src_size.1, channels, at, k, mode);
}

/// In exact arithmetic, by the matrix `inv_m` from output to input: the thread of the
/// output pixel in column `to.0` and row `to.1` leaves there what the point shows that the
/// matrix carries the pixel to, and 0 where that is not in the input image.
pub proof fn thread_law(
    dst: Seq<Exact>,
    src: Seq<Exact>,
    inv_m: Seq<Exact>,
    src_size: (u32, u32),
    dst_size: (u32, u32),
    channels: u32,
    mode: InterpolationMode,
    to: (u32, u32),
    at: (real, real),
    k: int,
)
    requires
        inv_m.len() == 9,
        dst.len() >= dst_size.0 * dst_size.1 * channels,
        to.0 < dst_size.0,
        to.1 < dst_size.1,
        0 <= k < channels,
        carries(inv_m, (of_int(to.0 as int), of_int(to.1 as int)), at),
    ensures
        ({
            let (sw, sh) = (src_size.0 as int, src_size.1 as int);
            let (dw, dh, c) = (dst_size.0 as int, dst_size.1 as int, channels as int);
            let p = to.1 * dw + to.0;
            let after = after_thread(dst, src, inv_m, sw, sh, dw, dh, c, mode, p);
            shows(
                pixel(after, dw, c, to.0 as int, to.1 as int, k),
                Exact { value: 0 as real },
                src,
                sw,
                sh,
                c,
                at,
                k,
                mode,
            )
        }),
{
    let (w, h, c) = (dst_size.0 as int, dst_size.1 as int, channels as int);
    let (sw, sh) = (src_size.0 as usize, src_size.1 as usize);
    let p = to.1 * w + to.0;
    let (x, y) = (Exact { value: at.0 }, Exact { value: at.1 });
    lemma_offset_in_range(w, h, c, to.0 as int, to.1 as int, k);
    lemma_place_of_sample(to.1 as int, to.0 as int, w);
    carries_law(inv_m, (of_int(to.0 as int), of_int(to.1 as int)), at);
    assert(source_point(inv_m, w, p) == (x, y));
    assert(outside(x, y, sw, sh) == !inside(x, y, sw, sh));
    lemma_shows(Exact { value: 0 as real }, src, sw, sh, channels as usize, at, k, mode);
}

/// In any arithmetic a thread writes the samples of one pixel of the output image, its
/// own, and a thread past the last pixel writes nothing.
pub proof fn thread_writes_law<A: Arith>(
    dst: Seq<A>,
    src: Seq<A>,
    inv_m: Seq<A>,
    src_size: (u32, u32),
    dst_size: (u32, u32),
    channels: u32,
    mode: InterpolationMode,
    p: int,
    j: int,
)
    requires
        0 <= j < dst.len(),
        j < p * channels || j >= p * channels + channels || p >= dst_size.0 * dst_size.1,
    ensures
        ({
            let (sw, sh) = (src_size.0 as int, src_size.1 as int);
            let (dw, dh, c) = (dst_size.0 as int, dst_size.1 as int, channels as int);
            let after = after_thread(dst, src, inv_m, sw, sh, dw, dh, c, mode, p);
            after.len() == dst.len() && after[j] == dst[j]
        }),
{
}

/// In any arithmetic the image of a launch holds, at each pixel, what its thread writes,
/// whatever the thread writes over.
pub proof fn launched_pixel_law<A: Arith>(
    dst: Seq<A>,
    src: Seq<A>,
    inv_m: Seq<A>,
    ctx: GpuWarpContext,
    mode: InterpolationMode,
    p: int,
    k: int,
)
    requires
        dst.len() >= ctx.dst_width * ctx.dst_height * ctx.channels,
        0 <= p < ctx.dst_width * ctx.dst_height,
        0 <= k < ctx.channels,
    ensures
        kernel_image(src, inv_m, ctx, mode).len() == ctx.dst_width * ctx.dst_height * ctx.channels,
        kernel_image(src, inv_m, ctx, mode)[p * ctx.channels + k] == after_thread(
            dst,
            src,
            inv_m,
            ctx.src_width as int,
            ctx.src_height as int,
            ctx.dst_width as int,
            ctx.dst_height as int,
            ctx.channels as int,
            mode,
            p,
        )[p * ctx.channels + k],
{
    let (n, c) = (ctx.dst_width * ctx.dst_height, ctx.channels as int);
    lemma_place_of_sample(p, k, c);
    assert(0 <= p * c && p * c + c <= n * c) by (nonlinear_arith)
        requires
            0 <= p < n,
            0 <= c,
    ;
}

/// The integral part of a coordinate that is inside an image, or that is not off it, is
/// the index of a pixel.
pub open spec fn indexes<A: Arith>() -> bool {
    &&& forall|x: A, n: usize|
        #![trigger x.index(), A::of_index(n)]
        x.reaches(A::of_index(0)) && x.below(A::of_index(n)) ==> x.index() < n
    &&& forall|x: A, n: usize|
        #![trigger x.index(), A::of_index(n)]
        n > 0 && !x.below(A::of_index(0)) && !x.reaches(A::of_index(n)) ==> x.index() < n
}

/// In exact arithmetic and in fixed point the integral part of a coordinate inside an
/// image is the index of a pixel.
pub proof fn indexes_law()
    ensures
        indexes::<Exact>(),
        indexes::<Fixed>(),
{
    assert forall|x: Exact, n: usize|
        #![trigger x.index(), Exact::of_index(n)]
        (0 as real) <= x.value < of_int(n as int) implies x.index() < n by {
        assert(0 <= x.value.floor() < n);
    }
}

/// Two images agree in channel `k`.
pub open spec fn agree<A>(
    s1: Seq<A>,
    s2: Seq<A>,
    width: int,
    height: int,
    channels: int,
    k: int,
) -> bool {
    forall|i: int, j: int|
        0 <= i < width && 0 <= j < height ==> #[trigger] pixel(s1, width, channels, i, j, k)
            == pixel(s2, width, channels, i, j, k)
}

pub proof fn lemma_channel<A: Arith>(
    s1: Seq<A>,
    s2: Seq<A>,
    width: int,
    height: int,
    channels: int,
    x: A,
    y: A,
    k: int,
    mode: InterpolationMode,
)
    requires
        agree(s1, s2, width, height, channels, k),
        x.index() < width,
        y.index() < height,
    ensures
        interpolated(s1, width, height, channels, x, y, k, mode) == interpolated(
            s2,
            width,
            height,
            channels,
            x,
            y,
            k,
            mode,
        ),
{
    let (i, j) = (x.index() as int, y.index() as int);
    let (i1, j1) = (neighbour(i, width), neighbour(j, height));
    let (a, b) = (nearest_index(x, width), nearest_index(y, height));
    assert(pixel(s1, width, channels, i, j, k) == pixel(s2, width, channels, i, j, k));
    assert(pixel(s1, width, channels, i1, j, k) == pixel(s2, width, channels, i1, j, k));
    assert(pixel(s1, width, channels, i, j1, k) == pixel(s2, width, channels, i, j1, k));
    assert(pixel(s1, width, channels, i1, j1, k) == pixel(s2, width, channels, i1, j1, k));
    assert(pixel(s1, width, channels, a, b, k) == pixel(s2, width, channels, a, b, k));
}

/// In any arithmetic a channel of a warped image depends on that channel of the input
/// image alone, at every point and by every mode.
pub proof fn channel_law<A: Arith>(
    before1: Seq<A>,
    before2: Seq<A>,
    s1: Seq<A>,
    s2: Seq<A>,
    inv_m: Seq<A>,
    src_size: (usize, usize),
    dst_width: int,
    channels: usize,
    mode: InterpolationMode,
    p: int,
    k: int,
)
    requires
        indexes::<A>(),
        agree(s1, s2, src_size.0 as int, src_size.1 as int, channels as int, k),
        0 <= p,
        0 <= k < channels,
        p * channels + k < before1.len(),
        p * channels + k < before2.len(),
        before1[p * channels + k] == before2[p * channels + k],
    ensures
        ({
            let (w, h, c) = (src_size.0 as int, src_size.1 as int, channels as int);
            warped(before1, s1, inv_m, w, h, dst_width, c, mode)[p * channels + k] == warped(
                before2,
                s2,
                inv_m,
                w,
                h,
                dst_width,
                c,
                mode,
            )[p * channels + k]
        }),
{
    let (w, h, c) = (src_size.0 as int, src_size.1 as int, channels as int);
    let (x, y) = source_point(inv_m, dst_width, p);
    lemma_place_of_sample(p, k, c);
    assert(0 <= p * c) by (nonlinear_arith)
        requires
            0 <= p,
            0 <= c,
    ;
    if inside(x, y, src_size.0, src_size.1) {
        assert(x.index() < src_size.0 && y.index() < src_size.1);
        lemma_channel(s1, s2, w, h, c, x, y, k, mode);
    }
}

/// In any arithmetic a channel of what a thread writes depends on that channel of the
/// input image alone, at every point and by every mode.
pub proof fn thread_channel_law<A: Arith>(
    dst1: Seq<A>,
    dst2: Seq<A>,
    s1: Seq<A>,
    s2: Seq<A>,
    inv_m: Seq<A>,
    src_size: (u32, u32),
    dst_size: (u32, u32),
    channels: u32,
    mode: InterpolationMode,
    p: int,
    k: int,
)
    requires
        indexes::<A>(),
        src_size.0 > 0,
        src_size.1 > 0,
        agree(s1, s2, src_size.0 as int, src_size.1 as int, channels as int, k),
        0 <= p < dst_size.0 * dst_size.1,
        0 <= k < channels,
        dst1.len() >= dst_size.0 * dst_size.1 * channels,
        dst2.len() >= dst_size.0 * dst_size.1 * channels,
    ensures
        ({
            let (w, h) = (src_size.0 as int, src_size.1 as int);
            let (dw, dh, c) = (dst_size.0 as int, dst_size.1 as int, channels as int);
            after_thread(dst1, s1, inv_m, w, h, dw, dh, c, mode, p)[p * channels + k]
                == after_thread(dst2, s2, inv_m, w, h, dw, dh, c, mode, p)[p * channels + k]
        }),
{
    let (w, h, c) = (src_size.0 as int, src_size.1 as int, channels as int);
    let n = dst_size.0 * dst_size.1;
    let (x, y) = source_point(inv_m, dst_size.0 as int, p);
    let (ww, hh) = (src_size.0 as usize, src_size.1 as usize);
    assert(0 <= p * c && p * c + c <= n * c) by (nonlinear_arith)
        requires
            0 <= p < n,
            0 <= c,
    ;
    if !outside(x, y, ww, hh) {
        assert(x.index() < ww && y.index() < hh);
        lemma_channel(s1, s2, w, h, c, x, y, k, mode);
    }
}

/// In exact arithmetic no sample of a warped image is below the least or above the
/// greatest sample of the same channel of the input image, but for those that keep what
/// they were.
pub proof fn image_range_law(
    before: Seq<Exact>,
    src: Seq<Exact>,
    inv_m: Seq<Exact>,
    src_size: (usize, usize),
    dst_width: int,
    channels: usize,
    mode: InterpolationMode,
    p: int,
    k: int,
    lo: real,
    hi: real,
)
    requires
        src.len() == src_size.0 * src_size.1 * channels,
        0 <= p,
        0 <= k < channels,
        p * channels + k < before.len(),
        forall|i: int, j: int|
            0 <= i < src_size.0 && 0 <= j < src_size.1 ==> lo <= (#[trigger] pixel(
                src,
                src_size.0 as int,
                channels as int,
                i,
                j,
                k,
            )).value <= hi,
    ensures
        ({
            let (w, h, c) = (src_size.0 as int, src_size.1 as int, channels as int);
            let after = warped(before, src, inv_m, w, h, dst_width, c, mode)[p * channels + k];
            after == before[p * channels + k] || lo <= after.value <= hi
        }),
{
    let (w, h, c) = (src_size.0 as int, src_size.1 as int, channels as int);
    let (x, y) = source_point(inv_m, dst_width, p);
    lemma_place_of_sample(p, k, c);
    assert(0 <= p * c) by (nonlinear_arith)
        requires
            0 <= p,
            0 <= c,
    ;
    if inside(x, y, src_size.0, src_size.1) {
        lemma_channel_bounds(src, src_size, channels, k, lo, hi);
        range_law(src, src_size.0, src_size.1, channels, x, y, k, mode, lo, hi);
    }
}

proof fn lemma_channel_bounds(
    src: Seq<Exact>,
    src_size: (usize, usize),
    channels: usize,
    k: int,
    lo: real,
    hi: real,
)
    requires
        forall|i: int, j: int|
            0 <= i < src_size.0 && 0 <= j < src_size.1 ==> lo <= (#[trigger] pixel(
                src,
                src_size.0 as int,
                channels as int,
                i,
                j,
                k,
            )).value <= hi,
    ensures
        forall|p: int|
            0 <= p < src_size.0 * src_size.1 ==> lo <= (#[trigger] src[p * channels + k]).value
                <= hi,
{
    let (w, h, c) = (src_size.0 as int, src_size.1 as int, channels as int);
    assert forall|p: int| 0 <= p < w * h implies lo <= (#[trigger] src[p * channels + k]).value
        <= hi by {
        lemma_mul_is_commutative(w, h);
        lemma_sample_place(p, h, w);
        assert(lo <= pixel(src, w, c, p % w, p / w, k).value <= hi);
    }
}

/// In exact arithmetic no sample that a thread writes is below the least or above the
/// greatest sample of the same channel of the input image, but for the 0 of a pixel that
/// shows no point of it.
pub proof fn thread_range_law(
    dst: Seq<Exact>,
    src: Seq<Exact>,
    inv_m: Seq<Exact>,
    src_size: (u32, u32),
    dst_size: (u32, u32),
    channels: u32,
    mode: InterpolationMode,
    p: int,
    k: int,
    lo: real,
    hi: real,
)
    requires
        src.len() == src_size.0 * src_size.1 * channels,
        dst.len() >= dst_size.0 * dst_size.1 * channels,
        0 <= p < dst_size.0 * dst_size.1,
        0 <= k < channels,
        forall|i: int, j: int|
            0 <= i < src_size.0 && 0 <= j < src_size.1 ==> lo <= (#[trigger] pixel(
                src,
                src_size.0 as int,
                channels as int,
                i,
                j,
                k,
            )).value <= hi,
    ensures
        ({
            let (w, h) = (src_size.0 as int, src_size.1 as int);
            let (dw, dh, c) = (dst_size.0 as int, dst_size.1 as int, channels as int);
            let after = after_thread(dst, src, inv_m, w, h, dw, dh, c, mode, p)[p * channels + k];
            after.value == 0 as real || lo <= after.value <= hi
        }),
{
    let c = channels as int;
    let n = dst_size.0 * dst_size.1;
    let (ww, hh) = (src_size.0 as usize, src_size.1 as usize);
    let (x, y) = source_point(inv_m, dst_size.0 as int, p);
    assert(0 <= p * c && p * c + c <= n * c) by (nonlinear_arith)
        requires
            0 <= p < n,
            0 <= c,
    ;
    if !outside(x, y, ww, hh) {
        lemma_channel_bounds(src, (ww, hh), channels as usize, k, lo, hi);
        range_law(src, ww, hh, channels as usize, x, y, k, mode, lo, hi);
    }
}

} // verus!
