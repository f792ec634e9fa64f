//! Warping forth and back: by a matrix, and what comes of it by the inverse.

use crate::algebra::{lemma_commutes, lemma_constants, lemma_whole, of_int, times, whole};
use crate::fixed::{quotient_down, Fixed, ONE};
use crate::gpu::source_point;
use crate::image::{
    lemma_offset_in_range, lemma_place_of_sample, offset, sample_count, InterpolationMode,
};
use crate::integers::{
    affine_for, affine_inverse_exact_law, exact_within, fixed_exact_law, fixed_stands,
    integer_inverse, integer_inverse_law, integer_row, lemma_compares, lemma_index, lemma_minus,
    lemma_of_index, point_exact_law, Integer,
};
use crate::interpolation::{half, inside, interpolated, mix, nearest_index, neighbour};
use crate::laws::pixel_moves_law;
use crate::matrix::{determinant, inverse, round_trip_law, row_at, singular, transformed};
use crate::matrix_laws::inverse_twice_law;
use crate::scalar::{nought, unit, Arith, Exact};
use crate::warp::warped;
use vstd::prelude::*;

verus! {

/// In exact arithmetic warping by a matrix, and what comes of it by the inverse of the
/// matrix, restores every pixel that the matrix takes to a pixel of the image between.
pub proof fn restore_law(
    before_mid: Seq<Exact>,
    before_out: Seq<Exact>,
    src: Seq<Exact>,
    m: Seq<Exact>,
    src_size: (usize, usize),
    mid_size: (usize, usize),
    channels: usize,
    mode: InterpolationMode,
    pixel: (usize, usize),
    between: (usize, usize),
    k: int,
)
    requires
        m.len() == 9,
        !singular(m),
        before_mid.len() == sample_count(mid_size.0 as int, mid_size.1 as int, channels as int),
        before_out.len() == sample_count(src_size.0 as int, src_size.1 as int, channels as int),
        pixel.0 < src_size.0,
        pixel.1 < src_size.1,
        between.0 < mid_size.0,
        between.1 < mid_size.1,
        0 <= k < channels,
        !row_at(m, 6, Exact::of_index(pixel.0), Exact::of_index(pixel.1)).same(nought()),
        transformed(Exact::of_index(pixel.0), Exact::of_index(pixel.1), m) == (
            Exact::of_index(between.0),
            Exact::of_index(between.1),
        ),
    ensures
        !singular(inverse(m)),
        ({
            let mid = warped(
                before_mid,
                src,
                inverse(m),
                src_size.0 as int,
                src_size.1 as int,
                mid_size.0 as int,
                channels as int,
                mode,
            );
            let out = warped(
                before_out,
                mid,
                inverse(inverse(m)),
                mid_size.0 as int,
                mid_size.1 as int,
                src_size.0 as int,
                channels as int,
                mode,
            );
            let place = offset(
                src_size.0 as int,
                channels as int,
                pixel.0 as int,
                pixel.1 as int,
                k,
            );
            out[place] == src[place]
        }),
{
    let n = inverse(m);
    let (x, y) = (Exact::of_index(pixel.0), Exact::of_index(pixel.1));
    let mid = warped(
        before_mid,
        src,
        n,
        src_size.0 as int,
        src_size.1 as int,
        mid_size.0 as int,
        channels as int,
        mode,
    );
    pixel_moves_law(
        before_mid,
        src,
        m,
        src_size,
        mid_size,
        channels,
        mode,
        pixel,
        between,
        k,
    );
    inverse_twice_law(m);
    round_trip_law(x, y, m);
    pixel_moves_law(
        before_out,
        mid,
        n,
        mid_size,
        src_size,
        channels,
        mode,
        between,
        pixel,
        k,
    );
}

/// In exact arithmetic warping by a matrix of integers without perspective, and what
/// comes of it by the inverse of the matrix, restores every pixel that is not cut off.
pub proof fn integer_restore_law(
    before_mid: Seq<Exact>,
    before_out: Seq<Exact>,
    src: Seq<Exact>,
    m: Seq<Exact>,
    src_size: (usize, usize),
    mid_size: (usize, usize),
    channels: usize,
    mode: InterpolationMode,
    pixel: (usize, usize),
    k: int,
)
    requires
        m.len() == 9,
        forall|i: int| 0 <= i < 9 ==> whole(#[trigger] m[i].value),
        m[6] == nought::<Exact>() && m[7] == nought::<Exact>() && m[8] == unit::<Exact>(),
        !singular(m),
        before_mid.len() == sample_count(mid_size.0 as int, mid_size.1 as int, channels as int),
        before_out.len() == sample_count(src_size.0 as int, src_size.1 as int, channels as int),
        pixel.0 < src_size.0,
        pixel.1 < src_size.1,
        0 <= k < channels,
        inside(
            transformed(Exact::of_index(pixel.0), Exact::of_index(pixel.1), m).0,
            transformed(Exact::of_index(pixel.0), Exact::of_index(pixel.1), m).1,
            mid_size.0,
            mid_size.1,
        ),
    ensures
        !singular(inverse(m)),
        ({
            let mid = warped(
                before_mid,
                src,
                inverse(m),
                src_size.0 as int,
                src_size.1 as int,
                mid_size.0 as int,
                channels as int,
                mode,
            );
            let out = warped(
                before_out,
                mid,
                inverse(inverse(m)),
                mid_size.0 as int,
                mid_size.1 as int,
                src_size.0 as int,
                channels as int,
                mode,
            );
            let place = offset(
                src_size.0 as int,
                channels as int,
                pixel.0 as int,
                pixel.1 as int,
                k,
            );
            out[place] == src[place]
        }),
{
    let (x, y) = (Exact::of_index(pixel.0), Exact::of_index(pixel.1));
    let (u, v) = transformed(x, y, m);
    lemma_constants(x.value);
    lemma_constants(y.value);
    lemma_commutes(x.value, 0 as real);
    lemma_commutes(y.value, 0 as real);
    assert(row_at(m, 6, x, y).value == 1 as real);
    lemma_constants(row_at(m, 0, x, y).value);
    lemma_constants(row_at(m, 3, x, y).value);
    assert(x.value == of_int(pixel.0 as int) && y.value == of_int(pixel.1 as int));
    lemma_whole_row(m, 0, x, y);
    lemma_whole_row(m, 3, x, y);
    lemma_whole_is_index(u, mid_size.0);
    lemma_whole_is_index(v, mid_size.1);
    let between = (u.index(), v.index());
    restore_law(
        before_mid,
        before_out,
        src,
        m,
        src_size,
        mid_size,
        channels,
        mode,
        pixel,
        between,
        k,
    );
}

/// An integer within an index range is an index.
proof fn lemma_whole_is_index(u: Exact, bound: usize)
    requires
        whole(u.value),
        u.reaches(nought()),
        u.below(Exact::of_index(bound)),
    ensures
        u.index() < bound,
        Exact::of_index(u.index()) == u,
{
    let n = choose|n: int| u.value == #[trigger] of_int(n);
    assert(u.value.floor() == n);
}

proof fn lemma_whole_row(m: Seq<Exact>, row: int, x: Exact, y: Exact)
    requires
        m.len() == 9,
        forall|i: int| 0 <= i < 9 ==> whole(#[trigger] m[i].value),
        0 <= row < 7,
        whole(x.value),
        whole(y.value),
    ensures
        whole(row_at(m, row, x, y).value),
{
    let (a, b, c) = (m[row].value, m[row + 1].value, m[row + 2].value);
    lemma_whole(a, x.value);
    lemma_whole(b, y.value);
    lemma_whole(times(a, x.value), times(b, y.value));
    lemma_whole(times(a, x.value) + times(b, y.value), c);
}

/// On the samples that `fine` admits, as the finite ones of floating point, equality is
/// reflexive and transitive. It may hold between samples that differ, as 0 and -0 do.
pub open spec fn equates<A: Arith>(fine: spec_fn(A) -> bool) -> bool {
    &&& forall|v: A| #[trigger] fine(v) ==> v.same(v)
    &&& forall|u: A, v: A, w: A|
        fine(u) && fine(v) && fine(w) && #[trigger] u.same(v) && #[trigger] v.same(w) ==> u.same(w)
}

/// What stands for 0 is no weight: a mean of two samples that `fine` admits, with that
/// weight for the second, equals the first and is admitted too, and the weight does not
/// reach 1/2.
pub open spec fn keeps_at_zero<A: Arith>(
    stands: spec_fn(A, int) -> bool,
    fine: spec_fn(A) -> bool,
) -> bool {
    &&& forall|v: A, w: A, t: A|
        #![trigger mix(v, w, t)]
        fine(v) && fine(w) && stands(t, 0) ==> fine(mix(v, w, t)) && mix(v, w, t).same(v)
    &&& forall|t: A| #[trigger] stands(t, 0) ==> !t.reaches(half())
}

/// In arithmetic that is exact on integers, an output pixel that a matrix of integers
/// takes to a pixel of the input image gets samples equal to those.
proof fn lemma_pixel_exact<A: Arith>(
    stands: spec_fn(A, int) -> bool,
    n: int,
    b: int,
    t: int,
    fine: spec_fn(A) -> bool,
    before: Seq<A>,
    src: Seq<A>,
    q: Seq<A>,
    k: Seq<Integer>,
    src_size: (usize, usize),
    dst_size: (usize, usize),
    channels: usize,
    mode: InterpolationMode,
    s: int,
    to: (usize, usize),
    c: int,
)
    requires
        exact_within(stands, n),
        affine_for(stands, q, k, b, t),
        b >= 1,
        2 * (b * s) + t <= n,
        src_size.0 <= s && src_size.1 <= s && dst_size.0 <= s && dst_size.1 <= s,
        equates(fine),
        keeps_at_zero(stands, fine),
        src.len() == sample_count(src_size.0 as int, src_size.1 as int, channels as int),
        forall|i: int| 0 <= i < src.len() ==> fine(#[trigger] src[i]),
        before.len() == sample_count(dst_size.0 as int, dst_size.1 as int, channels as int),
        to.0 < dst_size.0,
        to.1 < dst_size.1,
        0 <= integer_row(k, 0, to.0 as int, to.1 as int) < src_size.0,
        0 <= integer_row(k, 3, to.0 as int, to.1 as int) < src_size.1,
        0 <= c < channels,
    ensures
        ({
            let after = warped(
                before,
                src,
                q,
                src_size.0 as int,
                src_size.1 as int,
                dst_size.0 as int,
                channels as int,
                mode,
            )[offset(dst_size.0 as int, channels as int, to.0 as int, to.1 as int, c)];
            &&& fine(after)
            &&& after.same(
                src[offset(
                    src_size.0 as int,
                    channels as int,
                    integer_row(k, 0, to.0 as int, to.1 as int),
                    integer_row(k, 3, to.0 as int, to.1 as int),
                    c,
                )],
            )
        }),
{
    let (dw, dh, ch) = (dst_size.0 as int, dst_size.1 as int, channels as int);
    let (w, h) = (src_size.0 as int, src_size.1 as int);
    let p = to.1 * dw + to.0;
    lemma_offset_in_range(dw, dh, ch, to.0 as int, to.1 as int, c);
    lemma_place_of_sample(p, c, ch);
    lemma_place_of_sample(to.1 as int, to.0 as int, dw);
    let (x, y) = source_point(q, dw, p);
    let (i, j) = (
        integer_row(k, 0, to.0 as int, to.1 as int),
        integer_row(k, 3, to.0 as int, to.1 as int),
    );
    assert(s <= b * s) by (nonlinear_arith)
        requires
            b >= 1,
            s >= 0,
    ;
    assert(-t <= k[2].value <= t);
    point_exact_law(stands, n, b, t, q, k, to.0, to.1, s);
    assert(stands(x, i) && stands(y, j));
    lemma_index::<A>(stands, n, 0);
    lemma_index::<A>(stands, n, src_size.0);
    lemma_index::<A>(stands, n, src_size.1);
    lemma_compares(stands, n, x, nought(), i, 0);
    lemma_compares(stands, n, y, nought(), j, 0);
    lemma_compares(stands, n, x, A::of_index(src_size.0), i, w);
    lemma_compares(stands, n, y, A::of_index(src_size.1), j, h);
    assert(inside(x, y, src_size.0, src_size.1));
    lemma_of_index(stands, n, x, i);
    lemma_of_index(stands, n, y, j);
    lemma_index::<A>(stands, n, x.index());
    lemma_index::<A>(stands, n, y.index());
    lemma_minus(stands, n, x, A::of_index(x.index()), i, i);
    lemma_minus(stands, n, y, A::of_index(y.index()), j, j);
    let dx = x.minus(A::of_index(x.index()));
    let dy = y.minus(A::of_index(y.index()));
    let (i1, j1) = (neighbour(i, w), neighbour(j, h));
    lemma_offset_in_range(w, h, ch, i, j, c);
    lemma_offset_in_range(w, h, ch, i1, j, c);
    lemma_offset_in_range(w, h, ch, i, j1, c);
    lemma_offset_in_range(w, h, ch, i1, j1, c);
    let v00 = src[offset(w, ch, i, j, c)];
    let v10 = src[offset(w, ch, i1, j, c)];
    let v01 = src[offset(w, ch, i, j1, c)];
    let v11 = src[offset(w, ch, i1, j1, c)];
    let (upper, lower) = (mix(v00, v10, dx), mix(v01, v11, dx));
    assert(fine(v00) && fine(upper) && fine(lower));
    assert(upper.same(v00) && mix(upper, lower, dy).same(upper));
    assert(mix(upper, lower, dy).same(v00));
    assert(nearest_index(x, w) == i && nearest_index(y, h) == j);
    assert(interpolated(src, w, h, ch, x, y, c, mode) == if mode is Bilinear {
        mix(upper, lower, dy)
    } else {
        v00
    });
}

/// The samples of the image that comes of warping `src` by `m`.
pub open spec fn forth<A: Arith>(
    before: Seq<A>,
    src: Seq<A>,
    m: Seq<A>,
    src_size: (usize, usize),
    mid_size: (usize, usize),
    channels: usize,
    mode: InterpolationMode,
) -> Seq<A> {
    warped(
        before,
        src,
        inverse(m),
        src_size.0 as int,
        src_size.1 as int,
        mid_size.0 as int,
        channels as int,
        mode,
    )
}

/// In arithmetic that is exact on integers, as single precision is: warping by a matrix
/// of integers without perspective, of determinant 1 or -1, and what comes of it by the
/// inverse of the matrix, restores every pixel that is not cut off, with samples that
/// equal those it had, where all samples of the first two images are `fine` and the
/// numbers on the way lie where integers are exact. The entries lie within `b`, the
/// translation within `t`, the sizes within `s`.
pub proof fn exact_restore_law<A: Arith>(
    stands: spec_fn(A, int) -> bool,
    n: int,
    b: int,
    t: int,
    fine: spec_fn(A) -> bool,
    before_mid: Seq<A>,
    before_out: Seq<A>,
    src: Seq<A>,
    m: Seq<A>,
    k: Seq<Integer>,
    src_size: (usize, usize),
    mid_size: (usize, usize),
    channels: usize,
    mode: InterpolationMode,
    s: int,
    pixel: (usize, usize),
    c: int,
)
    requires
        exact_within(stands, n),
        equates(fine),
        keeps_at_zero(stands, fine),
        affine_for(stands, m, k, b, t),
        determinant(k).value == 1 || determinant(k).value == -1,
        b >= 1,
        2 * (b * b) <= n,
        4 * (b * b * t) + 2 * (b * s) <= n,
        src_size.0 <= s && src_size.1 <= s && mid_size.0 <= s && mid_size.1 <= s,
        src.len() == sample_count(src_size.0 as int, src_size.1 as int, channels as int),
        before_mid.len() == sample_count(mid_size.0 as int, mid_size.1 as int, channels as int),
        before_out.len() == src.len(),
        forall|i: int| 0 <= i < src.len() ==> fine(#[trigger] src[i]),
        forall|i: int|
            0 <= i < before_mid.len() ==> fine(
                #[trigger] forth(before_mid, src, m, src_size, mid_size, channels, mode)[i],
            ),
        pixel.0 < src_size.0,
        pixel.1 < src_size.1,
        0 <= integer_row(k, 0, pixel.0 as int, pixel.1 as int) < mid_size.0,
        0 <= integer_row(k, 3, pixel.0 as int, pixel.1 as int) < mid_size.1,
        0 <= c < channels,
    ensures
        !singular(m),
        !singular(inverse(m)),
        ({
            let mid = forth(before_mid, src, m, src_size, mid_size, channels, mode);
            let out = forth(before_out, mid, inverse(m), mid_size, src_size, channels, mode);
            let place = offset(
                src_size.0 as int,
                channels as int,
                pixel.0 as int,
                pixel.1 as int,
                c,
            );
            out[place].same(src[place])
        }),
{
    let (t1, t2) = (2 * (b * t), 4 * (b * b * t));
    assert(-t <= k[2].value <= t);
    lemma_bounds(b, t, s);
    let (x, y) = (pixel.0 as int, pixel.1 as int);
    let (u, v) = (integer_row(k, 0, x, y), integer_row(k, 3, x, y));
    let q = integer_inverse(k);
    lemma_offset_in_range(src_size.0 as int, src_size.1 as int, channels as int, x, y, c);
    integer_inverse_law(k, x, y);
    integer_inverse_law(q, u, v);
    affine_inverse_exact_law(stands, n, b, t, m, k);
    affine_inverse_exact_law(stands, n, b, t1, inverse(m), q);
    let mid = forth(before_mid, src, m, src_size, mid_size, channels, mode);
    lemma_pixel_exact(
        stands,
        n,
        b,
        t1,
        fine,
        before_mid,
        src,
        inverse(m),
        q,
        src_size,
        mid_size,
        channels,
        mode,
        s,
        (u as usize, v as usize),
        c,
    );
    lemma_pixel_exact(
        stands,
        n,
        b,
        t2,
        fine,
        before_out,
        mid,
        inverse(inverse(m)),
        integer_inverse(q),
        mid_size,
        src_size,
        channels,
        mode,
        s,
        pixel,
        c,
    );
}

proof fn lemma_bounds(b: int, t: int, s: int)
    requires
        b >= 1,
        t >= 0,
        s >= 0,
    ensures
        0 <= 2 * (b * t) <= 4 * (b * b * t),
        2 * (b * (2 * (b * t))) == 4 * (b * b * t),
        0 <= b * s,
{
    let c = b * t;
    assert(0 <= c && 0 <= b * s) by (nonlinear_arith)
        requires
            b >= 1,
            t >= 0,
            s >= 0,
            c == b * t,
    ;
    assert(b * b * t == b * c && b * (2 * c) == 2 * (b * c)) by (nonlinear_arith)
        requires
            c == b * t,
    ;
    assert(c <= b * c) by (nonlinear_arith)
        requires
            b >= 1,
            c >= 0,
    ;
}

/// In fixed point, warping by a matrix of integers without perspective, of determinant 1
/// or -1, and what comes of it by the inverse of the matrix, restores every pixel that is
/// not cut off, whatever the samples are, where the numbers on the way have no more than
/// fifteen bits.
pub proof fn fixed_restore_law(
    b: int,
    t: int,
    before_mid: Seq<Fixed>,
    before_out: Seq<Fixed>,
    src: Seq<Fixed>,
    m: Seq<Fixed>,
    k: Seq<Integer>,
    src_size: (usize, usize),
    mid_size: (usize, usize),
    channels: usize,
    mode: InterpolationMode,
    s: int,
    pixel: (usize, usize),
    c: int,
)
    requires
        affine_for(fixed_stands(), m, k, b, t),
        determinant(k).value == 1 || determinant(k).value == -1,
        b >= 1,
        2 * (b * b) <= 32767,
        4 * (b * b * t) + 2 * (b * s) <= 32767,
        src_size.0 <= s && src_size.1 <= s && mid_size.0 <= s && mid_size.1 <= s,
        src.len() == sample_count(src_size.0 as int, src_size.1 as int, channels as int),
        before_mid.len() == sample_count(mid_size.0 as int, mid_size.1 as int, channels as int),
        before_out.len() == src.len(),
        pixel.0 < src_size.0,
        pixel.1 < src_size.1,
        0 <= integer_row(k, 0, pixel.0 as int, pixel.1 as int) < mid_size.0,
        0 <= integer_row(k, 3, pixel.0 as int, pixel.1 as int) < mid_size.1,
        0 <= c < channels,
    ensures
        !singular(m),
        !singular(inverse(m)),
        ({
            let mid = forth(before_mid, src, m, src_size, mid_size, channels, mode);
            let out = forth(before_out, mid, inverse(m), mid_size, src_size, channels, mode);
            let place = offset(
                src_size.0 as int,
                channels as int,
                pixel.0 as int,
                pixel.1 as int,
                c,
            );
            out[place] == src[place]
        }),
{
    let fine = |v: Fixed| true;
    fixed_exact_law();
    assert forall|v: Fixed, w: Fixed, t: Fixed|
        #![trigger mix(v, w, t)]
        fine(v) && fine(w) && fixed_stands()(t, 0) implies mix(v, w, t).same(v) by {
        lemma_fixed_keeps(v, w, t);
    }
    assert(half::<Fixed>().raw == 32768) by {
        assert(quotient_down(ONE * ONE, 2 * ONE) == 32768);
    }
    exact_restore_law(
        fixed_stands(),
        32767,
        b,
        t,
        fine,
        before_mid,
        before_out,
        src,
        m,
        k,
        src_size,
        mid_size,
        channels,
        mode,
        s,
        pixel,
        c,
    );
}

proof fn lemma_fixed_keeps(v: Fixed, w: Fixed, t: Fixed)
    requires
        t.raw == 0,
    ensures
        mix(v, w, t) == v,
{
    assert(unit::<Fixed>().minus(t).raw == ONE);
    assert(w.raw * 0 == 0) by (nonlinear_arith);
    assert(quotient_down(0, ONE as int) == 0);
    assert(w.times(t).raw == 0);
    assert(quotient_down(v.raw * ONE, ONE as int) == v.raw);
    assert(v.times(unit::<Fixed>().minus(t)) == v);
}

} // verus!
