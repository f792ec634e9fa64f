//! What holds of the warp as a whole.

use crate::algebra::{
    lemma_commutes, lemma_constants, lemma_half, lemma_mean_in_range, lemma_mean_linear, of_int,
    over, times,
};
use crate::bytes::{bytes_round_trip_law, decoded};
use crate::fixed::{quotient_down, Fixed, ONE};
use crate::gpu::{
    after_thread, after_threads, kernel_image, kernel_sample, launch_law, source_point,
    GpuWarpContext,
};
use crate::image::{
    lemma_offset_in_range, lemma_place_of_sample, lemma_sample_place, offset, sample_count,
    InterpolationMode,
};
use crate::integers::{
    affine_for, affine_inverse_exact_law, exact_within, integer_inverse, integer_row,
    lemma_compares, lemma_index, point_exact_law, Integer,
};
use crate::interpolation::{
    bilinear, half, inside, interpolated, mix, nearest_index, neighbour,
};
use crate::matrix::{determinant, diagonal, inverse, round_trip_law, row_at, singular, transformed};
use crate::scalar::{nought, unit, Arith, Exact, Scalar};
use crate::warp::{asks_for, backends_agree_law, ordered, sent_back, warped, GpuJob};
use vstd::arithmetic::mul::lemma_mul_is_commutative;
use vstd::prelude::*;

verus! {

/// In exact arithmetic interpolation at a pixel, by either mode, gives the sample of
/// the pixel.
pub proof fn pixel_law(
    src: Seq<Exact>,
    width: usize,
    height: usize,
    channels: usize,
    x: usize,
    y: usize,
    k: int,
    mode: InterpolationMode,
)
    requires
        x < width,
        y < height,
    ensures
        inside(Exact::of_index(x), Exact::of_index(y), width, height),
        interpolated(
            src,
            width as int,
            height as int,
            channels as int,
            Exact::of_index(x),
            Exact::of_index(y),
            k,
            mode,
        ) == src[offset(width as int, channels as int, x as int, y as int, k)],
{
    let (w, h, c) = (width as int, height as int, channels as int);
    let (px, py) = (Exact::of_index(x), Exact::of_index(y));
    assert(px.index() == x && py.index() == y);
    let (x1, y1) = (neighbour(x as int, w), neighbour(y as int, h));
    let v00 = src[offset(w, c, x as int, y as int, k)];
    let v10 = src[offset(w, c, x1, y as int, k)];
    let v01 = src[offset(w, c, x as int, y1, k)];
    let v11 = src[offset(w, c, x1, y1, k)];
    lemma_constants(v00.value);
    lemma_constants(v10.value);
    lemma_constants(v01.value);
    lemma_constants(v11.value);
    lemma_half();
    assert(bilinear(src, w, h, c, px, py, k).value == v00.value);
}

/// In exact arithmetic a matrix that takes a pixel of the input image to a pixel of
/// the output image puts the samples of the one there.
pub proof fn pixel_moves_law(
    before: Seq<Exact>,
    src: Seq<Exact>,
    m: Seq<Exact>,
    src_size: (usize, usize),
    dst_size: (usize, usize),
    channels: usize,
    mode: InterpolationMode,
    from: (usize, usize),
    to: (usize, usize),
    k: int,
)
    requires
        m.len() == 9,
        !singular(m),
        before.len() == sample_count(dst_size.0 as int, dst_size.1 as int, channels as int),
        from.0 < src_size.0,
        from.1 < src_size.1,
        to.0 < dst_size.0,
        to.1 < dst_size.1,
        0 <= k < channels,
        !row_at(m, 6, Exact::of_index(from.0), Exact::of_index(from.1)).same(nought()),
        transformed(Exact::of_index(from.0), Exact::of_index(from.1), m) == (
            Exact::of_index(to.0),
            Exact::of_index(to.1),
        ),
    ensures
        warped(
            before,
            src,
            inverse(m),
            src_size.0 as int,
            src_size.1 as int,
            dst_size.0 as int,
            channels as int,
            mode,
        )[offset(dst_size.0 as int, channels as int, to.0 as int, to.1 as int, k)]
            == src[offset(src_size.0 as int, channels as int, from.0 as int, from.1 as int, k)],
{
    let (w, h, c) = (dst_size.0 as int, dst_size.1 as int, channels as int);
    let p = to.1 * w + to.0;
    lemma_offset_in_range(w, h, c, to.0 as int, to.1 as int, k);
    lemma_place_of_sample(p, k, c);
    lemma_place_of_sample(to.1 as int, to.0 as int, w);
    round_trip_law(Exact::of_index(from.0), Exact::of_index(from.1), m);
    pixel_law(src, src_size.0, src_size.1, channels, from.0, from.1, k, mode);
}

/// In exact arithmetic the identity matrix copies the pixels that both images have.
pub proof fn identity_law(
    before: Seq<Exact>,
    src: Seq<Exact>,
    src_size: (usize, usize),
    dst_size: (usize, usize),
    channels: usize,
    mode: InterpolationMode,
    x: usize,
    y: usize,
    k: int,
)
    requires
        before.len() == sample_count(dst_size.0 as int, dst_size.1 as int, channels as int),
        x < src_size.0,
        y < src_size.1,
        x < dst_size.0,
        y < dst_size.1,
        0 <= k < channels,
    ensures
        !singular(diagonal(unit::<Exact>())),
        warped(
            before,
            src,
            inverse(diagonal(unit::<Exact>())),
            src_size.0 as int,
            src_size.1 as int,
            dst_size.0 as int,
            channels as int,
            mode,
        )[offset(dst_size.0 as int, channels as int, x as int, y as int, k)] == src[offset(
            src_size.0 as int,
            channels as int,
            x as int,
            y as int,
            k,
        )],
{
    let i = diagonal(unit::<Exact>());
    let (px, py) = (Exact::of_index(x), Exact::of_index(y));
    lemma_constants(0 as real);
    lemma_constants(1 as real);
    lemma_constants(px.value);
    lemma_constants(py.value);
    lemma_commutes(px.value, 0 as real);
    lemma_commutes(px.value, 1 as real);
    lemma_commutes(py.value, 0 as real);
    lemma_commutes(py.value, 1 as real);
    lemma_commutes(0 as real, 1 as real);
    assert(row_at(i, 6, px, py).value == 1 as real);
    assert(row_at(i, 0, px, py).value == px.value);
    assert(row_at(i, 3, px, py).value == py.value);
    pixel_moves_law(
        before,
        src,
        i,
        src_size,
        dst_size,
        channels,
        mode,
        (x, y),
        (x, y),
        k,
    );
}

/// In exact arithmetic interpolation at a point of the image gives no sample below the
/// least or above the greatest one of its channel. So a channel of one value keeps it.
pub proof fn range_law(
    src: Seq<Exact>,
    width: usize,
    height: usize,
    channels: usize,
    x: Exact,
    y: Exact,
    k: int,
    mode: InterpolationMode,
    lo: real,
    hi: real,
)
    requires
        src.len() == sample_count(width as int, height as int, channels as int),
        inside(x, y, width, height),
        0 <= k < channels,
        forall|p: int|
            0 <= p < width * height ==> lo <= (#[trigger] src[p * channels + k]).value <= hi,
    ensures
        lo <= interpolated(
            src,
            width as int,
            height as int,
            channels as int,
            x,
            y,
            k,
            mode,
        ).value <= hi,
{
    let (w, h, c) = (width as int, height as int, channels as int);
    let (x0, y0) = (x.index() as int, y.index() as int);
    assert(0 <= x0 < w && 0 <= y0 < h);
    let (x1, y1) = (neighbour(x0, w), neighbour(y0, h));
    lemma_offset_in_range(w, h, c, x0, y0, k);
    lemma_offset_in_range(w, h, c, x1, y0, k);
    lemma_offset_in_range(w, h, c, x0, y1, k);
    lemma_offset_in_range(w, h, c, x1, y1, k);
    let v00 = src[offset(w, c, x0, y0, k)].value;
    let v10 = src[offset(w, c, x1, y0, k)].value;
    let v01 = src[offset(w, c, x0, y1, k)].value;
    let v11 = src[offset(w, c, x1, y1, k)].value;
    let dx = x.minus(Exact::of_index(x.index())).value;
    let dy = y.minus(Exact::of_index(y.index())).value;
    assert((0 as real) <= dx <= 1 as real && (0 as real) <= dy <= 1 as real);
    lemma_mean_in_range(v00, v10, dx, lo, hi);
    lemma_mean_in_range(v01, v11, dx, lo, hi);
    let upper = times(v00, (1 as real) - dx) + times(v10, dx);
    let lower = times(v01, (1 as real) - dx) + times(v11, dx);
    lemma_mean_in_range(upper, lower, dy, lo, hi);
    lemma_half();
    lemma_offset_in_range(w, h, c, nearest_index(x, w), nearest_index(y, h), k);
}

/// What a device sends back for a job, whatever the order of its threads and whatever its
/// output buffer held, is the output image of the kernel.
pub proof fn device_law<S: Scalar>(
    job: GpuJob,
    ctx: GpuWarpContext,
    src: Seq<S>,
    inv_m: Seq<S>,
    mode: InterpolationMode,
    buffer: Seq<S>,
    order: Seq<int>,
    result: Seq<u8>,
)
    requires
        asks_for(job, ctx, src, inv_m, mode),
        sent_back(job, ctx, buffer, order, result),
    ensures
        decoded::<S>(result) == kernel_image(src, inv_m, ctx, mode),
{
    bytes_round_trip_law(job.src_bytes@, src);
    bytes_round_trip_law(job.inv_m_bytes@, inv_m);
    launch_law(buffer, src, inv_m, ctx, job.launch, mode, order);
    bytes_round_trip_law(result, after_threads(buffer, src, inv_m, ctx, mode, order));
}

/// The image that is written from what a device sends back is the one that the
/// processor writes over zeros, whatever the output image held: for the job of a warp,
/// by any mode and in any arithmetic, where every pixel shows a point that has an order.
pub proof fn gpu_is_cpu_law<S: Scalar>(
    job: GpuJob,
    ctx: GpuWarpContext,
    src: Seq<S>,
    m: Seq<S>,
    mode: InterpolationMode,
    buffer: Seq<S>,
    order: Seq<int>,
    result: Seq<u8>,
    zeros: Seq<S>,
)
    requires
        asks_for(job, ctx, src, inverse(m), mode),
        sent_back(job, ctx, buffer, order, result),
        zeros.len() == ctx.dst_count(),
        forall|j: int| 0 <= j < zeros.len() ==> #[trigger] zeros[j] == nought::<S>(),
        forall|p: int|
            0 <= p < ctx.dst_width * ctx.dst_height ==> ordered(
                (#[trigger] source_point(inverse(m), ctx.dst_width as int, p)).0,
                source_point(inverse(m), ctx.dst_width as int, p).1,
                ctx.src_width as usize,
                ctx.src_height as usize,
            ),
    ensures
        decoded::<S>(result) == warped(
            zeros,
            src,
            inverse(m),
            ctx.src_width as int,
            ctx.src_height as int,
            ctx.dst_width as int,
            ctx.channels as int,
            mode,
        ),
{
    device_law(job, ctx, src, inverse(m), mode, buffer, order, result);
    backends_agree_law(zeros, src, inverse(m), ctx, mode);
}

/// In fixed point the image that is written from what a device sends back is always the
/// one that the processor writes over zeros.
pub proof fn fixed_gpu_is_cpu_law(
    job: GpuJob,
    ctx: GpuWarpContext,
    src: Seq<Fixed>,
    m: Seq<Fixed>,
    mode: InterpolationMode,
    buffer: Seq<Fixed>,
    order: Seq<int>,
    result: Seq<u8>,
    zeros: Seq<Fixed>,
)
    requires
        asks_for(job, ctx, src, inverse(m), mode),
        sent_back(job, ctx, buffer, order, result),
        zeros.len() == ctx.dst_count(),
        forall|j: int| 0 <= j < zeros.len() ==> #[trigger] zeros[j] == nought::<Fixed>(),
    ensures
        decoded::<Fixed>(result) == warped(
            zeros,
            src,
            inverse(m),
            ctx.src_width as int,
            ctx.src_height as int,
            ctx.dst_width as int,
            ctx.channels as int,
            mode,
        ),
{
    gpu_is_cpu_law(job, ctx, src, m, mode, buffer, order, result, zeros);
}

/// In arithmetic that is exact on integers, as single precision is, and for a matrix of
/// integers without perspective, of determinant 1 or -1: the image that is written from
/// what a device sends back is the one that the processor writes over zeros, whatever the
/// samples are. The entries lie within `b`, the translation within `t`, the sizes within
/// `s`.
pub proof fn integer_gpu_is_cpu_law<S: Scalar>(
    stands: spec_fn(S, int) -> bool,
    n: int,
    b: int,
    t: int,
    s: int,
    job: GpuJob,
    ctx: GpuWarpContext,
    src: Seq<S>,
    m: Seq<S>,
    k: Seq<Integer>,
    mode: InterpolationMode,
    buffer: Seq<S>,
    order: Seq<int>,
    result: Seq<u8>,
    zeros: Seq<S>,
)
    requires
        exact_within(stands, n),
        affine_for(stands, m, k, b, t),
        determinant(k).value == 1 || determinant(k).value == -1,
        b >= 1,
        2 * (b * b) <= n,
        2 * (b * t) + 2 * (b * s) <= n,
        ctx.src_width <= s && ctx.src_height <= s && ctx.dst_width <= s && ctx.dst_height <= s,
        asks_for(job, ctx, src, inverse(m), mode),
        sent_back(job, ctx, buffer, order, result),
        zeros.len() == ctx.dst_count(),
        forall|j: int| 0 <= j < zeros.len() ==> #[trigger] zeros[j] == nought::<S>(),
    ensures
        !singular(m),
        decoded::<S>(result) == warped(
            zeros,
            src,
            inverse(m),
            ctx.src_width as int,
            ctx.src_height as int,
            ctx.dst_width as int,
            ctx.channels as int,
            mode,
        ),
{
    let q = integer_inverse(k);
    let (dw, dh) = (ctx.dst_width as int, ctx.dst_height as int);
    let (w, h) = (ctx.src_width as usize, ctx.src_height as usize);
    assert(-t <= k[2].value <= t);
    assert(b * b >= 1 && b * t >= 0 && s <= b * s) by (nonlinear_arith)
        requires
            b >= 1,
            t >= 0,
            s >= 0,
    ;
    affine_inverse_exact_law(stands, n, b, t, m, k);
    lemma_index::<S>(stands, n, 0);
    lemma_index::<S>(stands, n, w);
    lemma_index::<S>(stands, n, h);
    assert forall|p: int| 0 <= p < dw * dh implies ordered(
        (#[trigger] source_point(inverse(m), dw, p)).0,
        source_point(inverse(m), dw, p).1,
        w,
        h,
    ) by {
        lemma_mul_is_commutative(dw, dh);
        lemma_sample_place(p, dh, dw);
        let (i, j) = ((p % dw) as usize, (p / dw) as usize);
        let (x, y) = source_point(inverse(m), dw, p);
        let (u, v) = (integer_row(q, 0, i as int, j as int), integer_row(q, 3, i as int, j as int));
        point_exact_law(stands, n, b, 2 * (b * t), inverse(m), q, i, j, s);
        lemma_compares(stands, n, x, nought(), u, 0);
        lemma_compares(stands, n, y, nought(), v, 0);
        lemma_compares(stands, n, x, S::of_index(w), u, w as int);
        lemma_compares(stands, n, y, S::of_index(h), v, h as int);
    }
    gpu_is_cpu_law(job, ctx, src, m, mode, buffer, order, result, zeros);
}

/// The distance of two numbers.
pub open spec fn distance(a: real, b: real) -> real {
    if a <= b {
        b - a
    } else {
        a - b
    }
}

/// In exact arithmetic no index of an image is nearer to a coordinate inside it than the
/// one that is taken for the nearest, and none that is as near is greater. It lies within
/// 1/2, but for coordinates that are farther than that behind the last index.
pub proof fn nearest_law(x: Exact, bound: usize, j: int)
    requires
        x.reaches(nought()),
        x.below(Exact::of_index(bound)),
        0 <= j < bound,
    ensures
        ({
            let i = nearest_index(x, bound as int);
            let (far, near) = (distance(x.value, of_int(j)), distance(x.value, of_int(i)));
            &&& 0 <= i < bound
            &&& near <= far
            &&& near == far ==> j <= i
            &&& x.value <= of_int(bound - 1) + over(1 as real, 2 as real) ==> near <= over(
                1 as real,
                2 as real,
            )
        }),
{
    lemma_half();
    let i = x.index() as int;
    assert(i == x.value.floor());
}

/// In fixed point no index of an image is nearer to a coordinate inside it than the one
/// that is taken for the nearest, and none that is as near is greater.
pub proof fn fixed_nearest_law(x: Fixed, bound: usize, j: int)
    requires
        x.reaches(nought()),
        x.below(Fixed::of_index(bound)),
        0 <= j < bound,
    ensures
        ({
            let i = nearest_index(x, bound as int);
            let (far, near) = (fixed_distance(x, j), fixed_distance(x, i));
            &&& 0 <= i < bound
            &&& near <= far
            &&& near == far ==> j <= i
        }),
{
    let i = x.index();
    assert(half::<Fixed>().raw == 32768) by {
        assert(quotient_down(ONE * ONE, 2 * ONE) == 32768);
    }
    assert(x.raw == i * ONE + x.raw % 65536);
    assert(x.minus(Fixed::of_index(i)).raw == x.raw % 65536);
}

/// The distance of a fixed-point number and an index, in steps of the number.
pub open spec fn fixed_distance(x: Fixed, i: int) -> int {
    if x.raw <= i * ONE {
        i * ONE - x.raw
    } else {
        x.raw - i * ONE
    }
}

/// In exact arithmetic interpolation at a point of an image is linear in the image.
proof fn lemma_interpolation_linear(
    a: Exact,
    b: Exact,
    s1: Seq<Exact>,
    s2: Seq<Exact>,
    s3: Seq<Exact>,
    width: usize,
    height: usize,
    channels: usize,
    x: Exact,
    y: Exact,
    k: int,
    mode: InterpolationMode,
)
    requires
        forall|j: int|
            0 <= j < sample_count(width as int, height as int, channels as int)
                ==> #[trigger] s3[j] == a.times(s1[j]).plus(b.times(s2[j])),
        inside(x, y, width, height),
        0 <= k < channels,
    ensures
        ({
            let (w, h, c) = (width as int, height as int, channels as int);
            interpolated(s3, w, h, c, x, y, k, mode) == a.times(
                interpolated(s1, w, h, c, x, y, k, mode),
            ).plus(b.times(interpolated(s2, w, h, c, x, y, k, mode)))
        }),
{
    let (w, h, c) = (width as int, height as int, channels as int);
    let (x0, y0) = (x.index() as int, y.index() as int);
    assert(0 <= x0 < w && 0 <= y0 < h);
    let (x1, y1) = (neighbour(x0, w), neighbour(y0, h));
    lemma_half();
    lemma_offset_in_range(w, h, c, x0, y0, k);
    lemma_offset_in_range(w, h, c, x1, y0, k);
    lemma_offset_in_range(w, h, c, x0, y1, k);
    lemma_offset_in_range(w, h, c, x1, y1, k);
    lemma_offset_in_range(w, h, c, nearest_index(x, w), nearest_index(y, h), k);
    let (i00, i10, i01, i11) = (
        offset(w, c, x0, y0, k),
        offset(w, c, x1, y0, k),
        offset(w, c, x0, y1, k),
        offset(w, c, x1, y1, k),
    );
    let dx = x.minus(Exact::of_index(x.index()));
    let dy = y.minus(Exact::of_index(y.index()));
    lemma_mix_linear(a, b, (s1[i00], s1[i10]), (s2[i00], s2[i10]), dx);
    lemma_mix_linear(a, b, (s1[i01], s1[i11]), (s2[i01], s2[i11]), dx);
    lemma_mix_linear(
        a,
        b,
        (mix(s1[i00], s1[i10], dx), mix(s1[i01], s1[i11], dx)),
        (mix(s2[i00], s2[i10], dx), mix(s2[i01], s2[i11], dx)),
        dy,
    );
}

proof fn lemma_mix_linear(a: Exact, b: Exact, p: (Exact, Exact), q: (Exact, Exact), t: Exact)
    ensures
        mix(a.times(p.0).plus(b.times(q.0)), a.times(p.1).plus(b.times(q.1)), t) == a.times(
            mix(p.0, p.1, t),
        ).plus(b.times(mix(q.0, q.1, t))),
{
    lemma_mean_linear(
        a.value,
        b.value,
        (p.0.value, p.1.value),
        (q.0.value, q.1.value),
        unit::<Exact>().minus(t).value,
        t.value,
    );
}

/// In exact arithmetic a pixel that the kernel computes is linear in the input image.
pub proof fn linear_law(
    a: Exact,
    b: Exact,
    s1: Seq<Exact>,
    s2: Seq<Exact>,
    s3: Seq<Exact>,
    inv_m: Seq<Exact>,
    ctx: GpuWarpContext,
    mode: InterpolationMode,
    p: int,
    k: int,
)
    requires
        forall|j: int|
            0 <= j < ctx.src_count() ==> #[trigger] s3[j] == a.times(s1[j]).plus(b.times(s2[j])),
        0 <= k < ctx.channels,
    ensures
        kernel_pixel(s3, inv_m, ctx, mode, p, k) == a.times(
            kernel_pixel(s1, inv_m, ctx, mode, p, k),
        ).plus(b.times(kernel_pixel(s2, inv_m, ctx, mode, p, k))),
{
    let (x, y) = source_point(inv_m, ctx.dst_width as int, p);
    let (w, h) = (ctx.src_width as usize, ctx.src_height as usize);
    lemma_constants(a.value);
    lemma_constants(b.value);
    if inside(x, y, w, h) {
        lemma_interpolation_linear(
            a,
            b,
            s1,
            s2,
            s3,
            w,
            h,
            ctx.channels as usize,
            x,
            y,
            k,
            mode,
        );
    }
}

/// Channel `k` of pixel `p`, as the kernel computes it for a context.
pub open spec fn kernel_pixel<A: Arith>(
    src: Seq<A>,
    inv_m: Seq<A>,
    ctx: GpuWarpContext,
    mode: InterpolationMode,
    p: int,
    k: int,
) -> A {
    kernel_sample(
        src,
        inv_m,
        ctx.src_width as int,
        ctx.src_height as int,
        ctx.dst_width as int,
        ctx.channels as int,
        mode,
        p,
        k,
    )
}

/// In exact arithmetic what a thread writes is linear in the input image, whatever the
/// output buffers held.
pub proof fn linear_thread_law(
    a: Exact,
    b: Exact,
    s1: Seq<Exact>,
    s2: Seq<Exact>,
    s3: Seq<Exact>,
    dst: (Seq<Exact>, Seq<Exact>, Seq<Exact>),
    inv_m: Seq<Exact>,
    ctx: GpuWarpContext,
    mode: InterpolationMode,
    p: int,
    k: int,
)
    requires
        forall|j: int|
            0 <= j < ctx.src_count() ==> #[trigger] s3[j] == a.times(s1[j]).plus(b.times(s2[j])),
        dst.0.len() >= ctx.dst_count(),
        dst.1.len() >= ctx.dst_count(),
        dst.2.len() >= ctx.dst_count(),
        0 <= p < ctx.dst_width * ctx.dst_height,
        0 <= k < ctx.channels,
    ensures
        ({
            let j = p * ctx.channels + k;
            written(dst.2, s3, inv_m, ctx, mode, p)[j] == a.times(
                written(dst.0, s1, inv_m, ctx, mode, p)[j],
            ).plus(b.times(written(dst.1, s2, inv_m, ctx, mode, p)[j]))
        }),
{
    let ch = ctx.channels as int;
    assert(0 <= p * ch && p * ch + ch <= ctx.dst_count()) by (nonlinear_arith)
        requires
            0 <= p < ctx.dst_width * ctx.dst_height,
            0 <= ch,
            ctx.dst_count() == ctx.dst_width * ctx.dst_height * ch,
    ;
    linear_law(a, b, s1, s2, s3, inv_m, ctx, mode, p, k);
}

/// The output buffer after thread `p` of a context has run.
pub open spec fn written<A: Arith>(
    dst: Seq<A>,
    src: Seq<A>,
    inv_m: Seq<A>,
    ctx: GpuWarpContext,
    mode: InterpolationMode,
    p: int,
) -> Seq<A> {
    after_thread(
        dst,
        src,
        inv_m,
        ctx.src_width as int,
        ctx.src_height as int,
        ctx.dst_width as int,
        ctx.dst_height as int,
        ctx.channels as int,
        mode,
        p,
    )
}

/// In exact arithmetic the output image of the kernel is linear in the input image.
pub proof fn linear_image_law(
    a: Exact,
    b: Exact,
    s1: Seq<Exact>,
    s2: Seq<Exact>,
    s3: Seq<Exact>,
    inv_m: Seq<Exact>,
    ctx: GpuWarpContext,
    mode: InterpolationMode,
)
    requires
        forall|j: int|
            0 <= j < ctx.src_count() ==> #[trigger] s3[j] == a.times(s1[j]).plus(b.times(s2[j])),
    ensures
        forall|j: int|
            0 <= j < ctx.dst_count() ==> #[trigger] kernel_image(s3, inv_m, ctx, mode)[j]
                == a.times(kernel_image(s1, inv_m, ctx, mode)[j]).plus(
                b.times(kernel_image(s2, inv_m, ctx, mode)[j]),
            ),
{
    let ch = ctx.channels as int;
    assert forall|j: int| 0 <= j < ctx.dst_count() implies #[trigger] kernel_image(
        s3,
        inv_m,
        ctx,
        mode,
    )[j] == a.times(kernel_image(s1, inv_m, ctx, mode)[j]).plus(
        b.times(kernel_image(s2, inv_m, ctx, mode)[j]),
    ) by {
        lemma_sample_place(j, ctx.dst_width * ctx.dst_height, ch);
        linear_law(a, b, s1, s2, s3, inv_m, ctx, mode, j / ch, j % ch);
    }
}

} // verus!
