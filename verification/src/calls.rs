//! How calls of the library relate to each other and to what they are given. `call_ensures`
//! says of a function, its arguments and a result that a call may have given it.

use crate::bytes::{bytes_round_trip_law, decode, encode};
use crate::fixed::Fixed;
use crate::fixed_laws::fixed_area_law;
use crate::gpu::{warp_perspective_kernel, GpuWarpContext, Launch};
use crate::image::{
    lemma_offset_in_range, lemma_place_of_sample, Image, ImageError, ImageSize, InterpolationMode,
};
use crate::interpolation::{interpolate_pixel_fast, interpolate_samples, validate_interpolation};
use crate::matrix::{adjugate3x3, determinant3x3, inverse_perspective_matrix, transform_point};
use crate::outcome::{
    agree, fixed_nearest_sample_law, indexes, is_fixed_nearest, lemma_channel, next, pixel,
};
use crate::scalar::Scalar;
use crate::steps::{
    bytes_steps_law, fails, held, image_law, inverse_steps_law, job_steps_law, launch_steps_law,
    modes_law, passes, sampled_steps_law, thread_steps_law, warp_steps_law,
};
use crate::warp::{
    map_pixels, receive_result, warp_perspective, GpuJob, WarpBackend, WarpStep,
};
use vstd::prelude::*;

verus! {

/// A matrix is refused where its determinant equals 0, and nowhere else; its inverse is
/// its adjugate, times 1 over its determinant.
pub proof fn inverse_call_law<S: Scalar>(
    m: &[S; 9],
    d: S,
    a: [S; 9],
    r: Result<[S; 9], ImageError>,
    i: int,
)
    requires
        call_ensures(determinant3x3::<S>, (m,), d),
        call_ensures(adjugate3x3::<S>, (m,), a),
        call_ensures(inverse_perspective_matrix::<S>, (m,), r),
        0 <= i < 9,
    ensures
        r == Err::<[S; 9], ImageError>(ImageError::CannotComputeDeterminant) <==> d.same(
            S::of_index(0),
        ),
        r is Ok <==> !d.same(S::of_index(0)),
        r matches Ok(n) ==> n@[i] == a@[i].times(S::of_index(1).over(d)),
{
    inverse_steps_law(m@);
}

/// A warp on the processor is refused for the mode first and for the matrix then, and
/// leaves the output image as it was; else each pixel gets what interpolation gives at the
/// point that the inverse matrix takes it to, where that point passes the four comparisons
/// with the input image, and is kept where not.
pub proof fn warp_call_law<S: Scalar, const C: usize>(
    src: &Image<S, C>,
    dst: &mut Image<S, C>,
    m: &[S; 9],
    mode: InterpolationMode,
    r: Result<WarpStep, ImageError>,
    inverted: Result<[S; 9], ImageError>,
    to: (usize, usize),
    at: (S, S),
    k: usize,
    value: S,
)
    requires
        dst.wf(),
        call_ensures(warp_perspective::<S, C>, (src, dst, m, mode, &WarpBackend::Cpu), r),
        call_ensures(inverse_perspective_matrix::<S>, (m,), inverted),
        to.0 < dst.size.width,
        to.1 < dst.size.height,
        k < C,
        inverted matches Ok(n) ==> call_ensures(
            transform_point::<S>,
            (S::of_index(to.0), S::of_index(to.1), &n),
            at,
        ),
        passes(at, src.size.width, src.size.height) ==> call_ensures(
            interpolate_pixel_fast::<S, C>,
            (src, at.0, at.1, k, mode),
            value,
        ),
    ensures
        final(dst).size == old(dst).size,
        final(dst).data@.len() == old(dst).data@.len(),
        mode != InterpolationMode::Bilinear && mode != InterpolationMode::Nearest ==> r == Err::<
            WarpStep,
            ImageError,
        >(ImageError::UnsupportedInterpolation(mode)),
        mode == InterpolationMode::Bilinear || mode == InterpolationMode::Nearest ==> (r is Err
            <==> inverted is Err) && (r matches Err(e) ==> e
            == ImageError::CannotComputeDeterminant),
        r is Err ==> *final(dst) == *old(dst),
        r matches Ok(step) ==> step is Done && pixel(
            final(dst).data@,
            old(dst).size.width as int,
            C as int,
            to.0 as int,
            to.1 as int,
            k as int,
        ) == if passes(at, src.size.width, src.size.height) {
            value
        } else {
            pixel(
                old(dst).data@,
                old(dst).size.width as int,
                C as int,
                to.0 as int,
                to.1 as int,
                k as int,
            )
        },
{
    modes_law(mode);
    image_law(*dst);
    if let Ok(n) = inverted {
        warp_steps_law(
            dst.data@,
            src.data@,
            n@,
            (src.size.width, src.size.height),
            (dst.size.width, dst.size.height),
            C,
            mode,
            to,
            k as int,
        );
    }
}

/// A warp with a function for the samples calls it with the point that the matrix takes a
/// pixel to, and with the channel that is written, where the point passes the four
/// comparisons, and keeps every other sample.
pub proof fn map_call_law<S: Scalar, F: Fn(S, S, usize) -> S, const C: usize>(
    src_size: ImageSize,
    dst: &mut Image<S, C>,
    inv_m: &[S; 9],
    sample: F,
    r: (),
    to: (usize, usize),
    at: (S, S),
    k: usize,
)
    requires
        dst.wf(),
        call_ensures(map_pixels::<S, F, C>, (src_size, dst, inv_m, sample), r),
        to.0 < dst.size.width,
        to.1 < dst.size.height,
        k < C,
        call_ensures(transform_point::<S>, (S::of_index(to.0), S::of_index(to.1), inv_m), at),
    ensures
        final(dst).size == old(dst).size,
        final(dst).data@.len() == old(dst).data@.len(),
        ({
            let (w, c) = (old(dst).size.width as int, C as int);
            let after = pixel(final(dst).data@, w, c, to.0 as int, to.1 as int, k as int);
            if passes(at, src_size.width, src_size.height) {
                call_ensures(sample, (at.0, at.1, k), after)
            } else {
                after == pixel(old(dst).data@, w, c, to.0 as int, to.1 as int, k as int)
            }
        }),
{
    let (w, h, c) = (dst.size.width as int, dst.size.height as int, C as int);
    let p = to.1 * w + to.0;
    lemma_offset_in_range(w, h, c, to.0 as int, to.1 as int, k as int);
    lemma_place_of_sample(p, k as int, c);
    sampled_steps_law(
        sample,
        inv_m@,
        src_size,
        dst.size.width,
        to,
        k,
        dst.data@[p * c + k],
        final(dst).data@[p * c + k],
    );
}

/// A thread writes in each channel of its pixel what interpolation gives at the point that
/// the matrix takes the pixel to, and 0 where one of the four comparisons puts the point
/// off the input image.
pub proof fn kernel_call_law<S: Scalar>(
    src: &[S],
    dst: &mut Vec<S>,
    inv_m: &[S; 9],
    src_size: (u32, u32),
    dst_size: (u32, u32),
    ch: u32,
    mode: InterpolationMode,
    pos: u32,
    r: (),
    to: (u32, u32),
    at: (S, S),
    k: u32,
    value: S,
)
    requires
        dst@.len() >= dst_size.0 * dst_size.1 * ch,
        call_ensures(
            warp_perspective_kernel::<S>,
            (src, dst, inv_m, src_size.0, src_size.1, dst_size.0, dst_size.1, ch, mode, pos),
            r,
        ),
        to.0 < dst_size.0,
        to.1 < dst_size.1,
        pos == to.1 * dst_size.0 + to.0,
        k < ch,
        call_ensures(
            transform_point::<S>,
            (S::of_index(to.0 as usize), S::of_index(to.1 as usize), inv_m),
            at,
        ),
        !fails(at, src_size.0 as usize, src_size.1 as usize) ==> call_ensures(
            interpolate_samples::<S>,
            (
                src,
                src_size.0 as usize,
                src_size.1 as usize,
                ch as usize,
                at.0,
                at.1,
                k as usize,
                mode,
            ),
            value,
        ),
    ensures
        pixel(final(dst)@, dst_size.0 as int, ch as int, to.0 as int, to.1 as int, k as int)
            == if fails(at, src_size.0 as usize, src_size.1 as usize) {
            S::of_index(0)
        } else {
            value
        },
{
    thread_steps_law(dst@, src@, inv_m@, src_size, dst_size, ch, mode, to, k as int);
}

/// A thread writes the samples of its own pixel alone, and nothing past the last pixel.
pub proof fn kernel_keeps_call_law<S: Scalar>(
    src: &[S],
    dst: &mut Vec<S>,
    inv_m: &[S; 9],
    src_size: (u32, u32),
    dst_size: (u32, u32),
    ch: u32,
    mode: InterpolationMode,
    pos: u32,
    r: (),
    j: int,
)
    requires
        call_ensures(
            warp_perspective_kernel::<S>,
            (src, dst, inv_m, src_size.0, src_size.1, dst_size.0, dst_size.1, ch, mode, pos),
            r,
        ),
        0 <= j < dst@.len(),
        j < pos * ch || j >= pos * ch + ch || pos >= dst_size.0 * dst_size.1,
    ensures
        final(dst)@.len() == old(dst)@.len(),
        final(dst)@[j] == old(dst)@[j],
{
}

/// Interpolation in a channel depends on that channel of the image alone.
pub proof fn channel_call_law<S: Scalar, const C: usize>(
    a: &Image<S, C>,
    b: &Image<S, C>,
    x: S,
    y: S,
    k: usize,
    mode: InterpolationMode,
    r: S,
    q: S,
)
    requires
        indexes::<S>(),
        a.size == b.size,
        agree(a.data@, b.data@, a.size.width as int, a.size.height as int, C as int, k as int),
        passes((x, y), a.size.width, a.size.height),
        call_ensures(interpolate_pixel_fast::<S, C>, (a, x, y, k, mode), r),
        call_ensures(interpolate_pixel_fast::<S, C>, (b, x, y, k, mode), q),
    ensures
        r == q,
{
    let (w, h) = (a.size.width, a.size.height);
    assert(x.below(S::of_index(w)) && y.below(S::of_index(h)));
    assert(x.index() < w && y.index() < h);
    lemma_channel(a.data@, b.data@, w as int, h as int, C as int, x, y, k as int, mode);
}

/// In fixed point bilinear interpolation comes within four steps below the mean by area of
/// the pixels around the point, and not above it.
pub proof fn fixed_bilinear_call_law<const C: usize>(
    src: &Image<Fixed, C>,
    x: Fixed,
    y: Fixed,
    k: usize,
    r: Fixed,
    i: int,
    j: int,
)
    requires
        call_ensures(
            interpolate_pixel_fast::<Fixed, C>,
            (src, x, y, k, InterpolationMode::Bilinear),
            r,
        ),
        0 <= i < src.size.width,
        0 <= j < src.size.height,
        65536 * i <= x.raw < 65536 * (i + 1),
        65536 * j <= y.raw < 65536 * (j + 1),
    ensures
        ({
            let (w, h, c) = (src.size.width as int, src.size.height as int, C as int);
            let (i1, j1) = (next(i, w), next(j, h));
            let (s, t) = (x.raw - 65536 * i, y.raw - 65536 * j);
            let v00 = pixel(src.data@, w, c, i, j, k as int).raw;
            let v10 = pixel(src.data@, w, c, i1, j, k as int).raw;
            let v01 = pixel(src.data@, w, c, i, j1, k as int).raw;
            let v11 = pixel(src.data@, w, c, i1, j1, k as int).raw;
            let mean = v00 * ((65536 - s) * (65536 - t)) + v10 * (s * (65536 - t)) + v01 * ((65536
                - s) * t) + v11 * (s * t);
            mean - 4 * 0x1_0000_0000 < 0x1_0000_0000 * r.raw <= mean
        }),
{
    fixed_area_law(src.data@, src.size.width, src.size.height, C, x, y, i, j, k as int);
}

/// In fixed point nearest mode gives the sample of the pixel in the nearest column and the
/// nearest row.
pub proof fn fixed_nearest_call_law<const C: usize>(
    src: &Image<Fixed, C>,
    x: Fixed,
    y: Fixed,
    k: usize,
    r: Fixed,
    i: int,
    j: int,
)
    requires
        call_ensures(
            interpolate_pixel_fast::<Fixed, C>,
            (src, x, y, k, InterpolationMode::Nearest),
            r,
        ),
        0 <= x.raw < 65536 * src.size.width,
        0 <= y.raw < 65536 * src.size.height,
        x.raw < i32::MAX && y.raw < i32::MAX,
        is_fixed_nearest(x, i, src.size.width as int),
        is_fixed_nearest(y, j, src.size.height as int),
    ensures
        r == pixel(src.data@, src.size.width as int, C as int, i, j, k as int),
{
    fixed_nearest_sample_law(
        src.data@,
        src.size.width,
        src.size.height,
        C,
        x,
        y,
        i,
        j,
        k as int,
    );
}

/// Two modes are offered, and every other one is refused by its name.
pub proof fn modes_call_law(mode: InterpolationMode, r: Result<(), ImageError>)
    requires
        call_ensures(validate_interpolation, (mode,), r),
    ensures
        r is Ok <==> mode == InterpolationMode::Bilinear || mode == InterpolationMode::Nearest,
        r matches Err(e) ==> e == ImageError::UnsupportedInterpolation(mode),
{
    modes_law(mode);
}

/// A launch has blocks of 256 threads, as many as hold the pixels of the output image and
/// no more.
pub proof fn dispatch_call_law(ctx: &GpuWarpContext, launch: Launch)
    requires
        call_ensures(GpuWarpContext::dispatch, (ctx,), launch),
    ensures
        launch.block == 256,
        launch.grid == (ctx.dst_width * ctx.dst_height + 255) / 256,
        launch.src_len == ctx.src_width * ctx.src_height * ctx.channels,
        launch.dst_len == ctx.dst_width * ctx.dst_height * ctx.channels,
        launch.inv_m_len == 9,
        launch.src_w == ctx.src_width,
        launch.src_h == ctx.src_height,
        launch.dst_w == ctx.dst_width,
        launch.dst_h == ctx.dst_height,
        launch.ch == ctx.channels,
{
    launch_steps_law(*ctx, launch);
}

/// Reading back the bytes of scalars gives the scalars, and each scalar stands in the four
/// bytes at its place.
pub proof fn bytes_call_law<S: Scalar>(
    data: &[S],
    written: Vec<u8>,
    read: &[u8],
    back: Vec<S>,
    i: int,
)
    requires
        call_ensures(encode::<S>, (data,), written),
        call_ensures(decode::<S>, (read,), back),
        read@ == written@,
        0 <= i < data@.len(),
    ensures
        back@ == data@,
        written@.len() == 4 * data@.len(),
        S::of_bits(held(written@, 4 * i) as u32) == data@[i],
{
    bytes_round_trip_law(written@, data@);
    bytes_steps_law(written@, data@, i);
}

/// For a device a warp leaves the output image as it was, and gives a job that holds what
/// uploading the image and the inverse matrix gives, the launch of the context and the
/// mode.
pub proof fn job_call_law<S: Scalar, const C: usize>(
    src: &Image<S, C>,
    dst: &mut Image<S, C>,
    m: &[S; 9],
    mode: InterpolationMode,
    ctx: std::sync::Arc<GpuWarpContext>,
    r: Result<WarpStep, ImageError>,
    job: GpuJob,
    n: [S; 9],
    i: int,
    j: int,
)
    requires
        call_ensures(warp_perspective::<S, C>, (src, dst, m, mode, &WarpBackend::Gpu(ctx)), r),
        call_ensures(
            inverse_perspective_matrix::<S>,
            (m,),
            Ok::<[S; 9], ImageError>(n),
        ),
        r == Ok::<WarpStep, ImageError>(WarpStep::Launch(job)),
        0 <= i < src.data@.len(),
        0 <= j < 9,
    ensures
        *final(dst) == *old(dst),
        job.src_bytes@.len() == 4 * src.data@.len(),
        S::of_bits(held(job.src_bytes@, 4 * i) as u32) == src.data@[i],
        job.inv_m_bytes@.len() == 36,
        S::of_bits(held(job.inv_m_bytes@, 4 * j) as u32) == n@[j],
        job.mode == mode,
        job.launch.block == 256,
        job.launch.grid == (ctx.dst_width * ctx.dst_height + 255) / 256,
        job.launch.src_w == ctx.src_width,
        job.launch.src_h == ctx.src_height,
        job.launch.dst_w == ctx.dst_width,
        job.launch.dst_h == ctx.dst_height,
        job.launch.ch == ctx.channels,
{
    job_steps_law(job, *ctx, src.data@, n@, mode);
    bytes_steps_law(job.src_bytes@, src.data@, i);
    bytes_steps_law(job.inv_m_bytes@, n@, j);
    launch_steps_law(*ctx, job.launch);
}

/// The output image is written from the first buffer that a device sent back, in its
/// order; where it sent none the image is kept.
pub proof fn result_call_law<S: Scalar, const C: usize>(
    dst: &mut Image<S, C>,
    result: &Vec<Vec<u8>>,
    r: Result<(), ImageError>,
    i: int,
)
    requires
        dst.wf(),
        call_ensures(receive_result::<S, C>, (dst, result), r),
        result@.len() > 0 ==> result@[0]@.len() == 4 * dst.data@.len(),
        0 <= i < dst.data@.len(),
    ensures
        final(dst).size == old(dst).size,
        result@.len() == 0 ==> *final(dst) == *old(dst) && r == Err::<(), ImageError>(
            ImageError::InvalidImageSize(0, 0, 0, 0),
        ),
        result@.len() > 0 ==> r is Ok && final(dst).data@.len() == old(dst).data@.len()
            && final(dst).data@[i] == S::of_bits(held(result@[0]@, 4 * i) as u32),
{
    bytes_steps_law::<S>(result@[0]@, dst.data@, i);
}

} // verus!
