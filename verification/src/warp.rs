//! The perspective warp of an image, on the processor or by way of a device.

use crate::bytes::{decode, decoded, encodes};
use crate::gpu::{
    after_threads, countable, kernel_image, outside, source_point, GpuWarpContext, Launch,
};
use crate::image::{
    lemma_offset_in_range, lemma_place_of_sample, lemma_sample_place, Image, ImageError,
    ImageSize, InterpolationMode,
};
use crate::interpolation::{
    inside, interpolate_pixel_fast, interpolated, supported, validate_interpolation,
};
use crate::matrix::{inverse, inverse_perspective_matrix, singular, transform_point};
use crate::scalar::{nought, Arith, Scalar};
use std::sync::Arc;
use vstd::prelude::*;

verus! {

/// Where a warp is computed.
#[derive(Debug)]
pub enum WarpBackend {
    Cpu,
    Gpu(Arc<GpuWarpContext>),
}

/// What the device has to do for a warp: take the two inputs, and run the kernel with
/// the given interpolation mode.
#[derive(Debug)]
pub struct GpuJob {
    pub src_bytes: Vec<u8>,
    pub inv_m_bytes: Vec<u8>,
    pub launch: Launch,
    pub mode: InterpolationMode,
}

/// The job asks a device with the given context for the warp of `src` with the matrix
/// `inv_m` from output to input.
pub open spec fn asks_for<S: Scalar>(
    job: GpuJob,
    ctx: GpuWarpContext,
    src: Seq<S>,
    inv_m: Seq<S>,
    mode: InterpolationMode,
) -> bool {
    &&& encodes(job.src_bytes@, src)
    &&& encodes(job.inv_m_bytes@, inv_m)
    &&& ctx.plans(job.launch)
    &&& job.mode == mode
}

/// The bytes are what a device sends back for a job: it has run the launched threads of
/// the kernel, in the given order, on what it was sent, over an output buffer that held
/// `buffer`.
pub open spec fn sent_back<S: Scalar>(
    job: GpuJob,
    ctx: GpuWarpContext,
    buffer: Seq<S>,
    order: Seq<int>,
    result: Seq<u8>,
) -> bool {
    &&& buffer.len() == job.launch.dst_len
    &&& forall|i: int| 0 <= i < order.len() ==> 0 <= #[trigger] order[i]
    &&& forall|p: int|
        0 <= p < job.launch.grid * job.launch.block ==> #[trigger] order.contains(p)
    &&& encodes(
        result,
        after_threads(
            buffer,
            decoded::<S>(job.src_bytes@),
            decoded::<S>(job.inv_m_bytes@),
            ctx,
            job.mode,
            order,
        ),
    )
}

/// What remains to be done for a warp.
#[derive(Debug)]
pub enum WarpStep {
    /// Nothing: the output image is written.
    Done,
    /// The job is for the device; what it sends back goes to [`receive_result`].
    Launch(GpuJob),
}

/// Channel `k` of pixel `p` of a warped image: interpolated where the pixel shows a
/// point of the input image, and `before` elsewhere.
pub open spec fn warped_sample<A: Arith>(
    before: A,
    src: Seq<A>,
    inv_m: Seq<A>,
    src_width: int,
    src_height: int,
    dst_width: int,
    channels: int,
    mode: InterpolationMode,
    p: int,
    k: int,
) -> A {
    let (x, y) = source_point(inv_m, dst_width, p);
    if inside(x, y, src_width as usize, src_height as usize) {
        interpolated(src, src_width, src_height, channels, x, y, k, mode)
    } else {
        before
    }
}

/// The samples of a warped image: `before` those of the output image, `inv_m` the
/// matrix from output to input.
pub open spec fn warped<A: Arith>(
    before: Seq<A>,
    src: Seq<A>,
    inv_m: Seq<A>,
    src_width: int,
    src_height: int,
    dst_width: int,
    channels: int,
    mode: InterpolationMode,
) -> Seq<A> {
    Seq::new(
        before.len(),
        |j: int|
            warped_sample(
                before[j],
                src,
                inv_m,
                src_width,
                src_height,
                dst_width,
                channels,
                mode,
                j / channels,
                j % channels,
            ),
    )
}

/// `after` is what a warp with the function `sample` leaves of channel `k` of pixel `p`:
/// what the function gives where the pixel shows a point of the input image, and
/// `before` elsewhere.
pub open spec fn sampled<S: Scalar, F: Fn(S, S, usize) -> S>(
    sample: F,
    inv_m: Seq<S>,
    src_size: ImageSize,
    dst_width: int,
    p: int,
    k: int,
    before: S,
    after: S,
) -> bool {
    let (x, y) = source_point(inv_m, dst_width, p);
    if inside(x, y, src_size.width, src_size.height) {
        call_ensures(sample, (x, y, k as usize), after)
    } else {
        after == before
    }
}

/// Warps on the processor, pixel by pixel, with the matrix from output to input.
/// Whatever the function `sample` does, it is called for the pixels that show a point
/// of an input image of the given size, once for each channel, and the other pixels
/// keep their samples.
pub fn map_pixels<S: Scalar, F: Fn(S, S, usize) -> S, const C: usize>(
    src_size: ImageSize,
    dst: &mut Image<S, C>,
    inv_m: &[S; 9],
    sample: F,
)
    requires
        old(dst).wf(),
        forall|x: S, y: S, k: usize|
            inside(x, y, src_size.width, src_size.height) && k < C ==> #[trigger] call_requires(
                sample,
                (x, y, k),
            ),
    ensures
        final(dst).wf(),
        final(dst).size == old(dst).size,
        forall|j: int|
            #![trigger final(dst).data@[j]]
            0 <= j < final(dst).data@.len() ==> sampled(
                sample,
                inv_m@,
                src_size,
                old(dst).size.width as int,
                j / C as int,
                j % C as int,
                old(dst).data@[j],
                final(dst).data@[j],
            ),
{
    let width: usize = dst.cols();
    let height: usize = dst.rows();
    let len: usize = dst.data.len();
    let ghost before = dst.data@;
    let mut base: usize = 0;
    let mut y: usize = 0;
    if C == 0 {
        assert(width * height * 0 == 0) by (nonlinear_arith);
        return ;
    }
    assert(0 * width * C == 0) by (nonlinear_arith);
    while y < height
        invariant
            C > 0,
            y <= height,
            base == y * width * C,
            dst.size == old(dst).size,
            width == dst.size.width,
            height == dst.size.height,
            len == dst.data@.len(),
            len == width * height * C,
            before == old(dst).data@,
            before.len() == len,
            forall|x: S, y: S, k: usize|
                inside(x, y, src_size.width, src_size.height) && k < C ==> #[trigger] call_requires(
                    sample,
                    (x, y, k),
                ),
            forall|j: int|
                #![trigger dst.data@[j]]
                0 <= j < base ==> sampled(
                    sample,
                    inv_m@,
                    src_size,
                    width as int,
                    j / C as int,
                    j % C as int,
                    before[j],
                    dst.data@[j],
                ),
            forall|j: int| base <= j < len ==> #[trigger] dst.data@[j] == before[j],
        decreases height - y,
    {
        let mut x: usize = 0;
        while x < width
            invariant
                C > 0,
                y < height,
                x <= width,
                base == (y * width + x) * C,
                dst.size == old(dst).size,
                len == dst.data@.len(),
                len == width * height * C,
                before.len() == len,
                forall|x: S, y: S, k: usize|
                    inside(x, y, src_size.width, src_size.height) && k < C
                        ==> #[trigger] call_requires(sample, (x, y, k)),
                forall|j: int|
                    #![trigger dst.data@[j]]
                    0 <= j < base ==> sampled(
                        sample,
                        inv_m@,
                        src_size,
                        width as int,
                        j / C as int,
                        j % C as int,
                        before[j],
                        dst.data@[j],
                    ),
                forall|j: int| base <= j < len ==> #[trigger] dst.data@[j] == before[j],
            decreases width - x,
        {
            let ghost p = y * width + x;
            proof {
                lemma_pixel(p, x as int, y as int, width as int, height as int, C as int);
            }
            let (sx, sy) = transform_point(S::from_index(x), S::from_index(y), inv_m);
            let zero = S::from_index(0);
            if sx.at_least(zero) && sx.less_than(S::from_index(src_size.width)) && sy.at_least(
                zero,
            ) && sy.less_than(S::from_index(src_size.height)) {
                for k in 0..C
                    invariant
                        base == p * C,
                        base + C <= len,
                        (sx, sy) == source_point(inv_m@, width as int, p),
                        inside(sx, sy, src_size.width, src_size.height),
                        dst.size == old(dst).size,
                        len == dst.data@.len(),
                        before.len() == len,
                        forall|x: S, y: S, k: usize|
                            inside(x, y, src_size.width, src_size.height) && k < C
                                ==> #[trigger] call_requires(sample, (x, y, k)),
                        forall|j: int|
                            #![trigger dst.data@[j]]
                            0 <= j < base + k ==> sampled(
                                sample,
                                inv_m@,
                                src_size,
                                width as int,
                                j / C as int,
                                j % C as int,
                                before[j],
                                dst.data@[j],
                            ),
                        forall|j: int|
                            base + k <= j < len ==> #[trigger] dst.data@[j] == before[j],
                {
                    let value = sample(sx, sy, k);
                    proof {
                        lemma_place_of_sample(p, k as int, C as int);
                    }
                    dst.data.set(base + k, value);
                }
            } else {
                assert forall|j: int|
                    #![trigger dst.data@[j]]
                    base <= j < base + C implies sampled(
                    sample,
                    inv_m@,
                    src_size,
                    width as int,
                    j / C as int,
                    j % C as int,
                    before[j],
                    dst.data@[j],
                ) by {
                    lemma_place_of_sample(p, j - base, C as int);
                }
            }
            base = base + C;
            x = x + 1;
        }
        assert((y * width + width) * C == (y + 1) * width * C) by (nonlinear_arith);
        y = y + 1;
    }
    assert(height * width * C == width * height * C) by (nonlinear_arith);
}

/// Warps on the processor by an offered mode, with the matrix from output to input.
pub fn warp_pixels<S: Scalar, const C: usize>(
    src: &Image<S, C>,
    dst: &mut Image<S, C>,
    inv_m: &[S; 9],
    mode: InterpolationMode,
)
    requires
        src.wf(),
        old(dst).wf(),
        supported(mode),
    ensures
        final(dst).wf(),
        final(dst).size == old(dst).size,
        final(dst).data@ == warped(
            old(dst).data@,
            src.data@,
            inv_m@,
            src.size.width as int,
            src.size.height as int,
            old(dst).size.width as int,
            C as int,
            mode,
        ),
{
    let sample = |x: S, y: S, k: usize| -> (r: S)
        requires
            inside(x, y, src.size.width, src.size.height),
            k < C,
        ensures
            r == interpolated(
                src.data@,
                src.size.width as int,
                src.size.height as int,
                C as int,
                x,
                y,
                k as int,
                mode,
            ),
        { interpolate_pixel_fast(src, x, y, k, mode) };
    map_pixels(src.size(), dst, inv_m, sample);
    proof {
        let (w, h) = (dst.size.width as int, dst.size.height as int);
        let result = warped(
            old(dst).data@,
            src.data@,
            inv_m@,
            src.size.width as int,
            src.size.height as int,
            w,
            C as int,
            mode,
        );
        assert forall|j: int| 0 <= j < dst.data@.len() implies #[trigger] dst.data@[j]
            == result[j] by {
            lemma_sample_place(j, w * h, C as int);
        }
        assert(dst.data@ =~= result);
    }
}

/// Where pixel `p`, in column `x` and row `y`, and its samples lie.
proof fn lemma_pixel(p: int, x: int, y: int, width: int, height: int, channels: int)
    requires
        0 <= x < width,
        0 <= y < height,
        0 < channels,
        p == y * width + x,
    ensures
        p % width == x,
        p / width == y,
        p * channels + channels <= width * height * channels,
        (p + 1) * channels == p * channels + channels,
{
    lemma_place_of_sample(y, x, width);
    lemma_offset_in_range(width, height, channels, x, y, channels - 1);
    assert((p + 1) * channels == p * channels + channels) by (nonlinear_arith);
}

/// Warps an image by the matrix `m` from input to output.
///
/// On the processor the output image is written. For a device the output image is left
/// as it is and the job for the device is returned.
pub fn warp_perspective<S: Scalar, const C: usize>(
    src: &Image<S, C>,
    dst: &mut Image<S, C>,
    m: &[S; 9],
    interpolation: InterpolationMode,
    backend: &WarpBackend,
) -> (r: Result<WarpStep, ImageError>)
    requires
        src.wf(),
        old(dst).wf(),
        supported(interpolation) && !singular(m@) ==> (backend matches WarpBackend::Gpu(ctx)
            ==> ctx.wf() && countable(ctx.src_width, ctx.src_height, ctx.channels)),
    ensures
        final(dst).wf(),
        final(dst).size == old(dst).size,
        r is Ok <==> supported(interpolation) && !singular(m@),
        r matches Err(e) ==> *final(dst) == *old(dst) && e == if supported(interpolation) {
            ImageError::CannotComputeDeterminant
        } else {
            ImageError::UnsupportedInterpolation(interpolation)
        },
        r matches Ok(step) ==> match *backend {
            WarpBackend::Cpu => step is Done && final(dst).data@ == warped(
                old(dst).data@,
                src.data@,
                inverse(m@),
                src.size.width as int,
                src.size.height as int,
                old(dst).size.width as int,
                C as int,
                interpolation,
            ),
            WarpBackend::Gpu(ctx) => *final(dst) == *old(dst) && (step matches WarpStep::Launch(
                job,
            ) && asks_for(job, *ctx, src.data@, inverse(m@), interpolation)),
        },
{
    if let Err(e) = validate_interpolation(interpolation) {
        return Err(e);
    }
    let inv_m = match inverse_perspective_matrix(m) {
        Ok(inv_m) => inv_m,
        Err(e) => {
            return Err(e);
        },
    };
    match backend {
        WarpBackend::Cpu => {
            warp_pixels(src, dst, &inv_m, interpolation);
            Ok(WarpStep::Done)
        },
        WarpBackend::Gpu(ctx) => {
            let src_bytes = ctx.upload_src(src.as_slice());
            let inv_m_bytes = ctx.upload_inv_m(&inv_m);
            let launch = ctx.dispatch();
            Ok(WarpStep::Launch(GpuJob { src_bytes, inv_m_bytes, launch, mode: interpolation }))
        },
    }
}

/// Writes the output image from what the device sent back: the first of its buffers,
/// or an error where it sent none.
pub fn receive_result<S: Scalar, const C: usize>(
    dst: &mut Image<S, C>,
    result: &Vec<Vec<u8>>,
) -> (r: Result<(), ImageError>)
    requires
        old(dst).wf(),
        result@.len() > 0 ==> result@[0]@.len() == 4 * old(dst).data@.len(),
    ensures
        final(dst).wf(),
        final(dst).size == old(dst).size,
        r is Ok <==> result@.len() > 0,
        r matches Err(e) ==> e == ImageError::InvalidImageSize(0, 0, 0, 0) && *final(dst) == *old(
            dst,
        ),
        r is Ok ==> final(dst).data@ == decoded::<S>(result@[0]@),
{
    if result.len() == 0 {
        return Err(ImageError::InvalidImageSize(0, 0, 0, 0));
    }
    dst.data = decode(result[0].as_slice());
    Ok(())
}

/// A point has an order in an image of the given size: each of its coordinates is
/// either below 0 or not, and either below the size or not.
pub open spec fn ordered<A: Arith>(x: A, y: A, width: usize, height: usize) -> bool {
    &&& x.below(nought()) == !x.reaches(nought())
    &&& y.below(nought()) == !y.reaches(nought())
    &&& x.below(A::of_index(width)) == !x.reaches(A::of_index(width))
    &&& y.below(A::of_index(height)) == !y.reaches(A::of_index(height))
}

/// In any arithmetic and by any mode, the processor and the device compute the same
/// image where the output image starts with all samples 0 and every pixel shows a point
/// that has an order.
pub proof fn backends_agree_law<A: Arith>(
    before: Seq<A>,
    src: Seq<A>,
    inv_m: Seq<A>,
    ctx: GpuWarpContext,
    mode: InterpolationMode,
)
    requires
        before.len() == ctx.dst_count(),
        forall|j: int| 0 <= j < before.len() ==> #[trigger] before[j] == nought::<A>(),
        forall|p: int|
            0 <= p < ctx.dst_width * ctx.dst_height ==> ordered(
                (#[trigger] source_point(inv_m, ctx.dst_width as int, p)).0,
                source_point(inv_m, ctx.dst_width as int, p).1,
                ctx.src_width as usize,
                ctx.src_height as usize,
            ),
    ensures
        warped(
            before,
            src,
            inv_m,
            ctx.src_width as int,
            ctx.src_height as int,
            ctx.dst_width as int,
            ctx.channels as int,
            mode,
        ) == kernel_image(src, inv_m, ctx, mode),
{
    let ch = ctx.channels as int;
    let by_cpu = warped(
        before,
        src,
        inv_m,
        ctx.src_width as int,
        ctx.src_height as int,
        ctx.dst_width as int,
        ch,
        mode,
    );
    let by_gpu = kernel_image(src, inv_m, ctx, mode);
    assert forall|j: int| 0 <= j < before.len() implies by_cpu[j] == by_gpu[j] by {
        lemma_sample_place(j, ctx.dst_width * ctx.dst_height, ch);
        let (x, y) = source_point(inv_m, ctx.dst_width as int, j / ch);
        assert(before[j] == nought::<A>());
        assert(inside(x, y, ctx.src_width as usize, ctx.src_height as usize) == !outside(
            x,
            y,
            ctx.src_width as usize,
            ctx.src_height as usize,
        ));
    }
    assert(by_cpu =~= by_gpu);
}

} // verus!
