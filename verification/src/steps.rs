//! The warp step by step, in any arithmetic: what is left open by the laws in exact
//! arithmetic, such as the order of rounded operations, points without order, and
//! divisors that are 0.

use crate::bytes::{decoded, encodes};
use crate::gpu::{after_thread, countable, GpuWarpContext, Launch};
use crate::image::{
    lemma_offset_in_range, lemma_place_of_sample, Image, ImageSize, InterpolationMode,
};
use crate::interpolation::{interpolated, supported};
use crate::matrix::{adjugate, determinant, inverse, singular, transformed};
use crate::outcome::{next, pixel};
use crate::scalar::{Arith, Scalar};
use crate::warp::{asks_for, sampled, warped, GpuJob};
use vstd::endian::{endianness, Endian};
use vstd::prelude::*;

verus! {

/// `a * d - b * c`, of the entries of a matrix with the given numbers.
pub open spec fn two_by_two<A: Arith>(m: Seq<A>, a: int, d: int, b: int, c: int) -> A {
    m[a].times(m[d]).minus(m[b].times(m[c]))
}

/// The determinant is expanded along the first row, from left to right; it is compared
/// with 0; and the inverse is the adjugate times 1 over it.
pub proof fn inverse_steps_law<A: Arith>(m: Seq<A>)
    requires
        m.len() == 9,
    ensures
        ({
            let first = m[0].times(two_by_two(m, 4, 8, 5, 7));
            let second = m[1].times(two_by_two(m, 3, 8, 5, 6));
            let third = m[2].times(two_by_two(m, 3, 7, 4, 6));
            determinant(m) == first.minus(second).plus(third)
        }),
        singular(m) == determinant(m).same(A::of_index(0)),
        inverse(m).len() == 9,
        forall|i: int|
            0 <= i < 9 ==> #[trigger] inverse(m)[i] == adjugate(m)[i].times(
                A::of_index(1).over(determinant(m)),
            ),
{
}

/// The entries of the adjugate.
pub proof fn adjugate_steps_law<A: Arith>(m: Seq<A>)
    requires
        m.len() == 9,
    ensures
        adjugate(m).len() == 9,
        adjugate(m)[0] == two_by_two(m, 4, 8, 5, 7),
        adjugate(m)[1] == two_by_two(m, 2, 7, 1, 8),
        adjugate(m)[2] == two_by_two(m, 1, 5, 2, 4),
        adjugate(m)[3] == two_by_two(m, 5, 6, 3, 8),
        adjugate(m)[4] == two_by_two(m, 0, 8, 2, 6),
        adjugate(m)[5] == two_by_two(m, 2, 3, 0, 5),
        adjugate(m)[6] == two_by_two(m, 3, 7, 4, 6),
        adjugate(m)[7] == two_by_two(m, 1, 6, 0, 7),
        adjugate(m)[8] == two_by_two(m, 0, 4, 1, 3),
{
}

/// A point is transformed by three sums of products and two quotients by the third.
pub proof fn point_steps_law<A: Arith>(x: A, y: A, m: Seq<A>)
    requires
        m.len() == 9,
    ensures
        ({
            let w = m[6].times(x).plus(m[7].times(y)).plus(m[8]);
            transformed(x, y, m) == (
                m[0].times(x).plus(m[1].times(y)).plus(m[2]).over(w),
                m[3].times(x).plus(m[4].times(y)).plus(m[5]).over(w),
            )
        }),
{
}

/// Bilinear interpolation mixes the rows, and then what came of them.
pub proof fn bilinear_steps_law<A: Arith>(
    src: Seq<A>,
    width: int,
    height: int,
    channels: int,
    x: A,
    y: A,
    k: int,
)
    requires
        x.index() < width,
        y.index() < height,
    ensures
        ({
            let (i, j) = (x.index() as int, y.index() as int);
            let (i1, j1) = (next(i, width), next(j, height));
            let dx = x.minus(A::of_index(x.index()));
            let dy = y.minus(A::of_index(y.index()));
            let (cx, cy) = (A::of_index(1).minus(dx), A::of_index(1).minus(dy));
            let upper = pixel(src, width, channels, i, j, k).times(cx).plus(
                pixel(src, width, channels, i1, j, k).times(dx),
            );
            let lower = pixel(src, width, channels, i, j1, k).times(cx).plus(
                pixel(src, width, channels, i1, j1, k).times(dx),
            );
            interpolated(src, width, height, channels, x, y, k, InterpolationMode::Bilinear)
                == upper.times(cy).plus(lower.times(dy))
        }),
{
}

/// Nearest mode takes the next column where the fraction of `x` reaches 1/2, the next row
/// where that of `y` does, each by itself, and the last where there is no next one.
pub proof fn nearest_steps_law<A: Arith>(
    src: Seq<A>,
    width: int,
    height: int,
    channels: int,
    x: A,
    y: A,
    k: int,
)
    requires
        x.index() < width,
        y.index() < height,
    ensures
        ({
            let half = A::of_index(1).over(A::of_index(2));
            let (i, j) = (x.index() as int, y.index() as int);
            let a = if x.minus(A::of_index(x.index())).reaches(half) {
                next(i, width)
            } else {
                i
            };
            let b = if y.minus(A::of_index(y.index())).reaches(half) {
                next(j, height)
            } else {
                j
            };
            interpolated(src, width, height, channels, x, y, k, InterpolationMode::Nearest)
                == pixel(src, width, channels, a, b, k)
        }),
{
}

/// The four comparisons that a point of an image passes.
pub open spec fn passes<A: Arith>(at: (A, A), width: usize, height: usize) -> bool {
    &&& at.0.reaches(A::of_index(0))
    &&& at.0.below(A::of_index(width))
    &&& at.1.reaches(A::of_index(0))
    &&& at.1.below(A::of_index(height))
}

/// An output pixel that shows a point which passes the four comparisons gets, in each
/// channel, the interpolated sample there; every other pixel keeps its samples.
pub proof fn warp_steps_law<A: Arith>(
    before: Seq<A>,
    src: Seq<A>,
    inv_m: Seq<A>,
    src_size: (usize, usize),
    dst_size: (usize, usize),
    channels: usize,
    mode: InterpolationMode,
    to: (usize, usize),
    k: int,
)
    requires
        before.len() == dst_size.0 * dst_size.1 * channels,
        to.0 < dst_size.0,
        to.1 < dst_size.1,
        0 <= k < channels,
    ensures
        ({
            let (w, h) = (src_size.0 as int, src_size.1 as int);
            let (dw, c) = (dst_size.0 as int, channels as int);
            let at = transformed(A::of_index(to.0), A::of_index(to.1), inv_m);
            let after = warped(before, src, inv_m, w, h, dw, c, mode);
            &&& after.len() == before.len()
            &&& pixel(after, dw, c, to.0 as int, to.1 as int, k) == if passes(
                at,
                src_size.0,
                src_size.1,
            ) {
                interpolated(src, w, h, c, at.0, at.1, k, mode)
            } else {
                pixel(before, dw, c, to.0 as int, to.1 as int, k)
            }
        }),
{
    let (dw, dh, c) = (dst_size.0 as int, dst_size.1 as int, channels as int);
    lemma_offset_in_range(dw, dh, c, to.0 as int, to.1 as int, k);
    lemma_place_of_sample(to.1 * dw + to.0, k, c);
    lemma_place_of_sample(to.1 as int, to.0 as int, dw);
}

/// The four comparisons, one of which puts a point off an image.
pub open spec fn fails<A: Arith>(at: (A, A), width: usize, height: usize) -> bool {
    ||| at.0.below(A::of_index(0))
    ||| at.0.reaches(A::of_index(width))
    ||| at.1.below(A::of_index(0))
    ||| at.1.reaches(A::of_index(height))
}

/// A thread whose pixel shows a point that one of the four comparisons puts off the input
/// image writes 0 in each channel, and every other thread the interpolated samples there.
pub proof fn thread_steps_law<A: Arith>(
    dst: Seq<A>,
    src: Seq<A>,
    inv_m: Seq<A>,
    src_size: (u32, u32),
    dst_size: (u32, u32),
    channels: u32,
    mode: InterpolationMode,
    to: (u32, u32),
    k: int,
)
    requires
        dst.len() >= dst_size.0 * dst_size.1 * channels,
        to.0 < dst_size.0,
        to.1 < dst_size.1,
        0 <= k < channels,
    ensures
        ({
            let (w, h) = (src_size.0 as int, src_size.1 as int);
            let (dw, dh, c) = (dst_size.0 as int, dst_size.1 as int, channels as int);
            let at = transformed(A::of_index(to.0 as usize), A::of_index(to.1 as usize), inv_m);
            let p = to.1 * dw + to.0;
            let after = after_thread(dst, src, inv_m, w, h, dw, dh, c, mode, p);
            pixel(after, dw, c, to.0 as int, to.1 as int, k) == if fails(
                at,
                src_size.0 as usize,
                src_size.1 as usize,
            ) {
                A::of_index(0)
            } else {
                interpolated(src, w, h, c, at.0, at.1, k, mode)
            }
        }),
{
    let (dw, dh, c) = (dst_size.0 as int, dst_size.1 as int, channels as int);
    lemma_offset_in_range(dw, dh, c, to.0 as int, to.1 as int, k);
    lemma_place_of_sample(to.1 as int, to.0 as int, dw);
}

/// A warp with a function for the samples calls it with the point that a pixel shows, and
/// with the channel that is written, where the point passes the four comparisons; every
/// other sample is kept.
pub proof fn sampled_steps_law<S: Scalar, F: Fn(S, S, usize) -> S>(
    sample: F,
    inv_m: Seq<S>,
    src_size: ImageSize,
    dst_width: usize,
    to: (usize, usize),
    k: usize,
    before: S,
    after: S,
)
    requires
        to.0 < dst_width,
    ensures
        ({
            let at = transformed(S::of_index(to.0), S::of_index(to.1), inv_m);
            sampled(
                sample,
                inv_m,
                src_size,
                dst_width as int,
                to.1 * dst_width + to.0,
                k as int,
                before,
                after,
            ) == if passes(at, src_size.width, src_size.height) {
                call_ensures(sample, (at.0, at.1, k), after)
            } else {
                after == before
            }
        }),
{
    lemma_place_of_sample(to.1 as int, to.0 as int, dst_width as int);
}

/// A launch has blocks of 256 threads, as many as hold the pixels of the output image and
/// no more, the whole of each buffer, and the sizes of the images.
pub proof fn launch_steps_law(ctx: GpuWarpContext, launch: Launch)
    requires
        ctx.plans(launch),
    ensures
        launch.block == 256,
        launch.grid == (ctx.dst_width * ctx.dst_height + 255) / 256,
        launch.src_len == ctx.src_width * ctx.src_height * ctx.channels,
        launch.dst_len == ctx.dst_width * ctx.dst_height * ctx.channels,
        launch.inv_m_len == 9,
        launch.src_w == ctx.src_width,
        launch.src_h == ctx.src_height,
        launch.dst_w == ctx.dst_width,
        launch.dst_h == ctx.dst_height,
        launch.ch == ctx.channels,
{
}

/// A context has four bytes for each sample of the output image, and an image can be
/// counted where its pixels and its samples have a number of 32 bits.
pub proof fn context_steps_law(ctx: GpuWarpContext, width: u32, height: u32, channels: u32)
    ensures
        ctx.wf() ==> ctx.dst_bytes == 4 * (ctx.dst_width * ctx.dst_height * ctx.channels),
        countable(width, height, channels) <==> width * height < 0x1_0000_0000 && width * height
            * channels < 0x1_0000_0000,
{
}

/// The number that four bytes hold in the byte order of the machine.
pub open spec fn held(bytes: Seq<u8>, from: int) -> int {
    if endianness() == Endian::Little {
        bytes[from] + 256 * (bytes[from + 1] + 256 * (bytes[from + 2] + 256 * bytes[from + 3]))
    } else {
        bytes[from + 3] + 256 * (bytes[from + 2] + 256 * (bytes[from + 1] + 256 * bytes[from]))
    }
}

/// Scalars lie in a buffer in their order, four bytes for each, and are read in it.
pub proof fn bytes_steps_law<S: Scalar>(bytes: Seq<u8>, data: Seq<S>, i: int)
    ensures
        encodes(bytes, data) ==> bytes.len() == 4 * data.len(),
        encodes(bytes, data) && 0 <= i < data.len() ==> S::of_bits(held(bytes, 4 * i) as u32)
            == data[i],
        decoded::<S>(bytes).len() == bytes.len() / 4,
        0 <= i < bytes.len() / 4 ==> decoded::<S>(bytes)[i] == S::of_bits(
            held(bytes, 4 * i) as u32,
        ),
{
}

/// A job holds the input image, the matrix, a launch and the mode.
pub proof fn job_steps_law<S: Scalar>(
    job: GpuJob,
    ctx: GpuWarpContext,
    src: Seq<S>,
    inv_m: Seq<S>,
    mode: InterpolationMode,
)
    requires
        asks_for(job, ctx, src, inv_m, mode),
    ensures
        encodes(job.src_bytes@, src),
        encodes(job.inv_m_bytes@, inv_m),
        ctx.plans(job.launch),
        job.mode == mode,
{
}

/// The modes that are offered are two.
pub proof fn modes_law(mode: InterpolationMode)
    ensures
        supported(mode) <==> mode == InterpolationMode::Bilinear || mode
            == InterpolationMode::Nearest,
{
}

/// An image has a sample for each channel of each pixel, and no more.
pub proof fn image_law<S: Copy, const C: usize>(image: Image<S, C>)
    ensures
        image.wf() <==> image.data@.len() == image.size.width * image.size.height * C,
{
}

} // verus!
