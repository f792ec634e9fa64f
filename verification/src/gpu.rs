//! The device path: what goes to the device, how the kernel is launched, and what one
//! thread of it computes.

use crate::bytes::{encode, encodes};
use crate::image::{lemma_place_of_sample, lemma_sample_place, sample_count, InterpolationMode};
use crate::interpolation::{interpolate_samples, interpolated, supported};
use crate::matrix::{transform_point, transformed};
use crate::scalar::{nought, Arith, Scalar};
use vstd::prelude::*;

verus! {

/// The number of threads of a block.
pub const BLOCK: u32 = 256;

/// The pixels, and the samples, of an image can be counted in 32 bits, as the device
/// counts them.
pub open spec fn countable(width: u32, height: u32, channels: u32) -> bool {
    &&& width * height <= u32::MAX
    &&& sample_count(width as int, height as int, channels as int) <= u32::MAX
}

/// The sizes that a device context is made for, and the bytes of its output buffer.
#[derive(Clone, Copy, Debug, PartialEq, Eq, Structural)]
pub struct GpuWarpContext {
    pub src_width: u32,
    pub src_height: u32,
    pub dst_width: u32,
    pub dst_height: u32,
    pub channels: u32,
    pub dst_bytes: usize,
}

/// How the kernel is launched: blocks, threads of a block, the lengths of the three
/// buffers that it is handed, and the sizes of the images in them.
#[derive(Clone, Copy, Debug, PartialEq, Eq, Structural)]
pub struct Launch {
    pub grid: u32,
    pub block: u32,
    pub src_len: usize,
    pub dst_len: usize,
    pub inv_m_len: usize,
    pub src_w: u32,
    pub src_h: u32,
    pub dst_w: u32,
    pub dst_h: u32,
    pub ch: u32,
}

impl GpuWarpContext {
    /// The samples of the output image.
    pub open spec fn dst_count(&self) -> int {
        sample_count(self.dst_width as int, self.dst_height as int, self.channels as int)
    }

    /// The samples of the input image.
    pub open spec fn src_count(&self) -> int {
        sample_count(self.src_width as int, self.src_height as int, self.channels as int)
    }

    /// The output buffer has four bytes for each sample of the output image.
    pub open spec fn wf(&self) -> bool {
        &&& countable(self.dst_width, self.dst_height, self.channels)
        &&& self.dst_bytes == 4 * self.dst_count()
    }

    /// The launch has the fewest blocks with a thread for each pixel of the output
    /// image, buffers of the sizes of the images, and those sizes.
    pub open spec fn plans(&self, launch: Launch) -> bool {
        &&& launch.block == BLOCK
        &&& launch.grid * BLOCK >= self.dst_width * self.dst_height
        &&& (launch.grid - 1) * BLOCK < self.dst_width * self.dst_height
        &&& launch.src_len == self.src_count()
        &&& launch.dst_len == self.dst_count()
        &&& launch.inv_m_len == 9
        &&& launch.src_w == self.src_width
        &&& launch.src_h == self.src_height
        &&& launch.dst_w == self.dst_width
        &&& launch.dst_h == self.dst_height
        &&& launch.ch == self.channels
    }

    /// A context for images of the given sizes.
    pub fn new(
        src_width: u32,
        src_height: u32,
        dst_width: u32,
        dst_height: u32,
        channels: u32,
    ) -> (r: Self)
        requires
            countable(dst_width, dst_height, channels),
            4 * sample_count(dst_width as int, dst_height as int, channels as int) <= usize::MAX,
        ensures
            r.wf(),
            r.src_width == src_width,
            r.src_height == src_height,
            r.dst_width == dst_width,
            r.dst_height == dst_height,
            r.channels == channels,
    {
        let dst_bytes: usize = (dst_width * dst_height * channels) as usize * 4;
        GpuWarpContext { src_width, src_height, dst_width, dst_height, channels, dst_bytes }
    }

    /// The bytes of the input image for the device.
    pub fn upload_src<S: Scalar>(&self, data: &[S]) -> (r: Vec<u8>)
        ensures
            encodes(r@, data@),
    {
        encode(data)
    }

    /// The bytes of the inverse matrix for the device.
    pub fn upload_inv_m<S: Scalar>(&self, inv_m: &[S; 9]) -> (r: Vec<u8>)
        ensures
            encodes(r@, inv_m@),
    {
        encode(inv_m.as_slice())
    }

    /// The launch of the kernel.
    pub fn dispatch(&self) -> (r: Launch)
        requires
            self.wf(),
            countable(self.src_width, self.src_height, self.channels),
        ensures
            self.plans(r),
    {
        let n_pixels: u32 = self.dst_width * self.dst_height;
        let whole: u32 = n_pixels / BLOCK;
        let grid: u32 = if n_pixels % BLOCK == 0 {
            whole
        } else {
            whole + 1
        };
        Launch {
            grid,
            block: BLOCK,
            src_len: (self.src_width * self.src_height * self.channels) as usize,
            dst_len: (self.dst_width * self.dst_height * self.channels) as usize,
            inv_m_len: 9,
            src_w: self.src_width,
            src_h: self.src_height,
            dst_w: self.dst_width,
            dst_h: self.dst_height,
            ch: self.channels,
        }
    }
}

/// The point of the input image that pixel `p` of an output image shows.
pub open spec fn source_point<A: Arith>(inv_m: Seq<A>, dst_width: int, p: int) -> (A, A) {
    transformed(
        A::of_index((p % dst_width) as usize),
        A::of_index((p / dst_width) as usize),
        inv_m,
    )
}

/// The point lies off an image of the given size, as the kernel tests it.
pub open spec fn outside<A: Arith>(x: A, y: A, width: usize, height: usize) -> bool {
    x.below(nought()) || x.reaches(A::of_index(width)) || y.below(nought()) || y.reaches(
        A::of_index(height),
    )
}

/// Channel `k` of pixel `p` of the output image, as the kernel computes it.
pub open spec fn kernel_sample<A: Arith>(
    src: Seq<A>,
    inv_m: Seq<A>,
    src_width: int,
    src_height: int,
    dst_width: int,
    channels: int,
    mode: InterpolationMode,
    p: int,
    k: int,
) -> A {
    let (x, y) = source_point(inv_m, dst_width, p);
    if outside(x, y, src_width as usize, src_height as usize) {
        nought()
    } else {
        interpolated(src, src_width, src_height, channels, x, y, k, mode)
    }
}

/// The output buffer after thread `p` has run.
pub open spec fn after_thread<A: Arith>(
    dst: Seq<A>,
    src: Seq<A>,
    inv_m: Seq<A>,
    src_width: int,
    src_height: int,
    dst_width: int,
    dst_height: int,
    channels: int,
    mode: InterpolationMode,
    p: int,
) -> Seq<A> {
    Seq::new(
        dst.len(),
        |j: int|
            if p < dst_width * dst_height && p * channels <= j < p * channels + channels {
                kernel_sample(
                    src,
                    inv_m,
                    src_width,
                    src_height,
                    dst_width,
                    channels,
                    mode,
                    p,
                    j - p * channels,
                )
            } else {
                dst[j]
            },
    )
}

/// One thread of the kernel: writes the pixel at `pos`, if the output image has one.
pub fn warp_perspective_kernel<S: Scalar>(
    src: &[S],
    dst: &mut Vec<S>,
    inv_m: &[S; 9],
    src_w: u32,
    src_h: u32,
    dst_w: u32,
    dst_h: u32,
    ch: u32,
    mode: InterpolationMode,
    pos: u32,
)
    requires
        supported(mode),
        src_w > 0,
        src_h > 0,
        countable(src_w, src_h, ch),
        countable(dst_w, dst_h, ch),
        src@.len() >= sample_count(src_w as int, src_h as int, ch as int),
        old(dst)@.len() >= sample_count(dst_w as int, dst_h as int, ch as int),
    ensures
        final(dst)@ == after_thread(
            old(dst)@,
            src@,
            inv_m@,
            src_w as int,
            src_h as int,
            dst_w as int,
            dst_h as int,
            ch as int,
            mode,
            pos as int,
        ),
{
    if pos >= dst_w * dst_h {
        assert(dst@ =~= after_thread(
            old(dst)@,
            src@,
            inv_m@,
            src_w as int,
            src_h as int,
            dst_w as int,
            dst_h as int,
            ch as int,
            mode,
            pos as int,
        ));
        return ;
    }
    proof {
        assert(dst_w > 0) by (nonlinear_arith)
            requires
                0 <= pos < dst_w * dst_h,
        ;
        assert(pos * ch + ch <= dst_w * dst_h * ch) by (nonlinear_arith)
            requires
                0 <= pos < dst_w * dst_h,
                0 <= ch,
        ;
    }
    let px: u32 = pos % dst_w;
    let py: u32 = pos / dst_w;
    let (sx, sy) = transform_point(
        S::from_index(px as usize),
        S::from_index(py as usize),
        inv_m,
    );
    let base: usize = (pos * ch) as usize;
    let zero = S::from_index(0);
    let off: bool = sx.less_than(zero) || sx.at_least(S::from_index(src_w as usize))
        || sy.less_than(zero) || sy.at_least(S::from_index(src_h as usize));
    if !off {
        let x0: usize = sx.to_index();
        let y0: usize = sy.to_index();
        assert(x0 < src_w as usize && y0 < src_h as usize);
    }
    for k in 0..ch
        invariant
            supported(mode),
            base == pos * ch,
            base + ch <= old(dst)@.len(),
            base + ch <= u32::MAX,
            dst@.len() == old(dst)@.len(),
            zero == nought::<S>(),
            (sx, sy) == source_point(inv_m@, dst_w as int, pos as int),
            off == outside(sx, sy, src_w as usize, src_h as usize),
            !off ==> sx.index() < src_w && sy.index() < src_h,
            src@.len() >= sample_count(src_w as int, src_h as int, ch as int),
            forall|j: int|
                0 <= j < dst@.len() ==> #[trigger] dst@[j] == if base <= j < base + k {
                    kernel_sample(
                        src@,
                        inv_m@,
                        src_w as int,
                        src_h as int,
                        dst_w as int,
                        ch as int,
                        mode,
                        pos as int,
                        j - base,
                    )
                } else {
                    old(dst)@[j]
                },
    {
        let value = if off {
            zero
        } else {
            interpolate_samples(
                src,
                src_w as usize,
                src_h as usize,
                ch as usize,
                sx,
                sy,
                k as usize,
                mode,
            )
        };
        dst.set(base + k as usize, value);
    }
    assert(dst@ =~= after_thread(
        old(dst)@,
        src@,
        inv_m@,
        src_w as int,
        src_h as int,
        dst_w as int,
        dst_h as int,
        ch as int,
        mode,
        pos as int,
    ));
}

/// The output buffer after threads have run one after the other in the given order.
pub open spec fn after_threads<A: Arith>(
    dst: Seq<A>,
    src: Seq<A>,
    inv_m: Seq<A>,
    ctx: GpuWarpContext,
    mode: InterpolationMode,
    order: Seq<int>,
) -> Seq<A>
    decreases order.len(),
{
    if order.len() == 0 {
        dst
    } else {
        after_thread(
            after_threads(dst, src, inv_m, ctx, mode, order.drop_last()),
            src,
            inv_m,
            ctx.src_width as int,
            ctx.src_height as int,
            ctx.dst_width as int,
            ctx.dst_height as int,
            ctx.channels as int,
            mode,
            order.last(),
        )
    }
}

/// The output image that the kernel computes.
pub open spec fn kernel_image<A: Arith>(
    src: Seq<A>,
    inv_m: Seq<A>,
    ctx: GpuWarpContext,
    mode: InterpolationMode,
) -> Seq<A> {
    Seq::new(
        ctx.dst_count() as nat,
        |j: int|
            kernel_sample(
                src,
                inv_m,
                ctx.src_width as int,
                ctx.src_height as int,
                ctx.dst_width as int,
                ctx.channels as int,
                mode,
                j / ctx.channels as int,
                j % ctx.channels as int,
            ),
    )
}

proof fn lemma_threads<A: Arith>(
    dst: Seq<A>,
    src: Seq<A>,
    inv_m: Seq<A>,
    ctx: GpuWarpContext,
    mode: InterpolationMode,
    order: Seq<int>,
)
    requires
        dst.len() == ctx.dst_count(),
        forall|i: int| 0 <= i < order.len() ==> 0 <= #[trigger] order[i],
    ensures
        after_threads(dst, src, inv_m, ctx, mode, order).len() == dst.len(),
        forall|j: int|
            0 <= j < dst.len() ==> #[trigger] after_threads(dst, src, inv_m, ctx, mode, order)[j]
                == (if order.contains(j / ctx.channels as int) {
                kernel_image(src, inv_m, ctx, mode)[j]
            } else {
                dst[j]
            }),
    decreases order.len(),
{
    if order.len() > 0 {
        let (rest, p) = (order.drop_last(), order.last());
        let (before, after) = (
            after_threads(dst, src, inv_m, ctx, mode, rest),
            after_threads(dst, src, inv_m, ctx, mode, order),
        );
        let n = ctx.dst_width * ctx.dst_height;
        let ch = ctx.channels as int;
        lemma_threads(dst, src, inv_m, ctx, mode, rest);
        assert forall|j: int| 0 <= j < dst.len() implies #[trigger] after[j]
            == if order.contains(j / ch) {
            kernel_image(src, inv_m, ctx, mode)[j]
        } else {
            dst[j]
        } by {
            lemma_sample_place(j, n, ch);
            assert(before[j] == if rest.contains(j / ch) {
                kernel_image(src, inv_m, ctx, mode)[j]
            } else {
                dst[j]
            });
            if p * ch <= j < p * ch + ch {
                lemma_place_of_sample(p, j - p * ch, ch);
                assert(order[order.len() - 1] == j / ch);
            } else {
                assert(p != j / ch);
                if order.contains(j / ch) {
                    let i = order.index_of(j / ch);
                    assert(rest[i] == j / ch);
                }
                if rest.contains(j / ch) {
                    let i = rest.index_of(j / ch);
                    assert(order[i] == j / ch);
                }
            }
        }
    }
}

/// Whatever the order in which its threads run, a launch that a context plans writes
/// the whole output image, and what the output buffer held before does not matter.
pub proof fn launch_law<A: Arith>(
    dst: Seq<A>,
    src: Seq<A>,
    inv_m: Seq<A>,
    ctx: GpuWarpContext,
    launch: Launch,
    mode: InterpolationMode,
    order: Seq<int>,
)
    requires
        ctx.plans(launch),
        dst.len() == launch.dst_len,
        forall|i: int| 0 <= i < order.len() ==> 0 <= #[trigger] order[i],
        forall|p: int| 0 <= p < launch.grid * launch.block ==> #[trigger] order.contains(p),
    ensures
        after_threads(dst, src, inv_m, ctx, mode, order) == kernel_image(src, inv_m, ctx, mode),
{
    let after = after_threads(dst, src, inv_m, ctx, mode, order);
    lemma_threads(dst, src, inv_m, ctx, mode, order);
    assert forall|j: int| 0 <= j < dst.len() implies #[trigger] after[j] == kernel_image(
        src,
        inv_m,
        ctx,
        mode,
    )[j] by {
        lemma_sample_place(j, ctx.dst_width * ctx.dst_height, ctx.channels as int);
        assert(order.contains(j / ctx.channels as int));
    }
    assert(after =~= kernel_image(src, inv_m, ctx, mode));
}

/// A context can be used again: whatever earlier frames left in the output buffer, and
/// whatever the order of the threads, a launch with the same inputs gives the same image.
pub proof fn reuse_law<A: Arith>(
    first: Seq<A>,
    later: Seq<A>,
    src: Seq<A>,
    inv_m: Seq<A>,
    ctx: GpuWarpContext,
    launch: Launch,
    mode: InterpolationMode,
    first_order: Seq<int>,
    later_order: Seq<int>,
)
    requires
        ctx.plans(launch),
        first.len() == launch.dst_len,
        later.len() == launch.dst_len,
        forall|i: int| 0 <= i < first_order.len() ==> 0 <= #[trigger] first_order[i],
        forall|i: int| 0 <= i < later_order.len() ==> 0 <= #[trigger] later_order[i],
        forall|p: int| 0 <= p < launch.grid * launch.block ==> #[trigger] first_order.contains(p),
        forall|p: int| 0 <= p < launch.grid * launch.block ==> #[trigger] later_order.contains(p),
    ensures
        after_threads(first, src, inv_m, ctx, mode, first_order) == after_threads(
            later,
            src,
            inv_m,
            ctx,
            mode,
            later_order,
        ),
{
    launch_law(first, src, inv_m, ctx, launch, mode, first_order);
    launch_law(later, src, inv_m, ctx, launch, mode, later_order);
}

/// Of two threads either may run first.
pub proof fn threads_commute_law<A: Arith>(
    dst: Seq<A>,
    src: Seq<A>,
    inv_m: Seq<A>,
    src_w: int,
    src_h: int,
    dst_w: int,
    dst_h: int,
    ch: int,
    mode: InterpolationMode,
    p: int,
    q: int,
)
    ensures
        ({
            let p_first = after_thread(
                dst,
                src,
                inv_m,
                src_w,
                src_h,
                dst_w,
                dst_h,
                ch,
                mode,
                p,
            );
            let q_first = after_thread(
                dst,
                src,
                inv_m,
                src_w,
                src_h,
                dst_w,
                dst_h,
                ch,
                mode,
                q,
            );
            after_thread(p_first, src, inv_m, src_w, src_h, dst_w, dst_h, ch, mode, q)
                == after_thread(q_first, src, inv_m, src_w, src_h, dst_w, dst_h, ch, mode, p)
        }),
{
    let p_first = after_thread(dst, src, inv_m, src_w, src_h, dst_w, dst_h, ch, mode, p);
    let q_first = after_thread(dst, src, inv_m, src_w, src_h, dst_w, dst_h, ch, mode, q);
    let pq = after_thread(p_first, src, inv_m, src_w, src_h, dst_w, dst_h, ch, mode, q);
    let qp = after_thread(q_first, src, inv_m, src_w, src_h, dst_w, dst_h, ch, mode, p);
    assert forall|j: int| 0 <= j < dst.len() implies pq[j] == qp[j] by {
        if p * ch <= j < p * ch + ch && q * ch <= j < q * ch + ch {
            lemma_place_of_sample(p, j - p * ch, ch);
            lemma_place_of_sample(q, j - q * ch, ch);
        }
    }
    assert(pq =~= qp);
}

/// No thread writes a sample that another thread writes.
pub proof fn threads_disjoint_law<A: Arith>(
    dst: Seq<A>,
    src: Seq<A>,
    inv_m: Seq<A>,
    ctx: GpuWarpContext,
    mode: InterpolationMode,
    p: int,
    q: int,
    j: int,
)
    requires
        p != q,
        0 <= j < dst.len(),
    ensures
        after_threads(dst, src, inv_m, ctx, mode, seq![p])[j] == dst[j] || after_threads(
            dst,
            src,
            inv_m,
            ctx,
            mode,
            seq![q],
        )[j] == dst[j],
{
    let ch = ctx.channels as int;
    assert(seq![p].drop_last() =~= seq![]);
    assert(seq![q].drop_last() =~= seq![]);
    reveal_with_fuel(after_threads, 2);
    if p * ch <= j < p * ch + ch && q * ch <= j < q * ch + ch {
        lemma_place_of_sample(p, j - p * ch, ch);
        lemma_place_of_sample(q, j - q * ch, ch);
    }
}

} // verus!
