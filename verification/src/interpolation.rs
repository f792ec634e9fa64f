//! Samples between the pixels of an image.

use crate::image::{
    lemma_offset_in_range, offset, sample_count, Image, ImageError, InterpolationMode,
};
use crate::scalar::{nought, unit, Arith, Scalar};
use vstd::prelude::*;

verus! {

/// The modes that [`interpolate_pixel_fast`] offers.
pub open spec fn supported(mode: InterpolationMode) -> bool {
    mode is Bilinear || mode is Nearest
}

/// Refuses the modes that are not offered.
pub fn validate_interpolation(mode: InterpolationMode) -> (r: Result<(), ImageError>)
    ensures
        r is Ok <==> supported(mode),
        r matches Err(e) ==> e == ImageError::UnsupportedInterpolation(mode),
{
    match mode {
        InterpolationMode::Bilinear | InterpolationMode::Nearest => Ok(()),
        _ => Err(ImageError::UnsupportedInterpolation(mode)),
    }
}

/// The point lies in an image of the given size.
pub open spec fn inside<A: Arith>(x: A, y: A, width: usize, height: usize) -> bool {
    x.reaches(nought()) && x.below(A::of_index(width)) && y.reaches(nought()) && y.below(
        A::of_index(height),
    )
}

/// The index after `i`, or the last one below `bound`.
pub open spec fn neighbour(i: int, bound: int) -> int {
    if i + 1 < bound {
        i + 1
    } else {
        bound - 1
    }
}

/// `a * (1 - t) + b * t`.
pub open spec fn mix<A: Arith>(a: A, b: A, t: A) -> A {
    a.times(unit::<A>().minus(t)).plus(b.times(t))
}

/// Channel `k` at the point `(x, y)`: the four pixels around it, mixed by its distance
/// from the first of them. At the right and lower edge the last pixel stands for the
/// missing one.
pub open spec fn bilinear<A: Arith>(
    src: Seq<A>,
    width: int,
    height: int,
    channels: int,
    x: A,
    y: A,
    k: int,
) -> A {
    let (x0, y0) = (x.index() as int, y.index() as int);
    let (x1, y1) = (neighbour(x0, width), neighbour(y0, height));
    let dx = x.minus(A::of_index(x.index()));
    let dy = y.minus(A::of_index(y.index()));
    mix(
        mix(
            src[offset(width, channels, x0, y0, k)],
            src[offset(width, channels, x1, y0, k)],
            dx,
        ),
        mix(
            src[offset(width, channels, x0, y1, k)],
            src[offset(width, channels, x1, y1, k)],
            dx,
        ),
        dy,
    )
}

/// The scalar 1/2.
pub open spec fn half<A: Arith>() -> A {
    unit::<A>().over(A::of_index(2))
}

/// The index nearest to `x` that is below `bound`; of two, the greater. The integral part
/// of `x` is below `bound`.
pub open spec fn nearest_index<A: Arith>(x: A, bound: int) -> int {
    let i = x.index() as int;
    if x.minus(A::of_index(x.index())).reaches(half()) {
        neighbour(i, bound)
    } else {
        i
    }
}

/// Channel `k` of the pixel nearest to the point `(x, y)`.
pub open spec fn nearest<A: Arith>(
    src: Seq<A>,
    width: int,
    height: int,
    channels: int,
    x: A,
    y: A,
    k: int,
) -> A {
    src[offset(width, channels, nearest_index(x, width), nearest_index(y, height), k)]
}

/// Channel `k` at the point `(x, y)` by an offered mode.
pub open spec fn interpolated<A: Arith>(
    src: Seq<A>,
    width: int,
    height: int,
    channels: int,
    x: A,
    y: A,
    k: int,
    mode: InterpolationMode,
) -> A {
    if mode is Bilinear {
        bilinear(src, width, height, channels, x, y, k)
    } else {
        nearest(src, width, height, channels, x, y, k)
    }
}

fn mix_scalars<S: Scalar>(a: S, b: S, t: S) -> (r: S)
    ensures
        r == mix(a, b, t),
{
    a.mul(S::from_index(1).sub(t)).add(b.mul(t))
}

/// Channel `k` of the pixel in column `x` and row `y`.
fn sample<S: Scalar>(
    src: &[S],
    width: usize,
    height: usize,
    channels: usize,
    x: usize,
    y: usize,
    k: usize,
) -> (r: S)
    requires
        x < width,
        y < height,
        k < channels,
        sample_count(width as int, height as int, channels as int) <= src@.len(),
    ensures
        r == src@[offset(width as int, channels as int, x as int, y as int, k as int)],
{
    let len: usize = src.len();
    proof {
        let (w, h, c) = (width as int, height as int, channels as int);
        lemma_offset_in_range(w, h, c, x as int, y as int, k as int);
        assert(w * h <= w * h * c) by (nonlinear_arith)
            requires
                w > 0,
                h > 0,
                c > 0,
        ;
        assert(offset(w, c, x as int, y as int, k as int) < len);
    }
    src[(y * width + x) * channels + k]
}

/// Bilinear interpolation in a buffer of samples, at a point whose integral parts are
/// indices of a pixel.
fn bilinear_interpolation<S: Scalar>(
    src: &[S],
    width: usize,
    height: usize,
    channels: usize,
    x: S,
    y: S,
    k: usize,
) -> (r: S)
    requires
        x.index() < width,
        y.index() < height,
        k < channels,
        sample_count(width as int, height as int, channels as int) <= src@.len(),
    ensures
        r == bilinear(src@, width as int, height as int, channels as int, x, y, k as int),
{
    let x0: usize = x.to_index();
    let y0: usize = y.to_index();
    let x1: usize = if x0 + 1 < width {
        x0 + 1
    } else {
        width - 1
    };
    let y1: usize = if y0 + 1 < height {
        y0 + 1
    } else {
        height - 1
    };
    let dx = x.sub(S::from_index(x0));
    let dy = y.sub(S::from_index(y0));
    let v00 = sample(src, width, height, channels, x0, y0, k);
    let v10 = sample(src, width, height, channels, x1, y0, k);
    let v01 = sample(src, width, height, channels, x0, y1, k);
    let v11 = sample(src, width, height, channels, x1, y1, k);
    mix_scalars(mix_scalars(v00, v10, dx), mix_scalars(v01, v11, dx), dy)
}

/// The pixel nearest to a point, in a buffer of samples. The integral parts of the point
/// are indices of a pixel.
fn nearest_interpolation<S: Scalar>(
    src: &[S],
    width: usize,
    height: usize,
    channels: usize,
    x: S,
    y: S,
    k: usize,
) -> (r: S)
    requires
        x.index() < width,
        y.index() < height,
        k < channels,
        sample_count(width as int, height as int, channels as int) <= src@.len(),
    ensures
        r == nearest(src@, width as int, height as int, channels as int, x, y, k as int),
{
    let half_unit = S::from_index(1).div(S::from_index(2));
    let x0: usize = x.to_index();
    let y0: usize = y.to_index();
    let xn: usize = if x.sub(S::from_index(x0)).at_least(half_unit) && x0 + 1 < width {
        x0 + 1
    } else {
        x0
    };
    let yn: usize = if y.sub(S::from_index(y0)).at_least(half_unit) && y0 + 1 < height {
        y0 + 1
    } else {
        y0
    };
    sample(src, width, height, channels, xn, yn, k)
}

/// Interpolation by an offered mode in a buffer of samples, at a point whose integral
/// parts are indices of a pixel.
pub fn interpolate_samples<S: Scalar>(
    src: &[S],
    width: usize,
    height: usize,
    channels: usize,
    x: S,
    y: S,
    k: usize,
    mode: InterpolationMode,
) -> (r: S)
    requires
        supported(mode),
        x.index() < width,
        y.index() < height,
        k < channels,
        sample_count(width as int, height as int, channels as int) <= src@.len(),
    ensures
        r == interpolated(
            src@,
            width as int,
            height as int,
            channels as int,
            x,
            y,
            k as int,
            mode,
        ),
{
    if let InterpolationMode::Bilinear = mode {
        bilinear_interpolation(src, width, height, channels, x, y, k)
    } else {
        nearest_interpolation(src, width, height, channels, x, y, k)
    }
}

/// Channel `k` of an image at a point inside it.
pub fn interpolate_pixel_fast<S: Scalar, const C: usize>(
    src: &Image<S, C>,
    x: S,
    y: S,
    k: usize,
    mode: InterpolationMode,
) -> (r: S)
    requires
        src.wf(),
        supported(mode),
        inside(x, y, src.size.width, src.size.height),
        k < C,
    ensures
        r == interpolated(
            src.data@,
            src.size.width as int,
            src.size.height as int,
            C as int,
            x,
            y,
            k as int,
            mode,
        ),
{
    let width: usize = src.cols();
    let height: usize = src.rows();
    let x0: usize = x.to_index();
    let y0: usize = y.to_index();
    assert(x0 < width && y0 < height);
    interpolate_samples(src.as_slice(), width, height, C, x, y, k, mode)
}

} // verus!
