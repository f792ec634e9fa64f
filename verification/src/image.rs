//! Images as plain samples, and the errors of image operations.

use vstd::arithmetic::div_mod::{
    lemma_fundamental_div_mod, lemma_fundamental_div_mod_converse, lemma_mod_bound,
};
use vstd::prelude::*;

verus! {

/// How a sample between pixels is computed.
#[derive(Clone, Copy, Debug, PartialEq, Eq, Structural)]
pub enum InterpolationMode {
    Bilinear,
    Nearest,
    Lanczos,
    Bicubic,
}

/// Why an image operation was refused.
#[derive(Clone, Copy, Debug, PartialEq, Eq, Structural)]
pub enum ImageError {
    /// An image size, given as two numbers, does not match another.
    InvalidImageSize(usize, usize, usize, usize),
    /// The length of the data does not match the image size.
    InvalidChannelShape(usize, usize),
    /// The matrix is singular.
    CannotComputeDeterminant,
    /// The operation does not offer the interpolation mode.
    UnsupportedInterpolation(InterpolationMode),
}

/// The size of an image in pixels.
#[derive(Clone, Copy, Debug, PartialEq, Eq, Structural)]
pub struct ImageSize {
    pub width: usize,
    pub height: usize,
}

/// The number of samples of an image.
pub open spec fn sample_count(width: int, height: int, channels: int) -> int {
    width * height * channels
}

/// The place of channel `k` of the pixel in column `x` and row `y`.
pub open spec fn offset(width: int, channels: int, x: int, y: int, k: int) -> int {
    (y * width + x) * channels + k
}

/// An image of `C` channels: the samples of a pixel lie side by side, the pixels row
/// by row.
#[derive(Debug)]
pub struct Image<S, const C: usize> {
    pub size: ImageSize,
    pub data: Vec<S>,
}

impl<S: Copy, const C: usize> Image<S, C> {
    /// There is one sample for each channel of each pixel.
    pub open spec fn wf(&self) -> bool {
        self.data@.len() == sample_count(
            self.size.width as int,
            self.size.height as int,
            C as int,
        )
    }

    /// An image with the given samples, or an error where their number does not match.
    pub fn new(size: ImageSize, data: Vec<S>) -> (r: Result<Self, ImageError>)
        requires
            size.width * size.height <= usize::MAX,
            sample_count(size.width as int, size.height as int, C as int) <= usize::MAX,
        ensures
            r is Ok <==> data@.len() == sample_count(
                size.width as int,
                size.height as int,
                C as int,
            ),
            r matches Ok(image) ==> image.wf() && image.size == size && image.data == data,
            r matches Err(e) ==> e == ImageError::InvalidChannelShape(
                data@.len() as usize,
                sample_count(size.width as int, size.height as int, C as int) as usize,
            ),
    {
        let expected: usize = size.width * size.height * C;
        if data.len() != expected {
            return Err(ImageError::InvalidChannelShape(data.len(), expected));
        }
        Ok(Image { size, data })
    }

    /// An image with the same value for all samples.
    pub fn from_size_val(size: ImageSize, val: S) -> (r: Result<Self, ImageError>)
        requires
            size.width * size.height <= usize::MAX,
            sample_count(size.width as int, size.height as int, C as int) <= usize::MAX,
        ensures
            r matches Ok(image) && image.wf() && image.size == size && forall|i: int|
                0 <= i < image.data@.len() ==> image.data@[i] == val,
    {
        let count: usize = size.width * size.height * C;
        let mut data: Vec<S> = Vec::new();
        for i in 0..count
            invariant
                data@.len() == i,
                forall|j: int| 0 <= j < i ==> data@[j] == val,
        {
            data.push(val);
        }
        Image::new(size, data)
    }

    pub fn size(&self) -> (r: ImageSize)
        ensures
            r == self.size,
    {
        self.size
    }

    pub fn cols(&self) -> (r: usize)
        ensures
            r == self.size.width,
    {
        self.size.width
    }

    pub fn rows(&self) -> (r: usize)
        ensures
            r == self.size.height,
    {
        self.size.height
    }

    pub fn num_channels(&self) -> (r: usize)
        ensures
            r == C,
    {
        C
    }

    pub fn as_slice(&self) -> (r: &[S])
        ensures
            r@ == self.data@,
    {
        self.data.as_slice()
    }
}

/// The samples of the pixels of an image lie within it.
pub proof fn lemma_offset_in_range(width: int, height: int, channels: int, x: int, y: int, k: int)
    requires
        0 <= x < width,
        0 <= y < height,
        0 <= k < channels,
    ensures
        0 <= y * width <= y * width + x < width * height,
        0 <= (y * width + x) * channels <= offset(width, channels, x, y, k) < sample_count(
            width,
            height,
            channels,
        ),
{
    let p = y * width + x;
    assert(0 <= y * width && y * width + width <= width * height) by (nonlinear_arith)
        requires
            0 <= y < height,
            0 < width,
    ;
    assert(0 <= p * channels && p * channels + channels <= width * height * channels)
        by (nonlinear_arith)
        requires
            0 <= p < width * height,
            0 < channels,
    ;
}

/// Sample `j` is channel `j % channels` of pixel `j / channels`.
pub proof fn lemma_sample_place(j: int, pixels: int, channels: int)
    requires
        0 <= j < pixels * channels,
        0 <= channels,
    ensures
        channels > 0,
        0 <= j / channels < pixels,
        0 <= j % channels < channels,
        j == (j / channels) * channels + j % channels,
{
    assert(channels > 0) by {
        if channels == 0 {
            assert(pixels * 0 == 0) by (nonlinear_arith);
        }
    }
    lemma_fundamental_div_mod(j, channels);
    lemma_mod_bound(j, channels);
    let q = j / channels;
    assert(0 <= q < pixels && q * channels == channels * q) by (nonlinear_arith)
        requires
            0 <= j < pixels * channels,
            j == channels * q + j % channels,
            0 <= j % channels < channels,
    ;
}

/// Channel `k` of pixel `p` is found again from its place.
pub proof fn lemma_place_of_sample(p: int, k: int, channels: int)
    requires
        0 <= k < channels,
    ensures
        (p * channels + k) / channels == p,
        (p * channels + k) % channels == k,
{
    lemma_fundamental_div_mod_converse(p * channels + k, channels, p, k);
}

} // verus!
