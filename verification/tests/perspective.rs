use kornia_warp::image::{Image, ImageError, ImageSize, InterpolationMode};
use kornia_warp::scalar::{Arith, Scalar};
use kornia_warp::warp::{map_pixels, warp_perspective, WarpBackend, WarpStep};

/// Single precision arithmetic.
#[derive(Clone, Copy, Debug, PartialEq)]
struct Single(f32);

impl Arith for Single {}

impl Scalar for Single {
    fn add(self, rhs: Self) -> Self {
        Single(self.0 + rhs.0)
    }
    fn sub(self, rhs: Self) -> Self {
        Single(self.0 - rhs.0)
    }
    fn mul(self, rhs: Self) -> Self {
        Single(self.0 * rhs.0)
    }
    fn div(self, rhs: Self) -> Self {
        Single(self.0 / rhs.0)
    }
    fn equals(self, rhs: Self) -> bool {
        self.0 == rhs.0
    }
    fn less_than(self, rhs: Self) -> bool {
        self.0 < rhs.0
    }
    fn at_least(self, rhs: Self) -> bool {
        self.0 >= rhs.0
    }
    fn from_index(n: usize) -> Self {
        Single(n as f32)
    }
    fn to_index(self) -> usize {
        self.0 as usize
    }
    fn to_bits(self) -> u32 {
        self.0.to_bits()
    }
    fn from_bits(w: u32) -> Self {
        Single(f32::from_bits(w))
    }
}

fn matrix(m: [f32; 9]) -> [Single; 9] {
    m.map(Single)
}

fn samples(v: Vec<f32>) -> Vec<Single> {
    v.into_iter().map(Single).collect()
}

fn floats<const C: usize>(image: &Image<Single, C>) -> Vec<f32> {
    image.as_slice().iter().map(|s| s.0).collect()
}

fn is_done(step: WarpStep) -> bool {
    matches!(step, WarpStep::Done)
}

#[test]
fn inverse_perspective_matrix() -> Result<(), ImageError> {
    let m = matrix([1.0, 0.0, -1.0, 0.0, 1.0, 1.0, 0.0, 0.0, 1.0]);
    let expected = matrix([1.0, 0.0, 1.0, 0.0, 1.0, -1.0, 0.0, 0.0, 1.0]);
    let inv_m = kornia_warp::matrix::inverse_perspective_matrix(&m)?;
    assert_eq!(inv_m, expected);
    Ok(())
}

#[test]
fn transform_point() {
    let m = matrix([1.0, 0.0, -1.0, 0.0, 1.0, 1.0, 0.0, 0.0, 1.0]);
    let (x, y) = kornia_warp::matrix::transform_point(Single(1.0), Single(1.0), &m);
    let (x_expected, y_expected) = (Single(0.0), Single(2.0));
    assert_eq!(x, x_expected);
    assert_eq!(y, y_expected);
}

#[test]
fn warp_perspective_identity() -> Result<(), ImageError> {
    let image: Image<Single, 3> = Image::from_size_val(
        ImageSize {
            width: 4,
            height: 5,
        },
        Single(0.0f32),
    )?;

    // identity matrix
    let m = matrix([1.0, 0.0, 0.0, 0.0, 1.0, 0.0, 0.0, 0.0, 1.0]);

    let new_size = ImageSize {
        width: 2,
        height: 3,
    };

    let mut image_transformed = Image::from_size_val(new_size, Single(0.0))?;

    let step = warp_perspective(
        &image,
        &mut image_transformed,
        &m,
        InterpolationMode::Bilinear,
        &WarpBackend::Cpu,
    )?;

    assert!(is_done(step));
    assert_eq!(image_transformed.num_channels(), 3);
    assert_eq!(image_transformed.size().width, 2);
    assert_eq!(image_transformed.size().height, 3);

    Ok(())
}

#[test]
fn warp_perspective_unsupported_interpolation() -> Result<(), ImageError> {
    let src = Image::<Single, 1>::from_size_val(
        ImageSize {
            width: 2,
            height: 2,
        },
        Single(0.0),
    )?;
    let mut dst = Image::<Single, 1>::from_size_val(
        ImageSize {
            width: 2,
            height: 2,
        },
        Single(0.0),
    )?;
    let m = matrix([1.0, 0.0, 0.0, 0.0, 1.0, 0.0, 0.0, 0.0, 1.0]);
    let err = warp_perspective(
        &src,
        &mut dst,
        &m,
        InterpolationMode::Lanczos,
        &WarpBackend::Cpu,
    );
    assert!(err.is_err());
    Ok(())
}

#[test]
fn warp_perspective_hflip() -> Result<(), ImageError> {
    let image = Image::<_, 1>::new(
        ImageSize {
            width: 2,
            height: 3,
        },
        samples(vec![0.0f32, 1.0, 2.0, 3.0, 4.0, 5.0]),
    )?;

    let image_expected = vec![1.0, 0.0, 3.0, 2.0, 5.0, 4.0];

    // flip matrix
    let m = matrix([-1.0, 0.0, 1.0, 0.0, 1.0, 0.0, 0.0, 0.0, 1.0]);

    let new_size = ImageSize {
        width: 2,
        height: 3,
    };

    let mut image_transformed = Image::<_, 1>::from_size_val(new_size, Single(0.0))?;

    warp_perspective(
        &image,
        &mut image_transformed,
        &m,
        InterpolationMode::Bilinear,
        &WarpBackend::Cpu,
    )?;

    assert_eq!(image_transformed.num_channels(), 1);
    assert_eq!(image_transformed.size().width, 2);
    assert_eq!(image_transformed.size().height, 3);

    assert_eq!(floats(&image_transformed), image_expected);

    Ok(())
}

#[test]
fn test_warp_perspective_resize() -> Result<(), ImageError> {
    let image = Image::<_, 1>::new(
        ImageSize {
            width: 4,
            height: 4,
        },
        samples(vec![
            0.0f32, 1.0, 2.0, 3.0, 4.0, 5.0, 6.0, 7.0, 8.0, 9.0, 10.0, 11.0, 12.0, 13.0, 14.0,
            15.0,
        ]),
    )?;

    // resize matrix (from get_perspective_transform)
    let m = matrix([0.3333, 0.0, 0.0, 0.0, 0.3333, 0.0, 0.0, 0.0, 1.0]);

    let image_expected = vec![0.0, 3.0, 12.0, 15.0];

    let new_size = ImageSize {
        width: 2,
        height: 2,
    };

    let mut image_transformed = Image::<_, 1>::from_size_val(new_size, Single(0.0))?;

    warp_perspective(
        &image,
        &mut image_transformed,
        &m,
        InterpolationMode::Bilinear,
        &WarpBackend::Cpu,
    )?;

    assert_eq!(image_transformed.num_channels(), 1);
    assert_eq!(image_transformed.size().width, 2);
    assert_eq!(image_transformed.size().height, 2);

    assert_eq!(floats(&image_transformed), image_expected);

    Ok(())
}

#[test]
fn test_warp_perspective_shift() -> Result<(), ImageError> {
    let image = Image::<_, 1>::new(
        ImageSize {
            width: 4,
            height: 4,
        },
        samples(vec![
            0.0f32, 1.0, 2.0, 3.0, 4.0, 5.0, 6.0, 7.0, 8.0, 9.0, 10.0, 11.0, 12.0, 13.0, 14.0,
            15.0,
        ]),
    )?;

    // shift left by 1 pixel
    let shift_right = -1;
    let m = matrix([1.0, 0.0, shift_right as f32, 0.0, 1.0, 0.0, 0.0, 0.0, 1.0]);

    let image_expected = vec![
        1.0f32, 2.0, 3.0, 0.0, 5.0, 6.0, 7.0, 0.0, 9.0, 10.0, 11.0, 0.0, 13.0, 14.0, 15.0, 0.0,
    ];

    let new_size = ImageSize {
        width: image.rows(),
        height: image.cols(),
    };

    let mut image_transformed = Image::<_, 1>::from_size_val(new_size, Single(0.0))?;

    warp_perspective(
        &image,
        &mut image_transformed,
        &m,
        InterpolationMode::Bilinear,
        &WarpBackend::Cpu,
    )?;

    assert_eq!(image_transformed.num_channels(), 1);
    assert_eq!(image_transformed.size().width, 4);
    assert_eq!(image_transformed.size().height, 4);

    assert_eq!(floats(&image_transformed), image_expected);

    Ok(())
}

#[test]
fn translation_into_a_smaller_image_keeps_its_size() -> Result<(), ImageError> {
    let src = Image::<Single, 1>::new(
        ImageSize {
            width: 4,
            height: 5,
        },
        samples(vec![0.0f32; 4 * 5]),
    )?;
    let m = matrix([1.0, 0.0, -1.0, 0.0, 1.0, 1.0, 0.0, 0.0, 1.0]);
    let mut dst = Image::<Single, 1>::from_size_val(
        ImageSize {
            width: 2,
            height: 3,
        },
        Single(0.0),
    )?;
    warp_perspective(
        &src,
        &mut dst,
        &m,
        InterpolationMode::Bilinear,
        &WarpBackend::Cpu,
    )?;
    assert_eq!(dst.size().width, 2);
    assert_eq!(dst.size().height, 3);
    Ok(())
}

#[test]
fn determinant_and_adjugate_have_exact_values() {
    let m = matrix([2.0, 3.0, 5.0, 7.0, 11.0, 13.0, 17.0, 19.0, 23.0]);
    assert_eq!(kornia_warp::matrix::determinant3x3(&m), Single(-78.0));
    assert_eq!(
        kornia_warp::matrix::adjugate3x3(&m),
        matrix([6.0, 26.0, -16.0, 60.0, -39.0, 9.0, -54.0, 13.0, 1.0])
    );
}

#[test]
fn perspective_division_divides_by_the_third_row() {
    let m = matrix([1.0, 2.0, 3.0, 4.0, 5.0, 6.0, 0.0, 1.0, 2.0]);
    let p = kornia_warp::matrix::transform_point(Single(2.0), Single(2.0), &m);
    assert_eq!(p, (Single(2.25), Single(6.0)));
}

#[test]
fn inverse_takes_a_point_back() -> Result<(), ImageError> {
    let m = matrix([2.0, 0.0, 4.0, 0.0, 4.0, -8.0, 0.0, 0.0, 1.0]);
    let inv_m = kornia_warp::matrix::inverse_perspective_matrix(&m)?;
    let (x, y) = kornia_warp::matrix::transform_point(Single(3.0), Single(5.0), &m);
    assert_eq!((x, y), (Single(10.0), Single(12.0)));
    let back = kornia_warp::matrix::transform_point(x, y, &inv_m);
    assert_eq!(back, (Single(3.0), Single(5.0)));
    Ok(())
}

#[test]
fn singular_matrix_is_refused_and_output_is_kept() -> Result<(), ImageError> {
    let src = Image::<Single, 1>::new(
        ImageSize {
            width: 2,
            height: 1,
        },
        samples(vec![1.0, 2.0]),
    )?;
    let mut dst = Image::<Single, 1>::from_size_val(src.size(), Single(7.0))?;
    let m = matrix([1.0, 2.0, 3.0, 2.0, 4.0, 6.0, 0.0, 0.0, 1.0]);
    let r = warp_perspective(
        &src,
        &mut dst,
        &m,
        InterpolationMode::Bilinear,
        &WarpBackend::Cpu,
    );
    assert_eq!(r.err(), Some(ImageError::CannotComputeDeterminant));
    assert_eq!(floats(&dst), vec![7.0, 7.0]);
    // the mode is looked at before the matrix
    let r = warp_perspective(
        &src,
        &mut dst,
        &m,
        InterpolationMode::Bicubic,
        &WarpBackend::Cpu,
    );
    assert_eq!(
        r.err(),
        Some(ImageError::UnsupportedInterpolation(InterpolationMode::Bicubic))
    );
    assert_eq!(floats(&dst), vec![7.0, 7.0]);
    Ok(())
}

#[test]
fn pixels_that_show_no_point_keep_their_value() -> Result<(), ImageError> {
    let src = Image::<Single, 2>::new(
        ImageSize {
            width: 2,
            height: 1,
        },
        samples(vec![1.0, 2.0, 3.0, 4.0]),
    )?;
    let mut dst = Image::<Single, 2>::from_size_val(
        ImageSize {
            width: 2,
            height: 2,
        },
        Single(9.0),
    )?;
    // shift right by one pixel
    let m = matrix([1.0, 0.0, 1.0, 0.0, 1.0, 0.0, 0.0, 0.0, 1.0]);
    warp_perspective(
        &src,
        &mut dst,
        &m,
        InterpolationMode::Nearest,
        &WarpBackend::Cpu,
    )?;
    assert_eq!(
        floats(&dst),
        vec![9.0, 9.0, 1.0, 2.0, 9.0, 9.0, 9.0, 9.0]
    );
    Ok(())
}

#[test]
fn interpolation_between_pixels() -> Result<(), ImageError> {
    let src = Image::<Single, 1>::new(
        ImageSize {
            width: 2,
            height: 2,
        },
        samples(vec![0.0, 4.0, 8.0, 16.0]),
    )?;
    let at = |x: f32, y: f32, mode: InterpolationMode| {
        kornia_warp::interpolation::interpolate_pixel_fast(&src, Single(x), Single(y), 0, mode).0
    };
    assert_eq!(at(0.5, 0.5, InterpolationMode::Bilinear), 7.0);
    assert_eq!(at(0.25, 0.0, InterpolationMode::Bilinear), 1.0);
    // past the last pixel it stands for the missing one
    assert_eq!(at(1.5, 1.5, InterpolationMode::Bilinear), 16.0);
    assert_eq!(at(0.25, 0.75, InterpolationMode::Nearest), 8.0);
    assert_eq!(at(1.75, 0.0, InterpolationMode::Nearest), 4.0);
    Ok(())
}

#[test]
fn nearest_pixel_is_the_nearer_one() -> Result<(), ImageError> {
    let src = Image::<Single, 1>::new(
        ImageSize {
            width: 3,
            height: 1,
        },
        samples(vec![1.0, 2.0, 3.0]),
    )?;
    let at = |x: f32| {
        let mode = InterpolationMode::Nearest;
        kornia_warp::interpolation::interpolate_pixel_fast(&src, Single(x), Single(0.0), 0, mode).0
    };
    // the number before 1/2, which rounds to 1 when 1/2 is added to it
    let before_half = f32::from_bits(0.5f32.to_bits() - 1);
    assert_eq!(before_half + 0.5, 1.0);
    assert_eq!(at(before_half), 1.0);
    assert_eq!(at(0.5), 2.0);
    assert_eq!(at(1.25), 2.0);
    assert_eq!(at(1.5), 3.0);
    assert_eq!(at(2.75), 3.0);
    Ok(())
}

#[test]
fn warping_back_restores_samples_of_either_zero() -> Result<(), ImageError> {
    let size = ImageSize {
        width: 2,
        height: 2,
    };
    let data = vec![-0.0, 5.0, -7.5, -0.0];
    let src = Image::<Single, 1>::new(size, samples(data.clone()))?;
    // (x, y) goes to (x + y, y + 1)
    let m = matrix([1.0, 1.0, 0.0, 0.0, 1.0, 1.0, 0.0, 0.0, 1.0]);
    let inv_m = kornia_warp::matrix::inverse_perspective_matrix(&m)?;
    for mode in [InterpolationMode::Bilinear, InterpolationMode::Nearest] {
        let mut mid = Image::<Single, 1>::from_size_val(
            ImageSize {
                width: 3,
                height: 3,
            },
            Single(9.0),
        )?;
        let mut out = Image::<Single, 1>::from_size_val(size, Single(9.0))?;
        assert!(is_done(warp_perspective(&src, &mut mid, &m, mode, &WarpBackend::Cpu)?));
        assert!(is_done(warp_perspective(&mid, &mut out, &inv_m, mode, &WarpBackend::Cpu)?));
        assert_eq!(floats(&out), data);
    }
    Ok(())
}

#[test]
fn data_that_does_not_fit_the_size_is_refused() {
    let r = Image::<Single, 3>::new(
        ImageSize {
            width: 2,
            height: 2,
        },
        samples(vec![0.0; 11]),
    );
    assert_eq!(r.err(), Some(ImageError::InvalidChannelShape(11, 12)));
}

#[test]
fn matrix_times_adjugate_is_the_determinant() {
    let m = [2.0, 3.0, 5.0, 7.0, 11.0, 13.0, 17.0, 19.0, 23.0];
    let adj = kornia_warp::matrix::adjugate3x3(&matrix(m)).map(|s| s.0);
    for row in 0..3 {
        for column in 0..3 {
            let expected = if row == column { -78.0 } else { 0.0 };
            let right: f32 = (0..3).map(|i| m[3 * row + i] * adj[3 * i + column]).sum();
            let left: f32 = (0..3).map(|i| adj[3 * row + i] * m[3 * i + column]).sum();
            assert_eq!(right, expected);
            assert_eq!(left, expected);
        }
    }
}

#[test]
fn identity_copies_the_pixels_that_both_images_have() -> Result<(), ImageError> {
    let src = Image::<Single, 2>::new(
        ImageSize {
            width: 3,
            height: 2,
        },
        samples((1..13).map(|i| i as f32).collect()),
    )?;
    let m = matrix([1.0, 0.0, 0.0, 0.0, 1.0, 0.0, 0.0, 0.0, 1.0]);
    for mode in [InterpolationMode::Bilinear, InterpolationMode::Nearest] {
        let mut dst = Image::<Single, 2>::from_size_val(
            ImageSize {
                width: 2,
                height: 3,
            },
            Single(0.0),
        )?;
        warp_perspective(&src, &mut dst, &m, mode, &WarpBackend::Cpu)?;
        assert_eq!(
            floats(&dst),
            vec![1.0, 2.0, 3.0, 4.0, 7.0, 8.0, 9.0, 10.0, 0.0, 0.0, 0.0, 0.0]
        );
    }
    Ok(())
}

#[test]
fn sampling_function_is_called_at_the_points_shown() -> Result<(), ImageError> {
    let mut dst = Image::<Single, 2>::from_size_val(
        ImageSize {
            width: 3,
            height: 1,
        },
        Single(-1.0),
    )?;
    // output (x, y) shows (x / 2 + 1, y + 4)
    let inv_m = matrix([0.5, 0.0, 1.0, 0.0, 1.0, 4.0, 0.0, 0.0, 1.0]);
    map_pixels(
        ImageSize {
            width: 2,
            height: 5,
        },
        &mut dst,
        &inv_m,
        |x: Single, y: Single, k: usize| Single(100.0 * x.0 + 10.0 * y.0 + k as f32),
    );
    assert_eq!(floats(&dst), vec![140.0, 141.0, 190.0, 191.0, -1.0, -1.0]);
    Ok(())
}
