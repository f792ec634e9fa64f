use kornia_warp::fixed::{Fixed, ONE};
use kornia_warp::image::{Image, ImageSize, InterpolationMode};
use kornia_warp::matrix::{determinant3x3, inverse_perspective_matrix, transform_point};
use kornia_warp::scalar::Scalar;
use kornia_warp::warp::{warp_perspective, WarpBackend};

fn whole(n: i32) -> Fixed {
    Fixed {
        raw: n * ONE as i32,
    }
}

#[test]
fn products_and_quotients_round_down() {
    assert_eq!(whole(3).mul(whole(-4)), whole(-12));
    assert_eq!(Fixed { raw: 1 }.mul(Fixed { raw: 1 }), Fixed { raw: 0 });
    assert_eq!(Fixed { raw: -1 }.mul(Fixed { raw: 1 }), Fixed { raw: -1 });
    assert_eq!(whole(1).div(whole(3)), Fixed { raw: 21845 });
    assert_eq!(whole(-1).div(whole(3)), Fixed { raw: -21846 });
    assert_eq!(whole(1).div(whole(-3)), Fixed { raw: -21846 });
    assert_eq!(whole(6).div(whole(-3)), whole(-2));
}

#[test]
fn results_saturate() {
    let (least, greatest) = (Fixed { raw: i32::MIN }, Fixed { raw: i32::MAX });
    assert_eq!(greatest.add(whole(1)), greatest);
    assert_eq!(least.sub(whole(1)), least);
    assert_eq!(whole(300).mul(whole(300)), greatest);
    assert_eq!(whole(300).mul(whole(-300)), least);
    assert_eq!(whole(1).div(whole(0)), greatest);
    assert_eq!(whole(-1).div(whole(0)), least);
    assert_eq!(whole(0).div(whole(0)), whole(0));
    assert_eq!(Fixed::from_index(40000), greatest);
}

#[test]
fn integral_part_is_an_index() {
    assert_eq!(Fixed { raw: 65535 }.to_index(), 0);
    assert_eq!(whole(7).to_index(), 7);
    assert_eq!(whole(-7).to_index(), 0);
    assert_eq!(Fixed::from_index(7), whole(7));
}

#[test]
fn perspective_in_fixed_point() {
    let m = [1, 0, -1, 0, 1, 1, 0, 0, 1].map(whole);
    assert_eq!(determinant3x3(&m), whole(1));
    let inv_m = inverse_perspective_matrix(&m).unwrap();
    assert_eq!(inv_m, [1, 0, 1, 0, 1, -1, 0, 0, 1].map(whole));
    assert_eq!(
        transform_point(whole(1), whole(1), &m),
        (whole(0), whole(2))
    );
}

#[test]
fn quarter_turn_in_fixed_point() {
    let size = ImageSize {
        width: 3,
        height: 3,
    };
    let src = Image::<Fixed, 1>::new(size, (0..9).map(whole).collect()).unwrap();
    let mut dst = Image::<Fixed, 1>::from_size_val(size, whole(0)).unwrap();
    // (x, y) goes to (2 - y, x)
    let m = [0, -1, 2, 1, 0, 0, 0, 0, 1].map(whole);
    warp_perspective(
        &src,
        &mut dst,
        &m,
        InterpolationMode::Bilinear,
        &WarpBackend::Cpu,
    )
    .unwrap();
    let expected: Vec<Fixed> = [6, 3, 0, 7, 4, 1, 8, 5, 2].map(whole).to_vec();
    assert_eq!(dst.as_slice(), &expected[..]);
}

#[test]
fn samples_between_pixels_stay_between_them() {
    let size = ImageSize {
        width: 2,
        height: 1,
    };
    let src = Image::<Fixed, 1>::new(size, vec![whole(2), whole(6)]).unwrap();
    let mut dst = Image::<Fixed, 1>::from_size_val(
        ImageSize {
            width: 4,
            height: 1,
        },
        whole(0),
    )
    .unwrap();
    // twice as wide
    let m = [2, 0, 0, 0, 1, 0, 0, 0, 1].map(whole);
    warp_perspective(
        &src,
        &mut dst,
        &m,
        InterpolationMode::Bilinear,
        &WarpBackend::Cpu,
    )
    .unwrap();
    assert_eq!(dst.as_slice(), &[2, 4, 6, 6].map(whole)[..]);
}

#[test]
fn shear_forth_and_back_in_fixed_point() {
    let size = ImageSize {
        width: 2,
        height: 2,
    };
    let src = Image::<Fixed, 1>::new(
        size,
        vec![
            Fixed { raw: 7 },
            Fixed { raw: i32::MIN },
            Fixed { raw: i32::MAX },
            Fixed { raw: -3 },
        ],
    )
    .unwrap();
    // (x, y) goes to (x, x + y + 1)
    let m = [1, 0, 0, 1, 1, 1, 0, 0, 1].map(whole);
    let inv_m = inverse_perspective_matrix(&m).unwrap();
    assert_eq!(inv_m, [1, 0, 0, -1, 1, -1, 0, 0, 1].map(whole));
    let mut mid = Image::<Fixed, 1>::from_size_val(
        ImageSize {
            width: 2,
            height: 4,
        },
        whole(5),
    )
    .unwrap();
    let mut out = Image::<Fixed, 1>::from_size_val(size, whole(5)).unwrap();
    let mode = InterpolationMode::Bilinear;
    warp_perspective(&src, &mut mid, &m, mode, &WarpBackend::Cpu).unwrap();
    warp_perspective(&mid, &mut out, &inv_m, mode, &WarpBackend::Cpu).unwrap();
    assert_eq!(out.as_slice(), src.as_slice());
}

#[test]
fn long_shift_forth_and_back_in_fixed_point() {
    let size = ImageSize {
        width: 2,
        height: 1,
    };
    let src = Image::<Fixed, 1>::new(size, vec![Fixed { raw: 9 }, whole(-4)]).unwrap();
    // (x, y) goes to (x + 200, x + y + 1)
    let m = [1, 0, 200, 1, 1, 1, 0, 0, 1].map(whole);
    let inv_m = inverse_perspective_matrix(&m).unwrap();
    assert_eq!(inv_m, [1, 0, -200, -1, 1, 199, 0, 0, 1].map(whole));
    let mut mid = Image::<Fixed, 1>::from_size_val(
        ImageSize {
            width: 300,
            height: 3,
        },
        whole(5),
    )
    .unwrap();
    let mut out = Image::<Fixed, 1>::from_size_val(size, whole(5)).unwrap();
    let mode = InterpolationMode::Bilinear;
    warp_perspective(&src, &mut mid, &m, mode, &WarpBackend::Cpu).unwrap();
    assert_eq!(mid.as_slice()[300 + 200], Fixed { raw: 9 });
    assert_eq!(mid.as_slice()[600 + 201], whole(-4));
    warp_perspective(&mid, &mut out, &inv_m, mode, &WarpBackend::Cpu).unwrap();
    assert_eq!(out.as_slice(), src.as_slice());
}
