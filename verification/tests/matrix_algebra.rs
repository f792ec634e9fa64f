use kornia_warp::fixed::{Fixed, ONE};
use kornia_warp::gpu::warp_perspective_kernel;
use kornia_warp::image::{Image, ImageSize, InterpolationMode};
use kornia_warp::matrix::{
    adjugate3x3, determinant3x3, inverse_perspective_matrix, transform_point,
};
use kornia_warp::warp::{warp_perspective, WarpBackend};

fn whole(n: i32) -> Fixed {
    Fixed {
        raw: n * ONE as i32,
    }
}

fn matrix(m: [i32; 9]) -> [Fixed; 9] {
    m.map(whole)
}

fn product(a: [i32; 9], b: [i32; 9]) -> [i32; 9] {
    let mut r = [0; 9];
    for row in 0..3 {
        for column in 0..3 {
            r[3 * row + column] = (0..3).map(|i| a[3 * row + i] * b[3 * i + column]).sum();
        }
    }
    r
}

fn integers(m: [Fixed; 9]) -> [i32; 9] {
    m.map(|s| s.raw / ONE as i32)
}

const A: [i32; 9] = [1, 2, 0, -1, 3, 1, 0, 1, 2];
const B: [i32; 9] = [2, 0, 1, 1, -1, 0, 0, 3, 1];

#[test]
fn determinant_of_a_product() {
    assert_eq!(determinant3x3(&matrix(A)), whole(9));
    assert_eq!(determinant3x3(&matrix(B)), whole(1));
    assert_eq!(determinant3x3(&matrix(product(A, B))), whole(9));
    assert_eq!(determinant3x3(&matrix([1, 0, 0, 0, 1, 0, 0, 0, 1])), whole(1));
}

#[test]
fn adjugate_of_a_product_is_in_reverse() {
    let (a, b) = (adjugate3x3(&matrix(A)), adjugate3x3(&matrix(B)));
    assert_eq!(integers(a), [5, -4, 2, 2, 2, -1, -1, -1, 5]);
    assert_eq!(
        integers(adjugate3x3(&matrix(product(A, B)))),
        product(integers(b), integers(a))
    );
}

#[test]
fn adjugate_of_the_adjugate() {
    let a = adjugate3x3(&matrix(A));
    assert_eq!(integers(adjugate3x3(&a)), A.map(|n| 9 * n));
    assert_eq!(determinant3x3(&a), whole(81));
}

#[test]
fn exchanges_and_transposition() {
    let rows = [-1, 3, 1, 1, 2, 0, 0, 1, 2];
    let columns = [0, 2, 1, 1, 3, -1, 2, 1, 0];
    let transposed = [1, -1, 0, 2, 3, 1, 0, 1, 2];
    assert_eq!(determinant3x3(&matrix(rows)), whole(-9));
    assert_eq!(determinant3x3(&matrix(columns)), whole(-9));
    assert_eq!(determinant3x3(&matrix(transposed)), whole(9));
    assert_eq!(determinant3x3(&matrix([4, 5, 6, 1, 2, 3, 4, 5, 6])), whole(0));
    assert_eq!(determinant3x3(&matrix([4, 5, 4, 1, 2, 1, 7, 9, 7])), whole(0));
}

#[test]
fn inverting_twice_gives_the_matrix_back() {
    let inv_m = inverse_perspective_matrix(&matrix(B)).unwrap();
    assert_eq!(integers(inv_m), adjugate3x3(&matrix(B)).map(|s| s.raw / ONE as i32));
    assert_eq!(inverse_perspective_matrix(&inv_m).unwrap(), matrix(B));
}

#[test]
fn multiples_map_points_alike() {
    let m = [2, 0, 4, 0, 2, 6, 0, 0, 2];
    let p = transform_point(whole(3), whole(5), &matrix(m));
    assert_eq!(p, (whole(5), whole(8)));
    for c in [2, -1, 8] {
        let cm = matrix(m.map(|n| c * n));
        assert_eq!(transform_point(whole(3), whole(5), &cm), p);
    }
}

#[test]
fn composition_is_multiplication() {
    let a = [1, 1, 0, 0, 1, 2, 0, 0, 1];
    let b = [0, -1, 7, 1, 0, 0, 0, 0, 1];
    let (u, v) = transform_point(whole(3), whole(4), &matrix(a));
    assert_eq!((u, v), (whole(7), whole(6)));
    assert_eq!(
        transform_point(u, v, &matrix(b)),
        transform_point(whole(3), whole(4), &matrix(product(b, a)))
    );
    assert_eq!(transform_point(u, v, &matrix(b)), (whole(1), whole(7)));
    let identity = matrix([1, 0, 0, 0, 1, 0, 0, 0, 1]);
    assert_eq!(transform_point(u, v, &identity), (u, v));
}

#[test]
fn warping_back_restores_what_was_not_cut_off() {
    let size = ImageSize {
        width: 3,
        height: 3,
    };
    let src = Image::<Fixed, 1>::new(size, (1..10).map(whole).collect()).unwrap();
    // (x, y) goes to (x + y, y)
    let m = matrix([1, 1, 0, 0, 1, 0, 0, 0, 1]);
    let inv_m = inverse_perspective_matrix(&m).unwrap();
    for mode in [InterpolationMode::Bilinear, InterpolationMode::Nearest] {
        let mut mid = Image::<Fixed, 1>::from_size_val(
            ImageSize {
                width: 4,
                height: 3,
            },
            whole(0),
        )
        .unwrap();
        let mut out = Image::<Fixed, 1>::from_size_val(size, whole(0)).unwrap();
        warp_perspective(&src, &mut mid, &m, mode, &WarpBackend::Cpu).unwrap();
        warp_perspective(&mid, &mut out, &inv_m, mode, &WarpBackend::Cpu).unwrap();
        // the last pixel went to column 4, off the image between
        let expected: Vec<Fixed> = [1, 2, 3, 4, 5, 6, 7, 8, 0].map(whole).to_vec();
        assert_eq!(out.as_slice(), &expected[..]);
    }
}

#[test]
fn kernel_is_linear_in_the_input() {
    let s1: Vec<Fixed> = [0, 4, 8, 16].map(whole).to_vec();
    let s2: Vec<Fixed> = [12, -4, 0, 8].map(whole).to_vec();
    let s3: Vec<Fixed> = [36, -4, 16, 56].map(whole).to_vec();
    let half = Fixed {
        raw: ONE as i32 / 2,
    };
    let mut inv_m = matrix([1, 0, 0, 0, 1, 0, 0, 0, 1]);
    inv_m[2] = half;
    inv_m[5] = half;
    for mode in [InterpolationMode::Bilinear, InterpolationMode::Nearest] {
        let at = |s: &Vec<Fixed>| {
            let mut dst = vec![whole(0)];
            warp_perspective_kernel(s, &mut dst, &inv_m, 2, 2, 1, 1, 1, mode, 0);
            dst[0].raw
        };
        assert_eq!(at(&s3), 2 * at(&s1) + 3 * at(&s2));
    }
}
