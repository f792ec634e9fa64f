use kornia_warp::bytes::{decode, encode};
use kornia_warp::fixed::Fixed;
use kornia_warp::gpu::{warp_perspective_kernel, GpuWarpContext, Launch};
use kornia_warp::image::{Image, ImageError, ImageSize, InterpolationMode};
use kornia_warp::scalar::{Arith, Scalar};
use kornia_warp::warp::{receive_result, warp_perspective, GpuJob, WarpBackend, WarpStep};
use std::sync::Arc;

/// Single precision arithmetic.
#[derive(Clone, Copy, Debug, PartialEq)]
struct Single(f32);

impl Arith for Single {}

impl Scalar for Single {
    fn add(self, rhs: Self) -> Self {
        Single(self.0 + rhs.0)
    }
    fn sub(self, rhs: Self) -> Self {
        Single(self.0 - rhs.0)
    }
    fn mul(self, rhs: Self) -> Self {
        Single(self.0 * rhs.0)
    }
    fn div(self, rhs: Self) -> Self {
        Single(self.0 / rhs.0)
    }
    fn equals(self, rhs: Self) -> bool {
        self.0 == rhs.0
    }
    fn less_than(self, rhs: Self) -> bool {
        self.0 < rhs.0
    }
    fn at_least(self, rhs: Self) -> bool {
        self.0 >= rhs.0
    }
    fn from_index(n: usize) -> Self {
        Single(n as f32)
    }
    fn to_index(self) -> usize {
        self.0 as usize
    }
    fn to_bits(self) -> u32 {
        self.0.to_bits()
    }
    fn from_bits(w: u32) -> Self {
        Single(f32::from_bits(w))
    }
}

fn matrix(m: [f32; 9]) -> [Single; 9] {
    m.map(Single)
}

fn ramp<const C: usize>(width: usize, height: usize) -> Image<Single, C> {
    let data = (0..width * height * C).map(|i| Single(i as f32)).collect();
    Image::new(ImageSize { width, height }, data).unwrap()
}

fn context(src: ImageSize, dst: ImageSize, channels: u32) -> GpuWarpContext {
    GpuWarpContext::new(
        src.width as u32,
        src.height as u32,
        dst.width as u32,
        dst.height as u32,
        channels,
    )
}

fn job_of(step: WarpStep) -> GpuJob {
    match step {
        WarpStep::Launch(job) => job,
        WarpStep::Done => panic!("no job"),
    }
}

/// Runs a job as a device does, the threads from the last to the first.
fn run(job: &GpuJob) -> Vec<u8> {
    let order: Vec<u32> = (0..job.launch.grid * job.launch.block).rev().collect();
    encode(&run_over(job, vec![Single(-1.0); job.launch.dst_len], &order))
}

/// Runs threads of a job in the given order, over an output buffer.
fn run_over(job: &GpuJob, mut dst: Vec<Single>, order: &[u32]) -> Vec<Single> {
    let src: Vec<Single> = decode(&job.src_bytes);
    let inv_m: Vec<Single> = decode(&job.inv_m_bytes);
    assert_eq!(src.len(), job.launch.src_len);
    assert_eq!(inv_m.len(), job.launch.inv_m_len);
    let inv_m: [Single; 9] = inv_m.try_into().unwrap();
    for pos in order {
        warp_perspective_kernel(
            &src,
            &mut dst,
            &inv_m,
            job.launch.src_w,
            job.launch.src_h,
            job.launch.dst_w,
            job.launch.dst_h,
            job.launch.ch,
            job.mode,
            *pos,
        );
    }
    dst
}

/// Warps on the processor into zeros, and on the device into what is there.
fn both_ways<const C: usize>(
    src: &Image<Single, C>,
    size: ImageSize,
    m: &[Single; 9],
    mode: InterpolationMode,
) -> (Image<Single, C>, Image<Single, C>) {
    let ctx = context(src.size(), size, C as u32);
    let mut by_cpu = Image::from_size_val(size, Single(0.0)).unwrap();
    warp_perspective(src, &mut by_cpu, m, mode, &WarpBackend::Cpu).unwrap();

    let mut by_gpu = Image::from_size_val(size, Single(5.0)).unwrap();
    let backend = WarpBackend::Gpu(Arc::new(ctx));
    let job = job_of(warp_perspective(src, &mut by_gpu, m, mode, &backend).unwrap());
    assert_eq!(job.mode, mode);
    assert!(by_gpu.as_slice().iter().all(|s| *s == Single(5.0)));
    receive_result(&mut by_gpu, &vec![run(&job)]).unwrap();
    (by_cpu, by_gpu)
}

#[test]
fn device_and_processor_agree() {
    let src = ramp::<3>(17, 11);
    let size = ImageSize {
        width: 21,
        height: 19,
    };
    let m = matrix([0.9, 0.1, 2.0, -0.2, 1.1, 1.5, 0.001, 0.002, 1.0]);
    for mode in [InterpolationMode::Bilinear, InterpolationMode::Nearest] {
        let (by_cpu, by_gpu) = both_ways(&src, size, &m, mode);
        assert_eq!(by_gpu.as_slice(), by_cpu.as_slice());
        assert!(by_cpu.as_slice().iter().any(|s| *s != Single(0.0)));
        assert!(by_cpu.as_slice().iter().any(|s| *s == Single(0.0)));
    }
}

#[test]
fn device_interpolates_by_the_mode_given() {
    let size = ImageSize {
        width: 2,
        height: 1,
    };
    let src = Image::<Single, 1>::new(size, vec![Single(0.0), Single(8.0)]).unwrap();
    let m = matrix([1.0, 0.0, -0.25, 0.0, 1.0, 0.0, 0.0, 0.0, 1.0]);
    let (by_cpu, by_gpu) = both_ways(&src, size, &m, InterpolationMode::Nearest);
    assert_eq!(by_gpu.as_slice(), &[Single(0.0), Single(8.0)][..]);
    assert_eq!(by_cpu.as_slice(), by_gpu.as_slice());
    let (by_cpu, by_gpu) = both_ways(&src, size, &m, InterpolationMode::Bilinear);
    assert_eq!(by_gpu.as_slice(), &[Single(2.0), Single(8.0)][..]);
    assert_eq!(by_cpu.as_slice(), by_gpu.as_slice());
}

fn turned_job(src: &Image<Single, 3>, size: ImageSize) -> GpuJob {
    let m = matrix([0.0, -1.0, 4.0, 1.0, 0.0, 0.0, 0.0, 0.0, 1.0]);
    let backend = WarpBackend::Gpu(Arc::new(context(src.size(), size, 3)));
    let mut dst = Image::from_size_val(size, Single(0.0)).unwrap();
    job_of(warp_perspective(src, &mut dst, &m, InterpolationMode::Bilinear, &backend).unwrap())
}

#[test]
fn two_threads_may_run_in_either_order() {
    let size = ImageSize {
        width: 5,
        height: 3,
    };
    let job = turned_job(&ramp::<3>(3, 5), size);
    let start: Vec<Single> = (0..45).map(|i| Single(-1.0 - i as f32)).collect();
    for p in 0..16 {
        for q in 0..16 {
            let pq = run_over(&job, start.clone(), &[p, q]);
            let qp = run_over(&job, start.clone(), &[q, p]);
            assert_eq!(pq, qp);
        }
    }
    assert_ne!(run_over(&job, start.clone(), &[0, 14]), start);
}

#[test]
fn context_is_used_again() {
    let size = ImageSize {
        width: 5,
        height: 3,
    };
    let job = turned_job(&ramp::<3>(3, 5), size);
    let mut other = ramp::<3>(3, 5);
    other.data.reverse();
    let other_job = turned_job(&other, size);
    let order: Vec<u32> = (0..256).collect();
    let first = run_over(&job, vec![Single(f32::NAN); 45], &order);
    let between = run_over(&other_job, first.clone(), &order);
    assert_ne!(between, first);
    assert_eq!(run_over(&job, between, &order), first);
}

#[test]
fn device_and_processor_agree_on_whole_pixels() {
    let src = ramp::<1>(3, 5);
    let size = ImageSize {
        width: 6,
        height: 4,
    };
    // (x, y) goes to (4 - y, x + y)
    let m = matrix([0.0, -1.0, 4.0, 1.0, 1.0, 0.0, 0.0, 0.0, 1.0]);
    for mode in [InterpolationMode::Bilinear, InterpolationMode::Nearest] {
        let (by_cpu, by_gpu) = both_ways(&src, size, &m, mode);
        assert_eq!(by_gpu.as_slice(), by_cpu.as_slice());
        // pixel (1, 2) of the input
        assert_eq!(by_gpu.as_slice()[3 * 6 + 2], Single(7.0));
        assert_eq!(by_gpu.as_slice()[5], Single(0.0));
    }
}

#[test]
fn every_nan_comes_back_as_a_nan() {
    let words = [0x7fc0_0000, 0xffc0_0000, 0x7fc0_0001];
    let data = words.map(|w| Single(f32::from_bits(w)));
    let back = decode::<Single>(&encode(&data));
    assert_eq!(back.len(), 3);
    assert!(back.iter().all(|s| s.0.is_nan()));
}

#[test]
fn refusals_on_the_device_path() {
    let src = ramp::<1>(2, 2);
    let mut dst = ramp::<1>(2, 2);
    let backend = WarpBackend::Gpu(Arc::new(context(src.size(), dst.size(), 1)));
    let identity = matrix([1.0, 0.0, 0.0, 0.0, 1.0, 0.0, 0.0, 0.0, 1.0]);
    let r = warp_perspective(
        &src,
        &mut dst,
        &identity,
        InterpolationMode::Lanczos,
        &backend,
    );
    assert_eq!(
        r.err(),
        Some(ImageError::UnsupportedInterpolation(InterpolationMode::Lanczos))
    );
    let r = warp_perspective(
        &src,
        &mut dst,
        &matrix([0.0; 9]),
        InterpolationMode::Bilinear,
        &backend,
    );
    assert_eq!(r.err(), Some(ImageError::CannotComputeDeterminant));
    assert_eq!(
        receive_result(&mut dst, &vec![]),
        Err(ImageError::InvalidImageSize(0, 0, 0, 0))
    );
    assert_eq!(dst.as_slice(), ramp::<1>(2, 2).as_slice());
}

#[test]
fn only_the_first_buffer_sent_back_counts() {
    let mut dst = ramp::<1>(2, 1);
    let first = encode(&[Single(3.5), Single(-0.25)]);
    receive_result(&mut dst, &vec![first, vec![1, 2, 3]]).unwrap();
    assert_eq!(dst.as_slice(), &[Single(3.5), Single(-0.25)][..]);
    assert_eq!(dst.size(), ImageSize { width: 2, height: 1 });
}

#[test]
fn uploads_are_the_bytes_of_the_machine() {
    let ctx = GpuWarpContext::new(1, 1, 1, 1, 1);
    let data = [Single(1.0), Single(-2.5), Single(1e-20)];
    let mut expected = Vec::new();
    for s in data {
        expected.extend_from_slice(&s.0.to_ne_bytes());
    }
    assert_eq!(ctx.upload_src(&data), expected);
    let m = matrix([1.0, 2.0, 3.0, 4.0, 5.0, 6.0, 7.0, 8.0, 9.0]);
    let mut expected = Vec::new();
    for s in m {
        expected.extend_from_slice(&s.0.to_ne_bytes());
    }
    assert_eq!(ctx.upload_inv_m(&m), expected);
}

#[test]
fn bytes_are_read_back_whatever_their_alignment() {
    let data = vec![Single(1.0), Single(-2.5), Single(1e-20), Single(f32::INFINITY)];
    let bytes = encode(&data);
    assert_eq!(decode::<Single>(&bytes), data);
    let mut shifted = vec![0u8];
    shifted.extend_from_slice(&bytes);
    assert_eq!(decode::<Single>(&shifted[1..]), data);
    assert_eq!(decode::<Single>(&[]), vec![]);
}

#[test]
fn launch_has_the_fewest_blocks() {
    let launch = |w, h| GpuWarpContext::new(3, 2, w, h, 4).dispatch();
    assert_eq!(
        launch(257, 1),
        Launch {
            grid: 2,
            block: 256,
            src_len: 24,
            dst_len: 1028,
            inv_m_len: 9,
            src_w: 3,
            src_h: 2,
            dst_w: 257,
            dst_h: 1,
            ch: 4,
        }
    );
    assert_eq!(launch(16, 16).grid, 1);
    assert_eq!(launch(1, 1).grid, 1);
    assert_eq!(launch(0, 5).grid, 0);
    assert_eq!(launch(1024, 896).grid, 3584);
}

#[test]
fn context_has_four_bytes_for_each_sample() {
    let ctx = GpuWarpContext::new(4, 5, 256, 224, 3);
    assert_eq!(ctx.dst_bytes, 688128);
    assert_eq!(ctx.src_width, 4);
    assert_eq!(ctx.src_height, 5);
}

#[test]
fn thread_off_the_image_writes_nothing() {
    let src = vec![Single(1.0)];
    let identity = matrix([1.0, 0.0, 0.0, 0.0, 1.0, 0.0, 0.0, 0.0, 1.0]);
    let mode = InterpolationMode::Bilinear;
    let mut dst = vec![Single(8.0); 2];
    warp_perspective_kernel(&src, &mut dst, &identity, 1, 1, 2, 1, 1, mode, 2);
    assert_eq!(dst, vec![Single(8.0), Single(8.0)]);
    // pixel 1 shows a point off the input
    warp_perspective_kernel(&src, &mut dst, &identity, 1, 1, 2, 1, 1, mode, 1);
    assert_eq!(dst, vec![Single(8.0), Single(0.0)]);
    warp_perspective_kernel(&src, &mut dst, &identity, 1, 1, 2, 1, 1, mode, 0);
    assert_eq!(dst, vec![Single(1.0), Single(0.0)]);
}

#[test]
fn point_without_order_stays_within_the_buffers() {
    let src = vec![Single(1.0); 4];
    let mut dst = vec![Single(8.0); 4];
    let mode = InterpolationMode::Bilinear;
    warp_perspective_kernel(&src, &mut dst, &matrix([0.0; 9]), 2, 2, 2, 2, 1, mode, 3);
    assert_eq!(dst[0], Single(8.0));
    assert!(dst[3].0.is_nan());
}

#[test]
fn fixed_point_bits_come_back() {
    let data = vec![
        Fixed { raw: 0 },
        Fixed { raw: -1 },
        Fixed { raw: i32::MIN },
        Fixed { raw: i32::MAX },
    ];
    assert_eq!(decode::<Fixed>(&encode(&data)), data);
}
