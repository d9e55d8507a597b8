use engine::arithmetic::{Arithmetic, FourierOptions};
use engine::error::ScrambleError;
use engine::fourier::FourierScrambler;
use engine::padding::PaddingMode;
use engine::plane::{Complex, Plane};
use engine::raster::RgbImage;
use num_complex::Complex64;
use rand::rngs::StdRng;
use rand::{Rng, SeedableRng};
use rustfft::{Fft, FftPlanner};
use std::sync::Arc;

fn angle_difference(a: f64, b: f64) -> f64 {
    let mut diff = a - b;
    while diff > std::f64::consts::PI {
        diff -= 2.0 * std::f64::consts::PI;
    }
    while diff < -std::f64::consts::PI {
        diff += 2.0 * std::f64::consts::PI;
    }
    diff
}

fn run(fft: &Arc<dyn Fft<f64>>, line: Vec<Complex<f64>>) -> Vec<Complex<f64>> {
    let mut buffer: Vec<Complex64> = line.iter().map(|c| Complex64::new(c.re, c.im)).collect();
    fft.process(&mut buffer);
    buffer.iter().map(|c| Complex { re: c.re, im: c.im }).collect()
}

/// Double precision arithmetic with transforms planned for lines of `n` coefficients.
fn float_arithmetic(
    n: usize,
) -> Arithmetic<
    f64,
    impl Fn(u8) -> f64,
    impl Fn(Vec<Complex<f64>>) -> Vec<Complex<f64>>,
    impl Fn(Vec<Complex<f64>>) -> Vec<Complex<f64>>,
    impl Fn(Complex<f64>, usize) -> Complex<f64>,
    impl Fn(Complex<f64>, f64, f64) -> Complex<f64>,
    impl Fn(f64) -> f64,
    impl Fn(f64) -> f64,
    impl Fn(f64) -> u8,
> {
    let mut planner = FftPlanner::<f64>::new();
    let fft = planner.plan_fft_forward(n);
    let ifft = planner.plan_fft_inverse(n);
    Arithmetic {
        zero: 0.0,
        normalize: |level: u8| level as f64 / 255.0,
        forward: move |line: Vec<Complex<f64>>| run(&fft, line),
        inverse: move |line: Vec<Complex<f64>>| run(&ifft, line),
        scale: |c: Complex<f64>, count: usize| {
            let scale = 1.0 / count as f64;
            Complex { re: c.re * scale, im: c.im * scale }
        },
        rotate: |c: Complex<f64>, intensity: f64, random_phase: f64| {
            let orig = Complex64::new(c.re, c.im);
            let mag = orig.norm();
            let orig_phase = orig.arg();
            let dphase = angle_difference(random_phase, orig_phase);
            let new_val = Complex64::from_polar(mag, orig_phase + intensity * dphase);
            Complex { re: new_val.re, im: new_val.im }
        },
        negate: |t: f64| -t,
        clamp: |v: f64| v.max(0.0).min(1.0),
        quantize: |v: f64| (v * 255.0) as u8,
    }
}

fn draws(seed: u64, count: usize) -> Vec<f64> {
    let mut rng = StdRng::seed_from_u64(seed);
    (0..count).map(|_| rng.random_range(0.0..(2.0 * std::f64::consts::PI))).collect()
}

fn options(phase_scramble: bool, intensity: f64, padding_mode: PaddingMode) -> FourierOptions<f64> {
    FourierOptions { phase_scramble, intensity, padding_mode }
}

fn picture(width: usize, height: usize) -> RgbImage {
    let data: Vec<u8> = (0..width * height * 3).map(|i| ((i * 37 + 11) % 251) as u8).collect();
    RgbImage::new(width, height, data).unwrap()
}

fn whole_options(phase_scramble: bool, intensity: i64, padding_mode: PaddingMode) -> FourierOptions<i64> {
    FourierOptions { phase_scramble, intensity, padding_mode }
}

/// Whole-number arithmetic that leaves a trace of every operation.
fn tracing_arithmetic() -> Arithmetic<
    i64,
    impl Fn(u8) -> i64,
    impl Fn(Vec<Complex<i64>>) -> Vec<Complex<i64>>,
    impl Fn(Vec<Complex<i64>>) -> Vec<Complex<i64>>,
    impl Fn(Complex<i64>, usize) -> Complex<i64>,
    impl Fn(Complex<i64>, i64, i64) -> Complex<i64>,
    impl Fn(i64) -> i64,
    impl Fn(i64) -> i64,
    impl Fn(i64) -> u8,
> {
    Arithmetic {
        zero: 0,
        normalize: |level: u8| level as i64,
        forward: |line: Vec<Complex<i64>>| line.iter().map(|c| Complex { re: c.re + 1, im: c.im }).collect(),
        inverse: |line: Vec<Complex<i64>>| line.iter().map(|c| Complex { re: c.re + 10, im: c.im }).collect(),
        scale: |c: Complex<i64>, count: usize| Complex { re: c.re + 100 * count as i64, im: c.im },
        rotate: |c: Complex<i64>, intensity: i64, draw: i64| Complex { re: c.re + intensity * draw, im: c.im },
        negate: |t: i64| -t,
        clamp: |v: i64| v.max(0).min(100_000),
        quantize: |v: i64| (v % 256) as u8,
    }
}

#[test]
fn new_sizes_the_plan_for_the_padded_side() {
    let s = FourierScrambler::new(5, 3, options(true, 0.5, PaddingMode::Zero), float_arithmetic(8));
    assert_eq!((s.width, s.height, s.plan_size), (5, 3, 8));
    let s = FourierScrambler::new(4, 4, options(true, 0.5, PaddingMode::Zero), float_arithmetic(4));
    assert_eq!(s.plan_size, 4);
    let s = FourierScrambler::new(0, 0, options(true, 0.5, PaddingMode::Zero), float_arithmetic(1));
    assert_eq!(s.plan_size, 1);
}

#[test]
fn draws_needed_counts_three_channels() {
    let s = FourierScrambler::new(4, 4, options(true, 0.5, PaddingMode::Zero), float_arithmetic(4));
    assert_eq!(s.draws_needed(), Some(30));
    let s = FourierScrambler::new(8, 5, options(true, 0.5, PaddingMode::Zero), float_arithmetic(8));
    assert_eq!(s.draws_needed(), Some(102));
    let s = FourierScrambler::new(8, 5, options(false, 0.5, PaddingMode::Zero), float_arithmetic(8));
    assert_eq!(s.draws_needed(), Some(0));
}

#[test]
fn channels_are_split_by_sample_position() {
    let s = FourierScrambler::new(2, 1, whole_options(false, 0, PaddingMode::Zero), tracing_arithmetic());
    let image = RgbImage::new(2, 1, vec![1, 2, 3, 4, 5, 6]).unwrap();
    let channels = s.split_channels(&image);
    assert_eq!(channels.len(), 3);
    assert_eq!(channels[0].cells, vec![1, 4]);
    assert_eq!(channels[1].cells, vec![2, 5]);
    assert_eq!(channels[2].cells, vec![3, 6]);
    assert_eq!((channels[0].height, channels[0].width), (1, 2));
}

#[test]
fn split_normalizes_levels() {
    let s = FourierScrambler::new(1, 1, options(false, 0.0, PaddingMode::Zero), float_arithmetic(1));
    let image = RgbImage::new(1, 1, vec![0, 51, 255]).unwrap();
    let channels = s.split_channels(&image);
    assert_eq!(channels[0].cells, vec![0.0]);
    assert_eq!(channels[1].cells, vec![0.2]);
    assert_eq!(channels[2].cells, vec![1.0]);
}

#[test]
fn combine_truncates_levels() {
    let s = FourierScrambler::new(2, 1, options(false, 0.0, PaddingMode::Zero), float_arithmetic(2));
    let channels = vec![
        Plane::new(1, 2, vec![0.0, 1.0]).unwrap(),
        Plane::new(1, 2, vec![0.5, 0.999]).unwrap(),
        Plane::new(1, 2, vec![0.25, 0.003]).unwrap(),
    ];
    let image = s.combine_channels(&channels);
    assert_eq!((image.width, image.height), (2, 1));
    // 0.5 * 255 = 127.5, 0.999 * 255 = 254.745, 0.25 * 255 = 63.75, 0.003 * 255 = 0.765
    assert_eq!(image.data, vec![0, 127, 63, 255, 254, 0]);
}

#[test]
fn pipeline_runs_its_stages_in_order() {
    // Without scrambling every sample passes two forward lines (+1 each), two
    // inverse lines (+10 each) and the scaling (+100 * 4): 422 in all.
    let mut s = FourierScrambler::new(2, 2, whole_options(false, 0, PaddingMode::Zero), tracing_arithmetic());
    let image = RgbImage::new(2, 2, (0..12).collect()).unwrap();
    let (out, next) = s.scramble(&image, &vec![], 0).unwrap();
    assert_eq!(next, 0);
    let want: Vec<u8> = (0..12u32).map(|v| ((v + 422) % 256) as u8).collect();
    assert_eq!(out.data, want);
}

#[test]
fn draws_run_on_across_channels_in_row_major_order() {
    // Side 2: every coefficient is its own partner, so sample k of channel c
    // is rotated with draw 4 * c + k. The rotation adds intensity * draw.
    let mut s = FourierScrambler::new(2, 2, whole_options(true, 2, PaddingMode::Zero), tracing_arithmetic());
    let image = RgbImage::new(2, 2, vec![0; 12]).unwrap();
    let draws: Vec<i64> = (0..13).map(|k| 3 * k).collect();
    let (out, next) = s.scramble(&image, &draws, 1).unwrap();
    assert_eq!(next, 13);
    let mut want = vec![0u8; 12];
    for c in 0..3 {
        for k in 0..4 {
            let draw = 3 * (1 + 4 * c + k) as i64;
            want[k * 3 + c] = ((422 + 2 * draw) % 256) as u8;
        }
    }
    assert_eq!(out.data, want);
}

#[test]
fn process_channel_pads_transforms_and_crops() {
    let s = FourierScrambler::new(3, 2, whole_options(false, 0, PaddingMode::Wrap), tracing_arithmetic());
    let channel = Plane::new(2, 3, vec![1, 2, 3, 4, 5, 6]).unwrap();
    let (plane, next) = s.process_channel(&channel, &vec![], 5).unwrap();
    assert_eq!(next, 5);
    assert_eq!((plane.height, plane.width), (2, 3));
    // side 4: +2 forward, +20 inverse, +100 * 16 scaling
    assert_eq!(plane.cells, vec![1623, 1624, 1625, 1626, 1627, 1628]);
}

#[test]
fn process_channel_clamps() {
    let s = FourierScrambler::new(1, 1, options(false, 0.0, PaddingMode::Zero), float_arithmetic(1));
    for (given, want) in [(-0.5, 0.0), (0.25, 0.25), (1.5, 1.0)] {
        let channel = Plane::new(1, 1, vec![given]).unwrap();
        let (plane, _) = s.process_channel(&channel, &vec![], 0).unwrap();
        assert_eq!(plane.cells, vec![want]);
    }
}

#[test]
fn constant_plane_survives_zero_intensity() {
    // a 4 by 4 plane of 0.5, zero padding, intensity 0
    let s = FourierScrambler::new(4, 4, options(true, 0.0, PaddingMode::Zero), float_arithmetic(4));
    let channel = Plane::new(4, 4, vec![0.5; 16]).unwrap();
    let (plane, next) = s.process_channel(&channel, &draws(1, 10), 0).unwrap();
    assert_eq!(next, 10);
    assert_eq!((plane.height, plane.width), (4, 4));
    for v in plane.cells {
        assert!((v - 0.5).abs() < 1e-9);
    }
}

#[test]
fn zero_intensity_reproduces_the_image_within_one_level() {
    for mode in [PaddingMode::Zero, PaddingMode::Reflect, PaddingMode::Wrap] {
        for (width, height) in [(8usize, 8usize), (6, 5), (7, 7), (16, 12)] {
            let n = width.max(height).next_power_of_two();
            let mut s = FourierScrambler::new(width, height, options(true, 0.0, mode), float_arithmetic(n));
            let image = picture(width, height);
            let needed = s.draws_needed().unwrap();
            for seed in [1u64, 2, 3] {
                let (out, next) = s.scramble(&image, &draws(seed, needed), 0).unwrap();
                assert_eq!(next, needed);
                assert_eq!((out.width, out.height), (width, height));
                for (a, b) in out.data.iter().zip(image.data.iter()) {
                    assert!((*a as i32 - *b as i32).abs() <= 1);
                }
            }
        }
    }
}

#[test]
fn disabled_scrambling_reproduces_the_image_within_one_level() {
    let mut s = FourierScrambler::new(5, 7, options(false, 1.0, PaddingMode::Zero), float_arithmetic(8));
    let image = picture(5, 7);
    let (out, next) = s.scramble(&image, &vec![], 0).unwrap();
    assert_eq!(next, 0);
    for (a, b) in out.data.iter().zip(image.data.iter()) {
        assert!((*a as i32 - *b as i32).abs() <= 1);
    }
}

#[test]
fn same_seed_gives_identical_bytes() {
    let image = picture(8, 8);
    let mut first = FourierScrambler::new(8, 8, options(true, 1.0, PaddingMode::Zero), float_arithmetic(8));
    let mut second = FourierScrambler::new(8, 8, options(true, 1.0, PaddingMode::Zero), float_arithmetic(8));
    let needed = first.draws_needed().unwrap();
    let (a, _) = first.scramble(&image, &draws(42, needed), 0).unwrap();
    let (b, _) = second.scramble(&image, &draws(42, needed), 0).unwrap();
    assert_eq!(a.data, b.data);
    // the same instance again, with the same draws
    let (c, _) = first.scramble(&image, &draws(42, needed), 0).unwrap();
    assert_eq!(a.data, c.data);
}

#[test]
fn different_seeds_give_different_bytes() {
    let image = picture(8, 8);
    let mut s = FourierScrambler::new(8, 8, options(true, 1.0, PaddingMode::Zero), float_arithmetic(8));
    let needed = s.draws_needed().unwrap();
    let (a, _) = s.scramble(&image, &draws(1, needed), 0).unwrap();
    let (b, _) = s.scramble(&image, &draws(2, needed), 0).unwrap();
    assert_ne!(a.data, b.data);
    assert_ne!(a.data, image.data);
}

#[test]
fn cursor_selects_the_draws() {
    let image = picture(4, 4);
    let mut s = FourierScrambler::new(4, 4, options(true, 1.0, PaddingMode::Wrap), float_arithmetic(4));
    let all = draws(7, 40);
    let (a, next) = s.scramble(&image, &all, 10).unwrap();
    assert_eq!(next, 40);
    let (b, _) = s.scramble(&image, &all[10..].to_vec(), 0).unwrap();
    assert_eq!(a.data, b.data);
}

#[test]
fn scramble_sets_the_working_dimensions() {
    let mut s = FourierScrambler::new(8, 8, options(false, 0.0, PaddingMode::Zero), float_arithmetic(8));
    let _ = s.scramble(&picture(6, 5), &vec![], 0).unwrap();
    assert_eq!((s.width, s.height, s.plan_size), (6, 5, 8));
    let _ = s.scramble(&picture(16, 2), &vec![], 0);
    assert_eq!((s.width, s.height, s.plan_size), (16, 2, 8));
}

#[test]
fn empty_image_is_invalid() {
    let mut s = FourierScrambler::new(4, 4, options(true, 0.5, PaddingMode::Zero), float_arithmetic(4));
    let r = s.scramble(&RgbImage::new(0, 4, vec![]).unwrap(), &draws(1, 30), 0);
    assert_eq!(r.err(), Some(ScrambleError::InvalidImage));
    let r = s.scramble(&RgbImage::new(4, 0, vec![]).unwrap(), &draws(1, 30), 0);
    assert_eq!(r.err(), Some(ScrambleError::InvalidImage));
}

#[test]
fn image_with_a_short_buffer_is_invalid() {
    let mut s = FourierScrambler::new(4, 4, options(true, 0.5, PaddingMode::Zero), float_arithmetic(4));
    let image = RgbImage { width: 4, height: 4, data: vec![0; 47] };
    let r = s.scramble(&image, &draws(1, 30), 0);
    assert_eq!(r.err(), Some(ScrambleError::InvalidImage));
}

#[test]
fn image_of_another_padded_size_is_a_mismatch() {
    let mut s = FourierScrambler::new(4, 4, options(true, 0.5, PaddingMode::Zero), float_arithmetic(4));
    let r = s.scramble(&picture(8, 8), &draws(1, 30), 0);
    assert_eq!(r.err(), Some(ScrambleError::TransformSizeMismatch));
    let r = s.scramble(&picture(2, 2), &draws(1, 30), 0);
    assert_eq!(r.err(), Some(ScrambleError::TransformSizeMismatch));
    let r = s.scramble(&picture(3, 4), &draws(1, 30), 0);
    assert!(r.is_ok());
}

#[test]
fn reflect_mode_rejects_flat_images() {
    let mut s = FourierScrambler::new(8, 3, options(true, 0.5, PaddingMode::Reflect), float_arithmetic(8));
    let needed = s.draws_needed().unwrap();
    let r = s.scramble(&picture(8, 3), &draws(1, needed), 0);
    assert_eq!(r.err(), Some(ScrambleError::UnsupportedPaddingGeometry));
    let r = s.scramble(&picture(8, 5), &draws(1, needed), 0);
    assert!(r.is_ok());
}

#[test]
fn mismatch_is_reported_before_padding_geometry() {
    let mut s = FourierScrambler::new(4, 4, options(true, 0.5, PaddingMode::Reflect), float_arithmetic(4));
    let r = s.scramble(&picture(8, 3), &draws(1, 30), 0);
    assert_eq!(r.err(), Some(ScrambleError::TransformSizeMismatch));
}

#[test]
fn output_has_the_dimensions_of_the_input() {
    let mut s = FourierScrambler::new(5, 3, options(true, 0.8, PaddingMode::Wrap), float_arithmetic(8));
    let needed = s.draws_needed().unwrap();
    let (out, _) = s.scramble(&picture(5, 3), &draws(3, needed), 0).unwrap();
    assert_eq!((out.width, out.height), (5, 3));
    assert_eq!(out.data.len(), 45);
    assert!(out.is_well_formed());
}

#[test]
fn processed_samples_stay_in_the_unit_range() {
    let s = FourierScrambler::new(8, 8, options(true, 1.0, PaddingMode::Zero), float_arithmetic(8));
    let cells: Vec<f64> = (0..64).map(|i| if i % 3 == 0 { 1.0 } else { 0.0 }).collect();
    let channel = Plane::new(8, 8, cells).unwrap();
    let (plane, _) = s.process_channel(&channel, &draws(13, 34), 0).unwrap();
    assert!(plane.cells.iter().all(|v| (0.0..=1.0).contains(v)));
    assert!(plane.cells.iter().any(|v| *v == 0.0 || *v == 1.0));
}

#[test]
fn output_samples_are_levels_of_the_clamped_planes() {
    let mut s = FourierScrambler::new(8, 8, options(true, 1.0, PaddingMode::Zero), float_arithmetic(8));
    let image = RgbImage::new(8, 8, (0..192).map(|i| if i % 2 == 0 { 255 } else { 0 }).collect()).unwrap();
    let needed = s.draws_needed().unwrap();
    let phases = draws(17, needed);
    let (out, _) = s.scramble(&image, &phases, 0).unwrap();
    assert_eq!(out.data.len(), 192);
    assert!(out.data.iter().all(|v| (0..=255).contains(&(*v as i32))));
    // each level is the truncated product of a clamped sample and 255
    let channels = s.split_channels(&image);
    let mut at = 0;
    for c in 0..3 {
        let (plane, next) = s.process_channel(&channels[c], &phases, at).unwrap();
        at = next;
        for (k, v) in plane.cells.iter().enumerate() {
            assert_eq!(out.data[k * 3 + c], (v * 255.0) as u8);
        }
    }
}
