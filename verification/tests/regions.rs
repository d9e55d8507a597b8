use engine::arithmetic::{Arithmetic, FourierOptions};
use engine::error::ScrambleError;
use engine::fourier::FourierScrambler;
use engine::padding::PaddingMode;
use engine::plane::Complex;
use engine::raster::{BackgroundMode, FaceRegion, RgbImage};
use num_complex::Complex64;
use rand::rngs::StdRng;
use rand::{Rng, SeedableRng};
use rustfft::{Fft, FftPlanner};
use std::sync::Arc;

fn angle_difference(a: f64, b: f64) -> f64 {
    let mut diff = a - b;
    while diff > std::f64::consts::PI {
        diff -= 2.0 * std::f64::consts::PI;
    }
    while diff < -std::f64::consts::PI {
        diff += 2.0 * std::f64::consts::PI;
    }
    diff
}

fn run(fft: &Arc<dyn Fft<f64>>, line: Vec<Complex<f64>>) -> Vec<Complex<f64>> {
    let mut buffer: Vec<Complex64> = line.iter().map(|c| Complex64::new(c.re, c.im)).collect();
    fft.process(&mut buffer);
    buffer.iter().map(|c| Complex { re: c.re, im: c.im }).collect()
}

/// Double precision arithmetic with transforms planned for lines of `n` coefficients.
fn float_arithmetic(
    n: usize,
) -> Arithmetic<
    f64,
    impl Fn(u8) -> f64,
    impl Fn(Vec<Complex<f64>>) -> Vec<Complex<f64>>,
    impl Fn(Vec<Complex<f64>>) -> Vec<Complex<f64>>,
    impl Fn(Complex<f64>, usize) -> Complex<f64>,
    impl Fn(Complex<f64>, f64, f64) -> Complex<f64>,
    impl Fn(f64) -> f64,
    impl Fn(f64) -> f64,
    impl Fn(f64) -> u8,
> {
    let mut planner = FftPlanner::<f64>::new();
    let fft = planner.plan_fft_forward(n);
    let ifft = planner.plan_fft_inverse(n);
    Arithmetic {
        zero: 0.0,
        normalize: |level: u8| level as f64 / 255.0,
        forward: move |line: Vec<Complex<f64>>| run(&fft, line),
        inverse: move |line: Vec<Complex<f64>>| run(&ifft, line),
        scale: |c: Complex<f64>, count: usize| {
            let scale = 1.0 / count as f64;
            Complex { re: c.re * scale, im: c.im * scale }
        },
        rotate: |c: Complex<f64>, intensity: f64, random_phase: f64| {
            let orig = Complex64::new(c.re, c.im);
            let mag = orig.norm();
            let orig_phase = orig.arg();
            let dphase = angle_difference(random_phase, orig_phase);
            let new_val = Complex64::from_polar(mag, orig_phase + intensity * dphase);
            Complex { re: new_val.re, im: new_val.im }
        },
        negate: |t: f64| -t,
        clamp: |v: f64| v.max(0.0).min(1.0),
        quantize: |v: f64| (v * 255.0) as u8,
    }
}

fn draws(seed: u64, count: usize) -> Vec<f64> {
    let mut rng = StdRng::seed_from_u64(seed);
    (0..count).map(|_| rng.random_range(0.0..(2.0 * std::f64::consts::PI))).collect()
}

fn options(phase_scramble: bool, intensity: f64, padding_mode: PaddingMode) -> FourierOptions<f64> {
    FourierOptions { phase_scramble, intensity, padding_mode }
}

fn picture(width: usize, height: usize) -> RgbImage {
    let data: Vec<u8> = (0..width * height * 3).map(|i| ((i * 37 + 11) % 251) as u8).collect();
    RgbImage::new(width, height, data).unwrap()
}

fn region(x1: usize, y1: usize, x2: usize, y2: usize) -> FaceRegion {
    FaceRegion { x1, y1, x2, y2 }
}

fn pixel(image: &RgbImage, y: usize, x: usize) -> [u8; 3] {
    [image.sample(y, x, 0), image.sample(y, x, 1), image.sample(y, x, 2)]
}

#[test]
fn image_new_checks_length() {
    assert!(RgbImage::new(2, 3, vec![0; 18]).is_some());
    assert!(RgbImage::new(2, 3, vec![0; 17]).is_none());
    assert!(RgbImage::new(usize::MAX, 2, vec![0; 6]).is_none());
    assert!(RgbImage::new(usize::MAX / 2, 2, vec![0; 6]).is_none());
    assert!(RgbImage::new(0, 0, vec![]).is_some());
}

#[test]
fn blank_canvas_is_all_zero() {
    let canvas = RgbImage::blank(3, 2);
    assert_eq!((canvas.width, canvas.height), (3, 2));
    assert_eq!(canvas.data, vec![0u8; 18]);
}

#[test]
fn duplicate_copies_the_image() {
    let image = picture(3, 2);
    let copy = image.duplicate();
    assert_eq!((copy.width, copy.height), (3, 2));
    assert_eq!(copy.data, image.data);
}

#[test]
fn sample_reads_interleaved_channels() {
    let image = RgbImage::new(2, 2, (0..12).collect()).unwrap();
    assert_eq!(pixel(&image, 0, 0), [0, 1, 2]);
    assert_eq!(pixel(&image, 0, 1), [3, 4, 5]);
    assert_eq!(pixel(&image, 1, 0), [6, 7, 8]);
    assert_eq!(pixel(&image, 1, 1), [9, 10, 11]);
}

#[test]
fn region_fits_only_inside_the_image() {
    assert!(region(0, 0, 4, 3).fits_in(3, 4));
    assert!(region(1, 1, 2, 2).fits_in(3, 4));
    assert!(!region(0, 0, 5, 3).fits_in(3, 4));
    assert!(!region(0, 0, 4, 4).fits_in(3, 4));
    assert!(!region(2, 0, 2, 3).fits_in(3, 4));
    assert!(!region(0, 2, 4, 1).fits_in(3, 4));
}

#[test]
fn crop_takes_the_pixels_of_the_region() {
    let image = RgbImage::new(4, 3, (0..36).collect()).unwrap();
    let patch = image.crop(&region(1, 1, 3, 3));
    assert_eq!((patch.width, patch.height), (2, 2));
    assert_eq!(patch.data, vec![15, 16, 17, 18, 19, 20, 27, 28, 29, 30, 31, 32]);
}

#[test]
fn paste_overwrites_only_the_region() {
    let mut canvas = RgbImage::blank(4, 3);
    let patch = RgbImage::new(2, 2, (1..=12).collect()).unwrap();
    canvas.paste(&patch, &region(2, 1, 4, 3));
    let mut want = vec![0u8; 36];
    want[18..24].copy_from_slice(&[1, 2, 3, 4, 5, 6]);
    want[30..36].copy_from_slice(&[7, 8, 9, 10, 11, 12]);
    assert_eq!(canvas.data, want);
}

#[test]
fn paste_of_a_crop_changes_nothing() {
    let image = picture(7, 5);
    let r = region(2, 1, 6, 4);
    let mut copy = image.duplicate();
    copy.paste(&image.crop(&r), &r);
    assert_eq!(copy.data, image.data);
}

#[test]
fn include_without_regions_returns_the_image() {
    // an 8 by 8 image, wrap padding, any intensity
    for intensity in [0.0, 0.5, 1.0] {
        let mut s =
            FourierScrambler::new(8, 8, options(true, intensity, PaddingMode::Wrap), float_arithmetic(8));
        let image = picture(8, 8);
        let (out, next) =
            s.scramble_with_face_detection(&image, &vec![], BackgroundMode::Include, &vec![], 0).unwrap();
        assert_eq!(next, 0);
        assert_eq!((out.width, out.height), (8, 8));
        assert_eq!(out.data, image.data);
        assert_eq!((s.width, s.height), (8, 8));
    }
}

#[test]
fn exclude_without_regions_returns_a_blank_canvas() {
    let mut s = FourierScrambler::new(8, 8, options(true, 0.5, PaddingMode::Wrap), float_arithmetic(8));
    let image = picture(8, 8);
    let (out, _) =
        s.scramble_with_face_detection(&image, &vec![], BackgroundMode::Exclude, &vec![], 0).unwrap();
    assert_eq!((out.width, out.height), (8, 8));
    assert_eq!(out.data, vec![0u8; 192]);
}

#[test]
fn exclude_leaves_the_outside_blank() {
    let mut s = FourierScrambler::new(8, 8, options(true, 1.0, PaddingMode::Zero), float_arithmetic(8));
    let image = RgbImage::new(8, 8, vec![200; 192]).unwrap();
    let r = region(1, 2, 6, 7);
    let needed = s.draws_needed().unwrap();
    let (out, next) = s
        .scramble_with_face_detection(&image, &vec![r], BackgroundMode::Exclude, &draws(5, needed), 0)
        .unwrap();
    assert_eq!(next, needed);
    let mut inside_not_blank = 0;
    for y in 0..8 {
        for x in 0..8 {
            let inside = (1..6).contains(&x) && (2..7).contains(&y);
            if inside {
                if pixel(&out, y, x) != [0, 0, 0] {
                    inside_not_blank += 1;
                }
            } else {
                assert_eq!(pixel(&out, y, x), [0, 0, 0]);
            }
        }
    }
    assert!(inside_not_blank > 0);
    assert_eq!((s.width, s.height), (5, 5));
}

#[test]
fn include_keeps_the_outside_and_scrambles_the_inside() {
    let mut s = FourierScrambler::new(8, 8, options(true, 1.0, PaddingMode::Zero), float_arithmetic(8));
    let image = picture(8, 8);
    let r = region(2, 0, 8, 5);
    let needed = s.draws_needed().unwrap();
    let phases = draws(8, needed);
    let (out, _) = s
        .scramble_with_face_detection(&image, &vec![r], BackgroundMode::Include, &phases, 0)
        .unwrap();
    let (patch, _) = s.scramble(&image.crop(&r), &phases, 0).unwrap();
    for y in 0..8 {
        for x in 0..8 {
            if x >= 2 && y < 5 {
                assert_eq!(pixel(&out, y, x), pixel(&patch, y, x - 2));
            } else {
                assert_eq!(pixel(&out, y, x), pixel(&image, y, x));
            }
        }
    }
    assert_ne!(out.data, image.data);
}

#[test]
fn later_regions_overwrite_earlier_ones() {
    let mut s = FourierScrambler::new(8, 8, options(true, 1.0, PaddingMode::Wrap), float_arithmetic(8));
    let image = picture(8, 8);
    let first = region(0, 0, 6, 6);
    let second = region(3, 3, 8, 8);
    let needed = s.draws_needed().unwrap();
    let phases = draws(21, 2 * needed);
    let (out, next) = s
        .scramble_with_face_detection(&image, &vec![first, second], BackgroundMode::Include, &phases, 0)
        .unwrap();
    assert_eq!(next, 2 * needed);
    // each region is cropped from the image as it came in, and uses the draws that follow
    let (a, at) = s.scramble(&image.crop(&first), &phases, 0).unwrap();
    let (b, _) = s.scramble(&image.crop(&second), &phases, at).unwrap();
    for y in 0..8 {
        for x in 0..8 {
            if x >= 3 && y >= 3 {
                assert_eq!(pixel(&out, y, x), pixel(&b, y - 3, x - 3));
            } else if x < 6 && y < 6 {
                assert_eq!(pixel(&out, y, x), pixel(&a, y, x));
            } else {
                assert_eq!(pixel(&out, y, x), pixel(&image, y, x));
            }
        }
    }
}

#[test]
fn region_of_another_padded_size_is_a_mismatch() {
    let mut s = FourierScrambler::new(8, 8, options(true, 1.0, PaddingMode::Zero), float_arithmetic(8));
    let image = picture(8, 8);
    let needed = s.draws_needed().unwrap();
    let regions = vec![region(0, 0, 5, 5), region(1, 1, 4, 4), region(0, 0, 8, 8)];
    let r = s.scramble_with_face_detection(
        &image,
        &regions,
        BackgroundMode::Include,
        &draws(1, 3 * needed),
        0,
    );
    assert_eq!(r.err(), Some(ScrambleError::TransformSizeMismatch));
    // the second region is the last one worked on
    assert_eq!((s.width, s.height), (3, 3));
}

#[test]
fn region_too_flat_for_reflect_padding_is_rejected() {
    let mut s = FourierScrambler::new(8, 8, options(true, 1.0, PaddingMode::Reflect), float_arithmetic(8));
    let image = picture(8, 8);
    let needed = s.draws_needed().unwrap();
    let r = s.scramble_with_face_detection(
        &image,
        &vec![region(0, 0, 8, 4)],
        BackgroundMode::Exclude,
        &draws(1, needed),
        0,
    );
    assert_eq!(r.err(), Some(ScrambleError::UnsupportedPaddingGeometry));
}

#[test]
fn malformed_image_is_invalid_for_regions() {
    let mut s = FourierScrambler::new(8, 8, options(true, 1.0, PaddingMode::Zero), float_arithmetic(8));
    let image = RgbImage { width: 8, height: 8, data: vec![0; 10] };
    let r = s.scramble_with_face_detection(&image, &vec![], BackgroundMode::Include, &vec![], 0);
    assert_eq!(r.err(), Some(ScrambleError::InvalidImage));
    assert_eq!((s.width, s.height), (8, 8));
}

#[test]
fn regions_are_deterministic_for_one_seed() {
    let image = picture(8, 8);
    let regions = vec![region(0, 1, 5, 7), region(2, 2, 7, 8)];
    let mut outputs = Vec::new();
    for _ in 0..2 {
        let mut s =
            FourierScrambler::new(8, 8, options(true, 0.9, PaddingMode::Wrap), float_arithmetic(8));
        let needed = s.draws_needed().unwrap();
        let (out, _) = s
            .scramble_with_face_detection(
                &image,
                &regions,
                BackgroundMode::Exclude,
                &draws(77, 2 * needed),
                0,
            )
            .unwrap();
        outputs.push(out.data);
    }
    assert_eq!(outputs[0], outputs[1]);
}
