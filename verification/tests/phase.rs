use engine::phase::{phase_scramble, unique_pair_count};
use engine::plane::Complex;
use engine::transform::fft2d;
use num_complex::Complex64;
use rand::rngs::StdRng;
use rand::{Rng, SeedableRng};
use rustfft::FftPlanner;

fn angle_difference(a: f64, b: f64) -> f64 {
    let mut diff = a - b;
    while diff > std::f64::consts::PI {
        diff -= 2.0 * std::f64::consts::PI;
    }
    while diff < -std::f64::consts::PI {
        diff += 2.0 * std::f64::consts::PI;
    }
    diff
}

fn rotate(c: Complex<f64>, intensity: f64, random_phase: f64) -> Complex<f64> {
    let orig = Complex64::new(c.re, c.im);
    let mag = orig.norm();
    let orig_phase = orig.arg();
    let dphase = angle_difference(random_phase, orig_phase);
    let new_phase = orig_phase + intensity * dphase;
    let new_val = Complex64::from_polar(mag, new_phase);
    Complex { re: new_val.re, im: new_val.im }
}

fn negate(t: f64) -> f64 {
    -t
}

fn norm(c: &Complex<f64>) -> f64 {
    Complex64::new(c.re, c.im).norm()
}

fn draws(seed: u64, count: usize) -> Vec<f64> {
    let mut rng = StdRng::seed_from_u64(seed);
    (0..count).map(|_| rng.random_range(0.0..(2.0 * std::f64::consts::PI))).collect()
}

fn spectrum_of_real_plane(n: usize) -> Vec<Complex<f64>> {
    let mut planner = FftPlanner::<f64>::new();
    let fft = planner.plan_fft_forward(n);
    let forward = |line: Vec<Complex<f64>>| -> Vec<Complex<f64>> {
        let mut buffer: Vec<Complex64> = line.iter().map(|c| Complex64::new(c.re, c.im)).collect();
        fft.process(&mut buffer);
        buffer.iter().map(|c| Complex { re: c.re, im: c.im }).collect()
    };
    let mut data: Vec<Complex<f64>> = (0..n * n)
        .map(|i| Complex { re: ((i * 31 + 7) % 17) as f64 / 17.0, im: 0.0 })
        .collect();
    fft2d(&mut data, n, &forward);
    data
}

#[test]
fn unique_pair_counts() {
    assert_eq!(unique_pair_count(0), 0);
    assert_eq!(unique_pair_count(1), 1);
    assert_eq!(unique_pair_count(2), 4);
    assert_eq!(unique_pair_count(4), 10);
    assert_eq!(unique_pair_count(8), 34);
    assert_eq!(unique_pair_count(16), 130);
}

#[test]
fn pairs_are_visited_once_in_row_major_order() {
    // Bookkeeping arithmetic: the new coefficient records the draw it was given.
    let record = |_c: Complex<i64>, intensity: i64, draw: i64| Complex { re: draw, im: 10 * draw + intensity };
    let minus = |t: i64| -t;
    let mut data: Vec<Complex<i64>> = (0..16).map(|i| Complex { re: -100 - i, im: 0 }).collect();
    let draws: Vec<i64> = (1..=12).collect();
    let next = phase_scramble(&mut data, 4, 3, &draws, 1, &record, &minus);
    assert_eq!(next, 11);
    let got: Vec<(i64, i64)> = data.iter().map(|c| (c.re, c.im)).collect();
    // draws 2..=11 go to (0,0) (0,1) (0,2) (1,0) (1,1) (1,2) (1,3) (2,0) (2,1) (2,2)
    let v = |d: i64| (d, 10 * d + 3);
    let w = |d: i64| (d, -(10 * d + 3));
    assert_eq!(
        got,
        vec![
            v(2), v(3), v(4), w(3), //
            v(5), v(6), v(7), v(8), //
            v(9), v(10), v(11), w(10), //
            w(5), w(8), w(7), w(6),
        ]
    );
}

#[test]
fn visited_coefficient_sees_the_original_value() {
    let keep = |c: Complex<i64>, _intensity: i64, _draw: i64| c;
    let minus = |t: i64| -t;
    let original: Vec<Complex<i64>> = (0..16).map(|i| Complex { re: i, im: 100 + i }).collect();
    let mut data = original.clone();
    let draws: Vec<i64> = vec![0; 10];
    phase_scramble(&mut data, 4, 0, &draws, 0, &keep, &minus);
    for (y, x) in [(0, 0), (0, 1), (0, 2), (1, 0), (1, 1), (1, 2), (1, 3), (2, 0), (2, 1), (2, 2)] {
        let i = y * 4 + x;
        assert_eq!((data[i].re, data[i].im), (original[i].re, original[i].im));
    }
    for ((y, x), (py, px)) in
        [((0, 3), (0, 1)), ((2, 3), (2, 1)), ((3, 0), (1, 0)), ((3, 1), (1, 3)), ((3, 2), (1, 2)), ((3, 3), (1, 1))]
    {
        let i = y * 4 + x;
        let p = py * 4 + px;
        assert_eq!((data[i].re, data[i].im), (original[p].re, -original[p].im));
    }
}

#[test]
fn side_two_has_only_self_paired_coefficients() {
    let record = |c: Complex<i64>, _intensity: i64, draw: i64| Complex { re: c.re + draw, im: c.im };
    let minus = |t: i64| -t;
    let mut data: Vec<Complex<i64>> = (0..4).map(|i| Complex { re: 10 * i, im: 1 }).collect();
    let draws: Vec<i64> = vec![1, 2, 3, 4];
    let next = phase_scramble(&mut data, 2, 0, &draws, 0, &record, &minus);
    assert_eq!(next, 4);
    let got: Vec<(i64, i64)> = data.iter().map(|c| (c.re, c.im)).collect();
    assert_eq!(got, vec![(1, 1), (12, 1), (23, 1), (34, 1)]);
}

#[test]
fn scrambled_spectrum_is_hermitian_off_the_self_paired_bins() {
    for n in [2usize, 4, 8, 16] {
        let mut data = spectrum_of_real_plane(n);
        let count = unique_pair_count(n);
        let next = phase_scramble(&mut data, n, 0.7, &draws(11, count), 0, &rotate, &negate);
        assert_eq!(next, count);
        for y in 0..n {
            for x in 0..n {
                let sy = (n - y) % n;
                let sx = (n - x) % n;
                if (sy, sx) == (y, x) {
                    continue;
                }
                let a = data[y * n + x];
                let b = data[sy * n + sx];
                assert_eq!(a.re, b.re);
                assert_eq!(a.im, -b.im);
            }
        }
    }
}

#[test]
fn scrambling_preserves_magnitudes() {
    for intensity in [0.0, 0.3, 1.0] {
        let n = 8;
        let before = spectrum_of_real_plane(n);
        let mut after = before.clone();
        phase_scramble(&mut after, n, intensity, &draws(5, unique_pair_count(n)), 0, &rotate, &negate);
        for (a, b) in after.iter().zip(before.iter()) {
            assert!((norm(a) - norm(b)).abs() < 1e-9);
        }
    }
}

#[test]
fn zero_intensity_leaves_the_spectrum_unchanged_within_tolerance() {
    let n = 8;
    let before = spectrum_of_real_plane(n);
    let mut after = before.clone();
    phase_scramble(&mut after, n, 0.0, &draws(3, unique_pair_count(n)), 0, &rotate, &negate);
    for (a, b) in after.iter().zip(before.iter()) {
        assert!((a.re - b.re).abs() < 1e-9);
        assert!((a.im - b.im).abs() < 1e-9);
    }
}

#[test]
fn full_intensity_sets_the_random_phase() {
    let n = 4;
    let before = spectrum_of_real_plane(n);
    let mut after = before.clone();
    let phases = draws(9, unique_pair_count(n));
    phase_scramble(&mut after, n, 1.0, &phases, 0, &rotate, &negate);
    // the first visited coefficient is the one at (0, 0)
    let c = Complex64::new(after[0].re, after[0].im);
    let d = angle_difference(c.arg(), phases[0]);
    assert!(d.abs() < 1e-9 || (d.abs() - 2.0 * std::f64::consts::PI).abs() < 1e-9);
    assert!((c.norm() - norm(&before[0])).abs() < 1e-9);
}
