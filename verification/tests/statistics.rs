use stat_core::{simd_reduce, simd_reduce_zip, Quad, SimdAccum4};
use wide::f64x4;

fn load(q: Quad<f64>) -> f64x4 {
    f64x4::new([q.e0, q.e1, q.e2, q.e3])
}

fn add4(acc: SimdAccum4<f64x4>) -> f64 {
    acc.fold_pairwise(|a: f64x4, b: f64x4| a + b).reduce_add()
}

fn pick<V: Copy, W: Copy>(acc: SimdAccum4<V>, f: impl Fn(V) -> W) -> SimdAccum4<W> {
    SimdAccum4 { v1: f(acc.v1), v2: f(acc.v2), v3: f(acc.v3), v4: f(acc.v4) }
}

fn sum(data: &[f64]) -> f64 {
    simd_reduce(
        data,
        f64x4::ZERO,
        |acc: f64x4, q: Quad<f64>| acc + load(q),
        add4,
        |acc: f64, v: f64| acc + v,
    )
}

fn mean(data: &[f64]) -> f64 {
    sum(data) / data.len() as f64
}

fn sum_squared_deviations(data: &[f64], m: f64) -> f64 {
    let mean_vec = f64x4::splat(m);
    simd_reduce(
        data,
        f64x4::ZERO,
        |acc: f64x4, q: Quad<f64>| {
            let d = load(q) - mean_vec;
            acc + d * d
        },
        add4,
        |acc: f64, v: f64| acc + (v - m) * (v - m),
    )
}

fn extremes(data: &[f64]) -> (f64, f64) {
    simd_reduce(
        data,
        (f64x4::splat(f64::INFINITY), f64x4::splat(f64::NEG_INFINITY)),
        |(lo, hi): (f64x4, f64x4), q: Quad<f64>| (lo.min(load(q)), hi.max(load(q))),
        |acc: SimdAccum4<(f64x4, f64x4)>| {
            let lo = pick(acc, |v| v.0).fold_pairwise(|a: f64x4, b: f64x4| a.min(b)).to_array();
            let hi = pick(acc, |v| v.1).fold_pairwise(|a: f64x4, b: f64x4| a.max(b)).to_array();
            let lo = Quad { e0: lo[0], e1: lo[1], e2: lo[2], e3: lo[3] };
            let hi = Quad { e0: hi[0], e1: hi[1], e2: hi[2], e3: hi[3] };
            (lo.fold_pairwise(f64::min), hi.fold_pairwise(f64::max))
        },
        |(lo, hi): (f64, f64), v: f64| (if v < lo { v } else { lo }, if v > hi { v } else { hi }),
    )
}

/// Centred sums of squares of x, of y, and of cross products.
fn co_moments(x: &[f64], y: &[f64]) -> (f64, f64, f64) {
    let (mx, my) = (mean(x), mean(y));
    let (mxv, myv) = (f64x4::splat(mx), f64x4::splat(my));
    let zero = (f64x4::ZERO, f64x4::ZERO, f64x4::ZERO);
    let (lanes, tail) = simd_reduce_zip(
        x,
        y,
        zero,
        |acc: (f64x4, f64x4, f64x4), (qx, qy): (Quad<f64>, Quad<f64>)| {
            let (dx, dy) = (load(qx) - mxv, load(qy) - myv);
            (acc.0 + dx * dx, acc.1 + dy * dy, acc.2 + dx * dy)
        },
        |acc: SimdAccum4<(f64x4, f64x4, f64x4)>| {
            (
                (add4(pick(acc, |v| v.0)), add4(pick(acc, |v| v.1)), add4(pick(acc, |v| v.2))),
                (0.0, 0.0, 0.0),
            )
        },
        |(lanes, tail): ((f64, f64, f64), (f64, f64, f64)), (xs, ys): (f64, f64)| {
            let (dx, dy) = (xs - mx, ys - my);
            (lanes, (dx.mul_add(dx, tail.0), dy.mul_add(dy, tail.1), dx.mul_add(dy, tail.2)))
        },
    );
    (lanes.0 + tail.0, lanes.1 + tail.1, lanes.2 + tail.2)
}

fn corrcoeff(x: &[f64], y: &[f64]) -> f64 {
    let (sxx, syy, sxy) = co_moments(x, y);
    sxy / (sxx * syy).sqrt()
}

#[test]
fn population_and_sample_variance_of_one_to_five() {
    let data = [1.0, 2.0, 3.0, 4.0, 5.0];
    let m = mean(&data);
    assert_eq!(m, 3.0);
    assert_eq!(sum_squared_deviations(&data, m) / 5.0, 2.0);
    assert_eq!(sum_squared_deviations(&data, m) / 4.0, 2.5);
}

#[test]
fn variance_of_a_longer_sample_uses_every_phase_of_the_walk() {
    // 1..=37: mean 19, sum of squared deviations = 2 * (1^2 + ... + 18^2) = 4218
    let data: Vec<f64> = (1..=37).map(|i| i as f64).collect();
    assert_eq!(mean(&data), 19.0);
    assert_eq!(sum_squared_deviations(&data, 19.0), 4218.0);
}

#[test]
fn extremes_are_found_in_lanes_and_tail() {
    for place in 0..23 {
        let mut data = vec![0.0; 23];
        data[place] = 5.0;
        data[(place + 7) % 23] = -3.0;
        assert_eq!(extremes(&data), (-3.0, 5.0), "place {}", place);
    }
}

#[test]
fn correlation_of_a_line_is_one() {
    assert_eq!(corrcoeff(&[2.0, 4.0, 6.0], &[1.0, 3.0, 5.0]), 1.0);
    let r = corrcoeff(&[1.0, 2.0, 3.0, 4.0, 5.0], &[10.0, 8.0, 6.0, 4.0, 2.0]);
    assert!((r + 1.0).abs() < 1e-12);
}

#[test]
fn correlation_stays_within_its_bounds() {
    let x: Vec<f64> = (0..50).map(|i| ((i * 37) % 11) as f64 - 3.5).collect();
    let y: Vec<f64> = (0..50).map(|i| ((i * 53) % 17) as f64 * 0.25).collect();
    let r = corrcoeff(&x, &y);
    assert!((-1.0..=1.0).contains(&r));
}

#[test]
fn centred_correlation_is_stable_under_a_large_offset() {
    let offset = 1.0e12;
    let x: Vec<f64> = (0..64).map(|i| offset + i as f64).collect();
    let y: Vec<f64> = (0..64).map(|i| offset + 2.0 * i as f64).collect();
    assert!((corrcoeff(&x, &y) - 1.0).abs() < 1e-12);
}

#[test]
fn a_constant_sample_has_no_second_moment() {
    for len in [3usize, 4, 5, 16, 21, 40] {
        let data = vec![2.5; len];
        let m = mean(&data);
        assert_eq!(m, 2.5);
        assert_eq!(sum_squared_deviations(&data, m), 0.0);
    }
}

#[test]
fn what_is_not_a_number_spreads_through_every_phase() {
    for place in [0usize, 5, 17, 19, 20] {
        let mut data: Vec<f64> = (0..21).map(|i| i as f64).collect();
        data[place] = f64::NAN;
        assert!(sum(&data).is_nan(), "place {}", place);
        assert!(sum_squared_deviations(&data, 10.0).is_nan(), "place {}", place);
    }
}
