use fruit_net::normalize::{FitError, Normalizer, SCALE};

// A measurement of `v` units is `v * SCALE` raw steps.
fn raw(units: f64) -> u64 {
    (units * SCALE as f64).round() as u64
}

fn constant_row(w: u64, s: u64, wd: u64, h: u64) -> Vec<u64> {
    vec![w, s, wd, h]
}

#[test]
fn fit_on_empty_reference_is_refused() {
    let mut norm = Normalizer::new();
    let refused = norm.fit(&Vec::new());
    assert_eq!(refused, Err(FitError::EmptyReference));
}

#[test]
fn fresh_normalizer_only_rescales() {
    let norm = Normalizer::new();
    let out = norm.transform(&vec![constant_row(raw(2.0), raw(3.0), raw(4.0), raw(5.0))]);
    assert_eq!(out, vec![vec![2_000_000i64, 3_000_000, 4_000_000, 5_000_000]]);
}

#[test]
fn fit_two_rows_bessel_corrected() {
    // Feature values 2.0 and 4.0 in every column: mean 3.0, Bessel variance
    // (1.0^2 + 1.0^2) / 1 = 2.0, standard deviation floor(sqrt(2) * 10^6).
    let rows = vec![
        constant_row(raw(2.0), raw(2.0), raw(2.0), raw(2.0)),
        constant_row(raw(4.0), raw(4.0), raw(4.0), raw(4.0)),
    ];
    let mut norm = Normalizer::new();
    norm.fit(&rows).unwrap();
    assert_eq!(norm.mean, vec![3_000_000u64; 4]);
    assert_eq!(norm.stdev, vec![1_414_213u64; 4]);
    let out = norm.transform(&rows);
    assert_eq!(out[0], vec![-707_107i64; 4]);
    assert_eq!(out[1], vec![707_107i64; 4]);
}

#[test]
fn fit_three_rows_exact_unit_deviation() {
    // Values 1.0, 2.0, 3.0: mean 2.0, Bessel variance (1 + 0 + 1) / 2 = 1.0,
    // so the standardized column is exactly -1.0, 0.0, 1.0.
    let rows = vec![
        constant_row(raw(1.0), raw(1.0), raw(1.0), raw(1.0)),
        constant_row(raw(2.0), raw(2.0), raw(2.0), raw(2.0)),
        constant_row(raw(3.0), raw(3.0), raw(3.0), raw(3.0)),
    ];
    let mut norm = Normalizer::new();
    norm.fit(&rows).unwrap();
    assert_eq!(norm.mean, vec![2_000_000u64; 4]);
    assert_eq!(norm.stdev, vec![1_000_000u64; 4]);
    let out = norm.transform(&rows);
    assert_eq!(out[0], vec![-1_000_000i64; 4]);
    assert_eq!(out[1], vec![0i64; 4]);
    assert_eq!(out[2], vec![1_000_000i64; 4]);
}

#[test]
fn constant_feature_falls_back_to_unit_deviation() {
    // A feature constant across the reference set has variance 0; its
    // deviation is floored to SCALE (1.0) instead of dividing by zero.
    let rows = vec![
        constant_row(raw(5.0), raw(1.0), raw(2.0), raw(3.0)),
        constant_row(raw(5.0), raw(3.0), raw(2.0), raw(3.0)),
    ];
    let mut norm = Normalizer::new();
    norm.fit(&rows).unwrap();
    assert_eq!(norm.stdev[0], SCALE);
    assert_eq!(norm.stdev[2], SCALE);
    assert_eq!(norm.stdev[3], SCALE);
    let out = norm.transform(&rows);
    assert_eq!(out[0][0], 0);
    assert_eq!(out[1][0], 0);
}

#[test]
fn single_row_reference_uses_population_fallback() {
    let rows = vec![constant_row(raw(7.0), raw(7.0), raw(7.0), raw(7.0))];
    let mut norm = Normalizer::new();
    norm.fit(&rows).unwrap();
    assert_eq!(norm.mean, vec![7_000_000u64; 4]);
    assert_eq!(norm.stdev, vec![SCALE; 4]);
}

#[test]
fn transforming_the_reference_set_standardizes_it() {
    // Transforming the exact reference set used to fit: per feature the
    // standardized column has mean close to 0 and standard deviation close
    // to 1, up to fixed-point rounding.
    let mut lcg: u64 = 12345;
    let mut next = move || {
        lcg = lcg
            .wrapping_mul(6364136223846793005)
            .wrapping_add(1442695040888963407);
        ((lcg >> 33) as f64) / ((1u64 << 31) as f64) // in [0, 1)
    };
    let mut rows: Vec<Vec<u64>> = Vec::new();
    for _ in 0..50 {
        rows.push(constant_row(
            raw(100.0 + 400.0 * next()),
            raw(2.0 + 8.0 * next()),
            raw(2.0 + 8.0 * next()),
            raw(2.0 + 8.0 * next()),
        ));
    }
    let mut norm = Normalizer::new();
    norm.fit(&rows).unwrap();
    let out = norm.transform(&rows);
    for j in 0..4 {
        let col: Vec<f64> = out.iter().map(|r| r[j] as f64 / SCALE as f64).collect();
        let mean: f64 = col.iter().sum::<f64>() / col.len() as f64;
        let var: f64 =
            col.iter().map(|x| (x - mean) * (x - mean)).sum::<f64>() / (col.len() - 1) as f64;
        assert!(mean.abs() < 1e-3, "column {} mean {}", j, mean);
        assert!((var.sqrt() - 1.0).abs() < 1e-3, "column {} std {}", j, var.sqrt());
    }
}
