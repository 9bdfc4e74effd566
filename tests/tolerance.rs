use vital_sampen::error::EntropyError;
use vital_sampen::tolerance::tolerance;

#[test]
fn tolerance_is_the_exact_integer_threshold() {
    // sigma = sqrt(864 / 3) = 16.97..., so 0.2 sigma = 3.39...: |d| <= 3 matches.
    assert_eq!(tolerance(&vec![-12, 24, -12], 1, 5), Ok(4));
}

#[test]
fn tolerance_agrees_with_floating_point_sigma() {
    let values: Vec<i128> = vec![-410, 133, 977, -52, -648, 0];
    let t = tolerance(&values, 1, 5).unwrap();
    let n = values.len() as f64;
    let sigma = (values.iter().map(|v| (*v as f64) * (*v as f64)).sum::<f64>() / n).sqrt();
    let r = 0.2 * sigma;
    assert!(((t - 1) as f64) < r);
    assert!(t as f64 >= r);
}

#[test]
fn tolerance_on_exact_square_is_exclusive() {
    // sigma = 5 exactly and the multiplier is 1: |d| < 5.
    assert_eq!(tolerance(&vec![5, -5], 1, 1), Ok(5));
}

#[test]
fn zero_multiplier_gives_zero_tolerance() {
    assert_eq!(tolerance(&vec![i128::MAX, -i128::MAX], 0, 5), Ok(0));
}

#[test]
fn zero_waveform_gives_zero_tolerance() {
    assert_eq!(tolerance(&vec![0, 0, 0, 0], 1, 5), Ok(0));
    assert_eq!(tolerance(&vec![], 1, 5), Ok(0));
}

#[test]
fn tolerance_refuses_squares_beyond_128_bits() {
    assert_eq!(tolerance(&vec![1i128 << 64, -(1i128 << 64)], 1, 5), Err(EntropyError::TooLarge));
    assert_eq!(tolerance(&vec![1i128 << 63, -(1i128 << 63)], 4, 5), Err(EntropyError::TooLarge));
}

#[test]
fn tolerance_subtracts_the_mean() {
    // mean 5, squared deviations sum to 32, so sigma = 2.
    let data: Vec<i128> = vec![2, 4, 4, 4, 5, 5, 7, 9];
    assert_eq!(tolerance(&data, 1, 1), Ok(2));
    // 0.2 * sigma = 0.4: only equal samples match.
    assert_eq!(tolerance(&data, 1, 5), Ok(1));
}

#[test]
fn tolerance_ignores_a_shift() {
    let data: Vec<i128> = vec![2, 4, 4, 4, 5, 5, 7, 9];
    for d in [-1000i128, -5, 3, 1_000_000] {
        let shifted: Vec<i128> = data.iter().map(|v| v + d).collect();
        assert_eq!(tolerance(&shifted, 1, 1), Ok(2));
    }
}

#[test]
fn tolerance_scales_with_the_samples() {
    let data: Vec<i128> = vec![2, 4, 4, 4, 5, 5, 7, 9];
    let scaled: Vec<i128> = data.iter().map(|v| -3 * v).collect();
    // sigma = 6 exactly.
    assert_eq!(tolerance(&scaled, 1, 1), Ok(6));
}

#[test]
fn tolerance_refuses_a_sum_beyond_128_bits() {
    let data: Vec<i128> = vec![1i128 << 62; 8];
    assert_eq!(tolerance(&data, 1, 5), Err(EntropyError::TooLarge));
}
