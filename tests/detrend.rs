use vital_sampen::detrend::{detrend_data, MAX_LEN};
use vital_sampen::error::EntropyError;

#[test]
fn detrend_removes_the_least_squares_line() {
    // Fit of [1, 3, 2]: slope 0.5, intercept 1, residuals -0.5, 1, -0.5.
    let d = detrend_data(&vec![1, 3, 2]).unwrap();
    assert_eq!(d.scale, 24);
    assert_eq!(d.values, vec![-12, 24, -12]);
}

#[test]
fn detrend_of_linear_data_is_zero() {
    let data: Vec<i32> = (1..=50).collect();
    let d = detrend_data(&data).unwrap();
    assert_eq!(d.values.len(), 50);
    assert!(d.values.iter().all(|v| *v == 0));
}

#[test]
fn detrend_of_sloped_line_with_offset_is_zero() {
    let data: Vec<i32> = (1..=40).map(|x| 1000 - 37 * x).collect();
    let d = detrend_data(&data).unwrap();
    assert!(d.values.iter().all(|v| *v == 0));
}

#[test]
fn detrend_of_constant_is_zero() {
    let d = detrend_data(&vec![5; 17]).unwrap();
    assert!(d.values.iter().all(|v| *v == 0));
}

#[test]
fn detrended_values_have_zero_sum_and_no_slope() {
    let data: Vec<i32> = vec![12000, 12150, 11980, 12230, 12010, 11875, 12400, 12090];
    let d = detrend_data(&data).unwrap();
    let sum: i128 = d.values.iter().sum();
    let weighted: i128 = d.values.iter().enumerate().map(|(i, v)| (i as i128 + 1) * v).sum();
    assert_eq!(sum, 0);
    assert_eq!(weighted, 0);
    let n = data.len() as i128;
    assert_eq!(d.scale, n * n * n - n);
}

#[test]
fn detrend_agrees_with_floating_point_fit() {
    let data: Vec<i32> = vec![4, -2, 9, 7, 1, 0, 3];
    let d = detrend_data(&data).unwrap();
    let n = data.len() as f64;
    let xbar = (n + 1.0) / 2.0;
    let ybar = data.iter().map(|v| *v as f64).sum::<f64>() / n;
    let (mut num, mut den) = (0.0, 0.0);
    for (i, v) in data.iter().enumerate() {
        let t = (i + 1) as f64 - xbar;
        num += t * (*v as f64 - ybar);
        den += t * t;
    }
    let beta = num / den;
    let alpha = ybar - beta * xbar;
    for (i, v) in data.iter().enumerate() {
        let expected = *v as f64 - alpha - beta * (i + 1) as f64;
        let got = d.values[i] as f64 / d.scale as f64;
        assert!((expected - got).abs() < 1e-9);
    }
}

#[test]
fn detrend_needs_two_samples() {
    assert_eq!(detrend_data(&vec![]).err(), Some(EntropyError::InsufficientData));
    assert_eq!(detrend_data(&vec![3]).err(), Some(EntropyError::InsufficientData));
    assert!(detrend_data(&vec![3, 4]).is_ok());
}

#[test]
fn detrend_refuses_waveforms_beyond_the_exact_range() {
    let data: Vec<i32> = vec![0; MAX_LEN + 1];
    assert_eq!(detrend_data(&data).err(), Some(EntropyError::TooLarge));
}

#[test]
fn detrend_handles_extreme_samples() {
    let data: Vec<i32> = vec![i32::MIN, i32::MAX, i32::MIN, i32::MAX];
    let d = detrend_data(&data).unwrap();
    let sum: i128 = d.values.iter().sum();
    assert_eq!(sum, 0);
}
