use vital_sampen::entropy::{
    compute_sampen_for_vital_file, compute_sampen_for_wave, sample_entropy, Config, SampleEntropy,
    VitalFile,
};
use vital_sampen::error::EntropyError;

fn value(e: &SampleEntropy) -> f64 {
    -(e.matches_m_plus_one as f64 / e.matches_m as f64).ln()
}

fn noisy_sinusoid(len: usize) -> Vec<i128> {
    let mut state: u64 = 12345;
    (0..len)
        .map(|i| {
            state = state.wrapping_mul(6364136223846793005).wrapping_add(1442695040888963407);
            let noise = ((state >> 33) % 401) as i128 - 200;
            let phase = 2.0 * std::f64::consts::PI * i as f64 / 25.0;
            (1000.0 * phase.sin()).round() as i128 + noise
        })
        .collect()
}

#[test]
fn sample_entropy_counts_both_embeddings() {
    let e = sample_entropy(1, 1, &vec![1, 2, 1, 2, 1, 2]).unwrap();
    assert_eq!(e, SampleEntropy { tolerance: 1, matches_m: 12, matches_m_plus_one: 8 });
    assert!((value(&e) - 1.5f64.ln()).abs() < 1e-12);
}

#[test]
fn sample_entropy_needs_m_plus_two_samples() {
    assert_eq!(sample_entropy(2, 5, &vec![1, 2, 3]), Err(EntropyError::InsufficientData));
    assert!(sample_entropy(2, 5, &vec![1, 2, 3, 4]).is_ok());
}

#[test]
fn sample_entropy_without_matches_is_degenerate() {
    assert_eq!(sample_entropy(2, 0, &vec![1, 1, 1, 1, 1]), Err(EntropyError::DegenerateMatch));
    // Matches at m = 1 but none at m = 2.
    assert_eq!(sample_entropy(1, 1, &vec![1, 2, 3, 1]), Err(EntropyError::DegenerateMatch));
}

#[test]
fn noisy_sinusoid_entropy_is_reproducible() {
    let data = noisy_sinusoid(500);
    let first = sample_entropy(2, 150, &data).unwrap();
    let second = sample_entropy(2, 150, &data).unwrap();
    assert_eq!(first, second);
    assert!(first.matches_m_plus_one <= first.matches_m);
    assert!(value(&first).is_finite());
    assert!(value(&first) > 0.0);
}

#[test]
fn standard_config_is_two_and_a_fifth() {
    let c = Config::standard();
    assert_eq!((c.embedding, c.tolerance_num, c.tolerance_den), (2, 1, 5));
    assert_eq!(Config::new(0, 1, 5), None);
    assert_eq!(Config::new(2, 1, 0), None);
    assert_eq!(Config::new(3, 3, 20), Some(Config { embedding: 3, tolerance_num: 3, tolerance_den: 20 }));
}

#[test]
fn ascending_channel_is_degenerate() {
    let sbp: Vec<i32> = (1..=3000).collect();
    assert_eq!(compute_sampen_for_wave(&Config::standard(), &sbp), Err(EntropyError::DegenerateMatch));
}

#[test]
fn constant_channel_is_degenerate() {
    assert_eq!(compute_sampen_for_wave(&Config::standard(), &vec![5; 200]), Err(EntropyError::DegenerateMatch));
}

#[test]
fn periodic_channel_is_degenerate_or_near_zero() {
    let data: Vec<i32> = (0..300).map(|i| if i % 2 == 0 { 0 } else { 1000 }).collect();
    match compute_sampen_for_wave(&Config::standard(), &data) {
        Err(e) => assert_eq!(e, EntropyError::DegenerateMatch),
        Ok(e) => assert!(value(&e).abs() < 0.05),
    }
}

#[test]
fn short_channel_is_insufficient_data() {
    assert_eq!(compute_sampen_for_wave(&Config::standard(), &vec![1, 5, 2]), Err(EntropyError::InsufficientData));
}

#[test]
fn channel_entropy_matches_floating_point_pipeline() {
    let data: Vec<i32> = noisy_sinusoid(300).iter().map(|v| *v as i32 + 12000).collect();
    let e = compute_sampen_for_wave(&Config::standard(), &data).unwrap();
    // The same pipeline in floating point.
    let n = data.len() as f64;
    let xbar = (n + 1.0) / 2.0;
    let ybar = data.iter().map(|v| *v as f64).sum::<f64>() / n;
    let (mut num, mut den) = (0.0, 0.0);
    for (i, v) in data.iter().enumerate() {
        let t = (i + 1) as f64 - xbar;
        num += t * (*v as f64 - ybar);
        den += t * t;
    }
    let beta = num / den;
    let alpha = ybar - beta * xbar;
    let d: Vec<f64> = data.iter().enumerate().map(|(i, v)| *v as f64 - alpha - beta * (i + 1) as f64).collect();
    let mean = d.iter().sum::<f64>() / n;
    let r = 0.2 * (d.iter().map(|x| (x - mean) * (x - mean)).sum::<f64>() / n).sqrt();
    let count = |k: usize| -> u64 {
        let mut c = 0;
        for i in 0..d.len() - k + 1 {
            for j in i + 1..d.len() - k + 1 {
                if (0..k).all(|t| (d[i + t] - d[j + t]).abs() < r) {
                    c += 2;
                }
            }
        }
        c
    };
    assert_eq!(e.matches_m, count(2));
    assert_eq!(e.matches_m_plus_one, count(3));
}

#[test]
fn subject_record_holds_all_three_channels() {
    let sbp: Vec<i32> = noisy_sinusoid(120).iter().map(|v| *v as i32 + 12000).collect();
    let mbp: Vec<i32> = noisy_sinusoid(120).iter().map(|v| *v as i32 / 2 + 9000).collect();
    let dbp: Vec<i32> = noisy_sinusoid(120).iter().rev().map(|v| *v as i32 + 7000).collect();
    let vf = VitalFile { name: String::from("subject-7"), scale: -2, sbp: sbp.clone(), mbp: mbp.clone(), dbp: dbp.clone() };
    let cfg = Config::standard();
    let ve = compute_sampen_for_vital_file(&cfg, &vf).unwrap();
    assert_eq!(ve.name, "subject-7");
    assert_eq!(Ok(ve.sbp_sampen), compute_sampen_for_wave(&cfg, &sbp));
    assert_eq!(Ok(ve.mbp_sampen), compute_sampen_for_wave(&cfg, &mbp));
    assert_eq!(Ok(ve.dbp_sampen), compute_sampen_for_wave(&cfg, &dbp));
}

#[test]
fn subject_with_one_failing_channel_is_excluded() {
    let good: Vec<i32> = noisy_sinusoid(120).iter().map(|v| *v as i32 + 12000).collect();
    let vf = VitalFile { name: String::from("s"), scale: -2, sbp: good.clone(), mbp: vec![5; 120], dbp: vec![1, 2] };
    assert_eq!(compute_sampen_for_vital_file(&Config::standard(), &vf).err(), Some(EntropyError::DegenerateMatch));
}

#[test]
fn constant_waveform_with_positive_tolerance_is_near_zero() {
    let e = sample_entropy(2, 1, &vec![7; 10]).unwrap();
    assert_eq!(e, SampleEntropy { tolerance: 1, matches_m: 72, matches_m_plus_one: 56 });
    assert!((value(&e) - (9.0f64 / 7.0).ln()).abs() < 1e-12);
}

#[test]
fn periodic_waveform_with_positive_tolerance_is_defined() {
    let data: Vec<i128> = (0..60).map(|i| [10, 50, 30][i % 3]).collect();
    let e = sample_entropy(2, 1, &data).unwrap();
    assert!(e.matches_m_plus_one >= 2);
    assert!(e.matches_m_plus_one <= e.matches_m);
    assert!(value(&e) >= 0.0 && value(&e) < 0.1);
}
