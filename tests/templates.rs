use vital_sampen::error::EntropyError;
use vital_sampen::templates::construct_templates;

#[test]
fn test_constuct_templates_1() {
    let expected: Vec<Vec<i128>> = vec![vec![1], vec![2], vec![3]];
    assert_eq!(expected, construct_templates(1, &vec![1, 2, 3]).unwrap());
}

#[test]
fn test_constuct_templates_2() {
    let expected: Vec<Vec<i128>> = vec![vec![1, 2], vec![2, 3], vec![3, 4], vec![4, 5]];
    assert_eq!(expected, construct_templates(2, &vec![1, 2, 3, 4, 5]).unwrap());
}

#[test]
fn templates_are_the_sliding_windows() {
    let data: Vec<i128> = vec![7, -3, 12, 0, 5, 5, -9, 4];
    for k in 1..=data.len() {
        let ts = construct_templates(k, &data).unwrap();
        assert_eq!(ts.len(), data.len() - k + 1);
        for (i, t) in ts.iter().enumerate() {
            assert_eq!(t.as_slice(), &data[i..i + k]);
        }
    }
}

#[test]
fn template_longer_than_waveform_is_insufficient_data() {
    assert_eq!(construct_templates(4, &vec![1, 2, 3]), Err(EntropyError::InsufficientData));
}

#[test]
fn template_as_long_as_waveform_is_the_waveform() {
    assert_eq!(construct_templates(3, &vec![1, 2, 3]).unwrap(), vec![vec![1i128, 2, 3]]);
}
