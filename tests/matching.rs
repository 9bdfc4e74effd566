use vital_sampen::matching::{get_matches, is_match};
use vital_sampen::templates::construct_templates;

#[test]
fn match_is_strictly_below_tolerance() {
    assert!(is_match(&vec![1, 2], &vec![1, 3], 2));
    assert!(!is_match(&vec![1, 2], &vec![1, 3], 1));
    assert!(!is_match(&vec![0, 0], &vec![0, 0], 0));
}

#[test]
fn match_uses_the_largest_coordinate_difference() {
    assert!(!is_match(&vec![0, 0, 0], &vec![1, 1, 5], 5));
    assert!(is_match(&vec![0, 0, 0], &vec![1, 1, 5], 6));
}

#[test]
fn match_survives_extreme_values() {
    assert!(!is_match(&vec![i128::MAX], &vec![i128::MIN], i128::MAX));
    assert!(is_match(&vec![i128::MAX], &vec![i128::MAX - 1], 2));
}

#[test]
fn matches_count_ordered_pairs() {
    let ts = construct_templates(1, &vec![1, 2, 1, 2, 1, 2]).unwrap();
    assert_eq!(get_matches(&ts, 1), 12);
    let ts2 = construct_templates(2, &vec![1, 2, 1, 2, 1, 2]).unwrap();
    assert_eq!(get_matches(&ts2, 1), 8);
}

#[test]
fn matches_are_even_and_twice_the_unordered_pairs() {
    let data: Vec<i128> = vec![3, 8, 1, 9, 4, 4, 7, 2, 6, 5];
    for r in 0..12 {
        let ts = construct_templates(2, &data).unwrap();
        let mut unordered = 0u64;
        for i in 0..ts.len() {
            for j in i + 1..ts.len() {
                if is_match(&ts[i], &ts[j], r) {
                    unordered += 1;
                }
            }
        }
        let count = get_matches(&ts, r);
        assert_eq!(count % 2, 0);
        assert_eq!(count, 2 * unordered);
    }
}

#[test]
fn longer_templates_never_match_more() {
    let data: Vec<i128> = vec![3, 8, 1, 9, 4, 4, 7, 2, 6, 5, 3, 8, 1, 9];
    for m in 1..6 {
        for r in 0..10 {
            let a = get_matches(&construct_templates(m, &data).unwrap(), r);
            let b = get_matches(&construct_templates(m + 1, &data).unwrap(), r);
            assert!(b <= a);
        }
    }
}

#[test]
fn no_templates_no_matches() {
    let ts: Vec<Vec<i128>> = Vec::new();
    assert_eq!(get_matches(&ts, 5), 0);
}

#[test]
fn match_count_ignores_template_order() {
    let data: Vec<i128> = vec![3, 8, 1, 9, 4, 4, 7, 2, 6, 5, 3, 8];
    let ts = construct_templates(2, &data).unwrap();
    let mut shuffled = ts.clone();
    shuffled.reverse();
    shuffled.swap(0, 5);
    shuffled.swap(2, 7);
    for r in 0..10 {
        assert_eq!(get_matches(&ts, r), get_matches(&shuffled, r));
    }
}
