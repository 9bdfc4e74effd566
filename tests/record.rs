use vital_sampen::error::EntropyError;
use vital_sampen::record::{parse_decimal, vital_file_from_csv, vital_file_from_records, Decimal};

fn dec(negative: bool, mantissa: u64, exponent: i128) -> Option<Decimal> {
    Some(Decimal { negative, mantissa, exponent, exact: true })
}

#[test]
fn decimals_read_exactly() {
    assert_eq!(parse_decimal("120.5"), dec(false, 1205, -1));
    assert_eq!(parse_decimal("-0.25"), dec(true, 25, -2));
    assert_eq!(parse_decimal("+7"), dec(false, 7, 0));
    assert_eq!(parse_decimal(".5"), dec(false, 5, -1));
    assert_eq!(parse_decimal("5."), dec(false, 5, 0));
    assert_eq!(parse_decimal("007.10"), dec(false, 710, -2));
    assert_eq!(parse_decimal("120.567"), dec(false, 120567, -3));
    assert_eq!(parse_decimal("0.001"), dec(false, 1, -3));
}

#[test]
fn exponent_forms_read_exactly() {
    assert_eq!(parse_decimal("1.2e2"), dec(false, 12, 1));
    assert_eq!(parse_decimal("1E-3"), dec(false, 1, -3));
    assert_eq!(parse_decimal("-4.5e+1"), dec(true, 45, 0));
    assert_eq!(parse_decimal("1e2"), dec(false, 1, 2));
}

#[test]
fn text_that_is_no_finite_decimal_is_refused() {
    for text in ["", "-", ".", "abc", "1.2.3", " 12", "NaN", "inf", "infinity", "1e", "1e+", "e5", "1e2.5", "--1"] {
        assert_eq!(parse_decimal(text), None, "{}", text);
    }
}

#[test]
fn decimals_beyond_the_tracked_range_are_flagged() {
    assert!(!parse_decimal("99999999999999999999").unwrap().exact);
    assert!(!parse_decimal("1e99999999999").unwrap().exact);
    assert!(!parse_decimal("12345678901.5").unwrap().exact);
    assert_eq!(parse_decimal("0.000000000001234"), dec(false, 1234, -15));
    assert!(parse_decimal("10000000000").unwrap().exact);
}

fn row(fields: &[&str]) -> Vec<String> {
    fields.iter().map(|f| f.to_string()).collect()
}

#[test]
fn records_assemble_a_subject() {
    let records = vec![row(&["case1", "90.5", "120", "70.25"]), row(&["case1", "91", "121.5", "71"])];
    let vf = vital_file_from_records(&records).unwrap();
    assert_eq!(vf.name, "case1");
    assert_eq!(vf.scale, -2);
    assert_eq!(vf.mbp, vec![9050, 9100]);
    assert_eq!(vf.sbp, vec![12000, 12150]);
    assert_eq!(vf.dbp, vec![7025, 7100]);
}

#[test]
fn records_share_the_finest_scale() {
    let records = vec![row(&["c", "90.5", "1.2e2", "70"]), row(&["c", "91", "121.567", "7.1E1"])];
    let vf = vital_file_from_records(&records).unwrap();
    assert_eq!(vf.scale, -3);
    assert_eq!(vf.mbp, vec![90500, 91000]);
    assert_eq!(vf.sbp, vec![120000, 121567]);
    assert_eq!(vf.dbp, vec![70000, 71000]);
}

#[test]
fn large_values_are_read() {
    let records = vec![row(&["c", "30000000", "-30000000", "1e9"])];
    let vf = vital_file_from_records(&records).unwrap();
    assert_eq!(vf.scale, 0);
    assert_eq!((vf.mbp[0], vf.sbp[0], vf.dbp[0]), (30000000, -30000000, 1000000000));
}

#[test]
fn samples_beyond_32_bits_at_the_common_scale_are_too_large() {
    let records = vec![row(&["c", "100", "0.0000000001", "1"])];
    assert_eq!(vital_file_from_records(&records).err(), Some(EntropyError::TooLarge));
    let huge = vec![row(&["c", "3e9", "1", "1"])];
    assert_eq!(vital_file_from_records(&huge).err(), Some(EntropyError::TooLarge));
}

#[test]
fn malformed_records_are_refused() {
    let empty: Vec<Vec<String>> = Vec::new();
    assert_eq!(vital_file_from_records(&empty).err(), Some(EntropyError::MalformedInput));
    let short = vec![row(&["case1", "90", "120"])];
    assert_eq!(vital_file_from_records(&short).err(), Some(EntropyError::MalformedInput));
    let bad = vec![row(&["case1", "90", "120", "70"]), row(&["case1", "", "120", "70"])];
    assert_eq!(vital_file_from_records(&bad).err(), Some(EntropyError::MalformedInput));
    // Malformed text wins over a value that is too large.
    let both = vec![row(&["case1", "3e9", "120", "70"]), row(&["case1", "x", "120", "70"])];
    assert_eq!(vital_file_from_records(&both).err(), Some(EntropyError::MalformedInput));
}

#[test]
fn csv_contents_assemble_a_subject() {
    let text = "name,mbp,sbp,dbp\ncase1,90.5,120,70.25\ncase1,91,121.5,71\n";
    let vf = vital_file_from_csv(text.as_bytes()).unwrap();
    assert_eq!(vf.name, "case1");
    assert_eq!(vf.mbp, vec![9050, 9100]);
    assert_eq!(vf.sbp, vec![12000, 12150]);
    assert_eq!(vf.dbp, vec![7025, 7100]);
}

#[test]
fn csv_quoted_fields_are_unquoted() {
    let text = "name,mbp,sbp,dbp\n\"case 1\",\"90\",120,70\n";
    let vf = vital_file_from_csv(text.as_bytes()).unwrap();
    assert_eq!(vf.name, "case 1");
    assert_eq!(vf.mbp, vec![90]);
}

#[test]
fn malformed_csv_is_refused() {
    let header_only = "name,mbp,sbp,dbp\n";
    assert_eq!(vital_file_from_csv(header_only.as_bytes()).err(), Some(EntropyError::MalformedInput));
    let ragged = "name,mbp,sbp,dbp\ncase1,90,120,70\ncase1,91,121\n";
    assert_eq!(vital_file_from_csv(ragged.as_bytes()).err(), Some(EntropyError::MalformedInput));
    let missing = "name,mbp,sbp,dbp\ncase1,,120,70\n";
    assert_eq!(vital_file_from_csv(missing.as_bytes()).err(), Some(EntropyError::MalformedInput));
    let not_utf8: &[u8] = b"name,mbp,sbp,dbp\ncase1,90,120,\xff\n";
    assert_eq!(vital_file_from_csv(not_utf8).err(), Some(EntropyError::MalformedInput));
}
