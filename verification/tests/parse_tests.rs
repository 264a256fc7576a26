use defispring::api::processor::{parse_round_filename, parse_u128};

#[test]
fn test_parse_round_filename() {
    assert_eq!(parse_round_filename("raw_1.zip"), Some(1));
    assert_eq!(parse_round_filename("raw_255.zip"), Some(255));
    assert_eq!(parse_round_filename("RAW_33.ZIP"), Some(33));
    assert_eq!(parse_round_filename("Raw_007.Zip"), Some(7));
    // round zero is excluded, however it is spelt
    assert_eq!(parse_round_filename("raw_0.zip"), None);
    assert_eq!(parse_round_filename("raw_00.zip"), None);
    // too large for a round
    assert_eq!(parse_round_filename("raw_256.zip"), None);
    assert_eq!(parse_round_filename("raw_999999.zip"), None);
    // pattern violations
    assert_eq!(parse_round_filename("raw_.zip"), None);
    assert_eq!(parse_round_filename("raw_1.zipp"), None);
    assert_eq!(parse_round_filename("xraw_1.zip"), None);
    assert_eq!(parse_round_filename("raw_1a.zip"), None);
    assert_eq!(parse_round_filename("raw-1.zip"), None);
    assert_eq!(parse_round_filename(""), None);
}

#[test]
fn test_parse_u128() {
    assert_eq!(parse_u128("0"), Some(0));
    assert_eq!(parse_u128("42"), Some(42));
    assert_eq!(parse_u128("005"), Some(5));
    assert_eq!(
        parse_u128("340282366920938463463374607431768211455"),
        Some(u128::MAX)
    );
    // one past the largest value
    assert_eq!(parse_u128("340282366920938463463374607431768211456"), None);
    assert_eq!(parse_u128(""), None);
    assert_eq!(parse_u128("12x"), None);
    assert_eq!(parse_u128("-1"), None);
    assert_eq!(parse_u128(" 1"), None);
}
