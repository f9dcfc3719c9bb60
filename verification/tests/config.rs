use passbook::config::{check_case, ConfigError, PassbookConfig};
use passbook::primitives::Address;

fn from(texts: &[&str]) -> Result<PassbookConfig, ConfigError> {
    PassbookConfig::from_parts(
        texts.iter().map(|t| t.to_string()).collect(),
        "/tmp/x.db".to_string(),
    )
}

#[test]
fn parses_valid_addresses() {
    let c = from(&["0x0000000000000000000000000000000000000001"]).ok().unwrap();
    assert_eq!(c.watched.len(), 1);
    assert_eq!(c.db_path, "/tmp/x.db");
    assert!(c.enabled());
}

#[test]
fn rejects_malformed_address() {
    assert!(from(&["nope"]).is_err());
}

#[test]
fn accepts_all_lowercase_address() {
    assert!(from(&["0xd8da6bf26964af9d7eed9e03e53415d37aa96045"]).is_ok());
}

#[test]
fn accepts_all_uppercase_address() {
    assert!(from(&["0xD8DA6BF26964AF9D7EED9E03E53415D37AA96045"]).is_ok());
}

#[test]
fn accepts_valid_eip55_checksummed_address() {
    assert!(from(&["0xd8dA6BF26964aF9D7eEd9e03E53415D37aA96045"]).is_ok());
}

#[test]
fn rejects_bad_eip55_checksum() {
    let res = from(&["0xd8da6BF26964aF9D7eEd9e03E53415D37aA96045"]);
    assert!(res.is_err());
    let message = res.err().unwrap().message();
    assert!(message.contains("EIP-55 checksum"));
    assert_eq!(
        message,
        "watched address \"0xd8da6BF26964aF9D7eEd9e03E53415D37aA96045\" has an invalid EIP-55 checksum (expected 0xd8dA6BF26964aF9D7eEd9e03E53415D37aA96045); a mistyped character may have produced the wrong address"
    );
}

#[test]
fn empty_list_is_disabled() {
    let c = from(&[]).ok().unwrap();
    assert!(c.watched.is_empty());
    assert!(!c.enabled());
}

#[test]
fn blank_texts_are_passed_over_and_repeats_count_once() {
    let c = from(&[
        "",
        "  ",
        " 0x0000000000000000000000000000000000000001\n",
        "0X0000000000000000000000000000000000000001",
        "0000000000000000000000000000000000000002",
    ])
    .ok()
    .unwrap();
    assert_eq!(c.watched.len(), 2);
    let mut two = [0u8; 20];
    two[19] = 2;
    assert!(c.watched.contains(&Address::from_bytes(&two)));
    assert!(!c.oversized());
}

#[test]
fn more_than_ten_are_accepted() {
    let texts: Vec<String> = (0..11).map(|n| format!("0x{n:040x}")).collect();
    let c = PassbookConfig::from_parts(texts, String::new()).ok().unwrap();
    assert_eq!(c.watched.len(), 11);
    assert!(c.oversized());
}

#[test]
fn reasons_are_given() {
    assert_eq!(
        from(&["nope"]).err().unwrap().message(),
        "invalid watched address \"nope\": invalid string length"
    );
    assert_eq!(
        from(&["0x123"]).err().unwrap().message(),
        "invalid watched address \"0x123\": odd number of digits"
    );
    assert_eq!(
        from(&["0x00000000000000000000000000000000000000\"1"]).err().unwrap().message(),
        "invalid watched address \"0x00000000000000000000000000000000000000\\\"1\": invalid character '\"' at position 38"
    );
}

#[test]
fn one_bad_address_among_good_ones() {
    assert!(from(&[
        "0x0000000000000000000000000000000000000001",
        "0x00000000000000000000000000000000000000zz",
        "0x0000000000000000000000000000000000000002",
    ])
    .is_err());
}

#[test]
fn case_is_checked_only_where_it_is_mixed() {
    let a = Address::from_bytes(&[0xab; 20]);
    assert!(check_case("0xabab", a, "0xABab").is_ok());
    assert!(check_case("0XABAB", a, "0xABab").is_ok());
    assert!(check_case("0xABab", a, "0xABab").is_ok());
    assert!(check_case("0xaBab", a, "0xABab").is_err());
    assert!(check_case("ABab", a, "0xABab").is_ok());
    assert!(check_case("0XABab", a, "0xABab").is_ok());
    assert!(check_case("aBab", a, "0xABab").is_err());
    assert!(check_case("ABa", a, "0xABab").is_err());
}

#[test]
fn a_right_checksum_needs_no_prefix() {
    let digits = "d8dA6BF26964aF9D7eEd9e03E53415D37aA96045";
    for text in [digits.to_string(), format!("0x{digits}"), format!("0X{digits}")] {
        assert_eq!(from(&[&text]).expect("accepted").watched.len(), 1);
    }
    match from(&["D8dA6BF26964aF9D7eEd9e03E53415D37aA96045"]) {
        Err(ConfigError::Checksum { expected, .. }) => assert_eq!(expected, format!("0x{digits}")),
        _ => panic!("a wrong checksum was accepted"),
    }
}

#[test]
fn the_expected_spelling_is_accepted() {
    for n in 1..40u64 {
        let digits = format!("{:040x}", (n as u128) * 0xabcd_ef01_2345_6789_abcd_ef01);
        let mixed = format!("0xAaF{}", &digits[3..]).replace('a', "A").replacen('A', "a", 1);
        match from(&[&mixed]) {
            Ok(c) => assert_eq!(c.watched.len(), 1),
            Err(ConfigError::Checksum { expected, .. }) => {
                assert_eq!(expected.to_lowercase(), mixed.to_lowercase());
                assert!(from(&[&expected]).is_ok());
            }
            Err(e) => panic!("{}", e.message()),
        }
    }
}
