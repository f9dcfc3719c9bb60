use passbook::config::parse_watched_address;
use passbook::ledger::tables::{SqlValue, Statement};
use passbook::ledger::writer::{delete_blocks, write_unattributed};
use passbook::model::{UnattributedDeltaCause, UnattributedDeltaRow};
use passbook::primitives::{Address, B256, U256};
use passbook::text::{decimal_text, parse_u64, signed_decimal_text, trim};

fn texts(statements: Vec<Statement>) -> Vec<String> {
    let mut out = Vec::new();
    for s in statements {
        for v in s.into_params() {
            if let SqlValue::Text(t) = v {
                out.push(t);
            }
        }
    }
    out
}

fn row(address: Address, observed: U256) -> UnattributedDeltaRow {
    UnattributedDeltaRow {
        chain_id: 1,
        block_number: 2,
        block_hash: B256::from_bytes(&[3; 32]),
        address,
        observed_wei: observed,
        attributed_wei: U256::zero(),
        residual_wei: U256::zero(),
        cause: UnattributedDeltaCause::UnexplainedResidual,
    }
}

#[test]
fn numbers_are_written_as_alloy_writes_them() {
    let limbs = [0x0123_4567_89ab_cdef, 5, 0, 0xfedc_ba98_7654_3210u64];
    let n = U256 { l0: limbs[0], l1: limbs[1], l2: limbs[2], l3: limbs[3] };
    let written = texts(write_unattributed(&row(Address::zero(), n)));
    assert_eq!(written[2], alloy_primitives::U256::from_limbs(limbs).to_string());
    assert_eq!(written[3], "0");
}

#[test]
fn addresses_and_hashes_are_written_in_lower_case() {
    let mut bytes = [0u8; 20];
    bytes[0] = 0x0a;
    bytes[10] = 0xbc;
    bytes[19] = 0xff;
    let written = texts(write_unattributed(&row(Address::from_bytes(&bytes), U256::zero())));
    assert_eq!(written[0], format!("0x{}", "03".repeat(32)));
    assert_eq!(written[1], "0x0a000000000000000000bc0000000000000000ff");
    let mut hash = [0u8; 32];
    hash[31] = 0xab;
    let deleted = texts(delete_blocks(1, &[B256::from_bytes(&hash)]));
    assert_eq!(deleted[0], format!("0x{}ab", "00".repeat(31)));
    assert_eq!(deleted.len(), 4);
}

#[test]
fn addresses_are_read_from_bytes_and_text_alike() {
    let bytes = [
        0xd8, 0xda, 0x6b, 0xf2, 0x69, 0x64, 0xaf, 0x9d, 0x7e, 0xed, 0x9e, 0x03, 0xe5, 0x34, 0x15,
        0xd3, 0x7a, 0xa9, 0x60, 0x45,
    ];
    let parsed = parse_watched_address("0xd8da6bf26964af9d7eed9e03e53415d37aa96045").unwrap();
    assert_eq!(parsed, Address::from_bytes(&bytes));
    let bare = parse_watched_address("D8DA6BF26964AF9D7EED9E03E53415D37AA96045").unwrap();
    assert_eq!(bare, parsed);
}

#[test]
fn addresses_are_ordered_by_their_bytes() {
    let mut low = [0xffu8; 20];
    low[0] = 0;
    assert!(Address::from_bytes(&low).precedes(&Address::from_bytes(&[1; 20])));
    assert!(!Address::from_bytes(&[1; 20]).precedes(&Address::from_bytes(&[1; 20])));
    let mut last = [1u8; 20];
    last[19] = 2;
    assert!(Address::from_bytes(&[1; 20]).precedes(&Address::from_bytes(&last)));
}

#[test]
fn numbers_fit_or_do_not_fit_in_i128() {
    assert_eq!(U256::from_u128(i128::MAX as u128).to_i128(), Some(i128::MAX));
    assert_eq!(U256::from_u128(1u128 << 127).to_i128(), None);
    assert_eq!(U256 { l0: 0, l1: 0, l2: 1, l3: 0 }.to_i128(), None);
    assert!(U256::zero().is_zero());
    assert!(!U256 { l0: 0, l1: 0, l2: 0, l3: 1 }.is_zero());
}

#[test]
fn decimal_texts() {
    assert_eq!(decimal_text(0), "0");
    assert_eq!(decimal_text(9), "9");
    assert_eq!(decimal_text(10), "10");
    assert_eq!(decimal_text(u128::MAX), u128::MAX.to_string());
    assert_eq!(signed_decimal_text(-15), "-15");
    assert_eq!(signed_decimal_text(i128::MIN), i128::MIN.to_string());
    assert_eq!(signed_decimal_text(7), "7");
}

#[test]
fn numbers_are_parsed_as_std_parses_them() {
    for s in [
        "0",
        "42",
        "+42",
        "-1",
        "",
        "+",
        "++1",
        " 1",
        "1 ",
        "1_000",
        "18446744073709551615",
        "18446744073709551616",
        "99999999999999999999",
        "00000000000000000000000000007",
        "\u{664}",
    ] {
        assert_eq!(parse_u64(s), s.parse::<u64>().ok(), "{s:?}");
    }
}

#[test]
fn texts_are_trimmed_as_std_trims_them() {
    for s in [
        "",
        " ",
        "a",
        "  a b\t\n",
        "\u{3000}x\u{a0}",
        "\u{200b}x",
        "\u{2028}\u{85}mid\u{1680}dle\u{205f}\u{202f}",
    ] {
        assert_eq!(trim(s), s.trim(), "{s:?}");
    }
    for n in 0u32..0x11_0000 {
        if let Some(c) = char::from_u32(n) {
            if c.is_whitespace() {
                let s = format!("{c}x{c}");
                assert_eq!(trim(&s), "x");
            }
        }
    }
}
