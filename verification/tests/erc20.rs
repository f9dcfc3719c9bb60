use passbook::erc20::{decode_transfer, transfer_topic0, RawLog};
use passbook::model::Direction;
use passbook::primitives::{Address, B256, U256};
use passbook::watched::WatchedSet;

fn address(byte: u8) -> Address {
    Address::from_bytes(&[byte; 20])
}

fn topic_addr(byte: u8) -> B256 {
    let mut b = [0u8; 32];
    b[12..].copy_from_slice(&[byte; 20]);
    B256::from_bytes(&b)
}

fn amount(n: u64) -> Vec<u8> {
    let mut b = vec![0u8; 32];
    b[24..].copy_from_slice(&n.to_be_bytes());
    b
}

#[test]
fn decodes_inbound_transfer_for_watched_to() {
    let watched = address(0xcc);
    let from = address(0x11);
    let token = address(0x99);
    let log = RawLog {
        address: token,
        topics: vec![transfer_topic0(), topic_addr(0x11), topic_addr(0xcc)],
        data: amount(1234),
    };
    let watch = WatchedSet::from_addresses(&[watched]);
    let out = decode_transfer(&log, &watch).unwrap();
    assert_eq!(out.from, from);
    assert_eq!(out.to, watched);
    assert_eq!(out.amount, U256::from_u64(1234));
    assert_eq!(out.matched, vec![(watched, Direction::In)]);
    assert_eq!(out.token, token);
}

#[test]
fn ignores_non_transfer_and_unwatched() {
    let watch = WatchedSet::from_addresses(&[address(0xcc)]);
    let other = RawLog {
        address: Address::zero(),
        topics: vec![B256::from_bytes(&[1u8; 32])],
        data: vec![],
    };
    assert!(decode_transfer(&other, &watch).is_none());
}

#[test]
fn topic0_matches_keccak() {
    let expected = alloy_primitives::keccak256("Transfer(address,address,uint256)");
    assert_eq!(transfer_topic0(), B256::from_bytes(&expected.0));
}

#[test]
fn transfer_shape_is_required() {
    let watch = WatchedSet::from_addresses(&[address(0xcc)]);
    let good = RawLog {
        address: address(0x99),
        topics: vec![transfer_topic0(), topic_addr(0x11), topic_addr(0xcc)],
        data: amount(1),
    };
    assert!(decode_transfer(&good, &watch).is_some());
    let short = RawLog { data: vec![0u8; 31], ..good.clone() };
    assert!(decode_transfer(&short, &watch).is_none());
    let mut four = good.clone();
    four.topics.push(topic_addr(0x11));
    assert!(decode_transfer(&four, &watch).is_none());
    let mut other_topic = good.clone();
    other_topic.topics[0] = topic_addr(0x11);
    assert!(decode_transfer(&other_topic, &watch).is_none());
    let unwatched = WatchedSet::from_addresses(&[address(0xdd)]);
    assert!(decode_transfer(&good, &unwatched).is_none());
}

#[test]
fn only_the_first_word_of_the_data_is_the_amount() {
    let watch = WatchedSet::from_addresses(&[address(0x11), address(0xcc)]);
    let mut data = vec![0xffu8; 32];
    data.extend_from_slice(&[7u8; 5]);
    let log = RawLog {
        address: address(0x99),
        topics: vec![transfer_topic0(), topic_addr(0x11), topic_addr(0xcc)],
        data,
    };
    let out = decode_transfer(&log, &watch).unwrap();
    assert_eq!(
        out.amount,
        U256 { l0: u64::MAX, l1: u64::MAX, l2: u64::MAX, l3: u64::MAX }
    );
    assert_eq!(
        out.matched,
        vec![(address(0xcc), Direction::In), (address(0x11), Direction::Out)]
    );
}

#[test]
fn the_address_is_the_end_of_the_word() {
    let mut b = [0xeeu8; 32];
    b[12..].copy_from_slice(&[0xcc; 20]);
    assert_eq!(Address::from_word(&B256::from_bytes(&b)), address(0xcc));
}
