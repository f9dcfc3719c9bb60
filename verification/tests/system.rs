use passbook::primitives::{Address, U256};
use passbook::system::l1_system_credits;
use passbook::watched::WatchedSet;

fn address(byte: u8) -> Address {
    Address::from_bytes(&[byte; 20])
}

#[test]
fn withdrawal_to_watched_is_a_system_credit() {
    let w = address(0xaa);
    let other = address(0xbb);
    let watched = WatchedSet::from_addresses(&[w]);
    let creds = l1_system_credits(
        &watched,
        &[(w, U256::from_u64(1_000_000_000)), (other, U256::from_u64(5_000_000_000))],
        Address::zero(),
        7,
        &[],
    );
    assert_eq!(creds.len(), 1);
    assert_eq!(creds[0].address, w);
    assert_eq!(creds[0].signed_wei, 1_000_000_000i128);
    assert_eq!(creds[0].source, "withdrawal");
    assert_eq!(creds[0].counterparty, Address::zero());
}

#[test]
fn multiple_withdrawals_same_recipient_net_into_one() {
    let w = address(0xaa);
    let watched = WatchedSet::from_addresses(&[w]);
    let creds = l1_system_credits(
        &watched,
        &[(w, U256::from_u64(10)), (w, U256::from_u64(32))],
        Address::zero(),
        7,
        &[],
    );
    assert_eq!(creds.len(), 1);
    assert_eq!(creds[0].signed_wei, 42i128);
}

#[test]
fn beneficiary_priority_fee_is_a_system_credit() {
    let w = address(0xcc);
    let watched = WatchedSet::from_addresses(&[w]);
    let creds = l1_system_credits(&watched, &[], w, 7, &[(1_000_000_000u128, 21_000u64)]);
    assert_eq!(creds.len(), 1);
    assert_eq!(creds[0].source, "block_reward");
    let expect = (1_000_000_000u128 - 7) as i128 * 21_000i128;
    assert_eq!(creds[0].signed_wei, expect);
}

#[test]
fn unwatched_beneficiary_yields_nothing() {
    let w = address(0xcc);
    let watched = WatchedSet::from_addresses(&[w]);
    let creds =
        l1_system_credits(&watched, &[], address(0x01), 7, &[(1_000_000_000u128, 21_000u64)]);
    assert!(creds.is_empty());
}

#[test]
fn zero_priority_fee_emits_no_block_reward_row() {
    let w = address(0xcc);
    let watched = WatchedSet::from_addresses(&[w]);
    let creds = l1_system_credits(
        &watched,
        &[],
        w,
        1_000_000_000u128,
        &[(1_000_000_000u128, 21_000u64)],
    );
    assert!(creds.is_empty());
}

#[test]
fn withdrawals_are_ordered_by_address_before_the_reward() {
    let a = address(0x01);
    let b = address(0x80);
    let c = address(0xff);
    let watched = WatchedSet::from_addresses(&[a, b, c]);
    let creds = l1_system_credits(
        &watched,
        &[
            (c, U256::from_u64(3)),
            (a, U256::from_u64(1)),
            (b, U256::from_u64(2)),
            (a, U256::from_u64(10)),
        ],
        b,
        5,
        &[(4, 100), (7, 10)],
    );
    let seen: Vec<(Address, i128, String)> =
        creds.iter().map(|c| (c.address, c.signed_wei, c.source.clone())).collect();
    assert_eq!(
        seen,
        vec![
            (a, 11, "withdrawal".to_string()),
            (b, 2, "withdrawal".to_string()),
            (c, 3, "withdrawal".to_string()),
            (b, 20, "block_reward".to_string()),
        ]
    );
}

#[test]
fn a_total_beyond_i128_is_held_at_the_largest() {
    let w = address(0xaa);
    let watched = WatchedSet::from_addresses(&[w]);
    let huge = U256 { l0: 0, l1: 0, l2: 1, l3: 0 };
    let creds = l1_system_credits(&watched, &[(w, huge)], Address::zero(), 0, &[]);
    assert_eq!(creds[0].signed_wei, i128::MAX);
}

#[test]
fn credits_do_not_depend_on_order() {
    let (a, b, c) = (address(0xaa), address(0xbb), address(0xcc));
    let watched = WatchedSet::from_addresses(&[a, b, c]);
    let mut withdrawals = vec![
        (b, U256::from_u64(3)),
        (a, U256::from_u64(5)),
        (b, U256::from_u64(4)),
        (address(1), U256::from_u64(9)),
    ];
    let mut txs = vec![(10u128, 21_000u64), (7, 50_000), (30, 1)];
    let expected = vec![(a, 5i128), (b, 7), (c, 3 * 21_000 + 23)];
    for _ in 0..withdrawals.len() {
        withdrawals.rotate_left(1);
        txs.rotate_left(1);
        let credits = l1_system_credits(&watched, &withdrawals, c, 7, &txs);
        let seen: Vec<(Address, i128)> =
            credits.iter().map(|x| (x.address, x.signed_wei)).collect();
        assert_eq!(seen, expected);
    }
}
