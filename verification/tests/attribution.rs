use passbook::attribution::{attribute_eth_frames, compute_gas_payment, GasInput};
use passbook::inspector::{CapturedFrame, FrameKind};
use passbook::model::{Direction, EthKind};
use passbook::primitives::{Address, B256, U256};
use passbook::watched::WatchedSet;

fn address(byte: u8) -> Address {
    Address::from_bytes(&[byte; 20])
}

fn hash(byte: u8) -> B256 {
    B256::from_bytes(&[byte; 32])
}

fn gas_input() -> GasInput {
    GasInput {
        chain_id: 1,
        block_number: 7,
        block_hash: hash(0),
        tx_hash: hash(1),
        tx_from: address(0xaa),
        gas_used: 21000,
        effective_gas_price: 1_000_000_000,
        l1_fee_wei: Some(U256::from_u64(500)),
    }
}

#[test]
fn gas_payment_includes_l1_when_present() {
    let g = compute_gas_payment(gas_input());
    assert_eq!(g.l2_fee_wei, U256::from_u64(21000 * 1_000_000_000));
    assert_eq!(g.total_wei, U256::from_u64(21000 * 1_000_000_000 + 500));
    assert_eq!(g.l1_fee_wei, Some(U256::from_u64(500)));
}

#[test]
fn gas_payment_without_a_data_fee() {
    let g = compute_gas_payment(GasInput { l1_fee_wei: None, ..gas_input() });
    assert_eq!(g.total_wei, g.l2_fee_wei);
    assert_eq!(g.l1_fee_wei, None);
    assert_eq!(g.address, address(0xaa));
}

#[test]
fn gas_payment_of_the_largest_price() {
    let g = compute_gas_payment(GasInput {
        gas_used: u64::MAX,
        effective_gas_price: u128::MAX,
        l1_fee_wei: None,
        ..gas_input()
    });
    // (2^64 - 1) * (2^128 - 1) = 2^192 - 2^128 - 2^64 + 1
    assert_eq!(
        g.l2_fee_wei,
        U256 { l0: 1, l1: u64::MAX, l2: u64::MAX - 1, l3: 0 }
    );
}

#[test]
fn frame_between_watched_addresses_has_two_rows() {
    let from = address(1);
    let to = address(2);
    let frames = vec![
        CapturedFrame {
            from,
            to,
            value: U256::from_u64(5),
            kind: FrameKind::Call,
            trace_path: "tx:3".to_string(),
        },
        CapturedFrame {
            from: to,
            to: address(9),
            value: U256::from_u64(6),
            kind: FrameKind::Call,
            trace_path: "1".to_string(),
        },
    ];
    let watched = WatchedSet::from_addresses(&[from, to]);
    let rows = attribute_eth_frames(1, 2, hash(3), Some(hash(4)), false, &frames, &watched);
    assert_eq!(rows.len(), 3);
    assert_eq!(rows[0].address, to);
    assert_eq!(rows[0].direction, Direction::In);
    assert_eq!(rows[0].counterparty, from);
    assert_eq!(rows[0].trace_path, "tx:3");
    assert_eq!(rows[0].kind, EthKind::TopLevel);
    assert_eq!(rows[1].address, from);
    assert_eq!(rows[1].direction, Direction::Out);
    assert_eq!(rows[1].counterparty, to);
    assert_eq!(rows[1].trace_path, "tx:3:out");
    assert_eq!(rows[1].kind, EthKind::TopLevel);
    assert_eq!(rows[2].trace_path, "1:out");
    assert_eq!(rows[2].kind, EthKind::Internal);
    assert_eq!(rows[2].amount_wei, U256::from_u64(6));
}
