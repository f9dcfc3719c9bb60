use passbook::erc20::{transfer_topic0, RawLog};
use passbook::exex::{process_block, BlockInputs, ProcessingError};
use passbook::inspector::{CapturedFrame, FrameKind};
use passbook::model::{Direction, EthKind, EthTransferRow, GasPaymentRow};
use passbook::primitives::{Address, B256, U256};
use passbook::system::SystemCredit;
use passbook::watched::WatchedSet;

fn address(byte: u8) -> Address {
    Address::from_bytes(&[byte; 20])
}

fn hash(byte: u8) -> B256 {
    B256::from_bytes(&[byte; 32])
}

fn hex(byte: u8, count: usize) -> String {
    format!("0x{}", format!("{byte:02x}").repeat(count))
}

fn topic_addr(byte: u8) -> B256 {
    let mut b = [0u8; 32];
    b[12..].copy_from_slice(&[byte; 20]);
    B256::from_bytes(&b)
}

fn empty(block_number: u64, block_hash: B256, watched: &[Address]) -> BlockInputs {
    BlockInputs {
        chain_id: 1,
        block_number,
        block_hash,
        watched: WatchedSet::from_addresses(watched),
        erc20_logs: vec![],
        frames: vec![],
        gas: vec![],
        account_deltas: vec![],
        system_signed: vec![],
    }
}

fn frame(from: Address, to: Address, value: U256, path: &str) -> CapturedFrame {
    CapturedFrame { from, to, value, kind: FrameKind::Call, trace_path: path.to_string() }
}

#[test]
fn clean_block_produces_batch() {
    let w = address(0xcc);
    let mut inp = empty(10, hash(3), &[w]);
    inp.account_deltas = vec![(w, 0)];
    let r = process_block(inp).expect("clean");
    assert_eq!(r.block_number, 10);
    assert!(r.unattributed.is_empty());
}

#[test]
fn watched_to_watched_erc20_produces_two_rows() {
    let from = address(0xa1);
    let to = address(0xb2);
    let mut data = vec![0u8; 32];
    data[30..].copy_from_slice(&777u16.to_be_bytes());
    let log = RawLog {
        address: address(0x99),
        topics: vec![transfer_topic0(), topic_addr(0xa1), topic_addr(0xb2)],
        data,
    };
    let mut inp = empty(11, hash(3), &[from, to]);
    inp.erc20_logs = vec![(Some(hash(0x44)), 0, log)];
    let batch = process_block(inp).expect("clean");
    assert_eq!(batch.erc20.len(), 2, "both directional rows emitted");
    let dirs: Vec<(Address, Direction)> =
        batch.erc20.iter().map(|r| (r.address, r.direction)).collect();
    assert!(dirs.contains(&(to, Direction::In)));
    assert!(dirs.contains(&(from, Direction::Out)));
    assert_eq!(batch.erc20[0].tx_hash, batch.erc20[1].tx_hash);
    assert_eq!(batch.erc20[0].log_index, batch.erc20[1].log_index);
    assert_ne!(batch.erc20[0].address, batch.erc20[1].address);
    assert_eq!(batch.erc20[0].amount, U256::from_u64(777));
}

#[test]
fn multiple_system_credits_same_address_distinct_trace_paths() {
    let w = address(0xD7);
    let from = address(0xFF);
    let source_a = format!("deposit_mint:{}", hex(0x01, 32));
    let source_b = format!("deposit_mint:{}", hex(0x02, 32));
    let mut inp = empty(42, hash(0x99), &[w]);
    inp.account_deltas = vec![(w, 3_000)];
    inp.system_signed = vec![
        SystemCredit::new(w, 1_000, from, &source_a),
        SystemCredit::new(w, 2_000, from, &source_b),
    ];
    let batch = process_block(inp).expect("recognised system credits net to zero");
    assert!(
        batch.unattributed.is_empty(),
        "summed system credit must reconcile to zero (no residual)"
    );
    let sys: Vec<&EthTransferRow> = batch
        .eth
        .iter()
        .filter(|r| matches!(r.kind, EthKind::System) && r.address == w)
        .collect();
    assert_eq!(sys.len(), 2, "both deposit-mint rows must be emitted");
    assert_eq!(sys[0].tx_hash, sys[1].tx_hash);
    assert_eq!(sys[0].tx_hash, Some(hash(0x99)));
    assert_ne!(
        sys[0].trace_path, sys[1].trace_path,
        "distinct trace_path required so neither row is lost"
    );
    let mut tps: Vec<&str> = sys.iter().map(|r| r.trace_path.as_str()).collect();
    tps.sort_unstable();
    assert_eq!(
        tps,
        vec![
            format!("system:{}:{}", source_a, hex(0xd7, 20)),
            format!("system:{}:{}", source_b, hex(0xd7, 20)),
        ]
    );
}

#[test]
fn unexplained_residual_is_processing_error() {
    let w = address(0xcc);
    let mut inp = empty(10, hash(3), &[w]);
    inp.account_deltas = vec![(w, 999)];
    let err = process_block(inp).unwrap_err();
    assert!(matches!(err, ProcessingError::UnexplainedResidual { .. }));
}

#[test]
fn out_of_range_inflow_is_reconcile_overflow_not_silent_clamp() {
    let w = address(0xcc);
    let other = address(0x11);
    let huge = U256 { l0: 0, l1: 0x8000_0000_0000_0000, l2: 0, l3: 0 };
    let mut inp = empty(11, hash(4), &[w]);
    inp.frames = vec![(Some(hash(7)), false, frame(other, w, huge, "0"))];
    inp.account_deltas = vec![(w, 0)];
    let err = process_block(inp).unwrap_err();
    assert!(
        matches!(err, ProcessingError::ReconcileOverflow { block: 11, address } if address == w),
        "out-of-range inflow must be a hard ReconcileOverflow, got {err:?}"
    );
}

#[test]
fn parent_state_unavailable_is_processing_error() {
    let e = ProcessingError::ParentStateUnavailable { block: 42, msg: "pruned".to_string() };
    assert!(matches!(e, ProcessingError::ParentStateUnavailable { block: 42, .. }));
    assert!(e.message().contains("historical parent state unavailable at block 42"));
}

#[test]
fn error_messages() {
    let bytes = [
        0xd8, 0xda, 0x6b, 0xf2, 0x69, 0x64, 0xaf, 0x9d, 0x7e, 0xed, 0x9e, 0x03, 0xe5, 0x34, 0x15,
        0xd3, 0x7a, 0xa9, 0x60, 0x45,
    ];
    let a = Address::from_bytes(&bytes);
    assert_eq!(
        ProcessingError::Decode { block: 5 }.message(),
        "erc20 decode failure at block 5"
    );
    assert_eq!(
        ProcessingError::UnexplainedResidual { block: 5, address: a, residual: -7 }.message(),
        "unexplained reconciliation residual for 0xd8dA6BF26964aF9D7eEd9e03E53415D37aA96045 at block 5: -7"
    );
    assert_eq!(
        ProcessingError::ReconcileOverflow { block: 6, address: a }.message(),
        "reconcile arithmetic out of i128 range for 0xd8dA6BF26964aF9D7eEd9e03E53415D37aA96045 at block 6"
    );
    assert_eq!(
        ProcessingError::ParentStateUnavailable { block: 42, msg: "pruned".to_string() }.message(),
        "historical parent state unavailable at block 42: pruned"
    );
}

#[test]
fn failed_transactions_are_recorded_but_not_counted() {
    let w = address(0xcc);
    let other = address(0x11);
    let mut inp = empty(12, hash(5), &[w]);
    inp.frames = vec![
        (Some(hash(1)), true, frame(other, w, U256::from_u64(100), "tx:0")),
        (Some(hash(2)), false, frame(other, w, U256::from_u64(7), "tx:1")),
        (Some(hash(2)), false, frame(w, other, U256::from_u64(2), "1")),
    ];
    inp.gas = vec![GasPaymentRow {
        chain_id: 1,
        block_number: 12,
        block_hash: hash(5),
        tx_hash: hash(2),
        address: w,
        gas_used: 3,
        effective_gas_price: 1,
        l2_fee_wei: U256::from_u64(3),
        l1_fee_wei: None,
        total_wei: U256::from_u64(3),
    }];
    inp.system_signed = vec![SystemCredit::new(w, -1, other, "debit")];
    inp.account_deltas = vec![(w, 7 - 2 - 3 - 1), (address(0x77), 5)];
    let batch = process_block(inp).expect("balances");
    assert_eq!(batch.eth.len(), 4);
    assert!(batch.eth[0].reverted);
    assert_eq!(batch.eth[3].direction, Direction::Out);
    assert_eq!(batch.eth[3].amount_wei, U256::from_u64(1));
    assert_eq!(batch.eth[3].trace_path, format!("system:debit:{}", hex(0xcc, 20)));
    assert_eq!(batch.gas.len(), 1);
}

#[test]
fn the_residual_error_carries_the_residual() {
    let w = address(0xcc);
    let mut inp = empty(13, hash(5), &[w]);
    inp.frames = vec![(Some(hash(1)), false, frame(address(1), w, U256::from_u64(4), "0"))];
    inp.account_deltas = vec![(w, -9)];
    match process_block(inp).unwrap_err() {
        ProcessingError::UnexplainedResidual { block, address, residual } => {
            assert_eq!((block, address, residual), (13, w, -13));
        }
        other => panic!("{other:?}"),
    }
    let mut inp = empty(10, hash(3), &[w]);
    inp.account_deltas = vec![(w, 100)];
    inp.system_signed = vec![SystemCredit::new(w, 10, w, "s")];
    match process_block(inp).unwrap_err() {
        ProcessingError::UnexplainedResidual { block, address, residual } => {
            assert_eq!((block, address, residual), (10, w, 90));
        }
        other => panic!("{other:?}"),
    }
}

fn token_log(from: u8, to: u8) -> RawLog {
    let mut data = vec![0u8; 32];
    data[31] = 5;
    RawLog {
        address: address(0x99),
        topics: vec![transfer_topic0(), topic_addr(from), topic_addr(to)],
        data,
    }
}

#[test]
fn a_token_transfer_to_oneself_has_both_rows() {
    let w = address(0xa1);
    let mut inp = empty(11, hash(3), &[w]);
    inp.erc20_logs = vec![
        (Some(hash(0x44)), 0, token_log(0xa1, 0xa1)),
        (Some(hash(0x44)), 1, token_log(0xb2, 0xa1)),
        (Some(hash(0x44)), 2, token_log(0xb2, 0xb2)),
    ];
    let batch = process_block(inp).expect("clean");
    let rows: Vec<(u64, Address, Direction)> =
        batch.erc20.iter().map(|r| (r.log_index, r.address, r.direction)).collect();
    assert_eq!(rows, vec![(0, w, Direction::In), (0, w, Direction::Out), (1, w, Direction::In)]);
    assert_eq!((batch.erc20[1].from, batch.erc20[1].to), (w, w));
    assert_eq!(batch.erc20[0].amount, U256::from_u64(5));
}

#[test]
fn what_is_not_watched_does_not_matter() {
    let (w, x, y) = (address(0xcc), address(0x11), address(0x22));
    let seven = U256::from_u64(7);
    for observed in [7i128, 8] {
        let mut lean = empty(16, hash(5), &[w]);
        lean.frames = vec![(Some(hash(1)), false, frame(x, w, seven, "1"))];
        lean.erc20_logs = vec![(Some(hash(1)), 4, token_log(0xcc, 0x11))];
        lean.account_deltas = vec![(w, observed + 3)];
        lean.system_signed = vec![SystemCredit::new(w, 3, x, "s")];
        let mut full = lean.clone();
        full.frames.insert(0, (None, false, frame(x, y, seven, "0")));
        full.erc20_logs.push((Some(hash(2)), 5, token_log(0x11, 0x22)));
        full.account_deltas.insert(0, (x, 99));
        full.system_signed.push(SystemCredit::new(y, i128::MAX, x, "s"));
        full.system_signed.push(SystemCredit::new(y, i128::MAX, x, "t"));
        match (process_block(lean), process_block(full)) {
            (Ok(a), Ok(b)) => {
                assert_eq!(observed, 7);
                assert_eq!((a.eth.len(), a.erc20.len()), (2, 1));
                assert_eq!(format!("{a:?}"), format!("{b:?}"));
            }
            (Err(a), Err(b)) => {
                assert_eq!(observed, 8);
                assert_eq!(a.message(), b.message());
            }
            other => panic!("{other:?}"),
        }
    }
}

#[test]
fn credits_beyond_i128_fail_the_block() {
    let w = address(0xcc);
    let mut inp = empty(14, hash(5), &[w]);
    inp.system_signed = vec![
        SystemCredit::new(address(1), i128::MAX, w, "a"),
        SystemCredit::new(w, i128::MAX, w, "a"),
        SystemCredit::new(w, 1, w, "b"),
    ];
    match process_block(inp).unwrap_err() {
        ProcessingError::ReconcileOverflow { block, address } => {
            assert_eq!((block, address), (14, w));
        }
        other => panic!("{other:?}"),
    }
}

#[test]
fn unwatched_credits_leave_no_row() {
    let mut inp = empty(15, hash(5), &[address(0xcc)]);
    inp.system_signed = vec![SystemCredit::new(address(1), 5, address(2), "a")];
    assert!(process_block(inp).unwrap().eth.is_empty());
}
