use passbook::chain::EthChainExec;
use passbook::committed::{
    own_changes, process_committed_block_inner, reexecution_needed, AccountChange, AccountState, BlockOutcome,
    CommittedBlock, Receipt, Reexecution, TxInfo,
};
use passbook::config::PassbookConfig;
use passbook::erc20::{transfer_topic0, RawLog};
use passbook::exex::ProcessingError;
use passbook::inspector::{CallScheme, CallValue};
use passbook::op_chain::{Deposit, OpChainExec, OpCommittedBlock, OpTx};
use passbook::optimism::{base_fee_vault, l1_fee_vault, OptimismStack, TxKind};
use passbook::primitives::{Address, B256, U256};
use passbook::reexec::{assemble_capture, TaggingInspector};
use passbook::stack::EthereumStack;
use passbook::watched::WatchedSet;

const GWEI: u128 = 1_000_000_000;
const ETHER: u128 = 1_000_000_000_000_000_000;

fn address(byte: u8) -> Address {
    Address::from_bytes(&[byte; 20])
}

fn hash(byte: u8) -> B256 {
    B256::from_bytes(&[byte; 32])
}

fn wei(n: u128) -> U256 {
    U256::from_u128(n)
}

fn watching(addresses: &[Address]) -> PassbookConfig {
    PassbookConfig { watched: WatchedSet::from_addresses(addresses), db_path: String::new() }
}

fn tx(byte: u8, sender: Address) -> TxInfo {
    TxInfo { hash: hash(byte), sender, effective_gas_price: GWEI }
}

fn receipt(success: bool, cumulative_gas_used: u64, logs: Vec<RawLog>) -> Receipt {
    Receipt { success, cumulative_gas_used, logs }
}

fn state(balance: u128, nonce: u64) -> Option<AccountState> {
    Some(AccountState { balance: wei(balance), nonce })
}

fn change(
    address: Address,
    before: Option<AccountState>,
    after: Option<AccountState>,
) -> AccountChange {
    AccountChange { address, before, after }
}

fn block(
    transactions: Vec<TxInfo>,
    receipts: Vec<Receipt>,
    accounts: Vec<AccountChange>,
) -> CommittedBlock {
    CommittedBlock {
        number: 1,
        hash: hash(0x81),
        base_fee: Some(7),
        beneficiary: Address::zero(),
        transactions,
        withdrawals: Some(vec![]),
        outcome: Some(BlockOutcome { receipts, accounts }),
    }
}

fn topic(a: u8) -> B256 {
    let mut b = [0u8; 32];
    b[12..].copy_from_slice(&[a; 20]);
    B256::from_bytes(&b)
}

fn transfer_log(token: u8, from: u8, to: u8, amount: u64) -> RawLog {
    let mut data = vec![0u8; 32];
    data[24..].copy_from_slice(&amount.to_be_bytes());
    RawLog {
        address: address(token),
        topics: vec![transfer_topic0(), topic(from), topic(to)],
        data,
    }
}

fn plain_call(from: Address, to: Address, value: u128) -> TaggingInspector {
    let mut i = TaggingInspector::new();
    i.call(CallValue::Transfer(wei(value)), CallScheme::Call, from, to);
    i.call_end(true);
    i
}

fn forwarded() -> (CommittedBlock, PassbookConfig, Address, u128) {
    let sender = address(0x0a);
    let watched = address(0x0b);
    let fwd_value: u128 = 4_000_000_000_000_000;
    let b = block(
        vec![tx(1, sender)],
        vec![receipt(true, 60_000, vec![transfer_log(0x70, 0x0a, 0x0b, 9)])],
        vec![change(watched, state(ETHER, 0), state(ETHER + fwd_value, 0))],
    );
    (b, watching(&[watched]), watched, fwd_value)
}

#[test]
fn a_failed_replay_or_a_missing_outcome_fails_the_block() {
    let (mut b, cfg, watched, _) = forwarded();
    let r = process_committed_block_inner(1, &b, &cfg, &EthereumStack, &Reexecution::Failed);
    assert!(matches!(r, Err(ProcessingError::Decode { block: 1 })));
    let empty = assemble_capture(&[hash(1)], &[true], vec![TaggingInspector::new()]);
    let r = process_committed_block_inner(1, &b, &cfg, &EthereumStack, &Reexecution::Done(empty));
    assert!(matches!(
        r,
        Err(ProcessingError::UnexplainedResidual { block: 1, address, residual: 4_000_000_000_000_000 })
            if address == watched
    ));
    let huge = AccountState { balance: U256 { l0: 0, l1: 0, l2: 1, l3: 0 }, nonce: 0 };
    b.outcome = Some(BlockOutcome {
        receipts: vec![],
        accounts: vec![change(watched, None, Some(huge))],
    });
    let r = process_committed_block_inner(1, &b, &cfg, &EthereumStack, &Reexecution::Unavailable);
    assert!(matches!(r, Err(ProcessingError::Decode { block: 1 })));
    b.outcome = None;
    let r = process_committed_block_inner(1, &b, &cfg, &EthereumStack, &Reexecution::Unavailable);
    assert!(matches!(r, Err(ProcessingError::Decode { block: 1 })));
    assert!(!reexecution_needed(&b, &cfg.watched));
}

#[test]
fn an_untouched_block_looks_at_no_replay() {
    let watched = address(0x0b);
    let b = block(
        vec![tx(1, address(1))],
        vec![receipt(true, 21_000, vec![])],
        vec![
            change(address(1), state(5, 0), state(4, 1)),
            change(watched, state(3, 1), state(3, 1)),
        ],
    );
    let cfg = watching(&[watched]);
    assert!(!reexecution_needed(&b, &cfg.watched));
    let batch =
        process_committed_block_inner(1, &b, &cfg, &EthereumStack, &Reexecution::Failed).unwrap();
    assert!(batch.eth.is_empty() && batch.unattributed.is_empty() && batch.gas.is_empty());
    let exec = EthChainExec::new(|| EthereumStack);
    let batch = exec.process_committed_block(1, &b, &cfg, &Reexecution::Unavailable).unwrap();
    assert_eq!((batch.block_number, batch.block_hash), (1, hash(0x81)));
}

fn op_block() -> (OpCommittedBlock, PassbookConfig, Address) {
    let watched = address(0xD7);
    let other = address(0x33);
    let mint: u128 = 5_000_000_000_000_000;
    let base = 7 * 71_000u128;
    let mut b = block(
        vec![
            TxInfo { hash: hash(1), sender: other, effective_gas_price: 0 },
            tx(2, watched),
        ],
        vec![receipt(true, 50_000, vec![]), receipt(true, 71_000, vec![])],
        vec![
            change(watched, state(0, 0), state(mint - 21_000 * GWEI - 1_500, 1)),
            change(base_fee_vault(), state(0, 0), state(base - 7 * 50_000, 0)),
            change(l1_fee_vault(), state(0, 0), state(1_500, 0)),
        ],
    );
    b.beneficiary = address(0x99);
    let op = OpCommittedBlock {
        block: b,
        op_txs: vec![
            OpTx {
                deposit: Some(Deposit { mint, to: TxKind::Call(watched), from: other }),
                encoded: vec![0x7e],
            },
            OpTx { deposit: None, encoded: vec![0x02, 0xaa] },
        ],
    };
    (op, watching(&[watched, base_fee_vault(), l1_fee_vault()]), watched)
}

#[test]
fn an_op_block_nets_to_zero_with_its_data_fee() {
    let (op, cfg, watched) = op_block();
    let captured = assemble_capture(
        &[hash(1), hash(2)],
        &[true, true],
        vec![TaggingInspector::new(), plain_call(watched, address(1), 0)],
    );
    let fee = |raw: &[u8]| {
        if raw == [0x02, 0xaa] {
            Some(U256::from_u64(1_500))
        } else {
            None
        }
    };
    let batch = OpChainExec
        .process_committed_block(10, &op, &cfg, Some(fee), &Reexecution::Done(captured.clone()))
        .expect("mint, fees and vaults add up");
    assert_eq!(batch.gas.len(), 1);
    assert_eq!(batch.gas[0].l1_fee_wei, Some(U256::from_u64(1_500)));
    assert_eq!(batch.gas[0].total_wei, wei(21_000 * GWEI + 1_500));
    let sources: Vec<&str> = batch.eth.iter().map(|r| r.trace_path.as_str()).collect();
    assert!(sources.iter().any(|s| s.starts_with("system:deposit_mint:0x0101")));
    assert!(sources.iter().any(|s| s.starts_with("system:base_fee_vault:")));
    assert!(sources.iter().any(|s| s.starts_with("system:l1_fee_vault:")));

    let table = OptimismStack::from_fees(vec![None, Some(U256::from_u64(1_500))]);
    let again = OpChainExec
        .process_with_fees(10, &op, &cfg, &table, &Reexecution::Done(captured.clone()))
        .unwrap();
    assert_eq!(again.eth.len(), batch.eth.len());

    let unknown = if cfg.enabled() { None } else { Some(fee) };
    let r = OpChainExec
        .process_committed_block(10, &op, &cfg, unknown, &Reexecution::Done(captured));
    assert!(matches!(r, Err(ProcessingError::UnexplainedResidual { .. })));
}

#[test]
fn own_changes_begin_where_the_blocks_before_ended() {
    let (a, b, c, d) = (address(1), address(2), address(3), address(4));
    let prior = vec![
        change(a, state(10, 0), state(7, 1)),
        change(b, state(5, 0), None),
        change(d, None, state(2, 0)),
    ];
    let upto = vec![
        change(c, state(1, 0), state(4, 0)),
        change(a, state(10, 0), state(9, 2)),
        change(b, state(5, 0), state(6, 0)),
        change(d, None, state(2, 0)),
    ];
    let own = own_changes(&prior, &upto);
    let seen: Vec<(Address, Option<U256>, Option<U256>)> = own
        .iter()
        .map(|x| (x.address, x.before.map(|s| s.balance), x.after.map(|s| s.balance)))
        .collect();
    assert_eq!(
        seen,
        vec![
            (c, Some(wei(1)), Some(wei(4))),
            (a, Some(wei(7)), Some(wei(9))),
            (b, None, Some(wei(6))),
            (d, Some(wei(2)), Some(wei(2))),
        ]
    );
    assert_eq!(own[1].before.unwrap().nonce, 1);
    assert_eq!(own_changes(&[], &upto)[1].before.unwrap().balance, wei(10));
}

#[test]
fn a_later_block_of_a_chain_reconciles_on_its_own() {
    let (sender, watched) = (address(0x0a), address(0x0b));
    let first = vec![change(watched, state(ETHER, 0), state(ETHER + 5, 0))];
    let both = vec![change(watched, state(ETHER, 0), state(ETHER + 8, 0))];
    let b = block(
        vec![tx(1, sender)],
        vec![receipt(true, 21_000, vec![])],
        own_changes(&first, &both),
    );
    let captured = assemble_capture(&[hash(1)], &[true], vec![plain_call(sender, watched, 3)]);
    let cfg = watching(&[watched]);
    let r = process_committed_block_inner(1, &b, &cfg, &EthereumStack, &Reexecution::Done(captured));
    assert_eq!(r.expect("reconciles").eth.len(), 1);
}
