//! Blocks that are executed in a real EVM, with the inspector at work.

use std::collections::HashMap;

use alloy_primitives as alloy;
use passbook::committed::{
    process_committed_block_inner, AccountChange, AccountState, BlockOutcome, CommittedBlock,
    Receipt, Reexecution, TxInfo,
};
use passbook::config::PassbookConfig;
use passbook::erc20::{transfer_topic0, RawLog};
use passbook::exex::ProcessingError;
use passbook::inspector::{CallScheme, CallValue, CreateScheme};
use passbook::ledger::writer::BlockBatch;
use passbook::model::{Direction, EthKind, UnattributedDeltaCause};
use passbook::primitives::{Address, B256, U256};
use passbook::reexec::{
    assemble_capture, build_prestate_cache, Captured, PrestateWrite, PriorAccount, PriorCode,
    TaggingInspector,
};
use passbook::stack::EthereumStack;
use passbook::watched::WatchedSet;
use revm::context::TxEnv;
use revm::database::{CacheDB, DbAccount, EmptyDB};
use revm::interpreter::{CallInputs, CallOutcome, CreateInputs, CreateOutcome};
use revm::primitives::hardfork::SpecId;
use revm::state::{AccountInfo, Bytecode};
use revm::{Context, Database, InspectCommitEvm, Inspector, MainBuilder, MainContext};

const GWEI: u128 = 1_000_000_000;
const ETHER: u128 = 1_000_000_000_000_000_000;
const GAS_LIMIT: u64 = 300_000;

fn u256(n: alloy::U256) -> U256 {
    let [l0, l1, l2, l3] = n.into_limbs();
    U256 { l0, l1, l2, l3 }
}

fn b256(h: alloy::B256) -> B256 {
    B256::from_bytes(&h.0)
}

fn address(a: alloy::Address) -> Address {
    Address::from_bytes(&a.into_array())
}

fn account(byte: u8) -> alloy::Address {
    alloy::Address::repeat_byte(byte)
}

#[derive(Clone)]
struct Capturing(TaggingInspector);

impl<CTX> Inspector<CTX> for Capturing {
    fn call(&mut self, _context: &mut CTX, inputs: &mut CallInputs) -> Option<CallOutcome> {
        let value = match inputs.value {
            revm::interpreter::CallValue::Transfer(v) => CallValue::Transfer(u256(v)),
            revm::interpreter::CallValue::Apparent(v) => CallValue::Apparent(u256(v)),
        };
        let scheme = match inputs.scheme {
            revm::interpreter::CallScheme::Call => CallScheme::Call,
            revm::interpreter::CallScheme::CallCode => CallScheme::CallCode,
            revm::interpreter::CallScheme::DelegateCall => CallScheme::DelegateCall,
            revm::interpreter::CallScheme::StaticCall => CallScheme::StaticCall,
        };
        assert!(self.0.has_room());
        self.0.call(value, scheme, address(inputs.caller), address(inputs.target_address));
        None
    }

    fn call_end(&mut self, _context: &mut CTX, _inputs: &CallInputs, outcome: &mut CallOutcome) {
        assert!(self.0.has_room());
        self.0.call_end(outcome.instruction_result().is_ok());
    }

    fn create(&mut self, _context: &mut CTX, _inputs: &mut CreateInputs) -> Option<CreateOutcome> {
        assert!(self.0.has_room());
        self.0.create();
        None
    }

    fn create_end(
        &mut self,
        _context: &mut CTX,
        inputs: &CreateInputs,
        outcome: &mut CreateOutcome,
    ) {
        let scheme = match inputs.scheme() {
            revm::context_interface::CreateScheme::Create => CreateScheme::Create,
            revm::context_interface::CreateScheme::Create2 { .. } => CreateScheme::Create2,
            revm::context_interface::CreateScheme::Custom { .. } => CreateScheme::Custom,
        };
        assert!(self.0.has_room());
        self.0.create_end(
            u256(inputs.value()),
            scheme,
            address(inputs.caller()),
            outcome.address.map(address),
            outcome.instruction_result().is_ok(),
        );
    }

    fn selfdestruct(
        &mut self,
        contract: alloy::Address,
        target: alloy::Address,
        value: alloy::U256,
    ) {
        assert!(self.0.has_room());
        self.0.selfdestruct(address(contract), address(target), u256(value));
    }
}

type Db = CacheDB<EmptyDB>;

fn genesis(alloc: &[(alloy::Address, u128, Vec<u8>)]) -> Db {
    let mut db = CacheDB::new(EmptyDB::new());
    for (who, balance, code) in alloc {
        let mut info = AccountInfo { balance: alloy::U256::from(*balance), ..Default::default() };
        if !code.is_empty() {
            let code = Bytecode::new_raw(code.clone().into());
            info.code_hash = code.hash_slow();
            info.code = Some(code);
        }
        db.insert_account_info(*who, info);
    }
    db
}

fn sent(from: alloy::Address, nonce: u64, to: alloy::Address, value: u128) -> TxEnv {
    TxEnv {
        caller: from,
        nonce,
        kind: alloy::TxKind::Call(to),
        value: alloy::U256::from(value),
        gas_limit: GAS_LIMIT,
        gas_price: GWEI,
        chain_id: Some(1),
        ..Default::default()
    }
}

fn deploying(from: alloy::Address, nonce: u64, value: u128, init: Vec<u8>) -> TxEnv {
    TxEnv {
        kind: alloy::TxKind::Create,
        data: init.into(),
        ..sent(from, nonce, alloy::Address::ZERO, value)
    }
}

fn states(db: &Db) -> HashMap<alloy::Address, Option<AccountState>> {
    db.cache
        .accounts
        .iter()
        .map(|(a, account)| {
            let state = account
                .info()
                .map(|i| AccountState { balance: u256(i.balance), nonce: i.nonce });
            (*a, state)
        })
        .collect()
}

fn execute(
    db: &mut Db,
    number: u64,
    beneficiary: alloy::Address,
    withdrawals: &[(alloy::Address, u64)],
    txs: Vec<TxEnv>,
) -> (CommittedBlock, Captured) {
    let before = states(db);
    let mut transactions = Vec::new();
    let mut receipts: Vec<Receipt> = Vec::new();
    let mut inspectors = Vec::new();
    let mut used = 0;
    for (k, tx) in txs.into_iter().enumerate() {
        transactions.push(TxInfo {
            hash: B256::from_bytes(&[k as u8 + 1; 32]),
            sender: address(tx.caller),
            effective_gas_price: tx.gas_price,
        });
        let mut evm = Context::mainnet()
            .with_db(&mut *db)
            .modify_cfg_chained(|c| c.set_spec_and_mainnet_gas_params(SpecId::SHANGHAI))
            .modify_block_chained(|b| {
                b.number = alloy::U256::from(number);
                b.basefee = 7;
                b.beneficiary = beneficiary;
                b.gas_limit = 30_000_000;
            })
            .build_mainnet_with_inspector(Capturing(TaggingInspector::new()));
        let result = evm.inspect_tx_commit(tx).expect("executed");
        inspectors.push(evm.inspector.0.clone());
        used += result.tx_gas_used();
        receipts.push(Receipt {
            success: result.is_success(),
            cumulative_gas_used: used,
            logs: result
                .logs()
                .iter()
                .map(|log| RawLog {
                    address: address(log.address),
                    topics: log.topics().iter().copied().map(b256).collect(),
                    data: log.data.data.to_vec(),
                })
                .collect(),
        });
    }
    for (who, gwei) in withdrawals {
        let mut info = db.load_account(*who).unwrap().info().unwrap_or_default();
        info.balance += alloy::U256::from(*gwei) * alloy::U256::from(GWEI);
        db.insert_account_info(*who, info);
    }
    let accounts = states(db)
        .into_iter()
        .map(|(a, after)| AccountChange {
            address: address(a),
            before: before.get(&a).copied().flatten(),
            after,
        })
        .collect();
    let hashes: Vec<B256> = transactions.iter().map(|t| t.hash).collect();
    let succeeded: Vec<bool> = receipts.iter().map(|r| r.success).collect();
    let block = CommittedBlock {
        number,
        hash: B256::from_bytes(&[0x80 + number as u8; 32]),
        base_fee: Some(7),
        beneficiary: address(beneficiary),
        transactions,
        withdrawals: Some(withdrawals.iter().map(|(a, g)| (address(*a), *g)).collect()),
        outcome: Some(BlockOutcome { receipts, accounts }),
    };
    (block, assemble_capture(&hashes, &succeeded, inspectors))
}

fn book(
    block: &CommittedBlock,
    watched: &[alloy::Address],
    captured: Captured,
) -> Result<BlockBatch, ProcessingError> {
    let watched: Vec<Address> = watched.iter().copied().map(address).collect();
    let cfg = PassbookConfig {
        watched: WatchedSet::from_addresses(&watched),
        db_path: String::new(),
    };
    process_committed_block_inner(
        1,
        block,
        &cfg,
        &EthereumStack,
        &Reexecution::Done(captured),
    )
}

fn selfdestruct_forwarder_code(dst: alloy::Address) -> Vec<u8> {
    let mut c = vec![0x73];
    c.extend_from_slice(dst.as_slice());
    c.push(0xff);
    c
}

fn call_forwarder_code(dst: alloy::Address) -> Vec<u8> {
    let mut c = vec![0x60, 0, 0x60, 0, 0x60, 0, 0x60, 0, 0x47, 0x73];
    c.extend_from_slice(dst.as_slice());
    c.extend_from_slice(&[0x5a, 0xf1, 0x00]);
    c
}

fn revert_after_forward_code(dst: alloy::Address) -> Vec<u8> {
    let mut c = call_forwarder_code(dst);
    c.pop();
    c.extend_from_slice(&[0x60, 0, 0x60, 0, 0xfd]);
    c
}

fn always_revert_code() -> Vec<u8> {
    vec![0x60, 0, 0x60, 0, 0xfd]
}

fn deploy_initcode(runtime: &[u8]) -> Vec<u8> {
    let len = (runtime.len() as u16).to_be_bytes();
    let mut c = vec![0x61, len[0], len[1], 0x60, 14, 0x60, 0, 0x39];
    c.extend_from_slice(&[0x61, len[0], len[1], 0x60, 0, 0xf3]);
    c.extend_from_slice(runtime);
    c
}

fn token_code(from: alloy::Address, to: alloy::Address, amount: u64) -> Vec<u8> {
    let topic = alloy::keccak256("Transfer(address,address,uint256)".as_bytes());
    let mut c = vec![0x7f];
    c.extend_from_slice(&alloy::U256::from(amount).to_be_bytes::<32>());
    c.extend_from_slice(&[0x60, 0, 0x52]);
    for word in [to.into_word(), from.into_word(), topic] {
        c.push(0x7f);
        c.extend_from_slice(word.as_slice());
    }
    c.extend_from_slice(&[0x60, 0x20, 0x60, 0, 0xa3, 0x00]);
    c
}

#[test]
fn the_first_topic_of_a_transfer() {
    let topic = alloy::keccak256("Transfer(address,address,uint256)".as_bytes());
    assert_eq!(transfer_topic0(), b256(topic));
}

#[test]
fn erc20_internal_gas_capture_zero_residual() {
    let (sender, watched) = (account(0x0a), account(0x0b));
    let (sdfwd, cfwd, token, sink) = (account(0xF0), account(0xCF), account(0x70), account(0x51));
    let sd_value: u128 = 7_000_000_000_000_000;
    let call_value: u128 = 3_000_000_000_000_000;
    let w_send_value: u128 = 1_000_000_000_000_000;
    let mut db = genesis(&[
        (sender, ETHER, vec![]),
        (watched, ETHER, vec![]),
        (sdfwd, 0, selfdestruct_forwarder_code(watched)),
        (cfwd, 0, call_forwarder_code(watched)),
        (token, 0, token_code(sender, watched, 123_456_789)),
    ]);
    let (block, captured) = execute(
        &mut db,
        1,
        alloy::Address::ZERO,
        &[],
        vec![
            sent(sender, 0, token, 0),
            sent(sender, 1, sdfwd, sd_value),
            sent(sender, 2, cfwd, call_value),
            sent(watched, 0, sink, w_send_value),
        ],
    );
    let batch = book(&block, &[watched], captured).expect("zero residual");
    assert!(batch.unattributed.is_empty());
    assert_eq!(batch.erc20.len(), 1, "one ERC20 row for W");
    assert_eq!(batch.erc20[0].amount, U256::from_u64(123_456_789));
    assert_eq!(batch.erc20[0].direction, Direction::In);
    let got: Vec<U256> = batch
        .eth
        .iter()
        .filter(|r| r.direction == Direction::In && r.kind == EthKind::Internal)
        .map(|r| r.amount_wei)
        .collect();
    assert_eq!(got, vec![U256::from_u128(sd_value), U256::from_u128(call_value)]);
    assert_eq!(batch.gas.len(), 1, "one gas row for W (tx3)");
    assert_eq!(batch.gas[0].gas_used, 21_000);
    let out: Vec<(EthKind, U256)> = batch
        .eth
        .iter()
        .filter(|r| r.direction == Direction::Out)
        .map(|r| (r.kind, r.amount_wei))
        .collect();
    assert_eq!(out, vec![(EthKind::TopLevel, U256::from_u128(w_send_value))]);
}

#[test]
fn parent_state_readonly_two_block_chain_zero_residual() {
    let (sender, watched) = (account(0x0a), account(0x0b));
    let fwd_value: u128 = 5_000_000_000_000_000;
    let deployed = sender.create(0);
    let runtime = call_forwarder_code(watched);
    let parent = genesis(&[(sender, ETHER, vec![]), (watched, ETHER, vec![])]);
    let mut db = parent.clone();
    let (first, captured) = execute(
        &mut db,
        1,
        alloy::Address::ZERO,
        &[],
        vec![deploying(sender, 0, 0, deploy_initcode(&runtime))],
    );
    let batch1 = book(&first, &[watched], captured).expect("block 1");
    assert!(batch1.eth.is_empty());

    let written: Vec<(alloy::Address, AccountInfo)> = [sender, deployed]
        .into_iter()
        .map(|a| {
            let mut info = db.load_account(a).unwrap().info().unwrap();
            info.code = None;
            (a, info)
        })
        .collect();
    let code = Bytecode::new_raw(runtime.into());
    let known: Vec<PriorAccount> = written
        .iter()
        .map(|(_, i)| PriorAccount {
            info: Some(PriorCode { code_hash: b256(i.code_hash), has_code: i.code.is_some() }),
            destroyed: false,
            slots: 0,
        })
        .collect();
    let mut replayed = parent;
    for write in build_prestate_cache(&known, &[b256(code.hash_slow())]) {
        match write {
            PrestateWrite::Account { account, code_from } => {
                let (a, mut info) = written[account].clone();
                if code_from == Some(0) {
                    info.code = Some(code.clone());
                }
                replayed.insert_account_info(a, info);
            }
            other => panic!("{other:?}"),
        }
    }
    let tx = sent(sender, 1, deployed, fwd_value);
    let (second, _) = execute(&mut db, 2, alloy::Address::ZERO, &[], vec![tx.clone()]);
    let (_, captured) = execute(&mut replayed, 2, alloy::Address::ZERO, &[], vec![tx]);
    let batch2 = book(&second, &[watched], captured).expect("block 2");
    assert!(batch2.unattributed.is_empty());
    let internal_in: Vec<U256> = batch2
        .eth
        .iter()
        .filter(|r| r.direction == Direction::In && r.kind == EthKind::Internal)
        .map(|r| r.amount_wei)
        .collect();
    assert_eq!(internal_in, vec![U256::from_u128(fwd_value)]);
}

#[test]
fn l1_withdrawal_and_beneficiary_priority_fee_recognized_zero_residual() {
    let (sender, watched) = (account(0x0a), account(0x0b));
    let wd_gwei = 32_000_000_000u64;
    let mut db = genesis(&[(sender, ETHER, vec![]), (watched, 0, vec![])]);
    let (block, captured) = execute(
        &mut db,
        1,
        watched,
        &[(watched, wd_gwei)],
        vec![sent(sender, 0, account(0x51), 1)],
    );
    let batch = book(&block, &[watched], captured).expect("both credits are recognised");
    assert!(batch.unattributed.is_empty());
    assert_eq!(batch.eth.len(), 2);
    assert!(batch.eth.iter().all(|r| r.kind == EthKind::System && r.address == address(watched)));
    let named = |start: &str| {
        batch.eth.iter().find(|r| r.trace_path.starts_with(start)).map(|r| r.amount_wei)
    };
    assert_eq!(named("system:withdrawal:"), Some(U256::from_u128(wd_gwei as u128 * GWEI)));
    assert_eq!(named("system:block_reward:"), Some(U256::from_u128((GWEI - 7) * 21_000)));
}

#[test]
fn reverted_value_transfers_zero_residual() {
    let (sender, watched) = (account(0x0a), account(0x0b));
    let (rvrt, r_inner, try_c) = (account(0xD1), account(0xD2), account(0xD3));
    let mut db = genesis(&[
        (sender, ETHER, vec![]),
        (watched, ETHER, vec![]),
        (rvrt, 0, always_revert_code()),
        (r_inner, 0, revert_after_forward_code(watched)),
        (try_c, 0, call_forwarder_code(r_inner)),
    ]);
    let (block, captured) = execute(
        &mut db,
        1,
        alloy::Address::ZERO,
        &[],
        vec![
            sent(watched, 0, rvrt, 5_000_000_000_000_000),
            sent(sender, 0, try_c, 2_000_000_000_000_000),
        ],
    );
    assert_eq!(captured.tx_reverted, vec![true, false]);
    let batch = book(&block, &[watched], captured).expect("a valid block is not stalled");
    assert!(batch.unattributed.is_empty());
    assert!(batch.eth.iter().filter(|r| r.address == address(watched)).all(|r| r.reverted));
    assert_eq!(batch.gas.len(), 1, "exactly one gas row for W (tx0 sender)");
}

#[test]
fn watched_to_watched_erc20_and_eth_no_row_loss_zero_residual() {
    let (w1, w2, token) = (account(0x01), account(0x02), account(0x70));
    let eth_value: u128 = 2_000_000_000_000_000;
    let mut db = genesis(&[
        (w1, ETHER, vec![]),
        (w2, ETHER, vec![]),
        (token, 0, token_code(w1, w2, 555_000_111)),
    ]);
    let (block, captured) = execute(
        &mut db,
        1,
        alloy::Address::ZERO,
        &[],
        vec![sent(w1, 0, token, 0), sent(w1, 1, w2, eth_value)],
    );
    let batch = book(&block, &[w1, w2], captured).expect("zero residual");
    assert!(batch.unattributed.is_empty());
    assert_eq!(batch.erc20.len(), 2);
    let of = |who: alloy::Address, direction: Direction| {
        batch
            .erc20
            .iter()
            .find(|r| r.address == address(who) && r.direction == direction)
            .expect("row")
    };
    let (inbound, outbound) = (of(w2, Direction::In), of(w1, Direction::Out));
    assert_eq!(inbound.amount, U256::from_u64(555_000_111));
    assert_eq!(outbound.amount, U256::from_u64(555_000_111));
    assert_eq!(inbound.tx_hash, outbound.tx_hash);
    assert_eq!(inbound.log_index, outbound.log_index);
    assert_ne!(inbound.address, outbound.address);
    let eth: Vec<(Address, Direction, U256)> =
        batch.eth.iter().map(|r| (r.address, r.direction, r.amount_wei)).collect();
    assert_eq!(
        eth,
        vec![
            (address(w2), Direction::In, U256::from_u128(eth_value)),
            (address(w1), Direction::Out, U256::from_u128(eth_value)),
        ]
    );
}

#[test]
fn parent_state_unavailable_writes_partial_batch_and_marker() {
    let (sender, watched, fwd) = (account(0x0a), account(0x0b), account(0xF0));
    let fwd_value: u128 = 4_000_000_000_000_000;
    let mut db = genesis(&[
        (sender, ETHER, vec![]),
        (watched, ETHER, vec![]),
        (fwd, 0, selfdestruct_forwarder_code(watched)),
    ]);
    let (block, _) = execute(
        &mut db,
        1,
        alloy::Address::ZERO,
        &[],
        vec![sent(sender, 0, fwd, fwd_value)],
    );
    let cfg = PassbookConfig {
        watched: WatchedSet::from_addresses(&[address(watched)]),
        db_path: String::new(),
    };
    let batch = process_committed_block_inner(
        0xB4D1,
        &block,
        &cfg,
        &EthereumStack,
        &Reexecution::Unavailable,
    )
    .expect("a partial batch, never an error");
    assert!(batch.eth.iter().all(|r| r.kind == EthKind::System));
    let markers: Vec<_> =
        batch.unattributed.iter().filter(|m| m.address == address(watched)).collect();
    assert!(!markers.is_empty());
    assert_eq!(markers[0].block_number, batch.block_number);
    assert_eq!(markers[0].block_hash, batch.block_hash);
    assert_eq!(markers[0].attributed_wei, U256::zero());
    assert_eq!(markers[0].residual_wei, U256::from_u128(fwd_value));
    assert_eq!(markers[0].cause, UnattributedDeltaCause::ParentStateUnavailable);
}

#[test]
fn a_transaction_has_one_frame_of_its_own() {
    let (sender, watched, cfwd) = (account(0x0a), account(0x0b), account(0xCF));
    let mut db = genesis(&[
        (sender, ETHER, vec![]),
        (cfwd, 0, call_forwarder_code(watched)),
    ]);
    let (_, captured) = execute(
        &mut db,
        1,
        alloy::Address::ZERO,
        &[],
        vec![
            sent(sender, 0, cfwd, 10),
            deploying(sender, 1, 20, deploy_initcode(&[0x00])),
        ],
    );
    let seen: Vec<(usize, bool)> =
        captured.frames.iter().map(|f| (f.tx_index, f.top_level)).collect();
    assert_eq!(seen, vec![(0, true), (0, false), (1, true)]);
}

#[test]
fn destroyed_accounts_stay_gone_before_the_next_block() {
    let accounts = [account(1), account(2), account(3), account(4)];
    let info = |n: u64| AccountInfo { nonce: n, ..Default::default() };
    let (slot, other) = (alloy::U256::from(1), alloy::U256::from(2));
    let mut parent = CacheDB::new(EmptyDB::default());
    for a in accounts {
        parent.insert_account_info(a, info(1));
        parent.insert_account_storage(a, slot, alloy::U256::from(7)).unwrap();
        parent.insert_account_storage(a, other, alloy::U256::from(8)).unwrap();
    }
    let no_code = PriorCode { code_hash: b256(info(0).code_hash), has_code: false };
    let known = [
        PriorAccount { info: None, destroyed: true, slots: 1 },
        PriorAccount { info: Some(no_code), destroyed: true, slots: 1 },
        PriorAccount { info: Some(no_code), destroyed: false, slots: 1 },
    ];
    let mut replayed = CacheDB::new(parent);
    for write in build_prestate_cache(&known, &[]) {
        match write {
            PrestateWrite::Account { account, code_from: None } => {
                replayed.insert_account_info(accounts[account], info(9));
            }
            PrestateWrite::Gone { account } => {
                replayed.cache.accounts.insert(accounts[account], DbAccount::new_not_existing());
            }
            PrestateWrite::Cleared { account } => {
                replayed.replace_account_storage(accounts[account], Default::default()).unwrap();
            }
            PrestateWrite::Storage { account, slot: 0 } => {
                let value = alloy::U256::from(5);
                replayed.insert_account_storage(accounts[account], slot, value).unwrap();
            }
            other => panic!("{other:?}"),
        }
    }
    let seen: Vec<(Option<u64>, alloy::U256, alloy::U256)> = accounts
        .into_iter()
        .map(|a| {
            (
                replayed.basic(a).unwrap().map(|i| i.nonce),
                replayed.storage(a, slot).unwrap(),
                replayed.storage(a, other).unwrap(),
            )
        })
        .collect();
    let n = |v: u64| alloy::U256::from(v);
    assert_eq!(
        seen,
        vec![
            (None, n(0), n(0)),
            (Some(9), n(5), n(0)),
            (Some(9), n(5), n(8)),
            (Some(1), n(7), n(8)),
        ]
    );
}
