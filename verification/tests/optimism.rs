use passbook::exex::{process_block, BlockInputs};
use passbook::optimism::{
    base_fee_vault, build_block_l1_fee_table, deposit_mint_credits, fee_vault_credits,
    l1_fee_vault, recorded_l1_fee, sequencer_fee_vault, OptimismStack, TxKind,
};
use passbook::primitives::{Address, B256, U256};
use passbook::stack::StackAdapter;
use passbook::watched::WatchedSet;

fn address(byte: u8) -> Address {
    Address::from_bytes(&[byte; 20])
}

fn hash(byte: u8) -> B256 {
    B256::from_bytes(&[byte; 32])
}

fn mint_source(byte: u8) -> String {
    format!("deposit_mint:0x{}", format!("{byte:02x}").repeat(32))
}

#[test]
fn optimism_adapter_exposes_precomputed_l1_fees() {
    let a = OptimismStack::from_fees(vec![Some(U256::from_u64(500))]);
    assert_eq!(a.l1_data_fee_wei(0), Some(U256::from_u64(500)));
    assert_eq!(a.l1_data_fee_wei(9), None);
}

#[test]
fn build_table_marks_deposits_none_and_passes_through_fees() {
    let txs = vec![
        (true, vec![0x7e]),
        (false, vec![0x02, 0xaa]),
        (false, vec![0x02, 0xbb]),
    ];
    let table = build_block_l1_fee_table(&txs, |raw: &[u8]| {
        if raw == [0x02, 0xaa] {
            Some(U256::from_u64(777))
        } else {
            None
        }
    });
    assert_eq!(table.l1_data_fee_wei(0), None);
    assert_eq!(table.l1_data_fee_wei(1), Some(U256::from_u64(777)));
    assert_eq!(table.l1_data_fee_wei(2), None);
}

#[test]
fn op_deposit_mint_to_watched_is_recognized_system_credit() {
    let w = address(0xD7);
    let other = address(0x11);
    let from = address(0xFF);
    let watched = WatchedSet::from_addresses(&[w]);
    let deposits = vec![
        (5_000_000_000_000_000u128, TxKind::Call(w), from, hash(0xA0)),
        (9_000_000_000_000_000u128, TxKind::Call(other), from, hash(0xA1)),
        (0u128, TxKind::Call(w), from, hash(0xA2)),
        (1_000u128, TxKind::Create, from, hash(0xA3)),
    ];
    let creds = deposit_mint_credits(&deposits, &watched);
    assert_eq!(creds.len(), 1, "only the watched, non-zero, Call mint");
    assert_eq!(creds[0].address, w);
    assert_eq!(creds[0].signed_wei, 5_000_000_000_000_000i128);
    assert_eq!(creds[0].counterparty, from);
    assert_eq!(creds[0].source, mint_source(0xa0));
}

#[test]
fn op_multiple_deposit_mints_to_same_watched_addr_dont_collide() {
    let w = address(0xD7);
    let from = address(0xFF);
    let watched = WatchedSet::from_addresses(&[w]);
    let deposits = vec![
        (1_000u128, TxKind::Call(w), from, hash(0x01)),
        (2_000u128, TxKind::Call(w), from, hash(0x02)),
    ];
    let creds = deposit_mint_credits(&deposits, &watched);
    assert_eq!(creds.len(), 2, "both same-address mints recognised");
    assert_eq!(creds[0].address, w);
    assert_eq!(creds[1].address, w);
    assert_eq!(creds[0].signed_wei, 1_000i128);
    assert_eq!(creds[1].signed_wei, 2_000i128);
    assert_ne!(
        creds[0].source, creds[1].source,
        "per-deposit source must disambiguate same-address mints"
    );
    assert_eq!(creds[0].source, mint_source(0x01));
    assert_eq!(creds[1].source, mint_source(0x02));
}

fn vault_txs() -> Vec<(u128, u64, U256)> {
    vec![
        (1_000_000_000u128, 21_000u64, U256::from_u64(500)),
        (2_000_000_000u128, 50_000u64, U256::from_u64(800)),
    ]
}

#[test]
fn op_fee_vault_credits_recognized_as_system_for_watched_vaults() {
    let base_fee: u128 = 7;
    let txs = vault_txs();
    let priority = (1_000_000_000u128 - 7) * 21_000 + (2_000_000_000u128 - 7) * 50_000;
    let base = 7u128 * 21_000 + 7u128 * 50_000;
    let l1 = 500u128 + 800u128;

    let coinbase = sequencer_fee_vault();
    let watched = WatchedSet::from_addresses(&[coinbase, base_fee_vault(), l1_fee_vault()]);
    let creds = fee_vault_credits(&watched, coinbase, base_fee, &txs);
    assert_eq!(creds.len(), 3, "one netted row per watched vault");

    let by_src = |s: &str| creds.iter().find(|c| c.source == s).expect("row present");
    let seq = by_src("sequencer_fee_vault");
    assert_eq!(seq.address, coinbase);
    assert_eq!(seq.signed_wei, priority as i128);
    let bfv = by_src("base_fee_vault");
    assert_eq!(bfv.address, base_fee_vault());
    assert_eq!(bfv.signed_wei, base as i128);
    let l1fv = by_src("l1_fee_vault");
    assert_eq!(l1fv.address, l1_fee_vault());
    assert_eq!(l1fv.signed_wei, l1 as i128);

    let only_base = WatchedSet::from_addresses(&[base_fee_vault()]);
    let creds = fee_vault_credits(&only_base, coinbase, base_fee, &txs);
    assert_eq!(creds.len(), 1);
    assert_eq!(creds[0].source, "base_fee_vault");

    let creds = fee_vault_credits(&watched, coinbase, 0, &[(0u128, 21_000u64, U256::zero())]);
    assert!(creds.is_empty(), "no vault row when every fee total is zero");
}

#[test]
fn watched_fee_vault_nets_to_zero_residual_via_process_block() {
    let base_fee: u128 = 7;
    let txs = vault_txs();
    let priority = (1_000_000_000u128 - 7) * 21_000 + (2_000_000_000u128 - 7) * 50_000;
    let base = 7u128 * 21_000 + 7u128 * 50_000;
    let l1 = 500u128 + 800u128;

    let coinbase = sequencer_fee_vault();
    let watched = WatchedSet::from_addresses(&[coinbase, base_fee_vault(), l1_fee_vault()]);
    let system_signed = fee_vault_credits(&watched, coinbase, base_fee, &txs);
    let account_deltas = vec![
        (coinbase, priority as i128),
        (base_fee_vault(), base as i128),
        (l1_fee_vault(), l1 as i128),
    ];
    let inputs = BlockInputs {
        chain_id: 10,
        block_number: 42,
        block_hash: hash(0xAB),
        watched: watched.clone(),
        erc20_logs: vec![],
        frames: vec![],
        gas: vec![],
        account_deltas,
        system_signed,
    };
    let batch =
        process_block(inputs).expect("zero residual: fee-vault credits net the observed delta");
    assert_eq!(batch.eth.len(), 3);
    assert!(batch.unattributed.is_empty());

    let stalled = process_block(BlockInputs {
        chain_id: 10,
        block_number: 42,
        block_hash: hash(0xAB),
        watched,
        erc20_logs: vec![],
        frames: vec![],
        gas: vec![],
        account_deltas: vec![(base_fee_vault(), base as i128)],
        system_signed: vec![],
    });
    assert!(
        stalled.is_err(),
        "regression guard: an unrecognised fee-vault delta MUST residual-stall"
    );
}

#[test]
fn op_l1_fee_table_deposit_and_zero_rules() {
    let txs = vec![
        (true, vec![0x7e, 0x00]),
        (false, vec![0x02, 0xaa]),
        (false, vec![0x02, 0x00]),
        (true, vec![0x7e, 0x01]),
    ];
    let table = build_block_l1_fee_table(&txs, |raw: &[u8]| {
        let fee = if raw == [0x02, 0xaa] { U256::from_u64(1500) } else { U256::zero() };
        recorded_l1_fee(Some(fee))
    });
    assert_eq!(table.l1_data_fee_wei(0), None, "L1-info deposit => None");
    assert_eq!(
        table.l1_data_fee_wei(1),
        Some(U256::from_u64(1500)),
        "non-deposit positive fee => Some"
    );
    assert_eq!(
        table.l1_data_fee_wei(2),
        None,
        "non-deposit zero fee => None (not Some(0))"
    );
    assert_eq!(table.l1_data_fee_wei(3), None, "deposit => None");
    assert_eq!(table.l1_data_fee_wei(99), None);
}

#[test]
fn a_block_without_fee_parameters_has_no_fees() {
    let table = OptimismStack::without_fees(2);
    assert_eq!(table.l1_data_fee_wei(0), None);
    assert_eq!(table.l1_data_fee_wei(1), None);
    assert_eq!(recorded_l1_fee(None), None);
}

#[test]
fn vault_addresses() {
    let mut bytes = [0u8; 20];
    bytes[0] = 0x42;
    bytes[19] = 0x11;
    assert_eq!(sequencer_fee_vault(), Address::from_bytes(&bytes));
    bytes[19] = 0x19;
    assert_eq!(base_fee_vault(), Address::from_bytes(&bytes));
    bytes[19] = 0x1a;
    assert_eq!(l1_fee_vault(), Address::from_bytes(&bytes));
}

#[test]
fn a_mint_beyond_i128_is_held_at_the_largest() {
    let w = address(0xD7);
    let watched = WatchedSet::from_addresses(&[w]);
    let creds =
        deposit_mint_credits(&[(u128::MAX, TxKind::Call(w), w, hash(1))], &watched);
    assert_eq!(creds[0].signed_wei, i128::MAX);
}
