use passbook::model::UnattributedDeltaCause;
use passbook::primitives::{Address, B256, U256};
use passbook::reconcile::{
    magnitude, reconcile_account, skip_mode_attribution, ReconcileInput, ReconcileOverflow,
};

fn address(byte: u8) -> Address {
    Address::from_bytes(&[byte; 20])
}

fn hash(byte: u8) -> B256 {
    B256::from_bytes(&[byte; 32])
}

fn input(block: u64, byte: u8) -> ReconcileInput {
    ReconcileInput {
        chain_id: 1,
        block_number: block,
        block_hash: hash(0),
        address: address(byte),
        observed_delta: 0,
        eth_in: U256::zero(),
        eth_out: U256::zero(),
        gas_paid: U256::zero(),
        system_signed: 0,
    }
}

#[test]
fn balanced_account_has_no_residual() {
    let r = reconcile_account(ReconcileInput {
        observed_delta: 100,
        eth_in: U256::from_u64(150),
        eth_out: U256::from_u64(20),
        gas_paid: U256::from_u64(30),
        ..input(5, 0xaa)
    })
    .expect("in-range inputs must not overflow");
    assert!(r.is_none());
}

#[test]
fn imbalance_yields_unattributed_row() {
    let r = reconcile_account(ReconcileInput {
        observed_delta: 100,
        eth_in: U256::from_u64(10),
        ..input(5, 0xaa)
    })
    .expect("in-range inputs must not overflow")
    .expect("imbalance must yield a row");
    assert_eq!(r.residual_wei, U256::from_u64(90));
    assert_eq!(r.observed_wei, U256::from_u64(100));
    assert_eq!(r.attributed_wei, U256::from_u64(10));
    assert_eq!(r.cause, UnattributedDeltaCause::UnexplainedResidual);
}

#[test]
fn out_of_range_input_is_a_hard_error_not_a_clamp() {
    // One more than the largest i128.
    let huge = U256 { l0: 0, l1: 0x8000_0000_0000_0000, l2: 0, l3: 0 };
    let err = reconcile_account(ReconcileInput { eth_in: huge, ..input(7, 0xbb) });
    assert!(
        matches!(err, Err(ReconcileOverflow)),
        "out-of-range input must be a hard error, not a silent clamp"
    );
}

#[test]
fn skip_mode_full_system_attribution_yields_zero_residual() {
    let (obs, attr, res) = skip_mode_attribution(89_916_500_000_000_000, 89_916_500_000_000_000);
    assert_eq!(obs, 89_916_500_000_000_000);
    assert_eq!(attr, 89_916_500_000_000_000);
    assert_eq!(res, 0);
}

#[test]
fn skip_mode_partial_same_sign_attribution_records_gap() {
    let (obs, attr, res) = skip_mode_attribution(1_000, 300);
    assert_eq!(obs, 1_000);
    assert_eq!(attr, 300);
    assert_eq!(res, 700);
}

#[test]
fn skip_mode_over_attribution_clamps_to_zero_residual() {
    let (obs, attr, res) = skip_mode_attribution(500, 700);
    assert_eq!(obs, 500);
    assert_eq!(attr, 500, "attributed clamps to observed magnitude");
    assert_eq!(res, 0);
}

#[test]
fn skip_mode_sign_disagreement_yields_full_observed_residual() {
    let (obs, attr, res) = skip_mode_attribution(500, -200);
    assert_eq!(obs, 500);
    assert_eq!(attr, 0);
    assert_eq!(res, 500);
    let (obs, attr, res) = skip_mode_attribution(-500, 200);
    assert_eq!(obs, 500);
    assert_eq!(attr, 0);
    assert_eq!(res, 500);
}

#[test]
fn skip_mode_no_system_credit_keeps_full_observed() {
    let (obs, attr, res) = skip_mode_attribution(500, 0);
    assert_eq!(obs, 500);
    assert_eq!(attr, 0);
    assert_eq!(res, 500);
}

#[test]
fn attribution_sum_overflow_is_a_hard_error() {
    let err = reconcile_account(ReconcileInput {
        eth_in: U256::from_u128(i128::MAX as u128),
        system_signed: i128::MAX,
        ..input(8, 0xcc)
    });
    assert!(matches!(err, Err(ReconcileOverflow)));
    assert_eq!(ReconcileOverflow.message(), "reconcile arithmetic out of i128 range");
}

#[test]
fn skip_mode_of_nothing_observed_is_covered() {
    assert_eq!(skip_mode_attribution(0, 0), (0, 0, 0));
    assert_eq!(skip_mode_attribution(0, 7), (0, 0, 0));
    assert_eq!(
        skip_mode_attribution(i128::MIN, i128::MIN),
        (1u128 << 127, 1u128 << 127, 0)
    );
}

#[test]
fn magnitudes_of_the_extremes() {
    assert_eq!(magnitude(i128::MIN), 1u128 << 127);
    assert_eq!(magnitude(i128::MAX), i128::MAX as u128);
    assert_eq!(magnitude(-1), 1);
}

#[test]
fn residual_overflow_is_a_hard_error() {
    let err = reconcile_account(ReconcileInput {
        observed_delta: i128::MIN,
        eth_in: U256::from_u64(1),
        ..input(8, 0xcc)
    });
    assert!(matches!(err, Err(ReconcileOverflow)));
}
