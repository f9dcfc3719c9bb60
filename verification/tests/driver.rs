use passbook::driver::{
    diagnostic_row, gap_range, processed, resume_head, Action, BlockId, Driver, Event, Processed,
};
use passbook::exex::ProcessingError;
use passbook::model::UnattributedDeltaCause;
use passbook::primitives::{Address, B256, U256};

fn hash(byte: u8) -> B256 {
    B256::from_bytes(&[byte; 32])
}

fn block(number: u64) -> BlockId {
    BlockId { number, hash: hash(number as u8) }
}

fn committed(blocks: &[BlockId]) -> Event {
    Event::Notification { reverted: vec![], committed: blocks.to_vec() }
}

fn sleep_of(d: &Driver) -> u64 {
    match d.action() {
        Action::Sleep { ms } => ms,
        other => panic!("{other:?}"),
    }
}

fn write_all(mut d: Driver, count: usize) -> Driver {
    for i in 0..count {
        assert!(matches!(d.action(), Action::ProcessBlock { index } if index == i));
        d = d.step(Event::Processed(Processed::Batch));
        assert!(matches!(d.action(), Action::WriteBlock { index } if index == i));
        d = d.step(Event::BlockWritten(true));
    }
    d
}

#[test]
fn a_height_is_reported_one_notification_later() {
    let mut d = Driver::new(1, None);
    assert!(matches!(d.action(), Action::Await));
    d = write_all(d.step(committed(&[block(1), block(2)])), 2);
    assert!(matches!(d.action(), Action::Await), "the tip is held back");
    d = write_all(d.step(committed(&[block(3)])), 1);
    assert!(matches!(d.action(), Action::ReportFinished { block: b } if b == block(2)));
    d = d.step(Event::Reported(true));
    assert!(matches!(d.action(), Action::Await));
    d = write_all(d.step(committed(&[block(4)])), 1);
    assert!(matches!(d.action(), Action::ReportFinished { block: b } if b == block(3)));
    d = d.step(Event::Reported(false));
    assert!(matches!(d.action(), Action::Stop));
    assert!(matches!(d.step(committed(&[block(5)])).action(), Action::Stop));
}

#[test]
fn a_stalled_block_is_tried_again_with_doubling_pauses() {
    let mut d = Driver::new(1, None).step(committed(&[block(1)]));
    let mut pauses = Vec::new();
    for _ in 0..10 {
        d = d.step(Event::Processed(Processed::Failed));
        pauses.push(sleep_of(&d));
        d = d.step(Event::Slept);
        assert!(matches!(d.action(), Action::ProcessBlock { index: 0 }));
    }
    assert_eq!(
        pauses,
        vec![200, 400, 800, 1600, 3200, 6400, 12800, 25600, 30000, 30000]
    );
    d = d.step(Event::Processed(Processed::Batch)).step(Event::BlockWritten(false));
    assert_eq!(sleep_of(&d), 30000);
    d = d.step(Event::Slept);
    assert!(matches!(d.action(), Action::ProcessBlock { index: 0 }), "processed anew");
}

#[test]
fn pauses_start_short_again_for_the_next_block() {
    let mut d = Driver::new(1, None).step(committed(&[block(1), block(2)]));
    d = d.step(Event::Processed(Processed::Failed)).step(Event::Slept);
    d = d.step(Event::Processed(Processed::Batch)).step(Event::BlockWritten(true));
    d = d.step(Event::Processed(Processed::Failed));
    assert_eq!(sleep_of(&d), 200);
}

#[test]
fn fault_injected_residual_stalls_without_advancing() {
    let w = Address::from_bytes(&[0xcc; 20]);
    let mut d = Driver::new(7, None).step(committed(&[block(1)]));
    for _ in 0..3 {
        d = d.step(Event::Processed(Processed::Residual {
            block: 1,
            address: w,
            residual: -50,
        }));
        match d.action() {
            Action::WriteDiagnostic { row } => {
                assert_eq!(row.chain_id, 7);
                assert_eq!(row.block_number, 1);
                assert_eq!(row.block_hash, hash(1));
                assert_eq!(row.address, w);
                assert_eq!(row.observed_wei, U256::from_u64(50));
                assert_eq!(row.attributed_wei, U256::zero());
                assert_eq!(row.residual_wei, U256::from_u64(50));
                assert_eq!(row.cause, UnattributedDeltaCause::UnexplainedResidual);
            }
            other => panic!("{other:?}"),
        }
        d = d.step(Event::DiagnosticWritten);
        sleep_of(&d);
        d = d.step(Event::Slept);
        assert!(matches!(d.action(), Action::ProcessBlock { index: 0 }));
    }
}

#[test]
fn fault_injected_db_write_error_stalls_without_advancing() {
    let mut d = Driver::new(1, None).step(committed(&[block(1)]));
    for _ in 0..5 {
        d = d.step(Event::Processed(Processed::Batch)).step(Event::BlockWritten(false));
        sleep_of(&d);
        d = d.step(Event::Slept);
    }
    d = write_all(d, 1);
    assert!(matches!(d.action(), Action::Await));
}

#[test]
fn gap_on_restart_stalls_when_provider_cannot_serve_gap_headers() {
    let mut d = Driver::new(0x1234, Some(1)).step(committed(&[block(5)]));
    for _ in 0..4 {
        assert!(matches!(d.action(), Action::FetchGapHash { number: 2 }));
        d = d.step(Event::GapHash(None));
        sleep_of(&d);
        d = d.step(Event::Slept);
    }
    for number in 2..=4u64 {
        assert!(matches!(d.action(), Action::FetchGapHash { number: n } if n == number));
        d = d.step(Event::GapHash(Some(hash(number as u8))));
        assert!(matches!(d.action(), Action::WriteGapMarker { block: b } if b == block(number)));
        d = d.step(Event::GapMarked(false));
        assert_eq!(sleep_of(&d), if number == 2 { 3200 } else { 200 });
        d = d.step(Event::Slept).step(Event::GapHash(Some(hash(number as u8))));
        d = d.step(Event::GapMarked(true));
    }
    d = write_all(d, 1);
    assert!(matches!(d.action(), Action::Await));
}

#[test]
fn reverted_blocks_are_deleted_before_the_new_ones() {
    let mut d = Driver::new(1, Some(3)).step(Event::Notification {
        reverted: vec![block(3), block(2)],
        committed: vec![block(2)],
    });
    for pause in [200, 400] {
        assert!(matches!(d.action(), Action::DeleteBlocks { hashes } if hashes == vec![hash(3), hash(2)]));
        d = d.step(Event::Deleted(false));
        assert_eq!(sleep_of(&d), pause);
        d = d.step(Event::Slept);
    }
    d = d.step(Event::Deleted(true));
    d = write_all(d, 1);
    assert!(matches!(d.action(), Action::Await));
}

#[test]
fn a_pure_revert_goes_back_to_waiting() {
    let d = Driver::new(1, Some(3))
        .step(Event::Notification { reverted: vec![block(3)], committed: vec![] })
        .step(Event::Deleted(true));
    assert!(matches!(d.action(), Action::Await));
}

#[test]
fn what_does_not_belong_changes_nothing() {
    let d = Driver::new(1, None).step(Event::BlockWritten(true)).step(Event::Slept);
    assert!(matches!(d.action(), Action::Await));
    let d = d.step(committed(&[block(1)])).step(Event::BlockWritten(true));
    assert!(matches!(d.action(), Action::ProcessBlock { index: 0 }));
}

#[test]
fn gaps() {
    assert_eq!(gap_range(None, 9), None);
    assert_eq!(gap_range(Some(8), 9), None);
    assert_eq!(gap_range(Some(9), 9), None);
    assert_eq!(gap_range(Some(12), 9), None);
    assert_eq!(gap_range(Some(7), 9), Some((8, 8)));
    assert_eq!(gap_range(Some(1), 5), Some((2, 4)));
    assert_eq!(gap_range(Some(u64::MAX), u64::MAX), None);
}

#[test]
fn errors_as_the_driver_sees_them() {
    let w = Address::from_bytes(&[1; 20]);
    assert!(matches!(
        processed(&Err(ProcessingError::UnexplainedResidual { block: 3, address: w, residual: 4 })),
        Processed::Residual { block: 3, address, residual: 4 } if address == w
    ));
    assert!(matches!(
        processed(&Err(ProcessingError::Decode { block: 3 })),
        Processed::Failed
    ));
    assert!(matches!(
        processed(&Err(ProcessingError::ReconcileOverflow { block: 3, address: w })),
        Processed::Failed
    ));
    let row = diagnostic_row(1, 2, hash(3), w, i128::MIN);
    assert_eq!(row.observed_wei, U256::from_u128(1u128 << 127));
    assert_eq!(row.attributed_wei, U256::zero());
    assert_eq!(row.residual_wei, U256::from_u128(1u128 << 127));
}

#[test]
fn a_reverted_tip_is_never_reported() {
    let mut d = write_all(Driver::new(1, None).step(committed(&[block(1), block(2)])), 2);
    d = d.step(Event::Notification { reverted: vec![block(2)], committed: vec![] });
    d = d.step(Event::Deleted(true));
    assert!(matches!(d.action(), Action::Await));
    let other = BlockId { number: 2, hash: hash(0xb2) };
    d = write_all(d.step(committed(&[other])), 1);
    assert!(matches!(d.action(), Action::Await), "the reverted tip is dropped");
    d = write_all(d.step(committed(&[block(3)])), 1);
    assert!(matches!(d.action(), Action::ReportFinished { block: b } if b == other));
}

#[test]
fn a_tip_that_was_not_reverted_is_still_reported() {
    let mut d = write_all(Driver::new(1, None).step(committed(&[block(1)])), 1);
    d = d.step(Event::Notification {
        reverted: vec![BlockId { number: 1, hash: hash(0xa1) }],
        committed: vec![block(2)],
    });
    d = d.step(Event::Deleted(true)).step(Event::GapHash(Some(hash(1))));
    d = d.step(Event::GapMarked(true));
    d = write_all(d, 1);
    assert!(matches!(d.action(), Action::ReportFinished { block: b } if b == block(1)));
}

#[test]
fn a_reverted_block_leaves_a_gap_until_it_is_filled() {
    let mut d = write_all(Driver::new(1, Some(9)).step(committed(&[block(10)])), 1);
    d = d.step(Event::Notification { reverted: vec![block(10)], committed: vec![] });
    d = d.step(Event::Deleted(true));
    d = d.step(committed(&[block(11)]));
    assert!(matches!(d.action(), Action::FetchGapHash { number: 10 }));
    let other = BlockId { number: 10, hash: hash(0xb0) };
    d = d.step(Event::GapHash(Some(other.hash)));
    assert!(matches!(d.action(), Action::WriteGapMarker { block: b } if b == other));
    d = d.step(Event::GapMarked(true));
    d = write_all(d, 1);
    assert!(matches!(d.action(), Action::Await));
}

#[test]
fn a_deep_revert_goes_back_to_its_first_block() {
    let mut d = Driver::new(1, Some(9)).step(Event::Notification {
        reverted: vec![block(9), block(7), block(8)],
        committed: vec![block(8)],
    });
    d = d.step(Event::Deleted(true));
    assert!(matches!(d.action(), Action::FetchGapHash { number: 7 }));
}

#[test]
fn the_head_is_read_back() {
    let text = |s: &str| Some(s.to_string());
    let h = format!("0x{}", "ab".repeat(32));
    assert_eq!(
        resume_head(&text("7"), &text(&h)),
        Some(BlockId { number: 7, hash: hash(0xab) })
    );
    assert_eq!(resume_head(&text("7"), &None), None);
    assert_eq!(resume_head(&None, &text(&h)), None);
    assert_eq!(resume_head(&text("x"), &text(&h)), None);
    assert_eq!(resume_head(&text("7"), &text("0x12")), None);
}
