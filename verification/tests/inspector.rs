use passbook::inspector::{
    CallScheme, CallValue, CreateScheme, FrameKind, FrameMove, ValueInspector,
};
use passbook::primitives::{Address, B256, U256};
use passbook::reexec::{
    assemble_capture, build_prestate_cache, keccak_empty, prior_block, PrestateWrite,
    PriorAccount, PriorCode, TaggingInspector,
};

fn address(byte: u8) -> Address {
    Address::from_bytes(&[byte; 20])
}

fn mv(to: u8, v: u64) -> FrameMove {
    FrameMove {
        from: address(1),
        to: address(to),
        value: U256::from_u64(v),
        kind: FrameKind::Call,
    }
}

fn transfer(v: u64) -> CallValue {
    CallValue::Transfer(U256::from_u64(v))
}

#[test]
fn records_value_call_and_assigns_trace_path() {
    let mut insp = ValueInspector::default();
    insp.push_frame(mv(2, 10));
    insp.push_frame(mv(3, 0));
    let frames = insp.into_frames();
    assert_eq!(frames.len(), 1);
    assert_eq!(frames[0].trace_path, "0");
    assert_eq!(frames[0].value, U256::from_u64(10));
}

#[test]
fn reverted_frame_is_dropped_with_its_subtree() {
    let mut insp = ValueInspector::default();
    insp.enter_frame();
    insp.push_frame(mv(2, 10));
    insp.enter_frame();
    insp.push_frame(mv(3, 5));
    insp.exit_frame(false);
    insp.exit_frame(true);
    assert!(
        insp.into_frames().is_empty(),
        "all frames under a reverted call must be dropped"
    );
}

#[test]
fn only_reverted_inner_frame_dropped_outer_kept() {
    let mut insp = ValueInspector::default();
    insp.enter_frame();
    insp.push_frame(mv(2, 100));
    insp.enter_frame();
    insp.push_frame(mv(3, 7));
    insp.exit_frame(true);
    insp.exit_frame(false);
    let frames = insp.into_frames();
    assert_eq!(frames.len(), 1, "only the surviving top-level frame");
    assert_eq!(frames[0].to, address(2));
    assert_eq!(frames[0].value, U256::from_u64(100));
}

#[test]
fn successful_frames_all_retained() {
    let mut insp = ValueInspector::default();
    insp.enter_frame();
    insp.push_frame(mv(2, 1));
    insp.enter_frame();
    insp.push_frame(mv(3, 2));
    insp.exit_frame(false);
    insp.exit_frame(false);
    assert_eq!(insp.into_frames().len(), 2);
}

#[test]
fn numbers_are_not_reused_after_a_revert() {
    let mut insp = ValueInspector::new();
    insp.enter_frame();
    insp.push_frame(mv(2, 1));
    insp.exit_frame(true);
    insp.push_frame(mv(3, 2));
    assert_eq!(insp.frame_count(), 1);
    assert_eq!(insp.next_sequence(), 2);
    assert_eq!(insp.into_frames()[0].trace_path, "1");
}

#[test]
fn only_value_that_moves_is_recorded() {
    let mut insp = ValueInspector::new();
    insp.call(transfer(5), CallScheme::Call, address(1), address(2));
    insp.call(transfer(6), CallScheme::CallCode, address(2), address(2));
    insp.call(
        CallValue::Apparent(U256::from_u64(7)),
        CallScheme::DelegateCall,
        address(2),
        address(3),
    );
    insp.call(transfer(0), CallScheme::StaticCall, address(2), address(4));
    for _ in 0..4 {
        insp.call_end(true);
    }
    insp.create();
    insp.create_end(U256::from_u64(8), CreateScheme::Create, address(2), None, false);
    insp.create();
    insp.create_end(U256::from_u64(9), CreateScheme::Create2, address(2), Some(address(5)), true);
    insp.create();
    insp.create_end(U256::from_u64(1), CreateScheme::Custom, address(2), Some(address(6)), true);
    insp.selfdestruct(address(5), address(1), U256::from_u64(10));
    insp.selfdestruct(address(5), address(1), U256::zero());
    let kinds: Vec<FrameKind> = insp.into_frames().iter().map(|f| f.kind).collect();
    assert_eq!(
        kinds,
        vec![
            FrameKind::Call,
            FrameKind::CallCode,
            FrameKind::Create2,
            FrameKind::Create,
            FrameKind::SelfDestruct
        ]
    );
}

#[test]
fn tags_stay_with_their_frames_through_reverts() {
    let mut insp = TaggingInspector::default();
    insp.call(transfer(5), CallScheme::Call, address(1), address(2));
    insp.call(transfer(6), CallScheme::Call, address(2), address(3));
    insp.call_end(false);
    insp.call(transfer(7), CallScheme::Call, address(2), address(4));
    insp.selfdestruct(address(4), address(1), U256::from_u64(7));
    insp.call_end(true);
    insp.call_end(true);
    assert!(insp.has_room());
    assert_eq!(insp.tags, vec![true, false, false]);
    let tagged = insp.into_tagged(3);
    let seen: Vec<(bool, usize, String)> = tagged
        .iter()
        .map(|t| (t.top_level, t.tx_index, t.frame.trace_path.clone()))
        .collect();
    assert_eq!(
        seen,
        vec![
            (true, 3, "0".to_string()),
            (false, 3, "2".to_string()),
            (false, 3, "3".to_string())
        ]
    );
}

#[test]
fn a_failed_transaction_leaves_no_tagged_frame() {
    let mut insp = TaggingInspector::new();
    insp.call(transfer(5), CallScheme::Call, address(1), address(2));
    insp.create();
    insp.create_end(U256::from_u64(3), CreateScheme::Create, address(2), Some(address(9)), true);
    insp.call_end(false);
    assert!(insp.tags.is_empty());
    assert!(insp.into_tagged(0).is_empty());
}

#[test]
fn a_creating_transaction_is_top_level() {
    let mut insp = TaggingInspector::new();
    insp.create();
    insp.create_end(U256::from_u64(3), CreateScheme::Create, address(1), Some(address(9)), true);
    assert_eq!(insp.tags, vec![true]);
    assert!(insp.enter());
    insp.record(9, true);
    assert_eq!(insp.tags, vec![true]);
}

#[test]
fn captures_are_joined_by_transaction() {
    let mut first = TaggingInspector::new();
    first.call(transfer(5), CallScheme::Call, address(1), address(2));
    first.call_end(true);
    let second = TaggingInspector::new();
    let mut third = TaggingInspector::new();
    third.call(transfer(6), CallScheme::Call, address(1), address(2));
    third.call_end(true);
    let hashes: Vec<B256> = (1u8..=3).map(|b| B256::from_bytes(&[b; 32])).collect();
    let captured = assemble_capture(&hashes, &[true, false], vec![first, second, third]);
    assert_eq!(captured.tx_hashes, hashes.iter().map(|h| Some(*h)).collect::<Vec<_>>());
    assert_eq!(captured.tx_reverted, vec![false, true, false]);
    let places: Vec<usize> = captured.frames.iter().map(|t| t.tx_index).collect();
    assert_eq!(places, vec![0, 2]);
}

#[test]
fn earlier_blocks_are_laid_over_the_parent_state() {
    let code = B256::from_bytes(&[7; 32]);
    let missing = B256::from_bytes(&[8; 32]);
    let accounts = vec![
        PriorAccount {
            info: Some(PriorCode { code_hash: code, has_code: false }),
            destroyed: false,
            slots: 2,
        },
        PriorAccount { info: None, destroyed: true, slots: 1 },
        PriorAccount {
            info: Some(PriorCode { code_hash: code, has_code: true }),
            destroyed: false,
            slots: 0,
        },
        PriorAccount {
            info: Some(PriorCode { code_hash: keccak_empty(), has_code: false }),
            destroyed: false,
            slots: 0,
        },
        PriorAccount {
            info: Some(PriorCode { code_hash: missing, has_code: false }),
            destroyed: false,
            slots: 0,
        },
        PriorAccount {
            info: Some(PriorCode { code_hash: keccak_empty(), has_code: false }),
            destroyed: true,
            slots: 1,
        },
        PriorAccount { info: None, destroyed: false, slots: 0 },
    ];
    let writes = build_prestate_cache(&accounts, &[keccak_empty(), code]);
    assert_eq!(
        writes,
        vec![
            PrestateWrite::Account { account: 0, code_from: Some(1) },
            PrestateWrite::Storage { account: 0, slot: 0 },
            PrestateWrite::Storage { account: 0, slot: 1 },
            PrestateWrite::Gone { account: 1 },
            PrestateWrite::Account { account: 2, code_from: None },
            PrestateWrite::Account { account: 3, code_from: None },
            PrestateWrite::Account { account: 4, code_from: None },
            PrestateWrite::Account { account: 5, code_from: None },
            PrestateWrite::Cleared { account: 5 },
            PrestateWrite::Storage { account: 5, slot: 0 },
            PrestateWrite::Gone { account: 6 },
        ]
    );
    assert_eq!(prior_block(0), None);
    assert_eq!(prior_block(5), Some(4));
}

#[test]
fn the_hash_of_no_code_is_keccak_of_nothing() {
    assert_eq!(keccak_empty(), B256::from_bytes(&alloy_primitives::keccak256([]).0));
}

#[test]
fn names_of_dropped_frames_are_not_given_again() {
    let mut insp = ValueInspector::new();
    insp.enter_frame();
    insp.push_frame(mv(2, 1));
    insp.push_frame(mv(3, 1));
    insp.exit_frame(true);
    insp.push_frame(mv(4, 0));
    insp.push_frame(mv(4, 1));
    insp.enter_frame();
    insp.push_frame(mv(5, 1));
    insp.exit_frame(false);
    let names: Vec<String> = insp.into_frames().into_iter().map(|f| f.trace_path).collect();
    assert_eq!(names, vec!["2", "3"]);
}

#[test]
fn a_failure_puts_tags_and_frames_back() {
    let start = || {
        let mut i = TaggingInspector::new();
        i.call(transfer(9), CallScheme::Call, address(1), address(2));
        i
    };
    let inside = |i: &mut TaggingInspector| {
        i.call(transfer(3), CallScheme::Call, address(2), address(3));
        i.selfdestruct(address(3), address(4), U256::from_u64(2));
        i.create();
        i.create_end(U256::from_u64(1), CreateScheme::Create, address(3), Some(address(5)), true);
        i.call_end(true);
    };
    let mut by_call = start();
    by_call.call(transfer(4), CallScheme::Call, address(2), address(6));
    inside(&mut by_call);
    by_call.call_end(false);
    let mut by_create = start();
    by_create.create();
    inside(&mut by_create);
    by_create.create_end(
        U256::from_u64(7),
        CreateScheme::Create,
        address(2),
        Some(address(6)),
        false,
    );
    let mut kept = start();
    kept.call(transfer(4), CallScheme::Call, address(2), address(6));
    inside(&mut kept);
    kept.call_end(true);
    for (mut i, count) in [(by_call, 1), (by_create, 1), (kept, 5)] {
        i.call_end(true);
        assert_eq!(i.inner.frame_count(), count);
        let tags: Vec<bool> = (0..count).map(|k| k == 0).collect();
        assert_eq!(i.tags, tags);
        i.call(transfer(1), CallScheme::Call, address(1), address(2));
        assert_eq!(i.tags.last(), Some(&true), "the depth is back at the transaction's own");
    }
}
