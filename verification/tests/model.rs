use passbook::model::{Direction, EthKind, UnattributedDeltaCause};

#[test]
fn direction_roundtrips_as_str() {
    assert_eq!(Direction::In.as_str(), "in");
    assert_eq!(Direction::Out.as_str(), "out");
    assert_eq!(Direction::from_str("in").unwrap(), Direction::In);
}

#[test]
fn unattributed_delta_cause_roundtrips_as_str() {
    assert_eq!(
        UnattributedDeltaCause::ParentStateUnavailable.as_str(),
        "parent_state_unavailable"
    );
    assert_eq!(
        UnattributedDeltaCause::UnexplainedResidual.as_str(),
        "unexplained_residual"
    );
    assert_eq!(
        UnattributedDeltaCause::from_str("parent_state_unavailable").unwrap(),
        UnattributedDeltaCause::ParentStateUnavailable
    );
    assert_eq!(
        UnattributedDeltaCause::from_str("unexplained_residual").unwrap(),
        UnattributedDeltaCause::UnexplainedResidual
    );
    assert!(UnattributedDeltaCause::from_str("nope").is_err());
}

#[test]
fn undelivered_cause_roundtrips() {
    assert_eq!(UnattributedDeltaCause::BlockNotDelivered.as_str(), "block_not_delivered");
    assert_eq!(
        UnattributedDeltaCause::from_str("block_not_delivered").unwrap(),
        UnattributedDeltaCause::BlockNotDelivered
    );
}

#[test]
fn unknown_spellings_are_quoted_in_the_error() {
    assert_eq!(Direction::from_str("up").unwrap_err(), "bad direction up");
    assert_eq!(
        UnattributedDeltaCause::from_str("nope").unwrap_err(),
        "unknown unattributed_deltas cause: nope"
    );
    assert_eq!(Direction::from_str("out").unwrap(), Direction::Out);
}

#[test]
fn eth_kinds_are_spelled_apart() {
    assert_eq!(EthKind::TopLevel.as_str(), "top_level");
    assert_eq!(EthKind::Internal.as_str(), "internal");
    assert_eq!(EthKind::System.as_str(), "system");
}
