use passbook::primitives::U256;
use passbook::stack::{EthereumStack, StackAdapter};

struct NoL1;

impl StackAdapter for NoL1 {
    fn l1_data_fee_wei(&self, _tx_index: usize) -> Option<U256> {
        None
    }
}

#[test]
fn default_adapter_has_no_l1_fee() {
    assert_eq!(NoL1.l1_data_fee_wei(0), None);
}

#[test]
fn ethereum_adapter_never_has_l1_fee() {
    assert_eq!(EthereumStack.l1_data_fee_wei(0), None);
    assert_eq!(EthereumStack::default().l1_data_fee_wei(7), None);
}
