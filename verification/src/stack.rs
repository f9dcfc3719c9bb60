//! What differs between chains in the fee of a transaction.

use vstd::prelude::*;
use crate::primitives::U256;

verus! {

/// The data fee that a transaction pays to the chain below, where there is one.
pub trait StackAdapter {
    /// The data fee of the transaction at a place in the block; none unless the
    /// adapter says otherwise.
    open spec fn l1_fee(&self, tx_index: nat) -> Option<U256> {
        None
    }

    fn l1_data_fee_wei(&self, tx_index: usize) -> (r: Option<U256>)
        ensures
            r == self.l1_fee(tx_index as nat),
    ;
}

/// A base chain: no transaction pays a data fee.
#[derive(Clone, Copy, Debug, Default)]
pub struct EthereumStack;

impl StackAdapter for EthereumStack {
    fn l1_data_fee_wei(&self, _tx_index: usize) -> (r: Option<U256>) {
        None
    }
}

/// On a base chain no transaction has a data fee.
pub proof fn a_base_chain_has_no_data_fees(stack: EthereumStack, tx_index: nat)
    ensures
        stack.l1_fee(tx_index) is None,
{
}

} // verus!
