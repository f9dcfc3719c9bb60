//! The rows of the ledger.

use vstd::prelude::*;
use vstd::string::StringExecFns;
use crate::primitives::{Address, B256, U256};
use crate::text;

verus! {

/// Which way value moved, seen from the watched address.
#[derive(Clone, Copy, Debug, PartialEq, Eq, Structural)]
pub enum Direction {
    In,
    Out,
}

impl Direction {
    /// The stored spelling.
    pub open spec fn spelling(self) -> Seq<char> {
        match self {
            Direction::In => "in"@,
            Direction::Out => "out"@,
        }
    }

    pub fn as_str(&self) -> (r: &'static str)
        ensures
            r@ == self.spelling(),
    {
        match self {
            Direction::In => "in",
            Direction::Out => "out",
        }
    }

    /// Reads a stored spelling; a text that is no spelling comes back in the
    /// error message.
    pub fn from_str(s: &str) -> (r: Result<Direction, String>)
        ensures
            match r {
                Ok(d) => s@ == d.spelling(),
                Err(m) => s@ != Direction::In.spelling() && s@ != Direction::Out.spelling() && m@
                    == "bad direction "@ + s@,
            },
    {
        if text::same_text(s, "in") {
            Ok(Direction::In)
        } else if text::same_text(s, "out") {
            Ok(Direction::Out)
        } else {
            let mut m = "bad direction ".to_owned();
            m.append(s);
            Err(m)
        }
    }

    /// No two directions share a spelling, so reading a spelling gives back the
    /// direction that was spelled.
    pub proof fn spelling_is_injective(self, other: Direction)
        requires
            self.spelling() == other.spelling(),
        ensures
            self == other,
    {
        reveal_strlit("in");
        reveal_strlit("out");
        assert("in"@.len() != "out"@.len());
    }
}

/// How native value came to move.
#[derive(Clone, Copy, Debug, PartialEq, Eq, Structural)]
pub enum EthKind {
    TopLevel,
    Internal,
    System,
}

impl EthKind {
    /// The stored spelling.
    pub open spec fn spelling(self) -> Seq<char> {
        match self {
            EthKind::TopLevel => "top_level"@,
            EthKind::Internal => "internal"@,
            EthKind::System => "system"@,
        }
    }

    pub fn as_str(&self) -> (r: &'static str)
        ensures
            r@ == self.spelling(),
    {
        match self {
            EthKind::TopLevel => "top_level",
            EthKind::Internal => "internal",
            EthKind::System => "system",
        }
    }

    /// No two kinds share a spelling.
    pub proof fn spelling_is_injective(self, other: EthKind)
        requires
            self.spelling() == other.spelling(),
        ensures
            self == other,
    {
        reveal_strlit("top_level");
        reveal_strlit("internal");
        reveal_strlit("system");
        assert("top_level"@.len() != "internal"@.len());
        assert("top_level"@.len() != "system"@.len());
        assert("internal"@.len() != "system"@.len());
    }
}

/// A native-value movement to or from a watched address.
#[derive(Clone, Debug)]
pub struct EthTransferRow {
    pub chain_id: u64,
    pub block_number: u64,
    pub block_hash: B256,
    pub tx_hash: Option<B256>,
    pub trace_path: String,
    pub address: Address,
    pub direction: Direction,
    pub counterparty: Address,
    pub amount_wei: U256,
    pub kind: EthKind,
    pub reverted: bool,
}

/// What an [`EthTransferRow`] says.
pub struct EthTransfer {
    pub chain_id: u64,
    pub block_number: u64,
    pub block_hash: B256,
    pub tx_hash: Option<B256>,
    pub trace_path: Seq<char>,
    pub address: Address,
    pub direction: Direction,
    pub counterparty: Address,
    pub amount_wei: nat,
    pub kind: EthKind,
    pub reverted: bool,
}

impl View for EthTransferRow {
    type V = EthTransfer;

    open spec fn view(&self) -> EthTransfer {
        EthTransfer {
            chain_id: self.chain_id,
            block_number: self.block_number,
            block_hash: self.block_hash,
            tx_hash: self.tx_hash,
            trace_path: self.trace_path@,
            address: self.address,
            direction: self.direction,
            counterparty: self.counterparty,
            amount_wei: self.amount_wei@,
            kind: self.kind,
            reverted: self.reverted,
        }
    }
}

/// A token transfer to or from a watched address.
#[derive(Clone, Copy, Debug)]
pub struct Erc20TransferRow {
    pub chain_id: u64,
    pub block_number: u64,
    pub block_hash: B256,
    pub tx_hash: B256,
    pub log_index: u64,
    pub token: Address,
    pub from: Address,
    pub to: Address,
    pub amount: U256,
    pub address: Address,
    pub direction: Direction,
}

/// The fee that a watched address paid for one of its transactions.
#[derive(Clone, Copy, Debug)]
pub struct GasPaymentRow {
    pub chain_id: u64,
    pub block_number: u64,
    pub block_hash: B256,
    pub tx_hash: B256,
    pub address: Address,
    pub gas_used: u64,
    pub effective_gas_price: u128,
    pub l2_fee_wei: U256,
    pub l1_fee_wei: Option<U256>,
    pub total_wei: U256,
}

/// Why an [`UnattributedDeltaRow`] exists.
#[derive(Clone, Copy, Debug, PartialEq, Eq, Structural)]
pub enum UnattributedDeltaCause {
    /// The block was recorded without its call frames, because the state before
    /// it could not be read. Recording goes on.
    ParentStateUnavailable,
    /// The recorded movements do not add up to the observed change. Recording
    /// stops at the block until they do.
    UnexplainedResidual,
    /// The block was never delivered: what happened in it is not known.
    BlockNotDelivered,
}

impl UnattributedDeltaCause {
    /// The stored spelling.
    pub open spec fn spelling(self) -> Seq<char> {
        match self {
            UnattributedDeltaCause::ParentStateUnavailable => "parent_state_unavailable"@,
            UnattributedDeltaCause::UnexplainedResidual => "unexplained_residual"@,
            UnattributedDeltaCause::BlockNotDelivered => "block_not_delivered"@,
        }
    }

    pub fn as_str(&self) -> (r: &'static str)
        ensures
            r@ == self.spelling(),
    {
        match self {
            UnattributedDeltaCause::ParentStateUnavailable => "parent_state_unavailable",
            UnattributedDeltaCause::UnexplainedResidual => "unexplained_residual",
            UnattributedDeltaCause::BlockNotDelivered => "block_not_delivered",
        }
    }

    /// Reads a stored spelling; a text that is no spelling comes back in the
    /// error message.
    pub fn from_str(s: &str) -> (r: Result<UnattributedDeltaCause, String>)
        ensures
            match r {
                Ok(c) => s@ == c.spelling(),
                Err(m) => (forall|c: UnattributedDeltaCause| s@ != #[trigger] c.spelling()) && m@
                    == "unknown unattributed_deltas cause: "@ + s@,
            },
    {
        if text::same_text(s, "parent_state_unavailable") {
            Ok(UnattributedDeltaCause::ParentStateUnavailable)
        } else if text::same_text(s, "unexplained_residual") {
            Ok(UnattributedDeltaCause::UnexplainedResidual)
        } else if text::same_text(s, "block_not_delivered") {
            Ok(UnattributedDeltaCause::BlockNotDelivered)
        } else {
            let mut m = "unknown unattributed_deltas cause: ".to_owned();
            m.append(s);
            Err(m)
        }
    }

    /// No two causes share a spelling, so reading a spelling gives back the
    /// cause that was spelled.
    pub proof fn spelling_is_injective(self, other: UnattributedDeltaCause)
        requires
            self.spelling() == other.spelling(),
        ensures
            self == other,
    {
        reveal_strlit("parent_state_unavailable");
        reveal_strlit("unexplained_residual");
        reveal_strlit("block_not_delivered");
        assert("parent_state_unavailable"@.len() != "unexplained_residual"@.len());
        assert("parent_state_unavailable"@.len() != "block_not_delivered"@.len());
        assert("unexplained_residual"@.len() != "block_not_delivered"@.len());
    }
}

/// A balance change of a watched address that the other rows do not account
/// for in full.
#[derive(Clone, Copy, Debug)]
pub struct UnattributedDeltaRow {
    pub chain_id: u64,
    pub block_number: u64,
    pub block_hash: B256,
    pub address: Address,
    pub observed_wei: U256,
    pub attributed_wei: U256,
    pub residual_wei: U256,
    pub cause: UnattributedDeltaCause,
}

} // verus!
