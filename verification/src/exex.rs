//! From one block's execution to what it adds to the ledger.

use vstd::prelude::*;
use vstd::string::StringExecFns;
use crate::attribution;
use crate::attribution::FrameContext;
use crate::erc20;
use crate::erc20::{Log, RawLog};
use crate::inspector::{CapturedFrame, Frame};
use crate::ledger::writer::{Batch, BlockBatch};
use crate::model::{
    Direction, Erc20TransferRow, EthKind, EthTransfer, EthTransferRow, GasPaymentRow,
};
use crate::primitives;
use crate::primitives::{Address, B256, U256};
use crate::reconcile;
use crate::reconcile::ReconcileInput;
use crate::system;
use crate::system::{Credit, SystemCredit};
use crate::text;
use crate::watched::WatchedSet;

verus! {

/// What is known of one block.
#[derive(Clone)]
pub struct BlockInputs {
    pub chain_id: u64,
    pub block_number: u64,
    pub block_hash: B256,
    pub watched: WatchedSet,
    /// Logs with their transaction and their index in the block.
    pub erc20_logs: Vec<(Option<B256>, u64, RawLog)>,
    /// Value frames with their transaction and whether it failed.
    pub frames: Vec<(Option<B256>, bool, CapturedFrame)>,
    pub gas: Vec<GasPaymentRow>,
    /// Observed balance changes.
    pub account_deltas: Vec<(Address, i128)>,
    /// Recognised protocol credits and debits.
    pub system_signed: Vec<SystemCredit>,
}

/// A log with its transaction and its index.
pub struct LogEntry {
    pub tx_hash: Option<B256>,
    pub log_index: u64,
    pub log: Log,
}

/// A frame with its transaction and whether that failed.
pub struct FrameEntry {
    pub tx_hash: Option<B256>,
    pub reverted: bool,
    pub frame: Frame,
}

/// What a [`BlockInputs`] says.
pub struct Inputs {
    pub chain_id: u64,
    pub block_number: u64,
    pub block_hash: B256,
    pub watched: Set<Address>,
    pub logs: Seq<LogEntry>,
    pub frames: Seq<FrameEntry>,
    pub gas: Seq<GasPaymentRow>,
    pub deltas: Seq<(Address, i128)>,
    pub credits: Seq<Credit>,
}

pub open spec fn logs_view(logs: Seq<(Option<B256>, u64, RawLog)>) -> Seq<LogEntry> {
    Seq::new(
        logs.len(),
        |i: int| LogEntry { tx_hash: logs[i].0, log_index: logs[i].1, log: logs[i].2@ },
    )
}

pub open spec fn frame_entries_view(frames: Seq<(Option<B256>, bool, CapturedFrame)>) -> Seq<
    FrameEntry,
> {
    Seq::new(
        frames.len(),
        |i: int| FrameEntry { tx_hash: frames[i].0, reverted: frames[i].1, frame: frames[i].2@ },
    )
}

impl View for BlockInputs {
    type V = Inputs;

    open spec fn view(&self) -> Inputs {
        Inputs {
            chain_id: self.chain_id,
            block_number: self.block_number,
            block_hash: self.block_hash,
            watched: self.watched@,
            logs: logs_view(self.erc20_logs@),
            frames: frame_entries_view(self.frames@),
            gas: self.gas@,
            deltas: self.account_deltas@,
            credits: system::credits_view(self.system_signed@),
        }
    }
}

/// Why a block cannot be recorded.
#[derive(Clone, Debug)]
pub enum ProcessingError {
    /// The block's execution could not be read.
    Decode { block: u64 },
    /// The recorded movements of an address do not add up to its change.
    UnexplainedResidual { block: u64, address: Address, residual: i128 },
    /// A magnitude left the range in which an address can be reconciled.
    ReconcileOverflow { block: u64, address: Address },
    /// The state before the block could not be read.
    ParentStateUnavailable { block: u64, msg: String },
}

/// What a [`ProcessingError`] says.
pub enum Failure {
    Decode { block: u64 },
    UnexplainedResidual { block: u64, address: Address, residual: int },
    ReconcileOverflow { block: u64, address: Address },
    ParentStateUnavailable { block: u64, msg: Seq<char> },
}

impl View for ProcessingError {
    type V = Failure;

    open spec fn view(&self) -> Failure {
        match self {
            ProcessingError::Decode { block } => Failure::Decode { block: *block },
            ProcessingError::UnexplainedResidual {
                block,
                address,
                residual,
            } => Failure::UnexplainedResidual {
                block: *block,
                address: *address,
                residual: *residual as int,
            },
            ProcessingError::ReconcileOverflow { block, address } => Failure::ReconcileOverflow {
                block: *block,
                address: *address,
            },
            ProcessingError::ParentStateUnavailable {
                block,
                msg,
            } => Failure::ParentStateUnavailable { block: *block, msg: msg@ },
        }
    }
}

impl Failure {
    pub open spec fn message(self) -> Seq<char> {
        match self {
            Failure::Decode { block } => "erc20 decode failure at block "@ + text::decimal(
                block as nat,
            ),
            Failure::UnexplainedResidual { block, address, residual } =>
            "unexplained reconciliation residual for "@ + primitives::eip55_text(address@)
                + " at block "@ + text::decimal(block as nat) + ": "@ + text::signed_decimal(
                residual,
            ),
            Failure::ReconcileOverflow { block, address } =>
            "reconcile arithmetic out of i128 range for "@ + primitives::eip55_text(address@)
                + " at block "@ + text::decimal(block as nat),
            Failure::ParentStateUnavailable { block, msg } =>
            "historical parent state unavailable at block "@ + text::decimal(block as nat) + ": "@
                + msg,
        }
    }
}

impl ProcessingError {
    pub fn message(&self) -> (r: String)
        ensures
            r@ == self@.message(),
    {
        match self {
            ProcessingError::Decode { block } => {
                let n = text::decimal_text(*block as u128);
                text::joined("erc20 decode failure at block ", n.as_str())
            },
            ProcessingError::UnexplainedResidual { block, address, residual } => {
                let mut m = "unexplained reconciliation residual for ".to_owned();
                let a = address.to_checksum();
                m.append(a.as_str());
                m.append(" at block ");
                let n = text::decimal_text(*block as u128);
                m.append(n.as_str());
                m.append(": ");
                let v = text::signed_decimal_text(*residual);
                m.append(v.as_str());
                m
            },
            ProcessingError::ReconcileOverflow { block, address } => {
                let mut m = "reconcile arithmetic out of i128 range for ".to_owned();
                let a = address.to_checksum();
                m.append(a.as_str());
                m.append(" at block ");
                let n = text::decimal_text(*block as u128);
                m.append(n.as_str());
                m
            },
            ProcessingError::ParentStateUnavailable { block, msg } => {
                let mut m = "historical parent state unavailable at block ".to_owned();
                let n = text::decimal_text(*block as u128);
                m.append(n.as_str());
                m.append(": ");
                m.append(msg.as_str());
                m
            },
        }
    }
}

/// What the outcome of a block says.
pub open spec fn outcome_view(r: Result<BlockBatch, ProcessingError>) -> Result<Batch, Failure> {
    match r {
        Ok(b) => Ok(b@),
        Err(e) => Err(e@),
    }
}

impl Inputs {
    pub open spec fn context(self, k: int) -> FrameContext {
        FrameContext {
            chain_id: self.chain_id,
            block_number: self.block_number,
            block_hash: self.block_hash,
            tx_hash: self.frames[k].tx_hash,
            reverted: self.frames[k].reverted,
        }
    }

    /// The row of one watched party of a token transfer.
    pub open spec fn erc20_row(self, k: int, party: (Address, Direction)) -> Erc20TransferRow {
        let entry = self.logs[k];
        Erc20TransferRow {
            chain_id: self.chain_id,
            block_number: self.block_number,
            block_hash: self.block_hash,
            tx_hash: entry.tx_hash->0,
            log_index: entry.log_index,
            token: entry.log.address,
            from: entry.log.sender(),
            to: entry.log.recipient(),
            amount: U256::number(entry.log.amount()),
            address: party.0,
            direction: party.1,
        }
    }

    /// The rows of one log: one for each watched party of a token transfer. An
    /// address that sends to itself is both parties.
    pub open spec fn log_rows(self, k: int) -> Seq<Erc20TransferRow> {
        if self.logs[k].log.concerns(self.watched) {
            let parties = self.logs[k].log.matches(self.watched);
            Seq::new(parties.len(), |m: int| self.erc20_row(k, parties[m]))
        } else {
            Seq::empty()
        }
    }

    /// The rows of the first `n` logs.
    pub open spec fn erc20_rows(self, n: nat) -> Seq<Erc20TransferRow>
        decreases n,
    {
        if n == 0 {
            Seq::empty()
        } else {
            self.erc20_rows((n - 1) as nat) + self.log_rows(n - 1)
        }
    }

    /// The rows of the first `n` frames.
    pub open spec fn frame_rows(self, n: nat) -> Seq<EthTransfer>
        decreases n,
    {
        if n == 0 {
            Seq::empty()
        } else {
            self.frame_rows((n - 1) as nat) + attribution::frame_rows(
                self.context(n - 1),
                self.frames[n - 1].frame,
                self.watched,
            )
        }
    }

    /// The row of a protocol credit. It has no transaction of its own, so the
    /// block's hash stands in for one.
    pub open spec fn system_row(self, c: Credit) -> EthTransfer {
        EthTransfer {
            chain_id: self.chain_id,
            block_number: self.block_number,
            block_hash: self.block_hash,
            tx_hash: Some(self.block_hash),
            trace_path: system_trace_path(c.source, c.address),
            address: c.address,
            direction: if c.signed_wei >= 0 {
                Direction::In
            } else {
                Direction::Out
            },
            counterparty: c.counterparty,
            amount_wei: reconcile::abs(c.signed_wei),
            kind: EthKind::System,
            reverted: false,
        }
    }

    /// The rows of the first `n` credits, of watched addresses only.
    pub open spec fn system_rows(self, n: nat) -> Seq<EthTransfer>
        decreases n,
    {
        if n == 0 {
            Seq::empty()
        } else {
            let before = self.system_rows((n - 1) as nat);
            if self.watched.contains(self.credits[n - 1].address) {
                before.push(self.system_row(self.credits[n - 1]))
            } else {
                before
            }
        }
    }

    /// What came in for an address through the first `n` frames that were
    /// committed.
    pub open spec fn inflow(self, address: Address, n: nat) -> nat
        decreases n,
    {
        if n == 0 {
            0
        } else {
            self.inflow(address, (n - 1) as nat) + if !self.frames[n - 1].reverted
                && self.frames[n - 1].frame.to == address {
                self.frames[n - 1].frame.value
            } else {
                0
            }
        }
    }

    /// What went out from an address through the first `n` frames that were
    /// committed.
    pub open spec fn outflow(self, address: Address, n: nat) -> nat
        decreases n,
    {
        if n == 0 {
            0
        } else {
            self.outflow(address, (n - 1) as nat) + if !self.frames[n - 1].reverted
                && self.frames[n - 1].frame.from == address {
                self.frames[n - 1].frame.value
            } else {
                0
            }
        }
    }

    /// The fees in the first `n` gas rows of an address.
    pub open spec fn gas_spent(self, address: Address, n: nat) -> nat
        decreases n,
    {
        if n == 0 {
            0
        } else {
            self.gas_spent(address, (n - 1) as nat) + if self.gas[n - 1].address == address {
                self.gas[n - 1].total_wei@
            } else {
                0
            }
        }
    }

    /// The sum of the first `n` credits of an address.
    pub open spec fn credited(self, address: Address, n: nat) -> int
        decreases n,
    {
        if n == 0 {
            0
        } else {
            self.credited(address, (n - 1) as nat) + if self.credits[n - 1].address == address {
                self.credits[n - 1].signed_wei
            } else {
                0
            }
        }
    }

    /// The first credit, from the `k`th on, with which the credits of a watched
    /// address leave the range of `i128`.
    pub open spec fn credit_overflow(self, k: nat) -> Option<Address>
        decreases self.credits.len() - k,
    {
        if k >= self.credits.len() {
            None
        } else if self.watched.contains(self.credits[k as int].address) && !reconcile::fits_i128(
            self.credited(self.credits[k as int].address, k + 1),
        ) {
            Some(self.credits[k as int].address)
        } else {
            self.credit_overflow(k + 1)
        }
    }

    /// What reconciliation looks at for an address.
    pub open spec fn account(self, address: Address, observed: i128) -> ReconcileInput {
        ReconcileInput {
            chain_id: self.chain_id,
            block_number: self.block_number,
            block_hash: self.block_hash,
            address,
            observed_delta: observed,
            eth_in: U256::number(
                self.inflow(address, self.frames.len()) % primitives::two_256(),
            ),
            eth_out: U256::number(
                self.outflow(address, self.frames.len()) % primitives::two_256(),
            ),
            gas_paid: U256::number(self.gas_spent(address, self.gas.len()) % primitives::two_256()),
            system_signed: self.credited(address, self.credits.len()) as i128,
        }
    }

    /// The first observed change of a watched address, from the `k`th on, that
    /// does not reconcile.
    pub open spec fn first_unreconciled(self, k: nat) -> Option<Failure>
        decreases self.deltas.len() - k,
    {
        if k >= self.deltas.len() {
            None
        } else {
            let (address, observed) = self.deltas[k as int];
            let account = self.account(address, observed);
            if !self.watched.contains(address) {
                self.first_unreconciled(k + 1)
            } else if !account.in_range() {
                Some(Failure::ReconcileOverflow { block: self.block_number, address })
            } else if !account.balances() {
                Some(
                    Failure::UnexplainedResidual {
                        block: self.block_number,
                        address,
                        residual: observed - account.attributed(),
                    },
                )
            } else {
                self.first_unreconciled(k + 1)
            }
        }
    }

    /// The rows of a block, without any unattributed change.
    pub open spec fn batch(self) -> Batch {
        Batch {
            chain_id: self.chain_id,
            block_number: self.block_number,
            block_hash: self.block_hash,
            eth: self.frame_rows(self.frames.len()) + self.system_rows(self.credits.len()),
            erc20: self.erc20_rows(self.logs.len()),
            gas: self.gas,
            unattributed: Seq::empty(),
        }
    }

    /// What becomes of a block: its rows, if every watched address with an
    /// observed change reconciles.
    pub open spec fn outcome(self) -> Result<Batch, Failure> {
        match self.credit_overflow(0) {
            Some(address) => Err(
                Failure::ReconcileOverflow { block: self.block_number, address },
            ),
            None => match self.first_unreconciled(0) {
                Some(f) => Err(f),
                None => Ok(self.batch()),
            },
        }
    }

    /// Every token transfer of a watched party belongs to a transaction.
    pub open spec fn transfers_have_txs(self) -> bool {
        forall|k: int|
            0 <= k < self.logs.len() && (#[trigger] self.logs[k]).log.concerns(self.watched)
                ==> self.logs[k].tx_hash is Some
    }
}

/// The name of a protocol credit's row.
pub open spec fn system_trace_path(source: Seq<char>, address: Address) -> Seq<char> {
    "system:"@ + source + ":"@ + primitives::address_text(address)
}

pub(crate) fn erc20_rows_of(i: &BlockInputs) -> (r: Vec<Erc20TransferRow>)
    requires
        i@.transfers_have_txs(),
    ensures
        r@ == i@.erc20_rows(i@.logs.len()),
{
    let mut rows: Vec<Erc20TransferRow> = Vec::new();
    let mut k: usize = 0;
    while k < i.erc20_logs.len()
        invariant
            k <= i.erc20_logs@.len(),
            i@.transfers_have_txs(),
            rows@ == i@.erc20_rows(k as nat),
        decreases i.erc20_logs@.len() - k,
    {
        let entry = &i.erc20_logs[k];
        let ghost done = rows@;
        proof {
            assert(i@.logs[k as int].log == entry.2@);
        }
        if let Some(d) = erc20::decode_transfer(&entry.2, &i.watched) {
            let tx_hash = entry.0.unwrap();
            let ghost parties = i@.logs[k as int].log.matches(i@.watched);
            let mut m: usize = 0;
            while m < d.matched.len()
                invariant
                    m <= d.matched@.len(),
                    k < i.erc20_logs@.len(),
                    parties == i@.logs[k as int].log.matches(i@.watched),
                    d.matched@ == parties,
                    i@.logs[k as int].tx_hash == Some(tx_hash),
                    d.token == i@.logs[k as int].log.address,
                    d.from == i@.logs[k as int].log.sender(),
                    d.to == i@.logs[k as int].log.recipient(),
                    d.amount@ == i@.logs[k as int].log.amount(),
                    entry == i.erc20_logs@[k as int],
                    rows@ == done + Seq::new(m as nat, |x: int| i@.erc20_row(k as int, parties[x])),
                decreases d.matched@.len() - m,
            {
                let (address, direction) = d.matched[m];
                let row = Erc20TransferRow {
                    chain_id: i.chain_id,
                    block_number: i.block_number,
                    block_hash: i.block_hash,
                    tx_hash,
                    log_index: entry.1,
                    token: d.token,
                    from: d.from,
                    to: d.to,
                    amount: d.amount,
                    address,
                    direction,
                };
                proof {
                    d.amount.lemma_number();
                    assert(row == i@.erc20_row(k as int, parties[m as int]));
                }
                rows.push(row);
                m += 1;
            }
        }
        proof {
            assert(rows@ =~= done + i@.log_rows(k as int));
        }
        k += 1;
    }
    rows
}

pub(crate) fn frame_rows_of(i: &BlockInputs) -> (r: Vec<EthTransferRow>)
    ensures
        attribution::eth_rows_view(r@) == i@.frame_rows(i@.frames.len()),
{
    let mut rows: Vec<EthTransferRow> = Vec::new();
    let mut k: usize = 0;
    assert(attribution::eth_rows_view(rows@) =~= i@.frame_rows(0));
    while k < i.frames.len()
        invariant
            k <= i.frames@.len(),
            attribution::eth_rows_view(rows@) == i@.frame_rows(k as nat),
        decreases i.frames@.len() - k,
    {
        let entry = &i.frames[k];
        let c = FrameContext {
            chain_id: i.chain_id,
            block_number: i.block_number,
            block_hash: i.block_hash,
            tx_hash: entry.0,
            reverted: entry.1,
        };
        proof {
            assert(c == i@.context(k as int));
            assert(i@.frames[k as int].frame == entry.2@);
        }
        attribution::push_frame_rows(&c, &entry.2, &i.watched, &mut rows);
        k += 1;
    }
    rows
}

fn inflow_of(i: &BlockInputs, address: Address) -> (r: U256)
    ensures
        r == U256::number(i@.inflow(address, i@.frames.len()) % primitives::two_256()),
{
    let mut total = U256::zero();
    let mut k: usize = 0;
    while k < i.frames.len()
        invariant
            k <= i.frames@.len(),
            total@ == i@.inflow(address, k as nat) % primitives::two_256(),
        decreases i.frames@.len() - k,
    {
        let entry = &i.frames[k];
        proof {
            assert(i@.frames[k as int].frame == entry.2@);
            system::lemma_wrapped_add(
                i@.inflow(address, k as nat),
                total@,
                entry.2.value@,
            );
        }
        if !entry.1 && entry.2.to == address {
            total = total.plus(entry.2.value);
        }
        k += 1;
    }
    proof {
        total.lemma_number();
    }
    total
}

fn outflow_of(i: &BlockInputs, address: Address) -> (r: U256)
    ensures
        r == U256::number(i@.outflow(address, i@.frames.len()) % primitives::two_256()),
{
    let mut total = U256::zero();
    let mut k: usize = 0;
    while k < i.frames.len()
        invariant
            k <= i.frames@.len(),
            total@ == i@.outflow(address, k as nat) % primitives::two_256(),
        decreases i.frames@.len() - k,
    {
        let entry = &i.frames[k];
        proof {
            assert(i@.frames[k as int].frame == entry.2@);
            system::lemma_wrapped_add(
                i@.outflow(address, k as nat),
                total@,
                entry.2.value@,
            );
        }
        if !entry.1 && entry.2.from == address {
            total = total.plus(entry.2.value);
        }
        k += 1;
    }
    proof {
        total.lemma_number();
    }
    total
}

fn gas_spent_of(i: &BlockInputs, address: Address) -> (r: U256)
    ensures
        r == U256::number(i@.gas_spent(address, i@.gas.len()) % primitives::two_256()),
{
    let mut total = U256::zero();
    let mut k: usize = 0;
    while k < i.gas.len()
        invariant
            k <= i.gas@.len(),
            total@ == i@.gas_spent(address, k as nat) % primitives::two_256(),
        decreases i.gas@.len() - k,
    {
        proof {
            system::lemma_wrapped_add(
                i@.gas_spent(address, k as nat),
                total@,
                i.gas@[k as int].total_wei@,
            );
        }
        if i.gas[k].address == address {
            total = total.plus(i.gas[k].total_wei);
        }
        k += 1;
    }
    proof {
        total.lemma_number();
    }
    total
}

/// Where no credit overflows, no partial sum of a watched address does.
proof fn lemma_credits_in_range(i: Inputs, address: Address, from: nat, n: nat)
    requires
        i.watched.contains(address),
        i.credit_overflow(from) is None,
        from <= n <= i.credits.len(),
        reconcile::fits_i128(i.credited(address, from)),
    ensures
        reconcile::fits_i128(i.credited(address, n)),
    decreases n - from,
{
    if from < n {
        assert(i.credit_overflow(from) == i.credit_overflow(from + 1));
        lemma_credits_in_range(i, address, from + 1, n);
    }
}

/// The sum of the credits of a watched address, none of which overflows.
pub(crate) fn credited_of(i: &BlockInputs, address: Address) -> (r: i128)
    requires
        i@.watched.contains(address),
        i@.credit_overflow(0) is None,
    ensures
        r == i@.credited(address, i@.credits.len()),
{
    let mut total: i128 = 0;
    let mut k: usize = 0;
    while k < i.system_signed.len()
        invariant
            k <= i.system_signed@.len(),
            total == i@.credited(address, k as nat),
            i@.watched.contains(address),
            i@.credit_overflow(0) is None,
        decreases i.system_signed@.len() - k,
    {
        let c = &i.system_signed[k];
        proof {
            lemma_credits_in_range(i@, address, 0, (k + 1) as nat);
            assert(i@.credits[k as int] == c@);
        }
        if c.address == address {
            total = total + c.signed_wei;
        }
        k += 1;
    }
    total
}

/// The sum of the first `n` credits of an address, unless it or a partial sum
/// leaves the range.
fn credited_upto(i: &BlockInputs, address: Address, n: usize) -> (r: Option<i128>)
    requires
        n <= i@.credits.len(),
    ensures
        match r {
            Some(v) => v == i@.credited(address, n as nat),
            None => exists|m: nat|
                m <= n && !reconcile::fits_i128(#[trigger] i@.credited(address, m)),
        },
{
    let mut total: i128 = 0;
    let mut k: usize = 0;
    while k < n
        invariant
            k <= n <= i@.credits.len(),
            total == i@.credited(address, k as nat),
        decreases n - k,
    {
        let c = &i.system_signed[k];
        proof {
            assert(i@.credits[k as int] == c@);
        }
        if c.address == address {
            match total.checked_add(c.signed_wei) {
                Some(v) => {
                    total = v;
                },
                None => {
                    assert(!reconcile::fits_i128(i@.credited(address, (k + 1) as nat)));
                    return None;
                },
            }
        }
        k += 1;
    }
    Some(total)
}

/// If no credit before the `k`th overflows, every partial sum up to there is in
/// range.
proof fn lemma_prefix_in_range(i: Inputs, address: Address, k: nat)
    requires
        i.watched.contains(address),
        k <= i.credits.len(),
        i.credit_overflow(0) == i.credit_overflow(k),
        forall|j: nat|
            j < k && i.watched.contains(i.credits[j as int].address) ==> reconcile::fits_i128(
                #[trigger] i.credited(i.credits[j as int].address, j + 1),
            ),
    ensures
        forall|m: nat| m <= k ==> reconcile::fits_i128(#[trigger] i.credited(address, m)),
{
    assert forall|m: nat| m <= k implies reconcile::fits_i128(#[trigger] i.credited(address, m)) by {
        lemma_prefix_in_range_at(i, address, k, m);
    }
}

proof fn lemma_prefix_in_range_at(i: Inputs, address: Address, k: nat, m: nat)
    requires
        i.watched.contains(address),
        m <= k <= i.credits.len(),
        forall|j: nat|
            j < k && i.watched.contains(i.credits[j as int].address) ==> reconcile::fits_i128(
                #[trigger] i.credited(i.credits[j as int].address, j + 1),
            ),
    ensures
        reconcile::fits_i128(i.credited(address, m)),
    decreases m,
{
    if m > 0 {
        let j = (m - 1) as nat;
        lemma_prefix_in_range_at(i, address, k, j);
        if i.credits[j as int].address == address {
            assert(reconcile::fits_i128(i.credited(i.credits[j as int].address, j + 1)));
        }
    }
}

/// The first watched address whose credits leave the range.
pub(crate) fn credit_overflow_of(i: &BlockInputs) -> (r: Option<Address>)
    ensures
        r == i@.credit_overflow(0),
{
    let mut k: usize = 0;
    while k < i.system_signed.len()
        invariant
            k <= i.system_signed@.len(),
            i@.credit_overflow(0) == i@.credit_overflow(k as nat),
            forall|j: nat|
                j < k && i@.watched.contains(i@.credits[j as int].address) ==> reconcile::fits_i128(
                    #[trigger] i@.credited(i@.credits[j as int].address, j + 1),
                ),
        decreases i.system_signed@.len() - k,
    {
        let address = i.system_signed[k].address;
        proof {
            assert(i@.credits[k as int] == i.system_signed@[k as int]@);
        }
        if i.watched.contains(&address) {
            match credited_upto(i, address, k + 1) {
                Some(_) => {},
                None => {
                    proof {
                        lemma_prefix_in_range(i@, address, k as nat);
                    }
                    return Some(address);
                },
            }
        }
        k += 1;
    }
    None
}

pub(crate) fn push_system_rows(i: &BlockInputs, rows: &mut Vec<EthTransferRow>)
    ensures
        attribution::eth_rows_view(final(rows)@) == attribution::eth_rows_view(old(rows)@)
            + i@.system_rows(i@.credits.len()),
{
    let ghost before = attribution::eth_rows_view(rows@);
    let mut k: usize = 0;
    assert(before + i@.system_rows(0) =~= before);
    while k < i.system_signed.len()
        invariant
            k <= i.system_signed@.len(),
            attribution::eth_rows_view(rows@) == before + i@.system_rows(k as nat),
        decreases i.system_signed@.len() - k,
    {
        let c = &i.system_signed[k];
        proof {
            assert(i@.credits[k as int] == c@);
        }
        if i.watched.contains(&c.address) {
            let direction = if c.signed_wei >= 0 {
                Direction::In
            } else {
                Direction::Out
            };
            let mut trace_path = "system:".to_owned();
            trace_path.append(c.source.as_str());
            trace_path.append(":");
            let hex = c.address.to_hex();
            trace_path.append(hex.as_str());
            let row = EthTransferRow {
                chain_id: i.chain_id,
                block_number: i.block_number,
                block_hash: i.block_hash,
                tx_hash: Some(i.block_hash),
                trace_path,
                address: c.address,
                direction,
                counterparty: c.counterparty,
                amount_wei: U256::from_u128(reconcile::magnitude(c.signed_wei)),
                kind: EthKind::System,
                reverted: false,
            };
            proof {
                assert(row@ == i@.system_row(c@));
                attribution::lemma_eth_rows_push(rows@, row);
            }
            rows.push(row);
        }
        proof {
            assert(attribution::eth_rows_view(rows@) =~= before + i@.system_rows((k + 1) as nat));
        }
        k += 1;
    }
}

/// Turns what is known of a block into its rows, provided that every watched
/// address with an observed change reconciles exactly. A movement of a failed
/// transaction is recorded but does not count.
pub fn process_block(i: BlockInputs) -> (r: Result<BlockBatch, ProcessingError>)
    requires
        i@.transfers_have_txs(),
    ensures
        outcome_view(r) == i@.outcome(),
{
    let erc20 = erc20_rows_of(&i);
    let mut eth = frame_rows_of(&i);
    if let Some(address) = credit_overflow_of(&i) {
        return Err(ProcessingError::ReconcileOverflow { block: i.block_number, address });
    }
    push_system_rows(&i, &mut eth);
    let mut k: usize = 0;
    while k < i.account_deltas.len()
        invariant
            k <= i.account_deltas@.len(),
            i@.credit_overflow(0) is None,
            i@.first_unreconciled(0) == i@.first_unreconciled(k as nat),
        decreases i.account_deltas@.len() - k,
    {
        let (address, observed) = i.account_deltas[k];
        if i.watched.contains(&address) {
            let account = ReconcileInput {
                chain_id: i.chain_id,
                block_number: i.block_number,
                block_hash: i.block_hash,
                address,
                observed_delta: observed,
                eth_in: inflow_of(&i, address),
                eth_out: outflow_of(&i, address),
                gas_paid: gas_spent_of(&i, address),
                system_signed: credited_of(&i, address),
            };
            proof {
                assert(account == i@.account(address, observed));
            }
            match reconcile::residual_of(&account) {
                Ok((_, residual)) => {
                    if residual != 0 {
                        return Err(
                            ProcessingError::UnexplainedResidual {
                                block: i.block_number,
                                address,
                                residual,
                            },
                        );
                    }
                },
                Err(_) => {
                    return Err(
                        ProcessingError::ReconcileOverflow { block: i.block_number, address },
                    );
                },
            }
        }
        k += 1;
    }
    let batch = BlockBatch {
        chain_id: i.chain_id,
        block_number: i.block_number,
        block_hash: i.block_hash,
        eth,
        erc20,
        gas: i.gas,
        unattributed: Vec::new(),
    };
    proof {
        assert(batch@.unattributed =~= i@.batch().unattributed);
    }
    Ok(batch)
}

/// The text about a failure names the block it befell, the account where there is
/// one, what was left over and what else is known.
pub proof fn a_message_names_what_failed(f: Failure)
    ensures
        match f {
            Failure::Decode { block } => text::mentions(f.message(), text::decimal(block as nat)),
            Failure::UnexplainedResidual { block, address, residual } => {
                &&& text::mentions(f.message(), text::decimal(block as nat))
                &&& text::mentions(f.message(), primitives::eip55_text(address@))
                &&& text::mentions(f.message(), text::signed_decimal(residual))
            },
            Failure::ReconcileOverflow { block, address } => {
                &&& text::mentions(f.message(), text::decimal(block as nat))
                &&& text::mentions(f.message(), primitives::eip55_text(address@))
            },
            Failure::ParentStateUnavailable { block, msg } => {
                &&& text::mentions(f.message(), text::decimal(block as nat))
                &&& text::mentions(f.message(), msg)
            },
        },
{
    let m = f.message();
    let nothing = Seq::<char>::empty();
    match f {
        Failure::Decode { block } => {
            let n = text::decimal(block as nat);
            let head = "erc20 decode failure at block "@;
            assert(m =~= head + n + nothing);
            text::lemma_mentions(m, head, n, nothing);
        },
        Failure::UnexplainedResidual { block, address, residual } => {
            let a = primitives::eip55_text(address@);
            let n = text::decimal(block as nat);
            let r = text::signed_decimal(residual);
            let first = "unexplained reconciliation residual for "@;
            assert(m =~= first + a + (" at block "@ + n + ": "@ + r));
            text::lemma_mentions(m, first, a, " at block "@ + n + ": "@ + r);
            assert(m =~= (first + a + " at block "@) + n + (": "@ + r));
            text::lemma_mentions(m, first + a + " at block "@, n, ": "@ + r);
            assert(m =~= (first + a + " at block "@ + n + ": "@) + r + nothing);
            text::lemma_mentions(m, first + a + " at block "@ + n + ": "@, r, nothing);
        },
        Failure::ReconcileOverflow { block, address } => {
            let a = primitives::eip55_text(address@);
            let n = text::decimal(block as nat);
            let first = "reconcile arithmetic out of i128 range for "@;
            assert(m =~= first + a + (" at block "@ + n));
            text::lemma_mentions(m, first, a, " at block "@ + n);
            assert(m =~= (first + a + " at block "@) + n + nothing);
            text::lemma_mentions(m, first + a + " at block "@, n, nothing);
        },
        Failure::ParentStateUnavailable { block, msg } => {
            let n = text::decimal(block as nat);
            let first = "historical parent state unavailable at block "@;
            assert(m =~= first + n + (": "@ + msg));
            text::lemma_mentions(m, first, n, ": "@ + msg);
            assert(m =~= (first + n + ": "@) + msg + nothing);
            text::lemma_mentions(m, first + n + ": "@, msg, nothing);
        },
    }
}

} // verus!
