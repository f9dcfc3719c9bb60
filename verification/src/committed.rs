//! From a committed block to the inputs of bookkeeping.

use vstd::prelude::*;
use crate::attribution;
use crate::attribution::GasInput;
use crate::config::PassbookConfig;
use crate::erc20::{Log, RawLog};
use crate::exex;
use crate::exex::{
    BlockInputs, Failure, FrameEntry, Inputs, LogEntry, ProcessingError,
};
use crate::inspector::{CapturedFrame, Frame};
use crate::ledger::writer::{Batch, BlockBatch};
use crate::model::{GasPaymentRow, UnattributedDeltaCause, UnattributedDeltaRow};
use crate::primitives;
use crate::primitives::{Address, B256, U256};
use crate::reconcile;
use crate::reexec::{BlockCapture, Captured, Tagged};
use crate::stack::StackAdapter;
use crate::system;
use crate::system::{Credit, SystemCredit};
use crate::text;
use crate::watched::WatchedSet;

verus! {

/// A transaction: its hash, its sender and the price it paid for gas.
#[derive(Clone, Copy, Debug)]
pub struct TxInfo {
    pub hash: B256,
    pub sender: Address,
    pub effective_gas_price: u128,
}

/// What a transaction left behind.
#[derive(Clone, Debug)]
pub struct Receipt {
    pub success: bool,
    /// Gas used by the block up to and with this transaction.
    pub cumulative_gas_used: u64,
    pub logs: Vec<RawLog>,
}

/// The balance and the nonce of an account.
#[derive(Clone, Copy, Debug)]
pub struct AccountState {
    pub balance: U256,
    pub nonce: u64,
}

/// An account before and after the block, where it existed.
#[derive(Clone, Copy, Debug)]
pub struct AccountChange {
    pub address: Address,
    pub before: Option<AccountState>,
    pub after: Option<AccountState>,
}

/// What executing the block left behind.
#[derive(Clone, Debug)]
pub struct BlockOutcome {
    pub receipts: Vec<Receipt>,
    pub accounts: Vec<AccountChange>,
}

/// A block that the chain has committed to.
#[derive(Clone, Debug)]
pub struct CommittedBlock {
    pub number: u64,
    pub hash: B256,
    pub base_fee: Option<u64>,
    pub beneficiary: Address,
    pub transactions: Vec<TxInfo>,
    /// Withdrawals with their recipient and their amount in gwei.
    pub withdrawals: Option<Vec<(Address, u64)>>,
    /// Missing if the chain does not hold the block's execution.
    pub outcome: Option<BlockOutcome>,
}

/// What a [`Receipt`] says.
pub struct ReceiptFacts {
    pub success: bool,
    pub cumulative_gas_used: u64,
    pub logs: Seq<Log>,
}

impl View for Receipt {
    type V = ReceiptFacts;

    open spec fn view(&self) -> ReceiptFacts {
        ReceiptFacts {
            success: self.success,
            cumulative_gas_used: self.cumulative_gas_used,
            logs: Seq::new(self.logs@.len(), |i: int| self.logs@[i]@),
        }
    }
}

/// What a [`BlockOutcome`] says.
pub struct Execution {
    pub receipts: Seq<ReceiptFacts>,
    pub accounts: Seq<AccountChange>,
}

impl View for BlockOutcome {
    type V = Execution;

    open spec fn view(&self) -> Execution {
        Execution {
            receipts: Seq::new(self.receipts@.len(), |i: int| self.receipts@[i]@),
            accounts: self.accounts@,
        }
    }
}

/// What a [`CommittedBlock`] says.
pub struct Block {
    pub number: u64,
    pub hash: B256,
    pub base_fee: Option<u64>,
    pub beneficiary: Address,
    pub transactions: Seq<TxInfo>,
    pub withdrawals: Option<Seq<(Address, u64)>>,
    pub outcome: Option<Execution>,
}

impl View for CommittedBlock {
    type V = Block;

    open spec fn view(&self) -> Block {
        Block {
            number: self.number,
            hash: self.hash,
            base_fee: self.base_fee,
            beneficiary: self.beneficiary,
            transactions: self.transactions@,
            withdrawals: match self.withdrawals {
                Some(w) => Some(w@),
                None => None,
            },
            outcome: match self.outcome {
                Some(o) => Some(o@),
                None => None,
            },
        }
    }
}

/// What came of re-executing a block to capture its value frames.
#[derive(Clone, Debug)]
pub enum Reexecution {
    /// It did not take place: the state before the block could not be read.
    Unavailable,
    /// It was tried and failed.
    Failed,
    Done(Captured),
}

/// What a [`Reexecution`] says.
pub enum Replay {
    Unavailable,
    Failed,
    Done(BlockCapture),
}

impl View for Reexecution {
    type V = Replay;

    open spec fn view(&self) -> Replay {
        match self {
            Reexecution::Unavailable => Replay::Unavailable,
            Reexecution::Failed => Replay::Failed,
            Reexecution::Done(c) => Replay::Done(c@),
        }
    }
}

/// The balance of an account that may not exist.
pub open spec fn balance_of(state: Option<AccountState>) -> nat {
    match state {
        Some(s) => s.balance@,
        None => 0,
    }
}

/// The nonce of an account that may not exist.
pub open spec fn nonce_of(state: Option<AccountState>) -> u64 {
    match state {
        Some(s) => s.nonce,
        None => 0,
    }
}

impl AccountChange {
    pub open spec fn changed(self) -> bool {
        balance_of(self.before) != balance_of(self.after) || nonce_of(self.before) != nonce_of(
            self.after,
        )
    }

    /// Both balances fit in `i128`.
    pub open spec fn readable(self) -> bool {
        balance_of(self.before) <= i128::MAX && balance_of(self.after) <= i128::MAX
    }

    pub open spec fn delta(self) -> i128 {
        (balance_of(self.after) - balance_of(self.before)) as i128
    }
}

/// The first of the changes, from the `k`th on, that is of an address.
pub open spec fn change_from(changes: Seq<AccountChange>, address: Address, k: nat) -> Option<
    AccountChange,
>
    decreases changes.len() - k,
{
    if k >= changes.len() {
        None
    } else if changes[k as int].address == address {
        Some(changes[k as int])
    } else {
        change_from(changes, address, k + 1)
    }
}

/// The change of an address.
pub open spec fn change_of(changes: Seq<AccountChange>, address: Address) -> Option<AccountChange> {
    change_from(changes, address, 0)
}

/// What one block did to an account, from what it and the blocks before it did
/// together: where those before touched the account, it begins as they left it.
pub open spec fn own_change(prior: Seq<AccountChange>, upto: AccountChange) -> AccountChange {
    match change_of(prior, upto.address) {
        Some(p) => AccountChange { before: p.after, ..upto },
        None => upto,
    }
}

impl Execution {
    /// Whether a watched account's balance or nonce changed, so that frames are
    /// needed.
    pub open spec fn concerns(self, watched: Set<Address>) -> bool {
        exists|k: int|
            0 <= k < self.accounts.len() && watched.contains(self.accounts[k].address) && (
            #[trigger] self.accounts[k]).changed()
    }

    /// The balances of every watched account can be read.
    pub open spec fn readable(self, watched: Set<Address>) -> bool {
        forall|k: int|
            0 <= k < self.accounts.len() && watched.contains(self.accounts[k].address) ==> (
            #[trigger] self.accounts[k]).readable()
    }

    /// The observed changes of the watched ones among the first `n` accounts.
    pub open spec fn deltas(self, watched: Set<Address>, n: nat) -> Seq<(Address, i128)>
        decreases n,
    {
        if n == 0 {
            Seq::empty()
        } else {
            let before = self.deltas(watched, (n - 1) as nat);
            let account = self.accounts[n - 1];
            if watched.contains(account.address) {
                before.push((account.address, account.delta()))
            } else {
                before
            }
        }
    }

    /// The logs of the first `n` receipts, each with its transaction's place.
    pub open spec fn placed_logs(self, n: nat) -> Seq<(nat, Log)>
        decreases n,
    {
        if n == 0 {
            Seq::empty()
        } else {
            let logs = self.receipts[n - 1].logs;
            self.placed_logs((n - 1) as nat) + Seq::new(
                logs.len(),
                |j: int| ((n - 1) as nat, logs[j]),
            )
        }
    }

    /// The gas that the transaction at a place used.
    pub open spec fn gas_used(self, k: int) -> u64 {
        let before = if k == 0 {
            0
        } else {
            self.receipts[k - 1].cumulative_gas_used
        };
        if self.receipts[k].cumulative_gas_used > before {
            (self.receipts[k].cumulative_gas_used - before) as u64
        } else {
            0
        }
    }
}

impl Block {
    /// The hash of the transaction at a place, where there is one.
    pub open spec fn tx_hash(self, place: nat) -> Option<B256> {
        if place < self.transactions.len() {
            Some(self.transactions[place as int].hash)
        } else {
            None
        }
    }

    /// The logs of the block, numbered through.
    pub open spec fn logs(self, e: Execution) -> Seq<LogEntry> {
        let placed = e.placed_logs(e.receipts.len());
        Seq::new(
            placed.len(),
            |p: int|
                LogEntry {
                    tx_hash: self.tx_hash(placed[p].0),
                    log_index: p as u64,
                    log: placed[p].1,
                },
        )
    }

    /// How many transactions have a receipt.
    pub open spec fn executed(self, e: Execution) -> nat {
        if self.transactions.len() <= e.receipts.len() {
            self.transactions.len()
        } else {
            e.receipts.len()
        }
    }

    /// What the fee of the transaction at a place is computed from.
    pub open spec fn gas_input(
        self,
        chain_id: u64,
        e: Execution,
        fees: spec_fn(nat) -> Option<U256>,
        k: int,
    ) -> GasInput {
        GasInput {
            chain_id,
            block_number: self.number,
            block_hash: self.hash,
            tx_hash: self.transactions[k].hash,
            tx_from: self.transactions[k].sender,
            gas_used: e.gas_used(k),
            effective_gas_price: self.transactions[k].effective_gas_price,
            l1_fee_wei: fees(k as nat),
        }
    }

    /// The fees of the watched senders among the first `n` transactions.
    pub open spec fn gas_rows(
        self,
        chain_id: u64,
        e: Execution,
        watched: Set<Address>,
        fees: spec_fn(nat) -> Option<U256>,
        n: nat,
    ) -> Seq<GasPaymentRow>
        decreases n,
    {
        if n == 0 {
            Seq::empty()
        } else {
            let before = self.gas_rows(chain_id, e, watched, fees, (n - 1) as nat);
            if watched.contains(self.transactions[n - 1].sender) {
                before.push(attribution::gas_row(self.gas_input(chain_id, e, fees, n - 1)))
            } else {
                before
            }
        }
    }

    /// The price and the gas of each executed transaction.
    pub open spec fn tx_fees(self, e: Execution) -> Seq<(u128, u64)> {
        Seq::new(
            self.executed(e),
            |k: int| (self.transactions[k].effective_gas_price, e.gas_used(k)),
        )
    }

    /// The withdrawals in wei.
    pub open spec fn withdrawals_wei(self) -> Seq<(Address, U256)> {
        match self.withdrawals {
            Some(w) => Seq::new(
                w.len(),
                |i: int| (w[i].0, U256::number((w[i].1 * 1_000_000_000) as nat)),
            ),
            None => Seq::empty(),
        }
    }

    /// The base fee, none being zero.
    pub open spec fn base_fee_wei(self) -> u128 {
        match self.base_fee {
            Some(f) => f as u128,
            None => 0,
        }
    }

    /// The protocol credits of a base-chain block.
    pub open spec fn l1_credits(self, e: Execution, watched: Set<Address>) -> Seq<Credit> {
        system::l1_credits(
            watched,
            self.withdrawals_wei(),
            self.beneficiary,
            self.base_fee_wei(),
            self.tx_fees(e),
        )
    }

    /// The inputs of bookkeeping.
    pub open spec fn inputs(
        self,
        chain_id: u64,
        e: Execution,
        watched: Set<Address>,
        fees: spec_fn(nat) -> Option<U256>,
        credits: Seq<Credit>,
        frames: Seq<FrameEntry>,
    ) -> Inputs {
        Inputs {
            chain_id,
            block_number: self.number,
            block_hash: self.hash,
            watched,
            logs: self.logs(e),
            frames,
            gas: self.gas_rows(chain_id, e, watched, fees, self.executed(e)),
            deltas: e.deltas(watched, e.accounts.len()),
            credits,
        }
    }

    /// No log of a receipt without a transaction is a token transfer of a watched
    /// party.
    pub open spec fn stray_logs_are_irrelevant(self, e: Execution, watched: Set<Address>) -> bool {
        forall|k: int, j: int|
            self.transactions.len() <= k < e.receipts.len() && 0 <= j < e.receipts[k].logs.len()
                ==> !(#[trigger] e.receipts[k].logs[j]).concerns(watched)
    }

    /// Every token transfer of a watched party is in the receipt of a
    /// transaction.
    pub open spec fn transfers_have_txs(self, watched: Set<Address>) -> bool {
        self.outcome matches Some(e) ==> self.stray_logs_are_irrelevant(e, watched)
    }

    /// What becomes of the block, given its protocol credits: without readable
    /// execution nothing; without a watched change its rows need no frames; with
    /// one they need the frames of a re-execution, or go without and are marked.
    pub open spec fn outcome_with(
        self,
        chain_id: u64,
        watched: Set<Address>,
        fees: spec_fn(nat) -> Option<U256>,
        credits: spec_fn(Execution) -> Seq<Credit>,
        replay: Replay,
    ) -> Result<Batch, Failure> {
        match self.outcome {
            None => Err(Failure::Decode { block: self.number }),
            Some(e) => if !e.readable(watched) {
                Err(Failure::Decode { block: self.number })
            } else if !e.concerns(watched) {
                self.inputs(
                    chain_id,
                    e,
                    watched,
                    fees,
                    credits(e),
                    Seq::empty(),
                ).outcome()
            } else {
                match replay {
                    Replay::Failed => Err(Failure::Decode { block: self.number }),
                    Replay::Unavailable => partial_outcome(
                        self.inputs(chain_id, e, watched, fees, credits(e), Seq::empty()),
                    ),
                    Replay::Done(c) => self.inputs(
                        chain_id,
                        e,
                        watched,
                        fees,
                        credits(e),
                        replayed_frames(c),
                    ).outcome(),
                }
            },
        }
    }
}

/// A captured frame as bookkeeping sees it: with the hash of its transaction,
/// whether that failed, and named after its transaction if it is that
/// transaction's own.
pub open spec fn replayed_frame(c: BlockCapture, t: Tagged) -> FrameEntry {
    FrameEntry {
        tx_hash: if t.tx_index < c.tx_hashes.len() {
            c.tx_hashes[t.tx_index as int]
        } else {
            None
        },
        reverted: t.tx_index < c.tx_reverted.len() && c.tx_reverted[t.tx_index as int],
        frame: Frame {
            trace_path: if t.top_level {
                "tx:"@ + text::decimal(t.tx_index)
            } else {
                t.frame.trace_path
            },
            ..t.frame
        },
    }
}

pub open spec fn replayed_frames(c: BlockCapture) -> Seq<FrameEntry> {
    Seq::new(c.frames.len(), |i: int| replayed_frame(c, c.frames[i]))
}

/// The marker of a change of which only the system credits are known; none if
/// they cover it.
pub open spec fn marker(i: Inputs, k: int) -> Seq<UnattributedDeltaRow> {
    let (address, observed) = i.deltas[k];
    let (o, a, r) = reconcile::partial_attribution(
        observed as int,
        i.credited(address, i.credits.len()),
    );
    if r == 0 {
        Seq::empty()
    } else {
        seq![
            UnattributedDeltaRow {
                chain_id: i.chain_id,
                block_number: i.block_number,
                block_hash: i.block_hash,
                address,
                observed_wei: U256::number(o),
                attributed_wei: U256::number(a),
                residual_wei: U256::number(r),
                cause: UnattributedDeltaCause::ParentStateUnavailable,
            },
        ]
    }
}

/// The markers of the watched ones among the first `n` changes.
pub open spec fn markers(i: Inputs, n: nat) -> Seq<UnattributedDeltaRow>
    decreases n,
{
    if n == 0 {
        Seq::empty()
    } else {
        let before = markers(i, (n - 1) as nat);
        if i.watched.contains(i.deltas[n - 1].0) {
            before + marker(i, n - 1)
        } else {
            before
        }
    }
}

/// What becomes of a block without its frames: its other rows, and a marker for
/// each watched change that the system credits do not cover. Nothing is
/// reconciled.
pub open spec fn partial_outcome(i: Inputs) -> Result<Batch, Failure> {
    match i.credit_overflow(0) {
        Some(address) => Err(Failure::ReconcileOverflow { block: i.block_number, address }),
        None => Ok(Batch { unattributed: markers(i, i.deltas.len()), ..i.batch() }),
    }
}

/// Turns what is known of a block, less its frames, into its other rows and the
/// markers of what stays open.
pub fn process_block_without_frames(i: BlockInputs) -> (r: Result<BlockBatch, ProcessingError>)
    requires
        i@.transfers_have_txs(),
    ensures
        exex::outcome_view(r) == partial_outcome(i@),
{
    if let Some(address) = exex::credit_overflow_of(&i) {
        return Err(ProcessingError::ReconcileOverflow { block: i.block_number, address });
    }
    let erc20 = exex::erc20_rows_of(&i);
    let mut eth = exex::frame_rows_of(&i);
    exex::push_system_rows(&i, &mut eth);
    let mut unattributed: Vec<UnattributedDeltaRow> = Vec::new();
    let mut k: usize = 0;
    while k < i.account_deltas.len()
        invariant
            k <= i.account_deltas@.len(),
            i@.credit_overflow(0) is None,
            unattributed@ == markers(i@, k as nat),
        decreases i.account_deltas@.len() - k,
    {
        let (address, observed) = i.account_deltas[k];
        if i.watched.contains(&address) {
            let credited: i128 = exex::credited_of(&i, address);
            let (o, a, rest) = reconcile::skip_mode_attribution(observed, credited);
            if rest != 0 {
                let row = UnattributedDeltaRow {
                    chain_id: i.chain_id,
                    block_number: i.block_number,
                    block_hash: i.block_hash,
                    address,
                    observed_wei: U256::from_u128(o),
                    attributed_wei: U256::from_u128(a),
                    residual_wei: U256::from_u128(rest),
                    cause: UnattributedDeltaCause::ParentStateUnavailable,
                };
                proof {
                    row.observed_wei.lemma_number();
                    row.attributed_wei.lemma_number();
                    row.residual_wei.lemma_number();
                }
                unattributed.push(row);
            }
            proof {
                assert(unattributed@ =~= markers(i@, k as nat) + marker(i@, k as int));
            }
        }
        k += 1;
    }
    let batch = BlockBatch {
        chain_id: i.chain_id,
        block_number: i.block_number,
        block_hash: i.block_hash,
        eth,
        erc20,
        gas: i.gas,
        unattributed,
    };
    Ok(batch)
}

fn find_change(changes: &[AccountChange], address: Address) -> (r: Option<AccountChange>)
    ensures
        r == change_of(changes@, address),
{
    let mut k: usize = 0;
    while k < changes.len()
        invariant
            k <= changes@.len(),
            change_of(changes@, address) == change_from(changes@, address, k as nat),
        decreases changes@.len() - k,
    {
        if changes[k].address == address {
            return Some(changes[k]);
        }
        k += 1;
    }
    None
}

/// What one block did to the accounts, from what the blocks before it did, and
/// what they and it did together.
pub fn own_changes(prior: &[AccountChange], upto: &[AccountChange]) -> (r: Vec<AccountChange>)
    ensures
        r@ == Seq::new(upto@.len(), |k: int| own_change(prior@, upto@[k])),
{
    let mut changes: Vec<AccountChange> = Vec::new();
    let mut k: usize = 0;
    while k < upto.len()
        invariant
            k <= upto@.len(),
            changes@ == Seq::new(k as nat, |j: int| own_change(prior@, upto@[j])),
        decreases upto@.len() - k,
    {
        let change = upto[k];
        let before = match find_change(prior, change.address) {
            Some(p) => p.after,
            None => change.before,
        };
        changes.push(AccountChange { address: change.address, before, after: change.after });
        k += 1;
    }
    changes
}

/// A log with the same contents.
fn copy_log(log: &RawLog) -> (r: RawLog)
    ensures
        r@ == log@,
{
    let topics = log.topics.clone();
    let data = log.data.clone();
    proof {
        assert(topics@ =~= log.topics@);
        assert(data@ =~= log.data@);
    }
    RawLog { address: log.address, topics, data }
}

/// A frame with the same contents under another name.
fn renamed_frame(frame: &CapturedFrame, trace_path: String) -> (r: CapturedFrame)
    ensures
        r@ == (Frame { trace_path: trace_path@, ..frame@ }),
{
    CapturedFrame {
        from: frame.from,
        to: frame.to,
        value: frame.value,
        kind: frame.kind,
        trace_path,
    }
}

/// The logs of a block, numbered through.
fn collect_logs(block: &CommittedBlock, outcome: &BlockOutcome) -> (r: Vec<
    (Option<B256>, u64, RawLog),
>)
    ensures
        exex::logs_view(r@) == block@.logs(outcome@),
{
    let ghost e = outcome@;
    let mut logs: Vec<(Option<B256>, u64, RawLog)> = Vec::new();
    let mut k: usize = 0;
    while k < outcome.receipts.len()
        invariant
            k <= outcome.receipts@.len(),
            e == outcome@,
            logs@.len() == e.placed_logs(k as nat).len(),
            forall|p: int|
                #![trigger logs@[p]]
                0 <= p < logs@.len() ==> logs@[p].0 == block@.tx_hash(e.placed_logs(k as nat)[p].0)
                    && logs@[p].1 == p && logs@[p].2@ == e.placed_logs(k as nat)[p].1,
        decreases outcome.receipts@.len() - k,
    {
        let tx_hash = if k < block.transactions.len() {
            Some(block.transactions[k].hash)
        } else {
            None
        };
        let receipt = &outcome.receipts[k];
        let ghost before = e.placed_logs(k as nat);
        let ghost rlogs = e.receipts[k as int].logs;
        assert(e.receipts[k as int] == receipt@);
        let mut j: usize = 0;
        while j < receipt.logs.len()
            invariant
                j <= receipt.logs@.len() == rlogs.len(),
                rlogs == receipt@.logs,
                tx_hash == block@.tx_hash(k as nat),
                logs@.len() == before.len() + j,
                forall|p: int|
                    #![trigger logs@[p]]
                    0 <= p < before.len() ==> logs@[p].0 == block@.tx_hash(before[p].0)
                        && logs@[p].1 == p && logs@[p].2@ == before[p].1,
                forall|p: int|
                    #![trigger logs@[p]]
                    before.len() <= p < logs@.len() ==> logs@[p].0 == tx_hash && logs@[p].1 == p
                        && logs@[p].2@ == rlogs[p - before.len()],
            decreases receipt.logs@.len() - j,
        {
            let index: u64 = logs.len() as u64;
            logs.push((tx_hash, index, copy_log(&receipt.logs[j])));
            j += 1;
        }
        proof {
            let after = e.placed_logs((k + 1) as nat);
            let added = Seq::new(rlogs.len(), |j: int| (k as nat, rlogs[j]));
            assert(after == before + added);
            assert forall|p: int| #![trigger logs@[p]] 0 <= p < logs@.len() implies logs@[p].0
                == block@.tx_hash(after[p].0) && logs@[p].1 == p && logs@[p].2@ == after[p].1 by {
                if p < before.len() {
                    assert(after[p] == before[p]);
                } else {
                    assert(after[p] == added[p - before.len()]);
                }
            }
        }
        k += 1;
    }
    proof {
        assert(exex::logs_view(logs@) =~= block@.logs(e));
    }
    logs
}

fn balance(state: &Option<AccountState>) -> (r: U256)
    ensures
        r@ == balance_of(*state),
{
    match state {
        Some(s) => s.balance,
        None => U256::zero(),
    }
}

fn nonce(state: &Option<AccountState>) -> (r: u64)
    ensures
        r == nonce_of(*state),
{
    match state {
        Some(s) => s.nonce,
        None => 0,
    }
}

/// The observed changes of the watched accounts, unless a balance cannot be
/// read.
fn collect_deltas(outcome: &BlockOutcome, watched: &WatchedSet) -> (r: Option<
    Vec<(Address, i128)>,
>)
    ensures
        match r {
            Some(d) => outcome@.readable(watched@) && d@ == outcome@.deltas(
                watched@,
                outcome@.accounts.len(),
            ),
            None => !outcome@.readable(watched@),
        },
{
    let mut deltas: Vec<(Address, i128)> = Vec::new();
    let mut k: usize = 0;
    while k < outcome.accounts.len()
        invariant
            k <= outcome.accounts@.len(),
            deltas@ == outcome@.deltas(watched@, k as nat),
            forall|j: int|
                0 <= j < k && watched@.contains(outcome@.accounts[j].address) ==> (
                #[trigger] outcome@.accounts[j]).readable(),
        decreases outcome.accounts@.len() - k,
    {
        let account = &outcome.accounts[k];
        assert(outcome@.accounts[k as int] == *account);
        if watched.contains(&account.address) {
            let after: i128 = match balance(&account.after).to_i128() {
                Some(v) => v,
                None => {
                    assert(!outcome@.accounts[k as int].readable());
                    return None;
                },
            };
            let before: i128 = match balance(&account.before).to_i128() {
                Some(v) => v,
                None => {
                    assert(!outcome@.accounts[k as int].readable());
                    return None;
                },
            };
            deltas.push((account.address, after - before));
        }
        k += 1;
    }
    Some(deltas)
}

/// Whether a block's value frames are needed: whether the balance or the nonce
/// of a watched account changed in it. Where not, its parent state need not be
/// asked for.
pub fn reexecution_needed(block: &CommittedBlock, watched: &WatchedSet) -> (r: bool)
    ensures
        r == (block@.outcome matches Some(e) && e.concerns(watched@)),
{
    match &block.outcome {
        Some(outcome) => watched_changed(outcome, watched),
        None => false,
    }
}

fn watched_changed(outcome: &BlockOutcome, watched: &WatchedSet) -> (r: bool)
    ensures
        r == outcome@.concerns(watched@),
{
    let mut k: usize = 0;
    while k < outcome.accounts.len()
        invariant
            k <= outcome.accounts@.len(),
            forall|j: int|
                0 <= j < k && watched@.contains(outcome@.accounts[j].address) ==> !(
                #[trigger] outcome@.accounts[j]).changed(),
        decreases outcome.accounts@.len() - k,
    {
        let account = &outcome.accounts[k];
        if watched.contains(&account.address) {
            let before = balance(&account.before);
            let after = balance(&account.after);
            proof {
                if before@ == after@ {
                    before.lemma_injective(after);
                }
            }
            if before != after || nonce(&account.before) != nonce(&account.after) {
                assert(outcome@.accounts[k as int].changed());
                return true;
            }
        }
        k += 1;
    }
    false
}

/// Captured frames as bookkeeping sees them.
fn collect_frames(captured: &Captured) -> (r: Vec<(Option<B256>, bool, CapturedFrame)>)
    ensures
        exex::frame_entries_view(r@) == replayed_frames(captured@),
{
    let mut frames: Vec<(Option<B256>, bool, CapturedFrame)> = Vec::new();
    let mut k: usize = 0;
    while k < captured.frames.len()
        invariant
            k <= captured.frames@.len(),
            frames@.len() == k,
            forall|p: int|
                #![trigger frames@[p]]
                0 <= p < k ==> frames@[p].0 == replayed_frames(captured@)[p].tx_hash
                    && frames@[p].1 == replayed_frames(captured@)[p].reverted && frames@[p].2@
                    == replayed_frames(captured@)[p].frame,
        decreases captured.frames@.len() - k,
    {
        let t = &captured.frames[k];
        let tx_hash = if t.tx_index < captured.tx_hashes.len() {
            captured.tx_hashes[t.tx_index]
        } else {
            None
        };
        let reverted = t.tx_index < captured.tx_reverted.len() && captured.tx_reverted[t.tx_index];
        let trace_path = if t.top_level {
            let index = text::decimal_text(t.tx_index as u128);
            text::joined("tx:", index.as_str())
        } else {
            t.frame.trace_path.clone()
        };
        let frame = renamed_frame(&t.frame, trace_path);
        proof {
            assert(captured@.frames[k as int] == t@);
        }
        frames.push((tx_hash, reverted, frame));
        k += 1;
    }
    proof {
        assert(exex::frame_entries_view(frames@) =~= replayed_frames(captured@));
    }
    frames
}

/// The gas that the transaction at a place used.
pub(crate) fn gas_used_at(outcome: &BlockOutcome, k: usize) -> (r: u64)
    requires
        k < outcome@.receipts.len(),
    ensures
        r == outcome@.gas_used(k as int),
{
    let before: u64 = if k == 0 {
        0
    } else {
        outcome.receipts[k - 1].cumulative_gas_used
    };
    outcome.receipts[k].cumulative_gas_used.saturating_sub(before)
}

/// The fees of the watched senders of a block.
fn collect_gas<S: StackAdapter>(
    chain_id: u64,
    block: &CommittedBlock,
    outcome: &BlockOutcome,
    watched: &WatchedSet,
    adapter: &S,
) -> (r: Vec<GasPaymentRow>)
    ensures
        r@ == block@.gas_rows(
            chain_id,
            outcome@,
            watched@,
            |k: nat| adapter.l1_fee(k),
            block@.executed(outcome@),
        ),
{
    let ghost fees = |k: nat| adapter.l1_fee(k);
    let mut gas: Vec<GasPaymentRow> = Vec::new();
    let mut k: usize = 0;
    while k < block.transactions.len() && k < outcome.receipts.len()
        invariant
            k <= block.transactions@.len(),
            k <= outcome.receipts@.len(),
            fees == (|k: nat| adapter.l1_fee(k)),
            gas@ == block@.gas_rows(chain_id, outcome@, watched@, fees, k as nat),
        decreases block.transactions@.len() - k,
    {
        let gas_used: u64 = gas_used_at(outcome, k);
        let tx = &block.transactions[k];
        if watched.contains(&tx.sender) {
            let l1_fee = adapter.l1_data_fee_wei(k);
            gas.push(
                attribution::compute_gas_payment(
                    GasInput {
                        chain_id,
                        block_number: block.number,
                        block_hash: block.hash,
                        tx_hash: tx.hash,
                        tx_from: tx.sender,
                        gas_used,
                        effective_gas_price: tx.effective_gas_price,
                        l1_fee_wei: l1_fee,
                    },
                ),
            );
        }
        k += 1;
    }
    gas
}

/// The price and the gas of each executed transaction.
fn collect_tx_fees(block: &CommittedBlock, outcome: &BlockOutcome) -> (r: Vec<(u128, u64)>)
    ensures
        r@ == block@.tx_fees(outcome@),
{
    let mut fees: Vec<(u128, u64)> = Vec::new();
    let mut k: usize = 0;
    while k < block.transactions.len() && k < outcome.receipts.len()
        invariant
            k <= block.transactions@.len(),
            k <= outcome.receipts@.len(),
            fees@ == block@.tx_fees(outcome@).take(k as int),
        decreases block.transactions@.len() - k,
    {
        fees.push((block.transactions[k].effective_gas_price, gas_used_at(outcome, k)));
        proof {
            let all = block@.tx_fees(outcome@);
            assert(all.take(k + 1) =~= all.take(k as int).push(all[k as int]));
        }
        k += 1;
    }
    proof {
        assert(block@.tx_fees(outcome@).take(k as int) =~= block@.tx_fees(outcome@));
    }
    fees
}

/// A number of gwei in wei.
fn gwei_to_wei(gwei: u64) -> (r: U256)
    ensures
        r == U256::number((gwei * 1_000_000_000) as nat),
{
    let wei = attribution::fee(gwei, 1_000_000_000);
    proof {
        wei.lemma_number();
    }
    wei
}

/// The withdrawals of a block in wei.
fn collect_withdrawals(block: &CommittedBlock) -> (r: Vec<(Address, U256)>)
    ensures
        r@ == block@.withdrawals_wei(),
{
    let mut out: Vec<(Address, U256)> = Vec::new();
    if let Some(w) = &block.withdrawals {
        let mut k: usize = 0;
        while k < w.len()
            invariant
                k <= w@.len(),
                out@ == Seq::new(
                    k as nat,
                    |i: int| (w@[i].0, U256::number((w@[i].1 * 1_000_000_000) as nat)),
                ),
            decreases w@.len() - k,
        {
            out.push((w[k].0, gwei_to_wei(w[k].1)));
            k += 1;
        }
    }
    assert(out@ =~= block@.withdrawals_wei());
    out
}

/// The base fee of a block, none being zero.
pub(crate) fn base_fee_of(block: &CommittedBlock) -> (r: u128)
    ensures
        r == block@.base_fee_wei(),
{
    match block.base_fee {
        Some(f) => f as u128,
        None => 0,
    }
}

/// Takes a block with its protocol credits through bookkeeping.
pub(crate) fn finish_block<S: StackAdapter>(
    chain_id: u64,
    block: &CommittedBlock,
    outcome: &BlockOutcome,
    watched: &WatchedSet,
    adapter: &S,
    credits: Vec<SystemCredit>,
    reexecution: &Reexecution,
) -> (r: Result<BlockBatch, ProcessingError>)
    requires
        block@.outcome == Some(outcome@),
        block@.transfers_have_txs(watched@),
    ensures
        exex::outcome_view(r) == block@.outcome_with(
            chain_id,
            watched@,
            |k: nat| adapter.l1_fee(k),
            |e: Execution| system::credits_view(credits@),
            reexecution@,
        ),
{
    let ghost fees = |k: nat| adapter.l1_fee(k);
    let ghost e = outcome@;
    let erc20_logs = collect_logs(block, outcome);
    let account_deltas = match collect_deltas(outcome, watched) {
        Some(d) => d,
        None => return Err(ProcessingError::Decode { block: block.number }),
    };
    let gas = collect_gas(chain_id, block, outcome, watched, adapter);
    let needed = watched_changed(outcome, watched);
    let mut frames: Vec<(Option<B256>, bool, CapturedFrame)> = Vec::new();
    let mut partial = false;
    assert(exex::frame_entries_view(frames@) =~= Seq::empty());
    if needed {
        match reexecution {
            Reexecution::Done(captured) => {
                frames = collect_frames(captured);
            },
            Reexecution::Failed => {
                return Err(ProcessingError::Decode { block: block.number });
            },
            Reexecution::Unavailable => {
                partial = true;
            },
        }
    }
    let inputs = BlockInputs {
        chain_id,
        block_number: block.number,
        block_hash: block.hash,
        watched: watched.clone(),
        erc20_logs,
        frames,
        gas,
        account_deltas,
        system_signed: credits,
    };
    proof {
        let fv = exex::frame_entries_view(frames@);
        assert(inputs@ == block@.inputs(
            chain_id,
            e,
            watched@,
            fees,
            system::credits_view(credits@),
            fv,
        ));
        lemma_transfers_have_txs(block@, e, watched@);
    }
    if partial {
        process_block_without_frames(inputs)
    } else {
        exex::process_block(inputs)
    }
}

/// A placed log stands in the receipt at its place.
proof fn lemma_placed(e: Execution, n: nat, p: int)
    requires
        n <= e.receipts.len(),
        0 <= p < e.placed_logs(n).len(),
    ensures
        e.placed_logs(n)[p].0 < n,
        exists|j: int|
            0 <= j < e.receipts[e.placed_logs(n)[p].0 as int].logs.len()
                && #[trigger] e.receipts[e.placed_logs(n)[p].0 as int].logs[j] == e.placed_logs(
                n,
            )[p].1,
    decreases n,
{
    if n > 0 {
        let before = e.placed_logs((n - 1) as nat);
        let logs = e.receipts[n - 1].logs;
        if p < before.len() {
            lemma_placed(e, (n - 1) as nat, p);
            assert(e.placed_logs(n)[p] == before[p]);
        } else {
            let j = p - before.len();
            assert(e.placed_logs(n)[p] == ((n - 1) as nat, logs[j]));
            assert(e.receipts[n - 1].logs[j] == logs[j]);
        }
    }
}

pub(crate) proof fn lemma_transfers_have_txs(block: Block, e: Execution, watched: Set<Address>)
    requires
        block.outcome == Some(e),
        block.transfers_have_txs(watched),
    ensures
        forall|k: int|
            0 <= k < block.logs(e).len() && (#[trigger] block.logs(e)[k]).log.concerns(watched)
                ==> block.logs(e)[k].tx_hash is Some,
{
    assert forall|k: int|
        0 <= k < block.logs(e).len() && (#[trigger] block.logs(e)[k]).log.concerns(
            watched,
        ) implies block.logs(e)[k].tx_hash is Some by {
        let n = e.receipts.len();
        lemma_placed(e, n, k);
        let place = e.placed_logs(n)[k].0 as int;
        let j = choose|j: int|
            0 <= j < e.receipts[place].logs.len() && #[trigger] e.receipts[place].logs[j]
                == e.placed_logs(n)[k].1;
        assert(e.receipts[place].logs[j].concerns(watched));
    }
}

/// What becomes of a committed block of a base chain. The re-execution is looked
/// at only where [`reexecution_needed`] says so; if it could not take place, the
/// block is recorded without its frames and what stays open is marked.
pub fn process_committed_block_inner<S: StackAdapter>(
    chain_id: u64,
    block: &CommittedBlock,
    cfg: &PassbookConfig,
    adapter: &S,
    reexecution: &Reexecution,
) -> (r: Result<BlockBatch, ProcessingError>)
    requires
        block@.transfers_have_txs(cfg.watched@),
    ensures
        exex::outcome_view(r) == block@.outcome_with(
            chain_id,
            cfg.watched@,
            |k: nat| adapter.l1_fee(k),
            |e: Execution| block@.l1_credits(e, cfg.watched@),
            reexecution@,
        ),
{
    let outcome = match &block.outcome {
        Some(o) => o,
        None => return Err(ProcessingError::Decode { block: block.number }),
    };
    let withdrawals = collect_withdrawals(block);
    let tx_fees = collect_tx_fees(block, outcome);
    let credits = system::l1_system_credits(
        &cfg.watched,
        withdrawals.as_slice(),
        block.beneficiary,
        base_fee_of(block),
        tx_fees.as_slice(),
    );
    finish_block(chain_id, block, outcome, &cfg.watched, adapter, credits, reexecution)
}

} // verus!
