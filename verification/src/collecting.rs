//! What is collected from a committed block, and that nothing of it is lost on the
//! way to the block's rows.

use vstd::prelude::*;
use crate::booking;
use crate::committed;
use crate::committed::{AccountChange, Block, Execution, Replay};
use crate::completeness;
use crate::exex::{Failure, FrameEntry, Inputs};
use crate::inspector::Frame;
use crate::ledger::writer::Batch;
use crate::model::{Direction, Erc20TransferRow, EthTransfer, GasPaymentRow};
use crate::primitives;
use crate::primitives::{Address, B256, U256};
use crate::reexec;
use crate::reexec::{BlockCapture, TaggedCapture};
use crate::system::Credit;
use crate::text;

verus! {

/// The gas of a block up to and with a receipt; none before the first.
pub open spec fn gas_upto(e: Execution, k: int) -> nat {
    if k < 0 {
        0
    } else {
        e.receipts[k].cumulative_gas_used as nat
    }
}

/// The gas of a block never falls from one receipt to the next.
pub open spec fn gas_never_falls(e: Execution) -> bool {
    forall|k: int| 0 <= k < e.receipts.len() ==> gas_upto(e, k - 1) <= #[trigger] gas_upto(e, k)
}

/// The gas that fee tuples charge for.
pub open spec fn gas_of(txs: Seq<(u128, u64)>) -> nat
    decreases txs.len(),
{
    if txs.len() == 0 {
        0
    } else {
        gas_of(txs.drop_last()) + txs.last().1 as nat
    }
}

/// Each transaction counts with the gas that it used itself: what the block used up
/// to and with it, less what it used before.
pub proof fn a_transaction_counts_with_its_own_gas(e: Execution, k: int)
    requires
        0 <= k < e.receipts.len(),
    ensures
        gas_upto(e, k - 1) <= gas_upto(e, k) ==> gas_upto(e, k - 1) + e.gas_used(k) == gas_upto(
            e,
            k,
        ),
        gas_upto(e, k - 1) >= gas_upto(e, k) ==> e.gas_used(k) == 0,
{
}

proof fn lemma_tx_fees_gas(block: Block, e: Execution, n: nat)
    requires
        gas_never_falls(e),
        n <= block.executed(e),
    ensures
        gas_of(block.tx_fees(e).take(n as int)) == gas_upto(e, n - 1),
    decreases n,
{
    if n > 0 {
        let m = (n - 1) as nat;
        lemma_tx_fees_gas(block, e, m);
        assert(block.tx_fees(e).take(n as int).drop_last() =~= block.tx_fees(e).take(m as int));
        assert(gas_upto(e, m - 1) <= gas_upto(e, m as int));
    }
}

/// The amounts of gas from which the block reward is computed add up to the gas of
/// the block, and each is at its own transaction's price.
pub proof fn reward_gas_adds_up_to_the_gas_of_the_block(block: Block, e: Execution)
    requires
        gas_never_falls(e),
    ensures
        gas_of(block.tx_fees(e)) == gas_upto(e, block.executed(e) - 1),
        block.tx_fees(e).len() == block.executed(e),
        forall|k: int|
            0 <= k < block.executed(e) ==> (#[trigger] block.tx_fees(e)[k]).0
                == block.transactions[k].effective_gas_price && gas_upto(e, k - 1)
                + block.tx_fees(e)[k].1 == gas_upto(e, k),
{
    lemma_tx_fees_gas(block, e, block.executed(e));
    assert(block.tx_fees(e).take(block.executed(e) as int) =~= block.tx_fees(e));
    assert forall|k: int| 0 <= k < block.executed(e) implies (#[trigger] block.tx_fees(e)[k]).0
        == block.transactions[k].effective_gas_price && gas_upto(e, k - 1) + block.tx_fees(e)[k].1
        == gas_upto(e, k) by {
        assert(gas_upto(e, k - 1) <= gas_upto(e, k));
    }
}

/// As many transactions count as have a receipt.
pub proof fn transactions_with_receipts_count(block: Block, e: Execution)
    ensures
        block.executed(e) <= block.transactions.len(),
        block.executed(e) <= e.receipts.len(),
        block.executed(e) == block.transactions.len() || block.executed(e) == e.receipts.len(),
{
}

/// Whether a fee row is of a transaction, with that transaction's own gas and price,
/// and adds up.
pub open spec fn tells_of_fee(
    row: GasPaymentRow,
    block: Block,
    chain_id: u64,
    e: Execution,
    fees: spec_fn(nat) -> Option<U256>,
    k: int,
) -> bool {
    let tx = block.transactions[k];
    &&& row.chain_id == chain_id
    &&& row.block_number == block.number
    &&& row.block_hash == block.hash
    &&& row.tx_hash == tx.hash
    &&& row.address == tx.sender
    &&& row.effective_gas_price == tx.effective_gas_price
    &&& gas_upto(e, k - 1) <= gas_upto(e, k) ==> gas_upto(e, k - 1) + row.gas_used == gas_upto(e, k)
    &&& row.l1_fee_wei == fees(k as nat)
    &&& row.l2_fee_wei@ == row.gas_used * tx.effective_gas_price
    &&& row.total_wei@ == (row.l2_fee_wei@ + match fees(k as nat) {
        Some(f) => f@,
        None => 0,
    }) % primitives::two_256()
}

/// Whether fee rows hold one of a transaction.
pub open spec fn has_fee_row(
    rows: Seq<GasPaymentRow>,
    block: Block,
    chain_id: u64,
    e: Execution,
    fees: spec_fn(nat) -> Option<U256>,
    k: int,
) -> bool {
    exists|r: int|
        0 <= r < rows.len() && tells_of_fee(#[trigger] rows[r], block, chain_id, e, fees, k)
}

proof fn lemma_one_fee(
    block: Block,
    chain_id: u64,
    e: Execution,
    fees: spec_fn(nat) -> Option<U256>,
    k: int,
)
    requires
        0 <= k < block.executed(e),
    ensures
        tells_of_fee(
            crate::attribution::gas_row(block.gas_input(chain_id, e, fees, k)),
            block,
            chain_id,
            e,
            fees,
            k,
        ),
{
    let g = block.gas_input(chain_id, e, fees, k);
    let l2 = (g.gas_used * g.effective_gas_price) as nat;
    assert(0 <= g.gas_used * g.effective_gas_price <= 0xffff_ffff_ffff_ffff
        * 0xffff_ffff_ffff_ffff_ffff_ffff_ffff_ffff) by (nonlinear_arith)
        requires
            0 <= g.gas_used <= 0xffff_ffff_ffff_ffff,
            0 <= g.effective_gas_price <= 0xffff_ffff_ffff_ffff_ffff_ffff_ffff_ffff,
    ;
    U256::lemma_number_of(l2);
    U256::lemma_number_of(
        (l2 + crate::attribution::or_zero(g.l1_fee_wei)) as nat % primitives::two_256(),
    );
}

proof fn lemma_fee_rows(
    block: Block,
    chain_id: u64,
    e: Execution,
    watched: Set<Address>,
    fees: spec_fn(nat) -> Option<U256>,
    n: nat,
)
    requires
        n <= block.executed(e),
    ensures
        ({
            let rows = block.gas_rows(chain_id, e, watched, fees, n);
            &&& forall|r: int|
                0 <= r < rows.len() ==> watched.contains((#[trigger] rows[r]).address) && exists|
                    k: int,
                |
                    0 <= k < n && #[trigger] tells_of_fee(rows[r], block, chain_id, e, fees, k)
            &&& forall|k: int|
                0 <= k < n && watched.contains((#[trigger] block.transactions[k]).sender)
                    ==> has_fee_row(rows, block, chain_id, e, fees, k)
        }),
    decreases n,
{
    if n > 0 {
        let m = n - 1;
        lemma_fee_rows(block, chain_id, e, watched, fees, m as nat);
        lemma_one_fee(block, chain_id, e, fees, m);
        let before = block.gas_rows(chain_id, e, watched, fees, m as nat);
        let rows = block.gas_rows(chain_id, e, watched, fees, n);
        assert forall|r: int| 0 <= r < rows.len() implies watched.contains(
            (#[trigger] rows[r]).address,
        ) && exists|k: int|
            0 <= k < n && #[trigger] tells_of_fee(rows[r], block, chain_id, e, fees, k) by {
            if r < before.len() {
                assert(rows[r] == before[r]);
                let k = choose|k: int|
                    0 <= k < m && #[trigger] tells_of_fee(before[r], block, chain_id, e, fees, k);
                assert(tells_of_fee(rows[r], block, chain_id, e, fees, k));
            } else {
                assert(tells_of_fee(rows[r], block, chain_id, e, fees, m));
            }
        }
        assert forall|k: int|
            0 <= k < n && watched.contains(
                (#[trigger] block.transactions[k]).sender,
            ) implies has_fee_row(rows, block, chain_id, e, fees, k) by {
            if k < m {
                let r = choose|r: int|
                    0 <= r < before.len() && tells_of_fee(
                        #[trigger] before[r],
                        block,
                        chain_id,
                        e,
                        fees,
                        k,
                    );
                assert(rows[r] == before[r]);
            } else {
                assert(tells_of_fee(rows[before.len() as int], block, chain_id, e, fees, k));
            }
        }
    }
}

/// Where the logs of a receipt begin among those of its block.
pub open spec fn logs_before(e: Execution, r: nat) -> nat
    decreases r,
{
    if r == 0 {
        0
    } else {
        logs_before(e, (r - 1) as nat) + e.receipts[r - 1].logs.len()
    }
}

proof fn lemma_placed_len(e: Execution, n: nat)
    ensures
        e.placed_logs(n).len() == logs_before(e, n),
    decreases n,
{
    if n > 0 {
        lemma_placed_len(e, (n - 1) as nat);
    }
}

proof fn lemma_placed_at(e: Execution, n: nat, r: int, j: int)
    requires
        n <= e.receipts.len(),
        0 <= r < n,
        0 <= j < e.receipts[r].logs.len(),
    ensures
        logs_before(e, r as nat) + j < e.placed_logs(n).len(),
        e.placed_logs(n)[logs_before(e, r as nat) + j] == (r as nat, e.receipts[r].logs[j]),
    decreases n,
{
    let m = (n - 1) as nat;
    lemma_placed_len(e, m);
    if r < m {
        lemma_placed_at(e, m, r, j);
    }
}

/// Every log of every receipt is collected, in order and numbered through the block,
/// with its own transaction; and nothing else is.
pub proof fn every_log_is_collected(block: Block, e: Execution)
    ensures
        block.logs(e).len() == logs_before(e, e.receipts.len()),
        forall|r: int, j: int|
            0 <= r < e.receipts.len() && 0 <= j < e.receipts[r].logs.len() ==> {
                let entry = block.logs(e)[logs_before(e, r as nat) + j];
                &&& entry.log == #[trigger] e.receipts[r].logs[j]
                &&& entry.log_index == (logs_before(e, r as nat) + j) as u64
                &&& r < block.transactions.len() ==> entry.tx_hash == Some(
                    block.transactions[r].hash,
                )
                &&& r >= block.transactions.len() ==> entry.tx_hash is None
            },
{
    lemma_placed_len(e, e.receipts.len());
    assert forall|r: int, j: int|
        0 <= r < e.receipts.len() && 0 <= j < e.receipts[r].logs.len() implies {
            let entry = block.logs(e)[logs_before(e, r as nat) + j];
            &&& entry.log == #[trigger] e.receipts[r].logs[j]
            &&& entry.log_index == (logs_before(e, r as nat) + j) as u64
            &&& r < block.transactions.len() ==> entry.tx_hash == Some(block.transactions[r].hash)
            &&& r >= block.transactions.len() ==> entry.tx_hash is None
        } by {
        lemma_placed_at(e, e.receipts.len(), r, j);
    }
}

/// Whether observed changes hold that of an account: its balance after the block
/// less its balance before, an absent account having none.
pub open spec fn has_change(deltas: Seq<(Address, i128)>, a: AccountChange) -> bool {
    exists|d: int|
        0 <= d < deltas.len() && #[trigger] deltas[d] == (a.address, change_of_balance(a) as i128)
}

/// The balance of an account after a block less that before.
pub open spec fn change_of_balance(a: AccountChange) -> int {
    (match a.after {
        Some(s) => s.balance@ as int,
        None => 0,
    }) - (match a.before {
        Some(s) => s.balance@ as int,
        None => 0,
    })
}

proof fn lemma_deltas(e: Execution, watched: Set<Address>, n: nat)
    requires
        n <= e.accounts.len(),
    ensures
        forall|k: int|
            0 <= k < n && watched.contains((#[trigger] e.accounts[k]).address) ==> has_change(
                e.deltas(watched, n),
                e.accounts[k],
            ),
        forall|d: int|
            0 <= d < e.deltas(watched, n).len() ==> watched.contains(
                (#[trigger] e.deltas(watched, n)[d]).0,
            ) && exists|k: int|
                0 <= k < n && (#[trigger] e.accounts[k]).address == e.deltas(watched, n)[d].0
                    && e.deltas(watched, n)[d].1 == change_of_balance(e.accounts[k]) as i128,
    decreases n,
{
    if n > 0 {
        let m = n - 1;
        lemma_deltas(e, watched, m as nat);
        let before = e.deltas(watched, m as nat);
        let after = e.deltas(watched, n);
        assert forall|k: int|
            0 <= k < n && watched.contains((#[trigger] e.accounts[k]).address) implies has_change(
            after,
            e.accounts[k],
        ) by {
            if k < m {
                let d = choose|d: int|
                    0 <= d < before.len() && #[trigger] before[d] == (
                        e.accounts[k].address,
                        change_of_balance(e.accounts[k]) as i128,
                    );
                assert(after[d] == before[d]);
            } else {
                assert(after[before.len() as int] == (
                    e.accounts[k].address,
                    change_of_balance(e.accounts[k]) as i128,
                ));
            }
        }
        assert forall|d: int| 0 <= d < after.len() implies watched.contains(
            (#[trigger] after[d]).0,
        ) && exists|k: int|
            0 <= k < n && (#[trigger] e.accounts[k]).address == after[d].0 && after[d].1
                == change_of_balance(e.accounts[k]) as i128 by {
            if d < before.len() {
                assert(after[d] == before[d]);
                let k = choose|k: int|
                    0 <= k < m && (#[trigger] e.accounts[k]).address == before[d].0 && before[d].1
                        == change_of_balance(e.accounts[k]) as i128;
                assert(e.accounts[k].address == after[d].0);
            } else {
                assert(e.accounts[m].address == after[d].0);
            }
        }
    }
}

/// The observed changes are those of the watched accounts: for each its balance after
/// the block less that before.
pub proof fn every_watched_change_is_observed(e: Execution, watched: Set<Address>)
    ensures
        ({
            let deltas = e.deltas(watched, e.accounts.len());
            &&& forall|k: int|
                0 <= k < e.accounts.len() && watched.contains((#[trigger] e.accounts[k]).address)
                    ==> has_change(deltas, e.accounts[k])
            &&& forall|d: int|
                0 <= d < deltas.len() ==> watched.contains((#[trigger] deltas[d]).0) && exists|
                    k: int,
                |
                    0 <= k < e.accounts.len() && (#[trigger] e.accounts[k]).address == deltas[d].0
                        && deltas[d].1 == change_of_balance(e.accounts[k]) as i128
        }),
{
    lemma_deltas(e, watched, e.accounts.len());
}

/// Frames are needed exactly where the balance or the nonce of a watched account is
/// another after the block, an absent account having neither.
pub proof fn frames_are_needed_where_a_watched_account_changed(e: Execution, watched: Set<Address>)
    ensures
        e.concerns(watched) <==> exists|k: int|
            0 <= k < e.accounts.len() && watched.contains((#[trigger] e.accounts[k]).address) && (
            change_of_balance(e.accounts[k]) != 0 || (match e.accounts[k].after {
                Some(s) => s.nonce,
                None => 0,
            }) != (match e.accounts[k].before {
                Some(s) => s.nonce,
                None => 0,
            })),
{
    if e.concerns(watched) {
        let k = choose|k: int|
            0 <= k < e.accounts.len() && watched.contains(e.accounts[k].address) && (
            #[trigger] e.accounts[k]).changed();
        assert(watched.contains(e.accounts[k].address));
    }
    if exists|k: int|
        0 <= k < e.accounts.len() && watched.contains((#[trigger] e.accounts[k]).address) && (
        change_of_balance(e.accounts[k]) != 0 || (match e.accounts[k].after {
            Some(s) => s.nonce,
            None => 0,
        }) != (match e.accounts[k].before {
            Some(s) => s.nonce,
            None => 0,
        })) {
        let k = choose|k: int|
            0 <= k < e.accounts.len() && watched.contains((#[trigger] e.accounts[k]).address) && (
            change_of_balance(e.accounts[k]) != 0 || (match e.accounts[k].after {
                Some(s) => s.nonce,
                None => 0,
            }) != (match e.accounts[k].before {
                Some(s) => s.nonce,
                None => 0,
            }));
        assert(e.accounts[k].changed());
    }
}

/// What the blocks of a chain did to an account adds up: where a block begins as the
/// blocks before it ended, its own change and theirs make up the change of all.
pub proof fn own_changes_add_up(prior: AccountChange, upto: AccountChange)
    requires
        prior.address == upto.address,
        prior.before == upto.before,
    ensures
        ({
            let own = committed::own_change(seq![prior], upto);
            &&& own.address == upto.address
            &&& own.after == upto.after
            &&& own.before == prior.after
            &&& change_of_balance(prior) + change_of_balance(own) == change_of_balance(upto)
        }),
        committed::own_change(Seq::empty(), upto) == upto,
{
    assert(seq![prior][0] == prior);
    reveal_with_fuel(committed::change_from, 2);
}

/// The own change of an account that the blocks before did not touch is the change of
/// all.
pub proof fn an_untouched_account_begins_as_before(prior: Seq<AccountChange>, upto: AccountChange)
    requires
        forall|k: int| 0 <= k < prior.len() ==> (#[trigger] prior[k]).address != upto.address,
    ensures
        committed::own_change(prior, upto) == upto,
{
    lemma_no_change(prior, upto.address, 0);
}

proof fn lemma_no_change(prior: Seq<AccountChange>, address: Address, k: nat)
    requires
        k <= prior.len(),
        forall|j: int| 0 <= j < prior.len() ==> (#[trigger] prior[j]).address != address,
    ensures
        committed::change_from(prior, address, k) is None,
    decreases prior.len() - k,
{
    if k < prior.len() {
        assert(prior[k as int].address != address);
        lemma_no_change(prior, address, k + 1);
    }
}

/// Whatever blocks before did to other accounts does not matter to the own change of
/// an account, and of what they did to it only how they left it does.
pub proof fn an_account_begins_as_the_blocks_before_left_it(
    prior: Seq<AccountChange>,
    upto: AccountChange,
    k: int,
)
    requires
        0 <= k < prior.len(),
        prior[k].address == upto.address,
        forall|j: int| 0 <= j < k ==> (#[trigger] prior[j]).address != upto.address,
    ensures
        committed::own_change(prior, upto).before == prior[k].after,
        committed::own_change(prior, upto).after == upto.after,
        committed::own_change(prior, upto).address == upto.address,
{
    lemma_change_at(prior, upto.address, k, 0);
}

proof fn lemma_change_at(prior: Seq<AccountChange>, address: Address, k: int, from: nat)
    requires
        from <= k < prior.len(),
        prior[k].address == address,
        forall|j: int| 0 <= j < k ==> (#[trigger] prior[j]).address != address,
    ensures
        committed::change_from(prior, address, from) == Some(prior[k]),
    decreases k - from,
{
    if from < k {
        assert(prior[from as int].address != address);
        lemma_change_at(prior, address, k, from + 1);
    }
}

/// A withdrawal counts in wei, a billion to the gwei, for its own recipient.
pub proof fn withdrawals_are_taken_in_wei(block: Block)
    ensures
        block.withdrawals is None ==> block.withdrawals_wei().len() == 0,
        block.withdrawals matches Some(w) ==> {
            &&& block.withdrawals_wei().len() == w.len()
            &&& forall|k: int|
                0 <= k < w.len() ==> (#[trigger] block.withdrawals_wei()[k]).0 == w[k].0
                    && block.withdrawals_wei()[k].1@ == 1_000_000_000 * w[k].1
        },
        block.base_fee matches Some(f) ==> block.base_fee_wei() == f,
        block.base_fee is None ==> block.base_fee_wei() == 0,
{
    if let Some(w) = block.withdrawals {
        assert forall|k: int| 0 <= k < w.len() implies (#[trigger] block.withdrawals_wei()[k]).0
            == w[k].0 && block.withdrawals_wei()[k].1@ == 1_000_000_000 * w[k].1 by {
            U256::lemma_number_of((w[k].1 * 1_000_000_000) as nat);
        }
    }
}

/// A captured frame comes into bookkeeping with its parties, value and kind, with the
/// hash of its transaction and whether that failed; it keeps its name, unless it is
/// the transaction's own, which is named after the transaction.
pub proof fn captured_frames_come_in_as_they_are(c: BlockCapture)
    ensures
        committed::replayed_frames(c).len() == c.frames.len(),
        forall|k: int|
            0 <= k < c.frames.len() ==> {
                let f = #[trigger] committed::replayed_frames(c)[k];
                let t = c.frames[k];
                &&& f.frame.from == t.frame.from
                &&& f.frame.to == t.frame.to
                &&& f.frame.value == t.frame.value
                &&& f.frame.kind == t.frame.kind
                &&& t.tx_index < c.tx_hashes.len() ==> f.tx_hash == c.tx_hashes[t.tx_index as int]
                &&& t.tx_index >= c.tx_hashes.len() ==> f.tx_hash is None
                &&& t.tx_index < c.tx_reverted.len() ==> f.reverted
                    == c.tx_reverted[t.tx_index as int]
                &&& t.tx_index >= c.tx_reverted.len() ==> !f.reverted
                &&& t.top_level ==> f.frame.trace_path == "tx:"@ + text::decimal(t.tx_index)
                &&& !t.top_level ==> f.frame.trace_path == t.frame.trace_path
            },
{
}

/// The frames that a block is recorded with.
pub open spec fn frames_used(block: Block, watched: Set<Address>, replay: Replay) -> Seq<FrameEntry> {
    match (block.outcome, replay) {
        (Some(e), Replay::Done(c)) => if e.concerns(watched) {
            committed::replayed_frames(c)
        } else {
            Seq::empty()
        },
        _ => Seq::empty(),
    }
}

/// Whether the token rows of a block hold one for a log of a receipt.
pub open spec fn has_row_of_log(
    rows: Seq<Erc20TransferRow>,
    block: Block,
    chain_id: u64,
    e: Execution,
    r: int,
    j: int,
    direction: Direction,
) -> bool {
    let log = e.receipts[r].logs[j];
    exists|p: int|
        {
            let row = #[trigger] rows[p];
            &&& 0 <= p < rows.len()
            &&& row.chain_id == chain_id
            &&& row.block_number == block.number
            &&& row.block_hash == block.hash
            &&& row.tx_hash == block.transactions[r].hash
            &&& row.log_index == (logs_before(e, r as nat) + j) as u64
            &&& row.token == log.address
            &&& booking::is_in_topic(row.from, log, 1)
            &&& booking::is_in_topic(row.to, log, 2)
            &&& row.amount@ == primitives::be_value(log.data.take(32))
            &&& row.direction == direction
            &&& row.address == match direction {
                Direction::In => row.to,
                Direction::Out => row.from,
            }
        }
}

/// What a recorded block was recorded from.
proof fn lemma_recorded_from(
    block: Block,
    chain_id: u64,
    e: Execution,
    watched: Set<Address>,
    fees: spec_fn(nat) -> Option<U256>,
    credits: spec_fn(Execution) -> Seq<Credit>,
    replay: Replay,
)
    requires
        block.outcome == Some(e),
        block.outcome_with(chain_id, watched, fees, credits, replay) is Ok,
    ensures
        ({
            let i = block.inputs(
                chain_id,
                e,
                watched,
                fees,
                credits(e),
                frames_used(block, watched, replay),
            );
            let r = block.outcome_with(chain_id, watched, fees, credits, replay);
            r == i.outcome() || r == committed::partial_outcome(i)
        }),
{
}

proof fn lemma_row_of_log(
    block: Block,
    chain_id: u64,
    e: Execution,
    rows: Seq<Erc20TransferRow>,
    i: Inputs,
    r: int,
    j: int,
    a: Address,
    d: Direction,
)
    requires
        i.chain_id == chain_id,
        i.block_number == block.number,
        i.block_hash == block.hash,
        i.logs == block.logs(e),
        i.transfers_have_txs(),
        booking::books_every_token_transfer(rows, i),
        0 <= r < e.receipts.len(),
        0 <= j < e.receipts[r].logs.len(),
        booking::looks_like_a_transfer(e.receipts[r].logs[j]),
        i.watched.contains(a),
        d == Direction::In ==> booking::is_in_topic(a, e.receipts[r].logs[j], 2),
        d == Direction::Out ==> booking::is_in_topic(a, e.receipts[r].logs[j], 1),
    ensures
        has_row_of_log(rows, block, chain_id, e, r, j, d),
{
    lemma_placed_at(e, e.receipts.len(), r, j);
    let k = (logs_before(e, r as nat) + j) as int;
    let log = e.receipts[r].logs[j];
    assert(i.logs[k].log == log);
    assert(log.concerns(i.watched)) by {
        booking::lemma_transfer(log);
        if d == Direction::In {
            a.lemma_injective(log.recipient());
        } else {
            a.lemma_injective(log.sender());
        }
    }
    assert(i.logs[k].tx_hash == block.tx_hash(r as nat));
    assert(booking::has_token_row(rows, i, k, a, d));
    let p = choose|p: int|
        0 <= p < rows.len() && booking::tells_of_log(#[trigger] rows[p], i, k) && rows[p].address
            == a && rows[p].direction == d;
    assert(rows[p].log_index == k as u64);
}

/// However a committed block is recorded, with its frames or without, every token
/// transfer in its receipts has its row for each watched party, with the transaction,
/// the number, the token, the parties and the amount of its log.
pub proof fn every_token_transfer_of_a_committed_block_is_booked(
    block: Block,
    chain_id: u64,
    e: Execution,
    watched: Set<Address>,
    fees: spec_fn(nat) -> Option<U256>,
    credits: spec_fn(Execution) -> Seq<Credit>,
    replay: Replay,
)
    requires
        block.outcome == Some(e),
        block.transfers_have_txs(watched),
        block.outcome_with(chain_id, watched, fees, credits, replay) is Ok,
    ensures
        ({
            let rows = block.outcome_with(chain_id, watched, fees, credits, replay)->Ok_0.erc20;
            &&& forall|r: int, j: int, a: Address|
                #![trigger e.receipts[r].logs[j], watched.contains(a)]
                0 <= r < e.receipts.len() && 0 <= j < e.receipts[r].logs.len()
                    && booking::looks_like_a_transfer(e.receipts[r].logs[j]) && watched.contains(a)
                    && booking::is_in_topic(a, e.receipts[r].logs[j], 2) ==> has_row_of_log(
                    rows,
                    block,
                    chain_id,
                    e,
                    r,
                    j,
                    Direction::In,
                )
            &&& forall|r: int, j: int, a: Address|
                #![trigger e.receipts[r].logs[j], watched.contains(a)]
                0 <= r < e.receipts.len() && 0 <= j < e.receipts[r].logs.len()
                    && booking::looks_like_a_transfer(e.receipts[r].logs[j]) && watched.contains(a)
                    && booking::is_in_topic(a, e.receipts[r].logs[j], 1) ==> has_row_of_log(
                    rows,
                    block,
                    chain_id,
                    e,
                    r,
                    j,
                    Direction::Out,
                )
        }),
{
    let i = block.inputs(
        chain_id,
        e,
        watched,
        fees,
        credits(e),
        frames_used(block, watched, replay),
    );
    let b = block.outcome_with(chain_id, watched, fees, credits, replay)->Ok_0;
    lemma_recorded_from(block, chain_id, e, watched, fees, credits, replay);
    committed::lemma_transfers_have_txs(block, e, watched);
    assert(i.transfers_have_txs());
    booking::every_token_transfer_is_booked(i);
    let rows = b.erc20;
    assert(booking::books_every_token_transfer(rows, i));
    assert forall|r: int, j: int, a: Address|
        #![trigger e.receipts[r].logs[j], watched.contains(a)]
        0 <= r < e.receipts.len() && 0 <= j < e.receipts[r].logs.len()
            && booking::looks_like_a_transfer(e.receipts[r].logs[j]) && watched.contains(a)
            && booking::is_in_topic(a, e.receipts[r].logs[j], 2) implies has_row_of_log(
        rows,
        block,
        chain_id,
        e,
        r,
        j,
        Direction::In,
    ) by {
        lemma_row_of_log(block, chain_id, e, rows, i, r, j, a, Direction::In);
    }
    assert forall|r: int, j: int, a: Address|
        #![trigger e.receipts[r].logs[j], watched.contains(a)]
        0 <= r < e.receipts.len() && 0 <= j < e.receipts[r].logs.len()
            && booking::looks_like_a_transfer(e.receipts[r].logs[j]) && watched.contains(a)
            && booking::is_in_topic(a, e.receipts[r].logs[j], 1) implies has_row_of_log(
        rows,
        block,
        chain_id,
        e,
        r,
        j,
        Direction::Out,
    ) by {
        lemma_row_of_log(block, chain_id, e, rows, i, r, j, a, Direction::Out);
    }
}

/// However a committed block is recorded, it has a fee row for every transaction of a
/// watched sender, and no other: with the transaction's own gas and price, and its
/// data fee.
#[verifier::spinoff_prover]
#[verifier::rlimit(100)]
pub proof fn every_fee_of_a_committed_block_is_booked(
    block: Block,
    chain_id: u64,
    e: Execution,
    watched: Set<Address>,
    fees: spec_fn(nat) -> Option<U256>,
    credits: spec_fn(Execution) -> Seq<Credit>,
    replay: Replay,
)
    requires
        block.outcome == Some(e),
        block.outcome_with(chain_id, watched, fees, credits, replay) is Ok,
    ensures
        ({
            let rows = block.outcome_with(chain_id, watched, fees, credits, replay)->Ok_0.gas;
            &&& forall|k: int|
                0 <= k < block.transactions.len() && k < e.receipts.len() && watched.contains(
                    (#[trigger] block.transactions[k]).sender,
                ) ==> has_fee_row(rows, block, chain_id, e, fees, k)
            &&& forall|r: int|
                0 <= r < rows.len() ==> watched.contains((#[trigger] rows[r]).address) && exists|
                    k: int,
                |
                    0 <= k < block.transactions.len() && k < e.receipts.len()
                        && #[trigger] tells_of_fee(rows[r], block, chain_id, e, fees, k)
        }),
{
    lemma_recorded_from(block, chain_id, e, watched, fees, credits, replay);
    lemma_fee_rows(block, chain_id, e, watched, fees, block.executed(e));
    let rows = block.outcome_with(chain_id, watched, fees, credits, replay)->Ok_0.gas;
    assert forall|r: int| 0 <= r < rows.len() implies watched.contains(
        (#[trigger] rows[r]).address,
    ) && exists|k: int|
        0 <= k < block.transactions.len() && k < e.receipts.len() && #[trigger] tells_of_fee(
            rows[r],
            block,
            chain_id,
            e,
            fees,
            k,
        ) by {
        let k = choose|k: int|
            0 <= k < block.executed(e) && #[trigger] tells_of_fee(
                rows[r],
                block,
                chain_id,
                e,
                fees,
                k,
            );
        assert(tells_of_fee(rows[r], block, chain_id, e, fees, k));
    }
}

/// When a committed block is refused before anything is booked: without its execution,
/// with a watched balance that cannot be read, or where its replay was needed and
/// failed. Otherwise it is booked from all that was collected: with the frames of the
/// replay where a watched account changed, and without any where none did or where the
/// replay could not take place; only then is it not reconciled.
pub proof fn what_becomes_of_a_committed_block(
    block: Block,
    chain_id: u64,
    watched: Set<Address>,
    fees: spec_fn(nat) -> Option<U256>,
    credits: spec_fn(Execution) -> Seq<Credit>,
    replay: Replay,
)
    ensures
        ({
            let r = block.outcome_with(chain_id, watched, fees, credits, replay);
            let refused = Err::<Batch, Failure>(Failure::Decode { block: block.number });
            &&& block.outcome is None ==> r == refused
            &&& block.outcome matches Some(e) ==> {
                let with = |f: Seq<FrameEntry>|
                    Inputs {
                        chain_id,
                        block_number: block.number,
                        block_hash: block.hash,
                        watched,
                        logs: block.logs(e),
                        frames: f,
                        gas: block.gas_rows(chain_id, e, watched, fees, block.executed(e)),
                        deltas: e.deltas(watched, e.accounts.len()),
                        credits: credits(e),
                    };
                &&& !e.readable(watched) ==> r == refused
                &&& e.readable(watched) && !e.concerns(watched) ==> r == with(
                    Seq::empty(),
                ).outcome()
                &&& e.readable(watched) && e.concerns(watched) ==> match replay {
                    Replay::Failed => r == refused,
                    Replay::Unavailable => r == committed::partial_outcome(with(Seq::empty())),
                    Replay::Done(c) => r == with(committed::replayed_frames(c)).outcome(),
                }
            }
        }),
{
}

/// A watched account can be read exactly if its balances before and after the block
/// are within `i128`.
pub proof fn accounts_can_be_read_within_the_range(e: Execution, watched: Set<Address>)
    ensures
        e.readable(watched) <==> forall|k: int|
            0 <= k < e.accounts.len() && watched.contains((#[trigger] e.accounts[k]).address) ==> (
            e.accounts[k].before matches Some(s) ==> s.balance@ <= i128::MAX) && (
            e.accounts[k].after matches Some(s) ==> s.balance@ <= i128::MAX),
{
    if e.readable(watched) {
        assert forall|k: int|
            0 <= k < e.accounts.len() && watched.contains(
                (#[trigger] e.accounts[k]).address,
            ) implies (e.accounts[k].before matches Some(s) ==> s.balance@ <= i128::MAX) && (
        e.accounts[k].after matches Some(s) ==> s.balance@ <= i128::MAX) by {
            assert(e.accounts[k].readable());
        }
    }
}

/// The reward and the fees count the same gas: what a transaction counts for in the
/// block reward is what its fee row says it used.
pub proof fn rewards_and_fees_count_the_same_gas(
    block: Block,
    chain_id: u64,
    e: Execution,
    fees: spec_fn(nat) -> Option<U256>,
    k: int,
)
    requires
        0 <= k < block.executed(e),
    ensures
        block.tx_fees(e)[k].1 == crate::attribution::gas_row(
            block.gas_input(chain_id, e, fees, k),
        ).gas_used,
        block.tx_fees(e)[k].0 == block.transactions[k].effective_gas_price,
{
}

/// Whether native rows hold one for an end of a captured movement of a transaction.
pub open spec fn has_row_of_movement(
    rows: Seq<EthTransfer>,
    block: Block,
    f: Frame,
    tx: int,
    failed: bool,
    direction: Direction,
) -> bool {
    exists|p: int|
        {
            let row = #[trigger] rows[p];
            &&& 0 <= p < rows.len()
            &&& row.block_number == block.number
            &&& row.block_hash == block.hash
            &&& row.tx_hash == Some(block.transactions[tx].hash)
            &&& row.amount_wei == f.value
            &&& row.reverted == failed
            &&& row.direction == direction
            &&& match direction {
                Direction::In => row.address == f.to && row.counterparty == f.from,
                Direction::Out => row.address == f.from && row.counterparty == f.to,
            }
        }
}

/// Every movement that was captured while a committed block was replayed, and was not
/// undone, is booked for its watched parties: for the one that paid as going out to
/// the other, for the one that was paid as coming in from it, with the value, the
/// transaction and whether that failed.
pub proof fn every_captured_movement_of_a_committed_block_is_booked(
    block: Block,
    chain_id: u64,
    e: Execution,
    watched: Set<Address>,
    fees: spec_fn(nat) -> Option<U256>,
    credits: spec_fn(Execution) -> Seq<Credit>,
    succeeded: Seq<bool>,
    captures: Seq<TaggedCapture>,
    t: int,
    k: int,
)
    requires
        block.outcome == Some(e),
        e.concerns(watched),
        succeeded.len() == block.transactions.len(),
        captures.len() <= block.transactions.len(),
        0 <= t < captures.len(),
        0 <= k < captures[t].inner.frames.len(),
        block.outcome_with(
            chain_id,
            watched,
            fees,
            credits,
            Replay::Done(
                reexec::block_capture(completeness::tx_hashes(block), succeeded, captures),
            ),
        ) is Ok,
    ensures
        ({
            let rows = block.outcome_with(
                chain_id,
                watched,
                fees,
                credits,
                Replay::Done(
                    reexec::block_capture(completeness::tx_hashes(block), succeeded, captures),
                ),
            )->Ok_0.eth;
            let f = captures[t].inner.frames[k];
            &&& watched.contains(f.to) ==> has_row_of_movement(
                rows,
                block,
                f,
                t,
                !succeeded[t],
                Direction::In,
            )
            &&& watched.contains(f.from) ==> has_row_of_movement(
                rows,
                block,
                f,
                t,
                !succeeded[t],
                Direction::Out,
            )
        }),
{
    let c = reexec::block_capture(completeness::tx_hashes(block), succeeded, captures);
    let i = block.inputs(
        chain_id,
        e,
        watched,
        fees,
        credits(e),
        committed::replayed_frames(c),
    );
    let rows = i.outcome()->Ok_0.eth;
    let f = captures[t].inner.frames[k];
    let p = reexec::frames_before(captures, t as nat) + k;
    booking::every_native_movement_is_booked(i);
    reexec::a_block_capture_holds_every_kept_frame(
        completeness::tx_hashes(block),
        succeeded,
        captures,
    );
    reexec::lemma_frames_of(captures, captures.len(), t, k);
    captured_frames_come_in_as_they_are(c);
    assert(c.frames[p].frame == captures[t].inner.frames[k]);
    assert(c.tx_hashes[t] == Some(block.transactions[t].hash));
    assert(c.tx_reverted[t] == !succeeded[t]);
    let entry = committed::replayed_frames(c)[p];
    assert(entry.frame.from == f.from && entry.frame.to == f.to);
    assert(i.frames[p] == entry);
    if watched.contains(f.to) {
        assert(booking::has_frame_row(rows, i, p, Direction::In));
        let r = choose|r: int|
            0 <= r < rows.len() && booking::tells_of_frame(#[trigger] rows[r], i, p)
                && rows[r].direction == Direction::In;
        assert(rows[r].address == f.to);
    }
    if watched.contains(f.from) {
        assert(booking::has_frame_row(rows, i, p, Direction::Out));
        let r = choose|r: int|
            0 <= r < rows.len() && booking::tells_of_frame(#[trigger] rows[r], i, p)
                && rows[r].direction == Direction::Out;
        assert(rows[r].address == f.from);
    }
}

} // verus!
