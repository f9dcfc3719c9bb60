//! What holds of every block that is recorded.

use vstd::prelude::*;
use crate::attribution;
use crate::committed;
use crate::committed::{Block, Execution, Replay};
use crate::exex;
use crate::exex::{FrameEntry, Inputs};
use crate::model::{EthKind, EthTransfer, UnattributedDeltaRow};
use crate::primitives;
use crate::primitives::{Address, U256};
use crate::reconcile;
use crate::system::Credit;
use crate::text;

verus! {

/// Every observed change of a watched address from the `k`th on reconciles.
proof fn lemma_reconciled_from(i: Inputs, k: nat, m: nat)
    requires
        i.first_unreconciled(k) is None,
        k <= m < i.deltas.len(),
        i.watched.contains(i.deltas[m as int].0),
    ensures
        i.account(i.deltas[m as int].0, i.deltas[m as int].1).in_range(),
        i.account(i.deltas[m as int].0, i.deltas[m as int].1).balances(),
    decreases m - k,
{
    if k < m {
        assert(i.first_unreconciled(k) == i.first_unreconciled(k + 1));
        lemma_reconciled_from(i, k + 1, m);
    }
}

/// Where no partial sum of credits leaves the range, the whole sum does not.
proof fn lemma_credits_fit(i: Inputs, address: Address, k: nat)
    requires
        i.credit_overflow(k) is None,
        i.watched.contains(address),
        k <= i.credits.len(),
        reconcile::fits_i128(i.credited(address, k)),
    ensures
        reconcile::fits_i128(i.credited(address, i.credits.len())),
    decreases i.credits.len() - k,
{
    if k < i.credits.len() {
        assert(i.credit_overflow(k) == i.credit_overflow(k + 1));
        lemma_credits_fit(i, address, k + 1);
    }
}

/// A recorded block accounts for every watched change exactly: what came in, less
/// what went out, less the fees, with the protocol's credits, is the change of the
/// balance. Sums of amounts are taken modulo 2^256.
pub proof fn a_recorded_block_accounts_for_every_change(i: Inputs, k: int)
    requires
        i.outcome() is Ok,
        0 <= k < i.deltas.len(),
        i.watched.contains(i.deltas[k].0),
    ensures
        ({
            let (address, observed) = i.deltas[k];
            observed == i.inflow(address, i.frames.len()) % primitives::two_256() - i.outflow(
                address,
                i.frames.len(),
            ) % primitives::two_256() - i.gas_spent(address, i.gas.len()) % primitives::two_256()
                + i.credited(address, i.credits.len())
        }),
{
    let (address, observed) = i.deltas[k];
    lemma_reconciled_from(i, 0, k as nat);
    lemma_credits_fit(i, address, 0);
    let m = primitives::two_256();
    U256::lemma_number_of(i.inflow(address, i.frames.len()) % m);
    U256::lemma_number_of(i.outflow(address, i.frames.len()) % m);
    U256::lemma_number_of(i.gas_spent(address, i.gas.len()) % m);
}

/// A watched change that is not accounted for keeps the block from being recorded.
pub proof fn an_unaccounted_change_stops_the_block(i: Inputs, k: int)
    requires
        0 <= k < i.deltas.len(),
        i.watched.contains(i.deltas[k].0),
        !i.account(i.deltas[k].0, i.deltas[k].1).balances(),
    ensures
        i.outcome() is Err,
{
    if i.outcome() is Ok {
        lemma_reconciled_from(i, 0, k as nat);
    }
}

/// Two sets of frames that differ only in failed transactions.
pub open spec fn same_committed_frames(a: Seq<FrameEntry>, b: Seq<FrameEntry>) -> bool {
    &&& a.len() == b.len()
    &&& forall|k: int|
        0 <= k < a.len() ==> (#[trigger] a[k]) == b[k] || (a[k].reverted && b[k].reverted)
}

/// What a failed transaction tried to move does not count.
pub proof fn failed_transactions_do_not_count(i: Inputs, j: Inputs, address: Address, n: nat)
    requires
        same_committed_frames(i.frames, j.frames),
        n <= i.frames.len(),
    ensures
        i.inflow(address, n) == j.inflow(address, n),
        i.outflow(address, n) == j.outflow(address, n),
    decreases n,
{
    if n > 0 {
        failed_transactions_do_not_count(i, j, address, (n - 1) as nat);
        assert(i.frames[n - 1] == j.frames[n - 1] || (i.frames[n - 1].reverted && j.frames[n
            - 1].reverted));
    }
}

/// An address of which no frame and no fee speaks.
pub open spec fn only_credited(i: Inputs, address: Address) -> bool {
    &&& forall|k: int|
        0 <= k < i.frames.len() ==> (#[trigger] i.frames[k]).frame.to != address
            && i.frames[k].frame.from != address
    &&& forall|k: int| 0 <= k < i.gas.len() ==> (#[trigger] i.gas[k]).address != address
}

proof fn lemma_no_flow(i: Inputs, address: Address, n: nat)
    requires
        only_credited(i, address),
        n <= i.frames.len(),
    ensures
        i.inflow(address, n) == 0,
        i.outflow(address, n) == 0,
    decreases n,
{
    if n > 0 {
        lemma_no_flow(i, address, (n - 1) as nat);
        assert(i.frames[n - 1].frame.to != address);
    }
}

proof fn lemma_no_gas(i: Inputs, address: Address, n: nat)
    requires
        only_credited(i, address),
        n <= i.gas.len(),
    ensures
        i.gas_spent(address, n) == 0,
    decreases n,
{
    if n > 0 {
        lemma_no_gas(i, address, (n - 1) as nat);
        assert(i.gas[n - 1].address != address);
    }
}

/// A change that consists of recognised credits alone leaves no residual.
pub proof fn recognised_credits_leave_no_residual(i: Inputs, address: Address, observed: i128)
    requires
        only_credited(i, address),
        observed == i.credited(address, i.credits.len()),
    ensures
        i.account(address, observed).in_range(),
        i.account(address, observed).balances(),
{
    lemma_no_flow(i, address, i.frames.len());
    lemma_no_gas(i, address, i.gas.len());
    U256::lemma_number_of(0);
}

/// Two credits have one name only if they have one source and one address: no row
/// of a credit takes the place of another's.
pub proof fn credit_names_are_distinct(s: Seq<char>, a: Address, t: Seq<char>, b: Address)
    requires
        exex::system_trace_path(s, a) == exex::system_trace_path(t, b),
    ensures
        s == t,
        a == b,
{
    let p = exex::system_trace_path(s, a);
    let q = exex::system_trace_path(t, b);
    let head = "system:"@;
    let colon = ":"@;
    text::lemma_hex_digits_len(a@, 40);
    text::lemma_hex_digits_len(b@, 40);
    assert(primitives::address_text(a).len() == 42);
    assert(primitives::address_text(b).len() == 42);
    assert(p.len() == head.len() + s.len() + colon.len() + 42);
    assert(q.len() == head.len() + t.len() + colon.len() + 42);
    assert(p.subrange(p.len() - 42, p.len() as int) =~= primitives::address_text(a));
    assert(q.subrange(q.len() - 42, q.len() as int) =~= primitives::address_text(b));
    a.lemma_text_injective(b);
    let from = head.len() as int;
    assert(p.subrange(from, from + s.len()) =~= s);
    assert(q.subrange(from, from + t.len()) =~= t);
}

/// The two rows of a movement between watched addresses have different names.
pub proof fn both_ends_of_a_movement_are_kept(
    c: attribution::FrameContext,
    f: crate::inspector::Frame,
    watched: Set<Address>,
)
    requires
        watched.contains(f.from),
        watched.contains(f.to),
    ensures
        attribution::frame_rows(c, f, watched) == seq![
            attribution::inward_row(c, f),
            attribution::outward_row(c, f),
        ],
        attribution::inward_row(c, f).trace_path != attribution::outward_row(c, f).trace_path,
{
    reveal_strlit(":out");
    assert(attribution::outward_row(c, f).trace_path.len() == f.trace_path.len() + 4);
}

/// Whether a row is of a block and of a watched address.
pub open spec fn is_row_of(r: EthTransfer, i: Inputs) -> bool {
    &&& r.chain_id == i.chain_id
    &&& r.block_number == i.block_number
    &&& r.block_hash == i.block_hash
    &&& i.watched.contains(r.address)
}

proof fn lemma_frame_rows(i: Inputs, n: nat)
    requires
        n <= i.frames.len(),
    ensures
        forall|k: int| 0 <= k < i.frame_rows(n).len() ==> is_row_of(#[trigger] i.frame_rows(n)[k], i),
    decreases n,
{
    if n > 0 {
        lemma_frame_rows(i, (n - 1) as nat);
        let before = i.frame_rows((n - 1) as nat);
        let added = attribution::frame_rows(
            i.context(n - 1),
            i.frames[n - 1].frame,
            i.watched,
        );
        assert forall|k: int| 0 <= k < i.frame_rows(n).len() implies is_row_of(
            #[trigger] i.frame_rows(n)[k],
            i,
        ) by {
            if k < before.len() {
                assert(is_row_of(before[k], i));
            } else {
                assert(is_row_of(added[k - before.len()], i));
            }
        }
    }
}

proof fn lemma_system_rows(i: Inputs, n: nat)
    requires
        n <= i.credits.len(),
    ensures
        forall|k: int|
            0 <= k < i.system_rows(n).len() ==> is_row_of(#[trigger] i.system_rows(n)[k], i)
                && i.system_rows(n)[k].tx_hash == Some(i.block_hash) && i.system_rows(n)[k].kind
                == EthKind::System,
    decreases n,
{
    if n > 0 {
        lemma_system_rows(i, (n - 1) as nat);
    }
}

proof fn lemma_erc20_rows(i: Inputs, n: nat)
    requires
        n <= i.logs.len(),
    ensures
        forall|k: int|
            0 <= k < i.erc20_rows(n).len() ==> (#[trigger] i.erc20_rows(n)[k]).chain_id
                == i.chain_id && i.erc20_rows(n)[k].block_number == i.block_number
                && i.erc20_rows(n)[k].block_hash == i.block_hash && i.watched.contains(
                i.erc20_rows(n)[k].address,
            ),
    decreases n,
{
    if n > 0 {
        lemma_erc20_rows(i, (n - 1) as nat);
        let before = i.erc20_rows((n - 1) as nat);
        let added = i.log_rows(n - 1);
        assert forall|k: int| 0 <= k < i.erc20_rows(n).len() implies (
        #[trigger] i.erc20_rows(n)[k]).chain_id == i.chain_id && i.erc20_rows(n)[k].block_number
            == i.block_number && i.erc20_rows(n)[k].block_hash == i.block_hash
            && i.watched.contains(i.erc20_rows(n)[k].address) by {
            if k < before.len() {
                assert(i.erc20_rows(n)[k] == before[k]);
            } else {
                let m = k - before.len();
                let parties = i.logs[n - 1].log.matches(i.watched);
                assert(i.erc20_rows(n)[k] == added[m]);
                assert(added[m] == i.erc20_row(n - 1, parties[m]));
            }
        }
    }
}

/// The fees of the inputs are of their block and of watched addresses.
pub open spec fn gas_is_of_block(i: Inputs) -> bool {
    forall|k: int|
        0 <= k < i.gas.len() ==> (#[trigger] i.gas[k]).chain_id == i.chain_id
            && i.gas[k].block_number == i.block_number && i.gas[k].block_hash == i.block_hash
            && i.watched.contains(i.gas[k].address)
}

/// Every row of a recorded block is of that block and of a watched address.
pub proof fn rows_are_of_the_block_and_watched(i: Inputs)
    requires
        i.outcome() is Ok,
        gas_is_of_block(i),
    ensures
        ({
            let b = i.outcome()->Ok_0;
            &&& b.of_one_block()
            &&& b.chain_id == i.chain_id && b.block_number == i.block_number && b.block_hash
                == i.block_hash
            &&& forall|k: int| 0 <= k < b.eth.len() ==> is_row_of(#[trigger] b.eth[k], i)
            &&& forall|k: int|
                0 <= k < b.erc20.len() ==> i.watched.contains((#[trigger] b.erc20[k]).address)
        }),
{
    lemma_frame_rows(i, i.frames.len());
    lemma_system_rows(i, i.credits.len());
    lemma_erc20_rows(i, i.logs.len());
    let b = i.batch();
    let f = i.frame_rows(i.frames.len());
    assert forall|k: int| 0 <= k < b.eth.len() implies is_row_of(#[trigger] b.eth[k], i) by {
        if k < f.len() {
            assert(b.eth[k] == f[k]);
        } else {
            assert(b.eth[k] == i.system_rows(i.credits.len())[k - f.len()]);
        }
    }
    assert forall|k: int| 0 <= k < b.eth.len() implies (#[trigger] b.eth[k]).chain_id
        == b.chain_id && b.eth[k].block_hash == b.block_hash by {
        assert(is_row_of(b.eth[k], i));
    }
}

/// The fees that are collected from a committed block are of that block and of
/// watched senders.
pub proof fn collected_fees_are_of_the_block(
    block: Block,
    chain_id: u64,
    e: Execution,
    watched: Set<Address>,
    fees: spec_fn(nat) -> Option<U256>,
    credits: Seq<Credit>,
    frames: Seq<FrameEntry>,
)
    ensures
        gas_is_of_block(block.inputs(chain_id, e, watched, fees, credits, frames)),
{
    lemma_gas_rows(block, chain_id, e, watched, fees, block.executed(e));
}

proof fn lemma_gas_rows(
    block: Block,
    chain_id: u64,
    e: Execution,
    watched: Set<Address>,
    fees: spec_fn(nat) -> Option<U256>,
    n: nat,
)
    ensures
        ({
            let rows = block.gas_rows(chain_id, e, watched, fees, n);
            forall|k: int|
                0 <= k < rows.len() ==> (#[trigger] rows[k]).chain_id == chain_id
                    && rows[k].block_number == block.number && rows[k].block_hash == block.hash
                    && watched.contains(rows[k].address)
        }),
    decreases n,
{
    if n > 0 {
        lemma_gas_rows(block, chain_id, e, watched, fees, (n - 1) as nat);
    }
}

/// What the credits leave open of an observed change.
pub open spec fn left_open(i: Inputs, k: int) -> nat {
    reconcile::partial_attribution(
        i.deltas[k].1 as int,
        i.credited(i.deltas[k].0, i.credits.len()),
    ).2
}

/// Whether one of the markers is of an address and records this much.
pub open spec fn is_marked(
    markers: Seq<UnattributedDeltaRow>,
    address: Address,
    residual: nat,
) -> bool {
    exists|m: int|
        0 <= m < markers.len() && (#[trigger] markers[m]).address == address
            && markers[m].residual_wei@ == residual
}

/// Without its frames a block is recorded all the same, with no frame's row and no
/// reconciliation: it never fails for a residual. Every watched change that the
/// credits do not cover is marked with what they leave open, and each marker is
/// complete.
pub proof fn a_block_without_frames_is_marked_not_stalled(i: Inputs)
    requires
        i.frames.len() == 0,
        i.credit_overflow(0) is None,
    ensures
        committed::partial_outcome(i) is Ok,
        ({
            let b = committed::partial_outcome(i)->Ok_0;
            &&& forall|k: int| 0 <= k < b.eth.len() ==> (#[trigger] b.eth[k]).kind == EthKind::System
            &&& forall|k: int|
                0 <= k < b.unattributed.len() ==> (#[trigger] b.unattributed[k]).residual_wei@ > 0
                    && b.unattributed[k].attributed_wei@ + b.unattributed[k].residual_wei@
                    == b.unattributed[k].observed_wei@
            &&& forall|k: int|
                0 <= k < i.deltas.len() && i.watched.contains((#[trigger] i.deltas[k]).0)
                    && left_open(i, k) > 0 ==> is_marked(
                    b.unattributed,
                    i.deltas[k].0,
                    left_open(i, k),
                )
        }),
{
    lemma_system_rows(i, i.credits.len());
    let b = committed::partial_outcome(i)->Ok_0;
    assert(b.eth =~= i.system_rows(i.credits.len()));
    lemma_markers(i, i.deltas.len());
    lemma_all_marked(i, i.deltas.len());
}

proof fn lemma_all_marked(i: Inputs, n: nat)
    requires
        n <= i.deltas.len(),
    ensures
        forall|k: int|
            0 <= k < n && i.watched.contains((#[trigger] i.deltas[k]).0) && left_open(i, k) > 0
                ==> is_marked(committed::markers(i, n), i.deltas[k].0, left_open(i, k)),
    decreases n,
{
    if n > 0 {
        lemma_all_marked(i, (n - 1) as nat);
        let before = committed::markers(i, (n - 1) as nat);
        let after = committed::markers(i, n);
        assert forall|k: int| 0 <= k < n && i.watched.contains((#[trigger] i.deltas[k]).0)
            && left_open(i, k) > 0 implies is_marked(after, i.deltas[k].0, left_open(i, k)) by {
            if k < n - 1 {
                assert(is_marked(before, i.deltas[k].0, left_open(i, k)));
                let m = choose|m: int|
                    0 <= m < before.len() && (#[trigger] before[m]).address == i.deltas[k].0
                        && before[m].residual_wei@ == left_open(i, k);
                assert(after[m] == before[m]);
            } else {
                let m = before.len() as int;
                U256::lemma_number_of(left_open(i, k));
                assert(after[m] == committed::marker(i, k)[0]);
            }
        }
    }
}

proof fn lemma_markers(i: Inputs, n: nat)
    requires
        n <= i.deltas.len(),
    ensures
        forall|k: int|
            0 <= k < committed::markers(i, n).len() ==> (#[trigger] committed::markers(
                i,
                n,
            )[k]).residual_wei@ > 0 && committed::markers(i, n)[k].attributed_wei@
                + committed::markers(i, n)[k].residual_wei@ == committed::markers(
                i,
                n,
            )[k].observed_wei@,
    decreases n,
{
    if n > 0 {
        lemma_markers(i, (n - 1) as nat);
        let before = committed::markers(i, (n - 1) as nat);
        let (address, observed) = i.deltas[n - 1];
        let (o, a, r) = reconcile::partial_attribution(
            observed as int,
            i.credited(address, i.credits.len()),
        );
        U256::lemma_number_of(o);
        U256::lemma_number_of(a);
        U256::lemma_number_of(r);
        let added = committed::marker(i, n - 1);
        assert forall|k: int| 0 <= k < committed::markers(i, n).len() implies (
        #[trigger] committed::markers(i, n)[k]).residual_wei@ > 0 && committed::markers(
            i,
            n,
        )[k].attributed_wei@ + committed::markers(i, n)[k].residual_wei@ == committed::markers(
            i,
            n,
        )[k].observed_wei@ by {
            if k < before.len() {
                assert(committed::markers(i, n)[k] == before[k]);
            } else {
                assert(committed::markers(i, n)[k] == added[k - before.len()]);
            }
        }
    }
}

/// A block in which no watched account changed is recorded whatever came of its
/// re-execution: its parent state is not needed.
pub proof fn untouched_blocks_need_no_parent_state(
    block: Block,
    chain_id: u64,
    watched: Set<Address>,
    fees: spec_fn(nat) -> Option<U256>,
    credits: spec_fn(Execution) -> Seq<Credit>,
    a: Replay,
    b: Replay,
)
    requires
        block.outcome matches Some(e) ==> !e.concerns(watched),
    ensures
        block.outcome_with(chain_id, watched, fees, credits, a) == block.outcome_with(
            chain_id,
            watched,
            fees,
            credits,
            b,
        ),
{
}

} // verus!
