//! Turning movements and fees into rows.

use vstd::prelude::*;
use crate::inspector::{CapturedFrame, Frame};
use crate::model::{Direction, EthKind, EthTransfer, EthTransferRow, GasPaymentRow};
use crate::primitives;
use crate::primitives::{Address, B256, U256};
use crate::text;
use crate::watched::WatchedSet;

verus! {

/// What is known of one transaction of a watched sender.
#[derive(Clone, Copy, Debug)]
pub struct GasInput {
    pub chain_id: u64,
    pub block_number: u64,
    pub block_hash: B256,
    pub tx_hash: B256,
    pub tx_from: Address,
    pub gas_used: u64,
    pub effective_gas_price: u128,
    pub l1_fee_wei: Option<U256>,
}

/// The value of an optional amount, nothing being zero.
pub open spec fn or_zero(amount: Option<U256>) -> nat {
    match amount {
        Some(a) => a@,
        None => 0,
    }
}

/// The row that records a fee: gas times price, and the data fee where there is
/// one.
pub open spec fn gas_row(i: GasInput) -> GasPaymentRow {
    GasPaymentRow {
        chain_id: i.chain_id,
        block_number: i.block_number,
        block_hash: i.block_hash,
        tx_hash: i.tx_hash,
        address: i.tx_from,
        gas_used: i.gas_used,
        effective_gas_price: i.effective_gas_price,
        l2_fee_wei: U256::number((i.gas_used * i.effective_gas_price) as nat),
        l1_fee_wei: i.l1_fee_wei,
        total_wei: U256::number(
            (i.gas_used * i.effective_gas_price + or_zero(i.l1_fee_wei)) as nat
                % primitives::two_256(),
        ),
    }
}

proof fn lemma_fee_fits(gas: u64, price: u128)
    ensures
        0 <= gas * price < primitives::two_192(),
{
    assert(0 <= gas * price <= 0xffff_ffff_ffff_ffff * 0xffff_ffff_ffff_ffff_ffff_ffff_ffff_ffff)
        by (nonlinear_arith)
        requires
            0 <= gas <= 0xffff_ffff_ffff_ffff,
            0 <= price <= 0xffff_ffff_ffff_ffff_ffff_ffff_ffff_ffff,
    ;
}

/// The product of a gas amount and a price, which always fits.
pub fn fee(gas: u64, price: u128) -> (r: U256)
    ensures
        r@ == gas * price,
{
    proof {
        lemma_fee_fits(gas, price);
        vstd::arithmetic::div_mod::lemma_small_mod(
            (gas * price) as nat,
            primitives::two_256(),
        );
    }
    U256::from_u64(gas).times(U256::from_u128(price))
}

/// The fee of a transaction: gas times price, and the data fee where there is
/// one. It is charged whether or not the transaction succeeds.
pub fn compute_gas_payment(i: GasInput) -> (r: GasPaymentRow)
    ensures
        r == gas_row(i),
{
    let l2 = fee(i.gas_used, i.effective_gas_price);
    let l1 = match i.l1_fee_wei {
        Some(f) => f,
        None => U256::zero(),
    };
    let total = l2.plus(l1);
    proof {
        l2.lemma_number();
        total.lemma_number();
    }
    GasPaymentRow {
        chain_id: i.chain_id,
        block_number: i.block_number,
        block_hash: i.block_hash,
        tx_hash: i.tx_hash,
        address: i.tx_from,
        gas_used: i.gas_used,
        effective_gas_price: i.effective_gas_price,
        l2_fee_wei: l2,
        l1_fee_wei: i.l1_fee_wei,
        total_wei: total,
    }
}

/// Where and when frames were captured.
#[derive(Clone, Copy, Debug)]
pub struct FrameContext {
    pub chain_id: u64,
    pub block_number: u64,
    pub block_hash: B256,
    pub tx_hash: Option<B256>,
    pub reverted: bool,
}

/// The kind of a captured frame: a transaction's own frame is named `tx:` and
/// its index.
pub open spec fn frame_eth_kind(trace_path: Seq<char>) -> EthKind {
    if text::has_tx_prefix(trace_path) {
        EthKind::TopLevel
    } else {
        EthKind::Internal
    }
}

/// The row of a frame's recipient.
pub open spec fn inward_row(c: FrameContext, f: Frame) -> EthTransfer {
    EthTransfer {
        chain_id: c.chain_id,
        block_number: c.block_number,
        block_hash: c.block_hash,
        tx_hash: c.tx_hash,
        trace_path: f.trace_path,
        address: f.to,
        direction: Direction::In,
        counterparty: f.from,
        amount_wei: f.value,
        kind: frame_eth_kind(f.trace_path),
        reverted: c.reverted,
    }
}

/// The row of a frame's sender, named apart from the recipient's.
pub open spec fn outward_row(c: FrameContext, f: Frame) -> EthTransfer {
    EthTransfer {
        chain_id: c.chain_id,
        block_number: c.block_number,
        block_hash: c.block_hash,
        tx_hash: c.tx_hash,
        trace_path: f.trace_path + ":out"@,
        address: f.from,
        direction: Direction::Out,
        counterparty: f.to,
        amount_wei: f.value,
        kind: frame_eth_kind(f.trace_path),
        reverted: c.reverted,
    }
}

/// The rows of one frame: one for each watched party, the recipient first.
pub open spec fn frame_rows(c: FrameContext, f: Frame, watched: Set<Address>) -> Seq<EthTransfer> {
    let inward = if watched.contains(f.to) {
        seq![inward_row(c, f)]
    } else {
        Seq::empty()
    };
    let outward = if watched.contains(f.from) {
        seq![outward_row(c, f)]
    } else {
        Seq::empty()
    };
    inward + outward
}

/// The rows of the first `n` frames.
pub open spec fn frames_rows(
    c: FrameContext,
    frames: Seq<Frame>,
    watched: Set<Address>,
    n: nat,
) -> Seq<EthTransfer>
    decreases n,
{
    if n == 0 {
        Seq::empty()
    } else {
        frames_rows(c, frames, watched, (n - 1) as nat) + frame_rows(c, frames[n - 1], watched)
    }
}

/// What rows say, in order.
pub open spec fn eth_rows_view(rows: Seq<EthTransferRow>) -> Seq<EthTransfer> {
    Seq::new(rows.len(), |i: int| rows[i]@)
}

/// Pushing a row pushes what it says.
pub proof fn lemma_eth_rows_push(rows: Seq<EthTransferRow>, row: EthTransferRow)
    ensures
        eth_rows_view(rows.push(row)) == eth_rows_view(rows).push(row@),
{
    assert(eth_rows_view(rows.push(row)) =~= eth_rows_view(rows).push(row@));
}

/// Appends the rows of one frame.
pub fn push_frame_rows(
    c: &FrameContext,
    f: &CapturedFrame,
    watched: &WatchedSet,
    rows: &mut Vec<EthTransferRow>,
)
    ensures
        eth_rows_view(final(rows)@) == eth_rows_view(old(rows)@) + frame_rows(*c, f@, watched@),
{
    let ghost before = eth_rows_view(rows@);
    let kind = if text::starts_with_tx(f.trace_path.as_str()) {
        EthKind::TopLevel
    } else {
        EthKind::Internal
    };
    if watched.contains(&f.to) {
        let row = EthTransferRow {
            chain_id: c.chain_id,
            block_number: c.block_number,
            block_hash: c.block_hash,
            tx_hash: c.tx_hash,
            trace_path: f.trace_path.clone(),
            address: f.to,
            direction: Direction::In,
            counterparty: f.from,
            amount_wei: f.value,
            kind,
            reverted: c.reverted,
        };
        proof {
            lemma_eth_rows_push(rows@, row);
        }
        rows.push(row);
    }
    if watched.contains(&f.from) {
        let row = EthTransferRow {
            chain_id: c.chain_id,
            block_number: c.block_number,
            block_hash: c.block_hash,
            tx_hash: c.tx_hash,
            trace_path: text::joined(f.trace_path.as_str(), ":out"),
            address: f.from,
            direction: Direction::Out,
            counterparty: f.to,
            amount_wei: f.value,
            kind,
            reverted: c.reverted,
        };
        proof {
            lemma_eth_rows_push(rows@, row);
        }
        rows.push(row);
    }
    proof {
        assert(eth_rows_view(rows@) =~= before + frame_rows(*c, f@, watched@));
    }
}

/// The rows of the frames of one transaction, one row for each watched party of
/// each frame.
pub fn attribute_eth_frames(
    chain_id: u64,
    block_number: u64,
    block_hash: B256,
    tx_hash: Option<B256>,
    reverted: bool,
    frames: &[CapturedFrame],
    watched: &WatchedSet,
) -> (r: Vec<EthTransferRow>)
    ensures
        eth_rows_view(r@) == frames_rows(
            (FrameContext { chain_id, block_number, block_hash, tx_hash, reverted }),
            crate::inspector::frames_view(frames@),
            watched@,
            frames@.len(),
        ),
{
    let c = FrameContext { chain_id, block_number, block_hash, tx_hash, reverted };
    let ghost views = crate::inspector::frames_view(frames@);
    let mut rows: Vec<EthTransferRow> = Vec::new();
    let mut i: usize = 0;
    assert(eth_rows_view(rows@) =~= frames_rows(c, views, watched@, 0));
    while i < frames.len()
        invariant
            i <= frames@.len(),
            views == crate::inspector::frames_view(frames@),
            eth_rows_view(rows@) == frames_rows(c, views, watched@, i as nat),
        decreases frames@.len() - i,
    {
        push_frame_rows(&c, &frames[i], watched, &mut rows);
        i += 1;
    }
    rows
}

/// A fee is gas times price, and the data fee on top where there is one; the row says
/// whose transaction it was, and with which gas and price.
pub proof fn a_fee_is_gas_times_price_and_the_data_fee(i: GasInput)
    ensures
        gas_row(i).chain_id == i.chain_id,
        gas_row(i).block_number == i.block_number,
        gas_row(i).block_hash == i.block_hash,
        gas_row(i).tx_hash == i.tx_hash,
        gas_row(i).address == i.tx_from,
        gas_row(i).gas_used == i.gas_used,
        gas_row(i).effective_gas_price == i.effective_gas_price,
        gas_row(i).l1_fee_wei == i.l1_fee_wei,
        gas_row(i).l2_fee_wei@ == i.gas_used * i.effective_gas_price,
        i.l1_fee_wei is None ==> gas_row(i).total_wei@ == gas_row(i).l2_fee_wei@,
        i.l1_fee_wei matches Some(f) ==> gas_row(i).l2_fee_wei@ + f@ < primitives::two_256()
            ==> gas_row(i).total_wei@ == gas_row(i).l2_fee_wei@ + f@,
{
    lemma_fee_fits(i.gas_used, i.effective_gas_price);
    let l2 = (i.gas_used * i.effective_gas_price) as nat;
    let all = (l2 + or_zero(i.l1_fee_wei)) as nat;
    U256::lemma_number_of(l2);
    U256::lemma_number_of(all % primitives::two_256());
    if all < primitives::two_256() {
        vstd::arithmetic::div_mod::lemma_small_mod(all, primitives::two_256());
    }
}

/// A frame is booked for its recipient as coming in from its sender, and for its
/// sender as going out to its recipient, each if it is watched; both rows carry its
/// value, and say whether its transaction failed.
pub proof fn a_movement_is_booked_at_its_watched_ends(
    c: FrameContext,
    f: Frame,
    watched: Set<Address>,
)
    ensures
        ({
            let rows = frame_rows(c, f, watched);
            let ends = (if watched.contains(f.to) {
                1nat
            } else {
                0
            }) + (if watched.contains(f.from) {
                1nat
            } else {
                0
            });
            &&& rows.len() == ends
            &&& watched.contains(f.to) ==> rows[0].address == f.to && rows[0].counterparty == f.from
                && rows[0].direction == Direction::In && rows[0].trace_path == f.trace_path
            &&& watched.contains(f.from) ==> rows.last().address == f.from
                && rows.last().counterparty == f.to && rows.last().direction == Direction::Out
                && rows.last().trace_path == f.trace_path + ":out"@
            &&& forall|k: int|
                0 <= k < rows.len() ==> (#[trigger] rows[k]).amount_wei == f.value
                    && rows[k].tx_hash == c.tx_hash && rows[k].reverted == c.reverted
                    && rows[k].chain_id == c.chain_id && rows[k].block_number == c.block_number
                    && rows[k].block_hash == c.block_hash && rows[k].kind != EthKind::System
        }),
{
}

/// The rows of frames are those of each, one after the other.
pub proof fn frames_are_booked_one_after_the_other(
    c: FrameContext,
    frames: Seq<Frame>,
    f: Frame,
    watched: Set<Address>,
)
    ensures
        frames_rows(c, frames.push(f), watched, frames.len() + 1) == frames_rows(
            c,
            frames,
            watched,
            frames.len(),
        ) + frame_rows(c, f, watched),
        frames_rows(c, Seq::empty(), watched, 0).len() == 0,
{
    lemma_frames_rows_push(c, frames, f, watched, frames.len());
}

proof fn lemma_frames_rows_push(
    c: FrameContext,
    frames: Seq<Frame>,
    f: Frame,
    watched: Set<Address>,
    n: nat,
)
    requires
        n <= frames.len(),
    ensures
        frames_rows(c, frames.push(f), watched, n) == frames_rows(c, frames, watched, n),
    decreases n,
{
    if n > 0 {
        lemma_frames_rows_push(c, frames, f, watched, (n - 1) as nat);
    }
}

} // verus!
