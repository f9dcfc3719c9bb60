//! From a committed block of an OP Stack chain to its rows.

use vstd::prelude::*;
use crate::committed;
use crate::committed::{Block, CommittedBlock, Execution, Reexecution};
use crate::config::PassbookConfig;
use crate::exex;
use crate::exex::ProcessingError;
use crate::ledger::writer::BlockBatch;
use crate::optimism;
use crate::optimism::{OptimismStack, TxKind};
use crate::primitives::{Address, B256, U256};
use crate::stack::StackAdapter;
use crate::system;
use crate::system::Credit;

verus! {

/// What a deposit mints, for whom and on whose behalf.
#[derive(Clone, Copy, Debug)]
pub struct Deposit {
    pub mint: u128,
    pub to: TxKind,
    pub from: Address,
}

/// What an OP Stack transaction has besides: the deposit, if it is one, and its
/// encoding.
#[derive(Clone, Debug)]
pub struct OpTx {
    pub deposit: Option<Deposit>,
    pub encoded: Vec<u8>,
}

/// A committed block of an OP Stack chain.
#[derive(Clone, Debug)]
pub struct OpCommittedBlock {
    pub block: CommittedBlock,
    /// One for each transaction of the block.
    pub op_txs: Vec<OpTx>,
}

/// What an [`OpCommittedBlock`] says, the encodings aside.
pub struct OpBlock {
    pub block: Block,
    pub deposits: Seq<Option<Deposit>>,
}

impl View for OpCommittedBlock {
    type V = OpBlock;

    open spec fn view(&self) -> OpBlock {
        OpBlock {
            block: self.block@,
            deposits: Seq::new(self.op_txs@.len(), |i: int| self.op_txs@[i].deposit),
        }
    }
}

impl OpBlock {
    pub open spec fn wf(self) -> bool {
        self.deposits.len() == self.block.transactions.len()
    }

    /// The deposits among the first `n` transactions.
    pub open spec fn deposit_list(self, n: nat) -> Seq<(u128, TxKind, Address, B256)>
        decreases n,
    {
        if n == 0 {
            Seq::empty()
        } else {
            let before = self.deposit_list((n - 1) as nat);
            match self.deposits[n - 1] {
                Some(d) => before.push(
                    (d.mint, d.to, d.from, self.block.transactions[n - 1].hash),
                ),
                None => before,
            }
        }
    }

    /// The price, gas and data fee of those among the first `n` transactions
    /// that are no deposits.
    pub open spec fn vault_txs(
        self,
        e: Execution,
        fees: spec_fn(nat) -> Option<U256>,
        n: nat,
    ) -> Seq<(u128, u64, U256)>
        decreases n,
    {
        if n == 0 {
            Seq::empty()
        } else {
            let before = self.vault_txs(e, fees, (n - 1) as nat);
            if self.deposits[n - 1] is Some {
                before
            } else {
                before.push(
                    (
                        self.block.transactions[n - 1].effective_gas_price,
                        e.gas_used(n - 1),
                        U256::number(crate::attribution::or_zero(fees((n - 1) as nat))),
                    ),
                )
            }
        }
    }

    /// The protocol credits of the block: what deposits mint, then what the fee
    /// vaults take.
    pub open spec fn credits(
        self,
        e: Execution,
        watched: Set<Address>,
        fees: spec_fn(nat) -> Option<U256>,
    ) -> Seq<Credit> {
        let deposits = self.deposit_list(self.deposits.len());
        optimism::deposit_credits(deposits, watched, deposits.len()) + optimism::vault_credits(
            watched,
            self.block.beneficiary,
            self.block.base_fee_wei(),
            self.vault_txs(e, fees, self.block.executed(e)),
        )
    }
}

fn collect_deposits(b: &OpCommittedBlock) -> (r: Vec<(u128, TxKind, Address, B256)>)
    requires
        b@.wf(),
    ensures
        r@ == b@.deposit_list(b@.deposits.len()),
{
    let mut out: Vec<(u128, TxKind, Address, B256)> = Vec::new();
    let mut k: usize = 0;
    while k < b.op_txs.len()
        invariant
            k <= b.op_txs@.len(),
            b@.wf(),
            out@ == b@.deposit_list(k as nat),
        decreases b.op_txs@.len() - k,
    {
        if let Some(d) = b.op_txs[k].deposit {
            out.push((d.mint, d.to, d.from, b.block.transactions[k].hash));
        }
        k += 1;
    }
    out
}

fn collect_vault_txs(
    b: &OpCommittedBlock,
    outcome: &committed::BlockOutcome,
    l1: &OptimismStack,
) -> (r: Vec<(u128, u64, U256)>)
    requires
        b@.wf(),
    ensures
        r@ == b@.vault_txs(outcome@, |k: nat| l1.l1_fee(k), b@.block.executed(outcome@)),
{
    let ghost fees = |k: nat| l1.l1_fee(k);
    let mut out: Vec<(u128, u64, U256)> = Vec::new();
    let mut k: usize = 0;
    while k < b.block.transactions.len() && k < outcome.receipts.len()
        invariant
            k <= b.block.transactions@.len(),
            k <= outcome.receipts@.len(),
            b@.wf(),
            fees == (|k: nat| l1.l1_fee(k)),
            out@ == b@.vault_txs(outcome@, fees, k as nat),
        decreases b.block.transactions@.len() - k,
    {
        let gas_used: u64 = committed::gas_used_at(outcome, k);
        if b.op_txs[k].deposit.is_none() {
            let l1_fee = match l1.l1_data_fee_wei(k) {
                Some(f) => f,
                None => U256::zero(),
            };
            proof {
                l1_fee.lemma_number();
            }
            out.push((b.block.transactions[k].effective_gas_price, gas_used, l1_fee));
        }
        k += 1;
    }
    out
}

/// The OP Stack's way from a committed block to its rows.
#[derive(Clone, Copy, Debug, Default)]
pub struct OpChainExec;

impl OpChainExec {
    /// What becomes of a committed block whose data fees are known. The
    /// re-execution is looked at only where it is needed; if it could not take
    /// place, the block is recorded without its frames and what stays open is
    /// marked.
    pub fn process_with_fees(
        &self,
        chain_id: u64,
        b: &OpCommittedBlock,
        cfg: &PassbookConfig,
        l1: &OptimismStack,
        reexecution: &Reexecution,
    ) -> (r: Result<BlockBatch, ProcessingError>)
        requires
            b@.wf(),
            b@.block.transfers_have_txs(cfg.watched@),
        ensures
            exex::outcome_view(r) == b@.block.outcome_with(
                chain_id,
                cfg.watched@,
                |k: nat| l1.l1_fee(k),
                |e: Execution| b@.credits(e, cfg.watched@, |k: nat| l1.l1_fee(k)),
                reexecution@,
            ),
    {
        let outcome = match &b.block.outcome {
            Some(o) => o,
            None => return Err(ProcessingError::Decode { block: b.block.number }),
        };
        let deposits = collect_deposits(b);
        let mut credits = optimism::deposit_mint_credits(deposits.as_slice(), &cfg.watched);
        let vault_txs = collect_vault_txs(b, outcome, l1);
        let mut vaults = optimism::fee_vault_credits(
            &cfg.watched,
            b.block.beneficiary,
            committed::base_fee_of(&b.block),
            vault_txs.as_slice(),
        );
        let ghost first = credits@;
        let ghost second = vaults@;
        credits.append(&mut vaults);
        proof {
            assert(system::credits_view(credits@) =~= system::credits_view(first)
                + system::credits_view(second));
        }
        committed::finish_block(
            chain_id,
            &b.block,
            outcome,
            &cfg.watched,
            l1,
            credits,
            reexecution,
        )
    }

    /// What becomes of a committed block. Its data fees come from `fee_of`, which
    /// is missing if the block's fee parameters could not be read: then there are
    /// none.
    pub fn process_committed_block<F: Fn(&[u8]) -> Option<U256>>(
        &self,
        chain_id: u64,
        b: &OpCommittedBlock,
        cfg: &PassbookConfig,
        fee_of: Option<F>,
        reexecution: &Reexecution,
    ) -> (r: Result<BlockBatch, ProcessingError>)
        requires
            b@.wf(),
            b@.block.transfers_have_txs(cfg.watched@),
            fee_of matches Some(f) ==> forall|raw: &[u8]| #[trigger] call_requires(f, (raw,)),
        ensures
            exists|l1: OptimismStack|
                {
                    &&& is_fee_table(b.op_txs@, fee_of, #[trigger] l1@)
                    &&& exex::outcome_view(r) == b@.block.outcome_with(
                        chain_id,
                        cfg.watched@,
                        |k: nat| l1.l1_fee(k),
                        |e: Execution| b@.credits(e, cfg.watched@, |k: nat| l1.l1_fee(k)),
                        reexecution@,
                    )
                },
    {
        let l1 = fee_table(b.op_txs.as_slice(), &fee_of);
        self.process_with_fees(chain_id, b, cfg, &l1, reexecution)
    }
}

/// What the table holds for a transaction: nothing for a deposit or for a fee of
/// nothing, otherwise what `fee_of` makes of its encoding.
pub open spec fn is_recorded_fee<F: Fn(&[u8]) -> Option<U256>>(
    fee_of: F,
    tx: OpTx,
    recorded: Option<U256>,
) -> bool {
    if tx.deposit is Some {
        recorded == None::<U256>
    } else {
        exists|raw: &[u8], fee: Option<U256>|
            {
                &&& raw@ == tx.encoded@
                &&& #[trigger] call_ensures(fee_of, (raw,), fee)
                &&& recorded == optimism::nonzero_fee(fee)
            }
    }
}

/// The data fees of a block: one entry for each transaction, all of them nothing
/// if the fee parameters could not be read.
pub open spec fn is_fee_table<F: Fn(&[u8]) -> Option<U256>>(
    txs: Seq<OpTx>,
    fee_of: Option<F>,
    table: Seq<Option<U256>>,
) -> bool {
    &&& table.len() == txs.len()
    &&& forall|i: int|
        #![trigger table[i]]
        0 <= i < txs.len() ==> match fee_of {
            Some(f) => is_recorded_fee(f, txs[i], table[i]),
            None => table[i] == None::<U256>,
        }
}

/// The data fees of a block.
fn fee_table<F: Fn(&[u8]) -> Option<U256>>(txs: &[OpTx], fee_of: &Option<F>) -> (r: OptimismStack)
    requires
        fee_of matches Some(f) ==> forall|raw: &[u8]| #[trigger] call_requires(f, (raw,)),
    ensures
        is_fee_table(txs@, *fee_of, r@),
{
    match fee_of {
        None => OptimismStack::without_fees(txs.len()),
        Some(f) => {
            let mut metas: Vec<(bool, Vec<u8>)> = Vec::new();
            let mut k: usize = 0;
            while k < txs.len()
                invariant
                    k <= txs@.len(),
                    metas@.len() == k,
                    forall|i: int|
                        #![trigger metas@[i]]
                        0 <= i < k ==> metas@[i].0 == (txs@[i].deposit is Some) && metas@[i].1@
                            == txs@[i].encoded@,
                decreases txs@.len() - k,
            {
                let encoded = txs[k].encoded.clone();
                assert(encoded@ =~= txs@[k as int].encoded@);
                metas.push((txs[k].deposit.is_some(), encoded));
                k += 1;
            }
            let recorded = |raw: &[u8]| -> (fee: Option<U256>)
                requires
                    call_requires(f, (raw,)),
                ensures
                    exists|computed: Option<U256>| #[trigger]
                        call_ensures(f, (raw,), computed) && fee == optimism::nonzero_fee(computed),
                {
                    let computed = f(raw);
                    optimism::recorded_l1_fee(computed)
                };
            let table = optimism::build_block_l1_fee_table(metas.as_slice(), recorded);
            proof {
                assert forall|i: int| #![trigger table@[i]] 0 <= i
                    < txs@.len() implies is_recorded_fee(*f, txs@[i], table@[i]) by {
                    assert(optimism::is_table_entry(
                        recorded,
                        metas@[i].0,
                        metas@[i].1@,
                        table@[i],
                    ));
                    if !(txs@[i].deposit is Some) {
                        let raw = choose|raw: &[u8]|
                            raw@ == metas@[i].1@ && #[trigger] call_ensures(
                                recorded,
                                (raw,),
                                table@[i],
                            );
                        let computed = choose|computed: Option<U256>| #[trigger]
                            call_ensures(*f, (raw,), computed) && table@[i]
                                == optimism::nonzero_fee(computed);
                        assert(call_ensures(*f, (raw,), computed));
                    }
                }
            }
            table
        },
    }
}

/// A deposit has no data fee, and no transaction has one if the fee parameters could
/// not be read. The data fee of another transaction comes from its own encoding: it is
/// what the parameters make of it, unless that is nothing.
pub proof fn data_fees_come_from_encodings<F: Fn(&[u8]) -> Option<U256>>(
    txs: Seq<OpTx>,
    fee_of: Option<F>,
    table: Seq<Option<U256>>,
    k: int,
)
    requires
        is_fee_table(txs, fee_of, table),
        0 <= k < txs.len(),
    ensures
        table.len() == txs.len(),
        txs[k].deposit is Some || fee_of is None ==> table[k] is None,
        fee_of matches Some(f) ==> txs[k].deposit is None ==> exists|
            raw: &[u8],
            fee: Option<U256>,
        |
            raw@ == txs[k].encoded@ && #[trigger] call_ensures(f, (raw,), fee) && match fee {
                Some(v) => if v@ == 0 {
                    table[k] is None
                } else {
                    table[k] == Some(v)
                },
                None => table[k] is None,
            },
{
    assert(table[k] == table[k]);
    if let Some(f) = fee_of {
        if txs[k].deposit is None {
            assert(is_recorded_fee(f, txs[k], table[k]));
            let (raw, fee) = choose|raw: &[u8], fee: Option<U256>|
                {
                    &&& raw@ == txs[k].encoded@
                    &&& #[trigger] call_ensures(f, (raw,), fee)
                    &&& table[k] == optimism::nonzero_fee(fee)
                };
            assert(call_ensures(f, (raw,), fee));
        }
    }
}

} // verus!
