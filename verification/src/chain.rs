//! A base chain's way from a committed block to its rows.

use vstd::prelude::*;
use crate::committed;
use crate::committed::{CommittedBlock, Execution, Reexecution};
use crate::config::PassbookConfig;
use crate::exex;
use crate::exex::ProcessingError;
use crate::ledger::writer::BlockBatch;
use crate::stack::StackAdapter;

verus! {

/// Processes the blocks of a base chain, with a new adapter for each.
#[verifier::reject_recursive_types(S)]
pub struct EthChainExec<S: StackAdapter, F: Fn() -> S> {
    make_adapter: F,
    adapter: core::marker::PhantomData<S>,
}

impl<S: StackAdapter, F: Fn() -> S> EthChainExec<S, F> {
    /// What makes the adapters.
    pub closed spec fn maker(self) -> F {
        self.make_adapter
    }

    pub fn new(make_adapter: F) -> (r: EthChainExec<S, F>)
        ensures
            r.maker() == make_adapter,
    {
        EthChainExec { make_adapter, adapter: core::marker::PhantomData }
    }

    /// What becomes of a committed block, with an adapter that was made for it.
    pub fn process_committed_block(
        &self,
        chain_id: u64,
        block: &CommittedBlock,
        cfg: &PassbookConfig,
        reexecution: &Reexecution,
    ) -> (r: Result<BlockBatch, ProcessingError>)
        requires
            block@.transfers_have_txs(cfg.watched@),
            call_requires(self.maker(), ()),
        ensures
            exists|adapter: S| #[trigger]
                call_ensures(self.maker(), (), adapter) && exex::outcome_view(r)
                    == block@.outcome_with(
                    chain_id,
                    cfg.watched@,
                    |k: nat| adapter.l1_fee(k),
                    |e: Execution| block@.l1_credits(e, cfg.watched@),
                    reexecution@,
                ),
    {
        let adapter = (self.make_adapter)();
        let r = committed::process_committed_block_inner(
            chain_id,
            block,
            cfg,
            &adapter,
            reexecution,
        );
        assert(call_ensures(self.maker(), (), adapter));
        r
    }
}

} // verus!
