//! The models that contracts speak of hold what the values hold, field by field.

use vstd::prelude::*;
use crate::attribution;
use crate::committed::{CommittedBlock, Receipt, Reexecution, Replay};
use crate::driver::{Action, Event, Happening, Order};
use crate::erc20::RawLog;
use crate::exex::{BlockInputs, Failure, ProcessingError};
use crate::inspector;
use crate::inspector::CapturedFrame;
use crate::ledger::queries;
use crate::ledger::queries::{FetchedRow, TransferRowOut, TransfersPage, TransfersQuery};
use crate::ledger::tables;
use crate::ledger::tables::{Op, Row, SqlValue, Statement, Value};
use crate::ledger::writer::BlockBatch;
use crate::model::EthTransferRow;
use crate::op_chain::OpCommittedBlock;
use crate::reexec::Captured;
use crate::system::SystemCredit;

verus! {

/// The model of what is known of a block holds it item for item.
pub proof fn block_inputs_are_modelled_as_they_are(i: BlockInputs)
    ensures
        i@.chain_id == i.chain_id,
        i@.block_number == i.block_number,
        i@.block_hash == i.block_hash,
        i@.watched == i.watched@,
        i@.gas == i.gas@,
        i@.deltas == i.account_deltas@,
        i@.logs.len() == i.erc20_logs@.len(),
        forall|k: int|
            0 <= k < i.erc20_logs@.len() ==> (#[trigger] i@.logs[k]).tx_hash == i.erc20_logs@[k].0
                && i@.logs[k].log_index == i.erc20_logs@[k].1 && i@.logs[k].log
                == i.erc20_logs@[k].2@,
        i@.frames.len() == i.frames@.len(),
        forall|k: int|
            0 <= k < i.frames@.len() ==> (#[trigger] i@.frames[k]).tx_hash == i.frames@[k].0
                && i@.frames[k].reverted == i.frames@[k].1 && i@.frames[k].frame == i.frames@[k].2@,
        i@.credits.len() == i.system_signed@.len(),
        forall|k: int|
            0 <= k < i.system_signed@.len() ==> #[trigger] i@.credits[k] == i.system_signed@[k]@,
{
}

/// The models of a log, a frame, a credit and a native row hold their fields.
pub proof fn entries_are_modelled_as_they_are(
    log: RawLog,
    frame: CapturedFrame,
    credit: SystemCredit,
    row: EthTransferRow,
)
    ensures
        log@.address == log.address && log@.topics == log.topics@ && log@.data == log.data@,
        frame@.from == frame.from && frame@.to == frame.to && frame@.value == frame.value@,
        frame@.kind == frame.kind && frame@.trace_path == frame.trace_path@,
        credit@.address == credit.address && credit@.signed_wei == credit.signed_wei,
        credit@.counterparty == credit.counterparty && credit@.source == credit.source@,
        row@.chain_id == row.chain_id && row@.block_number == row.block_number,
        row@.block_hash == row.block_hash && row@.tx_hash == row.tx_hash,
        row@.trace_path == row.trace_path@ && row@.address == row.address,
        row@.direction == row.direction && row@.counterparty == row.counterparty,
        row@.amount_wei == row.amount_wei@ && row@.kind == row.kind,
        row@.reverted == row.reverted,
{
}

/// The model of a batch holds its rows.
pub proof fn batches_are_modelled_as_they_are(b: BlockBatch)
    ensures
        b@.chain_id == b.chain_id,
        b@.block_number == b.block_number,
        b@.block_hash == b.block_hash,
        b@.erc20 == b.erc20@,
        b@.gas == b.gas@,
        b@.unattributed == b.unattributed@,
        b@.eth.len() == b.eth@.len(),
        forall|k: int| 0 <= k < b.eth@.len() ==> #[trigger] b@.eth[k] == b.eth@[k]@,
{
}

/// The model of a committed block holds it item for item.
pub proof fn committed_blocks_are_modelled_as_they_are(b: CommittedBlock)
    ensures
        b@.number == b.number,
        b@.hash == b.hash,
        b@.base_fee == b.base_fee,
        b@.beneficiary == b.beneficiary,
        b@.transactions == b.transactions@,
        b.withdrawals is None <==> b@.withdrawals is None,
        b.withdrawals matches Some(w) ==> b@.withdrawals->0 == w@,
        b.outcome is None <==> b@.outcome is None,
        b.outcome matches Some(o) ==> {
            let e = b@.outcome->0;
            &&& e == o@
            &&& e.accounts == o.accounts@
            &&& e.receipts.len() == o.receipts@.len()
            &&& forall|k: int|
                0 <= k < o.receipts@.len() ==> #[trigger] e.receipts[k] == o.receipts@[k]@
        },
{
}

/// The model of a receipt holds its fields and its logs.
pub proof fn receipts_are_modelled_as_they_are(r: Receipt)
    ensures
        r@.success == r.success,
        r@.cumulative_gas_used == r.cumulative_gas_used,
        r@.logs.len() == r.logs@.len(),
        forall|k: int| 0 <= k < r.logs@.len() ==> #[trigger] r@.logs[k] == r.logs@[k]@,
{
}

/// The model of an OP Stack block holds its block and its deposits.
pub proof fn op_blocks_are_modelled_as_they_are(b: OpCommittedBlock)
    ensures
        b@.block == b.block@,
        b@.deposits.len() == b.op_txs@.len(),
        forall|k: int|
            0 <= k < b.op_txs@.len() ==> #[trigger] b@.deposits[k] == b.op_txs@[k].deposit,
        b@.wf() <==> b.op_txs@.len() == b.block.transactions@.len(),
{
}

/// The model of a capture holds its frames with their tags.
pub proof fn captures_are_modelled_as_they_are(c: Captured, r: Reexecution)
    ensures
        c@.tx_hashes == c.tx_hashes@,
        c@.tx_reverted == c.tx_reverted@,
        c@.frames.len() == c.frames@.len(),
        forall|k: int|
            0 <= k < c.frames@.len() ==> (#[trigger] c@.frames[k]).frame == c.frames@[k].frame@
                && c@.frames[k].tx_index == c.frames@[k].tx_index && c@.frames[k].top_level
                == c.frames@[k].top_level,
        r is Unavailable <==> r@ is Unavailable,
        r is Failed <==> r@ is Failed,
        r matches Reexecution::Done(d) ==> r@ == Replay::Done(d@),
{
}

/// The model of an error says what it says.
pub proof fn errors_are_modelled_as_they_are(e: ProcessingError)
    ensures
        e matches ProcessingError::Decode { block: b } ==> e@ == (Failure::Decode { block: b }),
        e matches ProcessingError::UnexplainedResidual { block: b, address: a, residual: r } ==> e@
            == (Failure::UnexplainedResidual { block: b, address: a, residual: r as int }),
        e matches ProcessingError::ReconcileOverflow { block: b, address: a } ==> e@
            == (Failure::ReconcileOverflow { block: b, address: a }),
        e matches ProcessingError::ParentStateUnavailable { block: b, msg: m } ==> e@
            == (Failure::ParentStateUnavailable { block: b, msg: m@ }),
{
}

/// The models of what the driver is told and of what it says hold the same.
pub proof fn events_and_actions_are_modelled_as_they_are(e: Event, a: Action)
    ensures
        e matches Event::Notification { reverted: r, committed: c } ==> e@
            == (Happening::Notification { reverted: r@, committed: c@ }),
        e matches Event::Deleted(ok) ==> e@ == Happening::Deleted(ok),
        e matches Event::GapHash(h) ==> e@ == Happening::GapHash(h),
        e matches Event::GapMarked(ok) ==> e@ == Happening::GapMarked(ok),
        e matches Event::Processed(p) ==> e@ == Happening::Processed(p),
        e matches Event::BlockWritten(ok) ==> e@ == Happening::BlockWritten(ok),
        e matches Event::Reported(ok) ==> e@ == Happening::Reported(ok),
        a matches Action::DeleteBlocks { hashes: h } ==> a@ == (Order::DeleteBlocks { hashes: h@ }),
        a matches Action::FetchGapHash { number: n } ==> a@ == (Order::FetchGapHash { number: n }),
        a matches Action::WriteGapMarker { block: b } ==> a@ == (Order::WriteGapMarker {
            block: b,
        }),
        a matches Action::ProcessBlock { index: i } ==> a@ == (Order::ProcessBlock {
            index: i as nat,
        }),
        a matches Action::WriteBlock { index: i } ==> a@ == (Order::WriteBlock { index: i as nat }),
        a matches Action::WriteDiagnostic { row: r } ==> a@ == (Order::WriteDiagnostic { row: r }),
        a matches Action::Sleep { ms: m } ==> a@ == (Order::Sleep { ms: m }),
        a matches Action::ReportFinished { block: b } ==> a@ == (Order::ReportFinished {
            block: b,
        }),
{
}

/// The models of sequences hold their items in order.
pub proof fn sequences_are_modelled_in_order(
    frames: Seq<CapturedFrame>,
    rows: Seq<EthTransferRow>,
    fetched: Seq<FetchedRow>,
    answered: Seq<TransferRowOut>,
    statements: Seq<Statement>,
    values: Seq<SqlValue>,
    k: int,
)
    ensures
        inspector::frames_view(frames).len() == frames.len(),
        0 <= k < frames.len() ==> inspector::frames_view(frames)[k] == frames[k]@,
        attribution::eth_rows_view(rows).len() == rows.len(),
        0 <= k < rows.len() ==> attribution::eth_rows_view(rows)[k] == rows[k]@,
        queries::fetched_view(fetched).len() == fetched.len(),
        0 <= k < fetched.len() ==> queries::fetched_view(fetched)[k] == fetched[k]@,
        queries::answered_view(answered).len() == answered.len(),
        0 <= k < answered.len() ==> queries::answered_view(answered)[k] == answered[k]@,
        tables::ops_view(statements).len() == statements.len(),
        0 <= k < statements.len() ==> tables::ops_view(statements)[k] == statements[k]@,
        tables::values_view(values).len() == values.len(),
        0 <= k < values.len() ==> tables::values_view(values)[k] == values[k]@,
{
}

/// The models of a fetched row, of an answered row and of a query hold their fields.
pub proof fn readings_are_modelled_as_they_are(
    f: FetchedRow,
    a: TransferRowOut,
    q: TransfersQuery,
    p: TransfersPage,
)
    ensures
        f@.category == f.category && f@.block_number == f.block_number,
        f@.block_hash == f.block_hash@ && f@.address == f.address@ && f@.amount == f.amount@,
        f@.tx_hash == queries::opt_text(f.tx_hash),
        f@.direction == queries::opt_text(f.direction),
        f@.counterparty == queries::opt_text(f.counterparty),
        f@.token == queries::opt_text(f.token),
        f@.eth_kind == queries::opt_text(f.eth_kind),
        a@.category == a.category@ && a@.block_number == a.block_number,
        a@.block_hash == a.block_hash@ && a@.address == a.address@ && a@.amount == a.amount@,
        a@.tx_hash == queries::opt_text(a.tx_hash),
        a@.direction == queries::opt_text(a.direction),
        a@.counterparty == queries::opt_text(a.counterparty),
        a@.token == queries::opt_text(a.token),
        a@.kind == queries::opt_text(a.kind),
        q@.chain_id == q.chain_id && q@.address == q.address@,
        q@.lo == q.lo && q@.hi == q.hi && q@.want == q.want && q@.lim == q.lim,
        p@.rows == queries::answered_view(p.rows@) && p@.next_cursor == p.next_cursor,
        f.tx_hash matches Some(s) ==> queries::opt_text(f.tx_hash) == Some(s@),
        f.tx_hash is None ==> queries::opt_text(f.tx_hash) is None,
{
}

/// A statement is handed over with the values that it says: those of its row, its
/// single value, or the chain and the hash of the block whose rows are to go.
pub proof fn statements_are_modelled_as_they_are(s: Statement, v: SqlValue)
    ensures
        s matches Statement::Put { table: t, values: w } ==> s@ == Op::Put(
            Row { table: t, values: tables::values_view(w@) },
        ) && s@.params() == tables::values_view(w@),
        s matches Statement::SetMeta { key: k, value: w } ==> s@ == (Op::SetMeta {
            key: k,
            value: w@,
        }) && s@.params() == seq![Value::Text(w@)],
        s matches Statement::DeleteBlock { table: t, chain_id: c, block_hash: h } ==> s@
            == (Op::DeleteBlock { table: t, chain_id: c as int, block_hash: h@ }) && s@.params()
            == seq![Value::Integer(c as int), Value::Text(h@)],
        v is Null ==> v@ == Value::Null,
        v matches SqlValue::Unsigned(n) ==> v@ == Value::Integer(n as int),
        v matches SqlValue::Signed(n) ==> v@ == Value::Integer(n as int),
        v matches SqlValue::Text(t) ==> v@ == Value::Text(t@),
{
}

} // verus!
