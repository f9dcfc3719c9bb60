//! Everything that a block adds is in the ledger afterwards. No row of a block takes
//! the place of another, but for one case: of the two rows of a token transfer from
//! an address to itself, the outgoing one stays.

use vstd::prelude::*;
use crate::attribution;
use crate::committed;
use crate::committed::{Block, Execution, Replay};
use crate::exex;
use crate::exex::{FrameEntry, Inputs};
use crate::laws as block_laws;
use crate::ledger::laws as ledger_laws;
use crate::ledger::tables::{Store, Value};
use crate::ledger::writer;
use crate::ledger::writer::Batch;
use crate::model::{Direction, Erc20TransferRow, EthTransfer, UnattributedDeltaRow};
use crate::op_chain::OpBlock;
use crate::optimism;
use crate::optimism::TxKind;
use crate::primitives::{Address, B256, U256};
use crate::reexec;
use crate::reexec::{BlockCapture, Tagged, TaggedCapture};
use crate::system;
use crate::system::Credit;
use crate::text;

verus! {

/// The name of a frame: a number, or `tx:` and a number.
pub open spec fn is_frame_name(s: Seq<char>) -> bool {
    exists|n: nat| s == #[trigger] text::decimal(n) || s == "tx:"@ + text::decimal(n)
}

/// No two frames have one transaction and one name.
pub open spec fn frames_are_distinct(frames: Seq<FrameEntry>) -> bool {
    &&& forall|k: int| 0 <= k < frames.len() ==> is_frame_name((#[trigger] frames[k]).frame.trace_path)
    &&& forall|j: int, k: int|
        0 <= j < k < frames.len() ==> (#[trigger] frames[j]).tx_hash != (#[trigger] frames[k]).tx_hash
            || frames[j].frame.trace_path != frames[k].frame.trace_path
}

/// No two logs have one number.
pub open spec fn logs_are_distinct(i: Inputs) -> bool {
    forall|j: int, k: int|
        0 <= j < k < i.logs.len() ==> (#[trigger] i.logs[j]).log_index != (
        #[trigger] i.logs[k]).log_index
}

/// No two fees are of one transaction.
pub open spec fn fees_are_distinct(i: Inputs) -> bool {
    forall|j: int, k: int|
        0 <= j < k < i.gas.len() ==> (#[trigger] i.gas[j]).tx_hash != (#[trigger] i.gas[k]).tx_hash
}

/// No two credits of one address have one source.
pub open spec fn credits_are_distinct(credits: Seq<Credit>) -> bool {
    forall|j: int, k: int|
        0 <= j < k < credits.len() ==> (#[trigger] credits[j]).address != (
        #[trigger] credits[k]).address || credits[j].source != credits[k].source
}

/// Whether two native-value rows have one key.
pub open spec fn same_slot(a: EthTransfer, b: EthTransfer) -> bool {
    a.tx_hash == b.tx_hash && a.trace_path == b.trace_path
}

/// A decimal text is digits from first to last.
proof fn lemma_decimal_digits(n: nat)
    ensures
        text::decimal(n).len() > 0,
        text::is_digit(text::decimal(n)[0]),
        text::is_digit(text::decimal(n).last()),
    decreases n,
{
    if n >= 10 {
        lemma_decimal_digits(n / 10);
        let head = text::decimal(n / 10);
        assert(text::decimal(n)[0] == head[0]);
    }
}

/// A frame's name begins with a digit or a `t` and ends with a digit.
proof fn lemma_frame_name(s: Seq<char>)
    requires
        is_frame_name(s),
    ensures
        s.len() > 0,
        text::is_digit(s[0]) || s[0] == 't',
        text::is_digit(s.last()),
{
    let n = choose|n: nat| s == #[trigger] text::decimal(n) || s == "tx:"@ + text::decimal(n);
    lemma_decimal_digits(n);
    reveal_strlit("tx:");
    if s != text::decimal(n) {
        assert(s[0] == "tx:"@[0]);
        assert(s.last() == text::decimal(n).last());
    }
}

/// Where a frame's row comes from.
spec fn from_frame(r: EthTransfer, e: FrameEntry) -> bool {
    r.tx_hash == e.tx_hash && (r.trace_path == e.frame.trace_path || r.trace_path
        == e.frame.trace_path + ":out"@)
}

spec fn from_some_frame(r: EthTransfer, frames: Seq<FrameEntry>, n: nat) -> bool {
    exists|j: int| 0 <= j < n && from_frame(r, #[trigger] frames[j])
}

proof fn lemma_origins(i: Inputs, n: nat)
    requires
        n <= i.frames.len(),
    ensures
        forall|k: int|
            0 <= k < i.frame_rows(n).len() ==> from_some_frame(
                #[trigger] i.frame_rows(n)[k],
                i.frames,
                n,
            ),
    decreases n,
{
    if n > 0 {
        let m = (n - 1) as nat;
        lemma_origins(i, m);
        let before = i.frame_rows(m);
        let added = attribution::frame_rows(i.context(n - 1), i.frames[n - 1].frame, i.watched);
        assert forall|k: int| 0 <= k < i.frame_rows(n).len() implies from_some_frame(
            #[trigger] i.frame_rows(n)[k],
            i.frames,
            n,
        ) by {
            if k < before.len() {
                assert(from_some_frame(before[k], i.frames, m));
                let j = choose|j: int| 0 <= j < m && from_frame(before[k], #[trigger] i.frames[j]);
                assert(from_frame(i.frame_rows(n)[k], i.frames[j]));
            } else {
                assert(i.frame_rows(n)[k] == added[k - before.len()]);
                assert(from_frame(i.frame_rows(n)[k], i.frames[n - 1]));
            }
        }
    }
}

/// Rows of different frames have different keys.
proof fn lemma_frames_apart(a: EthTransfer, b: EthTransfer, e: FrameEntry, f: FrameEntry)
    requires
        from_frame(a, e),
        from_frame(b, f),
        is_frame_name(e.frame.trace_path),
        is_frame_name(f.frame.trace_path),
        e.tx_hash != f.tx_hash || e.frame.trace_path != f.frame.trace_path,
    ensures
        !same_slot(a, b),
{
    reveal_strlit(":out");
    let p = e.frame.trace_path;
    let q = f.frame.trace_path;
    lemma_frame_name(p);
    lemma_frame_name(q);
    let po = p + ":out"@;
    let qo = q + ":out"@;
    assert(po.last() == ":out"@[3]);
    assert(qo.last() == ":out"@[3]);
    assert(!text::is_digit(po.last()));
    assert(!text::is_digit(qo.last()));
    if po == qo {
        assert(po.take(po.len() - 4) =~= p);
        assert(qo.take(qo.len() - 4) =~= q);
    }
}

proof fn lemma_frame_rows_apart(i: Inputs, n: nat)
    requires
        n <= i.frames.len(),
        frames_are_distinct(i.frames),
    ensures
        forall|j: int, k: int|
            0 <= j < k < i.frame_rows(n).len() ==> !same_slot(
                #[trigger] i.frame_rows(n)[j],
                #[trigger] i.frame_rows(n)[k],
            ),
    decreases n,
{
    if n > 0 {
        let m = (n - 1) as nat;
        lemma_frame_rows_apart(i, m);
        lemma_origins(i, m);
        let rows = i.frame_rows(n);
        let before = i.frame_rows(m);
        let e = i.frames[n - 1];
        let added = attribution::frame_rows(i.context(n - 1), e.frame, i.watched);
        reveal_strlit(":out");
        assert forall|j: int, k: int| 0 <= j < k < rows.len() implies !same_slot(
            #[trigger] rows[j],
            #[trigger] rows[k],
        ) by {
            if k < before.len() {
                assert(!same_slot(before[j], before[k]));
            } else if j < before.len() {
                assert(from_some_frame(before[j], i.frames, m));
                let o = choose|o: int| 0 <= o < m && from_frame(before[j], #[trigger] i.frames[o]);
                assert(rows[k] == added[k - before.len()]);
                assert(from_frame(rows[k], e));
                assert(i.frames[o].tx_hash != e.tx_hash || i.frames[o].frame.trace_path
                    != e.frame.trace_path);
                lemma_frames_apart(rows[j], rows[k], i.frames[o], e);
            } else {
                assert(rows[j] == added[j - before.len()]);
                assert(rows[k] == added[k - before.len()]);
                assert(rows[k].trace_path.len() == e.frame.trace_path.len() + 4);
                assert(rows[j].trace_path.len() == e.frame.trace_path.len());
            }
        }
    }
}

/// Where a credit's row comes from.
spec fn from_some_credit(r: EthTransfer, i: Inputs, n: nat) -> bool {
    exists|j: int|
        0 <= j < n && r.trace_path == exex::system_trace_path(
            (#[trigger] i.credits[j]).source,
            i.credits[j].address,
        )
}

proof fn lemma_system_rows_apart(i: Inputs, n: nat)
    requires
        n <= i.credits.len(),
        credits_are_distinct(i.credits),
    ensures
        forall|k: int|
            0 <= k < i.system_rows(n).len() ==> from_some_credit(
                #[trigger] i.system_rows(n)[k],
                i,
                n,
            ),
        forall|j: int, k: int|
            0 <= j < k < i.system_rows(n).len() ==> !same_slot(
                #[trigger] i.system_rows(n)[j],
                #[trigger] i.system_rows(n)[k],
            ),
    decreases n,
{
    if n > 0 {
        let m = (n - 1) as nat;
        lemma_system_rows_apart(i, m);
        let rows = i.system_rows(n);
        let before = i.system_rows(m);
        let c = i.credits[n - 1];
        assert forall|k: int| 0 <= k < rows.len() implies from_some_credit(#[trigger] rows[k], i, n) by {
            if k < before.len() {
                assert(from_some_credit(before[k], i, m));
                let j = choose|j: int|
                    0 <= j < m && before[k].trace_path == exex::system_trace_path(
                        (#[trigger] i.credits[j]).source,
                        i.credits[j].address,
                    );
                assert(rows[k].trace_path == exex::system_trace_path(
                    i.credits[j].source,
                    i.credits[j].address,
                ));
            } else {
                assert(rows[k].trace_path == exex::system_trace_path(
                    i.credits[n - 1].source,
                    i.credits[n - 1].address,
                ));
            }
        }
        assert forall|j: int, k: int| 0 <= j < k < rows.len() implies !same_slot(
            #[trigger] rows[j],
            #[trigger] rows[k],
        ) by {
            if k < before.len() {
                assert(!same_slot(before[j], before[k]));
            } else {
                assert(from_some_credit(before[j], i, m));
                let o = choose|o: int|
                    0 <= o < m && before[j].trace_path == exex::system_trace_path(
                        (#[trigger] i.credits[o]).source,
                        i.credits[o].address,
                    );
                if same_slot(rows[j], rows[k]) {
                    block_laws::credit_names_are_distinct(
                        i.credits[o].source,
                        i.credits[o].address,
                        c.source,
                        c.address,
                    );
                    assert(i.credits[o].address != c.address || i.credits[o].source != c.source);
                }
            }
        }
    }
}

/// A credit's name and a frame's row never meet.
proof fn lemma_kinds_apart(frame: EthTransfer, credit: EthTransfer, i: Inputs)
    requires
        frames_are_distinct(i.frames),
        from_some_frame(frame, i.frames, i.frames.len()),
        from_some_credit(credit, i, i.credits.len()),
    ensures
        !same_slot(frame, credit),
{
    let j = choose|j: int|
        0 <= j < i.frames.len() && from_frame(frame, #[trigger] i.frames[j]);
    let o = choose|o: int|
        0 <= o < i.credits.len() && credit.trace_path == exex::system_trace_path(
            (#[trigger] i.credits[o]).source,
            i.credits[o].address,
        );
    lemma_frame_name(i.frames[j].frame.trace_path);
    reveal_strlit("system:");
    assert(credit.trace_path[0] == "system:"@[0]);
    assert(frame.trace_path[0] == i.frames[j].frame.trace_path[0]);
}

/// Where a token transfer's row comes from.
spec fn from_some_log(r: Erc20TransferRow, i: Inputs, n: nat) -> bool {
    exists|j: int| 0 <= j < n && r.log_index == (#[trigger] i.logs[j]).log_index
}

/// Whether a row is the incoming one of a token transfer from an address to itself.
pub open spec fn is_incoming_half(r: Erc20TransferRow) -> bool {
    r.from == r.to && r.direction == Direction::In
}

/// Whether the outgoing row of the same transfer is the next one.
spec fn has_outgoing_half(rows: Seq<Erc20TransferRow>, k: int) -> bool {
    k + 1 < rows.len() && rows[k + 1] == (Erc20TransferRow { direction: Direction::Out, ..rows[k] })
}

/// Two rows with one log and one address are the two of a transfer from that
/// address to itself.
spec fn may_follow(a: Erc20TransferRow, b: Erc20TransferRow) -> bool {
    a.log_index == b.log_index && a.address == b.address ==> is_incoming_half(a)
}

proof fn lemma_erc20_rows_apart(i: Inputs, n: nat)
    requires
        n <= i.logs.len(),
        logs_are_distinct(i),
    ensures
        forall|k: int|
            0 <= k < i.erc20_rows(n).len() ==> from_some_log(#[trigger] i.erc20_rows(n)[k], i, n),
        forall|j: int, k: int|
            0 <= j < k < i.erc20_rows(n).len() ==> may_follow(
                #[trigger] i.erc20_rows(n)[j],
                #[trigger] i.erc20_rows(n)[k],
            ),
        forall|k: int|
            0 <= k < i.erc20_rows(n).len() && is_incoming_half(#[trigger] i.erc20_rows(n)[k])
                ==> has_outgoing_half(i.erc20_rows(n), k),
    decreases n,
{
    if n > 0 {
        let m = (n - 1) as nat;
        lemma_erc20_rows_apart(i, m);
        let rows = i.erc20_rows(n);
        let before = i.erc20_rows(m);
        let added = i.log_rows(n - 1);
        assert forall|k: int| 0 <= k < rows.len() implies from_some_log(#[trigger] rows[k], i, n) by {
            if k < before.len() {
                assert(from_some_log(before[k], i, m));
                let j = choose|j: int|
                    0 <= j < m && before[k].log_index == (#[trigger] i.logs[j]).log_index;
                assert(rows[k].log_index == i.logs[j].log_index);
            } else {
                assert(rows[k] == added[k - before.len()]);
                assert(rows[k].log_index == i.logs[n - 1].log_index);
            }
        }
        let parties = i.logs[n - 1].log.matches(i.watched);
        assert forall|j: int, k: int| 0 <= j < k < rows.len() implies may_follow(
            #[trigger] rows[j],
            #[trigger] rows[k],
        ) by {
            if k < before.len() {
                assert(may_follow(before[j], before[k]));
            } else if j < before.len() {
                assert(from_some_log(before[j], i, m));
                let o = choose|o: int|
                    0 <= o < m && before[j].log_index == (#[trigger] i.logs[o]).log_index;
                assert(rows[k] == added[k - before.len()]);
                assert(i.logs[o].log_index != i.logs[n - 1].log_index);
            } else {
                assert(rows[j] == added[j - before.len()]);
                assert(rows[k] == added[k - before.len()]);
                assert(rows[j].address == parties[j - before.len()].0);
                assert(rows[k].address == parties[k - before.len()].0);
            }
        }
        assert forall|k: int| 0 <= k < rows.len() && is_incoming_half(
            #[trigger] rows[k],
        ) implies has_outgoing_half(rows, k) by {
            if k < before.len() {
                assert(is_incoming_half(before[k]));
                assert(rows[k + 1] == before[k + 1]);
            } else {
                assert(rows[k] == added[k - before.len()]);
                assert(rows[k].direction == parties[k - before.len()].1);
                assert(rows[k + 1] == added[k + 1 - before.len()]);
            }
        }
    }
}

/// No two observed changes are of one address.
pub open spec fn changes_are_distinct(deltas: Seq<(Address, i128)>) -> bool {
    forall|j: int, k: int|
        0 <= j < k < deltas.len() ==> (#[trigger] deltas[j]).0 != (#[trigger] deltas[k]).0
}

/// No two markers are of one address.
spec fn markers_apart(rows: Seq<UnattributedDeltaRow>) -> bool {
    forall|j: int, k: int|
        0 <= j < k < rows.len() ==> (#[trigger] rows[j]).address != (#[trigger] rows[k]).address
}

/// Whether an address is of one of the first `n` changes.
spec fn of_some_change(address: Address, deltas: Seq<(Address, i128)>, n: nat) -> bool {
    exists|j: int| 0 <= j < n && (#[trigger] deltas[j]).0 == address
}

proof fn lemma_markers_apart(i: Inputs, n: nat)
    requires
        changes_are_distinct(i.deltas),
        n <= i.deltas.len(),
    ensures
        markers_apart(committed::markers(i, n)),
        forall|k: int|
            0 <= k < committed::markers(i, n).len() ==> of_some_change(
                (#[trigger] committed::markers(i, n)[k]).address,
                i.deltas,
                n,
            ),
    decreases n,
{
    if n > 0 {
        let m = (n - 1) as nat;
        lemma_markers_apart(i, m);
        let before = committed::markers(i, m);
        let after = committed::markers(i, n);
        assert forall|k: int| 0 <= k < after.len() implies of_some_change(
            (#[trigger] after[k]).address,
            i.deltas,
            n,
        ) by {
            if k < before.len() {
                assert(after[k] == before[k]);
                assert(of_some_change(before[k].address, i.deltas, m));
            } else {
                assert(after[k].address == i.deltas[m as int].0);
            }
        }
        assert forall|j: int, k: int| 0 <= j < k < after.len() implies (
        #[trigger] after[j]).address != (#[trigger] after[k]).address by {
            assert(after[j] == before[j]);
            assert(of_some_change(before[j].address, i.deltas, m));
            if k < before.len() {
                assert(after[k] == before[k]);
            } else {
                let c = choose|c: int|
                    0 <= c < m && (#[trigger] i.deltas[c]).0 == before[j].address;
                assert(i.deltas[c].0 != i.deltas[m as int].0);
            }
        }
    }
}

/// Of the rows of a recorded block only the incoming ones of token transfers from an
/// address to itself are replaced by others.
pub proof fn rows_of_a_block_do_not_replace_others(i: Inputs)
    requires
        frames_are_distinct(i.frames),
        logs_are_distinct(i),
        fees_are_distinct(i),
        credits_are_distinct(i.credits),
    ensures
        ledger_laws::only_superseded_are_replaced(i.batch().records()),
{
    let b = i.batch();
    lemma_rows_apart(i, b.unattributed);
    assert(b == (Batch { unattributed: b.unattributed, ..b }));
}

proof fn lemma_rows_apart(i: Inputs, markers: Seq<UnattributedDeltaRow>)
    requires
        frames_are_distinct(i.frames),
        logs_are_distinct(i),
        fees_are_distinct(i),
        credits_are_distinct(i.credits),
        markers_apart(markers),
    ensures
        ledger_laws::only_superseded_are_replaced(
            (Batch { unattributed: markers, ..i.batch() }).records(),
        ),
{
    let b = Batch { unattributed: markers, ..i.batch() };
    let rows = b.records();
    let ne = b.eth.len() as int;
    let nt = b.erc20.len() as int;
    let ng = b.gas.len() as int;
    let f = i.frame_rows(i.frames.len());
    let s = i.system_rows(i.credits.len());
    lemma_frame_rows_apart(i, i.frames.len());
    lemma_origins(i, i.frames.len());
    lemma_system_rows_apart(i, i.credits.len());
    lemma_erc20_rows_apart(i, i.logs.len());
    assert forall|j: int, k: int|
        0 <= j < k < rows.len() && (#[trigger] rows[j]).replaced_by(
            #[trigger] rows[k],
        ) implies ledger_laws::is_superseded(rows[j]) by {
        lemma_record_at(b, j);
        lemma_record_at(b, k);
        if rows[j].replaced_by(rows[k]) {
            if k < ne {
                ledger_laws::eth_key_identifies(b.eth[j], b.eth[k]);
                if k < f.len() {
                    assert(!same_slot(f[j], f[k]));
                } else if j < f.len() {
                    assert(from_some_frame(f[j], i.frames, i.frames.len()));
                    assert(from_some_credit(s[k - f.len()], i, i.credits.len()));
                    lemma_kinds_apart(f[j], s[k - f.len()], i);
                } else {
                    assert(!same_slot(s[j - f.len()], s[k - f.len()]));
                }
            } else if k < ne + nt {
                assert(j >= ne);
                ledger_laws::erc20_key_identifies(b.erc20[j - ne], b.erc20[k - ne]);
                assert(may_follow(b.erc20[j - ne], b.erc20[k - ne]));
                lemma_superseded(b.erc20[j - ne]);
            } else if k < ne + nt + ng {
                assert(j >= ne + nt);
                ledger_laws::gas_key_identifies(b.gas[j - ne - nt], b.gas[k - ne - nt]);
            } else {
                let n = ne + nt + ng;
                assert(j >= n);
                ledger_laws::unattributed_key_identifies(markers[j - n], markers[k - n]);
            }
        }
    }
    assert forall|j: int| 0 <= j < rows.len() implies (ledger_laws::is_superseded(
        #[trigger] rows[j],
    ) <==> ledger_laws::replaced_later(rows, j)) by {
        lemma_record_at(b, j);
        if ledger_laws::replaced_later(rows, j) {
            let k = choose|k: int| j < k < rows.len() && rows[j].replaced_by(#[trigger] rows[k]);
            assert(rows[j].replaced_by(rows[k]));
        }
        if ledger_laws::is_superseded(rows[j]) {
            let m = j - ne;
            assert(ne <= j < ne + nt);
            lemma_superseded(b.erc20[m]);
            assert(has_outgoing_half(b.erc20, m));
            lemma_record_at(b, j + 1);
            assert(rows[j].replaced_by(rows[j + 1]));
        }
    }
}

/// The incoming row of a token transfer from an address to itself is superseded, by
/// the outgoing one, and no other is.
proof fn lemma_superseded(r: Erc20TransferRow)
    ensures
        ledger_laws::is_superseded(writer::erc20_record(r)) <==> is_incoming_half(r),
        writer::erc20_record(r).replaced_by(
            writer::erc20_record(Erc20TransferRow { direction: Direction::Out, ..r }),
        ),
{
    let row = writer::erc20_record(r);
    let out = writer::erc20_record(Erc20TransferRow { direction: Direction::Out, ..r });
    reveal_strlit("in");
    reveal_strlit("out");
    assert("in"@.len() != "out"@.len());
    if row.values[6] == row.values[7] {
        r.from.lemma_text_injective(r.to);
    }
    assert(row.key() =~= out.key());
    assert forall|k: int| 0 <= k < row.key().len() implies #[trigger] row.key()[k]
        != Value::Null by {
        let columns = row.table.key_columns();
        assert(columns[k] == 0 || columns[k] == 2 || columns[k] == 3 || columns[k] == 4
            || columns[k] == 9);
    }
}

/// The row of a batch at a place.
proof fn lemma_record_at(b: Batch, k: int)
    requires
        0 <= k < b.records().len(),
    ensures
        ({
            let ne = b.eth.len() as int;
            let nt = b.erc20.len() as int;
            let ng = b.gas.len() as int;
            if k < ne {
                b.records()[k] == writer::eth_record(b.eth[k])
            } else if k < ne + nt {
                b.records()[k] == writer::erc20_record(b.erc20[k - ne])
            } else if k < ne + nt + ng {
                b.records()[k] == writer::gas_record(b.gas[k - ne - nt])
            } else {
                b.records()[k] == writer::unattributed_record(b.unattributed[k - ne - nt - ng])
            }
        }),
{
}

/// After a batch is written, every row of it is in the ledger, but for the incoming
/// row of a token transfer from an address to itself, in whose place the outgoing
/// one of the batch stands. In a ledger without rows of the block these are added
/// exactly once each, and no other row is changed.
pub open spec fn all_stored(store: Store, b: Batch) -> bool {
    let rows = b.records();
    let after = store.after_all(b.ops()).rows;
    &&& forall|k: int|
        0 <= k < rows.len() && !ledger_laws::is_superseded(#[trigger] rows[k]) ==> after.contains(
            rows[k],
        )
    &&& ledger_laws::only_superseded_are_replaced(rows)
    &&& b.of_one_block() && ledger_laws::has_no_row_of(store, b.chain_id, b.block_hash) ==> after
        == store.rows + ledger_laws::lasting(rows)
}

proof fn lemma_all_stored(store: Store, b: Batch)
    requires
        ledger_laws::only_superseded_are_replaced(b.records()),
    ensures
        all_stored(store, b),
{
    ledger_laws::no_row_is_lost(store, b);
    if b.of_one_block() && ledger_laws::has_no_row_of(store, b.chain_id, b.block_hash) {
        ledger_laws::a_new_block_is_stored_but_for_superseded_rows(store, b);
    }
}

/// Nothing of a recorded block is lost: once it is written, every one of its rows
/// is in the ledger.
pub proof fn no_entry_of_a_block_is_lost(store: Store, i: Inputs)
    requires
        i.outcome() is Ok,
        frames_are_distinct(i.frames),
        logs_are_distinct(i),
        fees_are_distinct(i),
        credits_are_distinct(i.credits),
    ensures
        all_stored(store, i.outcome()->Ok_0),
{
    rows_of_a_block_do_not_replace_others(i);
    lemma_all_stored(store, i.batch());
}

/// Nothing of a block that is recorded without its frames is lost either, its
/// markers included.
pub proof fn no_entry_of_a_partial_block_is_lost(store: Store, i: Inputs)
    requires
        committed::partial_outcome(i) is Ok,
        i.frames.len() == 0,
        logs_are_distinct(i),
        fees_are_distinct(i),
        credits_are_distinct(i.credits),
        changes_are_distinct(i.deltas),
    ensures
        all_stored(store, committed::partial_outcome(i)->Ok_0),
{
    lemma_markers_apart(i, i.deltas.len());
    lemma_rows_apart(i, committed::markers(i, i.deltas.len()));
    lemma_all_stored(store, committed::partial_outcome(i)->Ok_0);
}

/// No two transactions of a block have one hash.
pub open spec fn txs_are_distinct(block: Block) -> bool {
    forall|j: int, k: int|
        0 <= j < k < block.transactions.len() ==> (#[trigger] block.transactions[j]).hash != (
        #[trigger] block.transactions[k]).hash
}

/// Whether a fee is of one of the first `n` transactions.
spec fn of_some_tx(hash: B256, block: Block, n: nat) -> bool {
    exists|j: int| 0 <= j < n && (#[trigger] block.transactions[j]).hash == hash
}

proof fn lemma_gas_rows_apart(
    block: Block,
    chain_id: u64,
    e: Execution,
    watched: Set<Address>,
    fees: spec_fn(nat) -> Option<U256>,
    n: nat,
)
    requires
        txs_are_distinct(block),
        n <= block.transactions.len(),
    ensures
        ({
            let rows = block.gas_rows(chain_id, e, watched, fees, n);
            &&& forall|k: int| 0 <= k < rows.len() ==> of_some_tx((#[trigger] rows[k]).tx_hash, block, n)
            &&& forall|j: int, k: int|
                0 <= j < k < rows.len() ==> (#[trigger] rows[j]).tx_hash != (
                #[trigger] rows[k]).tx_hash
        }),
    decreases n,
{
    if n > 0 {
        let m = (n - 1) as nat;
        lemma_gas_rows_apart(block, chain_id, e, watched, fees, m);
        let rows = block.gas_rows(chain_id, e, watched, fees, n);
        let before = block.gas_rows(chain_id, e, watched, fees, m);
        assert forall|k: int| 0 <= k < rows.len() implies of_some_tx(
            (#[trigger] rows[k]).tx_hash,
            block,
            n,
        ) by {
            if k < before.len() {
                assert(of_some_tx(before[k].tx_hash, block, m));
                let j = choose|j: int|
                    0 <= j < m && (#[trigger] block.transactions[j]).hash == before[k].tx_hash;
                assert(block.transactions[j].hash == rows[k].tx_hash);
            } else {
                assert(block.transactions[n - 1].hash == rows[k].tx_hash);
            }
        }
        assert forall|j: int, k: int| 0 <= j < k < rows.len() implies (#[trigger] rows[j]).tx_hash
            != (#[trigger] rows[k]).tx_hash by {
            if k >= before.len() {
                assert(of_some_tx(before[j].tx_hash, block, m));
                let o = choose|o: int|
                    0 <= o < m && (#[trigger] block.transactions[o]).hash == before[j].tx_hash;
                assert(block.transactions[o].hash != block.transactions[n - 1].hash);
            }
        }
    }
}

/// The fees of a committed block are distinct, and so are the numbers of its logs.
pub proof fn collected_rows_are_distinct(
    block: Block,
    chain_id: u64,
    e: Execution,
    watched: Set<Address>,
    fees: spec_fn(nat) -> Option<U256>,
    credits: Seq<Credit>,
    frames: Seq<FrameEntry>,
)
    requires
        txs_are_distinct(block),
        block.logs(e).len() <= u64::MAX,
    ensures
        fees_are_distinct(block.inputs(chain_id, e, watched, fees, credits, frames)),
        logs_are_distinct(block.inputs(chain_id, e, watched, fees, credits, frames)),
{
    lemma_gas_rows_apart(block, chain_id, e, watched, fees, block.executed(e));
    let logs = block.logs(e);
    assert forall|j: int, k: int| 0 <= j < k < logs.len() implies (#[trigger] logs[j]).log_index
        != (#[trigger] logs[k]).log_index by {
        assert(logs[j].log_index == j as u64);
        assert(logs[k].log_index == k as u64);
    }
}

/// What re-executed transactions leave behind: their captures are well-formed, and
/// each has at most one frame of its own.
pub open spec fn captures_are_valid(captures: Seq<TaggedCapture>) -> bool {
    forall|t: int|
        0 <= t < captures.len() ==> (#[trigger] captures[t]).wf() && reexec::one_top_level(captures[t].tags)
}

/// Whether a tagged frame is of one of the first `n` transactions.
spec fn of_some_capture(t: Tagged, captures: Seq<TaggedCapture>, n: nat) -> bool {
    t.tx_index < n && exists|a: int|
        0 <= a < captures[t.tx_index as int].inner.frames.len() && t.frame
            == #[trigger] captures[t.tx_index as int].inner.frames[a] && t.top_level
            == captures[t.tx_index as int].tags[a]
}

/// Whether two tagged frames of one transaction have different names.
spec fn names_apart(a: Tagged, b: Tagged) -> bool {
    a.tx_index != b.tx_index || (!(a.top_level && b.top_level) && a.frame.trace_path
        != b.frame.trace_path)
}

proof fn lemma_captured_frames(captures: Seq<TaggedCapture>, n: nat)
    requires
        captures_are_valid(captures),
        n <= captures.len(),
    ensures
        forall|k: int|
            0 <= k < reexec::frames_of(captures, n).len() ==> of_some_capture(
                #[trigger] reexec::frames_of(captures, n)[k],
                captures,
                n,
            ),
        forall|j: int, k: int|
            0 <= j < k < reexec::frames_of(captures, n).len() ==> names_apart(
                #[trigger] reexec::frames_of(captures, n)[j],
                #[trigger] reexec::frames_of(captures, n)[k],
            ),
    decreases n,
{
    if n > 0 {
        let m = (n - 1) as nat;
        lemma_captured_frames(captures, m);
        let all = reexec::frames_of(captures, n);
        let before = reexec::frames_of(captures, m);
        let c = captures[n - 1];
        let added = c.tagged(m);
        assert(c.wf() && reexec::one_top_level(c.tags));
        assert forall|k: int| 0 <= k < all.len() implies of_some_capture(
            #[trigger] all[k],
            captures,
            n,
        ) by {
            if k < before.len() {
                assert(of_some_capture(before[k], captures, m));
            } else {
                let a = k - before.len();
                assert(all[k] == added[a]);
                assert(all[k].frame == captures[all[k].tx_index as int].inner.frames[a]);
            }
        }
        assert forall|j: int, k: int| 0 <= j < k < all.len() implies names_apart(
            #[trigger] all[j],
            #[trigger] all[k],
        ) by {
            if k < before.len() {
                assert(names_apart(before[j], before[k]));
            } else if j < before.len() {
                assert(of_some_capture(before[j], captures, m));
                assert(all[k] == added[k - before.len()]);
            } else {
                let a = j - before.len();
                let b = k - before.len();
                assert(all[j] == added[a]);
                assert(all[k] == added[b]);
                assert(!(c.tags[a] && c.tags[b]));
                assert(c.inner.frames[a].trace_path != c.inner.frames[b].trace_path);
            }
        }
    }
}

/// The frames that re-execution gives have distinct names within each transaction,
/// also after a transaction's own frame is named after it.
pub proof fn replayed_frames_are_distinct(
    tx_hashes: Seq<B256>,
    succeeded: Seq<bool>,
    captures: Seq<TaggedCapture>,
)
    requires
        captures_are_valid(captures),
        captures.len() <= tx_hashes.len(),
        tx_hashes.no_duplicates(),
    ensures
        frames_are_distinct(
            committed::replayed_frames(reexec::block_capture(tx_hashes, succeeded, captures)),
        ),
{
    let c = reexec::block_capture(tx_hashes, succeeded, captures);
    let frames = committed::replayed_frames(c);
    let n = captures.len();
    lemma_captured_frames(captures, n);
    assert forall|k: int| 0 <= k < frames.len() implies is_frame_name(
        (#[trigger] frames[k]).frame.trace_path,
    ) && captured_name(c.frames[k].frame.trace_path) by {
        lemma_replayed_name(c, captures, k);
    }
    assert forall|j: int, k: int| 0 <= j < k < frames.len() implies (#[trigger] frames[j]).tx_hash
        != (#[trigger] frames[k]).tx_hash || frames[j].frame.trace_path
        != frames[k].frame.trace_path by {
        let a = c.frames[j];
        let b = c.frames[k];
        assert(of_some_capture(a, captures, n));
        assert(of_some_capture(b, captures, n));
        assert(names_apart(a, b));
        assert(frames[j].tx_hash == Some(tx_hashes[a.tx_index as int]));
        assert(frames[k].tx_hash == Some(tx_hashes[b.tx_index as int]));
        if a.tx_index == b.tx_index {
            assert(is_frame_name(frames[j].frame.trace_path));
            assert(is_frame_name(frames[k].frame.trace_path));
            lemma_top_level_apart(a, b);
        } else {
            assert(tx_hashes[a.tx_index as int] != tx_hashes[b.tx_index as int]);
        }
    }
}

/// The name that a frame was captured under.
spec fn captured_name(s: Seq<char>) -> bool {
    exists|n: nat| s == #[trigger] text::decimal(n)
}

proof fn lemma_replayed_name(c: BlockCapture, captures: Seq<TaggedCapture>, k: int)
    requires
        captures_are_valid(captures),
        c.frames == reexec::frames_of(captures, captures.len()),
        0 <= k < c.frames.len(),
    ensures
        captured_name(c.frames[k].frame.trace_path),
        is_frame_name(committed::replayed_frame(c, c.frames[k]).frame.trace_path),
{
    lemma_captured_frames(captures, captures.len());
    let t = c.frames[k];
    assert(of_some_capture(t, captures, captures.len()));
    let cap = captures[t.tx_index as int];
    let a = choose|a: int|
        0 <= a < captures[t.tx_index as int].inner.frames.len() && t.frame
            == #[trigger] captures[t.tx_index as int].inner.frames[a] && t.top_level
            == captures[t.tx_index as int].tags[a];
    assert(cap.inner.wf());
    assert(crate::inspector::names_below(cap.inner.frames[a].trace_path, cap.inner.next));
    let n = choose|n: nat|
        n < cap.inner.next && cap.inner.frames[a].trace_path == #[trigger] text::decimal(n);
    assert(t.frame.trace_path == text::decimal(n));
    if t.top_level {
        let own = committed::replayed_frame(c, t).frame.trace_path;
        assert(own == "tx:"@ + text::decimal(t.tx_index));
        assert(text::decimal(t.tx_index).len() >= 0);
    }
}

/// A transaction's own frame and its other frames have different names.
proof fn lemma_top_level_apart(a: Tagged, b: Tagged)
    requires
        names_apart(a, b),
        a.tx_index == b.tx_index,
        captured_name(a.frame.trace_path),
        captured_name(b.frame.trace_path),
    ensures
        a.top_level && !b.top_level ==> "tx:"@ + text::decimal(a.tx_index) != b.frame.trace_path,
        !a.top_level && b.top_level ==> a.frame.trace_path != "tx:"@ + text::decimal(b.tx_index),
{
    let n = choose|n: nat| a.frame.trace_path == #[trigger] text::decimal(n);
    let m = choose|m: nat| b.frame.trace_path == #[trigger] text::decimal(m);
    lemma_decimal_digits(n);
    lemma_decimal_digits(m);
    reveal_strlit("tx:");
    assert(("tx:"@ + text::decimal(a.tx_index))[0] == "tx:"@[0]);
    assert(("tx:"@ + text::decimal(b.tx_index))[0] == "tx:"@[0]);
}

/// The credits of a base-chain block are distinct.
pub proof fn l1_credits_are_distinct(
    watched: Set<Address>,
    withdrawals: Seq<(Address, U256)>,
    beneficiary: Address,
    base_fee: u128,
    txs: Seq<(u128, u64)>,
)
    ensures
        credits_are_distinct(system::l1_credits(watched, withdrawals, beneficiary, base_fee, txs)),
{
    let rs = system::recipients(withdrawals, watched, withdrawals.len());
    system::recipients_are_the_watched_ones(withdrawals, watched, withdrawals.len());
    let all = system::l1_credits(watched, withdrawals, beneficiary, base_fee, txs);
    let first = Seq::new(rs.len(), |i: int| system::withdrawal_credit(withdrawals, rs[i]));
    reveal_strlit("withdrawal");
    reveal_strlit("block_reward");
    assert("withdrawal"@.len() != "block_reward"@.len());
    assert forall|j: int, k: int| 0 <= j < k < all.len() implies (#[trigger] all[j]).address != (
    #[trigger] all[k]).address || all[j].source != all[k].source by {
        assert(all[j] == first[j]);
        if k < first.len() {
            assert(all[k] == first[k]);
            assert(rs[j]@ < rs[k]@);
        }
    }
}

/// Where a deposit's credit comes from.
spec fn from_some_deposit(
    c: Credit,
    deposits: Seq<(u128, TxKind, Address, B256)>,
    n: nat,
) -> bool {
    exists|j: int| 0 <= j < n && c.source == optimism::deposit_source((#[trigger] deposits[j]).3)
}

proof fn lemma_deposit_credits_apart(
    deposits: Seq<(u128, TxKind, Address, B256)>,
    watched: Set<Address>,
    n: nat,
)
    requires
        n <= deposits.len(),
        forall|j: int, k: int|
            0 <= j < k < deposits.len() ==> (#[trigger] deposits[j]).3 != (
            #[trigger] deposits[k]).3,
    ensures
        forall|k: int|
            0 <= k < optimism::deposit_credits(deposits, watched, n).len() ==> from_some_deposit(
                #[trigger] optimism::deposit_credits(deposits, watched, n)[k],
                deposits,
                n,
            ),
        forall|j: int, k: int|
            0 <= j < k < optimism::deposit_credits(deposits, watched, n).len() ==> (
            #[trigger] optimism::deposit_credits(deposits, watched, n)[j]).source != (
            #[trigger] optimism::deposit_credits(deposits, watched, n)[k]).source,
    decreases n,
{
    if n > 0 {
        let m = (n - 1) as nat;
        lemma_deposit_credits_apart(deposits, watched, m);
        let all = optimism::deposit_credits(deposits, watched, n);
        let before = optimism::deposit_credits(deposits, watched, m);
        assert forall|k: int| 0 <= k < all.len() implies from_some_deposit(
            #[trigger] all[k],
            deposits,
            n,
        ) by {
            if k < before.len() {
                assert(all[k] == before[k]);
                assert(from_some_deposit(before[k], deposits, m));
                let j = choose|j: int|
                    0 <= j < m && before[k].source == optimism::deposit_source(
                        (#[trigger] deposits[j]).3,
                    );
                assert(all[k].source == optimism::deposit_source(deposits[j].3));
            } else {
                assert(all[k].source == optimism::deposit_source(deposits[n - 1].3));
            }
        }
        assert forall|j: int, k: int| 0 <= j < k < all.len() implies (#[trigger] all[j]).source
            != (#[trigger] all[k]).source by {
            assert(all[j] == before[j]);
            if k < before.len() {
                assert(all[k] == before[k]);
            } else {
                assert(from_some_deposit(before[j], deposits, m));
                let o = choose|o: int|
                    0 <= o < m && before[j].source == optimism::deposit_source(
                        (#[trigger] deposits[o]).3,
                    );
                assert(all[k].source == optimism::deposit_source(deposits[n - 1].3));
                if all[j].source == all[k].source {
                    optimism::deposit_sources_are_distinct(deposits[o].3, deposits[n - 1].3);
                }
            }
        }
    }
}

/// The deposits of a block have distinct hashes.
proof fn lemma_deposits_apart(b: OpBlock, n: nat)
    requires
        txs_are_distinct(b.block),
        n <= b.block.transactions.len(),
    ensures
        forall|k: int|
            0 <= k < b.deposit_list(n).len() ==> of_some_tx(
                (#[trigger] b.deposit_list(n)[k]).3,
                b.block,
                n,
            ),
        forall|j: int, k: int|
            0 <= j < k < b.deposit_list(n).len() ==> (#[trigger] b.deposit_list(n)[j]).3 != (
            #[trigger] b.deposit_list(n)[k]).3,
    decreases n,
{
    if n > 0 {
        let m = (n - 1) as nat;
        lemma_deposits_apart(b, m);
        let all = b.deposit_list(n);
        let before = b.deposit_list(m);
        assert forall|k: int| 0 <= k < all.len() implies of_some_tx(
            (#[trigger] all[k]).3,
            b.block,
            n,
        ) by {
            if k < before.len() {
                assert(of_some_tx(before[k].3, b.block, m));
                let j = choose|j: int|
                    0 <= j < m && (#[trigger] b.block.transactions[j]).hash == before[k].3;
                assert(b.block.transactions[j].hash == all[k].3);
            } else {
                assert(b.block.transactions[n - 1].hash == all[k].3);
            }
        }
        assert forall|j: int, k: int| 0 <= j < k < all.len() implies (#[trigger] all[j]).3 != (
        #[trigger] all[k]).3 by {
            if k >= before.len() {
                assert(of_some_tx(before[j].3, b.block, m));
                let o = choose|o: int|
                    0 <= o < m && (#[trigger] b.block.transactions[o]).hash == before[j].3;
                assert(b.block.transactions[o].hash != b.block.transactions[n - 1].hash);
            }
        }
    }
}

/// The credits of an OP Stack block are distinct: each deposit has its own source,
/// and so has each vault.
pub proof fn op_credits_are_distinct(
    b: OpBlock,
    e: Execution,
    watched: Set<Address>,
    fees: spec_fn(nat) -> Option<U256>,
)
    requires
        b.wf(),
        txs_are_distinct(b.block),
    ensures
        credits_are_distinct(b.credits(e, watched, fees)),
{
    let deposits = b.deposit_list(b.deposits.len());
    lemma_deposits_apart(b, b.deposits.len());
    lemma_deposit_credits_apart(deposits, watched, deposits.len());
    let first = optimism::deposit_credits(deposits, watched, deposits.len());
    let txs = b.vault_txs(e, fees, b.block.executed(e));
    let totals = optimism::vault_totals(txs, b.block.base_fee_wei(), txs.len());
    let v0 = optimism::vault_credit(
        b.block.beneficiary,
        totals.0,
        "sequencer_fee_vault"@,
        watched,
    );
    let v1 = optimism::vault_credit(optimism::base_vault(), totals.1, "base_fee_vault"@, watched);
    let v2 = optimism::vault_credit(optimism::l1_vault(), totals.2, "l1_fee_vault"@, watched);
    let vaults = v0 + v1 + v2;
    let all = b.credits(e, watched, fees);
    assert(all == first + vaults);
    reveal_strlit("deposit_mint:");
    reveal_strlit("sequencer_fee_vault");
    reveal_strlit("base_fee_vault");
    reveal_strlit("l1_fee_vault");
    assert("sequencer_fee_vault"@[0] != "base_fee_vault"@[0]);
    assert("sequencer_fee_vault"@[0] != "l1_fee_vault"@[0]);
    assert("base_fee_vault"@[0] != "l1_fee_vault"@[0]);
    assert forall|j: int, k: int| 0 <= j < k < all.len() implies (#[trigger] all[j]).address != (
    #[trigger] all[k]).address || all[j].source != all[k].source by {
        if k < first.len() {
            assert(all[j] == first[j]);
            assert(all[k] == first[k]);
        } else if j < first.len() {
            assert(all[j] == first[j]);
            assert(from_some_deposit(first[j], deposits, deposits.len()));
            assert(all[j].source[0] == "deposit_mint:"@[0]);
            assert(all[k] == vaults[k - first.len()]);
        } else {
            assert(all[j] == vaults[j - first.len()]);
            assert(all[k] == vaults[k - first.len()]);
        }
    }
}

/// The hashes of a block's transactions.
pub open spec fn tx_hashes(block: Block) -> Seq<B256> {
    Seq::new(block.transactions.len(), |k: int| block.transactions[k].hash)
}

/// What is valid of every committed block: its transactions have distinct hashes,
/// its accounts distinct addresses, and its logs can be numbered.
pub open spec fn is_valid_block(block: Block) -> bool {
    &&& txs_are_distinct(block)
    &&& block.outcome matches Some(e) ==> {
        &&& block.logs(e).len() <= u64::MAX
        &&& forall|j: int, k: int|
            0 <= j < k < e.accounts.len() ==> (#[trigger] e.accounts[j]).address != (
            #[trigger] e.accounts[k]).address
    }
}

/// A replay whose frames were captured from the block's own transactions.
pub open spec fn is_valid_replay(block: Block, replay: Replay) -> bool {
    replay matches Replay::Done(c) ==> exists|succeeded: Seq<bool>, captures: Seq<TaggedCapture>|
        {
            &&& c == #[trigger] reexec::block_capture(tx_hashes(block), succeeded, captures)
            &&& captures_are_valid(captures)
            &&& captures.len() <= block.transactions.len()
        }
}

/// Whether an address is of one of the first `n` accounts.
spec fn of_some_account(address: Address, e: Execution, n: nat) -> bool {
    exists|j: int| 0 <= j < n && (#[trigger] e.accounts[j]).address == address
}

proof fn lemma_deltas_apart(e: Execution, watched: Set<Address>, n: nat)
    requires
        n <= e.accounts.len(),
        forall|j: int, k: int|
            0 <= j < k < e.accounts.len() ==> (#[trigger] e.accounts[j]).address != (
            #[trigger] e.accounts[k]).address,
    ensures
        changes_are_distinct(e.deltas(watched, n)),
        forall|k: int|
            0 <= k < e.deltas(watched, n).len() ==> of_some_account(
                (#[trigger] e.deltas(watched, n)[k]).0,
                e,
                n,
            ),
    decreases n,
{
    if n > 0 {
        let m = (n - 1) as nat;
        lemma_deltas_apart(e, watched, m);
        let before = e.deltas(watched, m);
        let after = e.deltas(watched, n);
        assert forall|k: int| 0 <= k < after.len() implies of_some_account(
            (#[trigger] after[k]).0,
            e,
            n,
        ) by {
            if k < before.len() {
                assert(after[k] == before[k]);
                assert(of_some_account(before[k].0, e, m));
            } else {
                assert(after[k].0 == e.accounts[m as int].address);
            }
        }
        assert forall|j: int, k: int| 0 <= j < k < after.len() implies (#[trigger] after[j]).0 != (
        #[trigger] after[k]).0 by {
            assert(after[j] == before[j]);
            assert(of_some_account(before[j].0, e, m));
            if k < before.len() {
                assert(after[k] == before[k]);
            } else {
                let c = choose|c: int|
                    0 <= c < m && (#[trigger] e.accounts[c]).address == before[j].0;
                assert(e.accounts[c].address != e.accounts[m as int].address);
            }
        }
    }
}

proof fn lemma_replay_apart(block: Block, c: reexec::BlockCapture)
    requires
        txs_are_distinct(block),
        is_valid_replay(block, Replay::Done(c)),
    ensures
        frames_are_distinct(committed::replayed_frames(c)),
{
    let (succeeded, captures) = choose|succeeded: Seq<bool>, captures: Seq<TaggedCapture>|
        {
            &&& c == #[trigger] reexec::block_capture(tx_hashes(block), succeeded, captures)
            &&& captures_are_valid(captures)
            &&& captures.len() <= block.transactions.len()
        };
    let hashes = tx_hashes(block);
    assert(hashes.no_duplicates()) by {
        assert forall|j: int, k: int| 0 <= j < hashes.len() && 0 <= k < hashes.len() && j
            != k implies hashes[j] != hashes[k] by {
            if j < k {
                assert(block.transactions[j].hash != block.transactions[k].hash);
            } else {
                assert(block.transactions[k].hash != block.transactions[j].hash);
            }
        }
    }
    replayed_frames_are_distinct(hashes, succeeded, captures);
}

/// Nothing of a committed block is lost, whatever came of its replay, where its
/// credits are distinct.
proof fn lemma_nothing_lost(
    store: Store,
    block: Block,
    chain_id: u64,
    watched: Set<Address>,
    fees: spec_fn(nat) -> Option<U256>,
    credits: spec_fn(Execution) -> Seq<Credit>,
    replay: Replay,
)
    requires
        is_valid_block(block),
        is_valid_replay(block, replay),
        block.outcome matches Some(e) ==> credits_are_distinct(credits(e)),
        block.outcome_with(chain_id, watched, fees, credits, replay) is Ok,
    ensures
        all_stored(store, block.outcome_with(chain_id, watched, fees, credits, replay)->Ok_0),
{
    let e = block.outcome->0;
    let none = Seq::<FrameEntry>::empty();
    collected_rows_are_distinct(block, chain_id, e, watched, fees, credits(e), none);
    lemma_deltas_apart(e, watched, e.accounts.len());
    let bare = block.inputs(chain_id, e, watched, fees, credits(e), none);
    if !e.concerns(watched) {
        no_entry_of_a_block_is_lost(store, bare);
    } else {
        match replay {
            Replay::Failed => {},
            Replay::Unavailable => {
                no_entry_of_a_partial_block_is_lost(store, bare);
            },
            Replay::Done(c) => {
                let frames = committed::replayed_frames(c);
                lemma_replay_apart(block, c);
                collected_rows_are_distinct(block, chain_id, e, watched, fees, credits(e), frames);
                no_entry_of_a_block_is_lost(
                    store,
                    block.inputs(chain_id, e, watched, fees, credits(e), frames),
                );
            },
        }
    }
}

/// Nothing of a committed base-chain block is lost: if it is recorded, with or
/// without its frames, every one of its rows is in the ledger once it is written.
pub proof fn no_entry_of_a_committed_block_is_lost(
    store: Store,
    block: Block,
    chain_id: u64,
    watched: Set<Address>,
    fees: spec_fn(nat) -> Option<U256>,
    replay: Replay,
)
    requires
        is_valid_block(block),
        is_valid_replay(block, replay),
        block.outcome_with(
            chain_id,
            watched,
            fees,
            |e: Execution| block.l1_credits(e, watched),
            replay,
        ) is Ok,
    ensures
        all_stored(
            store,
            block.outcome_with(
                chain_id,
                watched,
                fees,
                |e: Execution| block.l1_credits(e, watched),
                replay,
            )->Ok_0,
        ),
{
    let credits = |e: Execution| block.l1_credits(e, watched);
    if let Some(e) = block.outcome {
        l1_credits_are_distinct(
            watched,
            block.withdrawals_wei(),
            block.beneficiary,
            block.base_fee_wei(),
            block.tx_fees(e),
        );
    }
    lemma_nothing_lost(store, block, chain_id, watched, fees, credits, replay);
}

/// Nothing of a committed OP Stack block is lost.
pub proof fn no_entry_of_an_op_block_is_lost(
    store: Store,
    b: OpBlock,
    chain_id: u64,
    watched: Set<Address>,
    fees: spec_fn(nat) -> Option<U256>,
    replay: Replay,
)
    requires
        b.wf(),
        is_valid_block(b.block),
        is_valid_replay(b.block, replay),
        b.block.outcome_with(
            chain_id,
            watched,
            fees,
            |e: Execution| b.credits(e, watched, fees),
            replay,
        ) is Ok,
    ensures
        all_stored(
            store,
            b.block.outcome_with(
                chain_id,
                watched,
                fees,
                |e: Execution| b.credits(e, watched, fees),
                replay,
            )->Ok_0,
        ),
{
    let credits = |e: Execution| b.credits(e, watched, fees);
    if let Some(e) = b.block.outcome {
        op_credits_are_distinct(b, e, watched, fees);
    }
    lemma_nothing_lost(store, b.block, chain_id, watched, fees, credits, replay);
}

} // verus!
