//! What holds of the ledger as a whole.

use vstd::prelude::*;
use crate::ledger::tables;
use crate::ledger::tables::{MetaKey, Op, Row, Store, Table, Value};
use crate::ledger::writer;
use crate::ledger::writer::Batch;
use crate::model::{Erc20TransferRow, EthTransfer, GasPaymentRow, UnattributedDeltaRow};
use crate::primitives;
use crate::primitives::{Address, B256};
use crate::text;

verus! {

/// Noting a last block changes the two single values and no row.
proof fn lemma_advance(s: Store, block_number: u64, block_hash: B256)
    ensures
        s.after_all(writer::advance_ops(block_number, block_hash)) == (Store {
            rows: s.rows,
            meta: s.meta.insert(
                MetaKey::LastBlock,
                text::decimal(block_number as nat),
            ).insert(MetaKey::LastBlockHash, primitives::b256_text(block_hash)),
        }),
{
    let ops = writer::advance_ops(block_number, block_hash);
    reveal_with_fuel(Store::after_all, 3);
    assert(ops.drop_last().drop_last() =~= Seq::<Op>::empty());
    assert(ops.drop_last().last() == ops[0]);
    assert(ops.last() == ops[1]);
}

/// Writing rows and then noting a last block.
proof fn lemma_puts_and_advance(s: Store, rows: Seq<Row>, block_number: u64, block_hash: B256)
    ensures
        ({
            let ops = tables::puts(rows) + writer::advance_ops(block_number, block_hash);
            &&& s.after_all(ops).rows == s.after_all(tables::puts(rows)).rows
            &&& s.after_all(ops).meta == s.meta.insert(
                MetaKey::LastBlock,
                text::decimal(block_number as nat),
            ).insert(MetaKey::LastBlockHash, primitives::b256_text(block_hash))
        }),
{
    tables::lemma_after_all_concat(
        s,
        tables::puts(rows),
        writer::advance_ops(block_number, block_hash),
    );
    lemma_advance(s.after_all(tables::puts(rows)), block_number, block_hash);
    tables::lemma_puts(s, rows);
}

/// Writing keyed rows and noting a last block twice is doing it once.
proof fn lemma_replay(s: Store, rows: Seq<Row>, block_number: u64, block_hash: B256)
    requires
        forall|i: int| 0 <= i < rows.len() ==> (#[trigger] rows[i]).keyed(),
    ensures
        ({
            let ops = tables::puts(rows) + writer::advance_ops(block_number, block_hash);
            s.after_all(ops).after_all(ops) == s.after_all(ops)
        }),
{
    let ops = tables::puts(rows) + writer::advance_ops(block_number, block_hash);
    let once = s.after_all(ops);
    lemma_puts_and_advance(s, rows, block_number, block_hash);
    lemma_puts_and_advance(once, rows, block_number, block_hash);
    tables::lemma_puts_twice(s, rows);
    tables::lemma_puts(once, rows);
    tables::lemma_puts(s.after_all(tables::puts(rows)), rows);
    assert(once.after_all(ops).rows == once.rows);
    assert(once.after_all(ops).meta =~= once.meta);
}

proof fn lemma_keyed(b: Batch)
    requires
        b.keyed(),
    ensures
        forall|i: int| 0 <= i < b.records().len() ==> (#[trigger] b.records()[i]).keyed(),
{
    assert forall|i: int| 0 <= i < b.records().len() implies (#[trigger] b.records()[i]).keyed() by {
        let e = b.eth.len();
        let t = b.erc20.len();
        let g = b.gas.len();
        if i < e {
            assert(b.records()[i] == writer::eth_record(b.eth[i]));
        } else if i < e + t {
            assert(b.records()[i] == writer::erc20_record(b.erc20[i - e]));
        } else if i < e + t + g {
            assert(b.records()[i] == writer::gas_record(b.gas[i - e - t]));
        } else {
            assert(b.records()[i] == writer::unattributed_record(b.unattributed[i - e - t - g]));
        }
    }
}

/// Writing a block once more, as after a crash, changes nothing. A row without a
/// transaction hash has no whole key and is left out.
pub proof fn replaying_a_block_changes_nothing(s: Store, b: Batch)
    requires
        b.keyed(),
    ensures
        s.after_all(b.ops()).after_all(b.ops()) == s.after_all(b.ops()),
{
    lemma_keyed(b);
    lemma_replay(s, b.records(), b.block_number, b.block_hash);
}

/// Marking an undelivered block once more changes nothing.
pub proof fn replaying_a_gap_marker_changes_nothing(
    s: Store,
    chain_id: u64,
    block_number: u64,
    block_hash: B256,
    addresses: Seq<Address>,
)
    ensures
        ({
            let ops = writer::gap_ops(chain_id, block_number, block_hash, addresses);
            s.after_all(ops).after_all(ops) == s.after_all(ops)
        }),
{
    let rows = writer::gap_records(chain_id, block_number, block_hash, addresses);
    assert forall|i: int| 0 <= i < rows.len() implies (#[trigger] rows[i]).keyed() by {}
    lemma_replay(s, rows, block_number, block_hash);
}

/// Recording an unattributed change once more changes nothing.
pub proof fn replaying_an_unattributed_change_changes_nothing(s: Store, r: UnattributedDeltaRow)
    ensures
        ({
            let ops = tables::puts(seq![writer::unattributed_record(r)]);
            s.after_all(ops).after_all(ops) == s.after_all(ops)
        }),
{
    let rows = seq![writer::unattributed_record(r)];
    assert forall|i: int| 0 <= i < rows.len() implies (#[trigger] rows[i]).keyed() by {}
    tables::lemma_puts_twice(s, rows);
    tables::lemma_puts(s, rows);
    tables::lemma_puts(s.after_all(tables::puts(rows)), rows);
}

/// After a block is written, it is the last block.
pub proof fn writing_a_block_advances(s: Store, b: Batch)
    ensures
        s.after_all(b.ops()).meta[MetaKey::LastBlock] == text::decimal(b.block_number as nat),
        s.after_all(b.ops()).meta[MetaKey::LastBlockHash] == primitives::b256_text(b.block_hash),
        s.after_all(b.ops()).meta.dom() == s.meta.dom().insert(MetaKey::LastBlock).insert(
            MetaKey::LastBlockHash,
        ),
{
    lemma_puts_and_advance(s, b.records(), b.block_number, b.block_hash);
}

/// After an undelivered block is marked, it is the last block, and each watched
/// address has its marker.
pub proof fn marking_a_gap_block_advances(
    s: Store,
    chain_id: u64,
    block_number: u64,
    block_hash: B256,
    addresses: Seq<Address>,
)
    requires
        addresses.no_duplicates(),
    ensures
        ({
            let t = s.after_all(writer::gap_ops(chain_id, block_number, block_hash, addresses));
            &&& t.meta[MetaKey::LastBlock] == text::decimal(block_number as nat)
            &&& t.meta[MetaKey::LastBlockHash] == primitives::b256_text(block_hash)
            &&& forall|i: int|
                0 <= i < addresses.len() ==> t.rows.contains(
                    writer::unattributed_record(
                        #[trigger] writer::gap_row(
                            chain_id,
                            block_number,
                            block_hash,
                            addresses[i],
                        ),
                    ),
                )
        }),
{
    let rows = writer::gap_records(chain_id, block_number, block_hash, addresses);
    lemma_puts_and_advance(s, rows, block_number, block_hash);
    assert forall|i: int, j: int| 0 <= i < j < rows.len() implies !(
    #[trigger] rows[i]).replaced_by(#[trigger] rows[j]) by {
        if rows[i].replaced_by(rows[j]) {
            assert(rows[i].key()[2] == rows[j].key()[2]);
            addresses[i].lemma_text_injective(addresses[j]);
        }
    }
    let t = s.after_all(writer::gap_ops(chain_id, block_number, block_hash, addresses));
    assert forall|i: int| 0 <= i < addresses.len() implies t.rows.contains(
        writer::unattributed_record(
            #[trigger] writer::gap_row(chain_id, block_number, block_hash, addresses[i]),
        ),
    ) by {
        lemma_present(s, rows, i);
        assert(rows[i] == writer::unattributed_record(
            writer::gap_row(chain_id, block_number, block_hash, addresses[i]),
        ));
    }
}

/// A row that no later one replaces is there after the writing.
proof fn lemma_present(s: Store, rows: Seq<Row>, k: int)
    requires
        0 <= k < rows.len(),
        forall|j: int| k < j < rows.len() ==> !rows[k].replaced_by(#[trigger] rows[j]),
    ensures
        s.after_all(tables::puts(rows)).rows.contains(rows[k]),
{
    tables::lemma_puts(s, rows);
    tables::lemma_survives(rows, k);
    let kept = s.rows.filter(|r: Row| !tables::replaced_by_any(r, rows));
    let added = tables::survivors(rows);
    let i = choose|i: int| 0 <= i < added.len() && added[i] == rows[k];
    assert((kept + added)[kept.len() + i] == rows[k]);
}

/// No two rows of a batch have the same key.
pub open spec fn keys_distinct(rows: Seq<Row>) -> bool {
    forall|i: int, j: int|
        0 <= i < j < rows.len() ==> !(#[trigger] rows[i]).replaced_by(#[trigger] rows[j])
}

/// Whether a later one of the rows replaces the row at a place.
pub open spec fn replaced_later(rows: Seq<Row>, i: int) -> bool {
    exists|j: int| i < j < rows.len() && rows[i].replaced_by(#[trigger] rows[j])
}

/// No row is lost: every row of a batch that no later one of them replaces is in
/// the ledger after the block is written.
pub proof fn no_row_is_lost(s: Store, b: Batch)
    ensures
        forall|i: int|
            0 <= i < b.records().len() && !replaced_later(b.records(), i) ==> s.after_all(
                b.ops(),
            ).rows.contains(#[trigger] b.records()[i]),
{
    lemma_puts_and_advance(s, b.records(), b.block_number, b.block_hash);
    let rows = b.records();
    assert forall|i: int| 0 <= i < rows.len() && !replaced_later(rows, i) implies s.after_all(
        b.ops(),
    ).rows.contains(#[trigger] rows[i]) by {
        assert forall|j: int| i < j < rows.len() implies !rows[i].replaced_by(
            #[trigger] rows[j],
        ) by {}
        lemma_present(s, rows, i);
    }
}

/// Whether a row is the incoming one of a token transfer from an address to
/// itself. The outgoing one has the same key.
pub open spec fn is_superseded(row: Row) -> bool {
    &&& row.table == Table::Erc20Transfers
    &&& row.values[6] == row.values[7]
    &&& row.values[10] == Value::Text("in"@)
}

/// Of rows, those that are not superseded.
pub open spec fn lasting(rows: Seq<Row>) -> Seq<Row> {
    rows.filter(|r: Row| !is_superseded(r))
}

/// The rows that a later one replaces are exactly those that are superseded.
pub open spec fn only_superseded_are_replaced(rows: Seq<Row>) -> bool {
    forall|i: int|
        0 <= i < rows.len() ==> (is_superseded(#[trigger] rows[i]) <==> replaced_later(rows, i))
}

/// Of the first `n` rows, those that none of the first `m` replaces later.
spec fn left_of(rows: Seq<Row>, n: nat, m: nat) -> Seq<Row>
    decreases n,
{
    if n == 0 {
        Seq::empty()
    } else {
        let before = left_of(rows, (n - 1) as nat, m);
        if replaced_later(rows.take(m as int), n - 1) {
            before
        } else {
            before.push(rows[n - 1])
        }
    }
}

/// A further row takes those that it replaces out of what is left.
proof fn lemma_left_of_next(rows: Seq<Row>, n: nat, m: nat)
    requires
        n <= m < rows.len(),
    ensures
        left_of(rows, n, m + 1) == tables::kept_beside(left_of(rows, n, m), rows[m as int]),
    decreases n,
{
    let keep = |r: Row| !r.replaced_by(rows[m as int]);
    if n == 0 {
        tables::lemma_filter_all(left_of(rows, n, m), keep);
    } else {
        let k = (n - 1) as nat;
        lemma_left_of_next(rows, k, m);
        let before = left_of(rows, k, m);
        let (a, b) = (rows.take(m as int), rows.take((m + 1) as int));
        let row = rows[k as int];
        assert(replaced_later(b, k as int) <==> replaced_later(a, k as int) || row.replaced_by(
            rows[m as int],
        )) by {
            if replaced_later(a, k as int) {
                let j = choose|j: int| k < j < a.len() && a[k as int].replaced_by(#[trigger] a[j]);
                assert(b[k as int].replaced_by(b[j]));
            }
            if row.replaced_by(rows[m as int]) {
                assert(b[k as int].replaced_by(b[m as int]));
            }
            if replaced_later(b, k as int) {
                let j = choose|j: int| k < j < b.len() && b[k as int].replaced_by(#[trigger] b[j]);
                if j < m {
                    assert(a[k as int].replaced_by(a[j]));
                }
            }
        }
        let one = seq![row];
        tables::lemma_filter_concat(before, one, keep);
        assert(before.push(row) =~= before + one);
        assert forall|r: Row| #[trigger] one.contains(r) implies r == row by {}
        if row.replaced_by(rows[m as int]) {
            tables::lemma_filter_none(one, keep);
            assert(before.filter(keep) + Seq::<Row>::empty() =~= before.filter(keep));
        } else {
            tables::lemma_filter_all(one, keep);
            assert(before.filter(keep) + one =~= before.filter(keep).push(row));
        }
    }
}

proof fn lemma_survivors_are_left(rows: Seq<Row>, m: nat)
    requires
        m <= rows.len(),
    ensures
        tables::survivors(rows.take(m as int)) == left_of(rows, m, m),
    decreases m,
{
    if m > 0 {
        let k = (m - 1) as nat;
        lemma_survivors_are_left(rows, k);
        lemma_left_of_next(rows, k, k);
        assert(rows.take(m as int).drop_last() =~= rows.take(k as int));
        assert(!replaced_later(rows.take(m as int), k as int));
    }
}

/// Where the replaced rows are the superseded ones, those that survive are the
/// others, in their order.
proof fn lemma_lasting_survive(rows: Seq<Row>, n: nat)
    requires
        n <= rows.len(),
        only_superseded_are_replaced(rows),
    ensures
        left_of(rows, n, rows.len()) == lasting(rows.take(n as int)),
    decreases n,
{
    let keep = |r: Row| !is_superseded(r);
    assert(rows.take(rows.len() as int) =~= rows);
    if n == 0 {
        tables::lemma_filter_all(rows.take(0), keep);
    } else {
        let k = (n - 1) as nat;
        lemma_lasting_survive(rows, k);
        let row = rows[k as int];
        let one = seq![row];
        assert(rows.take(n as int) =~= rows.take(k as int) + one);
        tables::lemma_filter_concat(rows.take(k as int), one, keep);
        assert forall|r: Row| #[trigger] one.contains(r) implies r == row by {}
        if is_superseded(row) {
            tables::lemma_filter_none(one, keep);
            assert(lasting(rows.take(n as int)) =~= lasting(rows.take(k as int)));
        } else {
            tables::lemma_filter_all(one, keep);
            assert(lasting(rows.take(n as int)) =~= lasting(rows.take(k as int)).push(row));
        }
    }
}

proof fn lemma_record_block(b: Batch, i: int)
    requires
        b.of_one_block(),
        0 <= i < b.records().len(),
    ensures
        b.records()[i].values[0] == Value::Integer(b.chain_id as int),
        b.records()[i].values[2] == writer::hash_value(b.block_hash),
{
    let e = b.eth.len();
    let t = b.erc20.len();
    let g = b.gas.len();
    if i < e {
        assert(b.records()[i] == writer::eth_record(b.eth[i]));
    } else if i < e + t {
        assert(b.records()[i] == writer::erc20_record(b.erc20[i - e]));
    } else if i < e + t + g {
        assert(b.records()[i] == writer::gas_record(b.gas[i - e - t]));
    } else {
        assert(b.records()[i] == writer::unattributed_record(b.unattributed[i - e - t - g]));
    }
}

/// Rows with one key are of one block.
proof fn lemma_key_block(r: Row, other: Row)
    requires
        r.replaced_by(other),
    ensures
        r.values[0] == other.values[0],
        r.values[2] == other.values[2],
{
    assert(r.key()[0] == other.key()[0]);
    assert(r.key()[1] == other.key()[1]);
}

/// Writing a block leaves every row of every other block as it is.
pub proof fn writing_a_block_leaves_other_blocks(s: Store, b: Batch, row: Row)
    requires
        b.of_one_block(),
        s.rows.contains(row),
        !row.of_block(row.table, b.chain_id as int, primitives::b256_text(b.block_hash)),
    ensures
        s.after_all(b.ops()).rows.contains(row),
{
    lemma_puts_and_advance(s, b.records(), b.block_number, b.block_hash);
    let rows = b.records();
    tables::lemma_puts(s, rows);
    let keep = |r: Row| !tables::replaced_by_any(r, rows);
    if tables::replaced_by_any(row, rows) {
        let i = choose|i: int| 0 <= i < rows.len() && row.replaced_by(#[trigger] rows[i]);
        lemma_key_block(row, rows[i]);
        lemma_record_block(b, i);
    }
    tables::lemma_filter_contains(s.rows, keep, row);
    let kept = s.rows.filter(keep);
    let i = choose|i: int| 0 <= i < kept.len() && kept[i] == row;
    assert((kept + tables::survivors(rows))[i] == row);
}

/// Writing a block adds only its own rows.
pub proof fn writing_a_block_adds_only_its_rows(s: Store, b: Batch, row: Row)
    requires
        s.after_all(b.ops()).rows.contains(row),
    ensures
        s.rows.contains(row) || b.records().contains(row),
{
    lemma_puts_and_advance(s, b.records(), b.block_number, b.block_hash);
    let rows = b.records();
    tables::lemma_puts(s, rows);
    let keep = |r: Row| !tables::replaced_by_any(r, rows);
    let kept = s.rows.filter(keep);
    let added = tables::survivors(rows);
    let i = choose|i: int| 0 <= i < (kept + added).len() && (kept + added)[i] == row;
    if i < kept.len() {
        assert(kept[i] == row);
        tables::lemma_filter_contains(s.rows, keep, row);
    } else {
        assert(added[i - kept.len()] == row);
        tables::lemma_survivors_from(rows, row);
    }
}

/// Whether a row is of one of the first `n` blocks.
pub open spec fn of_any_block(row: Row, chain_id: u64, hashes: Seq<B256>, n: nat) -> bool {
    exists|i: int|
        0 <= i < n && row.of_block(
            row.table,
            chain_id as int,
            primitives::b256_text(#[trigger] hashes[i]),
        )
}

/// Deleting the rows of one block, table by table.
proof fn lemma_delete_one(s: Store, chain_id: u64, block_hash: B256)
    ensures
        s.after_all(writer::delete_ops(chain_id, block_hash)) == (Store {
            rows: s.rows.filter(
                |r: Row|
                    !r.of_block(r.table, chain_id as int, primitives::b256_text(block_hash)),
            ),
            meta: s.meta,
        }),
{
    let hash = primitives::b256_text(block_hash);
    let c = chain_id as int;
    let ops = writer::delete_ops(chain_id, block_hash);
    reveal_with_fuel(Store::after_all, 5);
    assert(ops.drop_last().drop_last().drop_last().drop_last() =~= Seq::<Op>::empty());
    assert(ops.drop_last().drop_last().drop_last().last() == ops[0]);
    assert(ops.drop_last().drop_last().last() == ops[1]);
    assert(ops.drop_last().last() == ops[2]);
    assert(ops.last() == ops[3]);
    let p0 = |r: Row| !r.of_block(Table::EthTransfers, c, hash);
    let p1 = |r: Row| !r.of_block(Table::Erc20Transfers, c, hash);
    let p2 = |r: Row| !r.of_block(Table::GasPayments, c, hash);
    let p3 = |r: Row| !r.of_block(Table::UnattributedDeltas, c, hash);
    let p01 = |r: Row| p0(r) && p1(r);
    let p012 = |r: Row| p01(r) && p2(r);
    let all = |r: Row| !r.of_block(r.table, c, hash);
    tables::lemma_filter_twice(s.rows, p0, p1, p01);
    tables::lemma_filter_twice(s.rows, p01, p2, p012);
    assert forall|r: Row| #[trigger] all(r) == (p012(r) && p3(r)) by {
        match r.table {
            Table::EthTransfers => {},
            Table::Erc20Transfers => {},
            Table::GasPayments => {},
            Table::UnattributedDeltas => {},
        }
    }
    tables::lemma_filter_twice(s.rows, p012, p3, all);
}

/// Undoing blocks deletes their rows, of every table, and nothing else; the
/// other rows keep their order, and the single values stay.
pub proof fn deleting_blocks_deletes_exactly_their_rows(
    s: Store,
    chain_id: u64,
    hashes: Seq<B256>,
    n: nat,
)
    requires
        n <= hashes.len(),
    ensures
        s.after_all(writer::delete_all_ops(chain_id, hashes, n)) == (Store {
            rows: s.rows.filter(|r: Row| !of_any_block(r, chain_id, hashes, n)),
            meta: s.meta,
        }),
    decreases n,
{
    if n == 0 {
        tables::lemma_filter_all(s.rows, |r: Row| !of_any_block(r, chain_id, hashes, n));
    } else {
        let m = (n - 1) as nat;
        let last = hashes[n - 1];
        deleting_blocks_deletes_exactly_their_rows(s, chain_id, hashes, m);
        tables::lemma_after_all_concat(
            s,
            writer::delete_all_ops(chain_id, hashes, m),
            writer::delete_ops(chain_id, last),
        );
        lemma_delete_one(
            s.after_all(writer::delete_all_ops(chain_id, hashes, m)),
            chain_id,
            last,
        );
        let p = |r: Row| !of_any_block(r, chain_id, hashes, m);
        let q = |r: Row| !r.of_block(r.table, chain_id as int, primitives::b256_text(last));
        let both = |r: Row| !of_any_block(r, chain_id, hashes, n);
        assert forall|r: Row| #[trigger] both(r) == (p(r) && q(r)) by {
            if of_any_block(r, chain_id, hashes, m) {
                let i = choose|i: int|
                    0 <= i < m && r.of_block(
                        r.table,
                        chain_id as int,
                        primitives::b256_text(#[trigger] hashes[i]),
                    );
                assert(r.of_block(r.table, chain_id as int, primitives::b256_text(hashes[i])));
            }
            if !q(r) {
                assert(r.of_block(r.table, chain_id as int, primitives::b256_text(hashes[n - 1])));
            }
        }
        tables::lemma_filter_twice(s.rows, p, q, both);
    }
}

/// A block that was written and then undone has no rows left, and every row of
/// another block that was there before is there still.
pub proof fn a_reverted_block_leaves_no_rows(s: Store, b: Batch, row: Row)
    requires
        b.of_one_block(),
        s.rows.contains(row),
    ensures
        ({
            let t = s.after_all(b.ops()).after_all(
                writer::delete_all_ops(b.chain_id, seq![b.block_hash], 1),
            );
            &&& t.rows.contains(row) <==> !row.of_block(
                row.table,
                b.chain_id as int,
                primitives::b256_text(b.block_hash),
            )
            &&& forall|r: Row|
                #[trigger] t.rows.contains(r) ==> !r.of_block(
                    r.table,
                    b.chain_id as int,
                    primitives::b256_text(b.block_hash),
                )
        }),
{
    let hashes = seq![b.block_hash];
    let u = s.after_all(b.ops());
    deleting_blocks_deletes_exactly_their_rows(u, b.chain_id, hashes, 1);
    let keep = |r: Row| !of_any_block(r, b.chain_id, hashes, 1);
    let hash = primitives::b256_text(b.block_hash);
    assert forall|r: Row| #[trigger] keep(r) == !r.of_block(r.table, b.chain_id as int, hash) by {
        assert(hashes[0] == b.block_hash);
    }
    let t = u.after_all(writer::delete_all_ops(b.chain_id, hashes, 1));
    assert forall|r: Row| #[trigger] t.rows.contains(r) implies !r.of_block(
        r.table,
        b.chain_id as int,
        hash,
    ) by {
        tables::lemma_filter_contains(u.rows, keep, r);
        assert(keep(r));
    }
    if !row.of_block(row.table, b.chain_id as int, hash) {
        writing_a_block_leaves_other_blocks(s, b, row);
        tables::lemma_filter_contains(u.rows, keep, row);
        assert(keep(row));
    }
}

/// Undoing blocks a second time changes nothing.
pub proof fn deleting_blocks_twice_is_deleting_them_once(s: Store, chain_id: u64, hashes: Seq<B256>)
    ensures
        ({
            let ops = writer::delete_all_ops(chain_id, hashes, hashes.len());
            s.after_all(ops).after_all(ops) == s.after_all(ops)
        }),
{
    let ops = writer::delete_all_ops(chain_id, hashes, hashes.len());
    deleting_blocks_deletes_exactly_their_rows(s, chain_id, hashes, hashes.len());
    deleting_blocks_deletes_exactly_their_rows(
        s.after_all(ops),
        chain_id,
        hashes,
        hashes.len(),
    );
    let keep = |r: Row| !of_any_block(r, chain_id, hashes, hashes.len());
    tables::lemma_filter_twice(s.rows, keep, keep, keep);
}

/// Whether there is no row of a block.
pub open spec fn has_no_row_of(s: Store, chain_id: u64, block_hash: B256) -> bool {
    forall|r: Row|
        #[trigger] s.rows.contains(r) ==> !r.of_block(
            r.table,
            chain_id as int,
            primitives::b256_text(block_hash),
        )
}

/// Writing a block of which there is no row replaces nothing.
proof fn lemma_new_block(s: Store, b: Batch)
    requires
        b.of_one_block(),
        has_no_row_of(s, b.chain_id, b.block_hash),
    ensures
        s.after_all(b.ops()).rows == s.rows + tables::survivors(b.records()),
{
    let rows = b.records();
    lemma_puts_and_advance(s, rows, b.block_number, b.block_hash);
    tables::lemma_puts(s, rows);
    let keep = |r: Row| !tables::replaced_by_any(r, rows);
    assert forall|r: Row| #[trigger] s.rows.contains(r) implies keep(r) by {
        if tables::replaced_by_any(r, rows) {
            let i = choose|i: int| 0 <= i < rows.len() && r.replaced_by(#[trigger] rows[i]);
            lemma_key_block(r, rows[i]);
            lemma_record_block(b, i);
        }
    }
    tables::lemma_filter_all(s.rows, keep);
}

/// Writing a block of which there is no row puts each of its rows into the ledger
/// exactly once, behind those that were there, and changes none of those.
pub proof fn a_new_block_is_stored_exactly(s: Store, b: Batch)
    requires
        b.of_one_block(),
        keys_distinct(b.records()),
        has_no_row_of(s, b.chain_id, b.block_hash),
    ensures
        s.after_all(b.ops()).rows == s.rows + b.records(),
{
    lemma_new_block(s, b);
    lemma_all_survive(b.records());
}

/// Writing a block of which there is no row, and in which only superseded rows are
/// replaced, puts each of its other rows into the ledger exactly once, behind those
/// that were there, and changes none of those.
pub proof fn a_new_block_is_stored_but_for_superseded_rows(s: Store, b: Batch)
    requires
        b.of_one_block(),
        only_superseded_are_replaced(b.records()),
        has_no_row_of(s, b.chain_id, b.block_hash),
    ensures
        s.after_all(b.ops()).rows == s.rows + lasting(b.records()),
{
    let rows = b.records();
    lemma_new_block(s, b);
    lemma_survivors_are_left(rows, rows.len());
    lemma_lasting_survive(rows, rows.len());
    assert(rows.take(rows.len() as int) =~= rows);
}

proof fn lemma_all_survive(rows: Seq<Row>)
    requires
        keys_distinct(rows),
    ensures
        tables::survivors(rows) == rows,
    decreases rows.len(),
{
    if rows.len() > 0 {
        let init = rows.drop_last();
        let last = rows.last();
        assert(rows[rows.len() - 1] == last);
        assert forall|i: int, j: int| 0 <= i < j < init.len() implies !(
        #[trigger] init[i]).replaced_by(#[trigger] init[j]) by {
            assert(!rows[i].replaced_by(rows[j]));
        }
        lemma_all_survive(init);
        assert forall|r: Row| #[trigger] init.contains(r) implies !r.replaced_by(last) by {
            let i = choose|i: int| 0 <= i < init.len() && init[i] == r;
            assert(!rows[i].replaced_by(rows[rows.len() - 1]));
        }
        tables::lemma_filter_all(init, |r: Row| !r.replaced_by(last));
        assert(init.push(last) =~= rows);
    }
}

/// Undoing a block that was written restores the tables: where there was no row of
/// the block, the rows are again those from before it was written.
pub proof fn undoing_a_block_restores_the_tables(s: Store, b: Batch)
    requires
        b.of_one_block(),
        has_no_row_of(s, b.chain_id, b.block_hash),
    ensures
        s.after_all(b.ops()).after_all(
            writer::delete_all_ops(b.chain_id, seq![b.block_hash], 1),
        ).rows == s.rows,
{
    let hashes = seq![b.block_hash];
    let u = s.after_all(b.ops());
    let rows = b.records();
    let added = tables::survivors(rows);
    lemma_new_block(s, b);
    deleting_blocks_deletes_exactly_their_rows(u, b.chain_id, hashes, 1);
    let keep = |r: Row| !of_any_block(r, b.chain_id, hashes, 1);
    let hash = primitives::b256_text(b.block_hash);
    assert forall|r: Row| #[trigger] keep(r) == !r.of_block(r.table, b.chain_id as int, hash) by {
        assert(hashes[0] == b.block_hash);
    }
    tables::lemma_filter_concat(s.rows, added, keep);
    assert forall|r: Row| #[trigger] s.rows.contains(r) implies keep(r) by {}
    tables::lemma_filter_all(s.rows, keep);
    assert forall|r: Row| #[trigger] added.contains(r) implies !keep(r) by {
        tables::lemma_survivors_from(rows, r);
        let i = choose|i: int| 0 <= i < rows.len() && rows[i] == r;
        lemma_record_block(b, i);
    }
    tables::lemma_filter_none(added, keep);
    assert(s.rows + Seq::<Row>::empty() =~= s.rows);
}

/// Two native-value rows with one key have one chain, block, transaction and
/// name.
pub proof fn eth_key_identifies(a: EthTransfer, b: EthTransfer)
    requires
        writer::eth_record(a).replaced_by(writer::eth_record(b)),
    ensures
        a.chain_id == b.chain_id,
        a.block_hash == b.block_hash,
        a.tx_hash == b.tx_hash,
        a.trace_path == b.trace_path,
{
    let ra = writer::eth_record(a);
    let rb = writer::eth_record(b);
    assert(ra.key()[0] == rb.key()[0]);
    assert(ra.key()[1] == rb.key()[1]);
    assert(ra.key()[2] == rb.key()[2]);
    assert(ra.key()[3] == rb.key()[3]);
    a.block_hash.lemma_text_injective(b.block_hash);
    assert(ra.key()[2] != Value::Null);
    match (a.tx_hash, b.tx_hash) {
        (Some(x), Some(y)) => {
            x.lemma_text_injective(y);
        },
        _ => {},
    }
}

/// Two token-transfer rows with one key have one chain, block, transaction, log
/// and address: the two rows of a transfer between watched addresses do not
/// replace each other.
pub proof fn erc20_key_identifies(a: Erc20TransferRow, b: Erc20TransferRow)
    requires
        writer::erc20_record(a).replaced_by(writer::erc20_record(b)),
    ensures
        a.chain_id == b.chain_id,
        a.block_hash == b.block_hash,
        a.tx_hash == b.tx_hash,
        a.log_index == b.log_index,
        a.address == b.address,
{
    let ra = writer::erc20_record(a);
    let rb = writer::erc20_record(b);
    assert(ra.key()[0] == rb.key()[0]);
    assert(ra.key()[1] == rb.key()[1]);
    assert(ra.key()[2] == rb.key()[2]);
    assert(ra.key()[3] == rb.key()[3]);
    assert(ra.key()[4] == rb.key()[4]);
    a.block_hash.lemma_text_injective(b.block_hash);
    a.tx_hash.lemma_text_injective(b.tx_hash);
    a.address.lemma_text_injective(b.address);
}

/// Two fee rows with one key have one chain, block, transaction and payer.
pub proof fn gas_key_identifies(a: GasPaymentRow, b: GasPaymentRow)
    requires
        writer::gas_record(a).replaced_by(writer::gas_record(b)),
    ensures
        a.chain_id == b.chain_id,
        a.block_hash == b.block_hash,
        a.tx_hash == b.tx_hash,
        a.address == b.address,
{
    let ra = writer::gas_record(a);
    let rb = writer::gas_record(b);
    assert(ra.key()[0] == rb.key()[0]);
    assert(ra.key()[1] == rb.key()[1]);
    assert(ra.key()[2] == rb.key()[2]);
    assert(ra.key()[3] == rb.key()[3]);
    a.block_hash.lemma_text_injective(b.block_hash);
    a.tx_hash.lemma_text_injective(b.tx_hash);
    a.address.lemma_text_injective(b.address);
}

/// Two unattributed-change rows with one key have one chain, block and address.
pub proof fn unattributed_key_identifies(a: UnattributedDeltaRow, b: UnattributedDeltaRow)
    requires
        writer::unattributed_record(a).replaced_by(writer::unattributed_record(b)),
    ensures
        a.chain_id == b.chain_id,
        a.block_hash == b.block_hash,
        a.address == b.address,
{
    let ra = writer::unattributed_record(a);
    let rb = writer::unattributed_record(b);
    assert(ra.key()[0] == rb.key()[0]);
    assert(ra.key()[1] == rb.key()[1]);
    assert(ra.key()[2] == rb.key()[2]);
    a.block_hash.lemma_text_injective(b.block_hash);
    a.address.lemma_text_injective(b.address);
}

} // verus!
