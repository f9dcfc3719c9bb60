//! What a query reads of the rows in the ledger, and so what is read back of what
//! was written.

use vstd::prelude::*;
use crate::ledger::laws as ledger_laws;
use crate::ledger::paging;
use crate::ledger::queries;
use crate::ledger::queries::{
    Answer, Decision, Fetched, FetchedRow, Page, Query, TransfersPage, TransfersQuery,
};
use crate::ledger::tables::{MetaKey, Row, Store, Table, Value};
use crate::ledger::writer;
use crate::ledger::writer::Batch;
use crate::model::{
    Direction, Erc20TransferRow, EthKind, EthTransfer, GasPaymentRow, UnattributedDeltaCause,
    UnattributedDeltaRow,
};
use crate::primitives;
use crate::text;

verus! {

/// A stored text.
pub open spec fn text_of(v: Value) -> Seq<char> {
    match v {
        Value::Text(s) => s,
        _ => Seq::empty(),
    }
}

/// A stored text, where there is one.
pub open spec fn some_text_of(v: Value) -> Option<Seq<char>> {
    match v {
        Value::Text(s) => Some(s),
        _ => None,
    }
}

/// A stored number.
pub open spec fn integer_of(v: Value) -> int {
    match v {
        Value::Integer(n) => n,
        _ => 0,
    }
}

impl Table {
    /// The category of a table's rows.
    pub open spec fn category(self) -> int {
        match self {
            Table::EthTransfers => 0,
            Table::Erc20Transfers => 1,
            Table::GasPayments => 2,
            Table::UnattributedDeltas => 3,
        }
    }

    /// The column of the watched address.
    pub open spec fn address_column(self) -> int {
        match self {
            Table::EthTransfers => 5,
            Table::Erc20Transfers => 9,
            Table::GasPayments => 4,
            Table::UnattributedDeltas => 3,
        }
    }
}

impl Row {
    pub open spec fn block(self) -> int {
        integer_of(self.values[1])
    }

    /// The row as a query reads it.
    pub open spec fn fetched(self) -> Fetched {
        let values = self.values;
        Fetched {
            category: self.table.category(),
            block_number: self.block() as i64,
            block_hash: text_of(values[2]),
            tx_hash: match self.table {
                Table::UnattributedDeltas => None,
                _ => some_text_of(values[3]),
            },
            address: text_of(values[self.table.address_column()]),
            direction: match self.table {
                Table::EthTransfers => some_text_of(values[6]),
                Table::Erc20Transfers => some_text_of(values[10]),
                Table::GasPayments => Some("out"@),
                Table::UnattributedDeltas => None,
            },
            counterparty: match self.table {
                Table::EthTransfers => some_text_of(values[7]),
                _ => None,
            },
            token: match self.table {
                Table::Erc20Transfers => some_text_of(values[5]),
                _ => None,
            },
            amount: match self.table {
                Table::EthTransfers | Table::Erc20Transfers => text_of(values[8]),
                Table::GasPayments => text_of(values[9]),
                Table::UnattributedDeltas => text_of(values[6]),
            },
            eth_kind: match self.table {
                Table::EthTransfers => some_text_of(values[9]),
                _ => None,
            },
        }
    }

    /// Whether the row comes after another: in a later block, or in the same one
    /// and of a later category.
    pub open spec fn after(self, other: Row) -> bool {
        self.block() > other.block() || (self.block() == other.block() && self.table.category()
            > other.table.category())
    }
}

impl Query {
    /// Whether a row is one that the query asks for.
    pub open spec fn asks_for(self, row: Row) -> bool {
        &&& row.values[0] == Value::Integer(self.chain_id as int)
        &&& row.values[row.table.address_column()] == Value::Text(self.address)
        &&& self.lo <= row.block() <= self.hi
        &&& queries::selects(self.want, row.table.category())
    }

    /// The query from the first block on.
    pub open spec fn whole(self) -> Query {
        Query { lo: 0, ..self }
    }
}

/// A row put among ordered rows, behind those that it does not come before.
pub open spec fn placed(rows: Seq<Row>, row: Row) -> Seq<Row>
    decreases rows.len(),
{
    if rows.len() > 0 && rows.last().after(row) {
        placed(rows.drop_last(), row).push(rows.last())
    } else {
        rows.push(row)
    }
}

/// The rows that a query reads, by block and then by category, otherwise in the
/// order in which they were inserted.
pub open spec fn read(rows: Seq<Row>, q: Query) -> Seq<Row>
    decreases rows.len(),
{
    if rows.len() == 0 {
        Seq::empty()
    } else {
        let before = read(rows.drop_last(), q);
        if q.asks_for(rows.last()) {
            placed(before, rows.last())
        } else {
            before
        }
    }
}

/// Rows as a query reads them.
pub open spec fn all_fetched(rows: Seq<Row>) -> Seq<Fetched> {
    Seq::new(rows.len(), |i: int| rows[i].fetched())
}

/// Whether every row is of a block that a query can speak of.
pub open spec fn readable(rows: Seq<Row>) -> bool {
    forall|r: Row| #[trigger] rows.contains(r) ==> 0 <= r.block() <= i64::MAX
}

proof fn lemma_placed_counts(rows: Seq<Row>, row: Row)
    ensures
        placed(rows, row).to_multiset() == rows.to_multiset().insert(row),
    decreases rows.len(),
{
    broadcast use vstd::seq_lib::group_to_multiset_ensures;
    broadcast use vstd::multiset::group_multiset_axioms;

    if rows.len() > 0 && rows.last().after(row) {
        let init = rows.drop_last();
        let last = rows.last();
        lemma_placed_counts(init, row);
        assert(init.push(last) =~= rows);
        assert(placed(rows, row).to_multiset() =~= rows.to_multiset().insert(row));
    }
}

/// A query reads every row that it asks for as often as it is there, and no other.
pub proof fn a_query_reads_each_row_once(rows: Seq<Row>, q: Query)
    ensures
        forall|r: Row|
            #[trigger] read(rows, q).to_multiset().count(r) == if q.asks_for(r) {
                rows.to_multiset().count(r)
            } else {
                0
            },
        forall|r: Row|
            #[trigger] read(rows, q).contains(r) <==> rows.contains(r) && q.asks_for(r),
    decreases rows.len(),
{
    broadcast use vstd::seq_lib::group_to_multiset_ensures;
    broadcast use vstd::multiset::group_multiset_axioms;

    if rows.len() > 0 {
        let init = rows.drop_last();
        let last = rows.last();
        a_query_reads_each_row_once(init, q);
        assert(init.push(last) =~= rows);
        lemma_placed_counts(read(init, q), last);
    }
    assert forall|r: Row| #[trigger] read(rows, q).contains(r) <==> rows.contains(r) && q.asks_for(
        r,
    ) by {
        read(rows, q).to_multiset_ensures();
        rows.to_multiset_ensures();
        assert(read(rows, q).contains(r) <==> read(rows, q).to_multiset().count(r) > 0);
        assert(rows.contains(r) <==> rows.to_multiset().count(r) > 0);
    }
}

/// Rows in order.
spec fn in_order(rows: Seq<Row>) -> bool {
    forall|i: int, j: int|
        0 <= i < j < rows.len() ==> !(#[trigger] rows[i]).after(#[trigger] rows[j])
}

proof fn lemma_placed_in_order(rows: Seq<Row>, row: Row)
    requires
        in_order(rows),
    ensures
        in_order(placed(rows, row)),
        forall|i: int|
            0 <= i < placed(rows, row).len() ==> rows.contains(#[trigger] placed(rows, row)[i])
                || placed(rows, row)[i] == row,
    decreases rows.len(),
{
    let p = placed(rows, row);
    if rows.len() > 0 {
        let init = rows.drop_last();
        let last = rows.last();
        assert(rows[rows.len() - 1] == last);
        if last.after(row) {
            assert forall|i: int, j: int| 0 <= i < j < init.len() implies !(
            #[trigger] init[i]).after(#[trigger] init[j]) by {
                assert(!rows[i].after(rows[j]));
            }
            lemma_placed_in_order(init, row);
            let before = placed(init, row);
            assert forall|i: int| 0 <= i < p.len() implies rows.contains(#[trigger] p[i]) || p[i]
                == row by {
                if i < before.len() {
                    assert(p[i] == before[i]);
                    if init.contains(before[i]) {
                        let k = choose|k: int| 0 <= k < init.len() && init[k] == before[i];
                        assert(rows[k] == before[i]);
                    }
                }
            }
            assert forall|i: int, j: int| 0 <= i < j < p.len() implies !(#[trigger] p[i]).after(
                #[trigger] p[j],
            ) by {
                assert(p[i] == before[i]);
                if j < before.len() {
                    assert(p[j] == before[j]);
                } else if init.contains(before[i]) {
                    let k = choose|k: int| 0 <= k < init.len() && init[k] == before[i];
                    assert(!rows[k].after(rows[rows.len() - 1]));
                }
            }
        } else {
            assert forall|i: int, j: int| 0 <= i < j < p.len() implies !(#[trigger] p[i]).after(
                #[trigger] p[j],
            ) by {
                if j < rows.len() {
                    assert(!rows[i].after(rows[j]));
                } else if i < rows.len() - 1 {
                    assert(!rows[i].after(rows[rows.len() - 1]));
                }
            }
            assert forall|i: int| 0 <= i < p.len() implies rows.contains(#[trigger] p[i]) || p[i]
                == row by {
                if i < rows.len() {
                    assert(p[i] == rows[i]);
                }
            }
        }
    }
}

proof fn lemma_read_in_order(rows: Seq<Row>, q: Query)
    ensures
        in_order(read(rows, q)),
    decreases rows.len(),
{
    if rows.len() > 0 {
        lemma_read_in_order(rows.drop_last(), q);
        if q.asks_for(rows.last()) {
            lemma_placed_in_order(read(rows.drop_last(), q), rows.last());
        }
    }
}

/// A query reads its rows block by block.
pub proof fn rows_are_read_in_order(rows: Seq<Row>, q: Query)
    requires
        readable(rows),
    ensures
        paging::ordered(all_fetched(read(rows, q))),
        forall|i: int, j: int|
            0 <= i < j < read(rows, q).len() ==> !(#[trigger] read(rows, q)[i]).after(
                #[trigger] read(rows, q)[j],
            ),
{
    lemma_read_in_order(rows, q);
    a_query_reads_each_row_once(rows, q);
    reveal(paging::ordered);
    let r = read(rows, q);
    let f = all_fetched(r);
    assert forall|i: int| 0 <= i < f.len() implies (#[trigger] f[i]).block_number >= 0 by {
        assert(r.contains(r[i]));
        assert(rows.contains(r[i]));
    }
    assert forall|i: int, j: int| 0 <= i < j < f.len() implies (#[trigger] f[i]).block_number <= (
    #[trigger] f[j]).block_number by {
        assert(r.contains(r[i]) && r.contains(r[j]));
        assert(rows.contains(r[i]) && rows.contains(r[j]));
        assert(!r[i].after(r[j]));
    }
}

/// The rows of the blocks from `lo` on.
spec fn kept_from(rows: Seq<Row>, lo: int) -> Seq<Row>
    decreases rows.len(),
{
    if rows.len() == 0 {
        Seq::empty()
    } else {
        let before = kept_from(rows.drop_last(), lo);
        if rows.last().block() >= lo {
            before.push(rows.last())
        } else {
            before
        }
    }
}

proof fn lemma_kept_none(rows: Seq<Row>, lo: int)
    requires
        forall|i: int| 0 <= i < rows.len() ==> (#[trigger] rows[i]).block() < lo,
    ensures
        kept_from(rows, lo) == Seq::<Row>::empty(),
    decreases rows.len(),
{
    if rows.len() > 0 {
        let init = rows.drop_last();
        assert forall|i: int| 0 <= i < init.len() implies (#[trigger] init[i]).block() < lo by {
            assert(rows[i].block() < lo);
        }
        lemma_kept_none(init, lo);
        assert(rows[rows.len() - 1].block() < lo);
    }
}

proof fn lemma_placed_kept(rows: Seq<Row>, row: Row, lo: int)
    requires
        in_order(rows),
    ensures
        kept_from(placed(rows, row), lo) == if row.block() >= lo {
            placed(kept_from(rows, lo), row)
        } else {
            kept_from(rows, lo)
        },
    decreases rows.len(),
{
    let p = placed(rows, row);
    if rows.len() > 0 {
        let init = rows.drop_last();
        let last = rows.last();
        assert(rows[rows.len() - 1] == last);
        if last.after(row) {
            assert forall|i: int, j: int| 0 <= i < j < init.len() implies !(
            #[trigger] init[i]).after(#[trigger] init[j]) by {
                assert(!rows[i].after(rows[j]));
            }
            lemma_placed_kept(init, row, lo);
            assert(p.drop_last() =~= placed(init, row));
            assert(p.last() == last);
            if last.block() >= lo {
                let kept = kept_from(rows, lo);
                assert(kept.drop_last() =~= kept_from(init, lo));
                assert(kept.last() == last);
            }
        } else {
            assert(p.drop_last() =~= rows);
            assert(p.last() == row);
            if last.block() >= lo {
                assert(kept_from(rows, lo).last() == last);
            } else {
                assert forall|i: int| 0 <= i < rows.len() implies (#[trigger] rows[i]).block()
                    < lo by {
                    if i < rows.len() - 1 {
                        assert(!rows[i].after(rows[rows.len() - 1]));
                    }
                }
                lemma_kept_none(rows, lo);
            }
        }
    } else {
        assert(p.drop_last() =~= rows);
        assert(p.last() == row);
    }
}

proof fn lemma_readable_init(rows: Seq<Row>)
    requires
        readable(rows),
        rows.len() > 0,
    ensures
        readable(rows.drop_last()),
        0 <= rows.last().block() <= i64::MAX,
{
    let init = rows.drop_last();
    assert forall|r: Row| #[trigger] init.contains(r) implies 0 <= r.block() <= i64::MAX by {
        let k = choose|k: int| 0 <= k < init.len() && init[k] == r;
        assert(rows[k] == r);
        assert(rows.contains(r));
    }
    assert(rows[rows.len() - 1] == rows.last());
    assert(rows.contains(rows.last()));
}

proof fn lemma_read_from(rows: Seq<Row>, q: Query)
    requires
        readable(rows),
    ensures
        read(rows, q) == kept_from(read(rows, q.whole()), q.lo),
    decreases rows.len(),
{
    if rows.len() > 0 {
        let init = rows.drop_last();
        let last = rows.last();
        lemma_readable_init(rows);
        lemma_read_from(init, q);
        lemma_read_in_order(init, q.whole());
        if q.whole().asks_for(last) {
            lemma_placed_kept(read(init, q.whole()), last, q.lo);
        }
    }
}

proof fn lemma_kept_fetched(rows: Seq<Row>, lo: int)
    requires
        readable(rows),
    ensures
        all_fetched(kept_from(rows, lo)) == queries::rows_from(all_fetched(rows), lo),
    decreases rows.len(),
{
    if rows.len() > 0 {
        let init = rows.drop_last();
        let last = rows.last();
        lemma_readable_init(rows);
        lemma_kept_fetched(init, lo);
        assert(all_fetched(rows).drop_last() =~= all_fetched(init));
        assert(all_fetched(rows).last() == last.fetched());
        assert(all_fetched(kept_from(rows, lo)) =~= queries::rows_from(all_fetched(rows), lo));
    } else {
        assert(all_fetched(kept_from(rows, lo)) =~= queries::rows_from(all_fetched(rows), lo));
    }
}

/// A query that starts at a block, as the one for a next page does, reads what the
/// query from the first block on reads from there on.
pub proof fn a_later_start_only_skips(rows: Seq<Row>, q: Query)
    requires
        readable(rows),
    ensures
        all_fetched(read(rows, q)) == queries::rows_from(all_fetched(read(rows, q.whole())), q.lo),
{
    lemma_read_from(rows, q);
    let whole = read(rows, q.whole());
    a_query_reads_each_row_once(rows, q.whole());
    assert forall|r: Row| #[trigger] whole.contains(r) implies 0 <= r.block() <= i64::MAX by {
        assert(rows.contains(r));
    }
    lemma_kept_fetched(whole, q.lo);
}

/// The page that a request for rows gets, where the ledger is read as this module
/// says.
pub proof fn a_request_gets_the_page_of_its_query<
    E,
    G: Fn(&TransfersQuery, i64) -> Result<Vec<FetchedRow>, E>,
    H: Fn(&TransfersQuery, i64) -> Result<bool, E>,
>(
    rows: Seq<Row>,
    q: TransfersQuery,
    first: Result<Vec<FetchedRow>, E>,
    fetch_block: G,
    any_after: H,
    r: Result<TransfersPage, E>,
)
    requires
        queries::follows_from(q, first, fetch_block, any_after, r),
        r is Ok,
        first matches Ok(v) ==> queries::fetched_view(v@) == paging::first_rows(
            all_fetched(read(rows, q@)),
            q.lim + 1,
        ),
        forall|cut: i64, found: Result<Vec<FetchedRow>, E>| #[trigger]
            call_ensures(fetch_block, (&q, cut), found) ==> (found matches Ok(v)
                ==> queries::fetched_view(v@) == paging::block_rows(
                all_fetched(read(rows, q@)),
                cut as int,
            )),
        forall|cut: i64, found: Result<bool, E>| #[trigger]
            call_ensures(any_after, (&q, cut), found) ==> (found matches Ok(more) ==> more
                == paging::any_after(all_fetched(read(rows, q@)), cut as int)),
    ensures
        r->Ok_0@ == paging::page_of(all_fetched(read(rows, q@)), q.lim as int),
{
    if let Ok(v) = first {
        if let Decision::WholeBlock { cut } = queries::decide(
            queries::fetched_view(v@),
            q.lim as int,
        ) {
            let found = choose|found: Result<Vec<FetchedRow>, E>| #[trigger]
                call_ensures(fetch_block, (&q, cut), found) && queries::follows_from_block(
                    q,
                    cut,
                    found,
                    any_after,
                    r,
                );
            if let Ok(b) = found {
                let more = choose|more: Result<bool, E>| #[trigger]
                    call_ensures(any_after, (&q, cut), more) && match more {
                        Err(e) => r == Err::<TransfersPage, E>(e),
                        Ok(m) => r is Ok && r->Ok_0@ == queries::block_page(
                            queries::fetched_view(b@),
                            cut,
                            m,
                        ),
                    };
            }
        }
    }
}

/// All that is read by following the cursors of a query, in up to `n` pages.
pub open spec fn read_through(rows: Seq<Row>, q: Query, n: nat) -> Seq<Answer> {
    paging::pages(all_fetched(read(rows, q.whole())), q.lo, q.lim, n)
}

/// Following the cursors of a query reads exactly what it asks for.
pub proof fn following_cursors_reads_what_is_asked_for(rows: Seq<Row>, q: Query, n: nat)
    requires
        readable(rows),
        1 <= q.lim,
        n > read(rows, q).len(),
    ensures
        read_through(rows, q, n) == queries::answers(all_fetched(read(rows, q))),
{
    rows_are_read_in_order(rows, q.whole());
    a_later_start_only_skips(rows, q);
    paging::following_cursors_yields_every_row(
        all_fetched(read(rows, q.whole())),
        q.lo,
        q.lim,
        n,
    );
}

/// The page of a request.
pub open spec fn page_for(
    rows: Seq<Row>,
    chain_id: u64,
    address: Seq<char>,
    from_block: Option<u64>,
    to_block: Option<u64>,
    kind: Option<&str>,
    cursor: Option<u64>,
    limit: u32,
) -> Page {
    let q = queries::query_of(chain_id, address, from_block, to_block, kind, cursor, limit);
    paging::page_of(all_fetched(read(rows, q)), q.lim)
}

/// A request that starts at a block whose number the ledger cannot hold gets no
/// rows and no cursor.
pub proof fn nothing_is_found_beyond_the_last_number(
    rows: Seq<Row>,
    chain_id: u64,
    address: Seq<char>,
    from_block: Option<u64>,
    to_block: Option<u64>,
    kind: Option<&str>,
    cursor: Option<u64>,
    limit: u32,
)
    requires
        queries::first_of(cursor, from_block) > i64::MAX,
    ensures
        page_for(rows, chain_id, address, from_block, to_block, kind, cursor, limit) == (Page {
            rows: Seq::empty(),
            next_cursor: None,
        }),
{
    let q = queries::query_of(chain_id, address, from_block, to_block, kind, cursor, limit);
    a_query_reads_each_row_once(rows, q);
    let found = read(rows, q);
    if found.len() > 0 {
        assert(found.contains(found[0]));
    }
    assert(queries::answers(all_fetched(found)) =~= Seq::<Answer>::empty());
}

/// Up to `n` pages: that of a request, and then those of the same request with the
/// cursor of the page before, until there is none.
pub open spec fn followed(
    rows: Seq<Row>,
    chain_id: u64,
    address: Seq<char>,
    from_block: Option<u64>,
    to_block: Option<u64>,
    kind: Option<&str>,
    cursor: Option<u64>,
    limit: u32,
    n: nat,
) -> Seq<Page>
    decreases n,
{
    if n == 0 {
        Seq::empty()
    } else {
        let p = page_for(rows, chain_id, address, from_block, to_block, kind, cursor, limit);
        seq![p] + match p.next_cursor {
            Some(c) => followed(
                rows,
                chain_id,
                address,
                from_block,
                to_block,
                kind,
                Some(c),
                limit,
                (n - 1) as nat,
            ),
            None => Seq::empty(),
        }
    }
}

/// The rows of pages, one page after the other.
pub open spec fn rows_of(pages: Seq<Page>) -> Seq<Answer>
    decreases pages.len(),
{
    if pages.len() == 0 {
        Seq::empty()
    } else {
        pages[0].rows + rows_of(pages.skip(1))
    }
}

/// No row of these pages is of a block before this one.
spec fn all_from(pages: Seq<Page>, lo: int) -> bool {
    forall|i: int, k: int|
        0 <= i < pages.len() && 0 <= k < pages[i].rows.len() ==> lo <= (
        #[trigger] pages[i].rows[k]).block_number
}

/// Following the cursors of a request, as long as there is one, comes to an end.
/// The pages together hold every row that is asked for exactly once, by block and
/// then by category. No block is on two pages, and a cursor is after every block
/// of its page.
pub proof fn following_requests_reads_every_row_once(
    rows: Seq<Row>,
    chain_id: u64,
    address: Seq<char>,
    from_block: Option<u64>,
    to_block: Option<u64>,
    kind: Option<&str>,
    cursor: Option<u64>,
    limit: u32,
    n: nat,
)
    requires
        readable(rows),
        n > rows.len(),
    ensures
        ({
            let q = queries::query_of(
                chain_id,
                address,
                from_block,
                to_block,
                kind,
                cursor,
                limit,
            );
            let pages = followed(
                rows,
                chain_id,
                address,
                from_block,
                to_block,
                kind,
                cursor,
                limit,
                n,
            );
            let all = read(rows, q);
            &&& pages.len() > 0 && pages.last().next_cursor is None
            &&& rows_of(pages) == queries::answers(all_fetched(all))
            &&& forall|r: Row|
                #[trigger] all.to_multiset().count(r) == if q.asks_for(r) {
                    rows.to_multiset().count(r)
                } else {
                    0
                }
            &&& forall|i: int, j: int|
                0 <= i < j < all.len() ==> !(#[trigger] all[i]).after(#[trigger] all[j])
            &&& forall|i: int, k: int|
                0 <= i < pages.len() && 0 <= k < pages[i].rows.len() && pages[i].next_cursor is Some
                    ==> (#[trigger] pages[i].rows[k]).block_number < pages[i].next_cursor->0
            &&& forall|i: int, k: int, j: int, m: int|
                0 <= i < j < pages.len() && 0 <= k < pages[i].rows.len() && 0 <= m
                    < pages[j].rows.len() ==> (#[trigger] pages[i].rows[k]).block_number < (
                #[trigger] pages[j].rows[m]).block_number
        }),
{
    let q = queries::query_of(chain_id, address, from_block, to_block, kind, cursor, limit);
    rows_are_read_in_order(rows, q);
    a_query_reads_each_row_once(rows, q);
    lemma_read_len(rows, q);
    lemma_followed(rows, chain_id, address, from_block, to_block, kind, cursor, limit, n);
}

proof fn lemma_placed_len(rows: Seq<Row>, row: Row)
    ensures
        placed(rows, row).len() == rows.len() + 1,
    decreases rows.len(),
{
    if rows.len() > 0 && rows.last().after(row) {
        lemma_placed_len(rows.drop_last(), row);
    }
}

proof fn lemma_read_len(rows: Seq<Row>, q: Query)
    ensures
        read(rows, q).len() <= rows.len(),
    decreases rows.len(),
{
    if rows.len() > 0 {
        lemma_read_len(rows.drop_last(), q);
        lemma_placed_len(read(rows.drop_last(), q), rows.last());
    }
}

proof fn lemma_followed(
    rows: Seq<Row>,
    chain_id: u64,
    address: Seq<char>,
    from_block: Option<u64>,
    to_block: Option<u64>,
    kind: Option<&str>,
    cursor: Option<u64>,
    limit: u32,
    n: nat,
)
    requires
        readable(rows),
        n > read(
            rows,
            queries::query_of(chain_id, address, from_block, to_block, kind, cursor, limit),
        ).len(),
    ensures
        ({
            let q = queries::query_of(
                chain_id,
                address,
                from_block,
                to_block,
                kind,
                cursor,
                limit,
            );
            let pages = followed(
                rows,
                chain_id,
                address,
                from_block,
                to_block,
                kind,
                cursor,
                limit,
                n,
            );
            &&& pages.len() > 0 && pages.last().next_cursor is None
            &&& rows_of(pages) == queries::answers(all_fetched(read(rows, q)))
            &&& all_from(pages, q.lo)
            &&& forall|i: int, k: int|
                0 <= i < pages.len() && 0 <= k < pages[i].rows.len() && pages[i].next_cursor is Some
                    ==> (#[trigger] pages[i].rows[k]).block_number < pages[i].next_cursor->0
            &&& forall|i: int, k: int, j: int, m: int|
                0 <= i < j < pages.len() && 0 <= k < pages[i].rows.len() && 0 <= m
                    < pages[j].rows.len() ==> (#[trigger] pages[i].rows[k]).block_number < (
                #[trigger] pages[j].rows[m]).block_number
        }),
    decreases n,
{
    let q = queries::query_of(chain_id, address, from_block, to_block, kind, cursor, limit);
    let pages = followed(
        rows,
        chain_id,
        address,
        from_block,
        to_block,
        kind,
        cursor,
        limit,
        n,
    );
    let found = read(rows, q);
    let all = all_fetched(found);
    let p = paging::page_of(all, q.lim);
    rows_are_read_in_order(rows, q);
    a_query_reads_each_row_once(rows, q);
    paging::a_page_is_complete(all, q.lim);
    assert forall|k: int| 0 <= k < all.len() implies q.lo <= (#[trigger] all[k]).block_number by {
        assert(found.contains(found[k]));
        assert(rows.contains(found[k]));
    }
    match p.next_cursor {
        None => {
            assert(pages =~= seq![p]);
            assert(pages.skip(1) =~= Seq::<Page>::empty());
            assert(rows_of(pages.skip(1)) =~= Seq::<Answer>::empty());
            assert(rows_of(pages) =~= p.rows);
            assert forall|i: int, k: int|
                0 <= i < pages.len() && 0 <= k < pages[i].rows.len() implies q.lo <= (
            #[trigger] pages[i].rows[k]).block_number by {
                assert(pages[i].rows[k] == queries::answer(all[k]));
            }
        },
        Some(c) => {
            let below = queries::below(all, c as int);
            let rest = followed(
                rows,
                chain_id,
                address,
                from_block,
                to_block,
                kind,
                Some(c),
                limit,
                (n - 1) as nat,
            );
            let later = queries::query_of(
                chain_id,
                address,
                from_block,
                to_block,
                kind,
                Some(c),
                limit,
            );
            assert(found.contains(found[0]));
            assert(later == (Query { lo: c as int, ..q }));
            paging::blocks_are_never_split(all, q.lim);
            a_later_start_only_skips(rows, q);
            a_later_start_only_skips(rows, later);
            assert(later.whole() == q.whole());
            paging::lemma_rows_from_twice(all_fetched(read(rows, q.whole())), q.lo, c as int);
            let after = all_fetched(read(rows, later));
            assert(below + after == all);
            lemma_followed(
                rows,
                chain_id,
                address,
                from_block,
                to_block,
                kind,
                Some(c),
                limit,
                (n - 1) as nat,
            );
            assert(pages == seq![p] + rest);
            assert(pages.skip(1) =~= rest);
            assert(queries::answers(below) + queries::answers(after) =~= queries::answers(
                below + after,
            ));
            assert(pages.last() == rest.last());
            assert forall|k: int| 0 <= k < p.rows.len() implies q.lo <= (
            #[trigger] p.rows[k]).block_number < c by {
                assert(p.rows[k] == queries::answer(below[k]));
                assert(all[k] == below[k]);
            }
            assert forall|i: int| 0 < i < pages.len() implies #[trigger] pages[i] == rest[i - 1] by {}
            assert forall|i: int, k: int|
                0 <= i < pages.len() && 0 <= k < pages[i].rows.len() implies q.lo <= (
            #[trigger] pages[i].rows[k]).block_number by {
                if i > 0 {
                    assert(c <= rest[i - 1].rows[k].block_number);
                }
            }
            assert forall|i: int, k: int|
                0 <= i < pages.len() && 0 <= k < pages[i].rows.len()
                    && pages[i].next_cursor is Some implies (
            #[trigger] pages[i].rows[k]).block_number < pages[i].next_cursor->0 by {
                if i > 0 {
                    assert(rest[i - 1].rows[k].block_number < rest[i - 1].next_cursor->0);
                }
            }
            assert forall|i: int, k: int, j: int, m: int|
                0 <= i < j < pages.len() && 0 <= k < pages[i].rows.len() && 0 <= m
                    < pages[j].rows.len() implies (#[trigger] pages[i].rows[k]).block_number < (
            #[trigger] pages[j].rows[m]).block_number by {
                assert(c <= rest[j - 1].rows[m].block_number);
                if i > 0 {
                    assert(rest[i - 1].rows[k].block_number < rest[j - 1].rows[m].block_number);
                }
            }
        },
    }
}

/// What was written is read back: once a batch is written, following the cursors of
/// a query gives every one of its rows that the query asks for and that no later
/// one of them replaces.
pub proof fn a_written_row_is_read_back(store: Store, b: Batch, k: int, q: Query, n: nat)
    requires
        readable(store.rows),
        readable(b.records()),
        0 <= k < b.records().len(),
        !ledger_laws::replaced_later(b.records(), k),
        q.asks_for(b.records()[k]),
        1 <= q.lim,
        n > read(store.after_all(b.ops()).rows, q).len(),
    ensures
        read_through(store.after_all(b.ops()).rows, q, n).contains(
            queries::answer(b.records()[k].fetched()),
        ),
{
    let rows = store.after_all(b.ops()).rows;
    let row = b.records()[k];
    lemma_readable_after(store, b);
    ledger_laws::no_row_is_lost(store, b);
    assert(rows.contains(row));
    a_query_reads_each_row_once(rows, q);
    following_cursors_reads_what_is_asked_for(rows, q, n);
    let r = read(rows, q);
    assert(r.contains(row));
    let i = choose|i: int| 0 <= i < r.len() && r[i] == row;
    assert(queries::answers(all_fetched(r))[i] == queries::answer(row.fetched()));
}

proof fn lemma_readable_after(store: Store, b: Batch)
    requires
        readable(store.rows),
        readable(b.records()),
    ensures
        readable(store.after_all(b.ops()).rows),
{
    assert forall|r: Row| #[trigger] store.after_all(b.ops()).rows.contains(r) implies 0
        <= r.block() <= i64::MAX by {
        ledger_laws::writing_a_block_adds_only_its_rows(store, b, r);
        assert(store.rows.contains(r) || b.records().contains(r));
    }
}

/// The health of a ledger is the last block that was written.
pub proof fn health_is_the_last_block(store: Store, b: Batch, number: String)
    requires
        number@ == store.after_all(b.ops()).meta[MetaKey::LastBlock],
    ensures
        queries::stored_number(Some(number)) == Some(b.block_number),
{
    ledger_laws::writing_a_block_advances(store, b);
    text::lemma_decimal_reads_back(b.block_number);
}

/// Nothing but what is stored is read: every answer is of a stored row that the
/// query asks for.
pub proof fn only_stored_rows_are_read(rows: Seq<Row>, q: Query, n: nat, k: int)
    requires
        readable(rows),
        1 <= q.lim,
        n > read(rows, q).len(),
        0 <= k < read_through(rows, q, n).len(),
    ensures
        exists|row: Row| #[trigger]
            rows.contains(row) && q.asks_for(row) && read_through(rows, q, n)[k]
                == queries::answer(row.fetched()),
{
    following_cursors_reads_what_is_asked_for(rows, q, n);
    a_query_reads_each_row_once(rows, q);
    let row = read(rows, q)[k];
    assert(read(rows, q).contains(row));
    assert(rows.contains(row));
}

/// What is read of a native-value movement.
pub proof fn a_native_movement_reads_as_it_was(r: EthTransfer)
    requires
        r.block_number <= i64::MAX,
    ensures
        queries::answer(writer::eth_record(r).fetched()) == (Answer {
            category: "eth"@,
            block_number: r.block_number,
            block_hash: primitives::b256_text(r.block_hash),
            tx_hash: match r.tx_hash {
                Some(h) => Some(primitives::b256_text(h)),
                None => None,
            },
            address: primitives::address_text(r.address),
            direction: Some(r.direction.spelling()),
            counterparty: Some(primitives::address_text(r.counterparty)),
            token: None,
            amount: text::decimal(r.amount_wei),
            kind: Some(r.kind.spelling()),
        }),
{
}

/// What is read of a token transfer.
pub proof fn a_token_transfer_reads_as_it_was(r: Erc20TransferRow)
    requires
        r.block_number <= i64::MAX,
    ensures
        queries::answer(writer::erc20_record(r).fetched()) == (Answer {
            category: "erc20"@,
            block_number: r.block_number,
            block_hash: primitives::b256_text(r.block_hash),
            tx_hash: Some(primitives::b256_text(r.tx_hash)),
            address: primitives::address_text(r.address),
            direction: Some(r.direction.spelling()),
            counterparty: None,
            token: Some(primitives::address_text(r.token)),
            amount: text::decimal(r.amount@),
            kind: Some("erc20"@),
        }),
{
}

/// What is read of a fee.
pub proof fn a_fee_reads_as_it_was(r: GasPaymentRow)
    requires
        r.block_number <= i64::MAX,
    ensures
        queries::answer(writer::gas_record(r).fetched()) == (Answer {
            category: "gas"@,
            block_number: r.block_number,
            block_hash: primitives::b256_text(r.block_hash),
            tx_hash: Some(primitives::b256_text(r.tx_hash)),
            address: primitives::address_text(r.address),
            direction: Some("out"@),
            counterparty: None,
            token: None,
            amount: text::decimal(r.total_wei@),
            kind: Some("gas"@),
        }),
{
}

/// What is read of an unattributed change.
pub proof fn an_unattributed_change_reads_as_it_was(r: UnattributedDeltaRow)
    requires
        r.block_number <= i64::MAX,
    ensures
        queries::answer(writer::unattributed_record(r).fetched()) == (Answer {
            category: "unattributed"@,
            block_number: r.block_number,
            block_hash: primitives::b256_text(r.block_hash),
            tx_hash: None,
            address: primitives::address_text(r.address),
            direction: None,
            counterparty: None,
            token: None,
            amount: text::decimal(r.residual_wei@),
            kind: Some("unattributed"@),
        }),
{
}

/// A native-value movement is stored with every field in its column.
pub proof fn a_native_movement_is_stored_field_by_field(r: EthTransfer)
    ensures
        ({
            let row = writer::eth_record(r);
            let v = row.values;
            &&& row.table == Table::EthTransfers && v.len() == 11
            &&& integer_of(v[0]) == r.chain_id && v[0] is Integer
            &&& integer_of(v[1]) == r.block_number && v[1] is Integer
            &&& v[2] == Value::Text(primitives::b256_text(r.block_hash))
            &&& r.tx_hash is None ==> v[3] == Value::Null
            &&& r.tx_hash is Some ==> v[3] == Value::Text(primitives::b256_text(r.tx_hash->0))
            &&& v[4] == Value::Text(r.trace_path)
            &&& v[5] == Value::Text(primitives::address_text(r.address))
            &&& v[6] == Value::Text(
                match r.direction {
                    Direction::In => "in"@,
                    Direction::Out => "out"@,
                },
            )
            &&& v[7] == Value::Text(primitives::address_text(r.counterparty))
            &&& v[8] == Value::Text(text::decimal(r.amount_wei))
            &&& v[9] == Value::Text(
                match r.kind {
                    EthKind::TopLevel => "top_level"@,
                    EthKind::Internal => "internal"@,
                    EthKind::System => "system"@,
                },
            )
            &&& v[10] is Integer && (integer_of(v[10]) == 1 <==> r.reverted) && (integer_of(v[10])
                == 0 <==> !r.reverted)
        }),
{
}

/// A token transfer is stored with every field in its column: the sender before the
/// recipient, then the amount, the address that it is booked for and the direction.
pub proof fn a_token_transfer_is_stored_field_by_field(r: Erc20TransferRow)
    ensures
        ({
            let row = writer::erc20_record(r);
            let v = row.values;
            &&& row.table == Table::Erc20Transfers && v.len() == 11
            &&& v[0] is Integer && integer_of(v[0]) == r.chain_id
            &&& v[1] is Integer && integer_of(v[1]) == r.block_number
            &&& v[2] == Value::Text(primitives::b256_text(r.block_hash))
            &&& v[3] == Value::Text(primitives::b256_text(r.tx_hash))
            &&& v[4] is Integer && integer_of(v[4]) == r.log_index
            &&& v[5] == Value::Text(primitives::address_text(r.token))
            &&& v[6] == Value::Text(primitives::address_text(r.from))
            &&& v[7] == Value::Text(primitives::address_text(r.to))
            &&& v[8] == Value::Text(text::decimal(r.amount@))
            &&& v[9] == Value::Text(primitives::address_text(r.address))
            &&& v[10] == Value::Text(
                match r.direction {
                    Direction::In => "in"@,
                    Direction::Out => "out"@,
                },
            )
        }),
{
}

/// A fee is stored with every field in its column.
pub proof fn a_fee_is_stored_field_by_field(r: GasPaymentRow)
    ensures
        ({
            let row = writer::gas_record(r);
            let v = row.values;
            &&& row.table == Table::GasPayments && v.len() == 10
            &&& v[0] is Integer && integer_of(v[0]) == r.chain_id
            &&& v[1] is Integer && integer_of(v[1]) == r.block_number
            &&& v[2] == Value::Text(primitives::b256_text(r.block_hash))
            &&& v[3] == Value::Text(primitives::b256_text(r.tx_hash))
            &&& v[4] == Value::Text(primitives::address_text(r.address))
            &&& v[5] is Integer && integer_of(v[5]) == r.gas_used
            &&& v[6] == Value::Text(text::decimal(r.effective_gas_price as nat))
            &&& v[7] == Value::Text(text::decimal(r.l2_fee_wei@))
            &&& r.l1_fee_wei is None ==> v[8] == Value::Null
            &&& r.l1_fee_wei is Some ==> v[8] == Value::Text(text::decimal(r.l1_fee_wei->0@))
            &&& v[9] == Value::Text(text::decimal(r.total_wei@))
        }),
{
}

/// An unattributed change is stored with every field in its column.
pub proof fn an_unattributed_change_is_stored_field_by_field(r: UnattributedDeltaRow)
    ensures
        ({
            let row = writer::unattributed_record(r);
            let v = row.values;
            &&& row.table == Table::UnattributedDeltas && v.len() == 8
            &&& v[0] is Integer && integer_of(v[0]) == r.chain_id
            &&& v[1] is Integer && integer_of(v[1]) == r.block_number
            &&& v[2] == Value::Text(primitives::b256_text(r.block_hash))
            &&& v[3] == Value::Text(primitives::address_text(r.address))
            &&& v[4] == Value::Text(text::decimal(r.observed_wei@))
            &&& v[5] == Value::Text(text::decimal(r.attributed_wei@))
            &&& v[6] == Value::Text(text::decimal(r.residual_wei@))
            &&& v[7] == Value::Text(
                match r.cause {
                    UnattributedDeltaCause::ParentStateUnavailable => "parent_state_unavailable"@,
                    UnattributedDeltaCause::UnexplainedResidual => "unexplained_residual"@,
                    UnattributedDeltaCause::BlockNotDelivered => "block_not_delivered"@,
                },
            )
        }),
{
}

/// A batch is stored row for row: its native movements, token transfers, fees and
/// unattributed changes, in this order.
pub proof fn a_batch_is_stored_row_for_row(b: Batch)
    ensures
        ({
            let e = b.eth.len() as int;
            let t = b.erc20.len() as int;
            let g = b.gas.len() as int;
            let rows = b.records();
            &&& rows.len() == e + t + g + b.unattributed.len()
            &&& forall|k: int|
                0 <= k < e ==> #[trigger] rows[k] == writer::eth_record(b.eth[k])
            &&& forall|k: int|
                e <= k < e + t ==> #[trigger] rows[k] == writer::erc20_record(b.erc20[k - e])
            &&& forall|k: int|
                e + t <= k < e + t + g ==> #[trigger] rows[k] == writer::gas_record(
                    b.gas[k - e - t],
                )
            &&& forall|k: int|
                e + t + g <= k < rows.len() ==> #[trigger] rows[k] == writer::unattributed_record(
                    b.unattributed[k - e - t - g],
                )
        }),
{
}

/// A block that was never delivered is marked for every watched address, with nothing
/// observed, nothing attributed and nothing left, and with that cause.
pub proof fn an_undelivered_block_is_marked_with_nothing(
    chain_id: u64,
    number: u64,
    hash: primitives::B256,
    addresses: Seq<primitives::Address>,
)
    ensures
        ({
            let rows = writer::gap_records(chain_id, number, hash, addresses);
            &&& rows.len() == addresses.len()
            &&& forall|k: int|
                0 <= k < addresses.len() ==> {
                    let v = (#[trigger] rows[k]).values;
                    &&& rows[k].table == Table::UnattributedDeltas
                    &&& integer_of(v[0]) == chain_id && integer_of(v[1]) == number
                    &&& v[2] == Value::Text(primitives::b256_text(hash))
                    &&& v[3] == Value::Text(primitives::address_text(addresses[k]))
                    &&& v[4] == Value::Text(text::decimal(0))
                    &&& v[5] == Value::Text(text::decimal(0))
                    &&& v[6] == Value::Text(text::decimal(0))
                    &&& v[7] == Value::Text("block_not_delivered"@)
                }
        }),
{
}

/// A request asks for the rows of its chain and its address, from its cursor on, or
/// without one from its first block on, up to its last block, and of its kind: all
/// kinds without one, and none if it is unknown.
pub proof fn a_request_asks_for_what_it_says(
    row: Row,
    chain_id: u64,
    address: Seq<char>,
    from_block: Option<u64>,
    to_block: Option<u64>,
    kind: Option<&str>,
    cursor: Option<u64>,
    limit: u32,
)
    requires
        0 <= row.block() <= i64::MAX,
    ensures
        queries::query_of(
            chain_id,
            address,
            from_block,
            to_block,
            kind,
            cursor,
            limit,
        ).asks_for(row) <==> {
            &&& row.values[0] == Value::Integer(chain_id as int)
            &&& match row.table {
                Table::EthTransfers => row.values[5] == Value::Text(address),
                Table::Erc20Transfers => row.values[9] == Value::Text(address),
                Table::GasPayments => row.values[4] == Value::Text(address),
                Table::UnattributedDeltas => row.values[3] == Value::Text(address),
            }
            &&& match (cursor, from_block) {
                (Some(c), _) => c <= row.block(),
                (None, Some(f)) => f <= row.block(),
                (None, None) => true,
            }
            &&& match to_block {
                Some(t) => row.block() <= t,
                None => true,
            }
            &&& match kind {
                Some(k) => k@ == match row.table {
                    Table::EthTransfers => "eth"@,
                    Table::Erc20Transfers => "erc20"@,
                    Table::GasPayments => "gas"@,
                    Table::UnattributedDeltas => "unattributed"@,
                },
                None => true,
            }
        },
        ({
            let lim = queries::query_of(
                chain_id,
                address,
                from_block,
                to_block,
                kind,
                cursor,
                limit,
            ).lim;
            &&& 1 <= lim <= 1000
            &&& 1 <= limit <= 1000 ==> lim == limit
            &&& limit > 1000 ==> lim == 1000
        }),
{
    if let Some(k) = kind {
        paging::kinds_select_their_category(k, row.table.category());
    }
}

} // verus!
