//! Reading from the ledger: its health, and the pages of an address's rows.

use vstd::prelude::*;
use vstd::string::StringExecFns;
use crate::text;

verus! {

/// How far the ledger is, and for which chain.
#[derive(Clone, Copy, Debug)]
pub struct Health {
    pub last_block: Option<u64>,
    pub chain_id: Option<u64>,
}

/// The number that an optional stored text spells.
pub open spec fn stored_number(v: Option<String>) -> Option<u64> {
    match v {
        Some(s) => text::parsed_u64(s@),
        None => None,
    }
}

fn read_number(v: &Option<String>) -> (r: Option<u64>)
    ensures
        r == stored_number(*v),
{
    match v {
        Some(s) => text::parse_u64(s.as_str()),
        None => None,
    }
}

/// The health of a ledger from its stored values; what is missing or spells no
/// number is left out.
pub fn health(last_block: &Option<String>, chain_id: &Option<String>) -> (r: Health)
    ensures
        r.last_block == stored_number(*last_block),
        r.chain_id == stored_number(*chain_id),
{
    Health { last_block: read_number(last_block), chain_id: read_number(chain_id) }
}

/// A row as it is answered.
#[derive(Clone, Debug)]
pub struct TransferRowOut {
    pub category: &'static str,
    pub block_number: u64,
    pub block_hash: String,
    pub tx_hash: Option<String>,
    pub address: String,
    pub direction: Option<String>,
    pub counterparty: Option<String>,
    pub token: Option<String>,
    pub amount: String,
    pub kind: Option<String>,
}

/// A page of rows, and where the next one starts.
#[derive(Clone, Debug)]
pub struct TransfersPage {
    pub rows: Vec<TransferRowOut>,
    pub next_cursor: Option<u64>,
}

/// A row as the queries below yield it. The category is a number, so that it can
/// be ordered by.
#[derive(Clone, Debug)]
pub struct FetchedRow {
    pub category: i64,
    pub block_number: i64,
    pub block_hash: String,
    pub tx_hash: Option<String>,
    pub address: String,
    pub direction: Option<String>,
    pub counterparty: Option<String>,
    pub token: Option<String>,
    pub amount: String,
    pub eth_kind: Option<String>,
}

pub open spec fn opt_text(s: Option<String>) -> Option<Seq<char>> {
    match s {
        Some(t) => Some(t@),
        None => None,
    }
}

/// What a [`FetchedRow`] says.
pub struct Fetched {
    pub category: int,
    pub block_number: i64,
    pub block_hash: Seq<char>,
    pub tx_hash: Option<Seq<char>>,
    pub address: Seq<char>,
    pub direction: Option<Seq<char>>,
    pub counterparty: Option<Seq<char>>,
    pub token: Option<Seq<char>>,
    pub amount: Seq<char>,
    pub eth_kind: Option<Seq<char>>,
}

impl View for FetchedRow {
    type V = Fetched;

    open spec fn view(&self) -> Fetched {
        Fetched {
            category: self.category as int,
            block_number: self.block_number,
            block_hash: self.block_hash@,
            tx_hash: opt_text(self.tx_hash),
            address: self.address@,
            direction: opt_text(self.direction),
            counterparty: opt_text(self.counterparty),
            token: opt_text(self.token),
            amount: self.amount@,
            eth_kind: opt_text(self.eth_kind),
        }
    }
}

/// What fetched rows say, in order.
pub open spec fn fetched_view(rows: Seq<FetchedRow>) -> Seq<Fetched> {
    Seq::new(rows.len(), |i: int| rows[i]@)
}

/// What a [`TransferRowOut`] says.
pub struct Answer {
    pub category: Seq<char>,
    pub block_number: u64,
    pub block_hash: Seq<char>,
    pub tx_hash: Option<Seq<char>>,
    pub address: Seq<char>,
    pub direction: Option<Seq<char>>,
    pub counterparty: Option<Seq<char>>,
    pub token: Option<Seq<char>>,
    pub amount: Seq<char>,
    pub kind: Option<Seq<char>>,
}

impl View for TransferRowOut {
    type V = Answer;

    open spec fn view(&self) -> Answer {
        Answer {
            category: self.category@,
            block_number: self.block_number,
            block_hash: self.block_hash@,
            tx_hash: opt_text(self.tx_hash),
            address: self.address@,
            direction: opt_text(self.direction),
            counterparty: opt_text(self.counterparty),
            token: opt_text(self.token),
            amount: self.amount@,
            kind: opt_text(self.kind),
        }
    }
}

/// What answered rows say, in order.
pub open spec fn answered_view(rows: Seq<TransferRowOut>) -> Seq<Answer> {
    Seq::new(rows.len(), |i: int| rows[i]@)
}

/// What a [`TransfersPage`] says.
pub struct Page {
    pub rows: Seq<Answer>,
    pub next_cursor: Option<u64>,
}

impl View for TransfersPage {
    type V = Page;

    open spec fn view(&self) -> Page {
        Page { rows: answered_view(self.rows@), next_cursor: self.next_cursor }
    }
}

/// The name of a category.
pub open spec fn category_name(tag: int) -> Seq<char> {
    if tag == 0 {
        "eth"@
    } else if tag == 1 {
        "erc20"@
    } else if tag == 2 {
        "gas"@
    } else {
        "unattributed"@
    }
}

/// [`category_name`].
pub fn category_str(tag: i64) -> (r: &'static str)
    ensures
        r@ == category_name(tag as int),
{
    match tag {
        0 => "eth",
        1 => "erc20",
        2 => "gas",
        _ => "unattributed",
    }
}

/// A fetched row as it is answered: the kind of a native-value row is the stored
/// one, that of another row is its category.
pub open spec fn answer(f: Fetched) -> Answer {
    Answer {
        category: category_name(f.category),
        block_number: f.block_number as u64,
        block_hash: f.block_hash,
        tx_hash: f.tx_hash,
        address: f.address,
        direction: f.direction,
        counterparty: f.counterparty,
        token: f.token,
        amount: f.amount,
        kind: if f.category == 0 {
            f.eth_kind
        } else {
            Some(category_name(f.category))
        },
    }
}

pub open spec fn answers(rows: Seq<Fetched>) -> Seq<Answer> {
    Seq::new(rows.len(), |i: int| answer(rows[i]))
}

/// [`answer`].
#[verifier::truncate]
pub fn map_row(f: FetchedRow) -> (r: TransferRowOut)
    ensures
        r@ == answer(f@),
{
    let category = category_str(f.category);
    let kind = if f.category == 0 {
        f.eth_kind
    } else {
        Some(category.to_owned())
    };
    TransferRowOut {
        category,
        block_number: f.block_number as u64,
        block_hash: f.block_hash,
        tx_hash: f.tx_hash,
        address: f.address,
        direction: f.direction,
        counterparty: f.counterparty,
        token: f.token,
        amount: f.amount,
        kind,
    }
}

/// A query: the rows of an address on a chain in the blocks from `lo` to `hi`, of
/// the category `want` (all if negative), in pages of about `lim`.
#[derive(Clone, Debug)]
pub struct TransfersQuery {
    pub chain_id: u64,
    pub address: String,
    pub lo: i64,
    pub hi: i64,
    pub want: i64,
    pub lim: i64,
}

/// What a [`TransfersQuery`] says.
pub struct Query {
    pub chain_id: u64,
    pub address: Seq<char>,
    pub lo: int,
    pub hi: int,
    pub want: int,
    pub lim: int,
}

impl View for TransfersQuery {
    type V = Query;

    open spec fn view(&self) -> Query {
        Query {
            chain_id: self.chain_id,
            address: self.address@,
            lo: self.lo as int,
            hi: self.hi as int,
            want: self.want as int,
            lim: self.lim as int,
        }
    }
}

/// The first of two optional numbers that is there, or zero.
pub open spec fn first_of(a: Option<u64>, b: Option<u64>) -> u64 {
    match a {
        Some(n) => n,
        None => match b {
            Some(n) => n,
            None => 0,
        },
    }
}

/// The category that a name asks for: all without one, none for an unknown one.
pub open spec fn wanted(kind: Option<&str>) -> int {
    match kind {
        None => -1,
        Some(k) => if k@ == "eth"@ {
            0
        } else if k@ == "erc20"@ {
            1
        } else if k@ == "gas"@ {
            2
        } else if k@ == "unattributed"@ {
            3
        } else {
            99
        },
    }
}

/// Whether a category is asked for.
pub open spec fn selects(want: int, category: int) -> bool {
    want < 0 || category == want
}

/// The first and the last block number to look for. The ledger's numbers end at
/// the largest `i64`, so nothing is found from beyond it on: the range is empty.
pub open spec fn block_range(start: u64, to_block: Option<u64>) -> (int, int) {
    if start > i64::MAX {
        (i64::MAX as int, -1)
    } else {
        (
            start as int,
            match to_block {
                Some(n) => if n <= i64::MAX {
                    n as int
                } else {
                    i64::MAX as int
                },
                None => i64::MAX as int,
            },
        )
    }
}

/// The query of a request. It starts at the cursor, or without one at the first
/// block asked for; a page has between one and a thousand rows, more only where
/// one block has more.
pub open spec fn query_of(
    chain_id: u64,
    address: Seq<char>,
    from_block: Option<u64>,
    to_block: Option<u64>,
    kind: Option<&str>,
    cursor: Option<u64>,
    limit: u32,
) -> Query {
    Query {
        chain_id,
        address,
        lo: block_range(first_of(cursor, from_block), to_block).0,
        hi: block_range(first_of(cursor, from_block), to_block).1,
        want: wanted(kind),
        lim: if limit < 1 {
            1
        } else if limit > 1000 {
            1000
        } else {
            limit as int
        },
    }
}

fn start_of(cursor: Option<u64>, from_block: Option<u64>) -> (r: u64)
    ensures
        r == first_of(cursor, from_block),
{
    match cursor {
        Some(n) => n,
        None => match from_block {
            Some(n) => n,
            None => 0,
        },
    }
}

/// [`query_of`].
pub fn transfers_query(
    chain_id: u64,
    address: &str,
    from_block: Option<u64>,
    to_block: Option<u64>,
    kind: Option<&str>,
    cursor: Option<u64>,
    limit: u32,
) -> (r: TransfersQuery)
    ensures
        r@ == query_of(chain_id, address@, from_block, to_block, kind, cursor, limit),
{
    let start: u64 = start_of(cursor, from_block);
    let last: i64 = match to_block {
        Some(n) => if n <= 0x7fff_ffff_ffff_ffff {
            n as i64
        } else {
            i64::MAX
        },
        None => i64::MAX,
    };
    let (lo, hi): (i64, i64) = if start <= 0x7fff_ffff_ffff_ffff {
        (start as i64, last)
    } else {
        (i64::MAX, -1)
    };
    let lim: i64 = if limit < 1 {
        1
    } else if limit > 1000 {
        1000
    } else {
        limit as i64
    };
    let want: i64 = match kind {
        None => -1,
        Some(k) => if text::same_text(k, "eth") {
            0
        } else if text::same_text(k, "erc20") {
            1
        } else if text::same_text(k, "gas") {
            2
        } else if text::same_text(k, "unattributed") {
            3
        } else {
            99
        },
    };
    TransfersQuery { chain_id, address: address.to_owned(), lo, hi, want, lim }
}

/// What the first fetch leads to: a page, or the need to see one whole block.
#[derive(Clone, Debug)]
pub enum FirstPage {
    Page(TransfersPage),
    WholeBlock { cut: i64 },
}

/// What a [`FirstPage`] says.
pub enum Decision {
    Page(Page),
    WholeBlock { cut: i64 },
}

impl View for FirstPage {
    type V = Decision;

    open spec fn view(&self) -> Decision {
        match self {
            FirstPage::Page(p) => Decision::Page(p@),
            FirstPage::WholeBlock { cut } => Decision::WholeBlock { cut: *cut },
        }
    }
}

/// The rows that pass a test, in order.
pub open spec fn passing(rows: Seq<Fetched>, pass: spec_fn(Fetched) -> bool) -> Seq<Fetched>
    decreases rows.len(),
{
    if rows.len() == 0 {
        Seq::empty()
    } else {
        let before = passing(rows.drop_last(), pass);
        if pass(rows.last()) {
            before.push(rows.last())
        } else {
            before
        }
    }
}

/// The rows of the blocks before `cut`.
pub open spec fn below(rows: Seq<Fetched>, cut: int) -> Seq<Fetched> {
    passing(rows, |f: Fetched| f.block_number < cut)
}

/// The rows of the blocks from `lo` on.
pub open spec fn rows_from(rows: Seq<Fetched>, lo: int) -> Seq<Fetched> {
    passing(rows, |f: Fetched| f.block_number >= lo)
}

/// What to do with the first rows of a query, of which one more than a page was
/// asked for. If they fit they are the page. Otherwise the block of the last one
/// may be there in part only: the page ends before it, unless there is nothing
/// before it.
pub open spec fn decide(fetched: Seq<Fetched>, lim: int) -> Decision {
    let cut = fetched.last().block_number;
    if fetched.len() <= lim {
        Decision::Page(Page { rows: answers(fetched), next_cursor: None })
    } else if cut > fetched[0].block_number {
        Decision::Page(
            Page {
                rows: answers(below(fetched, cut as int)),
                next_cursor: Some(cut as u64),
            },
        )
    } else {
        Decision::WholeBlock { cut }
    }
}

/// A page that holds one block whole.
pub open spec fn block_page(rows: Seq<Fetched>, cut: i64, more: bool) -> Page {
    Page {
        rows: answers(rows),
        next_cursor: if more {
            Some(block_after(cut))
        } else {
            None
        },
    }
}

/// The number of the block after `cut`.
pub open spec fn block_after(cut: i64) -> u64 {
    if cut as u64 == u64::MAX {
        0
    } else {
        (cut as u64 + 1) as u64
    }
}

/// Answers rows, those of the blocks before `cut` only if one is given.
fn answer_rows(fetched: Vec<FetchedRow>, cut: Option<i64>) -> (r: Vec<TransferRowOut>)
    ensures
        answered_view(r@) == answers(
            match cut {
                Some(c) => below(fetched_view(fetched@), c as int),
                None => fetched_view(fetched@),
            },
        ),
{
    let ghost all = fetched_view(fetched@);
    let ghost kept = |f: Fetched|
        match cut {
            Some(c) => f.block_number < c as int,
            None => true,
        };
    let total: usize = fetched.len();
    let mut rows: Vec<TransferRowOut> = Vec::new();
    let mut rest = fetched;
    let mut k: usize = 0;
    assert(answered_view(rows@) =~= answers(passing(all.take(0), kept)));
    while rest.len() > 0
        invariant
            k <= total == fetched@.len(),
            rest@ == fetched@.skip(k as int),
            all == fetched_view(fetched@),
            kept == (|f: Fetched|
                match cut {
                    Some(c) => f.block_number < c as int,
                    None => true,
                }),
            answered_view(rows@) == answers(passing(all.take(k as int), kept)),
        decreases rest@.len(),
    {
        let row = rest.remove(0);
        assert(row == fetched@[k as int]);
        assert(rest@ =~= fetched@.skip(k + 1));
        let ghost before = all.take(k as int);
        let ghost after = all.take(k + 1);
        proof {
            assert(after.drop_last() =~= before);
            assert(after.last() == row@);
                }
        let keep = match cut {
            Some(c) => row.block_number < c,
            None => true,
        };
        if keep {
            let ghost done = rows@;
            let ghost said = row@;
            rows.push(map_row(row));
            proof {
                assert(passing(after, kept) == passing(before, kept).push(said));
                assert(answered_view(rows@) =~= answered_view(done).push(answer(said)));
                assert(answers(passing(after, kept)) =~= answers(passing(before, kept)).push(
                    answer(said),
                ));
            }
        } else {
            proof {
                assert(passing(after, kept) == passing(before, kept));
            }
        }
        k += 1;
    }
    proof {
        assert(all.take(k as int) =~= all);
        match cut {
            Some(c) => {
                assert(kept =~= (|f: Fetched| f.block_number < c as int));
            },
            None => {
                lemma_passing_all(all, kept);
            },
        }
    }
    rows
}

proof fn lemma_passing_all(rows: Seq<Fetched>, pred: spec_fn(Fetched) -> bool)
    requires
        forall|i: int| 0 <= i < rows.len() ==> pred(#[trigger] rows[i]),
    ensures
        passing(rows, pred) == rows,
    decreases rows.len(),
{
    if rows.len() > 0 {
        let init = rows.drop_last();
        assert forall|i: int| 0 <= i < init.len() implies pred(#[trigger] init[i]) by {
            assert(pred(rows[i]));
        }
        lemma_passing_all(init, pred);
        assert(pred(rows[rows.len() - 1]));
        assert(init.push(rows.last()) =~= rows);
    }
}

/// [`decide`].
pub fn first_page(fetched: Vec<FetchedRow>, lim: i64) -> (r: FirstPage)
    requires
        0 <= lim,
    ensures
        r@ == decide(fetched_view(fetched@), lim as int),
{
    let count: usize = fetched.len();
    if count as u128 <= lim as u128 {
        let rows = answer_rows(fetched, None);
        return FirstPage::Page(TransfersPage { rows, next_cursor: None });
    }
    let first_block: i64 = fetched[0].block_number;
    let cut: i64 = fetched[count - 1].block_number;
    assert(fetched_view(fetched@).last().block_number == cut);
    assert(fetched_view(fetched@)[0].block_number == first_block);
    if cut > first_block {
        let rows = answer_rows(fetched, Some(cut));
        return FirstPage::Page(TransfersPage { rows, next_cursor: Some(cut as u64) });
    }
    FirstPage::WholeBlock { cut }
}

/// [`block_page`].
pub fn whole_block_page(rows: Vec<FetchedRow>, cut: i64, more: bool) -> (r: TransfersPage)
    ensures
        r@ == block_page(fetched_view(rows@), cut, more),
{
    let next_cursor = if more {
        Some((cut as u64).wrapping_add(1))
    } else {
        None
    };
    TransfersPage { rows: answer_rows(rows, None), next_cursor }
}

/// The rows of all categories, under the names that the queries below use.
pub const UNION_SQL: &'static str = "SELECT 0 AS category, block_number, block_hash, tx_hash, address, direction, counterparty AS counterparty, NULL AS token, amount_wei AS amount, kind AS ek, rowid AS rid FROM eth_transfers WHERE chain_id=?1 AND address=?2 AND block_number>=?3 AND block_number<=?4 UNION ALL SELECT 1, block_number, block_hash, tx_hash, address, direction, NULL, token, amount, NULL, rowid FROM erc20_transfers WHERE chain_id=?1 AND address=?2 AND block_number>=?3 AND block_number<=?4 UNION ALL SELECT 2, block_number, block_hash, tx_hash, address, 'out', NULL, NULL, total_wei, NULL, rowid FROM gas_payments WHERE chain_id=?1 AND address=?2 AND block_number>=?3 AND block_number<=?4 UNION ALL SELECT 3, block_number, block_hash, NULL, address, NULL, NULL, NULL, residual_wei, NULL, rowid FROM unattributed_deltas WHERE chain_id=?1 AND address=?2 AND block_number>=?3 AND block_number<=?4";

/// The text of the query for the first rows; its parameters are the chain, the
/// address, `lo`, `hi`, `want` and how many.
pub fn first_rows_sql() -> (r: String)
    ensures
        r@
            == "SELECT category,block_number,block_hash,tx_hash,address,direction,counterparty,token,amount,ek,rid FROM ("@
            + UNION_SQL@
            + ") WHERE (?5 < 0 OR category=?5) ORDER BY block_number, category, rid LIMIT ?6"@,
{
    let mut r =
        "SELECT category,block_number,block_hash,tx_hash,address,direction,counterparty,token,amount,ek,rid FROM (".to_owned();
    r.append(UNION_SQL);
    r.append(") WHERE (?5 < 0 OR category=?5) ORDER BY block_number, category, rid LIMIT ?6");
    r
}

/// The text of the query for the rows of one block; its last parameter is the
/// block.
pub fn block_rows_sql() -> (r: String)
    ensures
        r@
            == "SELECT category,block_number,block_hash,tx_hash,address,direction,counterparty,token,amount,ek,rid FROM ("@
            + UNION_SQL@
            + ") WHERE (?5 < 0 OR category=?5) AND block_number=?6 ORDER BY block_number, category, rid"@,
{
    let mut r =
        "SELECT category,block_number,block_hash,tx_hash,address,direction,counterparty,token,amount,ek,rid FROM (".to_owned();
    r.append(UNION_SQL);
    r.append(
        ") WHERE (?5 < 0 OR category=?5) AND block_number=?6 ORDER BY block_number, category, rid",
    );
    r
}

/// The text of the query for whether there are rows after a block; its last
/// parameters are the block and `hi`.
pub fn more_rows_sql() -> (r: String)
    ensures
        r@ == "SELECT EXISTS(SELECT 1 FROM ("@ + UNION_SQL@
            + ") WHERE (?5 < 0 OR category=?5) AND block_number>?6 AND block_number<=?7)"@,
{
    let mut r = "SELECT EXISTS(SELECT 1 FROM (".to_owned();
    r.append(UNION_SQL);
    r.append(") WHERE (?5 < 0 OR category=?5) AND block_number>?6 AND block_number<=?7)");
    r
}

/// Whether an answer follows from a whole block's rows and whether there are rows
/// after it.
pub open spec fn follows_from_block<E, H: Fn(&TransfersQuery, i64) -> Result<bool, E>>(
    q: TransfersQuery,
    cut: i64,
    rows: Result<Vec<FetchedRow>, E>,
    any_after: H,
    r: Result<TransfersPage, E>,
) -> bool {
    match rows {
        Err(e) => r == Err::<TransfersPage, E>(e),
        Ok(v) => exists|more: Result<bool, E>| #[trigger]
            call_ensures(any_after, (&q, cut), more) && match more {
                Err(e) => r == Err::<TransfersPage, E>(e),
                Ok(m) => r is Ok && r->Ok_0@ == block_page(fetched_view(v@), cut, m),
            },
    }
}

/// Whether an answer follows from the first rows: it is the page that they make
/// up, or else the page of the block that had to be seen whole.
pub open spec fn follows_from<
    E,
    G: Fn(&TransfersQuery, i64) -> Result<Vec<FetchedRow>, E>,
    H: Fn(&TransfersQuery, i64) -> Result<bool, E>,
>(
    q: TransfersQuery,
    first: Result<Vec<FetchedRow>, E>,
    fetch_block: G,
    any_after: H,
    r: Result<TransfersPage, E>,
) -> bool {
    match first {
        Err(e) => r == Err::<TransfersPage, E>(e),
        Ok(v) => match decide(fetched_view(v@), q.lim as int) {
            Decision::Page(p) => r is Ok && r->Ok_0@ == p,
            Decision::WholeBlock { cut } => exists|rows: Result<Vec<FetchedRow>, E>| #[trigger]
                call_ensures(fetch_block, (&q, cut), rows) && follows_from_block(
                    q,
                    cut,
                    rows,
                    any_after,
                    r,
                ),
        },
    }
}

/// A page of the rows of an address. The ledger is read through `fetch`, for the
/// first rows of a query, one more than a page of them; `fetch_block`, for the
/// rows of one block; and `any_after`, for whether there are rows after it. An
/// error of theirs is the answer. It is not read for blocks whose numbers it
/// cannot hold: they have no rows.
pub fn get_transfers<
    E,
    F: Fn(&TransfersQuery, i64) -> Result<Vec<FetchedRow>, E>,
    G: Fn(&TransfersQuery, i64) -> Result<Vec<FetchedRow>, E>,
    H: Fn(&TransfersQuery, i64) -> Result<bool, E>,
>(
    chain_id: u64,
    address: &str,
    from_block: Option<u64>,
    to_block: Option<u64>,
    kind: Option<&str>,
    cursor: Option<u64>,
    limit: u32,
    fetch: F,
    fetch_block: G,
    any_after: H,
) -> (r: Result<TransfersPage, E>)
    requires
        forall|q: &TransfersQuery, n: i64| #[trigger] call_requires(fetch, (q, n)),
        forall|q: &TransfersQuery, n: i64| #[trigger] call_requires(fetch_block, (q, n)),
        forall|q: &TransfersQuery, n: i64| #[trigger] call_requires(any_after, (q, n)),
    ensures
        if first_of(cursor, from_block) > i64::MAX {
            r is Ok && r->Ok_0@ == (Page { rows: Seq::empty(), next_cursor: None })
        } else {
            exists|q: TransfersQuery, first: Result<Vec<FetchedRow>, E>|
                {
                    &&& q@ == query_of(
                        chain_id,
                        address@,
                        from_block,
                        to_block,
                        kind,
                        cursor,
                        limit,
                    )
                    &&& #[trigger] call_ensures(fetch, (&q, (q.lim + 1) as i64), first)
                    &&& follows_from(q, first, fetch_block, any_after, r)
                }
        },
{
    let start: u64 = start_of(cursor, from_block);
    if start > i64::MAX as u64 {
        let page = TransfersPage { rows: Vec::new(), next_cursor: None };
        assert(page@.rows =~= Seq::<Answer>::empty());
        return Ok(page);
    }
    let q = transfers_query(chain_id, address, from_block, to_block, kind, cursor, limit);
    let first = fetch(&q, q.lim + 1);
    let fetched = match first {
        Ok(v) => v,
        Err(e) => {
            assert(call_ensures(fetch, (&q, (q.lim + 1) as i64), Err(e)));
            return Err(e);
        },
    };
    assert(call_ensures(fetch, (&q, (q.lim + 1) as i64), Ok(fetched)));
    match first_page(fetched, q.lim) {
        FirstPage::Page(p) => Ok(p),
        FirstPage::WholeBlock { cut } => {
            match fetch_block(&q, cut) {
                Err(e) => {
                    assert(call_ensures(fetch_block, (&q, cut), Err(e)));
                    Err(e)
                },
                Ok(rows) => {
                    assert(call_ensures(fetch_block, (&q, cut), Ok(rows)));
                    match any_after(&q, cut) {
                        Err(e) => {
                            assert(call_ensures(any_after, (&q, cut), Err(e)));
                            let r: Result<TransfersPage, E> = Err(e);
                            assert(follows_from_block(q, cut, Ok(rows), any_after, r));
                            r
                        },
                        Ok(more) => {
                            assert(call_ensures(any_after, (&q, cut), Ok(more)));
                            let ghost seen = rows;
                            let r: Result<TransfersPage, E> = Ok(
                                whole_block_page(rows, cut, more),
                            );
                            assert(follows_from_block(q, cut, Ok(seen), any_after, r));
                            r
                        },
                    }
                },
            }
        },
    }
}

} // verus!
