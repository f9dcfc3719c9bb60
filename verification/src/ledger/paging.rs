//! What holds of the pages of a query, taken one after the other.
//!
//! The rows that a query selects, up to its last block, are a sequence ordered by
//! block. A page that starts at a block is made from the rows from there on.

use vstd::prelude::*;
use crate::ledger::queries;
use crate::ledger::queries::{Answer, Decision, Fetched, Page};

verus! {

/// Ordered by block, none of which is negative.
#[verifier::opaque]
pub open spec fn ordered(rows: Seq<Fetched>) -> bool {
    &&& forall|i: int| 0 <= i < rows.len() ==> (#[trigger] rows[i]).block_number >= 0
    &&& forall|i: int, j: int|
        0 <= i < j < rows.len() ==> (#[trigger] rows[i]).block_number <= (
        #[trigger] rows[j]).block_number
}

/// The first `n` rows, or all where there are fewer.
pub open spec fn first_rows(rows: Seq<Fetched>, n: int) -> Seq<Fetched> {
    if rows.len() <= n {
        rows
    } else {
        rows.take(n)
    }
}

/// The rows of one block.
pub open spec fn block_rows(rows: Seq<Fetched>, cut: int) -> Seq<Fetched> {
    queries::passing(rows, |f: Fetched| f.block_number == cut)
}

/// Whether there are rows after a block.
pub open spec fn any_after(rows: Seq<Fetched>, cut: int) -> bool {
    exists|i: int| 0 <= i < rows.len() && (#[trigger] rows[i]).block_number > cut
}

/// The page that the rows from its start on give.
pub open spec fn page_of(rows: Seq<Fetched>, lim: int) -> Page {
    match queries::decide(first_rows(rows, lim + 1), lim) {
        Decision::Page(p) => p,
        Decision::WholeBlock { cut } => queries::block_page(
            block_rows(rows, cut as int),
            cut,
            any_after(rows, cut as int),
        ),
    }
}

/// The rows of up to `n` pages, from block `lo` on, each starting where the one
/// before says.
pub open spec fn pages(stream: Seq<Fetched>, lo: int, lim: int, n: nat) -> Seq<Answer>
    decreases n,
{
    if n == 0 {
        Seq::empty()
    } else {
        let p = page_of(queries::rows_from(stream, lo), lim);
        p.rows + match p.next_cursor {
            Some(c) => pages(stream, c as int, lim, (n - 1) as nat),
            None => Seq::empty(),
        }
    }
}

/// What [`ordered`] says of two rows.
proof fn lemma_ordered_at(rows: Seq<Fetched>, i: int, j: int)
    requires
        ordered(rows),
        0 <= i <= j < rows.len(),
    ensures
        0 <= rows[i].block_number <= rows[j].block_number,
{
    reveal(ordered);
}

/// A run of ordered rows is ordered.
proof fn lemma_ordered_run(rows: Seq<Fetched>, from: int, to: int)
    requires
        ordered(rows),
        0 <= from <= to <= rows.len(),
    ensures
        ordered(rows.subrange(from, to)),
{
    reveal(ordered);
    let run = rows.subrange(from, to);
    assert forall|i: int| 0 <= i < run.len() implies (#[trigger] run[i]).block_number >= 0 by {
        assert(run[i] == rows[from + i]);
    }
    assert forall|i: int, j: int| 0 <= i < j < run.len() implies (#[trigger] run[i]).block_number
        <= (#[trigger] run[j]).block_number by {
        assert(run[i] == rows[from + i]);
        assert(run[j] == rows[from + j]);
    }
}

/// In ordered rows, those before a block come before those from it on.
proof fn lemma_split(rows: Seq<Fetched>, c: int)
    requires
        ordered(rows),
    ensures
        queries::below(rows, c) + queries::rows_from(rows, c) == rows,
    decreases rows.len(),
{
    if rows.len() == 0 {
        assert(queries::below(rows, c) + queries::rows_from(rows, c) =~= rows);
    } else {
        let init = rows.drop_last();
        let last = rows.last();
        lemma_ordered_run(rows, 0, rows.len() - 1);
        assert(rows.subrange(0, rows.len() - 1) =~= init);
        lemma_split(init, c);
        assert(init.push(last) =~= rows);
        if last.block_number < c {
            let from = |f: Fetched| f.block_number >= c;
            assert forall|i: int| 0 <= i < init.len() implies !from(#[trigger] init[i]) by {
                lemma_ordered_at(rows, i, rows.len() - 1);
            }
            lemma_none(init, from);
            assert(queries::below(rows, c) == queries::below(init, c).push(last));
            assert(queries::rows_from(rows, c) == queries::rows_from(init, c));
            assert(queries::below(init, c) =~= init);
        } else {
            assert(queries::below(rows, c) == queries::below(init, c));
            assert(queries::rows_from(rows, c) == queries::rows_from(init, c).push(last));
        }
        assert(queries::below(rows, c) + queries::rows_from(rows, c) =~= rows);
    }
}

proof fn lemma_none(rows: Seq<Fetched>, pred: spec_fn(Fetched) -> bool)
    requires
        forall|i: int| 0 <= i < rows.len() ==> !pred(#[trigger] rows[i]),
    ensures
        queries::passing(rows, pred) == Seq::<Fetched>::empty(),
    decreases rows.len(),
{
    if rows.len() > 0 {
        let init = rows.drop_last();
        assert forall|i: int| 0 <= i < init.len() implies !pred(#[trigger] init[i]) by {
            assert(!pred(rows[i]));
        }
        lemma_none(init, pred);
        assert(!pred(rows[rows.len() - 1]));
    }
}

/// Tests that agree on the rows leave the same.
proof fn lemma_same(rows: Seq<Fetched>, p: spec_fn(Fetched) -> bool, q: spec_fn(Fetched) -> bool)
    requires
        forall|i: int| 0 <= i < rows.len() ==> p(#[trigger] rows[i]) == q(rows[i]),
    ensures
        queries::passing(rows, p) == queries::passing(rows, q),
    decreases rows.len(),
{
    if rows.len() > 0 {
        let init = rows.drop_last();
        assert forall|i: int| 0 <= i < init.len() implies p(#[trigger] init[i]) == q(init[i]) by {
            assert(p(rows[i]) == q(rows[i]));
        }
        lemma_same(init, p, q);
        assert(p(rows[rows.len() - 1]) == q(rows[rows.len() - 1]));
    }
}

/// Testing a prefix is enough where the rest does not pass.
proof fn lemma_prefix(rows: Seq<Fetched>, n: int, pred: spec_fn(Fetched) -> bool)
    requires
        0 <= n <= rows.len(),
        forall|i: int| n <= i < rows.len() ==> !pred(#[trigger] rows[i]),
    ensures
        queries::passing(rows.take(n), pred) == queries::passing(rows, pred),
    decreases rows.len(),
{
    if n < rows.len() {
        let init = rows.drop_last();
        assert forall|i: int| n <= i < init.len() implies !pred(#[trigger] init[i]) by {
            assert(!pred(rows[i]));
        }
        lemma_prefix(init, n, pred);
        assert(init.take(n) =~= rows.take(n));
        assert(!pred(rows[rows.len() - 1]));
    } else {
        assert(rows.take(n) =~= rows);
    }
}

/// Rows from a block on are ordered and are all from there on.
proof fn lemma_rows_from_ordered(rows: Seq<Fetched>, c: int)
    requires
        ordered(rows),
    ensures
        ordered(queries::rows_from(rows, c)),
        forall|i: int|
            0 <= i < queries::rows_from(rows, c).len() ==> (#[trigger] queries::rows_from(
                rows,
                c,
            )[i]).block_number >= c,
{
    lemma_split(rows, c);
    let b = queries::below(rows, c);
    let f = queries::rows_from(rows, c);
    assert(f =~= (b + f).subrange(b.len() as int, (b + f).len() as int));
    lemma_ordered_run(rows, b.len() as int, rows.len() as int);
    lemma_passing_passes(rows, |r: Fetched| r.block_number >= c);
}

proof fn lemma_passing_passes(rows: Seq<Fetched>, pred: spec_fn(Fetched) -> bool)
    ensures
        forall|i: int|
            0 <= i < queries::passing(rows, pred).len() ==> pred(
                #[trigger] queries::passing(rows, pred)[i],
            ),
    decreases rows.len(),
{
    if rows.len() > 0 {
        let before = queries::passing(rows.drop_last(), pred);
        lemma_passing_passes(rows.drop_last(), pred);
        assert forall|i: int| 0 <= i < queries::passing(rows, pred).len() implies pred(
            #[trigger] queries::passing(rows, pred)[i],
        ) by {
            if i < before.len() {
                assert(pred(before[i]));
            }
        }
    }
}

/// Later rows of rows from a block on.
pub(crate) proof fn lemma_rows_from_twice(rows: Seq<Fetched>, lo: int, c: int)
    requires
        lo <= c,
    ensures
        queries::rows_from(queries::rows_from(rows, lo), c) == queries::rows_from(rows, c),
    decreases rows.len(),
{
    if rows.len() > 0 {
        let init = rows.drop_last();
        let last = rows.last();
        lemma_rows_from_twice(init, lo, c);
        if last.block_number >= lo {
            let f = queries::rows_from(init, lo).push(last);
            assert(f.drop_last() =~= queries::rows_from(init, lo));
            assert(queries::rows_from(rows, lo) == f);
        }
    }
}

/// A page without a cursor holds all rows that are left. One with a cursor holds
/// the rows of the blocks before it, each block whole, and at least one row; it
/// points past its own start, and there are rows left there.
pub proof fn a_page_is_complete(rows: Seq<Fetched>, lim: int)
    requires
        ordered(rows),
        lim >= 1,
    ensures
        match page_of(rows, lim).next_cursor {
            None => page_of(rows, lim).rows == queries::answers(rows),
            Some(c) => {
                &&& c <= i64::MAX
                &&& rows.len() > 0 && c > rows[0].block_number
                &&& page_of(rows, lim).rows == queries::answers(queries::below(rows, c as int))
                &&& queries::below(rows, c as int).len() > 0
                &&& queries::rows_from(rows, c as int).len() > 0
            },
        },
{
    let fetched = first_rows(rows, lim + 1);
    let cut = fetched.last().block_number;
    if fetched.len() > lim {
        lemma_ordered_at(rows, 0, lim);
        assert(fetched.len() == lim + 1);
        assert(fetched =~= rows.take(lim + 1));
        assert(fetched.last() == rows[lim]);
        assert(fetched[0] == rows[0]);
        if cut > rows[0].block_number {
            let c = cut as int;
            let p = |f: Fetched| f.block_number < c;
            assert forall|i: int| lim + 1 <= i < rows.len() implies !p(#[trigger] rows[i]) by {
                lemma_ordered_at(rows, lim, i);
            }
            lemma_prefix(rows, lim + 1, p);
            lemma_split(rows, c);
            lemma_has(rows, p, 0);
            lemma_has(rows, |f: Fetched| f.block_number >= c, lim);
            assert(cut as u64 == cut);
        } else {
            let c = cut as int;
            lemma_ordered_at(rows, 0, lim);
            let same = |f: Fetched| f.block_number == c;
            let before = |f: Fetched| f.block_number < c + 1;
            assert forall|i: int| 0 <= i < rows.len() implies same(#[trigger] rows[i]) == before(
                rows[i],
            ) by {
                lemma_ordered_at(rows, 0, i);
            }
            lemma_same(rows, same, before);
            if any_after(rows, c) {
                let i = choose|i: int| 0 <= i < rows.len() && (#[trigger] rows[i]).block_number > c;
                lemma_has(rows, |f: Fetched| f.block_number >= c + 1, i);
                lemma_has(rows, before, 0);
                assert(queries::below(rows, c + 1) == queries::passing(rows, before));
                assert(cut as u64 == cut);
            } else {
                lemma_split(rows, c + 1);
                let later = |f: Fetched| f.block_number >= c + 1;
                assert forall|i: int| 0 <= i < rows.len() implies !later(#[trigger] rows[i]) by {}
                lemma_none(rows, later);
                assert(queries::below(rows, c + 1) == queries::passing(rows, before));
                assert(queries::passing(rows, before) =~= rows);
            }
        }
    } else {
        assert(fetched =~= rows);
    }
}

/// A test that a row passes leaves something.
proof fn lemma_has(rows: Seq<Fetched>, pred: spec_fn(Fetched) -> bool, k: int)
    requires
        0 <= k < rows.len(),
        pred(rows[k]),
    ensures
        queries::passing(rows, pred).len() > 0,
    decreases rows.len(),
{
    if k < rows.len() - 1 {
        lemma_has(rows.drop_last(), pred, k);
    }
}

/// No block is on two pages: the rows of a page and the rows that are left after
/// it are those from its start on, and no row of the page is of a block from the
/// cursor on.
pub proof fn blocks_are_never_split(rows: Seq<Fetched>, lim: int)
    requires
        ordered(rows),
        lim >= 1,
        page_of(rows, lim).next_cursor is Some,
    ensures
        ({
            let c = page_of(rows, lim).next_cursor->0 as int;
            &&& queries::below(rows, c) + queries::rows_from(rows, c) == rows
            &&& page_of(rows, lim).rows == queries::answers(queries::below(rows, c))
            &&& forall|i: int|
                0 <= i < queries::below(rows, c).len() ==> (#[trigger] queries::below(
                    rows,
                    c,
                )[i]).block_number < c
        }),
{
    a_page_is_complete(rows, lim);
    let c = page_of(rows, lim).next_cursor->0 as int;
    lemma_split(rows, c);
    lemma_passing_passes(rows, |f: Fetched| f.block_number < c);
}

/// Following the cursors until there is none yields every row from the start on
/// exactly once, in order, after at most one page more than there are rows.
pub proof fn following_cursors_yields_every_row(stream: Seq<Fetched>, lo: int, lim: int, n: nat)
    requires
        ordered(stream),
        lim >= 1,
        n > queries::rows_from(stream, lo).len(),
    ensures
        pages(stream, lo, lim, n) == queries::answers(queries::rows_from(stream, lo)),
    decreases n,
{
    let rows = queries::rows_from(stream, lo);
    lemma_rows_from_ordered(stream, lo);
    a_page_is_complete(rows, lim);
    let p = page_of(rows, lim);
    match p.next_cursor {
        None => {
            assert(p.rows + Seq::<Answer>::empty() =~= p.rows);
        },
        Some(c) => {
            lemma_split(rows, c as int);
            assert(rows[0].block_number >= lo);
            lemma_rows_from_twice(stream, lo, c as int);
            let rest = queries::rows_from(stream, c as int);
            assert(queries::below(rows, c as int).len() + rest.len() == rows.len());
            following_cursors_yields_every_row(stream, c as int, lim, (n - 1) as nat);
            let a = queries::below(rows, c as int);
            assert(queries::answers(a) + queries::answers(rest) =~= queries::answers(a + rest));
        },
    }
}

/// A kind of no known name selects nothing, and a known one selects exactly the
/// rows of its category.
pub proof fn kinds_select_their_category(kind: &str, category: int)
    requires
        0 <= category <= 3,
    ensures
        queries::selects(queries::wanted(Some(kind)), category) <==> kind@
            == queries::category_name(category),
        queries::selects(queries::wanted(None), category),
{
    reveal_strlit("eth");
    reveal_strlit("erc20");
    reveal_strlit("gas");
    reveal_strlit("unattributed");
    assert("eth"@[0] != "gas"@[0]);
    assert("eth"@.len() != "erc20"@.len());
    assert("eth"@.len() != "unattributed"@.len());
    assert("erc20"@.len() != "gas"@.len());
    assert("erc20"@.len() != "unattributed"@.len());
    assert("gas"@.len() != "unattributed"@.len());
}

/// A page has no more rows than were asked for, unless it is one block that has more.
pub proof fn a_page_is_no_longer_than_asked_for(rows: Seq<Fetched>, lim: int)
    requires
        ordered(rows),
        lim >= 1,
    ensures
        page_of(rows, lim).rows.len() <= lim || exists|block: i64|
            page_of(rows, lim).rows == queries::answers(#[trigger] rows_of_block(rows, block)),
{
    let fetched = first_rows(rows, lim + 1);
    let cut = fetched.last().block_number;
    if fetched.len() > lim {
        lemma_ordered_at(rows, 0, lim);
        if cut > fetched[0].block_number {
            lemma_below_len(fetched, cut as int);
            assert(!(fetched.last().block_number < cut));
            assert(queries::below(fetched, cut as int) == queries::below(
                fetched.drop_last(),
                cut as int,
            ));
            lemma_below_len(fetched.drop_last(), cut as int);
        } else {
            assert(page_of(rows, lim).rows == queries::answers(rows_of_block(rows, cut)));
        }
    }
}

/// The rows of a block.
pub open spec fn rows_of_block(rows: Seq<Fetched>, block: i64) -> Seq<Fetched> {
    block_rows(rows, block as int)
}

proof fn lemma_below_len(rows: Seq<Fetched>, cut: int)
    ensures
        queries::below(rows, cut).len() <= rows.len(),
    decreases rows.len(),
{
    if rows.len() > 0 {
        lemma_below_len(rows.drop_last(), cut);
    }
}

} // verus!
