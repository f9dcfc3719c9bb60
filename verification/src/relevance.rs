//! What does not concern a watched address does not matter.

use vstd::prelude::*;
use crate::attribution;
use crate::exex::{FrameEntry, Inputs, LogEntry};
use crate::primitives::Address;
use crate::system::Credit;

verus! {

/// The items that a test keeps, in order.
pub open spec fn kept<A>(items: Seq<A>, keep: spec_fn(A) -> bool) -> Seq<A>
    decreases items.len(),
{
    if items.len() == 0 {
        Seq::empty()
    } else {
        let before = kept(items.drop_last(), keep);
        if keep(items.last()) {
            before.push(items.last())
        } else {
            before
        }
    }
}

/// Whether a log is a token transfer of a watched party.
pub open spec fn keeps_log(watched: Set<Address>) -> spec_fn(LogEntry) -> bool {
    |l: LogEntry| l.log.concerns(watched)
}

/// Whether a frame has a watched party.
pub open spec fn keeps_frame(watched: Set<Address>) -> spec_fn(FrameEntry) -> bool {
    |f: FrameEntry| watched.contains(f.frame.from) || watched.contains(f.frame.to)
}

/// Whether an observed change is of a watched address.
pub open spec fn keeps_delta(watched: Set<Address>) -> spec_fn((Address, i128)) -> bool {
    |d: (Address, i128)| watched.contains(d.0)
}

/// Whether a credit is of a watched address.
pub open spec fn keeps_credit(watched: Set<Address>) -> spec_fn(Credit) -> bool {
    |c: Credit| watched.contains(c.address)
}

impl Inputs {
    /// What is known of the block, less everything that does not concern a watched
    /// address.
    pub open spec fn relevant(self) -> Inputs {
        Inputs {
            logs: kept(self.logs, keeps_log(self.watched)),
            frames: kept(self.frames, keeps_frame(self.watched)),
            deltas: kept(self.deltas, keeps_delta(self.watched)),
            credits: kept(self.credits, keeps_credit(self.watched)),
            ..self
        }
    }
}

/// How many of the first `n` items a test keeps.
spec fn count<A>(items: Seq<A>, keep: spec_fn(A) -> bool, n: nat) -> nat {
    kept(items.take(n as int), keep).len()
}

/// What is kept of the first items comes first in what is kept.
proof fn lemma_kept_prefix<A>(items: Seq<A>, keep: spec_fn(A) -> bool, n: nat)
    requires
        n <= items.len(),
    ensures
        count(items, keep, n) <= kept(items, keep).len(),
        kept(items, keep).take(count(items, keep, n) as int) == kept(items.take(n as int), keep),
    decreases items.len(),
{
    if n == items.len() {
        assert(items.take(n as int) =~= items);
        assert(kept(items, keep).take(kept(items, keep).len() as int) =~= kept(items, keep));
    } else {
        let init = items.drop_last();
        lemma_kept_prefix(init, keep, n);
        assert(init.take(n as int) =~= items.take(n as int));
        let c = count(items, keep, n) as int;
        assert(kept(items, keep).take(c) =~= kept(init, keep).take(c));
    }
}

/// Where an item that is kept stands among what is kept.
proof fn lemma_kept_at<A>(items: Seq<A>, keep: spec_fn(A) -> bool, n: nat)
    requires
        n < items.len(),
    ensures
        keep(items[n as int]) ==> count(items, keep, n + 1) == count(items, keep, n) + 1,
        !keep(items[n as int]) ==> count(items, keep, n + 1) == count(items, keep, n),
        keep(items[n as int]) ==> count(items, keep, n) < kept(items, keep).len()
            && kept(items, keep)[count(items, keep, n) as int] == items[n as int],
{
    let next = items.take((n + 1) as int);
    assert(next.drop_last() =~= items.take(n as int));
    assert(next.last() == items[n as int]);
    lemma_kept_prefix(items, keep, n + 1);
    if keep(items[n as int]) {
        let c = count(items, keep, n) as int;
        assert(kept(next, keep)[c] == items[n as int]);
        assert(kept(items, keep).take(c + 1)[c] == kept(items, keep)[c]);
    }
}

proof fn lemma_count_all<A>(items: Seq<A>, keep: spec_fn(A) -> bool)
    ensures
        count(items, keep, items.len()) == kept(items, keep).len(),
        count(items, keep, 0) == 0,
{
    assert(items.take(items.len() as int) =~= items);
}

proof fn lemma_kept_keeps<A>(items: Seq<A>, keep: spec_fn(A) -> bool, k: int)
    requires
        0 <= k < kept(items, keep).len(),
    ensures
        keep(kept(items, keep)[k]),
        items.contains(kept(items, keep)[k]),
    decreases items.len(),
{
    let init = items.drop_last();
    if k < kept(init, keep).len() {
        lemma_kept_keeps(init, keep, k);
        let x = kept(init, keep)[k];
        let j = choose|j: int| 0 <= j < init.len() && init[j] == x;
        assert(items[j] == x);
    } else {
        assert(items[items.len() - 1] == kept(items, keep)[k]);
    }
}

proof fn lemma_erc20_rows(i: Inputs, n: nat)
    requires
        n <= i.logs.len(),
    ensures
        i.relevant().erc20_rows(count(i.logs, keeps_log(i.watched), n)) == i.erc20_rows(n),
    decreases n,
{
    let keep = keeps_log(i.watched);
    lemma_count_all(i.logs, keep);
    if n > 0 {
        let m = (n - 1) as nat;
        lemma_erc20_rows(i, m);
        lemma_kept_at(i.logs, keep, m);
        let c = count(i.logs, keep, m);
        if keep(i.logs[m as int]) {
            assert(i.relevant().logs[c as int] == i.logs[m as int]);
            assert(i.relevant().log_rows(c as int) =~= i.log_rows(m as int));
        } else {
            assert(i.erc20_rows(n) =~= i.erc20_rows(m));
        }
    }
}

proof fn lemma_frame_rows(i: Inputs, n: nat)
    requires
        n <= i.frames.len(),
    ensures
        i.relevant().frame_rows(count(i.frames, keeps_frame(i.watched), n)) == i.frame_rows(n),
    decreases n,
{
    let keep = keeps_frame(i.watched);
    lemma_count_all(i.frames, keep);
    if n > 0 {
        let m = (n - 1) as nat;
        lemma_frame_rows(i, m);
        lemma_kept_at(i.frames, keep, m);
        let c = count(i.frames, keep, m);
        if keep(i.frames[m as int]) {
            assert(i.relevant().frames[c as int] == i.frames[m as int]);
            assert(i.relevant().context(c as int) == i.context(m as int));
        } else {
            assert(attribution::frame_rows(i.context(m as int), i.frames[m as int].frame, i.watched)
                =~= Seq::empty());
            assert(i.frame_rows(n) =~= i.frame_rows(m));
        }
    }
}

proof fn lemma_flows(i: Inputs, address: Address, n: nat)
    requires
        n <= i.frames.len(),
        i.watched.contains(address),
    ensures
        i.relevant().inflow(address, count(i.frames, keeps_frame(i.watched), n)) == i.inflow(
            address,
            n,
        ),
        i.relevant().outflow(address, count(i.frames, keeps_frame(i.watched), n)) == i.outflow(
            address,
            n,
        ),
    decreases n,
{
    let keep = keeps_frame(i.watched);
    lemma_count_all(i.frames, keep);
    if n > 0 {
        let m = (n - 1) as nat;
        lemma_flows(i, address, m);
        lemma_kept_at(i.frames, keep, m);
    }
}

proof fn lemma_gas(i: Inputs, address: Address, n: nat)
    ensures
        i.relevant().gas_spent(address, n) == i.gas_spent(address, n),
    decreases n,
{
    if n > 0 {
        lemma_gas(i, address, (n - 1) as nat);
    }
}

proof fn lemma_system_rows(i: Inputs, n: nat)
    requires
        n <= i.credits.len(),
    ensures
        i.relevant().system_rows(count(i.credits, keeps_credit(i.watched), n)) == i.system_rows(n),
    decreases n,
{
    let keep = keeps_credit(i.watched);
    lemma_count_all(i.credits, keep);
    if n > 0 {
        let m = (n - 1) as nat;
        lemma_system_rows(i, m);
        lemma_kept_at(i.credits, keep, m);
        let c = count(i.credits, keep, m);
        if keep(i.credits[m as int]) {
            assert(i.relevant().credits[c as int] == i.credits[m as int]);
            assert(i.relevant().system_row(i.credits[m as int]) == i.system_row(
                i.credits[m as int],
            ));
        }
    }
}

proof fn lemma_credited(i: Inputs, address: Address, n: nat)
    requires
        n <= i.credits.len(),
        i.watched.contains(address),
    ensures
        i.relevant().credited(address, count(i.credits, keeps_credit(i.watched), n)) == i.credited(
            address,
            n,
        ),
    decreases n,
{
    let keep = keeps_credit(i.watched);
    lemma_count_all(i.credits, keep);
    if n > 0 {
        let m = (n - 1) as nat;
        lemma_credited(i, address, m);
        lemma_kept_at(i.credits, keep, m);
    }
}

proof fn lemma_credit_overflow(i: Inputs, k: nat)
    requires
        k <= i.credits.len(),
    ensures
        i.relevant().credit_overflow(count(i.credits, keeps_credit(i.watched), k))
            == i.credit_overflow(k),
    decreases i.credits.len() - k,
{
    let keep = keeps_credit(i.watched);
    lemma_count_all(i.credits, keep);
    if k < i.credits.len() {
        lemma_credit_overflow(i, k + 1);
        lemma_kept_at(i.credits, keep, k);
        if keep(i.credits[k as int]) {
            lemma_credited(i, i.credits[k as int].address, k + 1);
        }
    }
}

proof fn lemma_account(i: Inputs, address: Address, observed: i128)
    requires
        i.watched.contains(address),
    ensures
        i.relevant().account(address, observed) == i.account(address, observed),
{
    lemma_flows(i, address, i.frames.len());
    lemma_credited(i, address, i.credits.len());
    lemma_gas(i, address, i.gas.len());
    lemma_count_all(i.frames, keeps_frame(i.watched));
    lemma_count_all(i.credits, keeps_credit(i.watched));
}

proof fn lemma_first_unreconciled(i: Inputs, k: nat)
    requires
        k <= i.deltas.len(),
    ensures
        i.relevant().first_unreconciled(count(i.deltas, keeps_delta(i.watched), k))
            == i.first_unreconciled(k),
    decreases i.deltas.len() - k,
{
    let keep = keeps_delta(i.watched);
    lemma_count_all(i.deltas, keep);
    if k < i.deltas.len() {
        lemma_first_unreconciled(i, k + 1);
        lemma_kept_at(i.deltas, keep, k);
        let (address, observed) = i.deltas[k as int];
        if keep(i.deltas[k as int]) {
            lemma_account(i, address, observed);
        }
    }
}

/// What does not concern a watched address does not matter: without the changes
/// and credits of other addresses, and without the frames and logs of no watched
/// party, a block has the same rows, or fails in the same way.
pub proof fn only_the_relevant_matters(i: Inputs)
    ensures
        i.relevant().outcome() == i.outcome(),
        i.transfers_have_txs() ==> i.relevant().transfers_have_txs(),
{
    lemma_credit_overflow(i, 0);
    lemma_first_unreconciled(i, 0);
    lemma_frame_rows(i, i.frames.len());
    lemma_system_rows(i, i.credits.len());
    lemma_erc20_rows(i, i.logs.len());
    lemma_count_all(i.logs, keeps_log(i.watched));
    lemma_count_all(i.frames, keeps_frame(i.watched));
    lemma_count_all(i.deltas, keeps_delta(i.watched));
    lemma_count_all(i.credits, keeps_credit(i.watched));
    if i.transfers_have_txs() {
        let r = i.relevant();
        assert forall|k: int|
            0 <= k < r.logs.len() && (#[trigger] r.logs[k]).log.concerns(r.watched) implies r.logs[k].tx_hash is Some by {
            lemma_kept_keeps(i.logs, keeps_log(i.watched), k);
            let j = choose|j: int| 0 <= j < i.logs.len() && i.logs[j] == r.logs[k];
            assert(i.logs[j].log.concerns(i.watched));
        }
    }
}

/// Two blocks that differ only in what does not concern a watched address have the
/// same rows, or fail in the same way.
pub proof fn the_same_relevant_part_has_the_same_outcome(i: Inputs, j: Inputs)
    requires
        i.relevant() == j.relevant(),
    ensures
        i.outcome() == j.outcome(),
{
    only_the_relevant_matters(i);
    only_the_relevant_matters(j);
}

} // verus!
