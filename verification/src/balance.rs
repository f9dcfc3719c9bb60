//! The rows of a block add up to what was observed, or the block is refused.

use vstd::prelude::*;
use crate::attribution;
use crate::exex::{Failure, Inputs};
use crate::ledger::writer::Batch;
use crate::model::{Direction, EthKind, EthTransfer, GasPaymentRow};
use crate::primitives;
use crate::primitives::{Address, U256};
use crate::reconcile;
use crate::system::Credit;

verus! {

/// What rows say was moved for an address in a direction, by frames or by the
/// protocol. A movement of a failed transaction was not.
pub open spec fn moved(
    rows: Seq<EthTransfer>,
    address: Address,
    direction: Direction,
    by_protocol: bool,
) -> nat
    decreases rows.len(),
{
    if rows.len() == 0 {
        0
    } else {
        let r = rows.last();
        moved(rows.drop_last(), address, direction, by_protocol) + if r.address == address
            && r.direction == direction && !r.reverted && (r.kind == EthKind::System) == by_protocol {
            r.amount_wei
        } else {
            0
        }
    }
}

/// What rows say an address paid in fees.
pub open spec fn paid(rows: Seq<GasPaymentRow>, address: Address) -> nat
    decreases rows.len(),
{
    if rows.len() == 0 {
        0
    } else {
        paid(rows.drop_last(), address) + if rows.last().address == address {
            rows.last().total_wei@
        } else {
            0
        }
    }
}

/// What credits are worth to an address.
pub open spec fn worth(credits: Seq<Credit>, address: Address) -> int
    decreases credits.len(),
{
    if credits.len() == 0 {
        0
    } else {
        worth(credits.drop_last(), address) + if credits.last().address == address {
            credits.last().signed_wei
        } else {
            0
        }
    }
}

/// The change of an address's balance that the rows of a block make up, the sums of
/// each kind taken modulo 2^256.
pub open spec fn booked_change(b: Batch, address: Address) -> int {
    let m = primitives::two_256();
    moved(b.eth, address, Direction::In, false) % m - moved(
        b.eth,
        address,
        Direction::Out,
        false,
    ) % m - paid(b.gas, address) % m + moved(b.eth, address, Direction::In, true) - moved(
        b.eth,
        address,
        Direction::Out,
        true,
    )
}

/// Every sum that goes into a change fits in `i128`.
pub open spec fn sums_fit(b: Batch, address: Address, observed: int) -> bool {
    let m = primitives::two_256();
    let came = moved(b.eth, address, Direction::In, false) % m;
    let went = moved(b.eth, address, Direction::Out, false) % m;
    let fees = paid(b.gas, address) % m;
    &&& came <= i128::MAX
    &&& went <= i128::MAX
    &&& fees <= i128::MAX
    &&& i128::MIN <= came - went - fees
    &&& i128::MIN <= booked_change(b, address) <= i128::MAX
    &&& i128::MIN <= observed - booked_change(b, address) <= i128::MAX
}

/// The running totals of the credits of a watched address stay within `i128`.
pub open spec fn credits_fit(i: Inputs) -> bool {
    forall|address: Address, n: int|
        i.watched.contains(address) && 0 <= n <= i.credits.len() ==> i128::MIN <= #[trigger] worth(
            i.credits.take(n),
            address,
        ) <= i128::MAX
}

proof fn lemma_moved_concat(
    a: Seq<EthTransfer>,
    b: Seq<EthTransfer>,
    address: Address,
    direction: Direction,
    by_protocol: bool,
)
    ensures
        moved(a + b, address, direction, by_protocol) == moved(a, address, direction, by_protocol)
            + moved(b, address, direction, by_protocol),
    decreases b.len(),
{
    if b.len() == 0 {
        assert(a + b =~= a);
    } else {
        assert((a + b).drop_last() =~= a + b.drop_last());
        lemma_moved_concat(a, b.drop_last(), address, direction, by_protocol);
    }
}

proof fn lemma_moved_one(
    r: EthTransfer,
    address: Address,
    direction: Direction,
    by_protocol: bool,
)
    ensures
        moved(seq![r], address, direction, by_protocol) == (if r.address == address && r.direction
            == direction && !r.reverted && (r.kind == EthKind::System) == by_protocol {
            r.amount_wei
        } else {
            0
        }),
{
    assert(seq![r].drop_last() =~= Seq::<EthTransfer>::empty());
    reveal_with_fuel(moved, 2);
}

proof fn lemma_frames_moved(i: Inputs, address: Address, n: nat)
    requires
        i.watched.contains(address),
        n <= i.frames.len(),
    ensures
        moved(i.frame_rows(n), address, Direction::In, false) == i.inflow(address, n),
        moved(i.frame_rows(n), address, Direction::Out, false) == i.outflow(address, n),
        moved(i.frame_rows(n), address, Direction::In, true) == 0,
        moved(i.frame_rows(n), address, Direction::Out, true) == 0,
    decreases n,
{
    if n > 0 {
        let m = n - 1;
        lemma_frames_moved(i, address, m as nat);
        let f = i.frames[m].frame;
        let c = i.context(m);
        let before = i.frame_rows(m as nat);
        let inward = if i.watched.contains(f.to) {
            seq![attribution::inward_row(c, f)]
        } else {
            Seq::empty()
        };
        let outward = if i.watched.contains(f.from) {
            seq![attribution::outward_row(c, f)]
        } else {
            Seq::empty()
        };
        let rows = attribution::frame_rows(c, f, i.watched);
        assert(rows == inward + outward);
        assert forall|d: Direction, p: bool| #[trigger]
            moved(rows, address, d, p) == moved(inward, address, d, p) + moved(
            outward,
            address,
            d,
            p,
        ) && moved(i.frame_rows(n), address, d, p) == moved(before, address, d, p) + moved(
            rows,
            address,
            d,
            p,
        ) && (inward.len() > 0 ==> moved(inward, address, d, p) == (if f.to == address && d
            == Direction::In && !c.reverted && !p {
            f.value
        } else {
            0
        })) && (outward.len() > 0 ==> moved(outward, address, d, p) == (if f.from == address && d
            == Direction::Out && !c.reverted && !p {
            f.value
        } else {
            0
        })) by {
            lemma_moved_concat(inward, outward, address, d, p);
            lemma_moved_concat(before, rows, address, d, p);
            lemma_moved_one(attribution::inward_row(c, f), address, d, p);
            lemma_moved_one(attribution::outward_row(c, f), address, d, p);
        }
        assert(moved(rows, address, Direction::In, false) == moved(
            inward,
            address,
            Direction::In,
            false,
        ) + moved(outward, address, Direction::In, false));
        assert(moved(rows, address, Direction::Out, false) == moved(
            inward,
            address,
            Direction::Out,
            false,
        ) + moved(outward, address, Direction::Out, false));
        assert(moved(rows, address, Direction::In, true) == moved(
            inward,
            address,
            Direction::In,
            true,
        ) + moved(outward, address, Direction::In, true));
        assert(moved(rows, address, Direction::Out, true) == moved(
            inward,
            address,
            Direction::Out,
            true,
        ) + moved(outward, address, Direction::Out, true));
    }
}

proof fn lemma_credits_moved(i: Inputs, address: Address, n: nat)
    requires
        i.watched.contains(address),
        n <= i.credits.len(),
    ensures
        moved(i.system_rows(n), address, Direction::In, false) == 0,
        moved(i.system_rows(n), address, Direction::Out, false) == 0,
        moved(i.system_rows(n), address, Direction::In, true) - moved(
            i.system_rows(n),
            address,
            Direction::Out,
            true,
        ) == i.credited(address, n),
        i.credited(address, n) == worth(i.credits.take(n as int), address),
    decreases n,
{
    if n > 0 {
        let m = n - 1;
        lemma_credits_moved(i, address, m as nat);
        assert(i.credits.take(n as int).drop_last() =~= i.credits.take(m));
        let c = i.credits[m];
        let before = i.system_rows(m as nat);
        if i.watched.contains(c.address) {
            let row = i.system_row(c);
            assert(i.system_rows(n).drop_last() =~= before);
            assert(i.system_rows(n).last() == row);
        }
    }
}

proof fn lemma_paid(i: Inputs, address: Address, n: nat)
    requires
        n <= i.gas.len(),
    ensures
        paid(i.gas.take(n as int), address) == i.gas_spent(address, n),
    decreases n,
{
    if n > 0 {
        lemma_paid(i, address, (n - 1) as nat);
        assert(i.gas.take(n as int).drop_last() =~= i.gas.take(n - 1));
    }
}

/// What reconciliation looks at for a watched address is what the rows say.
proof fn lemma_account(i: Inputs, address: Address, observed: i128)
    requires
        i.watched.contains(address),
        reconcile::fits_i128(i.credited(address, i.credits.len())),
    ensures
        i.account(address, observed).attributed() == booked_change(i.batch(), address),
        i.account(address, observed).in_range() <==> sums_fit(
            i.batch(),
            address,
            observed as int,
        ),
        i.account(address, observed).observed_delta == observed,
{
    let b = i.batch();
    let m = primitives::two_256();
    let f = i.frame_rows(i.frames.len());
    let s = i.system_rows(i.credits.len());
    lemma_frames_moved(i, address, i.frames.len());
    lemma_credits_moved(i, address, i.credits.len());
    lemma_moved_concat(f, s, address, Direction::In, false);
    lemma_moved_concat(f, s, address, Direction::Out, false);
    lemma_moved_concat(f, s, address, Direction::In, true);
    lemma_moved_concat(f, s, address, Direction::Out, true);
    lemma_paid(i, address, i.gas.len());
    assert(i.gas.take(i.gas.len() as int) =~= i.gas);
    U256::lemma_number_of(i.inflow(address, i.frames.len()) % m);
    U256::lemma_number_of(i.outflow(address, i.frames.len()) % m);
    U256::lemma_number_of(i.gas_spent(address, i.gas.len()) % m);
}

pub(crate) proof fn lemma_overflow_is_of_credits(i: Inputs, k: nat)
    requires
        k <= i.credits.len(),
    ensures
        match i.credit_overflow(k) {
            Some(a) => i.watched.contains(a) && exists|n: int|
                k <= n <= i.credits.len() && !reconcile::fits_i128(
                    #[trigger] worth(i.credits.take(n), a),
                ),
            None => true,
        },
    decreases i.credits.len() - k,
{
    if k < i.credits.len() {
        let a = i.credits[k as int].address;
        if i.watched.contains(a) {
            lemma_credits_moved(i, a, k + 1);
        }
        if i.watched.contains(a) && !reconcile::fits_i128(i.credited(a, k + 1)) {
            assert(i.credit_overflow(k) == Some(a));
            let n = k + 1;
            assert(!reconcile::fits_i128(worth(i.credits.take(n as int), a)));
        } else {
            assert(i.credit_overflow(k) == i.credit_overflow(k + 1));
            lemma_overflow_is_of_credits(i, k + 1);
            if let Some(x) = i.credit_overflow(k + 1) {
                let n = choose|n: int|
                    k + 1 <= n <= i.credits.len() && !reconcile::fits_i128(
                        #[trigger] worth(i.credits.take(n), x),
                    );
                assert(!reconcile::fits_i128(worth(i.credits.take(n), x)));
            }
        }
    }
}

proof fn lemma_no_overflow_fits(i: Inputs, address: Address, n: nat)
    requires
        i.credit_overflow(0) is None,
        i.watched.contains(address),
        n <= i.credits.len(),
    ensures
        reconcile::fits_i128(i.credited(address, n)),
    decreases n,
{
    if n > 0 {
        lemma_no_overflow_fits(i, address, (n - 1) as nat);
        lemma_no_overflow_at(i, 0, (n - 1) as nat);
    }
}

proof fn lemma_no_overflow_at(i: Inputs, from: nat, k: nat)
    requires
        i.credit_overflow(from) is None,
        from <= k < i.credits.len(),
    ensures
        i.watched.contains(i.credits[k as int].address) ==> reconcile::fits_i128(
            i.credited(i.credits[k as int].address, k + 1),
        ),
    decreases k - from,
{
    if from < k {
        assert(i.credit_overflow(from) == i.credit_overflow(from + 1));
        lemma_no_overflow_at(i, from + 1, k);
    }
}

proof fn lemma_all_reconcile(i: Inputs, k: nat)
    requires
        i.first_unreconciled(k) is None,
        k <= i.deltas.len(),
        i.credit_overflow(0) is None,
    ensures
        forall|j: int|
            k <= j < i.deltas.len() && i.watched.contains((#[trigger] i.deltas[j]).0)
                ==> i.deltas[j].1 == booked_change(i.batch(), i.deltas[j].0) && sums_fit(
                i.batch(),
                i.deltas[j].0,
                i.deltas[j].1 as int,
            ),
    decreases i.deltas.len() - k,
{
    if k < i.deltas.len() {
        let (a, observed) = i.deltas[k as int];
        assert(i.first_unreconciled(k) == i.first_unreconciled(k + 1));
        lemma_all_reconcile(i, k + 1);
        if i.watched.contains(a) {
            lemma_no_overflow_fits(i, a, i.credits.len());
            lemma_account(i, a, observed);
        }
    }
}

/// A block is recorded only if its rows account for every observed change of a
/// watched balance: what its rows say came in, less what they say went out, less the
/// fees, with what the protocol gave or took, is the change.
pub proof fn the_rows_of_a_recorded_block_add_up(i: Inputs)
    requires
        i.outcome() is Ok,
    ensures
        forall|k: int|
            0 <= k < i.deltas.len() && i.watched.contains((#[trigger] i.deltas[k]).0)
                ==> i.deltas[k].1 == booked_change(i.outcome()->Ok_0, i.deltas[k].0),
{
    lemma_all_reconcile(i, 0);
}

proof fn lemma_nothing_unreconciled(i: Inputs, k: nat)
    requires
        k <= i.deltas.len(),
        credits_fit(i),
        forall|j: int|
            0 <= j < i.deltas.len() && i.watched.contains((#[trigger] i.deltas[j]).0)
                ==> i.deltas[j].1 == booked_change(i.batch(), i.deltas[j].0) && sums_fit(
                i.batch(),
                i.deltas[j].0,
                i.deltas[j].1 as int,
            ),
    ensures
        i.first_unreconciled(k) is None,
    decreases i.deltas.len() - k,
{
    if k < i.deltas.len() {
        lemma_nothing_unreconciled(i, k + 1);
        let (a, observed) = i.deltas[k as int];
        if i.watched.contains(a) {
            lemma_credits_moved(i, a, i.credits.len());
            assert(i.credits.take(i.credits.len() as int) =~= i.credits);
            assert(reconcile::fits_i128(worth(i.credits.take(i.credits.len() as int), a)));
            lemma_account(i, a, observed);
        }
    }
}

/// A block whose rows account for every observed change of a watched balance is
/// recorded, as long as no sum leaves the range.
pub proof fn a_block_whose_rows_add_up_is_recorded(i: Inputs)
    requires
        credits_fit(i),
        forall|k: int|
            0 <= k < i.deltas.len() && i.watched.contains((#[trigger] i.deltas[k]).0)
                ==> i.deltas[k].1 == booked_change(i.batch(), i.deltas[k].0) && sums_fit(
                i.batch(),
                i.deltas[k].0,
                i.deltas[k].1 as int,
            ),
    ensures
        i.outcome() == Ok::<Batch, Failure>(i.batch()),
{
    lemma_overflow_is_of_credits(i, 0);
    lemma_nothing_unreconciled(i, 0);
}

proof fn lemma_first_unreconciled(i: Inputs, k: nat)
    requires
        k <= i.deltas.len(),
        i.credit_overflow(0) is None,
        i.first_unreconciled(k) is Some,
    ensures
        exists|j: int|
            {
                let (a, observed) = #[trigger] i.deltas[j];
                &&& k <= j < i.deltas.len()
                &&& i.watched.contains(a)
                &&& forall|o: int|
                    k <= o < j && i.watched.contains((#[trigger] i.deltas[o]).0) ==> i.deltas[o].1
                        == booked_change(i.batch(), i.deltas[o].0)
                &&& if sums_fit(i.batch(), a, observed as int) {
                    observed != booked_change(i.batch(), a) && i.first_unreconciled(k) == Some(
                        Failure::UnexplainedResidual {
                            block: i.block_number,
                            address: a,
                            residual: observed - booked_change(i.batch(), a),
                        },
                    )
                } else {
                    i.first_unreconciled(k) == Some(
                        Failure::ReconcileOverflow { block: i.block_number, address: a },
                    )
                }
            },
    decreases i.deltas.len() - k,
{
    let (a, observed) = i.deltas[k as int];
    if i.watched.contains(a) {
        lemma_no_overflow_fits(i, a, i.credits.len());
        lemma_account(i, a, observed);
    }
    let account = i.account(a, observed);
    if i.watched.contains(a) && !(account.in_range() && account.balances()) {
        assert(i.deltas[k as int] == (a, observed));
    } else {
        assert(i.first_unreconciled(k) == i.first_unreconciled(k + 1));
        lemma_first_unreconciled(i, k + 1);
        let j = choose|j: int|
            {
                let (a, observed) = #[trigger] i.deltas[j];
                &&& k + 1 <= j < i.deltas.len()
                &&& i.watched.contains(a)
                &&& forall|o: int|
                    k + 1 <= o < j && i.watched.contains((#[trigger] i.deltas[o]).0)
                        ==> i.deltas[o].1 == booked_change(i.batch(), i.deltas[o].0)
                &&& if sums_fit(i.batch(), a, observed as int) {
                    observed != booked_change(i.batch(), a) && i.first_unreconciled(k + 1) == Some(
                        Failure::UnexplainedResidual {
                            block: i.block_number,
                            address: a,
                            residual: observed - booked_change(i.batch(), a),
                        },
                    )
                } else {
                    i.first_unreconciled(k + 1) == Some(
                        Failure::ReconcileOverflow { block: i.block_number, address: a },
                    )
                }
            };
        assert(i.deltas[j].0 == i.deltas[j].0);
    }
}

/// A block that is refused names a watched address: the one whose credits leave the
/// range, or the first whose rows do not account for its observed change; then the
/// residual is what is left of the change, and is not nothing, unless a sum left the
/// range.
pub proof fn a_refused_block_does_not_add_up(i: Inputs)
    requires
        i.outcome() is Err,
    ensures
        match i.outcome()->Err_0 {
            Failure::UnexplainedResidual { block, address, residual } => {
                &&& block == i.block_number
                &&& residual != 0
                &&& exists|k: int|
                    {
                        &&& 0 <= k < i.deltas.len()
                        &&& (#[trigger] i.deltas[k]).0 == address && i.watched.contains(address)
                        &&& residual == i.deltas[k].1 - booked_change(i.batch(), address)
                        &&& forall|o: int|
                            0 <= o < k && i.watched.contains((#[trigger] i.deltas[o]).0)
                                ==> i.deltas[o].1 == booked_change(i.batch(), i.deltas[o].0)
                    }
            },
            Failure::ReconcileOverflow { block, address } => {
                &&& block == i.block_number
                &&& i.watched.contains(address)
                &&& (exists|n: int|
                    0 <= n <= i.credits.len() && !reconcile::fits_i128(
                        #[trigger] worth(i.credits.take(n), address),
                    )) || (exists|k: int|
                    0 <= k < i.deltas.len() && (#[trigger] i.deltas[k]).0 == address && !sums_fit(
                        i.batch(),
                        address,
                        i.deltas[k].1 as int,
                    ))
            },
            _ => false,
        },
{
    lemma_overflow_is_of_credits(i, 0);
    if i.credit_overflow(0) is None {
        lemma_first_unreconciled(i, 0);
        let j = choose|j: int|
            {
                let (a, observed) = #[trigger] i.deltas[j];
                &&& 0 <= j < i.deltas.len()
                &&& i.watched.contains(a)
                &&& forall|o: int|
                    0 <= o < j && i.watched.contains((#[trigger] i.deltas[o]).0) ==> i.deltas[o].1
                        == booked_change(i.batch(), i.deltas[o].0)
                &&& if sums_fit(i.batch(), a, observed as int) {
                    observed != booked_change(i.batch(), a) && i.first_unreconciled(0) == Some(
                        Failure::UnexplainedResidual {
                            block: i.block_number,
                            address: a,
                            residual: observed - booked_change(i.batch(), a),
                        },
                    )
                } else {
                    i.first_unreconciled(0) == Some(
                        Failure::ReconcileOverflow { block: i.block_number, address: a },
                    )
                }
            };
        assert(i.deltas[j].0 == i.deltas[j].0);
    }
}

} // verus!
