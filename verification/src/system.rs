//! Balance changes that the protocol makes itself, without a call: beacon
//! withdrawals and the fees that reach the block's beneficiary.

use vstd::prelude::*;
use crate::attribution;
use crate::primitives;
use crate::primitives::{Address, U256};
use crate::watched::WatchedSet;

verus! {

/// A recognised protocol credit (positive) or debit (negative) of an address.
/// The source tag keeps the credits of one block apart.
#[derive(Clone, Debug)]
pub struct SystemCredit {
    pub address: Address,
    pub signed_wei: i128,
    pub counterparty: Address,
    pub source: String,
}

/// What a [`SystemCredit`] says.
pub struct Credit {
    pub address: Address,
    pub signed_wei: int,
    pub counterparty: Address,
    pub source: Seq<char>,
}

impl View for SystemCredit {
    type V = Credit;

    open spec fn view(&self) -> Credit {
        Credit {
            address: self.address,
            signed_wei: self.signed_wei as int,
            counterparty: self.counterparty,
            source: self.source@,
        }
    }
}

/// What credits say, in order.
pub open spec fn credits_view(credits: Seq<SystemCredit>) -> Seq<Credit> {
    Seq::new(credits.len(), |i: int| credits[i]@)
}

impl SystemCredit {
    pub fn new(address: Address, signed_wei: i128, counterparty: Address, source: &str) -> (r:
        SystemCredit)
        ensures
            r@ == (Credit { address, signed_wei: signed_wei as int, counterparty, source: source@ }),
    {
        SystemCredit { address, signed_wei, counterparty, source: source.to_owned() }
    }
}

/// Pushing a credit pushes what it says.
pub proof fn lemma_credits_push(credits: Seq<SystemCredit>, c: SystemCredit)
    ensures
        credits_view(credits.push(c)) == credits_view(credits).push(c@),
{
    assert(credits_view(credits.push(c)) =~= credits_view(credits).push(c@));
}

/// A total as a signed amount, held at the largest one.
pub open spec fn clamped(total: nat) -> int {
    if total <= i128::MAX {
        total as int
    } else {
        i128::MAX as int
    }
}

/// [`clamped`].
pub fn clamp_to_i128(total: &U256) -> (r: i128)
    ensures
        r == clamped(total@),
{
    match total.to_i128() {
        Some(v) => v,
        None => i128::MAX,
    }
}

/// What reaches `address` from the first `n` withdrawals.
pub open spec fn withdrawn(withdrawals: Seq<(Address, U256)>, address: Address, n: nat) -> nat
    decreases n,
{
    if n == 0 {
        0
    } else {
        withdrawn(withdrawals, address, (n - 1) as nat) + if withdrawals[n - 1].0 == address {
            withdrawals[n - 1].1@
        } else {
            0
        }
    }
}

/// How many leading addresses come before `address`.
pub open spec fn rank(addresses: Seq<Address>, address: Address) -> nat
    decreases addresses.len(),
{
    if addresses.len() == 0 || addresses[0]@ >= address@ {
        0
    } else {
        1 + rank(addresses.skip(1), address)
    }
}

/// `address` added to a sorted sequence, unless it is there.
pub open spec fn with_recipient(addresses: Seq<Address>, address: Address) -> Seq<Address> {
    if addresses.contains(address) {
        addresses
    } else {
        addresses.insert(rank(addresses, address) as int, address)
    }
}

/// The watched recipients of the first `n` withdrawals, each once, in the order
/// of their bytes.
pub open spec fn recipients(
    withdrawals: Seq<(Address, U256)>,
    watched: Set<Address>,
    n: nat,
) -> Seq<Address>
    decreases n,
{
    if n == 0 {
        Seq::empty()
    } else {
        let before = recipients(withdrawals, watched, (n - 1) as nat);
        if watched.contains(withdrawals[n - 1].0) {
            with_recipient(before, withdrawals[n - 1].0)
        } else {
            before
        }
    }
}

pub open spec fn sorted(addresses: Seq<Address>) -> bool {
    forall|i: int, j: int|
        0 <= i < j < addresses.len() ==> #[trigger] addresses[i]@ < #[trigger] addresses[j]@
}

proof fn lemma_rank(addresses: Seq<Address>, address: Address)
    ensures
        rank(addresses, address) <= addresses.len(),
        forall|i: int| 0 <= i < rank(addresses, address) ==> addresses[i]@ < address@,
        rank(addresses, address) < addresses.len() ==> addresses[rank(
            addresses,
            address,
        ) as int]@ >= address@,
    decreases addresses.len(),
{
    if addresses.len() != 0 && addresses[0]@ < address@ {
        let tail = addresses.skip(1);
        lemma_rank(tail, address);
        assert forall|i: int| 0 <= i < rank(addresses, address) implies addresses[i]@
            < address@ by {
            if i > 0 {
                assert(tail[i - 1] == addresses[i]);
            }
        }
        if rank(addresses, address) < addresses.len() {
            assert(tail[rank(tail, address) as int] == addresses[rank(addresses, address) as int]);
        }
    }
}

proof fn lemma_with_recipient(addresses: Seq<Address>, address: Address)
    requires
        sorted(addresses),
    ensures
        sorted(with_recipient(addresses, address)),
        forall|a: Address|
            #[trigger] with_recipient(addresses, address).contains(a) <==> addresses.contains(a)
                || a == address,
{
    lemma_rank(addresses, address);
    if !addresses.contains(address) {
        let k = rank(addresses, address) as int;
        let s = addresses.insert(k, address);
        if k < addresses.len() {
            if addresses[k]@ == address@ {
                addresses[k].lemma_injective(address);
                assert(addresses.contains(address));
            }
        }
        assert forall|i: int, j: int| 0 <= i < j < s.len() implies #[trigger] s[i]@
            < #[trigger] s[j]@ by {
            if i < k {
                assert(s[i] == addresses[i]);
            } else if i > k {
                assert(s[i] == addresses[i - 1]);
            }
            if j < k {
                assert(s[j] == addresses[j]);
            } else if j > k {
                assert(s[j] == addresses[j - 1]);
            }
            if i == k {
                assert(addresses[k]@ <= addresses[j - 1]@);
            }
        }
        assert forall|a: Address| s.contains(a) <==> addresses.contains(a) || a == address by {
            assert(s[k] == address);
            if addresses.contains(a) {
                let i = choose|i: int| 0 <= i < addresses.len() && addresses[i] == a;
                if i < k {
                    assert(s[i] == a);
                } else {
                    assert(s[i + 1] == a);
                }
            }
            if s.contains(a) {
                let i = choose|i: int| 0 <= i < s.len() && s[i] == a;
                if i < k {
                    assert(addresses[i] == a);
                } else if i > k {
                    assert(addresses[i - 1] == a);
                }
            }
        }
    }
}

/// Whether one of the first `n` withdrawals names an address.
pub open spec fn named(withdrawals: Seq<(Address, U256)>, address: Address, n: nat) -> bool {
    exists|i: int| 0 <= i < n && #[trigger] withdrawals[i].0 == address
}

/// The recipients are sorted, and are exactly the watched addresses that a
/// withdrawal names.
pub proof fn recipients_are_the_watched_ones(
    withdrawals: Seq<(Address, U256)>,
    watched: Set<Address>,
    n: nat,
)
    requires
        n <= withdrawals.len(),
    ensures
        sorted(recipients(withdrawals, watched, n)),
        forall|a: Address|
            #[trigger] recipients(withdrawals, watched, n).contains(a) <==> watched.contains(a)
                && named(withdrawals, a, n),
    decreases n,
{
    if n > 0 {
        let m = (n - 1) as nat;
        recipients_are_the_watched_ones(withdrawals, watched, m);
        let before = recipients(withdrawals, watched, m);
        let last = withdrawals[n - 1].0;
        lemma_with_recipient(before, last);
        assert forall|a: Address|
            #[trigger] recipients(withdrawals, watched, n).contains(a) <==> watched.contains(a)
                && named(withdrawals, a, n) by {
            assert(before.contains(a) <==> watched.contains(a) && named(withdrawals, a, m));
            assert(with_recipient(before, last).contains(a) <==> before.contains(a) || a == last);
            if named(withdrawals, a, m) {
                let i = choose|i: int| 0 <= i < m && #[trigger] withdrawals[i].0 == a;
                assert(withdrawals[i].0 == a);
            }
            if named(withdrawals, a, n) {
                let i = choose|i: int| 0 <= i < n && #[trigger] withdrawals[i].0 == a;
                if i < m {
                    assert(withdrawals[i].0 == a);
                }
            }
        }
    }
}

/// The credit of one recipient: all its withdrawals in one.
pub open spec fn withdrawal_credit(
    withdrawals: Seq<(Address, U256)>,
    recipient: Address,
) -> Credit {
    Credit {
        address: recipient,
        signed_wei: clamped(
            withdrawn(withdrawals, recipient, withdrawals.len()) % primitives::two_256(),
        ),
        counterparty: primitives::zero_address(),
        source: "withdrawal"@,
    }
}

/// The part of a price that is not the base fee.
pub open spec fn priority(price: u128, base_fee: u128) -> nat {
    if price > base_fee {
        (price - base_fee) as nat
    } else {
        0
    }
}

/// The priority fees of the first `n` transactions.
pub open spec fn priority_fees(txs: Seq<(u128, u64)>, base_fee: u128, n: nat) -> nat
    decreases n,
{
    if n == 0 {
        0
    } else {
        priority_fees(txs, base_fee, (n - 1) as nat) + priority(txs[n - 1].0, base_fee)
            * txs[n - 1].1 as nat
    }
}

/// The credit of the beneficiary: the priority fees of the block, where it is
/// watched and they are not nothing.
pub open spec fn reward_credits(
    watched: Set<Address>,
    beneficiary: Address,
    base_fee: u128,
    txs: Seq<(u128, u64)>,
) -> Seq<Credit> {
    let total = priority_fees(txs, base_fee, txs.len()) % primitives::two_256();
    if watched.contains(beneficiary) && total != 0 {
        seq![
            Credit {
                address: beneficiary,
                signed_wei: clamped(total),
                counterparty: beneficiary,
                source: "block_reward"@,
            },
        ]
    } else {
        Seq::empty()
    }
}

/// The recognised credits of a block: one for each watched recipient of
/// withdrawals, in the order of their bytes, then the beneficiary's.
pub open spec fn l1_credits(
    watched: Set<Address>,
    withdrawals: Seq<(Address, U256)>,
    beneficiary: Address,
    base_fee: u128,
    txs: Seq<(u128, u64)>,
) -> Seq<Credit> {
    let rs = recipients(withdrawals, watched, withdrawals.len());
    Seq::new(rs.len(), |i: int| withdrawal_credit(withdrawals, rs[i])) + reward_credits(
        watched,
        beneficiary,
        base_fee,
        txs,
    )
}

/// Adding a term to a sum that is kept modulo 2^256.
pub proof fn lemma_wrapped_add(sum: nat, kept: nat, term: nat)
    requires
        kept == sum % primitives::two_256(),
    ensures
        (kept + term) % primitives::two_256() == (sum + term) % primitives::two_256(),
{
    vstd::arithmetic::div_mod::lemma_add_mod_noop_right(
        term as int,
        sum as int,
        primitives::two_256() as int,
    );
}

/// The watched recipients of withdrawals with their totals.
fn withdrawal_totals(watched: &WatchedSet, withdrawals: &[(Address, U256)]) -> (r: Vec<
    (Address, U256),
>)
    ensures
        r@.len() == recipients(withdrawals@, watched@, withdrawals@.len()).len(),
        forall|k: int|
            #![trigger r@[k]]
            0 <= k < r@.len() ==> r@[k].0 == recipients(
                withdrawals@,
                watched@,
                withdrawals@.len(),
            )[k] && r@[k].1@ == withdrawn(withdrawals@, r@[k].0, withdrawals@.len())
                % primitives::two_256(),
{
    let mut totals: Vec<(Address, U256)> = Vec::new();
    let mut i: usize = 0;
    while i < withdrawals.len()
        invariant
            i <= withdrawals@.len(),
            totals@.len() == recipients(withdrawals@, watched@, i as nat).len(),
            forall|k: int|
                #![trigger totals@[k]]
                0 <= k < totals@.len() ==> totals@[k].0 == recipients(
                    withdrawals@,
                    watched@,
                    i as nat,
                )[k] && totals@[k].1@ == withdrawn(withdrawals@, totals@[k].0, i as nat)
                    % primitives::two_256(),
        decreases withdrawals@.len() - i,
    {
        let (recipient, amount) = withdrawals[i];
        let ghost rs = recipients(withdrawals@, watched@, i as nat);
        let ghost next = recipients(withdrawals@, watched@, (i + 1) as nat);
        let ghost before = totals@;
        proof {
            recipients_are_the_watched_ones(withdrawals@, watched@, i as nat);
        }
        if watched.contains(&recipient) {
            let mut k: usize = 0;
            while k < totals.len() && totals[k].0.precedes(&recipient)
                invariant
                    k <= totals@.len(),
                    totals@ == before,
                    forall|m: int| 0 <= m < k ==> (#[trigger] totals@[m]).0@ < recipient@,
                decreases totals@.len() - k,
            {
                k += 1;
            }
            proof {
                assert forall|m: int| 0 <= m < k implies (#[trigger] rs[m])@ < recipient@ by {
                    assert(totals@[m].0 == rs[m]);
                }
                lemma_rank_is(rs, recipient, k as nat);
            }
            if k < totals.len() && totals[k].0 == recipient {
                let sum = totals[k].1.plus(amount);
                proof {
                    lemma_wrapped_add(
                        withdrawn(withdrawals@, recipient, i as nat),
                        totals@[k as int].1@,
                        amount@,
                    );
                    assert(rs[k as int] == recipient);
                    assert(next == rs);
                }
                totals.set(k, (recipient, sum));
                proof {
                    assert forall|m: int| #![trigger totals@[m]] 0 <= m < totals@.len() implies totals@[m].0
                        == next[m] && totals@[m].1@ == withdrawn(
                        withdrawals@,
                        totals@[m].0,
                        (i + 1) as nat,
                    ) % primitives::two_256() by {
                        if m != k {
                            assert(totals@[m] == before[m]);
                            assert(rs[m] != recipient) by {
                                if m < k {
                                    assert(rs[m]@ < rs[k as int]@);
                                } else {
                                    assert(rs[k as int]@ < rs[m]@);
                                }
                            }
                        }
                    }
                }
            } else {
                proof {
                    assert(!rs.contains(recipient)) by {
                        if rs.contains(recipient) {
                            let m = choose|m: int| 0 <= m < rs.len() && rs[m] == recipient;
                            assert(before[m].0 == recipient);
                            assert(m >= k);
                            if m > k {
                                assert(rs[k as int]@ < rs[m]@);
                                assert(before[k as int].0@ >= recipient@);
                            }
                        }
                    }
                    assert(next == rs.insert(k as int, recipient));
                    lemma_withdrawn_none(withdrawals@, recipient, i as nat, rs, watched@);
                    vstd::arithmetic::div_mod::lemma_small_mod(amount@, primitives::two_256());
                    amount.lemma_bound();
                }
                totals.insert(k, (recipient, amount));
                proof {
                    assert forall|m: int| #![trigger totals@[m]] 0 <= m < totals@.len() implies totals@[m].0
                        == next[m] && totals@[m].1@ == withdrawn(
                        withdrawals@,
                        totals@[m].0,
                        (i + 1) as nat,
                    ) % primitives::two_256() by {
                        if m < k {
                            assert(totals@[m] == before[m]);
                            assert(rs[m] != recipient);
                        } else if m > k {
                            assert(totals@[m] == before[m - 1]);
                            assert(rs.contains(rs[m - 1]));
                        }
                    }
                }
            }
        } else {
            proof {
                assert forall|m: int| #![trigger totals@[m]] 0 <= m < totals@.len() implies totals@[m].0
                    == next[m] && totals@[m].1@ == withdrawn(
                    withdrawals@,
                    totals@[m].0,
                    (i + 1) as nat,
                ) % primitives::two_256() by {
                    assert(rs.contains(rs[m]));
                    assert(rs[m] != recipient);
                }
            }
        }
        i += 1;
    }
    totals
}

/// The rank of an address is the count of leading addresses before it.
proof fn lemma_rank_is(addresses: Seq<Address>, address: Address, k: nat)
    requires
        k <= addresses.len(),
        forall|i: int| 0 <= i < k ==> (#[trigger] addresses[i])@ < address@,
        k < addresses.len() ==> addresses[k as int]@ >= address@,
    ensures
        rank(addresses, address) == k,
    decreases addresses.len(),
{
    if k > 0 {
        let tail = addresses.skip(1);
        assert forall|i: int| 0 <= i < k - 1 implies (#[trigger] tail[i])@ < address@ by {
            assert(tail[i] == addresses[i + 1]);
        }
        assert(addresses[0]@ < address@);
        if k < addresses.len() {
            assert(tail[k - 1] == addresses[k as int]);
        }
        lemma_rank_is(tail, address, (k - 1) as nat);
    }
}

/// A watched address that is no recipient so far was sent nothing so far.
proof fn lemma_withdrawn_none(
    withdrawals: Seq<(Address, U256)>,
    address: Address,
    n: nat,
    rs: Seq<Address>,
    watched: Set<Address>,
)
    requires
        n <= withdrawals.len(),
        watched.contains(address),
        rs == recipients(withdrawals, watched, n),
        !rs.contains(address),
    ensures
        withdrawn(withdrawals, address, n) == 0,
{
    recipients_are_the_watched_ones(withdrawals, watched, n);
    assert(!named(withdrawals, address, n));
    lemma_withdrawn_zero(withdrawals, address, n);
}

proof fn lemma_withdrawn_zero(withdrawals: Seq<(Address, U256)>, address: Address, n: nat)
    requires
        n <= withdrawals.len(),
        forall|i: int| 0 <= i < n ==> #[trigger] withdrawals[i].0 != address,
    ensures
        withdrawn(withdrawals, address, n) == 0,
    decreases n,
{
    if n > 0 {
        lemma_withdrawn_zero(withdrawals, address, (n - 1) as nat);
        assert(withdrawals[n - 1].0 != address);
    }
}

/// The recognised credits of a block for the watched addresses: withdrawals,
/// and the priority fees `(price - base fee) * gas` of the transactions, which
/// reach the beneficiary.
pub fn l1_system_credits(
    watched: &WatchedSet,
    withdrawals: &[(Address, U256)],
    beneficiary: Address,
    base_fee_per_gas: u128,
    txs: &[(u128, u64)],
) -> (r: Vec<SystemCredit>)
    ensures
        credits_view(r@) == l1_credits(
            watched@,
            withdrawals@,
            beneficiary,
            base_fee_per_gas,
            txs@,
        ),
{
    let totals = withdrawal_totals(watched, withdrawals);
    let ghost rs = recipients(withdrawals@, watched@, withdrawals@.len());
    let ghost wanted = Seq::new(rs.len(), |i: int| withdrawal_credit(withdrawals@, rs[i]));
    let mut out: Vec<SystemCredit> = Vec::new();
    let mut k: usize = 0;
    assert(credits_view(out@) =~= wanted.take(0));
    while k < totals.len()
        invariant
            k <= totals@.len() == rs.len(),
            wanted == Seq::new(rs.len(), |i: int| withdrawal_credit(withdrawals@, rs[i])),
            forall|m: int|
                #![trigger totals@[m]]
                0 <= m < totals@.len() ==> totals@[m].0 == rs[m] && totals@[m].1@ == withdrawn(
                    withdrawals@,
                    totals@[m].0,
                    withdrawals@.len(),
                ) % primitives::two_256(),
            credits_view(out@) == wanted.take(k as int),
        decreases totals@.len() - k,
    {
        let (recipient, total) = totals[k];
        let credit = SystemCredit::new(
            recipient,
            clamp_to_i128(&total),
            Address::zero(),
            "withdrawal",
        );
        proof {
            assert(totals@[k as int].0 == rs[k as int]);
            assert(credit@ == wanted[k as int]);
            lemma_credits_push(out@, credit);
            assert(wanted.take(k + 1) =~= wanted.take(k as int).push(wanted[k as int]));
        }
        out.push(credit);
        k += 1;
    }
    assert(wanted.take(k as int) =~= wanted);
    if watched.contains(&beneficiary) {
        let mut total = U256::zero();
        let mut i: usize = 0;
        while i < txs.len()
            invariant
                i <= txs@.len(),
                total@ == priority_fees(txs@, base_fee_per_gas, i as nat) % primitives::two_256(),
            decreases txs@.len() - i,
        {
            let (price, gas) = txs[i];
            let prio: u128 = price.saturating_sub(base_fee_per_gas);
            let term = attribution::fee(gas, prio);
            proof {
                assert(prio == priority(price, base_fee_per_gas));
                assert(gas * prio == priority(price, base_fee_per_gas) * gas as nat)
                    by (nonlinear_arith)
                    requires
                        prio == priority(price, base_fee_per_gas),
                ;
                lemma_wrapped_add(
                    priority_fees(txs@, base_fee_per_gas, i as nat),
                    total@,
                    term@,
                );
            }
            total = total.plus(term);
            i += 1;
        }
        if !total.is_zero() {
            let credit = SystemCredit::new(
                beneficiary,
                clamp_to_i128(&total),
                beneficiary,
                "block_reward",
            );
            proof {
                lemma_credits_push(out@, credit);
            }
            out.push(credit);
        }
    }
    proof {
        assert(credits_view(out@) =~= l1_credits(
            watched@,
            withdrawals@,
            beneficiary,
            base_fee_per_gas,
            txs@,
        ));
    }
    out
}

/// What the items of a sequence count for together.
spec fn total<A>(items: Seq<A>, worth: spec_fn(A) -> nat) -> nat
    decreases items.len(),
{
    if items.len() == 0 {
        0
    } else {
        total(items.drop_last(), worth) + worth(items.last())
    }
}

proof fn lemma_total_without<A>(items: Seq<A>, worth: spec_fn(A) -> nat, i: int)
    requires
        0 <= i < items.len(),
    ensures
        total(items, worth) == total(items.remove(i), worth) + worth(items[i]),
    decreases items.len(),
{
    if i == items.len() - 1 {
        assert(items.remove(i) =~= items.drop_last());
    } else {
        lemma_total_without(items.drop_last(), worth, i);
        assert(items.remove(i).drop_last() =~= items.drop_last().remove(i));
        assert(items.remove(i).last() == items.last());
    }
}

/// A total does not depend on the order.
proof fn lemma_total_of_permutation<A>(a: Seq<A>, b: Seq<A>, worth: spec_fn(A) -> nat)
    requires
        a.to_multiset() == b.to_multiset(),
    ensures
        total(a, worth) == total(b, worth),
    decreases a.len(),
{
    a.to_multiset_ensures();
    b.to_multiset_ensures();
    if a.len() > 0 {
        let k = a.len() - 1;
        assert(a.contains(a[k]));
        assert(a.to_multiset().count(a[k]) > 0);
        assert(b.contains(a[k]));
        let i = choose|i: int| 0 <= i < b.len() && b[i] == a[k];
        assert(a.remove(k).to_multiset() == b.remove(i).to_multiset());
        assert(a.remove(k) =~= a.drop_last());
        lemma_total_of_permutation(a.drop_last(), b.remove(i), worth);
        lemma_total_without(b, worth, i);
    }
}

/// What a withdrawal counts for, for an address.
spec fn withdrawal_worth(address: Address) -> spec_fn((Address, U256)) -> nat {
    |w: (Address, U256)|
        if w.0 == address {
            w.1@
        } else {
            0
        }
}

/// The priority fee of a transaction.
spec fn priority_worth(base_fee: u128) -> spec_fn((u128, u64)) -> nat {
    |t: (u128, u64)| priority(t.0, base_fee) * t.1 as nat
}

proof fn lemma_withdrawn_total(withdrawals: Seq<(Address, U256)>, address: Address, n: nat)
    requires
        n <= withdrawals.len(),
    ensures
        withdrawn(withdrawals, address, n) == total(
            withdrawals.take(n as int),
            withdrawal_worth(address),
        ),
    decreases n,
{
    if n > 0 {
        lemma_withdrawn_total(withdrawals, address, (n - 1) as nat);
        assert(withdrawals.take(n as int).drop_last() =~= withdrawals.take(n - 1));
    }
}

proof fn lemma_priority_fees_total(txs: Seq<(u128, u64)>, base_fee: u128, n: nat)
    requires
        n <= txs.len(),
    ensures
        priority_fees(txs, base_fee, n) == total(
            txs.take(n as int),
            priority_worth(base_fee),
        ),
    decreases n,
{
    if n > 0 {
        lemma_priority_fees_total(txs, base_fee, (n - 1) as nat);
        assert(txs.take(n as int).drop_last() =~= txs.take(n - 1));
    }
}

/// Sorted addresses are fixed by which they are.
proof fn lemma_sorted_is_unique(a: Seq<Address>, b: Seq<Address>)
    requires
        sorted(a),
        sorted(b),
        forall|x: Address| #[trigger] a.contains(x) <==> b.contains(x),
    ensures
        a == b,
    decreases a.len(),
{
    if a.len() == 0 {
        if b.len() > 0 {
            assert(b.contains(b[0]));
            assert(a.contains(b[0]));
        }
    } else {
        let m = a.len() - 1;
        assert(a.contains(a[m]));
        let j = choose|j: int| 0 <= j < b.len() && b[j] == a[m];
        let n = b.len() - 1;
        assert(b.contains(b[n]));
        assert(a.contains(b[n]));
        let i = choose|i: int| 0 <= i < a.len() && a[i] == b[n];
        assert(i == m && j == n) by {
            if i < m {
                assert(a[i]@ < a[m]@);
            }
            if j < n {
                assert(b[j]@ < b[n]@);
            }
        }
        let (s, t) = (a.drop_last(), b.drop_last());
        assert forall|x: int, y: int| 0 <= x < y < s.len() implies #[trigger] s[x]@
            < #[trigger] s[y]@ by {
            assert(a[x]@ < a[y]@);
        }
        assert forall|x: int, y: int| 0 <= x < y < t.len() implies #[trigger] t[x]@
            < #[trigger] t[y]@ by {
            assert(b[x]@ < b[y]@);
        }
        assert forall|x: Address| #[trigger] s.contains(x) <==> t.contains(x) by {
            if s.contains(x) {
                let k = choose|k: int| 0 <= k < s.len() && s[k] == x;
                assert(a[k] == x && a[k]@ < a[m]@);
                assert(a.contains(x));
                let o = choose|o: int| 0 <= o < b.len() && b[o] == x;
                assert(o != n);
                assert(t[o] == x);
            }
            if t.contains(x) {
                let k = choose|k: int| 0 <= k < t.len() && t[k] == x;
                assert(b[k] == x && b[k]@ < b[n]@);
                assert(b.contains(x));
                assert(a.contains(x));
                let o = choose|o: int| 0 <= o < a.len() && a[o] == x;
                assert(o != m);
                assert(s[o] == x);
            }
        }
        lemma_sorted_is_unique(s, t);
        assert(a =~= s.push(a[m]));
        assert(b =~= t.push(b[n]));
    }
}

proof fn lemma_named_in(withdrawals: Seq<(Address, U256)>, other: Seq<(Address, U256)>, a: Address)
    requires
        withdrawals.to_multiset() == other.to_multiset(),
        named(withdrawals, a, withdrawals.len()),
    ensures
        named(other, a, other.len()),
{
    let i = choose|i: int| 0 <= i < withdrawals.len() && #[trigger] withdrawals[i].0 == a;
    withdrawals.to_multiset_ensures();
    other.to_multiset_ensures();
    assert(withdrawals.contains(withdrawals[i]));
    assert(withdrawals.to_multiset().count(withdrawals[i]) > 0);
    assert(other.contains(withdrawals[i]));
    let j = choose|j: int| 0 <= j < other.len() && other[j] == withdrawals[i];
    assert(other[j].0 == a);
}

/// The credits of a block, and their order, do not depend on the order of its
/// withdrawals or of its transactions.
pub proof fn credits_do_not_depend_on_order(
    watched: Set<Address>,
    withdrawals: Seq<(Address, U256)>,
    other_withdrawals: Seq<(Address, U256)>,
    beneficiary: Address,
    base_fee: u128,
    txs: Seq<(u128, u64)>,
    other_txs: Seq<(u128, u64)>,
)
    requires
        withdrawals.to_multiset() == other_withdrawals.to_multiset(),
        txs.to_multiset() == other_txs.to_multiset(),
    ensures
        l1_credits(watched, withdrawals, beneficiary, base_fee, txs) == l1_credits(
            watched,
            other_withdrawals,
            beneficiary,
            base_fee,
            other_txs,
        ),
{
    let (a, b) = (withdrawals, other_withdrawals);
    let rs = recipients(a, watched, a.len());
    let other = recipients(b, watched, b.len());
    recipients_are_the_watched_ones(a, watched, a.len());
    recipients_are_the_watched_ones(b, watched, b.len());
    assert forall|x: Address| #[trigger] rs.contains(x) <==> other.contains(x) by {
        if rs.contains(x) {
            lemma_named_in(a, b, x);
        }
        if other.contains(x) {
            lemma_named_in(b, a, x);
        }
    }
    lemma_sorted_is_unique(rs, other);
    assert forall|x: Address| withdrawal_credit(a, x) == #[trigger] withdrawal_credit(b, x) by {
        lemma_withdrawn_total(a, x, a.len());
        lemma_withdrawn_total(b, x, b.len());
        assert(a.take(a.len() as int) =~= a);
        assert(b.take(b.len() as int) =~= b);
        lemma_total_of_permutation(a, b, withdrawal_worth(x));
    }
    lemma_priority_fees_total(txs, base_fee, txs.len());
    lemma_priority_fees_total(other_txs, base_fee, other_txs.len());
    assert(txs.take(txs.len() as int) =~= txs);
    assert(other_txs.take(other_txs.len() as int) =~= other_txs);
    lemma_total_of_permutation(txs, other_txs, priority_worth(base_fee));
    assert(l1_credits(watched, a, beneficiary, base_fee, txs) =~= l1_credits(
        watched,
        b,
        beneficiary,
        base_fee,
        other_txs,
    ));
}

} // verus!
