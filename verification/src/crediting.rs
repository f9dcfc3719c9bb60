//! What the protocol gives: withdrawals, block rewards, deposits and fee vaults.

use vstd::prelude::*;
use crate::collecting;
use crate::committed::{Block, Execution};
use crate::op_chain::{Deposit, OpBlock};
use crate::optimism;
use crate::optimism::TxKind;
use crate::primitives;
use crate::primitives::{Address, U256};
use crate::system;
use crate::system::Credit;

verus! {

/// A total as it is credited: modulo 2^256, and no more than the largest `i128`.
pub open spec fn credited_as(total: nat) -> int {
    let kept = total % primitives::two_256();
    if kept <= i128::MAX {
        kept as int
    } else {
        i128::MAX as int
    }
}

/// What withdrawals bring an address, in gwei.
pub open spec fn gwei_for(withdrawals: Seq<(Address, u64)>, address: Address) -> nat
    decreases withdrawals.len(),
{
    if withdrawals.len() == 0 {
        0
    } else {
        gwei_for(withdrawals.drop_last(), address) + if withdrawals.last().0 == address {
            withdrawals.last().1 as nat
        } else {
            0
        }
    }
}

/// The gas of a transaction times what it paid for it above the base fee.
pub open spec fn tip(price: u128, base_fee: u128, gas: nat) -> nat {
    if price > base_fee {
        (price - base_fee) as nat * gas
    } else {
        0
    }
}

/// The own gas of a transaction.
pub open spec fn own_gas(e: Execution, k: int) -> nat {
    (collecting::gas_upto(e, k) - collecting::gas_upto(e, k - 1)) as nat
}

/// What the first `n` transactions of a block paid above the base fee.
pub open spec fn tips(block: Block, e: Execution, base_fee: u128, n: nat) -> nat
    decreases n,
{
    if n == 0 {
        0
    } else {
        tips(block, e, base_fee, (n - 1) as nat) + tip(
            block.transactions[n - 1].effective_gas_price,
            base_fee,
            own_gas(e, n - 1),
        )
    }
}

proof fn lemma_tips(block: Block, e: Execution, base_fee: u128, n: nat)
    requires
        collecting::gas_never_falls(e),
        n <= block.executed(e),
    ensures
        system::priority_fees(block.tx_fees(e), base_fee, n) == tips(block, e, base_fee, n),
    decreases n,
{
    if n > 0 {
        lemma_tips(block, e, base_fee, (n - 1) as nat);
        collecting::reward_gas_adds_up_to_the_gas_of_the_block(block, e);
        let (price, gas) = block.tx_fees(e)[n - 1];
        assert(gas == own_gas(e, n - 1));
        if price <= base_fee {
            assert(0 * gas as nat == 0) by (nonlinear_arith);
        }
    }
}

proof fn lemma_withdrawn(block: Block, w: Seq<(Address, u64)>, address: Address, n: nat)
    requires
        block.withdrawals == Some(w),
        n <= w.len(),
    ensures
        system::withdrawn(block.withdrawals_wei(), address, n) == 1_000_000_000 * gwei_for(
            w.take(n as int),
            address,
        ),
    decreases n,
{
    if n > 0 {
        lemma_withdrawn(block, w, address, (n - 1) as nat);
        assert(w.take(n as int).drop_last() =~= w.take(n - 1));
        collecting::withdrawals_are_taken_in_wei(block);
        assert(block.withdrawals_wei()[n - 1].0 == w[n - 1].0);
    }
}

/// Whether credits hold one, of an address, an amount, a counterparty and a source.
pub open spec fn has_credit(
    credits: Seq<Credit>,
    address: Address,
    amount: int,
    counterparty: Address,
    source: Seq<char>,
) -> bool {
    exists|c: int|
        0 <= c < credits.len() && #[trigger] credits[c] == (Credit {
            address,
            signed_wei: amount,
            counterparty,
            source,
        })
}

/// Every watched recipient of withdrawals gets one credit of all that they bring it,
/// from the zero address and in the order of the addresses; nobody else gets one.
pub proof fn withdrawals_are_credited(
    block: Block,
    e: Execution,
    w: Seq<(Address, u64)>,
    watched: Set<Address>,
)
    requires
        block.withdrawals == Some(w),
    ensures
        ({
            let credits = block.l1_credits(e, watched);
            let zero = Address { hi: 0, mid: 0, lo: 0 };
            &&& forall|k: int|
                0 <= k < w.len() && watched.contains((#[trigger] w[k]).0) ==> has_credit(
                    credits,
                    w[k].0,
                    credited_as(1_000_000_000 * gwei_for(w, w[k].0)),
                    zero,
                    "withdrawal"@,
                )
            &&& forall|c: int|
                0 <= c < credits.len() && (#[trigger] credits[c]).source == "withdrawal"@
                    ==> watched.contains(credits[c].address) && exists|k: int|
                    0 <= k < w.len() && (#[trigger] w[k]).0 == credits[c].address
            &&& forall|c: int, d: int|
                0 <= c < d < credits.len() && (#[trigger] credits[c]).source == "withdrawal"@ && (
                #[trigger] credits[d]).source == "withdrawal"@ ==> credits[c].address@
                    < credits[d].address@
        }),
{
    let ws = block.withdrawals_wei();
    let rs = system::recipients(ws, watched, ws.len());
    let credits = block.l1_credits(e, watched);
    let zero = Address { hi: 0, mid: 0, lo: 0 };
    system::recipients_are_the_watched_ones(ws, watched, ws.len());
    collecting::withdrawals_are_taken_in_wei(block);
    assert("withdrawal"@ != "block_reward"@) by {
        reveal_strlit("withdrawal");
        reveal_strlit("block_reward");
        assert("withdrawal"@.len() != "block_reward"@.len());
    }
    assert forall|k: int| 0 <= k < w.len() && watched.contains((#[trigger] w[k]).0) implies has_credit(
        credits,
        w[k].0,
        credited_as(1_000_000_000 * gwei_for(w, w[k].0)),
        zero,
        "withdrawal"@,
    ) by {
        let a = w[k].0;
        assert(ws[k].0 == a);
        assert(system::named(ws, a, ws.len()));
        assert(rs.contains(a));
        let c = choose|c: int| 0 <= c < rs.len() && rs[c] == a;
        lemma_withdrawn(block, w, a, w.len());
        assert(w.take(w.len() as int) =~= w);
        assert(credits[c] == system::withdrawal_credit(ws, a));
    }
    assert forall|c: int|
        0 <= c < credits.len() && (#[trigger] credits[c]).source == "withdrawal"@ implies watched.contains(
        credits[c].address,
    ) && c < rs.len() && rs[c] == credits[c].address && exists|k: int|
        0 <= k < w.len() && (#[trigger] w[k]).0 == credits[c].address by {
        assert(c < rs.len());
        assert(rs.contains(rs[c]));
        let k = choose|k: int| 0 <= k < ws.len() && #[trigger] ws[k].0 == rs[c];
        assert(w[k].0 == rs[c]);
    }
}

/// A watched beneficiary of a block gets what its transactions paid above the base
/// fee, each for its own gas and at its own price; nobody gets a reward otherwise.
pub proof fn the_beneficiary_is_credited_with_the_tips(
    block: Block,
    e: Execution,
    watched: Set<Address>,
)
    requires
        collecting::gas_never_falls(e),
    ensures
        ({
            let credits = block.l1_credits(e, watched);
            let n = block.executed(e);
            let base_fee = match block.base_fee {
                Some(f) => f as u128,
                None => 0,
            };
            let total = tips(block, e, base_fee, n);
            let owed = watched.contains(block.beneficiary) && total % primitives::two_256() != 0;
            &&& owed ==> has_credit(
                credits,
                block.beneficiary,
                credited_as(total),
                block.beneficiary,
                "block_reward"@,
            )
            &&& forall|c: int|
                0 <= c < credits.len() && (#[trigger] credits[c]).source != "withdrawal"@ ==> owed
                    && c == credits.len() - 1 && credits[c].source == "block_reward"@
                    && credits[c].address == block.beneficiary && credits[c].signed_wei
                    == credited_as(total)
        }),
{
    let ws = block.withdrawals_wei();
    let rs = system::recipients(ws, watched, ws.len());
    let credits = block.l1_credits(e, watched);
    let base_fee = block.base_fee_wei();
    lemma_tips(block, e, base_fee, block.executed(e));
    let total = tips(block, e, base_fee, block.executed(e));
    assert("withdrawal"@ != "block_reward"@) by {
        reveal_strlit("withdrawal");
        reveal_strlit("block_reward");
        assert("withdrawal"@.len() != "block_reward"@.len());
    }
    if watched.contains(block.beneficiary) && total % primitives::two_256() != 0 {
        let c = rs.len() as int;
        assert(credits.len() == rs.len() + 1);
        assert(credits[c].source == "block_reward"@);
    } else {
        assert(credits.len() == rs.len());
    }
}

/// Whether a transaction is no deposit.
pub open spec fn is_users(b: OpBlock, k: int) -> bool {
    b.deposits[k] is None
}

/// What the first `n` transactions that are no deposits paid: above the base fee, as
/// base fee, in data fees.
pub open spec fn user_fees(
    b: OpBlock,
    e: Execution,
    fees: spec_fn(nat) -> Option<U256>,
    base_fee: u128,
    n: nat,
) -> (nat, nat, nat)
    decreases n,
{
    if n == 0 {
        (0, 0, 0)
    } else {
        let before = user_fees(b, e, fees, base_fee, (n - 1) as nat);
        if is_users(b, n - 1) {
            let gas = own_gas(e, n - 1);
            (
                before.0 + tip(b.block.transactions[n - 1].effective_gas_price, base_fee, gas),
                before.1 + base_fee as nat * gas,
                before.2 + match fees((n - 1) as nat) {
                    Some(f) => f@,
                    None => 0,
                },
            )
        } else {
            before
        }
    }
}

proof fn lemma_vault_totals_push(txs: Seq<(u128, u64, U256)>, tx: (u128, u64, U256), base_fee: u128, n: nat)
    requires
        n <= txs.len(),
    ensures
        optimism::vault_totals(txs.push(tx), base_fee, n) == optimism::vault_totals(
            txs,
            base_fee,
            n,
        ),
    decreases n,
{
    if n > 0 {
        lemma_vault_totals_push(txs, tx, base_fee, (n - 1) as nat);
    }
}

proof fn lemma_user_fees(
    b: OpBlock,
    e: Execution,
    fees: spec_fn(nat) -> Option<U256>,
    base_fee: u128,
    n: nat,
)
    requires
        b.wf(),
        collecting::gas_never_falls(e),
        n <= b.block.executed(e),
    ensures
        ({
            let txs = b.vault_txs(e, fees, n);
            optimism::vault_totals(txs, base_fee, txs.len()) == user_fees(b, e, fees, base_fee, n)
        }),
    decreases n,
{
    if n > 0 {
        let m = (n - 1) as nat;
        lemma_user_fees(b, e, fees, base_fee, m);
        if is_users(b, n - 1) {
            let before = b.vault_txs(e, fees, m);
            let after = b.vault_txs(e, fees, n);
            let tx = after.last();
            assert(after == before.push(tx));
            lemma_vault_totals_push(before, tx, base_fee, before.len());
            collecting::a_transaction_counts_with_its_own_gas(e, n - 1);
            assert(collecting::gas_upto(e, n - 2) <= collecting::gas_upto(e, n - 1));
            assert(tx.1 == own_gas(e, n - 1));
            match fees(m) {
                Some(f) => {
                    f.lemma_number();
                },
                None => {
                    U256::lemma_number_of(0);
                },
            }
            if tx.0 <= base_fee {
                assert(0 * tx.1 as nat == 0) by (nonlinear_arith);
            }
        }
    }
}

/// The three fee vaults: the block's beneficiary takes what users paid above the base
/// fee, the next vault the base fees, the last the data fees. A watched vault that
/// takes something is credited with it. Each transaction counts with its own price,
/// its own gas and its own data fee, and deposits do not count.
pub proof fn the_vaults_take_what_users_pay(
    b: OpBlock,
    e: Execution,
    watched: Set<Address>,
    fees: spec_fn(nat) -> Option<U256>,
)
    requires
        b.wf(),
        collecting::gas_never_falls(e),
    ensures
        ({
            let credits = b.credits(e, watched, fees);
            let base_fee = match b.block.base_fee {
                Some(f) => f as u128,
                None => 0,
            };
            let paid = user_fees(b, e, fees, base_fee, b.block.executed(e));
            let base = Address { hi: 0x4200_0000, mid: 0, lo: 0x19 };
            let data = Address { hi: 0x4200_0000, mid: 0, lo: 0x1a };
            let sequencer = b.block.beneficiary;
            let m = primitives::two_256();
            &&& watched.contains(sequencer) && paid.0 % m != 0 ==> has_credit(
                credits,
                sequencer,
                credited_as(paid.0),
                sequencer,
                "sequencer_fee_vault"@,
            )
            &&& watched.contains(base) && paid.1 % m != 0 ==> has_credit(
                credits,
                base,
                credited_as(paid.1),
                base,
                "base_fee_vault"@,
            )
            &&& watched.contains(data) && paid.2 % m != 0 ==> has_credit(
                credits,
                data,
                credited_as(paid.2),
                data,
                "l1_fee_vault"@,
            )
            &&& base@ == 0x4200000000000000000000000000000000000019int
            &&& data@ == 0x420000000000000000000000000000000000001aint
        }),
{
    let base_fee = b.block.base_fee_wei();
    lemma_user_fees(b, e, fees, base_fee, b.block.executed(e));
    let deposits = b.deposit_list(b.deposits.len());
    let first = optimism::deposit_credits(deposits, watched, deposits.len());
    let txs = b.vault_txs(e, fees, b.block.executed(e));
    let paid = optimism::vault_totals(txs, base_fee, txs.len());
    let x = optimism::vault_credit(
        b.block.beneficiary,
        paid.0,
        "sequencer_fee_vault"@,
        watched,
    );
    let y = optimism::vault_credit(optimism::base_vault(), paid.1, "base_fee_vault"@, watched);
    let z = optimism::vault_credit(optimism::l1_vault(), paid.2, "l1_fee_vault"@, watched);
    let credits = b.credits(e, watched, fees);
    assert(credits == first + (x + y + z));
    if x.len() > 0 {
        assert(credits[first.len() as int] == x[0]);
    }
    if y.len() > 0 {
        assert(credits[(first.len() + x.len()) as int] == y[0]);
    }
    if z.len() > 0 {
        assert(credits[(first.len() + x.len() + y.len()) as int] == z[0]);
    }
}

/// Whether a credit is what a deposit mints.
pub open spec fn is_minted(c: Credit, b: OpBlock, k: int) -> bool {
    b.deposits[k] matches Some(d) && d.mint != 0 && d.to == TxKind::Call(c.address) && c.signed_wei
        == credited_as(d.mint as nat) && c.counterparty == d.from && c.source
        == "deposit_mint:"@ + primitives::b256_text(b.block.transactions[k].hash)
}

#[verifier::rlimit(40)]
proof fn lemma_deposits(b: OpBlock, watched: Set<Address>, n: nat)
    requires
        b.wf(),
        n <= b.deposits.len(),
    ensures
        ({
            let list = b.deposit_list(n);
            let credits = optimism::deposit_credits(list, watched, list.len());
            &&& forall|k: int|
                0 <= k < n && mints_for_watched(#[trigger] b.deposits[k], watched) ==> exists|
                    c: int,
                |
                    0 <= c < credits.len() && is_minted(#[trigger] credits[c], b, k)
            &&& forall|c: int|
                0 <= c < credits.len() ==> watched.contains((#[trigger] credits[c]).address)
                    && exists|k: int| 0 <= k < n && #[trigger] is_minted(credits[c], b, k)
        }),
    decreases n,
{
    if n > 0 {
        let m = (n - 1) as nat;
        lemma_deposits(b, watched, m);
        let old_list = b.deposit_list(m);
        let list = b.deposit_list(n);
        let before = optimism::deposit_credits(old_list, watched, old_list.len());
        let credits = optimism::deposit_credits(list, watched, list.len());
        if let Some(d) = b.deposits[m as int] {
            let entry = (d.mint, d.to, d.from, b.block.transactions[m as int].hash);
            assert(list == old_list.push(entry));
            lemma_deposit_credits_push(old_list, entry, watched, old_list.len());
            let added = optimism::deposit_credit(entry, watched);
            assert(credits == before + added);
            assert(d.mint as nat % primitives::two_256() == d.mint) by {
                vstd::arithmetic::div_mod::lemma_small_mod(d.mint as nat, primitives::two_256());
            }
            assert forall|c: int| 0 <= c < credits.len() implies watched.contains(
                (#[trigger] credits[c]).address,
            ) && exists|k: int| 0 <= k < n && #[trigger] is_minted(credits[c], b, k) by {
                if c < before.len() {
                    assert(credits[c] == before[c]);
                    let k = choose|k: int| 0 <= k < m && #[trigger] is_minted(before[c], b, k);
                    assert(is_minted(credits[c], b, k));
                } else {
                    assert(credits[c] == added[0]);
                    assert(is_minted(credits[c], b, m as int));
                }
            }
            assert forall|k: int|
                0 <= k < n && mints_for_watched(
                    #[trigger] b.deposits[k],
                    watched,
                ) implies exists|c: int|
                0 <= c < credits.len() && is_minted(#[trigger] credits[c], b, k) by {
                if k < m {
                    let c = choose|c: int|
                        0 <= c < before.len() && is_minted(#[trigger] before[c], b, k);
                    assert(credits[c] == before[c]);
                } else {
                    assert(credits[before.len() as int] == added[0]);
                }
            }
        } else {
            assert(list == old_list);
            assert forall|c: int| 0 <= c < credits.len() implies watched.contains(
                (#[trigger] credits[c]).address,
            ) && exists|k: int| 0 <= k < n && #[trigger] is_minted(credits[c], b, k) by {
                let k = choose|k: int| 0 <= k < m && #[trigger] is_minted(before[c], b, k);
                assert(is_minted(credits[c], b, k));
            }
        }
    }
}

proof fn lemma_deposit_credits_push(
    list: Seq<(u128, TxKind, Address, primitives::B256)>,
    entry: (u128, TxKind, Address, primitives::B256),
    watched: Set<Address>,
    n: nat,
)
    requires
        n <= list.len(),
    ensures
        optimism::deposit_credits(list.push(entry), watched, n) == optimism::deposit_credits(
            list,
            watched,
            n,
        ),
    decreases n,
{
    if n > 0 {
        lemma_deposit_credits_push(list, entry, watched, (n - 1) as nat);
    }
}

/// Whether a deposit mints something for a watched address.
pub open spec fn mints_for_watched(deposit: Option<Deposit>, watched: Set<Address>) -> bool {
    match deposit {
        Some(d) => match d.to {
            TxKind::Call(to) => d.mint != 0 && watched.contains(to),
            TxKind::Create => false,
        },
        None => false,
    }
}

/// Every deposit that mints for a watched address is credited to it, with its sender
/// and under its own transaction; and every credit of an OP Stack block is such a one
/// or that of a watched fee vault.
pub proof fn deposits_are_credited(
    b: OpBlock,
    e: Execution,
    watched: Set<Address>,
    fees: spec_fn(nat) -> Option<U256>,
)
    requires
        b.wf(),
    ensures
        ({
            let credits = b.credits(e, watched, fees);
            &&& forall|k: int|
                0 <= k < b.deposits.len() && mints_for_watched(#[trigger] b.deposits[k], watched)
                    ==> exists|c: int|
                    0 <= c < credits.len() && is_minted(#[trigger] credits[c], b, k)
            &&& forall|c: int|
                0 <= c < credits.len() ==> watched.contains((#[trigger] credits[c]).address) && ((
                exists|k: int| 0 <= k < b.deposits.len() && #[trigger] is_minted(credits[c], b, k))
                    || credits[c].source == "sequencer_fee_vault"@ || credits[c].source
                    == "base_fee_vault"@ || credits[c].source == "l1_fee_vault"@)
        }),
{
    lemma_deposits(b, watched, b.deposits.len());
    let list = b.deposit_list(b.deposits.len());
    let first = optimism::deposit_credits(list, watched, list.len());
    let credits = b.credits(e, watched, fees);
    let rest = optimism::vault_credits(
        watched,
        b.block.beneficiary,
        b.block.base_fee_wei(),
        b.vault_txs(e, fees, b.block.executed(e)),
    );
    assert(credits == first + rest);
    assert forall|k: int|
        0 <= k < b.deposits.len() && mints_for_watched(
            #[trigger] b.deposits[k],
            watched,
        ) implies exists|c: int| 0 <= c < credits.len() && is_minted(#[trigger] credits[c], b, k) by {
        let c = choose|c: int| 0 <= c < first.len() && is_minted(#[trigger] first[c], b, k);
        assert(credits[c] == first[c]);
    }
    assert forall|c: int| 0 <= c < credits.len() implies watched.contains(
        (#[trigger] credits[c]).address,
    ) && ((exists|k: int| 0 <= k < b.deposits.len() && #[trigger] is_minted(credits[c], b, k))
        || credits[c].source == "sequencer_fee_vault"@ || credits[c].source == "base_fee_vault"@
        || credits[c].source == "l1_fee_vault"@) by {
        if c < first.len() {
            assert(credits[c] == first[c]);
            let k = choose|k: int|
                0 <= k < b.deposits.len() && #[trigger] is_minted(first[c], b, k);
            assert(is_minted(credits[c], b, k));
        } else {
            assert(credits[c] == rest[c - first.len()]);
        }
    }
}

/// What users pay reaches the vaults and nothing of it is lost: where no price is
/// below the base fee, what is paid above it and the base fees together are price
/// times gas of every transaction that is no deposit.
pub proof fn user_fees_reach_the_vaults(
    b: OpBlock,
    e: Execution,
    fees: spec_fn(nat) -> Option<U256>,
    base_fee: u128,
    n: nat,
)
    requires
        b.wf(),
        collecting::gas_never_falls(e),
        n <= b.block.executed(e),
        forall|k: int|
            0 <= k < n && is_users(b, k) ==> (
            #[trigger] b.block.transactions[k]).effective_gas_price >= base_fee,
    ensures
        ({
            let txs = b.vault_txs(e, fees, n);
            let totals = optimism::vault_totals(txs, base_fee, txs.len());
            totals.0 + totals.1 == spent_on_gas(b, e, n)
        }),
    decreases n,
{
    lemma_user_fees(b, e, fees, base_fee, n);
    lemma_spent(b, e, fees, base_fee, n);
}

/// Price times own gas of those of the first `n` transactions that are no deposits.
pub open spec fn spent_on_gas(b: OpBlock, e: Execution, n: nat) -> nat
    decreases n,
{
    if n == 0 {
        0
    } else {
        spent_on_gas(b, e, (n - 1) as nat) + if is_users(b, n - 1) {
            b.block.transactions[n - 1].effective_gas_price as nat * own_gas(e, n - 1)
        } else {
            0
        }
    }
}

proof fn lemma_spent(
    b: OpBlock,
    e: Execution,
    fees: spec_fn(nat) -> Option<U256>,
    base_fee: u128,
    n: nat,
)
    requires
        n <= b.block.executed(e),
        forall|k: int|
            0 <= k < n && is_users(b, k) ==> (
            #[trigger] b.block.transactions[k]).effective_gas_price >= base_fee,
    ensures
        user_fees(b, e, fees, base_fee, n).0 + user_fees(b, e, fees, base_fee, n).1
            == spent_on_gas(b, e, n),
    decreases n,
{
    if n > 0 {
        lemma_spent(b, e, fees, base_fee, (n - 1) as nat);
        if is_users(b, n - 1) {
            let price = b.block.transactions[n - 1].effective_gas_price;
            let gas = own_gas(e, n - 1);
            assert(price >= base_fee);
            assert((price - base_fee) as nat * gas + base_fee as nat * gas == price as nat * gas)
                by (nonlinear_arith)
                requires
                    price >= base_fee,
            ;
            if price == base_fee {
                assert(0 * gas == 0) by (nonlinear_arith);
            }
        }
    }
}

/// Whether a transaction has one price and one data fee in two blocks.
pub open spec fn pays_the_same(
    a: OpBlock,
    b: OpBlock,
    fees: spec_fn(nat) -> Option<U256>,
    other_fees: spec_fn(nat) -> Option<U256>,
    k: int,
) -> bool {
    a.block.transactions[k].effective_gas_price == b.block.transactions[k].effective_gas_price
        && fees(k as nat) == other_fees(k as nat)
}

/// The credits of an OP Stack block do not depend on the price of any deposit, nor on
/// its data fee.
pub proof fn deposits_pay_no_fees(
    a: OpBlock,
    b: OpBlock,
    e: Execution,
    watched: Set<Address>,
    fees: spec_fn(nat) -> Option<U256>,
    other_fees: spec_fn(nat) -> Option<U256>,
)
    requires
        a.wf(),
        b.wf(),
        a.deposits == b.deposits,
        a.block == (Block { transactions: a.block.transactions, ..b.block }),
        a.block.transactions.len() == b.block.transactions.len(),
        forall|k: int|
            0 <= k < a.deposits.len() ==> (#[trigger] a.block.transactions[k]).hash
                == b.block.transactions[k].hash,
        forall|k: int|
            0 <= k < a.deposits.len() && is_users(a, k) ==> #[trigger] pays_the_same(
                a,
                b,
                fees,
                other_fees,
                k,
            ),
    ensures
        a.credits(e, watched, fees) == b.credits(e, watched, other_fees),
{
    lemma_same_deposits(a, b, a.deposits.len());
    lemma_same_vault_txs(a, b, e, fees, other_fees, a.block.executed(e));
}

proof fn lemma_same_deposits(a: OpBlock, b: OpBlock, n: nat)
    requires
        a.deposits == b.deposits,
        n <= a.deposits.len(),
        forall|k: int|
            0 <= k < a.deposits.len() ==> (#[trigger] a.block.transactions[k]).hash
                == b.block.transactions[k].hash,
    ensures
        a.deposit_list(n) == b.deposit_list(n),
    decreases n,
{
    if n > 0 {
        lemma_same_deposits(a, b, (n - 1) as nat);
        assert(a.block.transactions[n - 1].hash == b.block.transactions[n - 1].hash);
    }
}

proof fn lemma_same_vault_txs(
    a: OpBlock,
    b: OpBlock,
    e: Execution,
    fees: spec_fn(nat) -> Option<U256>,
    other_fees: spec_fn(nat) -> Option<U256>,
    n: nat,
)
    requires
        a.deposits == b.deposits,
        n <= a.deposits.len(),
        forall|k: int|
            0 <= k < a.deposits.len() && is_users(a, k) ==> #[trigger] pays_the_same(
                a,
                b,
                fees,
                other_fees,
                k,
            ),
    ensures
        a.vault_txs(e, fees, n) == b.vault_txs(e, other_fees, n),
    decreases n,
{
    if n > 0 {
        lemma_same_vault_txs(a, b, e, fees, other_fees, (n - 1) as nat);
        if is_users(a, n - 1) {
            assert(pays_the_same(a, b, fees, other_fees, n - 1));
        }
    }
}

/// A data fee of nothing is recorded as none, and any other as it is; either way it
/// counts for what it is.
pub proof fn a_data_fee_is_recorded_for_what_it_is(fee: Option<U256>)
    ensures
        match optimism::nonzero_fee(fee) {
            Some(f) => fee == Some(f) && f@ > 0,
            None => fee matches Some(f) ==> f@ == 0,
        },
{
}

/// Nobody but those whom a deposit mints for and the three vaults is credited, and a
/// vault only with what it takes.
pub proof fn nobody_else_is_credited(
    b: OpBlock,
    e: Execution,
    watched: Set<Address>,
    fees: spec_fn(nat) -> Option<U256>,
    c: int,
)
    requires
        b.wf(),
        collecting::gas_never_falls(e),
        0 <= c < b.credits(e, watched, fees).len(),
    ensures
        ({
            let credit = b.credits(e, watched, fees)[c];
            let base_fee = match b.block.base_fee {
                Some(f) => f as u128,
                None => 0,
            };
            let paid = user_fees(b, e, fees, base_fee, b.block.executed(e));
            let base = Address { hi: 0x4200_0000, mid: 0, lo: 0x19 };
            let data = Address { hi: 0x4200_0000, mid: 0, lo: 0x1a };
            let sequencer = b.block.beneficiary;
            ||| exists|k: int| 0 <= k < b.deposits.len() && #[trigger] is_minted(credit, b, k)
            ||| credit == (Credit {
                address: sequencer,
                signed_wei: credited_as(paid.0),
                counterparty: sequencer,
                source: "sequencer_fee_vault"@,
            })
            ||| credit == (Credit {
                address: base,
                signed_wei: credited_as(paid.1),
                counterparty: base,
                source: "base_fee_vault"@,
            })
            ||| credit == (Credit {
                address: data,
                signed_wei: credited_as(paid.2),
                counterparty: data,
                source: "l1_fee_vault"@,
            })
        }),
{
    let base_fee = b.block.base_fee_wei();
    lemma_user_fees(b, e, fees, base_fee, b.block.executed(e));
    lemma_deposits(b, watched, b.deposits.len());
    let list = b.deposit_list(b.deposits.len());
    let first = optimism::deposit_credits(list, watched, list.len());
    let txs = b.vault_txs(e, fees, b.block.executed(e));
    let rest = optimism::vault_credits(watched, b.block.beneficiary, base_fee, txs);
    let credits = b.credits(e, watched, fees);
    assert(credits == first + rest);
    if c < first.len() {
        assert(credits[c] == first[c]);
        let k = choose|k: int| 0 <= k < b.deposits.len() && #[trigger] is_minted(first[c], b, k);
        assert(is_minted(credits[c], b, k));
    } else {
        assert(credits[c] == rest[c - first.len()]);
    }
}

/// A transaction that is no deposit counts for the vaults with its own price, the gas
/// that its fee row says it used and its own data fee; a deposit does not count.
pub proof fn vaults_and_fees_count_the_same_gas(
    b: OpBlock,
    chain_id: u64,
    e: Execution,
    fees: spec_fn(nat) -> Option<U256>,
    n: nat,
)
    requires
        n < b.block.executed(e),
    ensures
        ({
            let before = b.vault_txs(e, fees, n);
            let after = b.vault_txs(e, fees, n + 1);
            &&& !is_users(b, n as int) ==> after == before
            &&& is_users(b, n as int) ==> {
                &&& after.len() == before.len() + 1
                &&& after.drop_last() == before
                &&& after.last().0 == b.block.transactions[n as int].effective_gas_price
                &&& after.last().1 == crate::attribution::gas_row(
                    b.block.gas_input(chain_id, e, fees, n as int),
                ).gas_used
                &&& after.last().2@ == match fees(n) {
                    Some(f) => f@,
                    None => 0,
                }
            }
        }),
{
    let before = b.vault_txs(e, fees, n);
    let after = b.vault_txs(e, fees, n + 1);
    if is_users(b, n as int) {
        assert(after.drop_last() =~= before);
        match fees(n) {
            Some(f) => {
                f.lemma_number();
            },
            None => {
                U256::lemma_number_of(0);
            },
        }
    }
}

} // verus!
