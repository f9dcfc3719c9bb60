//! The OP Stack: data fees, deposits that mint, and the fee vaults.

use vstd::prelude::*;
use vstd::string::StringExecFns;
use crate::attribution;
use crate::primitives;
use crate::primitives::{Address, B256, U256};
use crate::stack::StackAdapter;
use crate::system;
use crate::system::{Credit, SystemCredit};
use crate::watched::WatchedSet;

verus! {

/// The data fees of one block's transactions, by place.
#[derive(Clone, Debug, Default)]
pub struct OptimismStack {
    fees: Vec<Option<U256>>,
}

impl View for OptimismStack {
    type V = Seq<Option<U256>>;

    closed spec fn view(&self) -> Seq<Option<U256>> {
        self.fees@
    }
}

impl OptimismStack {
    pub fn from_fees(fees: Vec<Option<U256>>) -> (r: OptimismStack)
        ensures
            r@ == fees@,
    {
        OptimismStack { fees }
    }

    /// The table of a block whose fee parameters cannot be read: no fees.
    pub fn without_fees(tx_count: usize) -> (r: OptimismStack)
        ensures
            r@ == Seq::new(tx_count as nat, |i: int| None::<U256>),
    {
        let mut fees: Vec<Option<U256>> = Vec::new();
        let mut i: usize = 0;
        while i < tx_count
            invariant
                i <= tx_count,
                fees@ == Seq::new(i as nat, |k: int| None::<U256>),
            decreases tx_count - i,
        {
            fees.push(None);
            i += 1;
        }
        OptimismStack { fees }
    }
}

impl StackAdapter for OptimismStack {
    /// A place outside the table has no fee.
    open spec fn l1_fee(&self, tx_index: nat) -> Option<U256> {
        if tx_index < self@.len() {
            self@[tx_index as int]
        } else {
            None
        }
    }

    fn l1_data_fee_wei(&self, tx_index: usize) -> (r: Option<U256>) {
        if tx_index < self.fees.len() {
            self.fees[tx_index]
        } else {
            None
        }
    }
}

/// What the table holds for a transaction: nothing for a deposit, otherwise what
/// `fee_of` makes of its encoding.
pub open spec fn is_table_entry<F: Fn(&[u8]) -> Option<U256>>(
    fee_of: F,
    is_deposit: bool,
    encoding: Seq<u8>,
    fee: Option<U256>,
) -> bool {
    if is_deposit {
        fee == None::<U256>
    } else {
        exists|raw: &[u8]| raw@ == encoding && #[trigger] call_ensures(fee_of, (raw,), fee)
    }
}

/// The data fees of a block from its transactions, each given as whether it is
/// a deposit and as its encoding. A deposit pays none; of another transaction
/// the fee is what `fee_of` makes of its encoding.
pub fn build_block_l1_fee_table<F: Fn(&[u8]) -> Option<U256>>(
    txs: &[(bool, Vec<u8>)],
    fee_of: F,
) -> (r: OptimismStack)
    requires
        forall|raw: &[u8]| #[trigger] call_requires(fee_of, (raw,)),
    ensures
        r@.len() == txs@.len(),
        forall|i: int|
            #![trigger r@[i]]
            0 <= i < txs@.len() ==> is_table_entry(fee_of, txs@[i].0, txs@[i].1@, r@[i]),
{
    let mut fees: Vec<Option<U256>> = Vec::new();
    let mut i: usize = 0;
    while i < txs.len()
        invariant
            i <= txs@.len(),
            fees@.len() == i,
            forall|raw: &[u8]| #[trigger] call_requires(fee_of, (raw,)),
            forall|k: int|
                #![trigger fees@[k]]
                0 <= k < i ==> is_table_entry(fee_of, txs@[k].0, txs@[k].1@, fees@[k]),
        decreases txs@.len() - i,
    {
        let tx = &txs[i];
        if tx.0 {
            fees.push(None);
        } else {
            let raw = tx.1.as_slice();
            let fee = fee_of(raw);
            assert(is_table_entry(fee_of, tx.0, tx.1@, fee));
            fees.push(fee);
        }
        i += 1;
    }
    OptimismStack { fees }
}

/// A computed data fee as it is recorded: a fee of nothing is none.
pub open spec fn nonzero_fee(fee: Option<U256>) -> Option<U256> {
    match fee {
        Some(f) => if f@ == 0 {
            None
        } else {
            Some(f)
        },
        None => None,
    }
}

/// [`nonzero_fee`].
pub fn recorded_l1_fee(fee: Option<U256>) -> (r: Option<U256>)
    ensures
        r == nonzero_fee(fee),
{
    match fee {
        Some(f) => if f.is_zero() {
            None
        } else {
            Some(f)
        },
        None => None,
    }
}

/// Whom a transaction calls, if it is not a creation.
#[derive(Clone, Copy, Debug, PartialEq, Eq, Structural)]
pub enum TxKind {
    Create,
    Call(Address),
}

/// The source tag of a deposit's credit: each deposit has its own.
pub open spec fn deposit_source(tx_hash: B256) -> Seq<char> {
    "deposit_mint:"@ + primitives::b256_text(tx_hash)
}

/// Deposits with different hashes have different source tags.
pub proof fn deposit_sources_are_distinct(a: B256, b: B256)
    requires
        deposit_source(a) == deposit_source(b),
    ensures
        a == b,
{
    let n = "deposit_mint:"@.len() as int;
    assert(deposit_source(a).skip(n) =~= primitives::b256_text(a));
    assert(deposit_source(b).skip(n) =~= primitives::b256_text(b));
    a.lemma_text_injective(b);
}

/// The credit of one deposit `(mint, to, from, tx_hash)`: what it mints for a
/// watched recipient.
pub open spec fn deposit_credit(
    deposit: (u128, TxKind, Address, B256),
    watched: Set<Address>,
) -> Seq<Credit> {
    match deposit.1 {
        TxKind::Call(to) => if deposit.0 != 0 && watched.contains(to) {
            seq![
                Credit {
                    address: to,
                    signed_wei: system::clamped(deposit.0 as nat),
                    counterparty: deposit.2,
                    source: deposit_source(deposit.3),
                },
            ]
        } else {
            Seq::empty()
        },
        TxKind::Create => Seq::empty(),
    }
}

/// The credits of the first `n` deposits.
pub open spec fn deposit_credits(
    deposits: Seq<(u128, TxKind, Address, B256)>,
    watched: Set<Address>,
    n: nat,
) -> Seq<Credit>
    decreases n,
{
    if n == 0 {
        Seq::empty()
    } else {
        deposit_credits(deposits, watched, (n - 1) as nat) + deposit_credit(
            deposits[n - 1],
            watched,
        )
    }
}

/// The credits of the deposits `(mint, to, from, tx_hash)` of a block: one for
/// each that mints something for a watched recipient.
pub fn deposit_mint_credits(
    deposits: &[(u128, TxKind, Address, B256)],
    watched: &WatchedSet,
) -> (r: Vec<SystemCredit>)
    ensures
        system::credits_view(r@) == deposit_credits(deposits@, watched@, deposits@.len()),
{
    let mut out: Vec<SystemCredit> = Vec::new();
    let mut i: usize = 0;
    assert(system::credits_view(out@) =~= deposit_credits(deposits@, watched@, 0));
    while i < deposits.len()
        invariant
            i <= deposits@.len(),
            system::credits_view(out@) == deposit_credits(deposits@, watched@, i as nat),
        decreases deposits@.len() - i,
    {
        let (mint, kind, from, tx_hash) = deposits[i];
        let ghost before = system::credits_view(out@);
        if mint != 0 {
            if let TxKind::Call(to) = kind {
                if watched.contains(&to) {
                    let amount: i128 = system::clamp_to_i128(&U256::from_u128(mint));
                    let mut source = "deposit_mint:".to_owned();
                    let hex = tx_hash.to_hex();
                    source.append(hex.as_str());
                    let credit = SystemCredit {
                        address: to,
                        signed_wei: amount,
                        counterparty: from,
                        source,
                    };
                    proof {
                        system::lemma_credits_push(out@, credit);
                    }
                    out.push(credit);
                }
            }
        }
        proof {
            assert(system::credits_view(out@) =~= before + deposit_credit(
                deposits@[i as int],
                watched@,
            ));
        }
        i += 1;
    }
    out
}

/// The vault that is the block's beneficiary and takes the priority fees.
pub fn sequencer_fee_vault() -> (r: Address)
    ensures
        r == (Address { hi: 0x4200_0000, mid: 0, lo: 0x11 }),
{
    Address { hi: 0x4200_0000, mid: 0, lo: 0x11 }
}

/// The vault that takes the base fees.
pub open spec fn base_vault() -> Address {
    Address { hi: 0x4200_0000, mid: 0, lo: 0x19 }
}

pub fn base_fee_vault() -> (r: Address)
    ensures
        r == base_vault(),
{
    Address { hi: 0x4200_0000, mid: 0, lo: 0x19 }
}

/// The vault that takes the data fees.
pub open spec fn l1_vault() -> Address {
    Address { hi: 0x4200_0000, mid: 0, lo: 0x1a }
}

pub fn l1_fee_vault() -> (r: Address)
    ensures
        r == l1_vault(),
{
    Address { hi: 0x4200_0000, mid: 0, lo: 0x1a }
}

/// What each vault takes from the first `n` transactions `(price, gas, data
/// fee)`: priority fees, base fees and data fees.
pub open spec fn vault_totals(txs: Seq<(u128, u64, U256)>, base_fee: u128, n: nat) -> (nat, nat, nat)
    decreases n,
{
    if n == 0 {
        (0, 0, 0)
    } else {
        let before = vault_totals(txs, base_fee, (n - 1) as nat);
        let tx = txs[n - 1];
        (
            before.0 + system::priority(tx.0, base_fee) * tx.1 as nat,
            before.1 + base_fee as nat * tx.1 as nat,
            before.2 + tx.2@,
        )
    }
}

/// The credit of a vault: none if it takes nothing or is not watched.
pub open spec fn vault_credit(
    vault: Address,
    total: nat,
    source: Seq<char>,
    watched: Set<Address>,
) -> Seq<Credit> {
    let kept = total % primitives::two_256();
    if kept != 0 && watched.contains(vault) {
        seq![
            Credit {
                address: vault,
                signed_wei: system::clamped(kept),
                counterparty: vault,
                source,
            },
        ]
    } else {
        Seq::empty()
    }
}

/// The credits of the three vaults.
pub open spec fn vault_credits(
    watched: Set<Address>,
    coinbase: Address,
    base_fee: u128,
    txs: Seq<(u128, u64, U256)>,
) -> Seq<Credit> {
    let totals = vault_totals(txs, base_fee, txs.len());
    vault_credit(coinbase, totals.0, "sequencer_fee_vault"@, watched) + vault_credit(
        base_vault(),
        totals.1,
        "base_fee_vault"@,
        watched,
    ) + vault_credit(l1_vault(), totals.2, "l1_fee_vault"@, watched)
}

fn push_vault_credit(
    vault: Address,
    total: U256,
    source: &str,
    watched: &WatchedSet,
    out: &mut Vec<SystemCredit>,
)
    ensures
        system::credits_view(final(out)@) == system::credits_view(old(out)@) + vault_credit(
            vault,
            total@,
            source@,
            watched@,
        ),
{
    let ghost before = system::credits_view(out@);
    proof {
        total.lemma_bound();
        vstd::arithmetic::div_mod::lemma_small_mod(total@, primitives::two_256());
    }
    if !total.is_zero() && watched.contains(&vault) {
        let credit = SystemCredit::new(vault, system::clamp_to_i128(&total), vault, source);
        proof {
            system::lemma_credits_push(out@, credit);
        }
        out.push(credit);
    }
    proof {
        assert(system::credits_view(out@) =~= before + vault_credit(
            vault,
            total@,
            source@,
            watched@,
        ));
    }
}

/// The credits of the fee vaults from a block's transactions `(price, gas, data
/// fee)` that are not deposits. The beneficiary is given, so that a block with
/// another beneficiary than the usual vault is still accounted for.
pub fn fee_vault_credits(
    watched: &WatchedSet,
    coinbase: Address,
    base_fee_per_gas: u128,
    txs: &[(u128, u64, U256)],
) -> (r: Vec<SystemCredit>)
    ensures
        system::credits_view(r@) == vault_credits(watched@, coinbase, base_fee_per_gas, txs@),
{
    let mut priority_total = U256::zero();
    let mut base_total = U256::zero();
    let mut l1_total = U256::zero();
    let mut i: usize = 0;
    while i < txs.len()
        invariant
            i <= txs@.len(),
            priority_total@ == vault_totals(txs@, base_fee_per_gas, i as nat).0
                % primitives::two_256(),
            base_total@ == vault_totals(txs@, base_fee_per_gas, i as nat).1
                % primitives::two_256(),
            l1_total@ == vault_totals(txs@, base_fee_per_gas, i as nat).2 % primitives::two_256(),
        decreases txs@.len() - i,
    {
        let (price, gas, l1_fee) = txs[i];
        let prio: u128 = price.saturating_sub(base_fee_per_gas);
        let prio_term = attribution::fee(gas, prio);
        let base_term = attribution::fee(gas, base_fee_per_gas);
        proof {
            let before = vault_totals(txs@, base_fee_per_gas, i as nat);
            assert(gas * prio == system::priority(price, base_fee_per_gas) * gas as nat)
                by (nonlinear_arith)
                requires
                    prio == system::priority(price, base_fee_per_gas),
            ;
            assert(gas * base_fee_per_gas == base_fee_per_gas as nat * gas as nat)
                by (nonlinear_arith);
            system::lemma_wrapped_add(before.0, priority_total@, prio_term@);
            system::lemma_wrapped_add(before.1, base_total@, base_term@);
            system::lemma_wrapped_add(before.2, l1_total@, l1_fee@);
        }
        priority_total = priority_total.plus(prio_term);
        base_total = base_total.plus(base_term);
        l1_total = l1_total.plus(l1_fee);
        i += 1;
    }
    let mut out: Vec<SystemCredit> = Vec::new();
    push_vault_credit(coinbase, priority_total, "sequencer_fee_vault", watched, &mut out);
    push_vault_credit(base_fee_vault(), base_total, "base_fee_vault", watched, &mut out);
    push_vault_credit(l1_fee_vault(), l1_total, "l1_fee_vault", watched, &mut out);
    proof {
        let totals = vault_totals(txs@, base_fee_per_gas, txs@.len());
        let m = primitives::two_256();
        vstd::arithmetic::div_mod::lemma_mod_twice(totals.0 as int, m as int);
        vstd::arithmetic::div_mod::lemma_mod_twice(totals.1 as int, m as int);
        vstd::arithmetic::div_mod::lemma_mod_twice(totals.2 as int, m as int);
        assert(system::credits_view(out@) =~= vault_credits(
            watched@,
            coinbase,
            base_fee_per_gas,
            txs@,
        ));
    }
    out
}

/// The data fee of a transaction is the one at its own place in the table.
pub proof fn a_data_fee_is_found_at_its_place(stack: OptimismStack, tx_index: nat)
    ensures
        tx_index < stack@.len() ==> stack.l1_fee(tx_index) == stack@[tx_index as int],
        tx_index >= stack@.len() ==> stack.l1_fee(tx_index) is None,
{
}

} // verus!
