//! Reconciliation: whether the recorded movements of an address add up to the
//! change of its balance that was observed.

use vstd::prelude::*;
use crate::model::{UnattributedDeltaCause, UnattributedDeltaRow};
use crate::primitives::{Address, B256, U256};

verus! {

/// What is known of one address in one block.
#[derive(Clone, Copy, Debug)]
pub struct ReconcileInput {
    pub chain_id: u64,
    pub block_number: u64,
    pub block_hash: B256,
    pub address: Address,
    /// Balance after the block less balance before it, in wei.
    pub observed_delta: i128,
    pub eth_in: U256,
    pub eth_out: U256,
    pub gas_paid: U256,
    /// Recognised system credit (positive) or debit (negative), in wei.
    pub system_signed: i128,
}

/// A magnitude left the range of `i128`, so it cannot be shown that the address
/// balances.
#[derive(Clone, Copy, Debug, PartialEq, Eq, Structural)]
pub struct ReconcileOverflow;

impl ReconcileOverflow {
    pub fn message(&self) -> (r: String)
        ensures
            r@ == "reconcile arithmetic out of i128 range"@,
    {
        "reconcile arithmetic out of i128 range".to_owned()
    }
}

pub open spec fn fits_i128(n: int) -> bool {
    i128::MIN <= n <= i128::MAX
}

/// The distance of a number from zero.
pub open spec fn abs(n: int) -> nat {
    if n < 0 {
        (-n) as nat
    } else {
        n as nat
    }
}

impl ReconcileInput {
    /// The change that the recorded movements account for.
    pub open spec fn attributed(self) -> int {
        self.eth_in@ - self.eth_out@ - self.gas_paid@ + self.system_signed
    }

    /// Every input, every partial sum taken from left to right, and the residual
    /// fit in `i128`.
    pub open spec fn in_range(self) -> bool {
        &&& fits_i128(self.eth_in@ as int)
        &&& fits_i128(self.eth_out@ as int)
        &&& fits_i128(self.gas_paid@ as int)
        &&& fits_i128(self.eth_in@ - self.eth_out@ - self.gas_paid@)
        &&& fits_i128(self.attributed())
        &&& fits_i128(self.observed_delta - self.attributed())
    }

    /// The row that records the residual.
    pub open spec fn residual_row(self) -> UnattributedDeltaRow {
        UnattributedDeltaRow {
            chain_id: self.chain_id,
            block_number: self.block_number,
            block_hash: self.block_hash,
            address: self.address,
            observed_wei: U256::number(abs(self.observed_delta as int)),
            attributed_wei: U256::number(abs(self.attributed())),
            residual_wei: U256::number(abs(self.observed_delta - self.attributed())),
            cause: UnattributedDeltaCause::UnexplainedResidual,
        }
    }

    /// The recorded movements account for the observed change exactly.
    pub open spec fn balances(self) -> bool {
        self.observed_delta == self.attributed()
    }
}

/// The magnitude of a signed number.
pub fn magnitude(n: i128) -> (r: u128)
    ensures
        r == abs(n as int),
{
    if n >= 0 {
        n as u128
    } else {
        (-(n + 1)) as u128 + 1
    }
}

/// What the recorded movements of an address account for, and what remains of
/// the observed change; an error if a magnitude is out of range.
pub fn residual_of(i: &ReconcileInput) -> (r: Result<(i128, i128), ReconcileOverflow>)
    ensures
        match r {
            Err(_) => !i.in_range(),
            Ok((attributed, residual)) => i.in_range() && attributed == i.attributed() && residual
                == i.observed_delta - i.attributed(),
        },
{
    let eth_in: i128 = match i.eth_in.to_i128() {
        Some(v) => v,
        None => return Err(ReconcileOverflow),
    };
    let eth_out: i128 = match i.eth_out.to_i128() {
        Some(v) => v,
        None => return Err(ReconcileOverflow),
    };
    let gas_paid: i128 = match i.gas_paid.to_i128() {
        Some(v) => v,
        None => return Err(ReconcileOverflow),
    };
    let net: i128 = eth_in - eth_out;
    let after_gas: i128 = match net.checked_sub(gas_paid) {
        Some(v) => v,
        None => return Err(ReconcileOverflow),
    };
    let attributed: i128 = match after_gas.checked_add(i.system_signed) {
        Some(v) => v,
        None => return Err(ReconcileOverflow),
    };
    let residual: i128 = match i.observed_delta.checked_sub(attributed) {
        Some(v) => v,
        None => return Err(ReconcileOverflow),
    };
    Ok((attributed, residual))
}

/// Whether an address balances: `Ok(None)` if it does, `Ok(Some(row))` with the
/// residual if it does not, an error if a magnitude is out of range. Only
/// `Ok(None)` lets the block be recorded.
pub fn reconcile_account(i: ReconcileInput) -> (r: Result<
    Option<UnattributedDeltaRow>,
    ReconcileOverflow,
>)
    ensures
        match r {
            Err(_) => !i.in_range(),
            Ok(None) => i.in_range() && i.balances(),
            Ok(Some(row)) => i.in_range() && !i.balances() && row == i.residual_row(),
        },
{
    let (attributed, residual): (i128, i128) = match residual_of(&i) {
        Ok(v) => v,
        Err(e) => return Err(e),
    };
    if residual == 0 {
        return Ok(None);
    }
    let row = UnattributedDeltaRow {
        chain_id: i.chain_id,
        block_number: i.block_number,
        block_hash: i.block_hash,
        address: i.address,
        observed_wei: U256::from_u128(magnitude(i.observed_delta)),
        attributed_wei: U256::from_u128(magnitude(attributed)),
        residual_wei: U256::from_u128(magnitude(residual)),
        cause: UnattributedDeltaCause::UnexplainedResidual,
    };
    proof {
        row.observed_wei.lemma_number();
        row.attributed_wei.lemma_number();
        row.residual_wei.lemma_number();
    }
    Ok(Some(row))
}

/// Whether a system credit of `system` can account for a change of `observed`:
/// it is nothing, or it has the same sign.
pub open spec fn same_direction(observed: int, system: int) -> bool {
    system == 0 || (observed > 0 && system > 0) || (observed < 0 && system < 0)
}

/// The observed, attributed and residual magnitudes of a change of which only
/// the recognised system credit is known. A credit of the other sign attributes
/// nothing, and a credit larger than the change attributes no more than the
/// change.
pub open spec fn partial_attribution(observed: int, system: int) -> (nat, nat, nat) {
    let attributed = if !same_direction(observed, system) {
        0
    } else if abs(system) < abs(observed) {
        abs(system)
    } else {
        abs(observed)
    };
    (abs(observed), attributed, (abs(observed) - attributed) as nat)
}

/// `(observed_wei, attributed_wei, residual_wei)` for an address whose call
/// frames are missing. A residual of zero needs no marker.
pub fn skip_mode_attribution(observed_signed: i128, system_signed: i128) -> (r: (u128, u128, u128))
    ensures
        (r.0 as nat, r.1 as nat, r.2 as nat) == partial_attribution(
            observed_signed as int,
            system_signed as int,
        ),
{
    let observed_wei: u128 = magnitude(observed_signed);
    let signs_agree: bool = system_signed == 0 || (observed_signed > 0 && system_signed > 0) || (
    observed_signed < 0 && system_signed < 0);
    if !signs_agree {
        return (observed_wei, 0, observed_wei);
    }
    let system_mag: u128 = magnitude(system_signed);
    let attributed_wei: u128 = if system_mag < observed_wei {
        system_mag
    } else {
        observed_wei
    };
    (observed_wei, attributed_wei, observed_wei - attributed_wei)
}

/// Nothing is lost between the attributed and the residual part: they add up to
/// the observed magnitude, and neither exceeds it.
pub proof fn partial_attribution_is_complete(observed: int, system: int)
    ensures
        ({
            let (o, a, r) = partial_attribution(observed, system);
            o == abs(observed) && a + r == o
        }),
{
}

/// The residual is zero exactly when the credit has the sign of the change and
/// covers it, or when nothing changed.
pub proof fn no_residual_iff_covered(observed: int, system: int)
    ensures
        partial_attribution(observed, system).2 == 0 <==> observed == 0 || (same_direction(
            observed,
            system,
        ) && abs(system) >= abs(observed)),
{
}

/// What came in and what the protocol gave count for the address, what went out and
/// the fees against it; with the residual they make up what was observed.
pub proof fn the_parts_make_up_the_whole(i: ReconcileInput)
    requires
        i.in_range(),
    ensures
        ({
            let row = i.residual_row();
            let residual = i.observed_delta - (i.eth_in@ - i.eth_out@ - i.gas_paid@
                + i.system_signed);
            &&& i.attributed() + residual == i.observed_delta
            &&& i.balances() <==> residual == 0
            &&& row.residual_wei@ == (if residual >= 0 {
                residual
            } else {
                -residual
            })
            &&& row.observed_wei@ == (if i.observed_delta >= 0 {
                i.observed_delta as int
            } else {
                -i.observed_delta
            })
            &&& row.attributed_wei@ == (if i.attributed() >= 0 {
                i.attributed()
            } else {
                -i.attributed()
            })
            &&& row.chain_id == i.chain_id && row.block_number == i.block_number && row.block_hash
                == i.block_hash && row.address == i.address && row.cause
                == UnattributedDeltaCause::UnexplainedResidual
        }),
{
    U256::lemma_number_of(abs(i.observed_delta as int));
    U256::lemma_number_of(abs(i.attributed()));
    U256::lemma_number_of(abs(i.observed_delta - i.attributed()));
}

/// An address can be reconciled exactly if what came in, what went out and the fees
/// each fit in `i128`, and so do the sum before and after the protocol's part and the
/// residual.
pub proof fn the_range_of_reconciliation(i: ReconcileInput)
    ensures
        i.in_range() <==> {
            let net = i.eth_in@ - i.eth_out@ - i.gas_paid@;
            let sum = net + i.system_signed;
            &&& i.eth_in@ <= i128::MAX && i.eth_out@ <= i128::MAX && i.gas_paid@ <= i128::MAX
            &&& i128::MIN <= net <= i128::MAX
            &&& i128::MIN <= sum <= i128::MAX
            &&& i128::MIN <= i.observed_delta - sum <= i128::MAX
        },
{
}

/// Of a change of which only the protocol's part is known, that part is attributed as
/// far as it goes in the same direction, and no further than the change; the rest
/// stays open.
pub proof fn only_what_goes_the_same_way_is_attributed(observed: int, system: int)
    ensures
        ({
            let (o, a, r) = partial_attribution(observed, system);
            &&& o == if observed >= 0 {
                observed
            } else {
                -observed
            }
            &&& a + r == o
            &&& 0 <= observed <= system ==> a == observed
            &&& 0 <= system <= observed ==> a == system
            &&& system <= observed <= 0 ==> a == -observed
            &&& observed <= system <= 0 ==> a == -system
            &&& (observed > 0 && system < 0) || (observed < 0 && system > 0) ==> a == 0
        }),
{
}

} // verus!
