//! A claimant's share of a fee amount, in fixed-point arithmetic.
use vstd::prelude::*;

verus! {

/// A share of one whole, as an 18-digit fixed-point fraction (the atomics of a decimal).
pub const SHARE_ONE: u128 = 1_000_000_000_000_000_000;

/// `amount * share`, rounded toward zero.
pub open spec fn reward_of(amount: nat, share: u128) -> nat {
    (amount * share as nat) / (SHARE_ONE as nat)
}

/// Relies on cosmwasm_std's `Uint128 * Decimal`: zero where either factor is zero,
/// else `multiply_ratio(atomics, 10^18)`, the product taken in 256 bits and divided
/// rounding down. It panics only where the quotient exceeds 128 bits, which a share
/// of at most one rules out.
#[verifier::external_body]
fn mul_decimal(amount: u128, share: u128) -> (r: u128)
    requires
        share <= SHARE_ONE,
    ensures
        r as nat == reward_of(amount as nat, share),
{
    (cosmwasm_std::Uint128::new(amount) * cosmwasm_std::Decimal::raw(share)).u128()
}

pub proof fn lemma_reward_bounded(amount: nat, share: u128)
    requires
        share <= SHARE_ONE,
    ensures
        reward_of(amount, share) <= amount,
{
    assert(amount * share as nat <= amount * (SHARE_ONE as nat)) by (nonlinear_arith)
        requires share <= SHARE_ONE;
    assert((amount * (SHARE_ONE as nat)) / (SHARE_ONE as nat) == amount) by (nonlinear_arith);
    assert((amount * share as nat) / (SHARE_ONE as nat) <= (amount * (SHARE_ONE as nat)) / (SHARE_ONE as nat))
        by (nonlinear_arith)
        requires amount * share as nat <= amount * (SHARE_ONE as nat);
}

/// The reward on `amount` for a claimant holding `share` of the total weight.
pub fn reward(amount: u128, share: u128) -> (r: u128)
    requires
        share <= SHARE_ONE,
    ensures
        r as nat == reward_of(amount as nat, share),
        r <= amount,
{
    proof {
        lemma_reward_bounded(amount as nat, share);
    }
    mul_decimal(amount, share)
}

} // verus!
