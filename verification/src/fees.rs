//! The fee that a borrower pays on top of a borrowed amount.
use vstd::prelude::*;
use crate::amount::Amount;

verus! {

/// The denominator of fee percentages: a percentage of 100 is 1 %.
pub const MAX_PERCENTAGE: u64 = 10_000;

/// An amount with its fee added: `amount + amount * fee_percentage / MAX_PERCENTAGE`,
/// the division rounding down.
pub open spec fn amount_with_fee(amount: int, fee_percentage: int) -> int {
    amount + amount * fee_percentage / (MAX_PERCENTAGE as int)
}

/// `amount` with its fee added, as `amount_with_fee` says.
pub fn amount_plus_fee(amount: &Amount, fee_percentage: u64) -> (r: Amount)
    ensures
        r@ == amount_with_fee(amount@ as int, fee_percentage as int),
{
    let fee = amount.mul_small(fee_percentage).div_small(MAX_PERCENTAGE);
    amount.add(&fee)
}

/// The fee setting of the flash-loan contract.
#[derive(Debug, Clone, Copy, PartialEq, Eq)]
pub struct FeesModule {
    /// The fee, in hundredths of a percent of a borrowed amount.
    pub fees_percentage: u64,
}

impl FeesModule {
    /// The amount that a borrower owes for `payment_amount`: the amount and its fee.
    pub fn add_fee_amount(&self, payment_amount: Amount) -> (r: Amount)
        ensures
            r@ == amount_with_fee(payment_amount@ as int, self.fees_percentage as int),
    {
        amount_plus_fee(&payment_amount, self.fees_percentage)
    }
}

} // verus!
