//! What a pool keeps while it lends one of its tokens.
use vstd::prelude::*;
use crate::amount::Amount;
use crate::types::EsdtTokenPayment;

verus! {

/// A loan in progress in a pool: the payment lent, how much was taken from
/// the reserve so far, and whether the lent token is the pool's first token.
#[derive(Debug, PartialEq, Eq)]
pub struct BorrowLiquidityContext {
    pub payment: EsdtTokenPayment,
    pub token_amount_removed: Amount,
    pub is_first_token: bool,
}

impl BorrowLiquidityContext {
    /// A loan of `payment` of which nothing has been taken from the reserve yet.
    pub fn new(payment: EsdtTokenPayment, is_first_token: bool) -> (c: Self)
        ensures
            c.payment == payment,
            c.token_amount_removed@ == 0,
            c.is_first_token == is_first_token,
    {
        BorrowLiquidityContext { payment, token_amount_removed: Amount::zero(), is_first_token }
    }
}

} // verus!
