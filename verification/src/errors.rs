//! Why a request to the flash-loan contract or to a pool is refused.
use vstd::prelude::*;

verus! {

/// Refusals of the flash-loan contract.
#[derive(Debug, Clone, Copy, PartialEq, Eq, Structural)]
pub enum FastLoanError {
    /// A borrow was asked without any token to borrow.
    NoBorrowAsked,
    /// No xExchange pool is set up for a token to borrow.
    CouldNotExecuteAllBorrows,
    /// A deposit comes from an address that is not the xExchange pool of its token.
    CallerAddressNotDefined,
    /// A deposit matches none of the borrows still awaited.
    PaymentDoesNotCorrespond,
    /// No pool of the action's exchange holds the action's two tokens.
    SwapPairUnavailable,
    /// An action would swap in a pool that lent tokens.
    SwapInBorrowedPool,
    /// An action swaps more of a token than the followed balance holds.
    BalanceBelowSwapAmount,
    /// A borrowed token's balance does not cover the borrowed amount and its fee.
    NotEntirelyGivenBack,
    /// The counter of action keys is at its largest value.
    ActionKeyOverflow,
}

/// Refusals of a pool's flash-loan endpoints.
#[derive(Debug, Clone, Copy, PartialEq, Eq, Structural)]
pub enum PoolError {
    /// The pool knows no flash-loan contract.
    NoFlashLoanScSet,
    /// The caller is not the pool's flash-loan contract.
    CallerIsNotFlashLoanSc,
    /// A borrowed token came back with less than the borrowed amount and its fee.
    NotEntirelyGivenBack,
    /// A borrowed token came back with more than the borrowed amount and its fee.
    TooMuchTokensGivenBack,
    /// A borrowed token did not come back.
    OneBorrowNotGivenBack,
    /// A reserve differs after the loan from what it was before.
    LiquidityIncorrect,
    /// The supply of liquidity tokens differs after the loan from what it was before.
    LpSupplyIncorrect,
}

} // verus!
