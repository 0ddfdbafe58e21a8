//! A flash-loan service over decentralised-exchange pools: borrowing tokens
//! from pools, running the borrower's swaps while following the balances, and
//! paying the pools back with fees.
//!
//! The flash-loan contract (`FastLoanContract`) and a pool's flash-loan side
//! (`FlashLoanModule`) are state machines: each endpoint is a function that
//! takes the state and what came in, and gives the new state and the call to
//! make on the other contract next. A refused step leaves the state as it was.
pub mod actions;
pub mod amount;
pub mod borrow_liquidity;
pub mod bytes;
pub mod contract;
pub mod deposit;
pub mod errors;
pub mod fees;
pub mod flashloan;
pub mod keyed;
pub mod laws;
pub mod proxy;
pub mod repay;
pub mod setup;
pub mod storage;
pub mod types;

pub use actions::{FollowedBalances, UserActionsModule};
pub use amount::Amount;
pub use borrow_liquidity::BorrowLiquidityContext;
pub use contract::{DepositOutcome, FastLoanContract, Repayment};
pub use deposit::DepositModule;
pub use errors::{FastLoanError, PoolError};
pub use fees::{FeesModule, MAX_PERCENTAGE};
pub use flashloan::{BorrowedTokens, FlashLoanContract, FlashLoanModule};
pub use proxy::PairProxyModule;
pub use repay::RepayModule;
pub use setup::SetupModule;
pub use storage::StorageModule;
pub use types::{Borrow, EsdtTokenPayment, Exchange, SwapContractAddress, TokenPair, UserAction};
