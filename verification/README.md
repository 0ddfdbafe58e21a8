# fastloan

A flash-loan service over decentralised-exchange pools, verified with Verus.

A borrower asks the flash-loan contract for tokens and for a list of swaps.
The contract borrows each token from the xExchange pool that holds it, runs
the swaps while following the balances of the tokens it holds, checks that
every pool can be paid back its loan with the fee, pays the pools back and
sends the surplus to the borrower. Each pool checks that its loans come back
with the fee and that its liquidity is whole afterwards.

## Layout

- `src/` — the verified library. The flash-loan contract (`contract.rs`,
  with `deposit.rs`, `actions.rs`, `repay.rs`, `setup.rs`, `storage.rs`,
  `fees.rs`) and a pool's flash-loan side (`flashloan.rs`,
  `borrow_liquidity.rs`) are state machines: each endpoint takes the state and
  what came in, and returns the new state and the call to make on the other
  contract next. A refused step leaves the state unchanged. Token amounts
  (`amount.rs`) are unbounded natural numbers held as big-endian bytes, with
  verified arithmetic. `laws.rs` proves properties that span several
  functions.
- `tests/` — the scenarios of the flash-loan workflow, run through the
  library's steps, and unit tests of each function.
- `app/` — the MultiversX contracts around the library: storage mappers,
  cross-contract calls, transfers and error messages.
