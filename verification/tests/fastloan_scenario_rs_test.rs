use fastloan::amount::Amount;
use fastloan::{
    Borrow, BorrowLiquidityContext, DepositModule, DepositOutcome, EsdtTokenPayment, Exchange, FastLoanContract,
    FastLoanError, FlashLoanContract, FlashLoanModule, PairProxyModule, PoolError, RepayModule, SetupModule,
    SwapContractAddress, TokenPair, UserAction, UserActionsModule,
};

const WEGLD_TOKEN_ID: &[u8] = b"WEGLD-abcdef";
const MEX_TOKEN_ID: &[u8] = b"MEX-abcdef";
const ASH_TOKEN_ID: &[u8] = b"ASH-123456";

const OWNER_ADDRESS_EXPR: &str = "address:owner";
const POOL_ADDRESS_EXPR: &str = "sc:pool";
const FASTLOAN_ADDRESS_EXPR: &str = "sc:fastloan";

fn address(expr: &str) -> Vec<u8> {
    expr.as_bytes().to_vec()
}

fn payment(token: &[u8], amount: u128) -> EsdtTokenPayment {
    EsdtTokenPayment { token_identifier: token.to_vec(), token_nonce: 0, amount: Amount::from_u128(amount) }
}

fn borrow_of(token: &[u8], amount: u128) -> Borrow {
    Borrow { token: token.to_vec(), amount: Amount::from_u128(amount) }
}

fn action(exchange: Exchange, first_token: &[u8], second_token: &[u8], amount_swap: u128) -> UserAction {
    UserAction { exchange, first_token: first_token.to_vec(), second_token: second_token.to_vec(), amount_swap: Amount::from_u128(amount_swap) }
}

fn swap_contract(exchange: Exchange, pool: &str, first_token: &[u8], second_token: &[u8]) -> (Exchange, SwapContractAddress) {
    (
        exchange,
        SwapContractAddress {
            address: address(pool),
            tokens: TokenPair { first_token: first_token.to_vec(), second_token: second_token.to_vec() },
        },
    )
}

/// A pool with its liquidity added and the flash-loan contract set.
fn create_pool(first_token: &[u8], second_token: &[u8], first_reserve: u128, second_reserve: u128, fee_percentage: u64) -> FlashLoanModule {
    FlashLoanModule {
        first_token_id: first_token.to_vec(),
        second_token_id: second_token.to_vec(),
        first_token_reserve: Amount::from_u128(first_reserve),
        second_token_reserve: Amount::from_u128(second_reserve),
        lp_token_supply: Amount::from_u128(first_reserve.min(second_reserve)),
        flash_loan_sc: Some(address(FASTLOAN_ADDRESS_EXPR)),
        flashloan_fees_percent: fee_percentage,
        borrowed_tokens: Vec::new(),
    }
}

/// Why a transaction failed.
#[derive(Debug, PartialEq, Eq)]
enum TxError {
    FastLoan(FastLoanError),
    Pool(PoolError),
}

/// The flash-loan contract, the pools, and what the swaps return.
struct World {
    fastloan: FastLoanContract,
    pools: Vec<(Vec<u8>, FlashLoanModule)>,
    swap_results: Vec<EsdtTokenPayment>,
    fees_collected: Vec<EsdtTokenPayment>,
    given_back: Vec<EsdtTokenPayment>,
}

impl World {
    fn pool_mut(&mut self, addr: &[u8]) -> &mut FlashLoanModule {
        &mut self.pools.iter_mut().find(|(a, _)| a.as_slice() == addr).unwrap().1
    }

    fn pool(&self, addr: &[u8]) -> &FlashLoanModule {
        &self.pools.iter().find(|(a, _)| a.as_slice() == addr).unwrap().1
    }

    /// The pool lends `payment` to the flash-loan contract and checks its liquidity afterwards.
    fn borrow_liquidity(&mut self, pool_address: Vec<u8>, payment: EsdtTokenPayment, action_key: u64) -> Result<(), TxError> {
        let pool = self.pool_mut(&pool_address);
        let is_first_token = payment.token_identifier == pool.first_token_id;
        let context = BorrowLiquidityContext::new(payment.clone(), is_first_token);
        let reserve_before = if is_first_token { pool.first_token_reserve.clone() } else { pool.second_token_reserve.clone() };
        let lp_before = pool.lp_token_supply.clone();
        if is_first_token {
            pool.first_token_reserve = pool.first_token_reserve.checked_sub(&context.payment.amount).unwrap();
        } else {
            pool.second_token_reserve = pool.second_token_reserve.checked_sub(&context.payment.amount).unwrap();
        }
        let loan_address = address(FASTLOAN_ADDRESS_EXPR);
        let call = pool.call_deposit_loan(loan_address, context.payment, action_key);
        let FlashLoanContract::DepositLoan { action_key, payment, .. } = call;
        self.deposit_loan(action_key, payment, pool_address.clone())?;
        self.pool(&pool_address)
            .finish_call_deposit_loan(is_first_token, reserve_before, lp_before)
            .map_err(TxError::Pool)
    }

    fn run_call(&mut self, call: PairProxyModule) -> Result<(), TxError> {
        match call {
            PairProxyModule::BorrowLiquidity { address, payment, action_key } => self.borrow_liquidity(address, payment, action_key),
            _ => panic!("only borrows are asked for here"),
        }
    }

    fn deposit_loan(&mut self, action_key: u64, payment: EsdtTokenPayment, caller: Vec<u8>) -> Result<(), TxError> {
        match self.fastloan.deposit_loan(action_key, payment, caller).map_err(TxError::FastLoan)? {
            DepositOutcome::NextBorrow(call) => self.run_call(call),
            DepositOutcome::AllDeposited => {
                let mut run = self.fastloan.start_following_balances(action_key);
                while let Some(swap) = self.fastloan.next_swap(&run).map_err(TxError::FastLoan)? {
                    match swap {
                        PairProxyModule::SwapTokensFixedInput { .. } => {},
                        _ => panic!("a swap was expected"),
                    }
                    let result = self.swap_results.remove(0);
                    self.fastloan.follow_swap_result(&mut run, result).map_err(TxError::FastLoan)?;
                }
                let repayment = self.fastloan.check_and_repay(&run.balances, action_key).map_err(TxError::FastLoan)?;
                for call in repayment.pool_repayments {
                    if let PairProxyModule::Repay { address: pool_address, action_key, payments } = call {
                        let loan_address = address(FASTLOAN_ADDRESS_EXPR);
                        let fees = self.pool_mut(&pool_address).repay(action_key, &loan_address, &payments).map_err(TxError::Pool)?;
                        self.fees_collected.extend(fees);
                    }
                }
                assert_eq!(repayment.receiver, address(OWNER_ADDRESS_EXPR));
                self.given_back.extend(repayment.give_back);
                Ok(())
            },
        }
    }

    /// The owner borrows and runs actions, in one transaction.
    fn borrow(&mut self, borrows: Vec<Borrow>, actions: Vec<UserAction>) -> Result<(), TxError> {
        let call = self.fastloan.borrow(borrows, actions, address(OWNER_ADDRESS_EXPR)).map_err(TxError::FastLoan)?;
        self.run_call(call)
    }
}

fn setup(flashloan_fees: u64) -> World {
    let mut fastloan = FastLoanContract::new();
    fastloan.init(flashloan_fees);
    fastloan.owner_setup_pool_addresses_pairs(vec![swap_contract(
        Exchange::Xexchange,
        POOL_ADDRESS_EXPR,
        WEGLD_TOKEN_ID,
        MEX_TOKEN_ID,
    )]);
    let pool = create_pool(WEGLD_TOKEN_ID, MEX_TOKEN_ID, 10000, 10000, flashloan_fees);
    World {
        fastloan,
        pools: vec![(address(POOL_ADDRESS_EXPR), pool)],
        swap_results: Vec::new(),
        fees_collected: Vec::new(),
        given_back: Vec::new(),
    }
}

#[test]
fn try_setup() {
    let world = setup(100u64);
    assert_eq!(world.fastloan.fees.fees_percentage, 100);
    assert_eq!(
        world.fastloan.storage.get_token_exchange(Exchange::Xexchange, &WEGLD_TOKEN_ID.to_vec()),
        Some(address(POOL_ADDRESS_EXPR))
    );
    assert_eq!(
        world.fastloan.storage.get_token_exchange(Exchange::Xexchange, &MEX_TOKEN_ID.to_vec()),
        Some(address(POOL_ADDRESS_EXPR))
    );
}

// Borrow 100 WEGLD, give back 100 WEGLD, no action, no fees.
#[test]
fn borrow_give_back_no_fee() {
    let mut world = setup(0u64);
    world.borrow(vec![borrow_of(WEGLD_TOKEN_ID, 100)], vec![]).unwrap();
    assert!(world.given_back.is_empty());
    let pool = world.pool(POOL_ADDRESS_EXPR.as_bytes());
    assert_eq!(pool.first_token_reserve, Amount::from_u128(10000));
    assert_eq!(pool.second_token_reserve, Amount::from_u128(10000));
}

// Borrow 100 WEGLD and 100 MEX, give them back, no action, no fees.
#[test]
fn borrow_two_tokens_give_back_no_fee() {
    let mut world = setup(0u64);
    world
        .borrow(vec![borrow_of(MEX_TOKEN_ID, 100), borrow_of(WEGLD_TOKEN_ID, 100)], vec![])
        .unwrap();
    assert!(world.given_back.is_empty());
    let pool = world.pool(POOL_ADDRESS_EXPR.as_bytes());
    assert_eq!(pool.first_token_reserve, Amount::from_u128(10000));
    assert_eq!(pool.second_token_reserve, Amount::from_u128(10000));
}

fn ashswap_world() -> World {
    let mut world = setup(100u64);
    let pool_expr = "sc:pool-ash";
    world.pools.push((address(pool_expr), create_pool(ASH_TOKEN_ID, WEGLD_TOKEN_ID, 10000, 10000, 0)));
    world.fastloan.init(100u64);
    world.fastloan.owner_setup_pool_addresses_pairs(vec![
        swap_contract(Exchange::Xexchange, POOL_ADDRESS_EXPR, WEGLD_TOKEN_ID, MEX_TOKEN_ID),
        swap_contract(Exchange::Ashswap, pool_expr, ASH_TOKEN_ID, WEGLD_TOKEN_ID),
    ]);
    world
}

#[test]
fn borrow_and_swap_other_pool_swap_back() {
    // Swap WEGLD to ASH and not enough WEGLD to give back
    let mut world = ashswap_world();
    world.swap_results = vec![payment(ASH_TOKEN_ID, 9)];
    let r = world.borrow(
        vec![borrow_of(MEX_TOKEN_ID, 10), borrow_of(WEGLD_TOKEN_ID, 10)],
        vec![action(Exchange::Ashswap, WEGLD_TOKEN_ID, ASH_TOKEN_ID, 10)],
    );
    assert_eq!(r, Err(TxError::FastLoan(FastLoanError::NotEntirelyGivenBack)));

    // Swap WEGLD to ASH and swap back again on the same pool,
    // but cannot have the starting amount (swap fees)
    let mut world = ashswap_world();
    world.swap_results = vec![payment(ASH_TOKEN_ID, 906), payment(WEGLD_TOKEN_ID, 996)];
    let r = world.borrow(
        vec![borrow_of(MEX_TOKEN_ID, 1000), borrow_of(WEGLD_TOKEN_ID, 1000)],
        vec![
            action(Exchange::Ashswap, WEGLD_TOKEN_ID, ASH_TOKEN_ID, 1000),
            action(Exchange::Ashswap, ASH_TOKEN_ID, WEGLD_TOKEN_ID, 906),
        ],
    );
    assert_eq!(r, Err(TxError::FastLoan(FastLoanError::NotEntirelyGivenBack)));
}

fn arbitrage_world() -> World {
    let mut world = setup(100u64);
    let first_token = MEX_TOKEN_ID;
    let second_token = WEGLD_TOKEN_ID;
    // Reverse pool on Ashswap with difference
    let pool_expr = "sc:pool-reverse";
    world.pools.push((address(pool_expr), create_pool(first_token, second_token, 1500, 10000, 0)));
    // Normal pool on Jexchange
    let pool_jex_expr = "sc:pool-jex";
    world.pools.push((address(pool_jex_expr), create_pool(second_token, first_token, 10000, 10000, 0)));
    world.fastloan.init(100u64);
    world.fastloan.owner_setup_pool_addresses_pairs(vec![
        swap_contract(Exchange::Xexchange, POOL_ADDRESS_EXPR, second_token, first_token),
        swap_contract(Exchange::Ashswap, pool_expr, first_token, second_token),
        swap_contract(Exchange::Jexchange, pool_jex_expr, second_token, first_token),
    ]);
    world
}

#[test]
fn arbitrage_between_two_differents_exchanges_pools_fees() {
    let first_token = MEX_TOKEN_ID;
    let second_token = WEGLD_TOKEN_ID;

    // Try arbitrage but borrow and swap same xExchange pool error
    let mut world = arbitrage_world();
    let r = world.borrow(
        vec![borrow_of(second_token, 1000)],
        vec![
            action(Exchange::Xexchange, second_token, first_token, 1000),
            action(Exchange::Ashswap, first_token, second_token, 997),
        ],
    );
    assert_eq!(r, Err(TxError::FastLoan(FastLoanError::SwapInBorrowedPool)));

    // Borrow 1000 WEGLD
    // Swap on Jexchange for 906 MEX
    // Swap 906 MEX for 3758 WEGLD
    // Give 1010 to Pool
    // Send 10 to fees from pool
    // Give 2748 to User
    let mut world = arbitrage_world();
    world.swap_results = vec![payment(first_token, 906), payment(second_token, 3758)];
    world
        .borrow(
            vec![borrow_of(second_token, 1000)],
            vec![
                action(Exchange::Jexchange, second_token, first_token, 1000),
                action(Exchange::Ashswap, first_token, second_token, 906),
            ],
        )
        .unwrap();
    assert_eq!(world.given_back, vec![payment(second_token, 2748)]);
    assert_eq!(world.fees_collected, vec![payment(second_token, 10)]);
    let pool = world.pool(POOL_ADDRESS_EXPR.as_bytes());
    assert_eq!(pool.first_token_reserve, Amount::from_u128(10000));
}

#[test]
fn borrow_to_not_set_exchange_pool() {
    let mut world = setup(100u64);
    let r = world.borrow(vec![borrow_of(b"IMG-123456", 100)], vec![]);
    assert_eq!(r, Err(TxError::FastLoan(FastLoanError::CouldNotExecuteAllBorrows)));
}

#[test]
fn pool_endpoints_unauthorized() {
    let mut world = setup(100u64);
    let owner = address(OWNER_ADDRESS_EXPR);
    let pool = world.pool_mut(POOL_ADDRESS_EXPR.as_bytes());
    assert_eq!(pool.check_loan_caller_and_return(&owner), Err(PoolError::CallerIsNotFlashLoanSc));
    assert_eq!(pool.repay(1u64, &owner, &vec![]), Err(PoolError::CallerIsNotFlashLoanSc));
}

#[test]
fn fastloan_deposit_from_unauthorized() {
    let mut world = setup(100u64);
    let r = world.fastloan.deposit_loan(1u64, payment(WEGLD_TOKEN_ID, 100), address(OWNER_ADDRESS_EXPR));
    assert_eq!(r, Err(FastLoanError::CallerAddressNotDefined));
    assert_eq!(
        world.fastloan.check_caller_is_token_pool_borrow(&address(OWNER_ADDRESS_EXPR), &WEGLD_TOKEN_ID.to_vec()),
        Err(FastLoanError::CallerAddressNotDefined)
    );
}

#[test]
fn user_action_to_unknown_contract() {
    let mut world = setup(100u64);
    let r = world.borrow(
        vec![borrow_of(WEGLD_TOKEN_ID, 1000)],
        vec![
            action(Exchange::JewelSwap, MEX_TOKEN_ID, WEGLD_TOKEN_ID, 1000),
            action(Exchange::Jexchange, WEGLD_TOKEN_ID, MEX_TOKEN_ID, 997),
        ],
    );
    assert_eq!(r, Err(TxError::FastLoan(FastLoanError::SwapPairUnavailable)));
}

#[test]
fn pool_borrow_and_swap_same_pool() {
    let mut world = setup(100u64);
    let pool_expr = "sc:pool-ash";
    let first_token = MEX_TOKEN_ID;
    let second_token = WEGLD_TOKEN_ID;
    world.pools.push((address(pool_expr), create_pool(first_token, second_token, 10000, 10000, 0)));
    world.fastloan.init(100u64);
    world.fastloan.owner_setup_pool_addresses_pairs(vec![
        swap_contract(Exchange::Xexchange, POOL_ADDRESS_EXPR, WEGLD_TOKEN_ID, MEX_TOKEN_ID),
        swap_contract(Exchange::Ashswap, pool_expr, first_token, second_token),
    ]);
    let r = world.borrow(
        vec![borrow_of(MEX_TOKEN_ID, 9500)],
        vec![
            action(Exchange::Xexchange, MEX_TOKEN_ID, WEGLD_TOKEN_ID, 9500),
            action(Exchange::Ashswap, second_token, first_token, 9400),
        ],
    );
    assert_eq!(r, Err(TxError::FastLoan(FastLoanError::SwapInBorrowedPool)));
}

#[test]
fn repay_calls_go_to_each_lending_pool() {
    let mut world = setup(100u64);
    let call = world
        .fastloan
        .borrow(vec![borrow_of(WEGLD_TOKEN_ID, 100)], vec![], address(OWNER_ADDRESS_EXPR))
        .unwrap();
    let key = match call {
        PairProxyModule::BorrowLiquidity { action_key, .. } => action_key,
        _ => panic!("a borrow was expected"),
    };
    let outcome = world
        .fastloan
        .deposit_loan(key, payment(WEGLD_TOKEN_ID, 100), address(POOL_ADDRESS_EXPR))
        .unwrap();
    assert_eq!(outcome, DepositOutcome::AllDeposited);
    let calls = world.fastloan.send_back_to_pools(key);
    assert_eq!(
        calls,
        vec![PairProxyModule::Repay {
            address: address(POOL_ADDRESS_EXPR),
            action_key: key,
            payments: vec![payment(WEGLD_TOKEN_ID, 101)],
        }]
    );
}
