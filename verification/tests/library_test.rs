use fastloan::amount::Amount;
use fastloan::fees::amount_plus_fee;
use fastloan::storage::{ActionRecord, AddressDeposits};
use fastloan::{
    Borrow, BorrowLiquidityContext, BorrowedTokens, DepositModule, DepositOutcome, EsdtTokenPayment, Exchange,
    FastLoanContract, FastLoanError, FeesModule, FlashLoanContract, FlashLoanModule, FollowedBalances,
    PairProxyModule, PoolError, RepayModule, SetupModule, StorageModule, SwapContractAddress, TokenPair, UserAction,
    UserActionsModule, MAX_PERCENTAGE,
};

fn amt(x: u128) -> Amount {
    Amount::from_u128(x)
}

fn pay(token: &str, amount: u128) -> EsdtTokenPayment {
    EsdtTokenPayment { token_identifier: token.as_bytes().to_vec(), token_nonce: 0, amount: amt(amount) }
}

fn bytes(s: &str) -> Vec<u8> {
    s.as_bytes().to_vec()
}

fn pool_setup(exchange: Exchange, pool: &str, first: &str, second: &str) -> (Exchange, SwapContractAddress) {
    (
        exchange,
        SwapContractAddress {
            address: bytes(pool),
            tokens: TokenPair { first_token: bytes(first), second_token: bytes(second) },
        },
    )
}

fn contract_with_pool(fee: u64) -> FastLoanContract {
    let mut c = FastLoanContract::new();
    c.init(fee);
    c.owner_setup_pool_addresses_pairs(vec![pool_setup(Exchange::Xexchange, "pool", "WEGLD", "MEX")]);
    c
}

fn pool_state(fee: u64) -> FlashLoanModule {
    FlashLoanModule {
        first_token_id: bytes("WEGLD"),
        second_token_id: bytes("MEX"),
        first_token_reserve: amt(1000),
        second_token_reserve: amt(2000),
        lp_token_supply: amt(500),
        flash_loan_sc: Some(bytes("fastloan")),
        flashloan_fees_percent: fee,
        borrowed_tokens: Vec::new(),
    }
}

#[test]
fn fee_of_one_percent_on_a_hundred() {
    // a user borrowing 100 with a 1 % fee gives back 101
    let fees = FeesModule { fees_percentage: 100 };
    assert_eq!(fees.add_fee_amount(amt(100)), amt(101));
    assert_eq!(fees.add_fee_amount(amt(1000)), amt(1010));
    assert_eq!(fees.add_fee_amount(amt(10)), amt(10));
    assert_eq!(fees.add_fee_amount(amt(0)), amt(0));
    assert_eq!(MAX_PERCENTAGE, 10_000);
}

#[test]
fn fee_formula_rounds_down() {
    assert_eq!(amount_plus_fee(&amt(12345), 250), amt(12345 + 12345 * 250 / 10000));
    assert_eq!(amount_plus_fee(&amt(99), 101), amt(99));
    assert_eq!(amount_plus_fee(&amt(10000), 10000), amt(20000));
}

#[test]
fn no_fee_owes_the_amount() {
    let fees = FeesModule { fees_percentage: 0 };
    assert_eq!(fees.add_fee_amount(amt(123456789)), amt(123456789));
}

#[test]
fn fees_on_amounts_beyond_128_bits() {
    let max = amt(u128::MAX);
    let twice = max.add(&max);
    assert_eq!(twice.to_bytes_be().len(), 17);
    assert_eq!(FeesModule { fees_percentage: 10_000 }.add_fee_amount(max.clone()), twice);
    let pool = pool_state(10_000);
    assert_eq!(pool.add_fee_amount(max.clone()), twice);
    assert_eq!(pool.add_fee_amount(amt(7)), amt(14));
    // a fee of u64::MAX hundredths of a percent on u128::MAX / 2
    let half = amt(u128::MAX / 2);
    let expected = half.add(&half.mul_small(u64::MAX).div_small(10_000));
    assert_eq!(FeesModule { fees_percentage: u64::MAX }.add_fee_amount(half.clone()), expected);
    assert!(expected.to_bytes_be().len() > 16);
}

#[test]
fn amounts_compute_as_numbers() {
    assert_eq!(amt(0).to_bytes_be(), Vec::<u8>::new());
    assert_eq!(amt(258).to_bytes_be(), vec![1, 2]);
    assert_eq!(Amount::from_bytes_be(&vec![0, 0, 1, 2]), amt(258));
    assert_eq!(amt(1000).add(&amt(24)), amt(1024));
    assert_eq!(amt(1000).checked_sub(&amt(24)), Some(amt(976)));
    assert_eq!(amt(24).checked_sub(&amt(1000)), None);
    assert_eq!(amt(256).checked_sub(&amt(1)), Some(amt(255)));
    assert!(amt(5).le(&amt(5)) && amt(5).le(&amt(6)) && !amt(6).le(&amt(5)));
    assert!(amt(0).is_zero() && !amt(1).is_zero());
    assert_eq!(amt(123456789).mul_small(1000), amt(123456789000));
    assert_eq!(amt(123456789).div_small(1000), amt(123456));
    let max = amt(u128::MAX);
    assert_eq!(max.add(&amt(1)).checked_sub(&max), Some(amt(1)));
    assert_eq!(max.mul_small(256).div_small(256), max);
}

#[test]
fn action_keys_count_up() {
    let mut s = StorageModule::new();
    assert_eq!(s.get_or_create_action_key(), Ok(1));
    assert_eq!(s.get_or_create_action_key(), Ok(2));
    assert_eq!(s.get_or_create_action_key(), Ok(3));
    s.action_key = Some(u64::MAX);
    assert_eq!(s.get_or_create_action_key(), Err(FastLoanError::ActionKeyOverflow));
    assert_eq!(s.action_key, Some(u64::MAX));
}

#[test]
fn setup_is_read_back() {
    let mut c = FastLoanContract::new();
    c.owner_setup_pool_addresses_pairs(vec![
        pool_setup(Exchange::Ashswap, "a", "X", "Y"),
        pool_setup(Exchange::Ashswap, "b", "X", "Z"),
    ]);
    assert_eq!(c.storage.get_token_exchange(Exchange::Ashswap, &bytes("X")), Some(bytes("b")));
    assert_eq!(c.storage.get_token_exchange(Exchange::Ashswap, &bytes("Y")), Some(bytes("a")));
    assert_eq!(c.storage.get_token_exchange(Exchange::Jexchange, &bytes("X")), None);
    assert_eq!(c.get_contract_address_for_action(Exchange::Ashswap, &bytes("X"), &bytes("Y")), Ok(bytes("a")));
    assert_eq!(c.get_contract_address_for_action(Exchange::Ashswap, &bytes("Y"), &bytes("X")), Ok(bytes("a")));
    assert_eq!(c.get_contract_address_for_action(Exchange::Ashswap, &bytes("Z"), &bytes("X")), Ok(bytes("b")));
    assert_eq!(
        c.get_contract_address_for_action(Exchange::Ashswap, &bytes("Y"), &bytes("Z")),
        Err(FastLoanError::SwapPairUnavailable)
    );
    // a later setup replaces an earlier one
    c.owner_setup_pool_addresses_pairs(vec![pool_setup(Exchange::Ashswap, "c", "X", "Y")]);
    assert_eq!(c.get_contract_address_for_action(Exchange::Ashswap, &bytes("Y"), &bytes("X")), Ok(bytes("c")));
}

#[test]
fn borrow_records_the_request() {
    let mut c = contract_with_pool(100);
    let borrows = vec![Borrow { token: bytes("MEX"), amount: amt(5) }, Borrow { token: bytes("WEGLD"), amount: amt(7) }];
    let actions = vec![UserAction {
        exchange: Exchange::Jexchange,
        first_token: bytes("MEX"),
        second_token: bytes("WEGLD"),
        amount_swap: amt(5),
    }];
    let call = c.borrow(borrows.clone(), actions.clone(), bytes("user")).unwrap();
    assert_eq!(
        call,
        PairProxyModule::BorrowLiquidity { address: bytes("pool"), payment: pay("MEX", 5), action_key: 1 }
    );
    let r = c.storage.get_record(1);
    assert_eq!(r.borrows, borrows);
    assert_eq!(r.user_actions, actions);
    assert_eq!(r.original_caller, bytes("user"));
    assert_eq!(r.length_borrows, (2, 0));
    assert_eq!(c.storage.action_key, Some(1));
}

#[test]
fn refused_borrow_changes_nothing() {
    let mut c = contract_with_pool(100);
    let before = contract_with_pool(100);
    assert_eq!(c.borrow(vec![], vec![], bytes("user")), Err(FastLoanError::NoBorrowAsked));
    assert_eq!(c, before);
    assert_eq!(
        c.borrow(vec![Borrow { token: bytes("ASH"), amount: amt(1) }], vec![], bytes("user")),
        Err(FastLoanError::CouldNotExecuteAllBorrows)
    );
    assert_eq!(c, before);
}

#[test]
fn deposits_follow_the_borrows() {
    let mut c = contract_with_pool(100);
    c.borrow(
        vec![Borrow { token: bytes("MEX"), amount: amt(500) }, Borrow { token: bytes("WEGLD"), amount: amt(700) }],
        vec![],
        bytes("user"),
    )
    .unwrap();
    // a deposit that matches no borrow is refused and changes nothing
    let snapshot = c.storage.get_record(1);
    assert_eq!(c.deposit_loan(1, pay("MEX", 499), bytes("pool")), Err(FastLoanError::PaymentDoesNotCorrespond));
    assert_eq!(c.storage.get_record(1), snapshot);
    // the first deposit asks for the next borrow
    let next = c.deposit_loan(1, pay("MEX", 500), bytes("pool")).unwrap();
    assert_eq!(
        next,
        DepositOutcome::NextBorrow(PairProxyModule::BorrowLiquidity {
            address: bytes("pool"),
            payment: pay("WEGLD", 700),
            action_key: 1,
        })
    );
    assert_eq!(c.storage.get_record(1).borrows, vec![Borrow { token: bytes("WEGLD"), amount: amt(700) }]);
    // the last one ends the deposits
    assert_eq!(c.deposit_loan(1, pay("WEGLD", 700), bytes("pool")), Ok(DepositOutcome::AllDeposited));
    let r = c.storage.get_record(1);
    assert_eq!(r.deposits, vec![pay("MEX", 500), pay("WEGLD", 700)]);
    assert_eq!(
        r.deposits_per_address,
        vec![AddressDeposits { address: bytes("pool"), payments: vec![pay("MEX", 505), pay("WEGLD", 707)] }]
    );
}

#[test]
fn deposit_from_a_pool_of_another_token_is_refused() {
    let mut c = contract_with_pool(0);
    c.owner_setup_pool_addresses_pairs(vec![pool_setup(Exchange::Xexchange, "other", "ASH", "USDC")]);
    c.borrow(vec![Borrow { token: bytes("ASH"), amount: amt(3) }], vec![], bytes("user")).unwrap();
    assert_eq!(c.deposit_loan(1, pay("ASH", 3), bytes("pool")), Err(FastLoanError::CallerAddressNotDefined));
    assert_eq!(c.deposit_loan(1, pay("ASH", 3), bytes("other")), Ok(DepositOutcome::AllDeposited));
}

#[test]
fn save_deposits_per_address_keeps_one_list_per_pool() {
    let mut c = FastLoanContract::new();
    c.save_address_deposit_tokens(4, bytes("p1"), pay("A", 1));
    c.save_address_deposit_tokens(4, bytes("p2"), pay("B", 2));
    c.save_address_deposit_tokens(4, bytes("p1"), pay("C", 3));
    c.save_deposit_tokens(4, pay("A", 1));
    let r = c.storage.get_record(4);
    assert_eq!(
        r.deposits_per_address,
        vec![
            AddressDeposits { address: bytes("p1"), payments: vec![pay("A", 1), pay("C", 3)] },
            AddressDeposits { address: bytes("p2"), payments: vec![pay("B", 2)] },
        ]
    );
    assert_eq!(r.deposits, vec![pay("A", 1)]);
    assert_eq!(c.storage.get_record(5), ActionRecord::empty(5));
    let calls = c.send_back_to_pools(4);
    assert_eq!(calls.len(), 2);
}

fn contract_with_deposits(fee: u64, deposits: Vec<EsdtTokenPayment>) -> FastLoanContract {
    let mut c = FastLoanContract::new();
    c.init(fee);
    for d in deposits {
        c.save_deposit_tokens(9, d);
    }
    c
}

#[test]
fn check_result_gives_back_the_surplus() {
    let c = contract_with_deposits(100, vec![pay("A", 1000), pay("B", 200)]);
    let give_back = c
        .check_actions_result_is_enough(9, &vec![pay("A", 1500), pay("B", 202), pay("C", 7), pay("D", 0)])
        .unwrap();
    assert_eq!(give_back, vec![pay("A", 490), pay("C", 7)]);
}

#[test]
fn check_result_refuses_a_short_balance() {
    let c = contract_with_deposits(100, vec![pay("A", 1000)]);
    assert_eq!(
        c.check_actions_result_is_enough(9, &vec![pay("A", 1009)]),
        Err(FastLoanError::NotEntirelyGivenBack)
    );
    assert_eq!(c.check_actions_result_is_enough(9, &vec![pay("A", 1010)]), Ok(vec![]));
}

#[test]
fn check_result_weighs_each_token_as_a_whole() {
    // two deposits of one token: their total, with fees, is weighed against
    // the total held of the token
    let c = contract_with_deposits(0, vec![pay("A", 10), pay("A", 30)]);
    assert_eq!(c.check_actions_result_is_enough(9, &vec![pay("A", 40)]), Ok(vec![]));
    assert_eq!(c.check_actions_result_is_enough(9, &vec![pay("A", 50)]), Ok(vec![pay("A", 10)]));
    assert_eq!(c.check_actions_result_is_enough(9, &vec![pay("A", 20)]), Err(FastLoanError::NotEntirelyGivenBack));
    assert_eq!(c.check_actions_result_is_enough(9, &vec![pay("A", 39)]), Err(FastLoanError::NotEntirelyGivenBack));
    // two balances of one token count together, and it is given back once
    assert_eq!(c.check_actions_result_is_enough(9, &vec![pay("A", 25), pay("A", 25)]), Ok(vec![pay("A", 10)]));
}

#[test]
fn settlement_accounts_for_each_token() {
    // owed for A: 1000 + 10 and 2000 + 20; held of A: 2000 + 1500
    let c = contract_with_deposits(100, vec![pay("A", 1000), pay("A", 2000), pay("B", 50)]);
    let give_back = c
        .check_actions_result_is_enough(9, &vec![pay("A", 2000), pay("B", 50), pay("A", 1500)])
        .unwrap();
    assert_eq!(give_back, vec![pay("A", 470)]);
    assert_eq!(470 + 1010 + 2020, 2000 + 1500);
}

#[test]
fn settlement_hands_out_what_is_held_of_a_token_borrowed_twice() {
    let mut c = contract_with_pool(100);
    c.borrow(
        vec![Borrow { token: bytes("WEGLD"), amount: amt(1000) }, Borrow { token: bytes("WEGLD"), amount: amt(2000) }],
        vec![],
        bytes("user"),
    )
    .unwrap();
    c.deposit_loan(1, pay("WEGLD", 1000), bytes("pool")).unwrap();
    c.deposit_loan(1, pay("WEGLD", 2000), bytes("pool")).unwrap();
    let repayment = c.check_and_repay(&vec![pay("WEGLD", 3500)], 1).unwrap();
    assert_eq!(repayment.give_back, vec![pay("WEGLD", 470)]);
    assert_eq!(
        repayment.pool_repayments,
        vec![PairProxyModule::Repay {
            address: bytes("pool"),
            action_key: 1,
            payments: vec![pay("WEGLD", 1010), pay("WEGLD", 2020)],
        }]
    );
    // 470 to the borrower and 1010 + 2020 to the pool: the 3500 held
    assert_eq!(470 + 1010 + 2020, 3500);
    assert_eq!(c.check_and_repay(&vec![pay("WEGLD", 3029)], 1), Err(FastLoanError::NotEntirelyGivenBack));
}

#[test]
fn check_result_refuses_a_token_borrowed_twice_and_given_back_short() {
    let c = contract_with_deposits(0, vec![pay("WEGLD", 100), pay("WEGLD", 100)]);
    assert_eq!(
        c.check_actions_result_is_enough(9, &vec![pay("WEGLD", 150)]),
        Err(FastLoanError::NotEntirelyGivenBack)
    );
}

#[test]
fn check_result_refuses_a_borrowed_token_not_held() {
    let c = contract_with_deposits(0, vec![pay("A", 10)]);
    assert_eq!(c.check_actions_result_is_enough(9, &vec![pay("B", 5)]), Err(FastLoanError::NotEntirelyGivenBack));
    let empty = contract_with_deposits(0, vec![pay("A", 0)]);
    assert_eq!(empty.check_actions_result_is_enough(9, &vec![]), Ok(vec![]));
}

#[test]
fn check_result_sums_totals_beyond_128_bits() {
    let c = contract_with_deposits(0, vec![pay("A", 1)]);
    let expected = amt(u128::MAX);
    assert_eq!(
        c.check_actions_result_is_enough(9, &vec![pay("A", u128::MAX), pay("A", 1)]),
        Ok(vec![EsdtTokenPayment { token_identifier: bytes("A"), token_nonce: 0, amount: expected }])
    );
    // each balance of a token that was not borrowed goes back as it is
    let d = contract_with_deposits(0, vec![]);
    assert_eq!(
        d.check_actions_result_is_enough(9, &vec![pay("B", u128::MAX), pay("B", u128::MAX)]),
        Ok(vec![pay("B", u128::MAX), pay("B", u128::MAX)])
    );
}

#[test]
fn check_result_gives_back_each_balance_of_a_token_not_borrowed() {
    let c = contract_with_deposits(0, vec![pay("A", 10)]);
    let mut nft = pay("C", 4);
    nft.token_nonce = 7;
    assert_eq!(
        c.check_actions_result_is_enough(9, &vec![pay("C", 3), pay("A", 12), nft.clone(), pay("C", 0)]),
        Ok(vec![pay("C", 3), pay("A", 2), nft])
    );
}

#[test]
fn check_and_repay_settles_the_loan() {
    let mut c = contract_with_pool(100);
    c.borrow(vec![Borrow { token: bytes("WEGLD"), amount: amt(1000) }], vec![], bytes("user")).unwrap();
    c.deposit_loan(1, pay("WEGLD", 1000), bytes("pool")).unwrap();
    let repayment = c.check_and_repay(&vec![pay("WEGLD", 1500)], 1).unwrap();
    assert_eq!(repayment.receiver, bytes("user"));
    assert_eq!(repayment.give_back, vec![pay("WEGLD", 490)]);
    assert_eq!(
        repayment.pool_repayments,
        vec![PairProxyModule::Repay { address: bytes("pool"), action_key: 1, payments: vec![pay("WEGLD", 1010)] }]
    );
    assert_eq!(c.check_and_repay(&vec![pay("WEGLD", 5)], 1), Err(FastLoanError::NotEntirelyGivenBack));
}

fn contract_with_actions(actions: Vec<UserAction>) -> FastLoanContract {
    let mut c = contract_with_pool(0);
    c.owner_setup_pool_addresses_pairs(vec![pool_setup(Exchange::Jexchange, "jex", "WEGLD", "MEX")]);
    c.borrow(vec![Borrow { token: bytes("WEGLD"), amount: amt(100) }], actions, bytes("user")).unwrap();
    c.deposit_loan(1, pay("WEGLD", 100), bytes("pool")).unwrap();
    c
}

#[test]
fn swaps_follow_the_balances() {
    let c = contract_with_actions(vec![
        UserAction { exchange: Exchange::Jexchange, first_token: bytes("WEGLD"), second_token: bytes("MEX"), amount_swap: amt(60) },
        UserAction { exchange: Exchange::Jexchange, first_token: bytes("MEX"), second_token: bytes("WEGLD"), amount_swap: amt(50) },
    ]);
    let mut run = c.start_following_balances(1);
    assert_eq!(run, FollowedBalances { action_key: 1, next_action: 0, balances: vec![pay("WEGLD", 100)] });
    let swap = c.next_swap(&run).unwrap().unwrap();
    assert_eq!(
        swap,
        PairProxyModule::SwapTokensFixedInput {
            address: bytes("jex"),
            payment: pay("WEGLD", 60),
            token_out: bytes("MEX"),
            amount_out_min: amt(1),
        }
    );
    c.follow_swap_result(&mut run, pay("MEX", 55)).unwrap();
    assert_eq!(run.balances, vec![pay("WEGLD", 40), pay("MEX", 55)]);
    c.next_swap(&run).unwrap().unwrap();
    c.follow_swap_result(&mut run, pay("WEGLD", 70)).unwrap();
    assert_eq!(run.balances, vec![pay("WEGLD", 110), pay("MEX", 5)]);
    assert_eq!(run.next_action, 2);
    assert_eq!(c.next_swap(&run), Ok(None));
}

#[test]
fn swapping_more_than_followed_is_refused() {
    let c = contract_with_actions(vec![UserAction {
        exchange: Exchange::Jexchange,
        first_token: bytes("WEGLD"),
        second_token: bytes("MEX"),
        amount_swap: amt(101),
    }]);
    let mut run = c.start_following_balances(1);
    let before = FollowedBalances { action_key: 1, next_action: 0, balances: vec![pay("WEGLD", 100)] };
    assert_eq!(c.follow_swap_result(&mut run, pay("MEX", 90)), Err(FastLoanError::BalanceBelowSwapAmount));
    assert_eq!(run, before);
}

#[test]
fn followed_balance_grows_beyond_128_bits() {
    let c = contract_with_actions(vec![UserAction {
        exchange: Exchange::Jexchange,
        first_token: bytes("MEX"),
        second_token: bytes("WEGLD"),
        amount_swap: amt(0),
    }]);
    let mut run = c.start_following_balances(1);
    c.follow_swap_result(&mut run, pay("WEGLD", u128::MAX)).unwrap();
    assert_eq!(run.balances, vec![EsdtTokenPayment {
        token_identifier: bytes("WEGLD"),
        token_nonce: 0,
        amount: amt(u128::MAX).add(&amt(100)),
    }]);
}

#[test]
fn swapping_in_the_lending_pool_is_refused() {
    let c = contract_with_actions(vec![UserAction {
        exchange: Exchange::Xexchange,
        first_token: bytes("MEX"),
        second_token: bytes("WEGLD"),
        amount_swap: amt(1),
    }]);
    let run = c.start_following_balances(1);
    assert_eq!(c.next_swap(&run), Err(FastLoanError::SwapInBorrowedPool));
}

#[test]
fn borrow_liquidity_context_starts_empty() {
    let c = BorrowLiquidityContext::new(pay("WEGLD", 12), true);
    assert_eq!(c.payment, pay("WEGLD", 12));
    assert_eq!(c.token_amount_removed, amt(0));
    assert!(c.is_first_token);
}

#[test]
fn pool_records_what_it_lends() {
    let mut pool = pool_state(100);
    let call = pool.call_deposit_loan(bytes("fastloan"), pay("WEGLD", 10), 3);
    assert_eq!(
        call,
        FlashLoanContract::DepositLoan { address: bytes("fastloan"), action_key: 3, payment: pay("WEGLD", 10) }
    );
    pool.call_deposit_loan(bytes("fastloan"), pay("MEX", 20), 3);
    pool.call_deposit_loan(bytes("fastloan"), pay("MEX", 1), 4);
    assert_eq!(pool.get_borrowed_tokens(3), vec![pay("WEGLD", 10), pay("MEX", 20)]);
    assert_eq!(pool.get_borrowed_tokens(4), vec![pay("MEX", 1)]);
    assert_eq!(pool.get_borrowed_tokens(5), vec![]);
    assert_eq!(
        pool.borrowed_tokens,
        vec![
            BorrowedTokens { action_key: 3, payments: vec![pay("WEGLD", 10), pay("MEX", 20)] },
            BorrowedTokens { action_key: 4, payments: vec![pay("MEX", 1)] },
        ]
    );
}

#[test]
fn pool_takes_back_its_loans_with_the_fee() {
    let mut pool = pool_state(100);
    pool.call_deposit_loan(bytes("fastloan"), pay("WEGLD", 1000), 3);
    pool.call_deposit_loan(bytes("fastloan"), pay("MEX", 500), 3);
    pool.first_token_reserve = amt(0);
    pool.second_token_reserve = amt(1500);
    let fees = pool.repay(3, &bytes("fastloan"), &vec![pay("MEX", 505), pay("WEGLD", 1010)]).unwrap();
    assert_eq!(fees, vec![pay("WEGLD", 10), pay("MEX", 5)]);
    assert_eq!(pool.first_token_reserve, amt(1000));
    assert_eq!(pool.second_token_reserve, amt(2000));
    assert_eq!(pool.finish_call_deposit_loan(true, amt(1000), amt(500)), Ok(()));
}

#[test]
fn pool_refuses_wrong_repayments() {
    let mut pool = pool_state(100);
    pool.call_deposit_loan(bytes("fastloan"), pay("WEGLD", 1000), 3);
    let before = pool_state(100);
    let fl = bytes("fastloan");
    assert_eq!(pool.repay(3, &fl, &vec![pay("WEGLD", 1009)]), Err(PoolError::NotEntirelyGivenBack));
    assert_eq!(pool.repay(3, &fl, &vec![pay("WEGLD", 1011)]), Err(PoolError::TooMuchTokensGivenBack));
    assert_eq!(pool.repay(3, &fl, &vec![pay("MEX", 1010)]), Err(PoolError::OneBorrowNotGivenBack));
    assert_eq!(pool.first_token_reserve, before.first_token_reserve);
    assert_eq!(pool.repay(4, &fl, &vec![]), Ok(vec![]));
    let mut unset = pool_state(100);
    unset.flash_loan_sc = None;
    assert_eq!(unset.repay(3, &fl, &vec![]), Err(PoolError::NoFlashLoanScSet));
    assert_eq!(unset.check_loan_caller_and_return(&fl), Err(PoolError::NoFlashLoanScSet));
    assert_eq!(pool.check_loan_caller_and_return(&fl), Ok(bytes("fastloan")));
}

#[test]
fn pool_checks_its_liquidity_after_the_loan() {
    let pool = pool_state(0);
    assert_eq!(pool.finish_call_deposit_loan(true, amt(999), amt(500)), Err(PoolError::LiquidityIncorrect));
    assert_eq!(pool.finish_call_deposit_loan(false, amt(2000), amt(500)), Ok(()));
    assert_eq!(pool.finish_call_deposit_loan(false, amt(2000), amt(501)), Err(PoolError::LpSupplyIncorrect));
}

#[test]
fn pool_refuses_two_loans_of_one_token() {
    // two loans of one token each meet both payments of that token
    let mut pool = pool_state(0);
    pool.call_deposit_loan(bytes("fastloan"), pay("WEGLD", 100), 3);
    pool.call_deposit_loan(bytes("fastloan"), pay("WEGLD", 50), 3);
    let r = pool.repay(3, &bytes("fastloan"), &vec![pay("WEGLD", 100), pay("WEGLD", 50)]);
    assert_eq!(r, Err(PoolError::NotEntirelyGivenBack));
}

#[test]
fn repayment_is_accepted_by_the_lending_pool() {
    let mut c = contract_with_pool(100);
    let mut pool = pool_state(100);
    c.borrow(vec![Borrow { token: bytes("WEGLD"), amount: amt(400) }], vec![], bytes("user")).unwrap();
    pool.call_deposit_loan(bytes("fastloan"), pay("WEGLD", 400), 1);
    pool.first_token_reserve = amt(600);
    c.deposit_loan(1, pay("WEGLD", 400), bytes("pool")).unwrap();
    let repayment = c.check_and_repay(&vec![pay("WEGLD", 404)], 1).unwrap();
    assert!(repayment.give_back.is_empty());
    for call in repayment.pool_repayments {
        if let PairProxyModule::Repay { action_key, payments, .. } = call {
            assert_eq!(pool.repay(action_key, &bytes("fastloan"), &payments), Ok(vec![pay("WEGLD", 4)]));
        }
    }
    assert_eq!(pool.first_token_reserve, amt(1000));
}
