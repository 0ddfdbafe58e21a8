//! Properties of the library as a whole, proved from the contracts of its functions.
use vstd::prelude::*;
use crate::actions::{contract_address_for_action, follow_balance, follow_entries, follow_entry, follows_token, lent_under, swap_call};
use crate::contract::{borrow_liquidity_call, borrow_record, deposit_loan_result, first_matching_borrow, DepositOutcomeView, FastLoanView};
use crate::deposit::{add_address_deposit, record_with_address_deposit, record_with_deposit};
use crate::errors::{FastLoanError, PoolError};
use crate::fees::amount_with_fee;
use crate::flashloan::{repay_borrows, repay_payment_step, repay_payments, FlashLoanModule, RepayProgress};
use crate::keyed::{latest, latest_index, lemma_latest_index, lemma_latest_index_is_latest, lemma_latest_push, lemma_latest_update};
use crate::proxy::PairCallView;
use crate::repay::{first_of_its_token, give_back_to_user, give_back_upto, owed_for, repay_calls, settle_token, unheld_deposit};
use crate::setup::{setup_pair_entries, setup_token_entries};
use crate::storage::{
    address_key, token_exchange_key, token_pair_key, ActionRecordView, AddressDepositsView, StorageView, TokenExchangeView, TokenPairEntryView,
};
use crate::types::{holds_token, lemma_total_of_absent, lemma_total_of_concat, lemma_total_of_prefix, total_of, BorrowView, Exchange, PaymentView, SwapContractAddressView, UserActionView};

verus! {

/// Nothing is owed for a token whose deposits are all of amount 0.
proof fn lemma_owed_for_zero(deposits: Seq<PaymentView>, token: Seq<u8>, fee: u64)
    requires
        forall|j: int| 0 <= j < deposits.len() && #[trigger] deposits[j].token_identifier == token ==> deposits[j].amount == 0,
    ensures
        owed_for(deposits, token, fee) == 0,
    decreases deposits.len(),
{
    if deposits.len() > 0 {
        let d = deposits.drop_last();
        assert forall|j: int| 0 <= j < d.len() && #[trigger] d[j].token_identifier == token implies d[j].amount == 0 by {
            assert(deposits[j] == d[j]);
        }
        lemma_owed_for_zero(d, token, fee);
        assert(deposits[deposits.len() - 1] == deposits.last());
        assert(amount_with_fee(0, fee as int) == 0);
    }
}

/// The first `k + 1` payments hold a token when the first `k` do or the next
/// one is of it.
proof fn lemma_holds_token_take(s: Seq<PaymentView>, token: Seq<u8>, k: int)
    requires
        0 <= k < s.len(),
    ensures
        holds_token(s.take(k + 1), token) <==> holds_token(s.take(k), token) || s[k].token_identifier == token,
{
    if holds_token(s.take(k + 1), token) {
        let i = choose|i: int| 0 <= i < k + 1 && #[trigger] s.take(k + 1)[i].token_identifier == token;
        if i < k {
            assert(s.take(k)[i].token_identifier == token);
        }
    }
    if holds_token(s.take(k), token) {
        let i = choose|i: int| 0 <= i < k && #[trigger] s.take(k)[i].token_identifier == token;
        assert(s.take(k + 1)[i].token_identifier == token);
    }
    if s[k].token_identifier == token {
        assert(s.take(k + 1)[k].token_identifier == token);
    }
}

/// The total of `token` in one payment.
proof fn lemma_total_of_single(p: PaymentView, token: Seq<u8>)
    ensures
        total_of(seq![p], token) == if p.token_identifier == token { p.amount as int } else { 0 },
{
    let s = seq![p];
    assert(s.drop_last() =~= Seq::<PaymentView>::empty());
    assert(s.last() == p);
    assert(total_of(Seq::<PaymentView>::empty(), token) == 0);
    assert(total_of(s, token) == total_of(s.drop_last(), token) + if p.token_identifier == token { p.amount as int } else { 0 });
}

/// What settling a borrowed token gives back of `token`: nothing for
/// another token, and for its own token the total held less what is owed.
proof fn lemma_settle_token_total(balances: Seq<PaymentView>, deposits: Seq<PaymentView>, fee: u64, t: Seq<u8>, token: Seq<u8>)
    requires
        settle_token(balances, deposits, fee, t) is Ok,
    ensures
        total_of(settle_token(balances, deposits, fee, t)->Ok_0, token) == if t == token {
            total_of(balances, token) - owed_for(deposits, token, fee)
        } else {
            0
        },
{
    let held = total_of(balances, t);
    let owed = owed_for(deposits, t, fee);
    assert(total_of(Seq::<PaymentView>::empty(), token) == 0);
    crate::repay::lemma_owed_for_nonneg(deposits, t, fee);
    crate::types::lemma_total_of_nonneg(balances, t);
    if owed < held {
        lemma_total_of_single(PaymentView { token_identifier: t, token_nonce: 0, amount: (held - owed) as nat }, token);
    }
}

/// What the first `k` balances give back of a token: of a token that was
/// not borrowed, the total of its balances among them; of a borrowed token,
/// once one of its balances has been met, its total held less what is owed
/// for it, and before, nothing.
proof fn lemma_give_back_upto_total(balances: Seq<PaymentView>, deposits: Seq<PaymentView>, fee: u64, k: int, token: Seq<u8>)
    requires
        0 <= k <= balances.len(),
        give_back_upto(balances, deposits, fee, k) is Ok,
    ensures
        total_of(give_back_upto(balances, deposits, fee, k)->Ok_0, token) == if !holds_token(deposits, token) {
            total_of(balances.take(k), token)
        } else if holds_token(balances.take(k), token) {
            total_of(balances, token) - owed_for(deposits, token, fee)
        } else {
            0
        },
    decreases k,
{
    if k == 0 {
        assert(!holds_token(balances.take(0), token));
        assert(total_of(balances.take(0), token) == 0);
    } else {
        lemma_give_back_upto_total(balances, deposits, fee, k - 1, token);
        lemma_holds_token_take(balances, token, k - 1);
        lemma_total_of_push(balances.take(k - 1), balances[k - 1], token);
        assert(balances.take(k - 1).push(balances[k - 1]) =~= balances.take(k));
        let g = give_back_upto(balances, deposits, fee, k - 1)->Ok_0;
        let b = balances[k - 1];
        if !holds_token(deposits, b.token_identifier) {
            lemma_total_of_push(g, b, token);
            if b.token_identifier == token {
                assert(!holds_token(deposits, token));
            }
        } else if first_of_its_token(balances, k - 1) {
            let x = settle_token(balances, deposits, fee, b.token_identifier)->Ok_0;
            lemma_total_of_concat(g, x, token);
            lemma_settle_token_total(balances, deposits, fee, b.token_identifier, token);
            if b.token_identifier == token && holds_token(balances.take(k - 1), token) {
                let i = choose|i: int| 0 <= i < k - 1 && #[trigger] balances.take(k - 1)[i].token_identifier == token;
                assert(balances[i].token_identifier == balances[k - 1].token_identifier);
            }
        } else if b.token_identifier == token {
            let j = choose|j: int| 0 <= j < k - 1 && !(#[trigger] balances[j].token_identifier != balances[k - 1].token_identifier);
            assert(balances.take(k - 1)[j].token_identifier == token);
        }
    }
}

/// Settling accounts for every token: when it succeeds, what goes back to
/// the borrower of a token, together with what is owed for it (each deposit
/// of the token with its fee), is exactly the balance held of it. The
/// borrower never takes back what a pool is owed, however often a token was
/// borrowed.
pub proof fn lemma_settlement_conserves_each_token(balances: Seq<PaymentView>, deposits: Seq<PaymentView>, fee: u64, token: Seq<u8>)
    requires
        give_back_to_user(balances, deposits, fee) is Ok,
    ensures
        total_of(give_back_to_user(balances, deposits, fee)->Ok_0, token) + owed_for(deposits, token, fee)
            == total_of(balances, token),
{
    let n = balances.len() as int;
    lemma_give_back_upto_total(balances, deposits, fee, n, token);
    assert(balances.take(n) =~= balances);
    if !holds_token(deposits, token) {
        assert forall|j: int| 0 <= j < deposits.len() && #[trigger] deposits[j].token_identifier == token implies deposits[j].amount == 0 by {
        }
        lemma_owed_for_zero(deposits, token, fee);
    } else if !holds_token(balances, token) {
        lemma_total_of_absent(balances, token);
        assert forall|j: int| 0 <= j < deposits.len() && #[trigger] deposits[j].token_identifier == token implies deposits[j].amount == 0 by {
            if deposits[j].amount > 0 {
                assert(!unheld_deposit(balances, deposits));
            }
        }
        lemma_owed_for_zero(deposits, token, fee);
    }
}

/// The balances cover what is owed: for each borrowed token, the total held
/// covers all its deposits, each with its fee.
pub open spec fn balances_cover_deposits(balances: Seq<PaymentView>, deposits: Seq<PaymentView>, fee: u64) -> bool {
    forall|j: int| 0 <= j < deposits.len()
        ==> owed_for(deposits, #[trigger] deposits[j].token_identifier, fee) <= total_of(balances, deposits[j].token_identifier)
}

/// A token held among the first `k` payments has a first payment there.
proof fn lemma_first_of_token_exists(s: Seq<PaymentView>, token: Seq<u8>, k: int)
    requires
        0 <= k <= s.len(),
        holds_token(s.take(k), token),
    ensures
        exists|i: int| 0 <= i < k && s[i].token_identifier == token && #[trigger] first_of_its_token(s, i),
    decreases k,
{
    if k == 0 {
        let i = choose|i: int| 0 <= i < k && #[trigger] s.take(k)[i].token_identifier == token;
    } else {
        lemma_holds_token_take(s, token, k - 1);
        if holds_token(s.take(k - 1), token) {
            lemma_first_of_token_exists(s, token, k - 1);
        } else {
            assert forall|j: int| 0 <= j < k - 1 implies #[trigger] s[j].token_identifier != s[k - 1].token_identifier by {
                if s[j].token_identifier == token {
                    assert(s.take(k - 1)[j].token_identifier == token);
                }
            }
            assert(first_of_its_token(s, k - 1));
        }
    }
}

/// Where settling the first `k` balances succeeds, each token met there
/// was settled without refusal.
proof fn lemma_give_back_ok_settles(balances: Seq<PaymentView>, deposits: Seq<PaymentView>, fee: u64, k: int, i: int)
    requires
        0 <= i < k <= balances.len(),
        give_back_upto(balances, deposits, fee, k) is Ok,
        first_of_its_token(balances, i),
        holds_token(deposits, balances[i].token_identifier),
    ensures
        settle_token(balances, deposits, fee, balances[i].token_identifier) is Ok,
{
    if give_back_upto(balances, deposits, fee, i) is Err {
        crate::repay::lemma_give_back_err(balances, deposits, fee, i, k, give_back_upto(balances, deposits, fee, i)->Err_0);
    } else if settle_token(balances, deposits, fee, balances[i].token_identifier) is Err {
        crate::repay::lemma_give_back_err(balances, deposits, fee, i + 1, k,
            settle_token(balances, deposits, fee, balances[i].token_identifier)->Err_0);
    }
}

/// What is owed for a token is at least each of its deposits with the fee.
proof fn lemma_owed_for_at_least(deposits: Seq<PaymentView>, token: Seq<u8>, fee: u64, j: int)
    requires
        0 <= j < deposits.len(),
        deposits[j].token_identifier == token,
    ensures
        owed_for(deposits, token, fee) >= amount_with_fee(deposits[j].amount as int, fee as int),
{
    crate::repay::lemma_owed_for_prefix(deposits, token, fee, j + 1);
    let p = deposits.take(j + 1);
    assert(p.drop_last() =~= deposits.take(j));
    assert(p.last() == deposits[j]);
    crate::repay::lemma_owed_for_nonneg(deposits.take(j), token, fee);
}

/// Where the balances cover what is owed, settling the first `k` succeeds.
proof fn lemma_covered_upto_ok(balances: Seq<PaymentView>, deposits: Seq<PaymentView>, fee: u64, k: int)
    requires
        0 <= k <= balances.len(),
        balances_cover_deposits(balances, deposits, fee),
    ensures
        give_back_upto(balances, deposits, fee, k) is Ok,
    decreases k,
{
    if k > 0 {
        lemma_covered_upto_ok(balances, deposits, fee, k - 1);
        let t = balances[k - 1].token_identifier;
        if holds_token(deposits, t) {
            let j = choose|j: int| 0 <= j < deposits.len() && #[trigger] deposits[j].token_identifier == t;
            assert(owed_for(deposits, deposits[j].token_identifier, fee) <= total_of(balances, deposits[j].token_identifier));
        }
    }
}

/// Settling succeeds exactly when the balances cover what is owed: when,
/// for each borrowed token, the total held of it covers all its deposits
/// with their fees.
pub proof fn lemma_settlement_succeeds_iff_covered(balances: Seq<PaymentView>, deposits: Seq<PaymentView>, fee: u64)
    ensures
        give_back_to_user(balances, deposits, fee) is Ok <==> balances_cover_deposits(balances, deposits, fee),
{
    let n = balances.len() as int;
    assert(balances.take(n) =~= balances);
    if give_back_to_user(balances, deposits, fee) is Ok {
        assert forall|j: int| 0 <= j < deposits.len() implies
            owed_for(deposits, #[trigger] deposits[j].token_identifier, fee) <= total_of(balances, deposits[j].token_identifier) by {
            let t = deposits[j].token_identifier;
            if holds_token(balances, t) {
                let i = choose|i: int| 0 <= i < balances.len() && #[trigger] balances[i].token_identifier == t;
                assert(balances.take(n)[i].token_identifier == t);
                lemma_first_of_token_exists(balances, t, n);
                let i0 = choose|i0: int| 0 <= i0 < n && balances[i0].token_identifier == t && #[trigger] first_of_its_token(balances, i0);
                assert(deposits[j].token_identifier == t);
                assert(holds_token(deposits, t));
                lemma_give_back_ok_settles(balances, deposits, fee, n, i0);
            } else {
                lemma_total_of_absent(balances, t);
                assert forall|m: int| 0 <= m < deposits.len() && #[trigger] deposits[m].token_identifier == t implies deposits[m].amount == 0 by {
                    if deposits[m].amount > 0 {
                        assert(!unheld_deposit(balances, deposits));
                    }
                }
                lemma_owed_for_zero(deposits, t, fee);
            }
        }
    }
    if balances_cover_deposits(balances, deposits, fee) {
        lemma_covered_upto_ok(balances, deposits, fee, n);
        if unheld_deposit(balances, deposits) {
            let j = choose|j: int| 0 <= j < deposits.len() && #[trigger] deposits[j].amount > 0
                && !holds_token(balances, deposits[j].token_identifier);
            let t = deposits[j].token_identifier;
            lemma_total_of_absent(balances, t);
            lemma_owed_for_at_least(deposits, t, fee, j);
            lemma_owed_covers_amount(deposits[j].amount, fee);
            assert(owed_for(deposits, deposits[j].token_identifier, fee) <= total_of(balances, deposits[j].token_identifier));
        }
    }
}

/// The total of `token` that the repayment calls carry to the pools: the
/// sum, over the pools, of what is recorded for each.
pub open spec fn sent_to_pools(deposits: Seq<AddressDepositsView>, token: Seq<u8>) -> int
    decreases deposits.len(),
{
    if deposits.len() == 0 {
        0
    } else {
        sent_to_pools(deposits.drop_last(), token) + total_of(deposits.last().payments, token)
    }
}

/// What goes to the pools of each token is what is owed for it: each deposit
/// of the token with its fee.
pub open spec fn pools_owed_balanced(record: ActionRecordView, fee: u64) -> bool {
    forall|token: Seq<u8>| #[trigger] sent_to_pools(record.deposits_per_address, token) == owed_for(record.deposits, token, fee)
}

/// Appending a payment adds its amount to the total of its token.
proof fn lemma_total_of_push(s: Seq<PaymentView>, p: PaymentView, token: Seq<u8>)
    ensures
        total_of(s.push(p), token) == total_of(s, token) + if p.token_identifier == token { p.amount as int } else { 0 },
{
    assert(s.push(p).drop_last() =~= s);
}

/// Replacing what is recorded for one pool changes what goes to the pools by
/// the difference.
proof fn lemma_sent_to_pools_update(deposits: Seq<AddressDepositsView>, i: int, e: AddressDepositsView, token: Seq<u8>)
    requires
        0 <= i < deposits.len(),
    ensures
        sent_to_pools(deposits.update(i, e), token)
            == sent_to_pools(deposits, token) - total_of(deposits[i].payments, token) + total_of(e.payments, token),
    decreases deposits.len(),
{
    let u = deposits.update(i, e);
    if i == deposits.len() - 1 {
        assert(u.drop_last() =~= deposits.drop_last());
    } else {
        assert(u.drop_last() =~= deposits.drop_last().update(i, e));
        lemma_sent_to_pools_update(deposits.drop_last(), i, e, token);
    }
}

/// Adding a payment to what a pool deposited adds its amount to what goes
/// to the pools of its token.
proof fn lemma_sent_to_pools_add(deposits: Seq<AddressDepositsView>, address: Seq<u8>, payment: PaymentView, token: Seq<u8>)
    ensures
        sent_to_pools(add_address_deposit(deposits, address, payment), token)
            == sent_to_pools(deposits, token) + if payment.token_identifier == token { payment.amount as int } else { 0 },
{
    let i = latest_index(deposits, address_key(), address);
    lemma_latest_index_is_latest(deposits, address_key(), address);
    if i >= 0 {
        let e = AddressDepositsView { address, payments: deposits[i].payments.push(payment) };
        lemma_sent_to_pools_update(deposits, i, e, token);
        lemma_total_of_push(deposits[i].payments, payment, token);
    } else {
        let e = AddressDepositsView { address, payments: seq![payment] };
        assert(deposits.push(e).drop_last() =~= deposits);
        lemma_total_of_single(payment, token);
    }
}

/// Recording a deposit adds it, with its fee, to what is owed for its token.
proof fn lemma_owed_for_push(deposits: Seq<PaymentView>, p: PaymentView, token: Seq<u8>, fee: u64)
    ensures
        owed_for(deposits.push(p), token, fee) == owed_for(deposits, token, fee)
            + if p.token_identifier == token { amount_with_fee(p.amount as int, fee as int) } else { 0 },
{
    assert(deposits.push(p).drop_last() =~= deposits);
}

/// Each deposit keeps the pools paid exactly what is owed: where what goes
/// to the pools of each token was what is owed for it, it still is after a
/// deposit, which adds the payment to the deposits and the payment with its
/// fee to what goes back to the depositing pool.
pub proof fn lemma_deposit_keeps_pools_owed(v: FastLoanView, action_key: u64, payment: PaymentView, caller: Seq<u8>)
    requires
        deposit_loan_result(v, action_key, payment, caller) is Ok,
        pools_owed_balanced(v.storage.record(action_key), v.fees_percentage),
    ensures
        pools_owed_balanced(deposit_loan_result(v, action_key, payment, caller)->Ok_0.0, v.fees_percentage),
{
    let before = v.storage.record(action_key);
    let fee = v.fees_percentage;
    let record = deposit_loan_result(v, action_key, payment, caller)->Ok_0.0;
    let owed = amount_with_fee(payment.amount as int, fee as int);
    lemma_owed_covers_amount(payment.amount, fee);
    let with_fee = PaymentView { amount: owed as nat, ..payment };
    assert forall|token: Seq<u8>| #[trigger] sent_to_pools(record.deposits_per_address, token) == owed_for(record.deposits, token, fee) by {
        assert(sent_to_pools(before.deposits_per_address, token) == owed_for(before.deposits, token, fee));
        lemma_sent_to_pools_add(before.deposits_per_address, caller, with_fee, token);
        lemma_owed_for_push(before.deposits, payment, token, fee);
    }
}

/// Nothing is deposited under a key that nothing was written under, so
/// nothing is owed there either.
pub proof fn lemma_empty_record_balanced(action_key: u64, fee: u64)
    ensures
        pools_owed_balanced(crate::storage::empty_record(action_key), fee),
{
}

/// Starting a borrow keeps what is deposited under the key, and so keeps
/// the pools paid exactly what is owed.
pub proof fn lemma_borrow_keeps_pools_owed(
    v: FastLoanView,
    action_key: u64,
    borrows: Seq<BorrowView>,
    actions: Seq<UserActionView>,
    caller: Seq<u8>,
)
    requires
        pools_owed_balanced(v.storage.record(action_key), v.fees_percentage),
    ensures
        pools_owed_balanced(borrow_record(v, action_key, borrows, actions, caller), v.fees_percentage),
{
}

/// What a settlement hands out of each token is exactly what is held of
/// it: what goes back to the borrower and what the repayment calls carry to
/// the pools add up to the balance held, for every token, however often it
/// was borrowed.
pub proof fn lemma_settlement_hands_out_what_is_held(balances: Seq<PaymentView>, record: ActionRecordView, fee: u64, token: Seq<u8>)
    requires
        pools_owed_balanced(record, fee),
        give_back_to_user(balances, record.deposits, fee) is Ok,
    ensures
        total_of(give_back_to_user(balances, record.deposits, fee)->Ok_0, token)
            + sent_to_pools(record.deposits_per_address, token) == total_of(balances, token),
{
    lemma_settlement_conserves_each_token(balances, record.deposits, fee, token);
    assert(sent_to_pools(record.deposits_per_address, token) == owed_for(record.deposits, token, fee));
}

/// With no fee, a borrower owes back exactly what he borrowed.
pub proof fn lemma_no_fee_owes_amount(amount: nat)
    ensures
        amount_with_fee(amount as int, 0) == amount,
{
}

/// The amount owed grows with the amount borrowed.
pub proof fn lemma_owed_grows_with_amount(a: nat, b: nat, fee: u64)
    requires
        a <= b,
    ensures
        a <= amount_with_fee(a as int, fee as int) <= amount_with_fee(b as int, fee as int),
{
    lemma_owed_covers_amount(a, fee);
    assert(a * fee <= b * fee) by (nonlinear_arith)
        requires a <= b;
    vstd::arithmetic::div_mod::lemma_div_is_ordered(a * fee as int, b * fee as int, 10000);
}

/// The fee never lowers what is owed: a borrower owes at least what he borrowed.
pub proof fn lemma_owed_covers_amount(amount: nat, fee: u64)
    ensures
        amount_with_fee(amount as int, fee as int) >= amount,
{
    assert(amount * fee >= 0) by (nonlinear_arith);
}

/// Each borrow gets a key that no earlier borrow got: the keys handed out
/// only grow.
pub proof fn lemma_action_keys_grow(s: StorageView)
    ensures
        s.next_action_key() matches Some(k1) ==>
            (s.with_action_key(k1).next_action_key() matches Some(k2) ==> k1 < k2),
        s.action_key matches Some(k0) ==> (s.next_action_key() matches Some(k1) ==> k0 < k1),
{
}

/// Each step of the storage keeps its counter or takes the next key.
pub open spec fn counter_steps(ss: Seq<StorageView>) -> bool {
    forall|i: int| 0 <= i < ss.len() - 1 ==> #[trigger] ss[i + 1].counter_step(ss[i])
}

proof fn lemma_counter_grows(ss: Seq<StorageView>, a: int, b: int)
    requires
        counter_steps(ss),
        0 <= a <= b < ss.len(),
    ensures
        ss[a].counter_value() <= ss[b].counter_value(),
    decreases b - a,
{
    if a < b {
        lemma_counter_grows(ss, a, b - 1);
        assert(ss[b - 1 + 1].counter_step(ss[b - 1]));
    }
}

/// No action key is handed out twice: over any run of steps, each keeping
/// the counter or taking the next key, a key taken later is larger than a
/// key taken before it.
pub proof fn lemma_action_keys_never_repeat(ss: Seq<StorageView>, i: int, j: int, k1: u64, k2: u64)
    requires
        counter_steps(ss),
        0 <= i < j,
        j + 1 < ss.len(),
        ss[i].next_action_key() == Some(k1),
        ss[i + 1].action_key == Some(k1),
        ss[j].next_action_key() == Some(k2),
        ss[j + 1].action_key == Some(k2),
    ensures
        k1 < k2,
{
    lemma_counter_grows(ss, i + 1, j);
}

/// No pool appears twice among the deposits per address: adding a deposit
/// keeps each pool's deposits in one list.
pub proof fn lemma_deposits_per_address_unique(deposits: Seq<AddressDepositsView>, address: Seq<u8>, payment: PaymentView)
    requires
        forall|i: int, j: int| 0 <= i < j < deposits.len() ==> #[trigger] deposits[i].address != #[trigger] deposits[j].address,
    ensures
        ({
            let after = add_address_deposit(deposits, address, payment);
            forall|i: int, j: int| 0 <= i < j < after.len() ==> #[trigger] after[i].address != #[trigger] after[j].address
        }),
{
    let idx = latest_index(deposits, address_key(), address);
    let after = add_address_deposit(deposits, address, payment);
    if idx < 0 {
        if exists|k: int| 0 <= k < deposits.len() && #[trigger] deposits[k].address == address {
            let k = choose|k: int| 0 <= k < deposits.len() && #[trigger] deposits[k].address == address;
            lemma_latest_index(deposits, address_key(), address, k);
        }
        assert forall|i: int, j: int| 0 <= i < j < after.len() implies #[trigger] after[i].address != #[trigger] after[j].address by {
            if j == deposits.len() {
                assert(after[i] == deposits[i]);
            } else {
                assert(after[i] == deposits[i] && after[j] == deposits[j]);
            }
        }
    } else {
        lemma_latest_index_bounds(deposits, address);
        assert forall|i: int, j: int| 0 <= i < j < after.len() implies #[trigger] after[i].address != #[trigger] after[j].address by {
            assert(after[i].address == deposits[i].address);
            assert(after[j].address == deposits[j].address);
        }
    }
}

proof fn lemma_latest_index_bounds(deposits: Seq<AddressDepositsView>, address: Seq<u8>)
    ensures
        ({
            let idx = latest_index(deposits, address_key(), address);
            -1 <= idx < deposits.len() && (idx >= 0 ==> deposits[idx].address == address)
        }),
    decreases deposits.len(),
{
    if deposits.len() > 0 {
        lemma_latest_index_bounds(deposits.drop_last(), address);
    }
}

/// Setting up a pool makes it what is read back: the last pool set up is
/// the pool of each of its tokens and of its pair, and the pool that a swap
/// between its two tokens goes to.
pub proof fn lemma_setup_read_back(v: FastLoanView, after: FastLoanView, pools: Seq<(Exchange, SwapContractAddressView)>)
    requires
        pools.len() > 0,
        after.storage.token_exchange == v.storage.token_exchange + setup_token_entries(pools),
        after.storage.token_exchange_pair == v.storage.token_exchange_pair + setup_pair_entries(pools),
    ensures
        ({
            let (exchange, c) = pools.last();
            &&& after.storage.token_exchange(exchange, c.second_token) == Some(c.address)
            &&& c.first_token != c.second_token ==> after.storage.token_exchange(exchange, c.first_token) == Some(c.address)
            &&& after.storage.token_exchange_pair(exchange, c.first_token, c.second_token) == Some(c.address)
            &&& contract_address_for_action(after, exchange, c.first_token, c.second_token) == Ok::<Seq<u8>, FastLoanError>(c.address)
        }),
{
    let (exchange, c) = pools.last();
    let rest = pools.drop_last();
    let te_prefix = v.storage.token_exchange + setup_token_entries(rest);
    let e1 = TokenExchangeView { exchange, token: c.first_token, address: c.address };
    let e2 = TokenExchangeView { exchange, token: c.second_token, address: c.address };
    assert(after.storage.token_exchange =~= te_prefix.push(e1).push(e2));
    lemma_latest_push(te_prefix.push(e1), token_exchange_key(), e2, (exchange, c.second_token));
    lemma_latest_push(te_prefix.push(e1), token_exchange_key(), e2, (exchange, c.first_token));
    lemma_latest_push(te_prefix, token_exchange_key(), e1, (exchange, c.first_token));
    let tp_prefix = v.storage.token_exchange_pair + setup_pair_entries(rest);
    let p = TokenPairEntryView { exchange, first_token: c.first_token, second_token: c.second_token, address: c.address };
    assert(after.storage.token_exchange_pair =~= tp_prefix.push(p));
    lemma_latest_push(tp_prefix, token_pair_key(), p, (exchange, c.first_token, c.second_token));
}

/// A swap is never run in a pool that lent tokens under the same action key.
pub proof fn lemma_no_swap_in_lending_pool(v: FastLoanView, action_key: u64, action: UserActionView)
    requires
        contract_address_for_action(v, action.exchange, action.first_token, action.second_token) matches Ok(a)
            && lent_under(v.storage.record(action_key).deposits_per_address, a),
    ensures
        swap_call(v, action_key, action) == Err::<PairCallView, FastLoanError>(
            FastLoanError::SwapInBorrowedPool),
{
}

/// Following the balances never drops a token and always follows the token
/// that a swap returned.
pub proof fn lemma_follow_keeps_tokens(s: Seq<PaymentView>, action: UserActionView, result: PaymentView)
    requires
        follow_balance(s, action, result) is Ok,
    ensures
        ({
            let t = follow_balance(s, action, result)->Ok_0;
            &&& t.len() == s.len() || t.len() == s.len() + 1
            &&& forall|i: int| 0 <= i < s.len() ==> #[trigger] t[i].token_identifier == s[i].token_identifier
            &&& follows_token(t, result.token_identifier)
        }),
{
    lemma_follow_entries_shape(s, action.first_token, action.amount_swap, result);
    let t = follow_balance(s, action, result)->Ok_0;
    if follows_token(s, result.token_identifier) {
        let i = choose|i: int| 0 <= i < s.len() && #[trigger] s[i].token_identifier == result.token_identifier;
        assert(t[i].token_identifier == result.token_identifier);
    } else {
        assert(t[t.len() - 1].token_identifier == result.token_identifier);
    }
}

proof fn lemma_follow_entries_shape(s: Seq<PaymentView>, first_token: Seq<u8>, amount_swap: nat, result: PaymentView)
    ensures
        follow_entries(s, first_token, amount_swap, result) matches Ok(t) ==> {
            &&& t.len() == s.len()
            &&& forall|i: int| 0 <= i < s.len() ==> #[trigger] t[i].token_identifier == s[i].token_identifier
        },
    decreases s.len(),
{
    if s.len() > 0 {
        lemma_follow_entries_shape(s.drop_last(), first_token, amount_swap, result);
        if follow_entries(s, first_token, amount_swap, result) is Ok {
            let t = follow_entries(s, first_token, amount_swap, result)->Ok_0;
            assert forall|i: int| 0 <= i < s.len() implies #[trigger] t[i].token_identifier == s[i].token_identifier by {
                if i < s.len() - 1 {
                    assert(s.drop_last()[i] == s[i]);
                }
            }
        }
    }
}

/// Each loan with the fee added: what the flash-loan contract sends back to
/// a pool for what it lent.
pub open spec fn loans_with_fee(loans: Seq<PaymentView>, fee: u64) -> Seq<PaymentView> {
    loans.map_values(|b: PaymentView| PaymentView { amount: amount_with_fee(b.amount as int, fee as int) as nat, ..b })
}

/// The fee part of each loan, as the pool collects it.
pub open spec fn fee_parts(loans: Seq<PaymentView>, fee: u64) -> Seq<PaymentView> {
    loans.map_values(|b: PaymentView| PaymentView {
        token_identifier: b.token_identifier,
        token_nonce: 0,
        amount: (amount_with_fee(b.amount as int, fee as int) - b.amount) as nat,
    })
}

/// What a pool's reserves and fees are after taking back the first loans.
pub open spec fn progress_after(first_id: Seq<u8>, second_id: Seq<u8>, fee: u64, loans: Seq<PaymentView>, start: RepayProgress) -> RepayProgress {
    RepayProgress {
        first_reserve: (start.first_reserve + total_of(loans, first_id)) as nat,
        second_reserve: (start.second_reserve + total_of(loans, second_id)) as nat,
        fees: start.fees + fee_parts(loans, fee),
    }
}

proof fn lemma_repay_one_loan(
    first_id: Seq<u8>,
    second_id: Seq<u8>,
    fee: u64,
    loans: Seq<PaymentView>,
    k: int,
    st: RepayProgress,
    m: int,
)
    requires
        first_id != second_id,
        0 <= k < loans.len(),
        0 <= m <= loans.len(),
        forall|i: int, j: int| 0 <= i < j < loans.len() ==> #[trigger] loans[i].token_identifier != #[trigger] loans[j].token_identifier,
    ensures
        repay_payments(first_id, second_id, fee, loans[k], loans_with_fee(loans, fee).take(m), (st, false)) == (if m > k {
            Ok::<(RepayProgress, bool), PoolError>((RepayProgress {
                first_reserve: if loans[k].token_identifier == first_id { st.first_reserve + loans[k].amount } else { st.first_reserve },
                second_reserve: if loans[k].token_identifier == second_id { st.second_reserve + loans[k].amount } else { st.second_reserve },
                fees: st.fees.push(PaymentView {
                    token_identifier: loans[k].token_identifier,
                    token_nonce: 0,
                    amount: (amount_with_fee(loans[k].amount as int, fee as int) - loans[k].amount) as nat,
                }),
            }, true))
        } else {
            Ok((st, false))
        }),
    decreases m,
{
    let p = loans_with_fee(loans, fee);
    lemma_owed_covers_amount(loans[k].amount, fee);
    if m > 0 {
        lemma_repay_one_loan(first_id, second_id, fee, loans, k, st, m - 1);
        assert(p.take(m).drop_last() =~= p.take(m - 1));
        assert(p.take(m).last() == p[m - 1]);
        if m - 1 != k {
            if m - 1 < k {
                assert(loans[m - 1].token_identifier != loans[k].token_identifier);
            } else {
                assert(loans[k].token_identifier != loans[m - 1].token_identifier);
            }
        }
    } else {
        assert(p.take(0) =~= Seq::<PaymentView>::empty());
    }
}

proof fn lemma_repay_loans_prefix(first_id: Seq<u8>, second_id: Seq<u8>, fee: u64, loans: Seq<PaymentView>, start: RepayProgress, k: int)
    requires
        first_id != second_id,
        0 <= k <= loans.len(),
        forall|i: int, j: int| 0 <= i < j < loans.len() ==> #[trigger] loans[i].token_identifier != #[trigger] loans[j].token_identifier,
    ensures
        repay_borrows(first_id, second_id, fee, loans.take(k), loans_with_fee(loans, fee), start)
            == Ok::<RepayProgress, PoolError>(progress_after(first_id, second_id, fee, loans.take(k), start)),
    decreases k,
{
    let p = loans_with_fee(loans, fee);
    if k == 0 {
        assert(loans.take(0) =~= Seq::<PaymentView>::empty());
        assert(start.fees + fee_parts(Seq::<PaymentView>::empty(), fee) =~= start.fees);
    } else {
        lemma_repay_loans_prefix(first_id, second_id, fee, loans, start, k - 1);
        let prefix = loans.take(k);
        assert(prefix.drop_last() =~= loans.take(k - 1));
        assert(prefix.last() == loans[k - 1]);
        let st = progress_after(first_id, second_id, fee, loans.take(k - 1), start);
        lemma_total_of_prefix(loans, first_id, k);
        lemma_total_of_prefix(loans, second_id, k);
        lemma_total_of_prefix(loans, first_id, k - 1);
        lemma_total_of_prefix(loans, second_id, k - 1);
        lemma_repay_one_loan(first_id, second_id, fee, loans, k - 1, st, loans.len() as int);
        assert(p.take(loans.len() as int) =~= p);
        assert(start.fees + fee_parts(prefix, fee) =~= (start.fees + fee_parts(loans.take(k - 1), fee)).push(PaymentView {
            token_identifier: loans[k - 1].token_identifier,
            token_nonce: 0,
            amount: (amount_with_fee(loans[k - 1].amount as int, fee as int) - loans[k - 1].amount) as nat,
        }));
    }
}

/// A pool takes back its loans when each comes back with the pool's fee:
/// when the pool lent distinct tokens under an action key and receives each
/// loan with the fee added, the repayment succeeds, every loan goes back to
/// its reserve, and the pool collects the fee part of each loan.
pub proof fn lemma_pool_accepts_loans_with_fee(pool: FlashLoanModule, action_key: u64)
    requires
        pool.first_token_id@ != pool.second_token_id@,
        ({
            let loans = pool.borrowed_tokens_of(action_key);
            &&& forall|i: int, j: int| 0 <= i < j < loans.len() ==> #[trigger] loans[i].token_identifier != #[trigger] loans[j].token_identifier
        }),
    ensures
        ({
            let loans = pool.borrowed_tokens_of(action_key);
            pool.spec_repay(action_key, loans_with_fee(loans, pool.flashloan_fees_percent)) == Ok::<RepayProgress, PoolError>(RepayProgress {
                first_reserve: (pool.first_token_reserve@ + total_of(loans, pool.first_token_id@)) as nat,
                second_reserve: (pool.second_token_reserve@ + total_of(loans, pool.second_token_id@)) as nat,
                fees: fee_parts(loans, pool.flashloan_fees_percent),
            })
        }),
{
    let loans = pool.borrowed_tokens_of(action_key);
    let start = RepayProgress {
        first_reserve: pool.first_token_reserve@,
        second_reserve: pool.second_token_reserve@,
        fees: Seq::empty(),
    };
    lemma_repay_loans_prefix(pool.first_token_id@, pool.second_token_id@, pool.flashloan_fees_percent, loans, start, loans.len() as int);
    assert(loans.take(loans.len() as int) =~= loans);
    assert(Seq::<PaymentView>::empty() + fee_parts(loans, pool.flashloan_fees_percent) =~= fee_parts(loans, pool.flashloan_fees_percent));
}

proof fn lemma_first_matching_borrow_bounds(borrows: Seq<BorrowView>, payment: PaymentView)
    ensures
        -1 <= first_matching_borrow(borrows, payment) < borrows.len(),
    decreases borrows.len(),
{
    if borrows.len() > 0 {
        lemma_first_matching_borrow_bounds(borrows.drop_last(), payment);
    }
}

/// Each accepted deposit settles one awaited borrow: while borrows remain,
/// one fewer is awaited and the next is asked for; the actions run only once
/// the last awaited borrow is deposited.
pub proof fn lemma_deposits_count_down(v: FastLoanView, action_key: u64, payment: PaymentView, caller: Seq<u8>)
    requires
        deposit_loan_result(v, action_key, payment, caller) is Ok,
    ensures
        ({
            let (record, next) = deposit_loan_result(v, action_key, payment, caller)->Ok_0;
            let awaited = v.storage.record(action_key).borrows;
            &&& next is NextBorrow ==> record.borrows.len() == awaited.len() - 1 && record.borrows.len() > 0
            &&& next is AllDeposited ==> awaited.len() == 1
        }),
{
    lemma_first_matching_borrow_bounds(v.storage.record(action_key).borrows, payment);
}

/// What the flash-loan contract owes back to `pool` under an action key: the
/// latest list of deposits with fees recorded for it.
pub open spec fn owed_to(deposits: Seq<AddressDepositsView>, pool: Seq<u8>) -> Seq<PaymentView> {
    match latest(deposits, address_key(), pool) {
        Some(e) => e.payments,
        None => Seq::empty(),
    }
}

/// A deposit makes the flash-loan contract owe the depositing pool that
/// deposit with the fee added, after what it owed it before, and changes
/// what it owes no other pool: what goes back to each pool is what it lent,
/// with the fee.
pub proof fn lemma_deposit_owes_pool_loan_with_fee(v: FastLoanView, action_key: u64, payment: PaymentView, caller: Seq<u8>, other: Seq<u8>)
    requires
        deposit_loan_result(v, action_key, payment, caller) is Ok,
    ensures
        ({
            let (record, next) = deposit_loan_result(v, action_key, payment, caller)->Ok_0;
            let before = v.storage.record(action_key).deposits_per_address;
            &&& owed_to(record.deposits_per_address, caller)
                == owed_to(before, caller) + loans_with_fee(seq![payment], v.fees_percentage)
            &&& other != caller ==> owed_to(record.deposits_per_address, other) == owed_to(before, other)
        }),
{
    let before = v.storage.record(action_key).deposits_per_address;
    let owed = amount_with_fee(payment.amount as int, v.fees_percentage as int);
    let with_fee = PaymentView { amount: owed as nat, ..payment };
    let after = add_address_deposit(before, caller, with_fee);
    let (record, next) = deposit_loan_result(v, action_key, payment, caller)->Ok_0;
    assert(record.deposits_per_address == after);
    lemma_latest_index_is_latest(before, address_key(), caller);
    let i = latest_index(before, address_key(), caller);
    let entry = if i >= 0 {
        AddressDepositsView { address: caller, payments: before[i].payments.push(with_fee) }
    } else {
        AddressDepositsView { address: caller, payments: seq![with_fee] }
    };
    if i >= 0 {
        lemma_latest_update(before, address_key(), i, entry, caller);
        lemma_latest_update(before, address_key(), i, entry, other);
    } else {
        lemma_latest_push(before, address_key(), entry, caller);
        lemma_latest_push(before, address_key(), entry, other);
    }
    assert(loans_with_fee(seq![payment], v.fees_percentage) =~= seq![with_fee]);
    assert(owed_to(after, caller) =~= owed_to(before, caller) + seq![with_fee]);
}

/// What the flash-loan contract sends back to a pool, the pool accepts: when
/// the deposits recorded for a pool are its loans with the fee that both
/// contracts charge, the repayment call to that pool carries exactly what
/// the pool's repayment requires.
pub proof fn lemma_repayment_accepted_by_pool(v: FastLoanView, pool: FlashLoanModule, action_key: u64, i: int)
    requires
        ({
            let deposits = v.storage.record(action_key).deposits_per_address;
            let loans = pool.borrowed_tokens_of(action_key);
            &&& 0 <= i < deposits.len()
            &&& deposits[i].payments == loans_with_fee(loans, pool.flashloan_fees_percent)
            &&& v.fees_percentage == pool.flashloan_fees_percent
            &&& pool.first_token_id@ != pool.second_token_id@
            &&& forall|a: int, b: int| 0 <= a < b < loans.len() ==> #[trigger] loans[a].token_identifier != #[trigger] loans[b].token_identifier
        }),
    ensures
        ({
            let deposits = v.storage.record(action_key).deposits_per_address;
            let call = repay_calls(deposits, action_key)[i];
            &&& call == PairCallView::Repay { address: deposits[i].address, action_key, payments: deposits[i].payments }
            &&& pool.spec_repay(action_key, deposits[i].payments) is Ok
        }),
{
    lemma_pool_accepts_loans_with_fee(pool, action_key);
}

/// The payments hold a token when all but the last do or the last is of it.
proof fn lemma_holds_token_drop_last(s: Seq<PaymentView>, token: Seq<u8>)
    requires
        s.len() > 0,
    ensures
        holds_token(s, token) <==> holds_token(s.drop_last(), token) || s.last().token_identifier == token,
{
    let d = s.drop_last();
    if holds_token(s, token) {
        let i = choose|i: int| 0 <= i < s.len() && #[trigger] s[i].token_identifier == token;
        if i < s.len() - 1 {
            assert(d[i].token_identifier == token);
        }
    }
    if holds_token(d, token) {
        let i = choose|i: int| 0 <= i < d.len() && #[trigger] d[i].token_identifier == token;
        assert(s[i].token_identifier == token);
    }
    if s.last().token_identifier == token {
        assert(s[s.len() - 1].token_identifier == token);
    }
}

/// Taking the payments into account for one loan meets a payment of the
/// loan's token exactly when one of the payments is of that token.
proof fn lemma_repay_payments_meets(
    first_id: Seq<u8>,
    second_id: Seq<u8>,
    fee: u64,
    borrow: PaymentView,
    payments: Seq<PaymentView>,
    start: (RepayProgress, bool),
)
    requires
        repay_payments(first_id, second_id, fee, borrow, payments, start) is Ok,
    ensures
        repay_payments(first_id, second_id, fee, borrow, payments, start)->Ok_0.1
            == (start.1 || holds_token(payments, borrow.token_identifier)),
    decreases payments.len(),
{
    if payments.len() == 0 {
        assert(!holds_token(payments, borrow.token_identifier));
    } else {
        lemma_repay_payments_meets(first_id, second_id, fee, borrow, payments.drop_last(), start);
        lemma_holds_token_drop_last(payments, borrow.token_identifier);
    }
}

/// Every loan of a repayment that succeeds came back: a payment of each
/// borrowed token is among the payments received.
proof fn lemma_repay_borrows_all_met(
    first_id: Seq<u8>,
    second_id: Seq<u8>,
    fee: u64,
    borrows: Seq<PaymentView>,
    payments: Seq<PaymentView>,
    start: RepayProgress,
)
    requires
        repay_borrows(first_id, second_id, fee, borrows, payments, start) is Ok,
    ensures
        forall|k: int| 0 <= k < borrows.len() ==> holds_token(payments, #[trigger] borrows[k].token_identifier),
    decreases borrows.len(),
{
    if borrows.len() > 0 {
        let d = borrows.drop_last();
        lemma_repay_borrows_all_met(first_id, second_id, fee, d, payments, start);
        let st = repay_borrows(first_id, second_id, fee, d, payments, start)->Ok_0;
        lemma_repay_payments_meets(first_id, second_id, fee, borrows.last(), payments, (st, false));
        assert forall|k: int| 0 <= k < borrows.len() implies holds_token(payments, #[trigger] borrows[k].token_identifier) by {
            if k < borrows.len() - 1 {
                assert(borrows[k] == d[k]);
            }
        }
    }
}

/// A pool refuses a repayment that leaves out one of its loans: when a token
/// lent under the action key has no payment among those received, the
/// repayment is refused, whichever loan it is; a repayment that succeeds
/// carries a payment of every borrowed token.
pub proof fn lemma_repay_refuses_a_missing_loan(pool: FlashLoanModule, action_key: u64, payments: Seq<PaymentView>, k: int)
    requires
        0 <= k < pool.borrowed_tokens_of(action_key).len(),
        !holds_token(payments, pool.borrowed_tokens_of(action_key)[k].token_identifier),
    ensures
        pool.spec_repay(action_key, payments) is Err,
{
    if pool.spec_repay(action_key, payments) is Ok {
        let loans = pool.borrowed_tokens_of(action_key);
        lemma_repay_borrows_all_met(
            pool.first_token_id@,
            pool.second_token_id@,
            pool.flashloan_fees_percent,
            loans,
            payments,
            RepayProgress { first_reserve: pool.first_token_reserve@, second_reserve: pool.second_token_reserve@, fees: Seq::empty() },
        );
        assert(holds_token(payments, loans[k].token_identifier));
    }
}

/// Where the loans come back in the payments, the payment of each loan's token
/// is exactly the loan with the fee: a payment of a borrowed token that is
/// short of, or beyond, the loan with the fee refuses the repayment.
pub proof fn lemma_repay_payment_is_loan_with_fee(pool: FlashLoanModule, action_key: u64, payments: Seq<PaymentView>, k: int, j: int)
    requires
        0 <= k < pool.borrowed_tokens_of(action_key).len(),
        0 <= j < payments.len(),
        payments[j].token_identifier == pool.borrowed_tokens_of(action_key)[k].token_identifier,
        pool.spec_repay(action_key, payments) is Ok,
    ensures
        payments[j].amount == amount_with_fee(
            pool.borrowed_tokens_of(action_key)[k].amount as int,
            pool.flashloan_fees_percent as int,
        ),
{
    let loans = pool.borrowed_tokens_of(action_key);
    let start = RepayProgress { first_reserve: pool.first_token_reserve@, second_reserve: pool.second_token_reserve@, fees: Seq::empty() };
    lemma_repay_borrows_prefix_ok(pool.first_token_id@, pool.second_token_id@, pool.flashloan_fees_percent, loans, payments, start, k + 1);
    let prefix = loans.take(k + 1);
    assert(prefix.drop_last() =~= loans.take(k));
    assert(prefix.last() == loans[k]);
    let st = repay_borrows(pool.first_token_id@, pool.second_token_id@, pool.flashloan_fees_percent, loans.take(k), payments, start)->Ok_0;
    lemma_repay_payments_exact(pool.first_token_id@, pool.second_token_id@, pool.flashloan_fees_percent, loans[k], payments, (st, false), j);
}

/// A repayment that succeeds succeeds on each prefix of the loans.
proof fn lemma_repay_borrows_prefix_ok(
    first_id: Seq<u8>,
    second_id: Seq<u8>,
    fee: u64,
    borrows: Seq<PaymentView>,
    payments: Seq<PaymentView>,
    start: RepayProgress,
    k: int,
)
    requires
        0 <= k <= borrows.len(),
        repay_borrows(first_id, second_id, fee, borrows, payments, start) is Ok,
    ensures
        repay_borrows(first_id, second_id, fee, borrows.take(k), payments, start) is Ok,
{
    if repay_borrows(first_id, second_id, fee, borrows.take(k), payments, start) is Err {
        crate::flashloan::lemma_repay_borrows_err(first_id, second_id, fee, borrows, payments, start, k,
            repay_borrows(first_id, second_id, fee, borrows.take(k), payments, start)->Err_0);
    }
}

/// Taking the payments into account for one loan succeeds only where each
/// payment of the loan's token is exactly the loan with the fee.
proof fn lemma_repay_payments_exact(
    first_id: Seq<u8>,
    second_id: Seq<u8>,
    fee: u64,
    borrow: PaymentView,
    payments: Seq<PaymentView>,
    start: (RepayProgress, bool),
    j: int,
)
    requires
        0 <= j < payments.len(),
        payments[j].token_identifier == borrow.token_identifier,
        repay_payments(first_id, second_id, fee, borrow, payments, start) is Ok,
    ensures
        payments[j].amount == amount_with_fee(borrow.amount as int, fee as int),
    decreases payments.len(),
{
    let d = payments.drop_last();
    if j < payments.len() - 1 {
        assert(d[j] == payments[j]);
        if repay_payments(first_id, second_id, fee, borrow, d, start) is Err {
            assert(repay_payments(first_id, second_id, fee, borrow, payments, start) is Err);
        }
        lemma_repay_payments_exact(first_id, second_id, fee, borrow, d, start, j);
    } else {
        assert(payments.last() == payments[j]);
    }
}

/// The first borrow matching a payment is one of the awaited borrows, of the
/// payment's token and amount, with none before it of that token and amount.
proof fn lemma_first_matching_borrow_matches(borrows: Seq<BorrowView>, payment: PaymentView)
    ensures
        ({
            let i = first_matching_borrow(borrows, payment);
            let paid = BorrowView { token: payment.token_identifier, amount: payment.amount };
            &&& -1 <= i < borrows.len()
            &&& i >= 0 ==> borrows[i] == paid && forall|j: int| 0 <= j < i ==> borrows[j] != paid
            &&& i < 0 ==> forall|j: int| 0 <= j < borrows.len() ==> borrows[j] != paid
        }),
    decreases borrows.len(),
{
    if borrows.len() > 0 {
        let d = borrows.drop_last();
        lemma_first_matching_borrow_matches(d, payment);
        let paid = BorrowView { token: payment.token_identifier, amount: payment.amount };
        let i = first_matching_borrow(borrows, payment);
        assert forall|j: int| 0 <= j < borrows.len() - 1 implies borrows[j] == d[j] by {}
        if i < 0 {
            assert forall|j: int| 0 <= j < borrows.len() implies borrows[j] != paid by {
                if j < borrows.len() - 1 {
                    assert(borrows[j] == d[j]);
                }
            }
        }
    }
}

/// An accepted deposit settles exactly one awaited borrow, the first of the
/// payment's token and amount. While borrows remain, the awaited borrows
/// become the previous ones with that one removed, the others kept in order
/// (as a multiset: one copy of it fewer), and the next borrow asked for is
/// the first of them, from the xExchange pool of its token. When no borrow
/// remains, the payment settled the one borrow that was awaited.
pub proof fn lemma_deposit_removes_the_matching_borrow(v: FastLoanView, action_key: u64, payment: PaymentView, caller: Seq<u8>)
    requires
        deposit_loan_result(v, action_key, payment, caller) is Ok,
    ensures
        ({
            let (record, next) = deposit_loan_result(v, action_key, payment, caller)->Ok_0;
            let awaited = v.storage.record(action_key).borrows;
            let paid = BorrowView { token: payment.token_identifier, amount: payment.amount };
            &&& exists|i: int| 0 <= i < awaited.len() && #[trigger] awaited[i] == paid
                && (forall|j: int| 0 <= j < i ==> awaited[j] != paid)
                && (next is NextBorrow ==> record.borrows == awaited.remove(i))
                && (next is AllDeposited ==> awaited.len() == 1)
            &&& next is NextBorrow ==> record.borrows.to_multiset() == awaited.to_multiset().remove(paid)
            &&& next is NextBorrow ==> record.borrows.len() > 0 && (next->NextBorrow_0 matches PairCallView::BorrowLiquidity {
                address, payment: p, action_key: k }
                && k == action_key
                && p.token_identifier == record.borrows[0].token
                && p.amount == record.borrows[0].amount
                && p.token_nonce == 0
                && v.storage.token_exchange(Exchange::Xexchange, p.token_identifier) == Some(address))
        }),
{
    let awaited = v.storage.record(action_key).borrows;
    let paid = BorrowView { token: payment.token_identifier, amount: payment.amount };
    lemma_first_matching_borrow_matches(awaited, payment);
    let i = first_matching_borrow(awaited, payment);
    assert(awaited[i] == paid);
    awaited.to_multiset_ensures();
    assert(awaited.remove(i).to_multiset() =~= awaited.to_multiset().remove(awaited[i]));
}

/// A swap runs as the action asks, whichever order its pool's pair was set
/// up in: it sends `amount_swap` of the action's first token, nonce 0, and
/// asks for at least 1 of its second token, at the pool set up for the pair
/// in one order or the other.
pub proof fn lemma_swap_goes_as_asked(v: FastLoanView, action_key: u64, action: UserActionView)
    ensures
        swap_call(v, action_key, action) matches Ok(c) ==> (c matches PairCallView::SwapTokensFixedInput {
            address, payment, token_out, amount_out_min }
            && payment.token_identifier == action.first_token
            && payment.token_nonce == 0
            && payment.amount == action.amount_swap
            && token_out == action.second_token
            && amount_out_min == 1
            && (v.storage.token_exchange_pair(action.exchange, action.first_token, action.second_token) == Some(address)
                || v.storage.token_exchange_pair(action.exchange, action.second_token, action.first_token) == Some(address))),
{
}

/// A swap is refused as one in a lending pool only where its pool lent:
/// where the pool set up for the pair, looked up in the action's order and
/// then in the other, did not deposit under the action key, the swap goes to
/// that pool; it is refused with `SwapInBorrowedPool` exactly when that pool
/// deposited under the key.
pub proof fn lemma_swap_refused_only_in_lending_pool(v: FastLoanView, action_key: u64, action: UserActionView)
    ensures
        ({
            let lenders = v.storage.record(action_key).deposits_per_address;
            let direct = v.storage.token_exchange_pair(action.exchange, action.first_token, action.second_token);
            let reverse = v.storage.token_exchange_pair(action.exchange, action.second_token, action.first_token);
            let pool = if direct is Some { direct } else { reverse };
            &&& pool is Some && !lent_under(lenders, pool->0) ==> (swap_call(v, action_key, action) matches Ok(c)
                && c matches PairCallView::SwapTokensFixedInput { address, .. } && address == pool->0)
            &&& swap_call(v, action_key, action) == Err::<PairCallView, FastLoanError>(FastLoanError::SwapInBorrowedPool)
                <==> (pool is Some && lent_under(lenders, pool->0))
            &&& pool is None ==> swap_call(v, action_key, action) == Err::<PairCallView, FastLoanError>(FastLoanError::SwapPairUnavailable)
        }),
{
}

/// A deposit is taken only from the xExchange pool of its token; from that
/// pool, it is refused as matching no borrow exactly when no awaited borrow
/// is of its token and amount.
pub proof fn lemma_deposit_only_from_the_pool_for_an_awaited_borrow(v: FastLoanView, action_key: u64, payment: PaymentView, caller: Seq<u8>)
    ensures
        deposit_loan_result(v, action_key, payment, caller) is Ok
            ==> v.storage.token_exchange(Exchange::Xexchange, payment.token_identifier) == Some(caller),
        v.storage.token_exchange(Exchange::Xexchange, payment.token_identifier) != Some(caller)
            ==> deposit_loan_result(v, action_key, payment, caller) == Err::<(crate::storage::ActionRecordView, DepositOutcomeView), FastLoanError>(
                FastLoanError::CallerAddressNotDefined),
        v.storage.token_exchange(Exchange::Xexchange, payment.token_identifier) == Some(caller) ==> (
            deposit_loan_result(v, action_key, payment, caller) == Err::<(crate::storage::ActionRecordView, DepositOutcomeView), FastLoanError>(
                FastLoanError::PaymentDoesNotCorrespond)
            <==> forall|j: int| 0 <= j < v.storage.record(action_key).borrows.len()
                ==> #[trigger] v.storage.record(action_key).borrows[j] != (BorrowView { token: payment.token_identifier, amount: payment.amount })),
{
    lemma_first_matching_borrow_matches(v.storage.record(action_key).borrows, payment);
}

/// A pool serves only its flash-loan contract: a caller passes the check
/// exactly when the pool has a flash-loan contract and the caller is it.
pub proof fn lemma_pool_serves_only_its_flash_loan_sc(pool: FlashLoanModule, caller: Seq<u8>)
    ensures
        pool.caller_refusal(caller) is None <==> (pool.flash_loan_sc is Some && pool.flash_loan_sc->0@ == caller),
        pool.flash_loan_sc is None ==> pool.caller_refusal(caller) == Some(PoolError::NoFlashLoanScSet),
{
}

/// The fee is the borrowed amount's share at the fee percentage, rounded
/// down: `MAX_PERCENTAGE` times the fee is at most `amount * fee_percentage`,
/// and less than `MAX_PERCENTAGE` more than it.
pub proof fn lemma_fee_is_the_rounded_down_share(amount: nat, fee: u64)
    ensures
        ({
            let f = amount_with_fee(amount as int, fee as int) - amount;
            &&& 10000 * f <= amount * fee
            &&& amount * fee < 10000 * (f + 1)
        }),
{
    let x = amount * fee;
    assert(x >= 0) by (nonlinear_arith)
        requires amount >= 0, fee >= 0, x == amount * fee;
    vstd::arithmetic::div_mod::lemma_fundamental_div_mod(x as int, 10000);
    vstd::arithmetic::div_mod::lemma_mod_bound(x as int, 10000);
}

/// How many of the payments are of `token`.
pub open spec fn count_of(s: Seq<PaymentView>, token: Seq<u8>) -> nat
    decreases s.len(),
{
    if s.len() == 0 {
        0
    } else {
        count_of(s.drop_last(), token) + if s.last().token_identifier == token { 1nat } else { 0nat }
    }
}

proof fn lemma_follow_entries_total(s: Seq<PaymentView>, first: Seq<u8>, swap: nat, result: PaymentView, token: Seq<u8>)
    requires
        follow_entries(s, first, swap, result) is Ok,
    ensures
        total_of(follow_entries(s, first, swap, result)->Ok_0, token)
            + (if first == token { count_of(s, token) * swap } else { 0 })
            == total_of(s, token) + (if result.token_identifier == token { count_of(s, token) * result.amount } else { 0 }),
    decreases s.len(),
{
    if s.len() > 0 {
        let d = s.drop_last();
        lemma_follow_entries_total(d, first, swap, result, token);
        let t = follow_entries(d, first, swap, result)->Ok_0;
        let x = follow_entry(s.last(), first, swap, result)->Ok_0;
        lemma_total_of_push(t, x, token);
        let e = s.last();
        assert(follow_entries(s, first, swap, result)->Ok_0 == t.push(x));
        assert(x.token_identifier == e.token_identifier);
        assert(total_of(s, token) == total_of(d, token) + if e.token_identifier == token { e.amount as int } else { 0 });
        let c = count_of(d, token);
        assert(count_of(s, token) == c + if e.token_identifier == token { 1nat } else { 0nat });
        let added = if e.token_identifier == result.token_identifier { e.amount + result.amount } else { e.amount };
        assert(x.amount == if e.token_identifier == first { added - swap } else { added as int });
        assert((c + 1) * swap == c * swap + swap) by (nonlinear_arith);
        assert((c + 1) * result.amount == c * result.amount + result.amount) by (nonlinear_arith);
    } else {
        assert(total_of(s, token) == 0);
        assert(count_of(s, token) == 0);
        assert(total_of(follow_entries(s, first, swap, result)->Ok_0, token) == 0);
    }
}

/// Where each token is followed once, the number of its balances is 1 when
/// it is followed and 0 when not.
proof fn lemma_count_of_once(s: Seq<PaymentView>, token: Seq<u8>)
    requires
        forall|i: int, j: int| 0 <= i < j < s.len() ==> #[trigger] s[i].token_identifier != #[trigger] s[j].token_identifier,
    ensures
        count_of(s, token) == if follows_token(s, token) { 1nat } else { 0nat },
    decreases s.len(),
{
    if s.len() > 0 {
        let d = s.drop_last();
        assert forall|i: int, j: int| 0 <= i < j < d.len() implies #[trigger] d[i].token_identifier != #[trigger] d[j].token_identifier by {
            assert(s[i] == d[i] && s[j] == d[j]);
        }
        lemma_count_of_once(d, token);
        if follows_token(d, token) {
            let i = choose|i: int| 0 <= i < d.len() && #[trigger] d[i].token_identifier == token;
            assert(s[i] == d[i]);
            assert(s[i].token_identifier != s[s.len() - 1].token_identifier);
        }
        if follows_token(s, token) {
            let i = choose|i: int| 0 <= i < s.len() && #[trigger] s[i].token_identifier == token;
            if i < s.len() - 1 {
                assert(d[i].token_identifier == token);
            }
        }
        if follows_token(d, token) {
            let i = choose|i: int| 0 <= i < d.len() && #[trigger] d[i].token_identifier == token;
            assert(s[i].token_identifier == token);
        }
    }
}

/// What following a swap does to the balances of each token: every balance
/// of the token the swap returned gains the result (one new balance holds it
/// where that token was not followed), and every balance of the token sent
/// gives up the swapped amount. Where each token is followed once, the total
/// of a token grows by the result where it is the token returned, and falls
/// by the swapped amount where it is the token sent and was followed.
pub proof fn lemma_follow_balance_totals(s: Seq<PaymentView>, action: UserActionView, result: PaymentView, token: Seq<u8>)
    requires
        follow_balance(s, action, result) is Ok,
    ensures
        ({
            let after = follow_balance(s, action, result)->Ok_0;
            let c = count_of(s, token);
            &&& total_of(after, token) + (if action.first_token == token { c * action.amount_swap } else { 0 })
                == total_of(s, token) + (if result.token_identifier == token {
                    (if c == 0 { 1 } else { c }) * result.amount
                } else {
                    0
                })
            &&& (forall|i: int, j: int| 0 <= i < j < s.len() ==> #[trigger] s[i].token_identifier != #[trigger] s[j].token_identifier)
                ==> total_of(after, token) == total_of(s, token)
                    + (if result.token_identifier == token { result.amount as int } else { 0 })
                    - (if action.first_token == token && follows_token(s, token) { action.amount_swap as int } else { 0 })
        }),
{
    let t = follow_entries(s, action.first_token, action.amount_swap, result)->Ok_0;
    lemma_follow_entries_total(s, action.first_token, action.amount_swap, result, token);
    let c = count_of(s, token);
    let after = follow_balance(s, action, result)->Ok_0;
    if !follows_token(s, result.token_identifier) {
        let x = PaymentView { token_identifier: result.token_identifier, token_nonce: 0, amount: result.amount };
        lemma_total_of_push(t, x, token);
        assert(after == t.push(x));
        if result.token_identifier == token {
            lemma_count_of_absent(s, token);
            assert(c * action.amount_swap == 0 && c * result.amount == 0) by (nonlinear_arith)
                requires c == 0;
        }
    } else {
        assert(after == t);
        if result.token_identifier == token {
            lemma_count_of_present(s, token);
        }
    }
    assert(1 * result.amount == result.amount);
    if forall|i: int, j: int| 0 <= i < j < s.len() ==> #[trigger] s[i].token_identifier != #[trigger] s[j].token_identifier {
        lemma_count_of_once(s, token);
        assert(c * action.amount_swap == if c == 1 { action.amount_swap as int } else { 0 }) by (nonlinear_arith)
            requires c == 0 || c == 1;
        assert(c * result.amount == if c == 1 { result.amount as int } else { 0 }) by (nonlinear_arith)
            requires c == 0 || c == 1;
    }
}

proof fn lemma_count_of_absent(s: Seq<PaymentView>, token: Seq<u8>)
    requires
        !follows_token(s, token),
    ensures
        count_of(s, token) == 0,
    decreases s.len(),
{
    if s.len() > 0 {
        assert(s[s.len() - 1].token_identifier != token);
        assert forall|i: int| 0 <= i < s.drop_last().len() implies #[trigger] s.drop_last()[i].token_identifier != token by {
            assert(s[i].token_identifier != token);
        }
        lemma_count_of_absent(s.drop_last(), token);
    }
}

proof fn lemma_count_of_present(s: Seq<PaymentView>, token: Seq<u8>)
    requires
        follows_token(s, token),
    ensures
        count_of(s, token) > 0,
    decreases s.len(),
{
    let d = s.drop_last();
    if s.last().token_identifier != token {
        let i = choose|i: int| 0 <= i < s.len() && #[trigger] s[i].token_identifier == token;
        assert(i < s.len() - 1);
        assert(d[i].token_identifier == token);
        lemma_count_of_present(d, token);
    }
}

/// Adding a payment to what a pool deposited appends it to what is owed back
/// to that pool and changes what is owed to no other pool.
proof fn lemma_add_address_deposit_owed(before: Seq<AddressDepositsView>, pool: Seq<u8>, p: PaymentView, other: Seq<u8>)
    ensures
        owed_to(add_address_deposit(before, pool, p), pool) == owed_to(before, pool).push(p),
        other != pool ==> owed_to(add_address_deposit(before, pool, p), other) == owed_to(before, other),
{
    lemma_latest_index_is_latest(before, address_key(), pool);
    let i = latest_index(before, address_key(), pool);
    let entry = if i >= 0 {
        AddressDepositsView { address: pool, payments: before[i].payments.push(p) }
    } else {
        AddressDepositsView { address: pool, payments: seq![p] }
    };
    if i >= 0 {
        lemma_latest_update(before, address_key(), i, entry, pool);
        lemma_latest_update(before, address_key(), i, entry, other);
    } else {
        lemma_latest_push(before, address_key(), entry, pool);
        lemma_latest_push(before, address_key(), entry, other);
    }
    assert(owed_to(add_address_deposit(before, pool, p), pool) =~= owed_to(before, pool).push(p));
}

/// Saving a deposit appends the payment to the deposits received under the
/// key and keeps the rest of the record; saving a deposit under a pool
/// appends the payment to what is owed back to that pool, changes what is
/// owed to no other pool, and keeps the rest of the record.
pub proof fn lemma_saving_deposits(v: FastLoanView, action_key: u64, pool: Seq<u8>, payment: PaymentView, other: Seq<u8>)
    ensures
        ({
            let before = v.storage.record(action_key);
            let plain = record_with_deposit(v, action_key, payment);
            let by_pool = record_with_address_deposit(v, action_key, pool, payment);
            &&& plain.deposits == before.deposits.push(payment)
            &&& plain.deposits_per_address == before.deposits_per_address
            &&& plain.borrows == before.borrows && plain.user_actions == before.user_actions
            &&& plain.original_caller == before.original_caller && plain.action_key == before.action_key
            &&& owed_to(by_pool.deposits_per_address, pool) == owed_to(before.deposits_per_address, pool).push(payment)
            &&& other != pool ==> owed_to(by_pool.deposits_per_address, other) == owed_to(before.deposits_per_address, other)
            &&& by_pool.deposits == before.deposits && by_pool.borrows == before.borrows
            &&& by_pool.user_actions == before.user_actions && by_pool.original_caller == before.original_caller
            &&& by_pool.action_key == before.action_key
        }),
{
    lemma_add_address_deposit_owed(v.storage.record(action_key).deposits_per_address, pool, payment, other);
}

/// A borrow step asks the xExchange pool of the borrowed token to lend
/// exactly the borrow, nonce 0, under the action key; it is refused exactly
/// when no xExchange pool is set up for the token.
pub proof fn lemma_borrow_call_asks_the_tokens_pool(v: FastLoanView, action_key: u64, borrow: BorrowView)
    ensures
        borrow_liquidity_call(v, action_key, borrow) is Ok <==> v.storage.token_exchange(Exchange::Xexchange, borrow.token) is Some,
        borrow_liquidity_call(v, action_key, borrow) is Err ==> borrow_liquidity_call(v, action_key, borrow)
            == Err::<PairCallView, FastLoanError>(FastLoanError::CouldNotExecuteAllBorrows),
        borrow_liquidity_call(v, action_key, borrow) matches Ok(c) ==> (c matches PairCallView::BorrowLiquidity {
            address, payment, action_key: k }
            && k == action_key
            && payment.token_identifier == borrow.token
            && payment.amount == borrow.amount
            && payment.token_nonce == 0
            && v.storage.token_exchange(Exchange::Xexchange, borrow.token) == Some(address)),
{
}

/// A borrow records the request under its key: the borrows asked, the
/// actions asked, who asked and how many borrows were asked, keeping what
/// was deposited under the key.
pub proof fn lemma_borrow_records_the_request(
    v: FastLoanView,
    action_key: u64,
    borrows: Seq<BorrowView>,
    actions: Seq<UserActionView>,
    caller: Seq<u8>,
)
    requires
        borrows.len() <= usize::MAX,
    ensures
        ({
            let r = borrow_record(v, action_key, borrows, actions, caller);
            let before = v.storage.record(action_key);
            &&& r.borrows == borrows
            &&& r.user_actions == actions
            &&& r.original_caller == caller
            &&& r.length_borrows.0 == borrows.len()
            &&& r.length_borrows.1 == 0
            &&& r.deposits == before.deposits
            &&& r.deposits_per_address == before.deposits_per_address
            &&& r.action_key == action_key
        }),
{
    v.storage.lemma_record_key(action_key);
}

/// The shape of what goes back for the first `k` balances.
pub open spec fn give_back_shape(balances: Seq<PaymentView>, deposits: Seq<PaymentView>, k: int, g: Seq<PaymentView>) -> bool {
    &&& forall|m: int| 0 <= m < g.len() ==> #[trigger] g[m].amount > 0
    &&& forall|m: int| 0 <= m < g.len() && holds_token(deposits, #[trigger] g[m].token_identifier)
        ==> g[m].token_nonce == 0 && holds_token(balances.take(k), g[m].token_identifier)
    &&& forall|m: int| 0 <= m < g.len() && !holds_token(deposits, #[trigger] g[m].token_identifier)
        ==> exists|i: int| 0 <= i < k && #[trigger] balances[i] == g[m]
    &&& forall|m: int, n: int| 0 <= m < n < g.len() && holds_token(deposits, #[trigger] g[m].token_identifier)
        ==> #[trigger] g[n].token_identifier != g[m].token_identifier
}

proof fn lemma_give_back_upto_shape(balances: Seq<PaymentView>, deposits: Seq<PaymentView>, fee: u64, k: int)
    requires
        0 <= k <= balances.len(),
        give_back_upto(balances, deposits, fee, k) is Ok,
    ensures
        give_back_shape(balances, deposits, k, give_back_upto(balances, deposits, fee, k)->Ok_0),
    decreases k,
{
    if k > 0 {
        lemma_give_back_upto_shape(balances, deposits, fee, k - 1);
        let g = give_back_upto(balances, deposits, fee, k - 1)->Ok_0;
        let b = balances[k - 1];
        let t = b.token_identifier;
        let g2 = give_back_upto(balances, deposits, fee, k)->Ok_0;
        assert forall|tok: Seq<u8>| holds_token(balances.take(k - 1), tok) implies holds_token(balances.take(k), tok) by {
            lemma_holds_token_take(balances, tok, k - 1);
        }
        lemma_holds_token_take(balances, t, k - 1);
        if !holds_token(deposits, t) {
            if b.amount > 0 {
                assert(g2 == g.push(b));
                assert forall|m: int| 0 <= m < g2.len() && !holds_token(deposits, #[trigger] g2[m].token_identifier)
                    implies exists|i: int| 0 <= i < k && #[trigger] balances[i] == g2[m] by {
                    if m < g.len() {
                        assert(g2[m] == g[m]);
                        let i = choose|i: int| 0 <= i < k - 1 && #[trigger] balances[i] == g[m];
                        assert(balances[i] == g2[m]);
                    } else {
                        assert(balances[k - 1] == g2[m]);
                    }
                }
                assert forall|m: int| 0 <= m < g2.len() && holds_token(deposits, #[trigger] g2[m].token_identifier)
                    implies g2[m].token_nonce == 0 && holds_token(balances.take(k), g2[m].token_identifier) by {
                    assert(m < g.len());
                    assert(g2[m] == g[m]);
                }
                assert forall|m: int, n: int| 0 <= m < n < g2.len() && holds_token(deposits, #[trigger] g2[m].token_identifier)
                    implies #[trigger] g2[n].token_identifier != g2[m].token_identifier by {
                    assert(g2[m] == g[m]);
                    if n < g.len() {
                        assert(g2[n] == g[n]);
                    }
                }
            } else {
                assert forall|m: int| 0 <= m < g2.len() && !holds_token(deposits, #[trigger] g2[m].token_identifier)
                    implies exists|i: int| 0 <= i < k && #[trigger] balances[i] == g2[m] by {
                    let i = choose|i: int| 0 <= i < k - 1 && #[trigger] balances[i] == g[m];
                }
            }
        } else if first_of_its_token(balances, k - 1) {
            let x = settle_token(balances, deposits, fee, t)->Ok_0;
            assert(g2 == g + x);
            assert(!holds_token(balances.take(k - 1), t)) by {
                if holds_token(balances.take(k - 1), t) {
                    let i = choose|i: int| 0 <= i < k - 1 && #[trigger] balances.take(k - 1)[i].token_identifier == t;
                    assert(balances[i].token_identifier == balances[k - 1].token_identifier);
                }
            }
            assert forall|m: int| 0 <= m < x.len() implies #[trigger] x[m].token_identifier == t && x[m].token_nonce == 0 && x[m].amount > 0 by {
            }
            assert forall|m: int| 0 <= m < g2.len() implies #[trigger] g2[m].amount > 0 by {
                if m < g.len() { assert(g2[m] == g[m]); } else { assert(g2[m] == x[m - g.len()]); }
            }
            assert forall|m: int| 0 <= m < g2.len() && holds_token(deposits, #[trigger] g2[m].token_identifier)
                implies g2[m].token_nonce == 0 && holds_token(balances.take(k), g2[m].token_identifier) by {
                if m < g.len() { assert(g2[m] == g[m]); } else { assert(g2[m] == x[m - g.len()]); }
            }
            assert forall|m: int| 0 <= m < g2.len() && !holds_token(deposits, #[trigger] g2[m].token_identifier)
                implies exists|i: int| 0 <= i < k && #[trigger] balances[i] == g2[m] by {
                if m < g.len() {
                    assert(g2[m] == g[m]);
                    let i = choose|i: int| 0 <= i < k - 1 && #[trigger] balances[i] == g[m];
                    assert(balances[i] == g2[m]);
                } else {
                    assert(g2[m] == x[m - g.len()]);
                }
            }
            assert forall|m: int, n: int| 0 <= m < n < g2.len() && holds_token(deposits, #[trigger] g2[m].token_identifier)
                implies #[trigger] g2[n].token_identifier != g2[m].token_identifier by {
                if n < g.len() {
                    assert(g2[m] == g[m] && g2[n] == g[n]);
                } else if m < g.len() {
                    assert(g2[m] == g[m]);
                    assert(g2[n] == x[n - g.len()]);
                } else {
                    assert(x.len() <= 1);
                }
            }
        } else {
            assert(g2 == g);
        }
    }
}

/// What goes back to the borrower has a clear shape: every payment is of a
/// positive amount; a borrowed token goes back at most once, with nonce 0,
/// and only where it was held; every other payment is one of the balances,
/// as it was held.
pub proof fn lemma_give_back_shape(balances: Seq<PaymentView>, deposits: Seq<PaymentView>, fee: u64)
    requires
        give_back_to_user(balances, deposits, fee) is Ok,
    ensures
        give_back_shape(balances, deposits, balances.len() as int, give_back_to_user(balances, deposits, fee)->Ok_0),
{
    lemma_give_back_upto_shape(balances, deposits, fee, balances.len() as int);
}

/// What a balance holds once the result of a swap is added to it.
pub open spec fn with_result(e: PaymentView, result: PaymentView) -> int {
    if e.token_identifier == result.token_identifier { (e.amount + result.amount) as int } else { e.amount as int }
}

proof fn lemma_follow_entries_ok(s: Seq<PaymentView>, first: Seq<u8>, swap: nat, result: PaymentView)
    ensures
        follow_entries(s, first, swap, result) is Ok <==> forall|i: int| 0 <= i < s.len() && #[trigger] s[i].token_identifier == first
            ==> with_result(s[i], result) >= swap,
        follow_entries(s, first, swap, result) is Err ==> follow_entries(s, first, swap, result)
            == Err::<Seq<PaymentView>, FastLoanError>(FastLoanError::BalanceBelowSwapAmount),
    decreases s.len(),
{
    if s.len() > 0 {
        let d = s.drop_last();
        lemma_follow_entries_ok(d, first, swap, result);
        assert forall|i: int| 0 <= i < d.len() implies d[i] == s[i] by {}
        if forall|i: int| 0 <= i < s.len() && #[trigger] s[i].token_identifier == first ==> with_result(s[i], result) >= swap {
            assert forall|i: int| 0 <= i < d.len() && #[trigger] d[i].token_identifier == first implies with_result(d[i], result) >= swap by {
                assert(d[i] == s[i]);
            }
            assert(s[s.len() - 1] == s.last());
        }
        if follow_entries(s, first, swap, result) is Ok {
            assert forall|i: int| 0 <= i < s.len() && #[trigger] s[i].token_identifier == first implies with_result(s[i], result) >= swap by {
                if i < s.len() - 1 {
                    assert(d[i] == s[i]);
                } else {
                    assert(s[i] == s.last());
                }
            }
        }
    }
}

/// Following a swap is refused only where a balance of the token sent, with
/// the result added where the result is of that token, holds less than the
/// swapped amount; the refusal is then `BalanceBelowSwapAmount`.
pub proof fn lemma_follow_balance_refused_only_below_swap(s: Seq<PaymentView>, action: UserActionView, result: PaymentView)
    ensures
        follow_balance(s, action, result) is Ok <==> forall|i: int| 0 <= i < s.len() && #[trigger] s[i].token_identifier == action.first_token
            ==> with_result(s[i], result) >= action.amount_swap,
        follow_balance(s, action, result) is Err ==> follow_balance(s, action, result)
            == Err::<Seq<PaymentView>, FastLoanError>(FastLoanError::BalanceBelowSwapAmount),
{
    lemma_follow_entries_ok(s, action.first_token, action.amount_swap, result);
}

} // verus!
