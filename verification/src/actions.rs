//! Running the borrower's swaps while following the balances of the tokens
//! that the flash-loan contract holds. The swaps themselves are calls on other
//! contracts: `next_swap` gives the call to make, and `follow_swap_result`
//! takes what the call returned.
use vstd::prelude::*;
use crate::amount::Amount;
use crate::bytes::{bytes_eq, copy_bytes};
use crate::contract::{FastLoanContract, FastLoanView};
use crate::errors::FastLoanError;
use crate::proxy::{PairCallView, PairProxyModule};
use crate::storage::AddressDepositsView;
use crate::types::{duplicate_payments, payments_view, EsdtTokenPayment, Exchange, PaymentView, UserActionView};

verus! {

/// The balances followed through the swaps of an action key, and the index
/// of the next swap to run.
#[derive(Debug, PartialEq, Eq)]
pub struct FollowedBalances {
    pub action_key: u64,
    pub next_action: usize,
    pub balances: Vec<EsdtTokenPayment>,
}

/// The pool of `exchange` for the two tokens, looked up in this order and
/// then in the other.
pub open spec fn contract_address_for_action(v: FastLoanView, exchange: Exchange, first: Seq<u8>, second: Seq<u8>) -> Result<Seq<u8>, FastLoanError> {
    match v.storage.token_exchange_pair(exchange, first, second) {
        Some(a) => Ok(a),
        None => match v.storage.token_exchange_pair(exchange, second, first) {
            Some(a) => Ok(a),
            None => Err(FastLoanError::SwapPairUnavailable),
        },
    }
}

/// Whether `address` deposited under the action key: whether it lent tokens.
pub open spec fn lent_under(deposits: Seq<AddressDepositsView>, address: Seq<u8>) -> bool {
    exists|i: int| 0 <= i < deposits.len() && #[trigger] deposits[i].address == address
}

/// The swap call for `action` under `action_key`: the first token goes in at
/// the pool of the two tokens, which must not be a pool that lent tokens.
pub open spec fn swap_call(v: FastLoanView, action_key: u64, action: UserActionView) -> Result<PairCallView, FastLoanError> {
    match contract_address_for_action(v, action.exchange, action.first_token, action.second_token) {
        Err(e) => Err(e),
        Ok(a) => if lent_under(v.storage.record(action_key).deposits_per_address, a) {
            Err(FastLoanError::SwapInBorrowedPool)
        } else {
            Ok(PairCallView::SwapTokensFixedInput {
                address: a,
                payment: PaymentView { token_identifier: action.first_token, token_nonce: 0, amount: action.amount_swap },
                token_out: action.second_token,
                amount_out_min: 1nat,
            })
        },
    }
}

/// One followed balance after a swap of `amount_swap` of `first_token` that
/// returned `result`: the result is added where the tokens agree, then the
/// swapped amount is taken where the balance is of the first token. Every
/// balance of a token is updated so: where a token is followed in several
/// balances (a token borrowed twice), each of them gets the result and each
/// gives up the swapped amount.
pub open spec fn follow_entry(e: PaymentView, first_token: Seq<u8>, amount_swap: nat, result: PaymentView) -> Result<PaymentView, FastLoanError> {
    let added = if e.token_identifier == result.token_identifier { e.amount + result.amount } else { e.amount };
    if e.token_identifier == first_token {
        if added < amount_swap {
            Err(FastLoanError::BalanceBelowSwapAmount)
        } else {
            Ok(PaymentView { amount: (added - amount_swap) as nat, ..e })
        }
    } else {
        Ok(PaymentView { amount: added as nat, ..e })
    }
}

/// All followed balances after a swap, in order.
pub open spec fn follow_entries(s: Seq<PaymentView>, first_token: Seq<u8>, amount_swap: nat, result: PaymentView) -> Result<Seq<PaymentView>, FastLoanError>
    decreases s.len(),
{
    if s.len() == 0 {
        Ok(Seq::empty())
    } else {
        match follow_entries(s.drop_last(), first_token, amount_swap, result) {
            Err(e) => Err(e),
            Ok(t) => match follow_entry(s.last(), first_token, amount_swap, result) {
                Err(e) => Err(e),
                Ok(x) => Ok(t.push(x)),
            },
        }
    }
}

/// Whether some followed balance is of `token`.
pub open spec fn follows_token(s: Seq<PaymentView>, token: Seq<u8>) -> bool {
    exists|i: int| 0 <= i < s.len() && #[trigger] s[i].token_identifier == token
}

/// The followed balances after a swap of `amount_swap` of `first_token`
/// that returned `result`: every balance is updated, and a token not followed
/// yet is followed from the result on.
pub open spec fn followed_after_swap(s: Seq<PaymentView>, first_token: Seq<u8>, amount_swap: nat, result: PaymentView) -> Result<Seq<PaymentView>, FastLoanError> {
    match follow_entries(s, first_token, amount_swap, result) {
        Err(e) => Err(e),
        Ok(t) => if follows_token(s, result.token_identifier) {
            Ok(t)
        } else {
            Ok(t.push(PaymentView { token_identifier: result.token_identifier, token_nonce: 0, amount: result.amount }))
        },
    }
}

/// The followed balances after `action` returned `result`.
pub open spec fn follow_balance(s: Seq<PaymentView>, action: UserActionView, result: PaymentView) -> Result<Seq<PaymentView>, FastLoanError> {
    followed_after_swap(s, action.first_token, action.amount_swap, result)
}

/// A refusal met on a prefix of the balances is the refusal of all of them.
pub proof fn lemma_follow_entries_err(s: Seq<PaymentView>, first_token: Seq<u8>, amount_swap: nat, result: PaymentView, i: int, e: FastLoanError)
    requires
        0 <= i <= s.len(),
        follow_entries(s.take(i), first_token, amount_swap, result) == Err::<Seq<PaymentView>, FastLoanError>(e),
    ensures
        follow_entries(s, first_token, amount_swap, result) == Err::<Seq<PaymentView>, FastLoanError>(e),
    decreases s.len() - i,
{
    if i == s.len() {
        assert(s.take(i) =~= s);
    } else {
        assert(s.drop_last().take(i) =~= s.take(i));
        lemma_follow_entries_err(s.drop_last(), first_token, amount_swap, result, i, e);
    }
}

/// The balances after a swap of `amount_swap` of `action_first_token` that returned `result`.
fn follow_balances_exec(balances: &Vec<EsdtTokenPayment>, action_first_token: &Vec<u8>, amount_swap: &Amount, result: &EsdtTokenPayment) -> (r: Result<Vec<EsdtTokenPayment>, FastLoanError>)
    ensures
        match followed_after_swap(payments_view(balances@), action_first_token@, amount_swap@, result@) {
            Ok(t) => r matches Ok(v) && payments_view(v@) == t,
            Err(e) => r == Err::<Vec<EsdtTokenPayment>, FastLoanError>(e),
        },
{
    let ghost s = payments_view(balances@);
    let ghost first = action_first_token@;
    let n = balances.len();
    let mut out: Vec<EsdtTokenPayment> = Vec::new();
    let mut found = false;
    let mut i: usize = 0;
    assert(s.take(0) =~= Seq::<PaymentView>::empty());
    assert(payments_view(out@) =~= Seq::<PaymentView>::empty());
    while i < n
        invariant
            n == balances.len(),
            i <= n,
            s == payments_view(balances@),
            first == action_first_token@,
            follow_entries(s.take(i as int), first, amount_swap@, result@) == Ok::<Seq<PaymentView>, FastLoanError>(payments_view(out@)),
            found <==> follows_token(s.take(i as int), result@.token_identifier),
        decreases n - i,
    {
        let e = &balances[i];
        assert(s.take(i + 1).drop_last() =~= s.take(i as int));
        assert(s.take(i + 1).last() == e@);
        let same_as_result = bytes_eq(&e.token_identifier, &result.token_identifier);
        let mut amount = e.amount.duplicate();
        if same_as_result {
            amount = amount.add(&result.amount);
            found = true;
        }
        if bytes_eq(&e.token_identifier, action_first_token) {
            match amount.checked_sub(amount_swap) {
                None => {
                    proof { lemma_follow_entries_err(s, first, amount_swap@, result@, i + 1, FastLoanError::BalanceBelowSwapAmount); }
                    return Err(FastLoanError::BalanceBelowSwapAmount);
                },
                Some(v) => { amount = v; },
            }
        }
        let ghost old_out = payments_view(out@);
        let ghost new_amount = amount@;
        out.push(EsdtTokenPayment::new(copy_bytes(&e.token_identifier), e.token_nonce, amount));
        assert(payments_view(out@) =~= old_out.push(PaymentView { amount: new_amount, ..e@ }));
        proof {
            if found {
                if same_as_result {
                    assert(s.take(i + 1)[i as int].token_identifier == result@.token_identifier);
                } else {
                    let j = choose|j: int| 0 <= j < i && #[trigger] s.take(i as int)[j].token_identifier == result@.token_identifier;
                    assert(s.take(i + 1)[j].token_identifier == result@.token_identifier);
                }
            }
            if follows_token(s.take(i + 1), result@.token_identifier) {
                let j = choose|j: int| 0 <= j < i + 1 && #[trigger] s.take(i + 1)[j].token_identifier == result@.token_identifier;
                if j < i {
                    assert(s.take(i as int)[j].token_identifier == result@.token_identifier);
                }
            }
        }
        i = i + 1;
    }
    assert(s.take(n as int) =~= s);
    if !found {
        let ghost old_out = payments_view(out@);
        out.push(EsdtTokenPayment::new(copy_bytes(&result.token_identifier), 0, result.amount.duplicate()));
        assert(payments_view(out@) =~= old_out.push(
            PaymentView { token_identifier: result@.token_identifier, token_nonce: 0, amount: result@.amount }));
    }
    Ok(out)
}

/// Running the borrower's swaps.
pub trait UserActionsModule: View<V = FastLoanView> {
    /// The pool of `exchange` for the two tokens, in either order.
    fn get_contract_address_for_action(&self, exchange: Exchange, first_token: &Vec<u8>, second_token: &Vec<u8>) -> (r: Result<Vec<u8>, FastLoanError>)
        ensures
            match contract_address_for_action(self@, exchange, first_token@, second_token@) {
                Ok(a) => r matches Ok(v) && v@ == a,
                Err(e) => r == Err::<Vec<u8>, FastLoanError>(e),
            },
    ;

    /// Starts following the balances under `action_key` from the deposits
    /// received, before the first swap.
    fn start_following_balances(&self, action_key: u64) -> (run: FollowedBalances)
        ensures
            run.action_key == action_key,
            run.next_action == 0,
            payments_view(run.balances@) == self@.storage.record(action_key).deposits,
    ;

    /// The swap call of the next action, or `None` when all have run.
    fn next_swap(&self, run: &FollowedBalances) -> (r: Result<Option<PairProxyModule>, FastLoanError>)
        ensures
            ({
                let actions = self@.storage.record(run.action_key).user_actions;
                if run.next_action >= actions.len() {
                    r == Ok::<Option<PairProxyModule>, FastLoanError>(None)
                } else {
                    match swap_call(self@, run.action_key, actions[run.next_action as int]) {
                        Ok(c) => r matches Ok(Some(call)) && call@ == c,
                        Err(e) => r == Err::<Option<PairProxyModule>, FastLoanError>(e),
                    }
                }
            }),
    ;

    /// Follows the balances through `result`, what the swap of the next
    /// action returned, and moves on to the action after it.
    fn follow_swap_result(&self, run: &mut FollowedBalances, result: EsdtTokenPayment) -> (r: Result<(), FastLoanError>)
        requires
            old(run).next_action < self@.storage.record(old(run).action_key).user_actions.len(),
        ensures
            match follow_balance(
                payments_view(old(run).balances@),
                self@.storage.record(old(run).action_key).user_actions[old(run).next_action as int],
                result@,
            ) {
                Ok(t) => r is Ok && payments_view(final(run).balances@) == t
                    && final(run).next_action == old(run).next_action + 1
                    && final(run).action_key == old(run).action_key,
                Err(e) => r == Err::<(), FastLoanError>(e) && *final(run) == *old(run),
            },
    ;
}

impl UserActionsModule for FastLoanContract {
    fn get_contract_address_for_action(&self, exchange: Exchange, first_token: &Vec<u8>, second_token: &Vec<u8>) -> (r: Result<Vec<u8>, FastLoanError>) {
        match self.storage.get_token_exchange_pair(exchange, first_token, second_token) {
            Some(a) => Ok(a),
            None => match self.storage.get_token_exchange_pair(exchange, second_token, first_token) {
                Some(a) => Ok(a),
                None => Err(FastLoanError::SwapPairUnavailable),
            },
        }
    }

    fn start_following_balances(&self, action_key: u64) -> (run: FollowedBalances) {
        let record = self.storage.get_record(action_key);
        FollowedBalances { action_key, next_action: 0, balances: duplicate_payments(&record.deposits) }
    }

    fn next_swap(&self, run: &FollowedBalances) -> (r: Result<Option<PairProxyModule>, FastLoanError>) {
        let record = self.storage.get_record(run.action_key);
        if run.next_action >= record.user_actions.len() {
            return Ok(None);
        }
        let action = &record.user_actions[run.next_action];
        assert(action@ == self@.storage.record(run.action_key).user_actions[run.next_action as int]);
        let contract = self.get_contract_address_for_action(action.exchange, &action.first_token, &action.second_token)?;
        let n = record.deposits_per_address.len();
        let mut i: usize = 0;
        while i < n
            invariant
                n == record.deposits_per_address.len(),
                record@ == self@.storage.record(run.action_key),
                run.next_action < record@.user_actions.len(),
                action@ == record@.user_actions[run.next_action as int],
                contract_address_for_action(self@, action@.exchange, action@.first_token, action@.second_token)
                    == Ok::<Seq<u8>, FastLoanError>(contract@),
                i <= n,
                forall|j: int| 0 <= j < i ==> #[trigger] record@.deposits_per_address[j].address != contract@,
            decreases n - i,
        {
            if bytes_eq(&record.deposits_per_address[i].address, &contract) {
                assert(record@.deposits_per_address[i as int].address == contract@);
                assert(lent_under(self@.storage.record(run.action_key).deposits_per_address, contract@));
                return Err(FastLoanError::SwapInBorrowedPool);
            }
            i = i + 1;
        }
        Ok(Some(PairProxyModule::SwapTokensFixedInput {
            address: contract,
            payment: EsdtTokenPayment::new(copy_bytes(&action.first_token), 0, action.amount_swap.duplicate()),
            token_out: copy_bytes(&action.second_token),
            amount_out_min: Amount::from_u128(1),
        }))
    }

    fn follow_swap_result(&self, run: &mut FollowedBalances, result: EsdtTokenPayment) -> (r: Result<(), FastLoanError>) {
        let record = self.storage.get_record(run.action_key);
        let action = &record.user_actions[run.next_action];
        assert(run.next_action < record.user_actions.len());
        let balances = follow_balances_exec(&run.balances, &action.first_token, &action.amount_swap, &result)?;
        run.balances = balances;
        run.next_action = run.next_action + 1;
        Ok(())
    }
}

} // verus!
