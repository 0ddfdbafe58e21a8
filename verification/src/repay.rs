//! Settling a flash loan: what the borrower gets back once every pool is owed
//! its loan with the fee, and the repayments to the pools.
use vstd::prelude::*;
use crate::bytes::{bytes_eq, copy_bytes};
use crate::contract::{FastLoanContract, FastLoanView};
use crate::errors::FastLoanError;
use crate::amount::Amount;
use crate::fees::{amount_plus_fee, amount_with_fee};
use crate::proxy::{calls_view, PairCallView, PairProxyModule};
use crate::storage::AddressDepositsView;
use crate::types::{duplicate_payments, holds_token, payments_view, total_of, EsdtTokenPayment, PaymentView};

verus! {

/// What is owed for `token`: the sum, over the deposits of that token, of
/// each deposit with the fee.
pub open spec fn owed_for(deposits: Seq<PaymentView>, token: Seq<u8>, fee: u64) -> int
    decreases deposits.len(),
{
    if deposits.len() == 0 {
        0
    } else {
        owed_for(deposits.drop_last(), token, fee) + if deposits.last().token_identifier == token {
            amount_with_fee(deposits.last().amount as int, fee as int)
        } else {
            0
        }
    }
}

/// Whether `s[i]` is the first payment of its token in `s`.
pub open spec fn first_of_its_token(s: Seq<PaymentView>, i: int) -> bool {
    forall|j: int| 0 <= j < i ==> #[trigger] s[j].token_identifier != s[i].token_identifier
}

/// What goes back to the borrower of a borrowed token: the total held of
/// the token less what is owed for it, refused where the total held falls
/// short of what is owed.
pub open spec fn settle_token(balances: Seq<PaymentView>, deposits: Seq<PaymentView>, fee: u64, token: Seq<u8>) -> Result<Seq<PaymentView>, FastLoanError> {
    let held = total_of(balances, token);
    let owed = owed_for(deposits, token, fee);
    if owed > held {
        Err(FastLoanError::NotEntirelyGivenBack)
    } else if owed < held {
        Ok(seq![PaymentView { token_identifier: token, token_nonce: 0, amount: (held - owed) as nat }])
    } else {
        Ok(Seq::empty())
    }
}

/// What goes back to the borrower for the first `k` balances: a balance of
/// a token that was not borrowed goes back as it is, where it is not 0; a
/// borrowed token is settled once, at its first balance.
pub open spec fn give_back_upto(balances: Seq<PaymentView>, deposits: Seq<PaymentView>, fee: u64, k: int) -> Result<Seq<PaymentView>, FastLoanError>
    decreases k,
{
    if k <= 0 {
        Ok(Seq::empty())
    } else {
        match give_back_upto(balances, deposits, fee, k - 1) {
            Err(e) => Err(e),
            Ok(g) => {
                let b = balances[k - 1];
                if !holds_token(deposits, b.token_identifier) {
                    if b.amount > 0 {
                        Ok(g.push(b))
                    } else {
                        Ok(g)
                    }
                } else if first_of_its_token(balances, k - 1) {
                    match settle_token(balances, deposits, fee, b.token_identifier) {
                        Err(e) => Err(e),
                        Ok(x) => Ok(g + x),
                    }
                } else {
                    Ok(g)
                }
            },
        }
    }
}

/// Whether a borrowed amount is of a token that no balance holds.
pub open spec fn unheld_deposit(balances: Seq<PaymentView>, deposits: Seq<PaymentView>) -> bool {
    exists|j: int| 0 <= j < deposits.len() && #[trigger] deposits[j].amount > 0
        && !holds_token(balances, deposits[j].token_identifier)
}

/// What goes back to the borrower from the followed balances: each balance
/// of a token that was not borrowed, and for each borrowed token its total
/// held less what is owed for it with the fees; refused when a borrowed
/// token's total falls short of what is owed for it.
pub open spec fn give_back_to_user(balances: Seq<PaymentView>, deposits: Seq<PaymentView>, fee: u64) -> Result<Seq<PaymentView>, FastLoanError> {
    match give_back_upto(balances, deposits, fee, balances.len() as int) {
        Err(e) => Err(e),
        Ok(g) => if unheld_deposit(balances, deposits) {
            Err(FastLoanError::NotEntirelyGivenBack)
        } else {
            Ok(g)
        },
    }
}

/// The repayment calls: to each pool that deposited, in the order of the
/// deposits, what it is owed.
pub open spec fn repay_calls(deposits_per_address: Seq<AddressDepositsView>, action_key: u64) -> Seq<PairCallView> {
    deposits_per_address.map_values(|d: AddressDepositsView|
        PairCallView::Repay { address: d.address, action_key, payments: d.payments })
}

/// A refusal met on the first balances is the refusal of all of them.
pub proof fn lemma_give_back_err(balances: Seq<PaymentView>, deposits: Seq<PaymentView>, fee: u64, k: int, n: int, e: FastLoanError)
    requires
        0 <= k <= n,
        give_back_upto(balances, deposits, fee, k) == Err::<Seq<PaymentView>, FastLoanError>(e),
    ensures
        give_back_upto(balances, deposits, fee, n) == Err::<Seq<PaymentView>, FastLoanError>(e),
    decreases n - k,
{
    if k < n {
        lemma_give_back_err(balances, deposits, fee, k, n - 1, e);
    }
}

/// What is owed is never negative, never less than what is owed on a prefix,
/// and at least each deposit of the token with its fee.
pub proof fn lemma_owed_for_prefix(deposits: Seq<PaymentView>, token: Seq<u8>, fee: u64, k: int)
    requires
        0 <= k <= deposits.len(),
    ensures
        0 <= owed_for(deposits.take(k), token, fee) <= owed_for(deposits, token, fee),
    decreases deposits.len(),
{
    if k == deposits.len() {
        assert(deposits.take(k) =~= deposits);
        lemma_owed_for_nonneg(deposits, token, fee);
    } else {
        assert(deposits.drop_last().take(k) =~= deposits.take(k));
        lemma_owed_for_prefix(deposits.drop_last(), token, fee, k);
        crate::laws::lemma_owed_covers_amount(deposits.last().amount, fee);
    }
}

/// What is owed is never negative.
pub proof fn lemma_owed_for_nonneg(deposits: Seq<PaymentView>, token: Seq<u8>, fee: u64)
    ensures
        owed_for(deposits, token, fee) >= 0,
    decreases deposits.len(),
{
    if deposits.len() > 0 {
        lemma_owed_for_nonneg(deposits.drop_last(), token, fee);
        crate::laws::lemma_owed_covers_amount(deposits.last().amount, fee);
    }
}

/// Whether `balances[i]` is the first balance of its token.
fn is_first_of_its_token(balances: &Vec<EsdtTokenPayment>, i: usize) -> (r: bool)
    requires
        i < balances.len(),
    ensures
        r == first_of_its_token(payments_view(balances@), i as int),
{
    let ghost bv = payments_view(balances@);
    let mut j: usize = 0;
    while j < i
        invariant
            i < balances.len(),
            j <= i,
            bv == payments_view(balances@),
            forall|k: int| 0 <= k < j ==> #[trigger] bv[k].token_identifier != bv[i as int].token_identifier,
        decreases i - j,
    {
        if bytes_eq(&balances[j].token_identifier, &balances[i].token_identifier) {
            assert(bv[j as int].token_identifier == bv[i as int].token_identifier);
            return false;
        }
        j = j + 1;
    }
    true
}

/// Whether some payment of `payments` is of `token`.
fn holds_token_exec(payments: &Vec<EsdtTokenPayment>, token: &Vec<u8>) -> (r: bool)
    ensures
        r == holds_token(payments_view(payments@), token@),
{
    let ghost pv = payments_view(payments@);
    let mut j: usize = 0;
    while j < payments.len()
        invariant
            j <= payments.len(),
            pv == payments_view(payments@),
            forall|k: int| 0 <= k < j ==> #[trigger] pv[k].token_identifier != token@,
        decreases payments.len() - j,
    {
        if bytes_eq(&payments[j].token_identifier, token) {
            assert(pv[j as int].token_identifier == token@);
            return true;
        }
        j = j + 1;
    }
    false
}

/// The total of `token` among `payments`.
fn total_held(payments: &Vec<EsdtTokenPayment>, token: &Vec<u8>) -> (r: Amount)
    ensures
        r@ == total_of(payments_view(payments@), token@),
{
    let ghost pv = payments_view(payments@);
    let mut total = Amount::zero();
    let mut j: usize = 0;
    assert(pv.take(0) =~= Seq::<PaymentView>::empty());
    while j < payments.len()
        invariant
            j <= payments.len(),
            pv == payments_view(payments@),
            total@ == total_of(pv.take(j as int), token@),
        decreases payments.len() - j,
    {
        assert(pv.take(j + 1).drop_last() =~= pv.take(j as int));
        if bytes_eq(&payments[j].token_identifier, token) {
            total = total.add(&payments[j].amount);
        }
        j = j + 1;
    }
    assert(pv.take(payments.len() as int) =~= pv);
    total
}

/// Whether some deposit is of `token`, and what is owed for it with the fees.
fn total_owed(deposits: &Vec<EsdtTokenPayment>, token: &Vec<u8>, fee: u64) -> (r: (bool, Amount))
    ensures
        r.0 == holds_token(payments_view(deposits@), token@),
        r.1@ == owed_for(payments_view(deposits@), token@, fee),
{
    let ghost dv = payments_view(deposits@);
    let mut owed = Amount::zero();
    let mut borrowed = false;
    let mut j: usize = 0;
    assert(dv.take(0) =~= Seq::<PaymentView>::empty());
    while j < deposits.len()
        invariant
            j <= deposits.len(),
            dv == payments_view(deposits@),
            owed@ == owed_for(dv.take(j as int), token@, fee),
            borrowed <==> holds_token(dv.take(j as int), token@),
        decreases deposits.len() - j,
    {
        assert(dv.take(j + 1).drop_last() =~= dv.take(j as int));
        assert(dv.take(j + 1)[j as int] == dv[j as int]);
        proof {
            if holds_token(dv.take(j as int), token@) {
                let k = choose|k: int| 0 <= k < j && #[trigger] dv.take(j as int)[k].token_identifier == token@;
                assert(dv.take(j + 1)[k].token_identifier == token@);
            }
            if holds_token(dv.take(j + 1), token@) {
                let k = choose|k: int| 0 <= k < j + 1 && #[trigger] dv.take(j + 1)[k].token_identifier == token@;
                if k < j {
                    assert(dv.take(j as int)[k].token_identifier == token@);
                }
            }
        }
        if bytes_eq(&deposits[j].token_identifier, token) {
            assert(dv.take(j + 1)[j as int].token_identifier == token@);
            borrowed = true;
            owed = owed.add(&amount_plus_fee(&deposits[j].amount, fee));
        }
        j = j + 1;
    }
    assert(dv.take(deposits.len() as int) =~= dv);
    (borrowed, owed)
}

/// Settling a flash loan.
pub trait RepayModule: View<V = FastLoanView> {
    /// What goes back to the borrower from the balances followed under
    /// `action_key`; refused when the total held of a borrowed token does not
    /// cover what is owed for it with the fees.
    fn check_actions_result_is_enough(&self, action_key: u64, all_balances: &Vec<EsdtTokenPayment>) -> (r: Result<Vec<EsdtTokenPayment>, FastLoanError>)
        ensures
            match give_back_to_user(payments_view(all_balances@), self@.storage.record(action_key).deposits, self@.fees_percentage) {
                Ok(g) => r matches Ok(v) && payments_view(v@) == g,
                Err(e) => r == Err::<Vec<EsdtTokenPayment>, FastLoanError>(e),
            },
    ;

    /// The repayment calls to the pools that lent under `action_key`.
    fn send_back_to_pools(&self, action_key: u64) -> (calls: Vec<PairProxyModule>)
        ensures
            calls_view(calls@) == repay_calls(self@.storage.record(action_key).deposits_per_address, action_key),
    ;
}

impl RepayModule for FastLoanContract {
    fn check_actions_result_is_enough(&self, action_key: u64, all_balances: &Vec<EsdtTokenPayment>) -> (r: Result<Vec<EsdtTokenPayment>, FastLoanError>) {
        let record = self.storage.get_record(action_key);
        let all_deposits = &record.deposits;
        let ghost bv = payments_view(all_balances@);
        let ghost dv = payments_view(all_deposits@);
        let fee = self.fees.fees_percentage;
        let mut give_back: Vec<EsdtTokenPayment> = Vec::new();
        let nb = all_balances.len();
        let mut i: usize = 0;
        assert(payments_view(give_back@) =~= Seq::<PaymentView>::empty());
        while i < nb
            invariant
                nb == all_balances.len(),
                i <= nb,
                bv == payments_view(all_balances@),
                dv == payments_view(all_deposits@),
                fee == self.fees.fees_percentage,
                dv == self@.storage.record(action_key).deposits,
                give_back_upto(bv, dv, fee, i as int) == Ok::<Seq<PaymentView>, FastLoanError>(payments_view(give_back@)),
            decreases nb - i,
        {
            let balance = &all_balances[i];
            let (borrowed, owed) = total_owed(all_deposits, &balance.token_identifier, fee);
            if !borrowed {
                if !balance.amount.is_zero() {
                    let ghost old_g = payments_view(give_back@);
                    give_back.push(balance.duplicate());
                    assert(payments_view(give_back@) =~= old_g.push(balance@));
                }
            } else if is_first_of_its_token(all_balances, i) {
                let held = total_held(all_balances, &balance.token_identifier);
                match held.checked_sub(&owed) {
                    None => {
                        proof { lemma_give_back_err(bv, dv, fee, i + 1, nb as int, FastLoanError::NotEntirelyGivenBack); }
                        return Err(FastLoanError::NotEntirelyGivenBack);
                    },
                    Some(surplus) => {
                        if !surplus.is_zero() {
                            let ghost old_g = payments_view(give_back@);
                            let ghost sv = surplus@;
                            give_back.push(EsdtTokenPayment::new(copy_bytes(&balance.token_identifier), 0, surplus));
                            assert(payments_view(give_back@) =~= old_g + seq![PaymentView {
                                token_identifier: balance@.token_identifier, token_nonce: 0, amount: sv }]);
                        } else {
                            assert(payments_view(give_back@) =~= payments_view(give_back@) + Seq::<PaymentView>::empty());
                        }
                    },
                }
            }
            i = i + 1;
        }
        let nd = all_deposits.len();
        let mut j: usize = 0;
        while j < nd
            invariant
                nb == all_balances.len(),
                nd == all_deposits.len(),
                j <= nd,
                bv == payments_view(all_balances@),
                dv == payments_view(all_deposits@),
                fee == self.fees.fees_percentage,
                dv == self@.storage.record(action_key).deposits,
                give_back_upto(bv, dv, fee, nb as int) == Ok::<Seq<PaymentView>, FastLoanError>(payments_view(give_back@)),
                forall|k: int| 0 <= k < j && #[trigger] dv[k].amount > 0 ==> holds_token(bv, dv[k].token_identifier),
            decreases nd - j,
        {
            let d = &all_deposits[j];
            if !d.amount.is_zero() && !holds_token_exec(all_balances, &d.token_identifier) {
                assert(unheld_deposit(bv, dv)) by {
                    assert(dv[j as int].amount > 0 && !holds_token(bv, dv[j as int].token_identifier));
                }
                return Err(FastLoanError::NotEntirelyGivenBack);
            }
            j = j + 1;
        }
        Ok(give_back)
    }

    fn send_back_to_pools(&self, action_key: u64) -> (calls: Vec<PairProxyModule>) {
        let record = self.storage.get_record(action_key);
        let ghost dpa = record@.deposits_per_address;
        let n = record.deposits_per_address.len();
        let mut calls: Vec<PairProxyModule> = Vec::new();
        let mut i: usize = 0;
        while i < n
            invariant
                n == record.deposits_per_address.len(),
                dpa == record@.deposits_per_address,
                i <= n,
                calls_view(calls@) =~= repay_calls(dpa.take(i as int), action_key),
            decreases n - i,
        {
            let d = &record.deposits_per_address[i];
            let ghost old_calls = calls_view(calls@);
            calls.push(PairProxyModule::Repay {
                address: copy_bytes(&d.address),
                action_key,
                payments: duplicate_payments(&d.payments),
            });
            assert(dpa.take(i + 1) =~= dpa.take(i as int).push(dpa[i as int]));
            assert(calls_view(calls@) =~= old_calls.push(PairCallView::Repay {
                address: dpa[i as int].address,
                action_key,
                payments: dpa[i as int].payments,
            }));
            i = i + 1;
        }
        assert(dpa.take(n as int) =~= dpa);
        calls
    }
}

} // verus!
