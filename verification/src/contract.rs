//! The flash-loan contract: its storage and fee setting, and its endpoints.
//! A borrow runs as a sequence of steps, each a call of one of the functions
//! below; between the steps the caller performs the call on the other
//! contract that the step returned. A refused step changes nothing.
use vstd::prelude::*;
use crate::bytes::copy_bytes;
use crate::deposit::{add_address_deposit, is_token_pool, DepositModule};
use crate::errors::FastLoanError;
use crate::fees::{amount_with_fee, FeesModule};
use crate::proxy::{calls_view, PairCallView, PairProxyModule};
use crate::repay::{give_back_to_user, repay_calls, RepayModule};
use crate::storage::{ActionRecordView, StorageModule, StorageView};
use crate::types::{actions_view, borrows_view, payments_view, Borrow, BorrowView, EsdtTokenPayment, Exchange, PaymentView, UserAction};

verus! {

/// The flash-loan contract: what it stores and the fee it charges.
#[derive(Debug, PartialEq, Eq)]
pub struct FastLoanContract {
    pub storage: StorageModule,
    pub fees: FeesModule,
}

/// What the flash-loan contract holds, as plain values.
pub struct FastLoanView {
    pub storage: StorageView,
    pub fees_percentage: u64,
}

impl View for FastLoanContract {
    type V = FastLoanView;

    open spec fn view(&self) -> FastLoanView {
        FastLoanView { storage: self.storage@, fees_percentage: self.fees.fees_percentage }
    }
}

impl FastLoanView {
    /// Every record keeps each pool's deposits in one list.
    pub open spec fn wf(self) -> bool {
        self.storage.wf()
    }

    /// `self` is `old` with `record` written under its action key.
    pub open spec fn is_old_with_record(self, old: FastLoanView, record: ActionRecordView) -> bool {
        &&& self.fees_percentage == old.fees_percentage
        &&& self.storage.is_old_with_record(old.storage, record)
    }
}

/// What a deposit step leads to.
#[derive(Debug, PartialEq, Eq)]
pub enum DepositOutcome {
    /// Borrows are still awaited: the call that asks for the next one.
    NextBorrow(PairProxyModule),
    /// Every borrow is deposited: the user actions run next.
    AllDeposited,
}

/// What a deposit step leads to, as plain values.
pub enum DepositOutcomeView {
    NextBorrow(PairCallView),
    AllDeposited,
}

impl View for DepositOutcome {
    type V = DepositOutcomeView;

    open spec fn view(&self) -> DepositOutcomeView {
        match self {
            DepositOutcome::NextBorrow(c) => DepositOutcomeView::NextBorrow(c@),
            DepositOutcome::AllDeposited => DepositOutcomeView::AllDeposited,
        }
    }
}

/// How a flash loan is settled: the repayment calls to the pools, and what
/// goes back to the borrower.
#[derive(Debug, PartialEq, Eq)]
pub struct Repayment {
    pub pool_repayments: Vec<PairProxyModule>,
    pub receiver: Vec<u8>,
    pub give_back: Vec<EsdtTokenPayment>,
}

/// The call that asks the xExchange pool of the borrowed token to lend it.
pub open spec fn borrow_liquidity_call(v: FastLoanView, action_key: u64, borrow: BorrowView) -> Result<PairCallView, FastLoanError> {
    match v.storage.token_exchange(Exchange::Xexchange, borrow.token) {
        None => Err(FastLoanError::CouldNotExecuteAllBorrows),
        Some(a) => Ok(PairCallView::BorrowLiquidity {
            address: a,
            payment: PaymentView { token_identifier: borrow.token, token_nonce: 0, amount: borrow.amount },
            action_key,
        }),
    }
}

/// The record written by a borrow under `action_key`.
pub open spec fn borrow_record(
    v: FastLoanView,
    action_key: u64,
    borrows: Seq<BorrowView>,
    actions: Seq<crate::types::UserActionView>,
    caller: Seq<u8>,
) -> ActionRecordView {
    ActionRecordView {
        user_actions: actions,
        length_borrows: (borrows.len() as usize, 0),
        original_caller: caller,
        borrows,
        ..v.storage.record(action_key)
    }
}

/// The index of the first borrow of the payment's token and amount, or -1.
pub open spec fn first_matching_borrow(borrows: Seq<BorrowView>, payment: PaymentView) -> int
    decreases borrows.len(),
{
    if borrows.len() == 0 {
        -1
    } else {
        let r = first_matching_borrow(borrows.drop_last(), payment);
        if r >= 0 {
            r
        } else if borrows.last().token == payment.token_identifier && borrows.last().amount == payment.amount {
            borrows.len() - 1
        } else {
            -1
        }
    }
}

/// The result of a deposit of `payment` by `caller` under `action_key`: the
/// record written and what comes next.
pub open spec fn deposit_loan_result(v: FastLoanView, action_key: u64, payment: PaymentView, caller: Seq<u8>)
    -> Result<(ActionRecordView, DepositOutcomeView), FastLoanError>
{
    if !is_token_pool(v, caller, payment.token_identifier) {
        Err(FastLoanError::CallerAddressNotDefined)
    } else {
        let r = v.storage.record(action_key);
        let i = first_matching_borrow(r.borrows, payment);
        let owed = amount_with_fee(payment.amount as int, v.fees_percentage as int);
        if i < 0 {
            Err(FastLoanError::PaymentDoesNotCorrespond)
        } else {
            let rest = r.borrows.remove(i);
            let deposited = ActionRecordView {
                deposits: r.deposits.push(payment),
                deposits_per_address: add_address_deposit(
                    r.deposits_per_address,
                    caller,
                    PaymentView { amount: owed as nat, ..payment },
                ),
                ..r
            };
            if rest.len() == 0 {
                Ok((deposited, DepositOutcomeView::AllDeposited))
            } else {
                match borrow_liquidity_call(v, action_key, rest[0]) {
                    Err(e) => Err(e),
                    Ok(c) => Ok((ActionRecordView { borrows: rest, ..deposited }, DepositOutcomeView::NextBorrow(c))),
                }
            }
        }
    }
}

impl StorageView {
    /// `self` with the counter of action keys at `action_key`.
    pub open spec fn with_action_key(self, action_key: u64) -> StorageView {
        StorageView { action_key: Some(action_key), ..self }
    }
}

/// The first borrow matching a payment is at `i` when none before `i` matches
/// and the borrow at `i` does.
proof fn lemma_first_match_extends(bv: Seq<BorrowView>, payment: PaymentView, i: int)
    requires
        0 <= i < bv.len(),
        first_matching_borrow(bv.take(i), payment) == -1,
        bv[i].token == payment.token_identifier && bv[i].amount == payment.amount,
    ensures
        first_matching_borrow(bv, payment) == i,
    decreases bv.len(),
{
    if i < bv.len() - 1 {
        assert(bv.drop_last().take(i) =~= bv.take(i));
        lemma_first_match_extends(bv.drop_last(), payment, i);
    } else {
        assert(bv.drop_last() =~= bv.take(i));
    }
}

impl FastLoanContract {
    /// A contract with nothing stored and no fee.
    pub fn new() -> (c: Self)
        ensures
            c@.storage.token_exchange.len() == 0,
            c@.storage.token_exchange_pair.len() == 0,
            c@.storage.action_key is None,
            c@.storage.records.len() == 0,
            c@.fees_percentage == 0,
            c@.wf(),
    {
        FastLoanContract { storage: StorageModule::new(), fees: FeesModule { fees_percentage: 0 } }
    }

    /// Sets the fee, in hundredths of a percent of a borrowed amount.
    pub fn init(&mut self, fees: u64)
        ensures
            final(self)@ == (FastLoanView { fees_percentage: fees, ..old(self)@ }),
            old(self)@.wf() ==> final(self)@.wf(),
            final(self)@.storage.counter_step(old(self)@.storage),
    {
        self.fees.fees_percentage = fees;
    }

    /// The call that asks the xExchange pool of the borrowed token to lend it.
    pub fn execute_borrow(&self, action_key: u64, borrow: &Borrow) -> (r: Result<PairProxyModule, FastLoanError>)
        ensures
            match borrow_liquidity_call(self@, action_key, borrow@) {
                Ok(c) => r matches Ok(call) && call@ == c,
                Err(e) => r == Err::<PairProxyModule, FastLoanError>(e),
            },
    {
        match self.storage.get_token_exchange(Exchange::Xexchange, &borrow.token) {
            None => Err(FastLoanError::CouldNotExecuteAllBorrows),
            Some(address) => Ok(PairProxyModule::BorrowLiquidity {
                address,
                payment: EsdtTokenPayment::new(copy_bytes(&borrow.token), 0, borrow.amount.duplicate()),
                action_key,
            }),
        }
    }

    /// Starts a flash loan for `caller`: takes a new action key, records the
    /// borrows and the user actions under it, and gives the call that asks
    /// for the first borrow.
    pub fn borrow(&mut self, borrows: Vec<Borrow>, actions: Vec<UserAction>, caller: Vec<u8>) -> (r: Result<PairProxyModule, FastLoanError>)
        ensures
            match old(self)@.storage.next_action_key() {
                None => r == Err::<PairProxyModule, FastLoanError>(FastLoanError::ActionKeyOverflow),
                Some(k) => if borrows@.len() == 0 {
                    r == Err::<PairProxyModule, FastLoanError>(FastLoanError::NoBorrowAsked)
                } else {
                    match borrow_liquidity_call(old(self)@, k, borrows@[0]@) {
                        Err(e) => r == Err::<PairProxyModule, FastLoanError>(e),
                        Ok(c) => r matches Ok(call) && call@ == c && final(self)@.is_old_with_record(
                            FastLoanView { storage: old(self)@.storage.with_action_key(k), ..old(self)@ },
                            borrow_record(old(self)@, k, borrows_view(borrows@), actions_view(actions@), caller@),
                        ),
                    }
                },
            },
            r is Err ==> final(self)@ == old(self)@,
            old(self)@.wf() ==> final(self)@.wf(),
            final(self)@.storage.counter_step(old(self)@.storage),
    {
        let saved_key = self.storage.action_key;
        let action_key = self.storage.get_or_create_action_key()?;
        if borrows.len() == 0 {
            self.storage.action_key = saved_key;
            return Err(FastLoanError::NoBorrowAsked);
        }
        assert(self@.storage.token_exchange == old(self)@.storage.token_exchange);
        let call = match self.execute_borrow(action_key, &borrows[0]) {
            Err(e) => {
                self.storage.action_key = saved_key;
                return Err(e);
            },
            Ok(c) => c,
        };
        proof {
            if old(self)@.wf() {
                self@.storage.lemma_wf_records(old(self)@.storage);
                assert(self@.storage.record(action_key).pools_unique());
            }
        }
        let mut record = self.storage.get_record(action_key);
        record.length_borrows = (borrows.len(), 0);
        record.user_actions = actions;
        record.original_caller = caller;
        record.borrows = borrows;
        self.storage.set_record(record);
        Ok(call)
    }

    /// Takes the deposit of `payment` by the pool `caller` under
    /// `action_key`: the payment must be the xExchange pool's token and match
    /// a borrow still awaited. The payment is recorded, and with its fee
    /// under the pool; then either the next borrow is asked for, or, when
    /// every borrow is deposited, the user actions come next.
    pub fn deposit_loan(&mut self, action_key: u64, payment: EsdtTokenPayment, caller: Vec<u8>) -> (r: Result<DepositOutcome, FastLoanError>)
        ensures
            match deposit_loan_result(old(self)@, action_key, payment@, caller@) {
                Err(e) => r == Err::<DepositOutcome, FastLoanError>(e) && final(self)@ == old(self)@,
                Ok((record, next)) => r matches Ok(o) && o@ == next
                    && final(self)@.is_old_with_record(old(self)@, record),
            },
            old(self)@.wf() ==> final(self)@.wf(),
            final(self)@.storage.counter_step(old(self)@.storage),
    {
        self.check_caller_is_token_pool_borrow(&caller, &payment.token_identifier)?;
        let record = self.storage.get_record(action_key);
        let mut borrows = record.borrows;
        let ghost bv = borrows_view(borrows@);
        let n = borrows.len();
        let mut i: usize = 0;
        let mut found: Option<usize> = None;
        while i < n
            invariant
                n == borrows.len(),
                i <= n,
                bv == borrows_view(borrows@),
                found is None ==> first_matching_borrow(bv.take(i as int), payment@) == -1,
                found matches Some(k) ==> k < n && first_matching_borrow(bv, payment@) == k,
            decreases n - i,
        {
            assert(bv.take(i + 1).drop_last() =~= bv.take(i as int));
            if found.is_none() {
                if crate::bytes::bytes_eq(&borrows[i].token, &payment.token_identifier) && borrows[i].amount.same(&payment.amount) {
                    proof { lemma_first_match_extends(bv, payment@, i as int); }
                    found = Some(i);
                }
            }
            i = i + 1;
        }
        assert(bv.take(n as int) =~= bv);
        let index = match found {
            None => return Err(FastLoanError::PaymentDoesNotCorrespond),
            Some(k) => k,
        };
        let owed = self.fees.add_fee_amount(payment.amount.duplicate());
        borrows.remove(index);
        assert(borrows_view(borrows@) =~= bv.remove(index as int));
        let outcome = if borrows.len() == 0 {
            DepositOutcome::AllDeposited
        } else {
            DepositOutcome::NextBorrow(self.execute_borrow(action_key, &borrows[0])?)
        };
        self.save_deposit_tokens(action_key, payment.duplicate());
        if borrows.len() != 0 {
            let mut updated = self.storage.get_record(action_key);
            assert(self@.wf() ==> self@.storage.record(action_key).pools_unique());
            let ghost before = updated@;
            updated.borrows = borrows;
            assert(updated@.deposits_per_address == before.deposits_per_address);
            assert(self@.wf() ==> updated@.pools_unique());
            self.storage.set_record(updated);
        }
        let mut with_fee = payment;
        with_fee.amount = owed;
        self.save_address_deposit_tokens(action_key, caller, with_fee);
        Ok(outcome)
    }

    /// Settles the flash loan of `action_key` from the followed balances:
    /// what goes back to the borrower, and the repayments to the pools.
    pub fn check_and_repay(&self, all_balances: &Vec<EsdtTokenPayment>, action_key: u64) -> (r: Result<Repayment, FastLoanError>)
        ensures
            ({
                let record = self@.storage.record(action_key);
                match give_back_to_user(payments_view(all_balances@), record.deposits, self@.fees_percentage) {
                    Err(e) => r == Err::<Repayment, FastLoanError>(e),
                    Ok(g) => r matches Ok(rp) && {
                        &&& payments_view(rp.give_back@) == g
                        &&& calls_view(rp.pool_repayments@) == repay_calls(record.deposits_per_address, action_key)
                        &&& rp.receiver@ == record.original_caller
                    },
                }
            }),
    {
        let give_back = self.check_actions_result_is_enough(action_key, all_balances)?;
        let pool_repayments = self.send_back_to_pools(action_key);
        let record = self.storage.get_record(action_key);
        Ok(Repayment { pool_repayments, receiver: record.original_caller, give_back })
    }
}

} // verus!
