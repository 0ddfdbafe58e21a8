//! A pool's side of a flash loan: it records what it lends, hands the tokens
//! to the flash-loan contract, takes them back with a fee, and checks that its
//! liquidity came back whole.
use vstd::prelude::*;
use crate::bytes::{bytes_eq, copy_bytes};
use crate::errors::PoolError;
use crate::amount::Amount;
use crate::fees::{amount_plus_fee, amount_with_fee};
use crate::keyed::{latest, lemma_latest_at, lemma_latest_prefix, lemma_latest_push, lemma_latest_update};
use crate::types::{duplicate_payments, payments_view, EsdtTokenPayment, PaymentView};

verus! {

/// The call that a pool makes on the flash-loan contract.
#[derive(Debug, PartialEq, Eq)]
pub enum FlashLoanContract {
    /// `depositLoan(action_key)` on the contract at `address`, transferring `payment`.
    DepositLoan { address: Vec<u8>, action_key: u64, payment: EsdtTokenPayment },
}

/// What a pool lent under one action key.
#[derive(Debug, PartialEq, Eq)]
pub struct BorrowedTokens {
    pub action_key: u64,
    pub payments: Vec<EsdtTokenPayment>,
}

/// What a `BorrowedTokens` holds, as plain values.
pub struct BorrowedTokensView {
    pub action_key: u64,
    pub payments: Seq<PaymentView>,
}

impl View for BorrowedTokens {
    type V = BorrowedTokensView;

    open spec fn view(&self) -> BorrowedTokensView {
        BorrowedTokensView { action_key: self.action_key, payments: payments_view(self.payments@) }
    }
}

/// The key under which `BorrowedTokens` entries are read.
pub open spec fn borrowed_key() -> spec_fn(BorrowedTokensView) -> u64 {
    |e: BorrowedTokensView| e.action_key
}

/// What a pool reads and writes for flash loans: its two tokens and their
/// reserves, its supply of liquidity tokens, the flash-loan contract it
/// serves, its flash-loan fee, and what it lent under each action key.
#[derive(Debug, PartialEq, Eq)]
pub struct FlashLoanModule {
    pub first_token_id: Vec<u8>,
    pub second_token_id: Vec<u8>,
    pub first_token_reserve: Amount,
    pub second_token_reserve: Amount,
    pub lp_token_supply: Amount,
    pub flash_loan_sc: Option<Vec<u8>>,
    pub flashloan_fees_percent: u64,
    pub borrowed_tokens: Vec<BorrowedTokens>,
}

/// The running state of a repayment: the two reserves and the fees collected so far.
pub struct RepayProgress {
    pub first_reserve: nat,
    pub second_reserve: nat,
    pub fees: Seq<PaymentView>,
}

/// Takes one payment into account for one borrow; the flag tells whether a
/// payment of the borrowed token was met.
pub open spec fn repay_payment_step(
    first_id: Seq<u8>,
    second_id: Seq<u8>,
    fee: u64,
    borrow: PaymentView,
    payment: PaymentView,
    acc: (RepayProgress, bool),
) -> Result<(RepayProgress, bool), PoolError> {
    if borrow.token_identifier != payment.token_identifier {
        Ok(acc)
    } else {
        let owed = amount_with_fee(borrow.amount as int, fee as int);
        let st = acc.0;
        if payment.amount < owed {
            Err(PoolError::NotEntirelyGivenBack)
        } else if payment.amount > owed {
            Err(PoolError::TooMuchTokensGivenBack)
        } else {
            let fee_payment = PaymentView {
                token_identifier: borrow.token_identifier,
                token_nonce: 0,
                amount: (owed - borrow.amount) as nat,
            };
            if borrow.token_identifier == first_id {
                Ok((RepayProgress {
                    first_reserve: st.first_reserve + borrow.amount,
                    second_reserve: st.second_reserve,
                    fees: st.fees.push(fee_payment),
                }, true))
            } else if borrow.token_identifier == second_id {
                Ok((RepayProgress {
                    first_reserve: st.first_reserve,
                    second_reserve: st.second_reserve + borrow.amount,
                    fees: st.fees.push(fee_payment),
                }, true))
            } else {
                Ok((RepayProgress {
                    first_reserve: st.first_reserve,
                    second_reserve: st.second_reserve,
                    fees: st.fees.push(fee_payment),
                }, true))
            }
        }
    }
}

/// Takes the payments, in order, into account for one borrow.
pub open spec fn repay_payments(
    first_id: Seq<u8>,
    second_id: Seq<u8>,
    fee: u64,
    borrow: PaymentView,
    payments: Seq<PaymentView>,
    start: (RepayProgress, bool),
) -> Result<(RepayProgress, bool), PoolError>
    decreases payments.len(),
{
    if payments.len() == 0 {
        Ok(start)
    } else {
        match repay_payments(first_id, second_id, fee, borrow, payments.drop_last(), start) {
            Err(e) => Err(e),
            Ok(acc) => repay_payment_step(first_id, second_id, fee, borrow, payments.last(), acc),
        }
    }
}

/// Takes the borrows, in order, into account against the payments received:
/// each borrowed token must come back as its amount with the fee, exactly.
pub open spec fn repay_borrows(
    first_id: Seq<u8>,
    second_id: Seq<u8>,
    fee: u64,
    borrows: Seq<PaymentView>,
    payments: Seq<PaymentView>,
    start: RepayProgress,
) -> Result<RepayProgress, PoolError>
    decreases borrows.len(),
{
    if borrows.len() == 0 {
        Ok(start)
    } else {
        match repay_borrows(first_id, second_id, fee, borrows.drop_last(), payments, start) {
            Err(e) => Err(e),
            Ok(st) => match repay_payments(first_id, second_id, fee, borrows.last(), payments, (st, false)) {
                Err(e) => Err(e),
                Ok(acc) => if acc.1 {
                    Ok(acc.0)
                } else {
                    Err(PoolError::OneBorrowNotGivenBack)
                },
            },
        }
    }
}

/// A refusal met on a prefix of the payments is the refusal of all of them.
pub proof fn lemma_repay_payments_err(
    first_id: Seq<u8>,
    second_id: Seq<u8>,
    fee: u64,
    borrow: PaymentView,
    payments: Seq<PaymentView>,
    start: (RepayProgress, bool),
    i: int,
    e: PoolError,
)
    requires
        0 <= i <= payments.len(),
        repay_payments(first_id, second_id, fee, borrow, payments.take(i), start) == Err::<(RepayProgress, bool), PoolError>(e),
    ensures
        repay_payments(first_id, second_id, fee, borrow, payments, start) == Err::<(RepayProgress, bool), PoolError>(e),
    decreases payments.len() - i,
{
    if i == payments.len() {
        assert(payments.take(i) =~= payments);
    } else {
        assert(payments.drop_last().take(i) =~= payments.take(i));
        lemma_repay_payments_err(first_id, second_id, fee, borrow, payments.drop_last(), start, i, e);
    }
}

/// A refusal met on a prefix of the borrows is the refusal of all of them.
pub proof fn lemma_repay_borrows_err(
    first_id: Seq<u8>,
    second_id: Seq<u8>,
    fee: u64,
    borrows: Seq<PaymentView>,
    payments: Seq<PaymentView>,
    start: RepayProgress,
    i: int,
    e: PoolError,
)
    requires
        0 <= i <= borrows.len(),
        repay_borrows(first_id, second_id, fee, borrows.take(i), payments, start) == Err::<RepayProgress, PoolError>(e),
    ensures
        repay_borrows(first_id, second_id, fee, borrows, payments, start) == Err::<RepayProgress, PoolError>(e),
    decreases borrows.len() - i,
{
    if i == borrows.len() {
        assert(borrows.take(i) =~= borrows);
    } else {
        assert(borrows.drop_last().take(i) =~= borrows.take(i));
        lemma_repay_borrows_err(first_id, second_id, fee, borrows.drop_last(), payments, start, i, e);
    }
}

impl FlashLoanModule {
    /// The entries of what was lent, as plain values.
    pub open spec fn borrowed_view(&self) -> Seq<BorrowedTokensView> {
        self.borrowed_tokens@.map_values(|e: BorrowedTokens| e@)
    }

    /// What the pool lent under `action_key`, in order.
    pub open spec fn borrowed_tokens_of(&self, action_key: u64) -> Seq<PaymentView> {
        match latest(self.borrowed_view(), borrowed_key(), action_key) {
            Some(e) => e.payments,
            None => Seq::empty(),
        }
    }

    /// Everything but what was lent is the same in `self` and `other`.
    pub open spec fn same_settings(&self, other: &Self) -> bool {
        &&& self.first_token_id@ == other.first_token_id@
        &&& self.second_token_id@ == other.second_token_id@
        &&& self.lp_token_supply == other.lp_token_supply
        &&& self.flash_loan_sc == other.flash_loan_sc
        &&& self.flashloan_fees_percent == other.flashloan_fees_percent
    }

    /// The result of `repay` on the payments received, from the current reserves.
    pub open spec fn spec_repay(&self, action_key: u64, payments: Seq<PaymentView>) -> Result<RepayProgress, PoolError> {
        repay_borrows(
            self.first_token_id@,
            self.second_token_id@,
            self.flashloan_fees_percent,
            self.borrowed_tokens_of(action_key),
            payments,
            RepayProgress {
                first_reserve: self.first_token_reserve@,
                second_reserve: self.second_token_reserve@,
                fees: Seq::empty(),
            },
        )
    }

    /// The refusal of `check_loan_caller_and_return` for `caller`, if any.
    pub open spec fn caller_refusal(&self, caller: Seq<u8>) -> Option<PoolError> {
        match self.flash_loan_sc {
            None => Some(PoolError::NoFlashLoanScSet),
            Some(a) => if a@ != caller { Some(PoolError::CallerIsNotFlashLoanSc) } else { None },
        }
    }

    /// The amount owed back for `payment_amount`: the amount and the pool's flash-loan fee.
    pub fn add_fee_amount(&self, payment_amount: Amount) -> (r: Amount)
        ensures
            r@ == amount_with_fee(payment_amount@ as int, self.flashloan_fees_percent as int),
    {
        amount_plus_fee(&payment_amount, self.flashloan_fees_percent)
    }

    /// Checks that `caller` is the flash-loan contract that the pool serves,
    /// and returns that contract's address.
    pub fn check_loan_caller_and_return(&self, caller: &Vec<u8>) -> (r: Result<Vec<u8>, PoolError>)
        ensures
            r matches Ok(a) ==> self.caller_refusal(caller@) is None && a@ == caller@,
            r matches Err(e) ==> self.caller_refusal(caller@) == Some(e),
            r is Ok <==> self.caller_refusal(caller@) is None,
    {
        match &self.flash_loan_sc {
            None => Err(PoolError::NoFlashLoanScSet),
            Some(a) => {
                if !bytes_eq(a, caller) {
                    Err(PoolError::CallerIsNotFlashLoanSc)
                } else {
                    Ok(copy_bytes(a))
                }
            },
        }
    }

    /// The index of the latest entry of what was lent under `action_key`.
    fn find_borrowed(&self, action_key: u64) -> (r: Option<usize>)
        ensures
            r matches Some(i) ==> i < self.borrowed_tokens@.len()
                && self.borrowed_tokens@[i as int].action_key == action_key
                && forall|j: int| i < j < self.borrowed_tokens@.len()
                    ==> #[trigger] self.borrowed_tokens@[j].action_key != action_key,
            r is None ==> forall|j: int| 0 <= j < self.borrowed_tokens@.len()
                ==> #[trigger] self.borrowed_tokens@[j].action_key != action_key,
    {
        let mut i = self.borrowed_tokens.len();
        while i > 0
            invariant
                i <= self.borrowed_tokens@.len(),
                forall|j: int| i <= j < self.borrowed_tokens@.len()
                    ==> #[trigger] self.borrowed_tokens@[j].action_key != action_key,
            decreases i,
        {
            if self.borrowed_tokens[i - 1].action_key == action_key {
                return Some(i - 1);
            }
            i = i - 1;
        }
        None
    }

    /// What the pool lent under `action_key`, as a list of payments.
    pub fn get_borrowed_tokens(&self, action_key: u64) -> (r: Vec<EsdtTokenPayment>)
        ensures
            payments_view(r@) == self.borrowed_tokens_of(action_key),
    {
        let ghost s = self.borrowed_view();
        match self.find_borrowed(action_key) {
            Some(i) => {
                proof {
                    lemma_latest_at(s, borrowed_key(), i as int);
                }
                duplicate_payments(&self.borrowed_tokens[i].payments)
            },
            None => {
                proof {
                    lemma_latest_prefix(s, borrowed_key(), action_key, 0);
                }
                Vec::new()
            },
        }
    }

    /// Records that `payment` is lent under `action_key`, and gives the call
    /// that hands it to the flash-loan contract at `loan_address`.
    pub fn call_deposit_loan(&mut self, loan_address: Vec<u8>, payment: EsdtTokenPayment, action_key: u64) -> (call: FlashLoanContract)
        ensures
            call == (FlashLoanContract::DepositLoan { address: loan_address, action_key, payment }),
            final(self).same_settings(old(self)),
            final(self).first_token_reserve == old(self).first_token_reserve,
            final(self).second_token_reserve == old(self).second_token_reserve,
            final(self).borrowed_tokens_of(action_key) == old(self).borrowed_tokens_of(action_key).push(payment@),
            forall|k: u64| k != action_key ==> #[trigger] final(self).borrowed_tokens_of(k) == old(self).borrowed_tokens_of(k),
    {
        let ghost s = self.borrowed_view();
        let mut lent = self.get_borrowed_tokens(action_key);
        let ghost before = payments_view(lent@);
        lent.push(payment.duplicate());
        assert(payments_view(lent@) =~= before.push(payment@));
        let entry = BorrowedTokens { action_key, payments: lent };
        match self.find_borrowed(action_key) {
            Some(i) => {
                self.borrowed_tokens.set(i, entry);
                proof {
                    assert(self.borrowed_view() =~= s.update(i as int, entry@));
                    assert forall|k: u64| #[trigger] latest(self.borrowed_view(), borrowed_key(), k)
                        == (if k == action_key { Some(entry@) } else { latest(s, borrowed_key(), k) }) by {
                        lemma_latest_update(s, borrowed_key(), i as int, entry@, k);
                    }
                }
            },
            None => {
                self.borrowed_tokens.push(entry);
                proof {
                    assert(self.borrowed_view() =~= s.push(entry@));
                    assert forall|k: u64| #[trigger] latest(self.borrowed_view(), borrowed_key(), k)
                        == (if k == action_key { Some(entry@) } else { latest(s, borrowed_key(), k) }) by {
                        lemma_latest_push(s, borrowed_key(), entry@, k);
                    }
                }
            },
        }
        FlashLoanContract::DepositLoan { address: loan_address, action_key, payment }
    }

    /// After the flash-loan contract has returned: checks that the reserve of
    /// the lent token and the supply of liquidity tokens are what they were
    /// before the loan.
    pub fn finish_call_deposit_loan(
        &self,
        is_first_token: bool,
        specific_token_reserve_before_borrow: Amount,
        lp_supply_before_borrow: Amount,
    ) -> (r: Result<(), PoolError>)
        ensures
            r == (if (if is_first_token { self.first_token_reserve@ } else { self.second_token_reserve@ })
                != specific_token_reserve_before_borrow@ {
                Err(PoolError::LiquidityIncorrect)
            } else if lp_supply_before_borrow@ != self.lp_token_supply@ {
                Err(PoolError::LpSupplyIncorrect)
            } else {
                Ok(())
            }),
    {
        if is_first_token {
            if !self.first_token_reserve.same(&specific_token_reserve_before_borrow) {
                return Err(PoolError::LiquidityIncorrect);
            }
        } else {
            if !self.second_token_reserve.same(&specific_token_reserve_before_borrow) {
                return Err(PoolError::LiquidityIncorrect);
            }
        }
        if !lp_supply_before_borrow.same(&self.lp_token_supply) {
            return Err(PoolError::LpSupplyIncorrect);
        }
        Ok(())
    }

    /// Takes back what was lent under `action_key`: each borrowed token must
    /// come back, from the flash-loan contract, as its amount with the fee,
    /// exactly. The borrowed amounts go back to the reserves; the fees, in the
    /// order of the borrows, are returned for the fee collector.
    pub fn repay(&mut self, action_key: u64, caller: &Vec<u8>, payments: &Vec<EsdtTokenPayment>) -> (r: Result<Vec<EsdtTokenPayment>, PoolError>)
        ensures
            old(self).caller_refusal(caller@) matches Some(e) ==> r == Err::<Vec<EsdtTokenPayment>, PoolError>(e),
            old(self).caller_refusal(caller@) is None ==> match old(self).spec_repay(action_key, payments_view(payments@)) {
                Err(e) => r == Err::<Vec<EsdtTokenPayment>, PoolError>(e),
                Ok(st) => r matches Ok(fees) && {
                    &&& payments_view(fees@) == st.fees
                    &&& final(self).first_token_reserve@ == st.first_reserve
                    &&& final(self).second_token_reserve@ == st.second_reserve
                },
            },
            r is Err ==> *final(self) == *old(self),
            final(self).same_settings(old(self)),
            final(self).borrowed_tokens == old(self).borrowed_tokens,
    {
        match self.check_loan_caller_and_return(caller) {
            Err(e) => return Err(e),
            Ok(_) => {},
        }
        let borrowed = self.get_borrowed_tokens(action_key);
        let ghost bv = payments_view(borrowed@);
        let ghost pv = payments_view(payments@);
        let ghost first_id = self.first_token_id@;
        let ghost second_id = self.second_token_id@;
        let fee = self.flashloan_fees_percent;
        let ghost start = RepayProgress {
            first_reserve: self.first_token_reserve@,
            second_reserve: self.second_token_reserve@,
            fees: Seq::empty(),
        };
        let mut first_reserve = self.first_token_reserve.duplicate();
        let mut second_reserve = self.second_token_reserve.duplicate();
        let mut fees: Vec<EsdtTokenPayment> = Vec::new();
        let nb = borrowed.len();
        let np = payments.len();
        let mut i: usize = 0;
        assert(bv.take(0) =~= Seq::<PaymentView>::empty());
        assert(payments_view(fees@) =~= Seq::<PaymentView>::empty());
        while i < nb
            invariant
                nb == borrowed.len(),
                np == payments.len(),
                i <= nb,
                bv == payments_view(borrowed@),
                bv == self.borrowed_tokens_of(action_key),
                self.caller_refusal(caller@) is None,
                *self == *old(self),
                start == (RepayProgress {
                    first_reserve: self.first_token_reserve@,
                    second_reserve: self.second_token_reserve@,
                    fees: Seq::empty(),
                }),
                pv == payments_view(payments@),
                fee == self.flashloan_fees_percent,
                first_id == self.first_token_id@,
                second_id == self.second_token_id@,
                repay_borrows(first_id, second_id, fee, bv.take(i as int), pv, start) == Ok::<RepayProgress, PoolError>(
                    RepayProgress { first_reserve: first_reserve@, second_reserve: second_reserve@, fees: payments_view(fees@) }),
            decreases nb - i,
        {
            let b = &borrowed[i];
            let ghost st = RepayProgress { first_reserve: first_reserve@, second_reserve: second_reserve@, fees: payments_view(fees@) };
            let mut found = false;
            let mut j: usize = 0;
            assert(pv.take(0) =~= Seq::<PaymentView>::empty());
            while j < np
                invariant
                    nb == borrowed.len(),
                    np == payments.len(),
                    i < nb,
                    j <= np,
                    b == borrowed@[i as int],
                    bv == payments_view(borrowed@),
                    bv == self.borrowed_tokens_of(action_key),
                    self.caller_refusal(caller@) is None,
                    *self == *old(self),
                    start == (RepayProgress {
                        first_reserve: self.first_token_reserve@,
                        second_reserve: self.second_token_reserve@,
                        fees: Seq::empty(),
                    }),
                    pv == payments_view(payments@),
                    fee == self.flashloan_fees_percent,
                    first_id == self.first_token_id@,
                    second_id == self.second_token_id@,
                    repay_payments(first_id, second_id, fee, bv[i as int], pv.take(j as int), (st, false))
                        == Ok::<(RepayProgress, bool), PoolError>((RepayProgress { first_reserve: first_reserve@, second_reserve: second_reserve@, fees: payments_view(fees@) }, found)),
                    repay_borrows(first_id, second_id, fee, bv.take(i as int), pv, start) == Ok::<RepayProgress, PoolError>(st),
                decreases np - j,
            {
                let p = &payments[j];
                let ghost acc = (RepayProgress { first_reserve: first_reserve@, second_reserve: second_reserve@, fees: payments_view(fees@) }, found);
                assert(pv.take(j + 1).drop_last() =~= pv.take(j as int));
                assert(pv.take(j + 1).last() == p@);
                let ghost step = repay_payment_step(first_id, second_id, fee, bv[i as int], p@, acc);
                if bytes_eq(&b.token_identifier, &p.token_identifier) {
                    let owed = amount_plus_fee(&b.amount, fee);
                    if !owed.le(&p.amount) {
                        proof { lemma_repay_payments_err(first_id, second_id, fee, bv[i as int], pv, (st, false), j + 1, PoolError::NotEntirelyGivenBack); }
                        proof { self.lemma_repay_fails_at(action_key, pv, bv, i as int, st, PoolError::NotEntirelyGivenBack); }
                        return Err(PoolError::NotEntirelyGivenBack);
                    } else if p.amount.le(&owed) {
                        if bytes_eq(&b.token_identifier, &self.first_token_id) {
                            first_reserve = first_reserve.add(&b.amount);
                        } else if bytes_eq(&b.token_identifier, &self.second_token_id) {
                            second_reserve = second_reserve.add(&b.amount);
                        }
                        proof { crate::laws::lemma_owed_covers_amount(b@.amount, fee); }
                        let fee_part = owed.checked_sub(&b.amount).unwrap();
                        let ghost fv = fee_part@;
                        let ghost old_fees = payments_view(fees@);
                        fees.push(EsdtTokenPayment::new(copy_bytes(&b.token_identifier), 0, fee_part));
                        assert(payments_view(fees@) =~= old_fees.push(PaymentView {
                            token_identifier: b.token_identifier@, token_nonce: 0, amount: fv }));
                    } else {
                        proof { lemma_repay_payments_err(first_id, second_id, fee, bv[i as int], pv, (st, false), j + 1, PoolError::TooMuchTokensGivenBack); }
                        proof { self.lemma_repay_fails_at(action_key, pv, bv, i as int, st, PoolError::TooMuchTokensGivenBack); }
                        return Err(PoolError::TooMuchTokensGivenBack);
                    }
                    found = true;
                }
                j = j + 1;
            }
            assert(pv.take(np as int) =~= pv);
            assert(bv.take(i + 1).drop_last() =~= bv.take(i as int));
            assert(bv.take(i + 1).last() == bv[i as int]);
            if !found {
                proof {
                    lemma_repay_borrows_err(first_id, second_id, fee, bv, pv, start, i + 1, PoolError::OneBorrowNotGivenBack);
                }
                return Err(PoolError::OneBorrowNotGivenBack);
            }
            i = i + 1;
        }
        assert(bv.take(nb as int) =~= bv);
        self.first_token_reserve = first_reserve;
        self.second_token_reserve = second_reserve;
        Ok(fees)
    }

    proof fn lemma_repay_fails_at(&self, action_key: u64, pv: Seq<PaymentView>, bv: Seq<PaymentView>, i: int, st: RepayProgress, e: PoolError)
        requires
            bv == self.borrowed_tokens_of(action_key),
            0 <= i < bv.len(),
            repay_borrows(self.first_token_id@, self.second_token_id@, self.flashloan_fees_percent, bv.take(i), pv,
                RepayProgress { first_reserve: self.first_token_reserve@, second_reserve: self.second_token_reserve@, fees: Seq::empty() })
                == Ok::<RepayProgress, PoolError>(st),
            repay_payments(self.first_token_id@, self.second_token_id@, self.flashloan_fees_percent, bv[i], pv, (st, false))
                == Err::<(RepayProgress, bool), PoolError>(e),
        ensures
            self.spec_repay(action_key, pv) == Err::<RepayProgress, PoolError>(e),
    {
        assert(bv.take(i + 1).drop_last() =~= bv.take(i));
        assert(bv.take(i + 1).last() == bv[i]);
        lemma_repay_borrows_err(self.first_token_id@, self.second_token_id@, self.flashloan_fees_percent, bv, pv,
            RepayProgress { first_reserve: self.first_token_reserve@, second_reserve: self.second_token_reserve@, fees: Seq::empty() },
            i + 1, e);
    }
}

} // verus!
