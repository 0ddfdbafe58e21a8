//! Recording the deposits that the pools make into the flash-loan contract.
use vstd::prelude::*;
use crate::bytes::{bytes_eq, copy_bytes};
use crate::contract::{FastLoanContract, FastLoanView};
use crate::errors::FastLoanError;
use crate::keyed::{latest_index, lemma_latest_index};
use crate::storage::{address_deposits_view, address_key, AddressDeposits, AddressDepositsView, ActionRecordView};
use crate::types::{duplicate_payments, payments_view, EsdtTokenPayment, Exchange, PaymentView};

verus! {

/// `deposits` with `payment` added to the deposits of `address`: appended to
/// its list where the address has one, else as a new list at the end.
pub open spec fn add_address_deposit(deposits: Seq<AddressDepositsView>, address: Seq<u8>, payment: PaymentView) -> Seq<AddressDepositsView> {
    let i = latest_index(deposits, address_key(), address);
    if i >= 0 {
        deposits.update(i, AddressDepositsView { address, payments: deposits[i].payments.push(payment) })
    } else {
        deposits.push(AddressDepositsView { address, payments: seq![payment] })
    }
}

/// The record of `action_key` in `v` with `payment` added to its deposits.
pub open spec fn record_with_deposit(v: FastLoanView, action_key: u64, payment: PaymentView) -> ActionRecordView {
    let r = v.storage.record(action_key);
    ActionRecordView { deposits: r.deposits.push(payment), ..r }
}

/// The record of `action_key` in `v` with `payment` added to the deposits of `address`.
pub open spec fn record_with_address_deposit(v: FastLoanView, action_key: u64, address: Seq<u8>, payment: PaymentView) -> ActionRecordView {
    let r = v.storage.record(action_key);
    ActionRecordView { deposits_per_address: add_address_deposit(r.deposits_per_address, address, payment), ..r }
}

/// Whether `caller` is the xExchange pool set up for `token`.
pub open spec fn is_token_pool(v: FastLoanView, caller: Seq<u8>, token: Seq<u8>) -> bool {
    v.storage.token_exchange(Exchange::Xexchange, token) == Some(caller)
}

/// `deposits` with `payment` added to the deposits of `address`.
pub fn add_address_deposit_exec(deposits: &mut Vec<AddressDeposits>, address: &Vec<u8>, payment: EsdtTokenPayment)
    ensures
        address_deposits_view(final(deposits)@) == add_address_deposit(address_deposits_view(old(deposits)@), address@, payment@),
{
    let ghost s = address_deposits_view(deposits@);
    let mut i = deposits.len();
    while i > 0
        invariant
            i <= deposits@.len(),
            deposits@ == old(deposits)@,
            s == address_deposits_view(deposits@),
            forall|j: int| i <= j < s.len() ==> (address_key())(#[trigger] s[j]) != address@,
        decreases i,
    {
        if bytes_eq(&deposits[i - 1].address, address) {
            proof {
                lemma_latest_index(s, address_key(), address@, i - 1);
            }
            let mut payments = duplicate_payments(&deposits[i - 1].payments);
            let ghost before = payments_view(payments@);
            payments.push(payment);
            assert(payments_view(payments@) =~= before.push(payment@));
            deposits.set(i - 1, AddressDeposits { address: copy_bytes(address), payments });
            assert(address_deposits_view(deposits@) =~= add_address_deposit(s, address@, payment@));
            return;
        }
        i = i - 1;
    }
    proof {
        lemma_latest_index(s, address_key(), address@, -1);
    }
    let mut payments: Vec<EsdtTokenPayment> = Vec::new();
    payments.push(payment);
    assert(payments_view(payments@) =~= seq![payment@]);
    deposits.push(AddressDeposits { address: copy_bytes(address), payments });
    assert(address_deposits_view(deposits@) =~= add_address_deposit(s, address@, payment@));
}

/// Recording the deposits of the pools.
pub trait DepositModule: View<V = FastLoanView> {
    /// Adds `deposit_payment`, with its fee, to what `pool_caller` deposited under `action_key`.
    fn save_address_deposit_tokens(&mut self, action_key: u64, pool_caller: Vec<u8>, deposit_payment: EsdtTokenPayment)
        ensures
            final(self)@.is_old_with_record(
                old(self)@,
                record_with_address_deposit(old(self)@, action_key, pool_caller@, deposit_payment@),
            ),
            old(self)@.wf() ==> final(self)@.wf(),
    ;

    /// Adds `deposit_payment` to the deposits received under `action_key`.
    fn save_deposit_tokens(&mut self, action_key: u64, deposit_payment: EsdtTokenPayment)
        ensures
            final(self)@.is_old_with_record(old(self)@, record_with_deposit(old(self)@, action_key, deposit_payment@)),
            old(self)@.wf() ==> final(self)@.wf(),
    ;

    /// Checks that `pool_caller` is the xExchange pool set up for `token_received`.
    fn check_caller_is_token_pool_borrow(&self, pool_caller: &Vec<u8>, token_received: &Vec<u8>) -> (r: Result<(), FastLoanError>)
        ensures
            r == (if is_token_pool(self@, pool_caller@, token_received@) {
                Ok::<(), FastLoanError>(())
            } else {
                Err(FastLoanError::CallerAddressNotDefined)
            }),
    ;
}

impl DepositModule for FastLoanContract {
    fn save_address_deposit_tokens(&mut self, action_key: u64, pool_caller: Vec<u8>, deposit_payment: EsdtTokenPayment) {
        let mut record = self.storage.get_record(action_key);
        let ghost r0 = record@;
        add_address_deposit_exec(&mut record.deposits_per_address, &pool_caller, deposit_payment);
        assert(record@ == ActionRecordView {
            deposits_per_address: add_address_deposit(r0.deposits_per_address, pool_caller@, deposit_payment@),
            ..r0
        });
        proof {
            if self@.wf() {
                assert(self@.storage.record(action_key).pools_unique());
                crate::laws::lemma_deposits_per_address_unique(r0.deposits_per_address, pool_caller@, deposit_payment@);
            }
        }
        self.storage.set_record(record);
    }

    fn save_deposit_tokens(&mut self, action_key: u64, deposit_payment: EsdtTokenPayment) {
        let mut record = self.storage.get_record(action_key);
        let ghost r0 = record@;
        record.deposits.push(deposit_payment);
        assert(payments_view(record.deposits@) =~= r0.deposits.push(deposit_payment@));
        assert(record@ == ActionRecordView { deposits: r0.deposits.push(deposit_payment@), ..r0 });
        assert(self@.wf() ==> self@.storage.record(action_key).pools_unique());
        self.storage.set_record(record);
    }

    fn check_caller_is_token_pool_borrow(&self, pool_caller: &Vec<u8>, token_received: &Vec<u8>) -> (r: Result<(), FastLoanError>) {
        match self.storage.get_token_exchange(Exchange::Xexchange, token_received) {
            None => Err(FastLoanError::CallerAddressNotDefined),
            Some(address) => {
                if !bytes_eq(pool_caller, &address) {
                    Err(FastLoanError::CallerAddressNotDefined)
                } else {
                    Ok(())
                }
            },
        }
    }
}

} // verus!
