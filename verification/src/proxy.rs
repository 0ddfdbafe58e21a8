//! The calls that the flash-loan contract makes on pair contracts.
use vstd::prelude::*;
use crate::amount::Amount;
use crate::types::{payments_view, EsdtTokenPayment, PaymentView};

verus! {

/// A call on a pair contract, through its proxy.
#[derive(Debug, PartialEq, Eq)]
pub enum PairProxyModule {
    /// `borrowLiquidity(payment, action_key)` on the pool at `address`: lend `payment`.
    BorrowLiquidity { address: Vec<u8>, payment: EsdtTokenPayment, action_key: u64 },
    /// `swapTokensFixedInput(token_out, amount_out_min)` on the pool at
    /// `address`, transferring `payment` in.
    SwapTokensFixedInput { address: Vec<u8>, payment: EsdtTokenPayment, token_out: Vec<u8>, amount_out_min: Amount },
    /// `repay(action_key)` on the pool at `address`, transferring `payments`.
    Repay { address: Vec<u8>, action_key: u64, payments: Vec<EsdtTokenPayment> },
}

/// What a call on a pair contract holds, as plain values.
pub enum PairCallView {
    BorrowLiquidity { address: Seq<u8>, payment: PaymentView, action_key: u64 },
    SwapTokensFixedInput { address: Seq<u8>, payment: PaymentView, token_out: Seq<u8>, amount_out_min: nat },
    Repay { address: Seq<u8>, action_key: u64, payments: Seq<PaymentView> },
}

impl View for PairProxyModule {
    type V = PairCallView;

    open spec fn view(&self) -> PairCallView {
        match self {
            PairProxyModule::BorrowLiquidity { address, payment, action_key } =>
                PairCallView::BorrowLiquidity { address: address@, payment: payment@, action_key: *action_key },
            PairProxyModule::SwapTokensFixedInput { address, payment, token_out, amount_out_min } =>
                PairCallView::SwapTokensFixedInput {
                    address: address@,
                    payment: payment@,
                    token_out: token_out@,
                    amount_out_min: amount_out_min@,
                },
            PairProxyModule::Repay { address, action_key, payments } =>
                PairCallView::Repay { address: address@, action_key: *action_key, payments: payments_view(payments@) },
        }
    }
}

/// The views of a sequence of pair calls.
pub open spec fn calls_view(s: Seq<PairProxyModule>) -> Seq<PairCallView> {
    s.map_values(|c: PairProxyModule| c@)
}

} // verus!
