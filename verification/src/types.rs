//! The values that the flash-loan contract and the pools exchange.
use vstd::prelude::*;
use crate::amount::Amount;
use crate::bytes::copy_bytes;

verus! {

/// The exchanges whose pools the flash-loan contract knows.
#[derive(Debug, Clone, Copy, PartialEq, Eq, Structural)]
pub enum Exchange {
    Xexchange,
    Jexchange,
    Ashswap,
    JewelSwap,
}

/// A transfer of an amount of a token: its identifier, its nonce and the amount.
#[derive(Debug, Clone, PartialEq, Eq)]
pub struct EsdtTokenPayment {
    pub token_identifier: Vec<u8>,
    pub token_nonce: u64,
    pub amount: Amount,
}

/// What a payment holds, as plain values.
pub struct PaymentView {
    pub token_identifier: Seq<u8>,
    pub token_nonce: u64,
    pub amount: nat,
}

impl View for EsdtTokenPayment {
    type V = PaymentView;

    open spec fn view(&self) -> PaymentView {
        PaymentView {
            token_identifier: self.token_identifier@,
            token_nonce: self.token_nonce,
            amount: self.amount@,
        }
    }
}

/// The views of a sequence of payments.
pub open spec fn payments_view(s: Seq<EsdtTokenPayment>) -> Seq<PaymentView> {
    s.map_values(|p: EsdtTokenPayment| p@)
}

impl EsdtTokenPayment {
    pub fn new(token_identifier: Vec<u8>, token_nonce: u64, amount: Amount) -> (p: Self)
        ensures
            p@ == (PaymentView { token_identifier: token_identifier@, token_nonce, amount: amount@ }),
    {
        EsdtTokenPayment { token_identifier, token_nonce, amount }
    }

    /// A copy of this payment.
    pub fn duplicate(&self) -> (p: Self)
        ensures
            p@ == self@,
    {
        EsdtTokenPayment {
            token_identifier: copy_bytes(&self.token_identifier),
            token_nonce: self.token_nonce,
            amount: self.amount.duplicate(),
        }
    }
}

/// A copy of a list of payments.
pub fn duplicate_payments(v: &Vec<EsdtTokenPayment>) -> (r: Vec<EsdtTokenPayment>)
    ensures
        payments_view(r@) == payments_view(v@),
{
    let mut r: Vec<EsdtTokenPayment> = Vec::new();
    let n = v.len();
    let mut i: usize = 0;
    while i < n
        invariant
            n == v.len(),
            i <= n,
            payments_view(r@) =~= payments_view(v@.take(i as int)),
        decreases n - i,
    {
        let ghost old_r = r@;
        r.push(v[i].duplicate());
        assert(v@.take(i + 1) =~= v@.take(i as int).push(v@[i as int]));
        assert(payments_view(r@) =~= payments_view(old_r).push(v@[i as int]@));
        i = i + 1;
    }
    assert(v@.take(n as int) =~= v@);
    r
}

/// A token to borrow and the amount to borrow.
#[derive(Debug, Clone, PartialEq, Eq)]
pub struct Borrow {
    pub token: Vec<u8>,
    pub amount: Amount,
}

/// What a borrow holds, as plain values.
pub struct BorrowView {
    pub token: Seq<u8>,
    pub amount: nat,
}

impl View for Borrow {
    type V = BorrowView;

    open spec fn view(&self) -> BorrowView {
        BorrowView { token: self.token@, amount: self.amount@ }
    }
}

/// The views of a sequence of borrows.
pub open spec fn borrows_view(s: Seq<Borrow>) -> Seq<BorrowView> {
    s.map_values(|b: Borrow| b@)
}

impl Borrow {
    /// A copy of this borrow.
    pub fn duplicate(&self) -> (b: Self)
        ensures
            b@ == self@,
    {
        Borrow { token: copy_bytes(&self.token), amount: self.amount.duplicate() }
    }
}

/// A swap that the borrower asks for: on which exchange, from which token to
/// which token, and how much of the first token goes in.
#[derive(Debug, Clone, PartialEq, Eq)]
pub struct UserAction {
    pub exchange: Exchange,
    pub first_token: Vec<u8>,
    pub second_token: Vec<u8>,
    pub amount_swap: Amount,
}

/// What a user action holds, as plain values.
pub struct UserActionView {
    pub exchange: Exchange,
    pub first_token: Seq<u8>,
    pub second_token: Seq<u8>,
    pub amount_swap: nat,
}

impl View for UserAction {
    type V = UserActionView;

    open spec fn view(&self) -> UserActionView {
        UserActionView {
            exchange: self.exchange,
            first_token: self.first_token@,
            second_token: self.second_token@,
            amount_swap: self.amount_swap@,
        }
    }
}

/// The views of a sequence of user actions.
pub open spec fn actions_view(s: Seq<UserAction>) -> Seq<UserActionView> {
    s.map_values(|a: UserAction| a@)
}

impl UserAction {
    /// A copy of this action.
    pub fn duplicate(&self) -> (a: Self)
        ensures
            a@ == self@,
    {
        UserAction {
            exchange: self.exchange,
            first_token: copy_bytes(&self.first_token),
            second_token: copy_bytes(&self.second_token),
            amount_swap: self.amount_swap.duplicate(),
        }
    }
}

/// The two tokens of a pool.
#[derive(Debug, Clone, PartialEq, Eq)]
pub struct TokenPair {
    pub first_token: Vec<u8>,
    pub second_token: Vec<u8>,
}

/// A pool's address and its two tokens.
#[derive(Debug, Clone, PartialEq, Eq)]
pub struct SwapContractAddress {
    pub address: Vec<u8>,
    pub tokens: TokenPair,
}

/// What a `SwapContractAddress` holds, as plain values.
pub struct SwapContractAddressView {
    pub address: Seq<u8>,
    pub first_token: Seq<u8>,
    pub second_token: Seq<u8>,
}

impl View for SwapContractAddress {
    type V = SwapContractAddressView;

    open spec fn view(&self) -> SwapContractAddressView {
        SwapContractAddressView {
            address: self.address@,
            first_token: self.tokens.first_token@,
            second_token: self.tokens.second_token@,
        }
    }
}

/// The total amount of `token` among the payments of `s`.
pub open spec fn total_of(s: Seq<PaymentView>, token: Seq<u8>) -> int
    decreases s.len(),
{
    if s.len() == 0 {
        0
    } else {
        total_of(s.drop_last(), token) + if s.last().token_identifier == token { s.last().amount as int } else { 0 }
    }
}

/// Whether some payment of `s` is of `token`.
pub open spec fn holds_token(s: Seq<PaymentView>, token: Seq<u8>) -> bool {
    exists|i: int| 0 <= i < s.len() && #[trigger] s[i].token_identifier == token
}

/// A total is never negative and never less than the total of a prefix.
pub proof fn lemma_total_of_prefix(s: Seq<PaymentView>, token: Seq<u8>, k: int)
    requires
        0 <= k <= s.len(),
    ensures
        0 <= total_of(s.take(k), token) <= total_of(s, token),
    decreases s.len(),
{
    if k == s.len() {
        assert(s.take(k) =~= s);
        lemma_total_of_nonneg(s, token);
    } else {
        assert(s.drop_last().take(k) =~= s.take(k));
        lemma_total_of_prefix(s.drop_last(), token, k);
    }
}

/// A total is never negative.
pub proof fn lemma_total_of_nonneg(s: Seq<PaymentView>, token: Seq<u8>)
    ensures
        total_of(s, token) >= 0,
    decreases s.len(),
{
    if s.len() > 0 {
        lemma_total_of_nonneg(s.drop_last(), token);
    }
}

/// The total of a concatenation is the sum of the totals.
pub proof fn lemma_total_of_concat(s: Seq<PaymentView>, t: Seq<PaymentView>, token: Seq<u8>)
    ensures
        total_of(s + t, token) == total_of(s, token) + total_of(t, token),
    decreases t.len(),
{
    if t.len() == 0 {
        assert(s + t =~= s);
    } else {
        assert((s + t).drop_last() =~= s + t.drop_last());
        lemma_total_of_concat(s, t.drop_last(), token);
    }
}

/// A token that no payment is of has a total of 0.
pub proof fn lemma_total_of_absent(s: Seq<PaymentView>, token: Seq<u8>)
    requires
        !holds_token(s, token),
    ensures
        total_of(s, token) == 0,
    decreases s.len(),
{
    if s.len() > 0 {
        assert(s[s.len() - 1].token_identifier != token);
        assert forall|i: int| 0 <= i < s.drop_last().len() implies #[trigger] s.drop_last()[i].token_identifier != token by {
            assert(s[i].token_identifier != token);
        }
        lemma_total_of_absent(s.drop_last(), token);
    }
}

} // verus!
