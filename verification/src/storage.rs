//! The storage of the flash-loan contract: the pools set up per exchange and
//! token, the counter of action keys, and what each action key holds.
use vstd::prelude::*;
use crate::bytes::{bytes_eq, copy_bytes};
use crate::errors::FastLoanError;
use crate::keyed::{latest, lemma_latest_at, lemma_latest_key, lemma_latest_prefix, lemma_latest_push, lemma_latest_update};
use crate::types::{
    actions_view, borrows_view, duplicate_payments, payments_view, Borrow, BorrowView, EsdtTokenPayment,
    Exchange, PaymentView, UserAction, UserActionView,
};

verus! {

/// The pool set up for a token on an exchange.
#[derive(Debug, PartialEq, Eq)]
pub struct TokenExchangeEntry {
    pub exchange: Exchange,
    pub token: Vec<u8>,
    pub address: Vec<u8>,
}

/// What a `TokenExchangeEntry` holds, as plain values.
pub struct TokenExchangeView {
    pub exchange: Exchange,
    pub token: Seq<u8>,
    pub address: Seq<u8>,
}

impl View for TokenExchangeEntry {
    type V = TokenExchangeView;

    open spec fn view(&self) -> TokenExchangeView {
        TokenExchangeView { exchange: self.exchange, token: self.token@, address: self.address@ }
    }
}

/// The key under which token entries are read: the exchange and the token.
pub open spec fn token_exchange_key() -> spec_fn(TokenExchangeView) -> (Exchange, Seq<u8>) {
    |e: TokenExchangeView| (e.exchange, e.token)
}

/// The pool set up for a pair of tokens, in this order, on an exchange.
#[derive(Debug, PartialEq, Eq)]
pub struct TokenPairEntry {
    pub exchange: Exchange,
    pub first_token: Vec<u8>,
    pub second_token: Vec<u8>,
    pub address: Vec<u8>,
}

/// What a `TokenPairEntry` holds, as plain values.
pub struct TokenPairEntryView {
    pub exchange: Exchange,
    pub first_token: Seq<u8>,
    pub second_token: Seq<u8>,
    pub address: Seq<u8>,
}

impl View for TokenPairEntry {
    type V = TokenPairEntryView;

    open spec fn view(&self) -> TokenPairEntryView {
        TokenPairEntryView {
            exchange: self.exchange,
            first_token: self.first_token@,
            second_token: self.second_token@,
            address: self.address@,
        }
    }
}

/// The key under which pair entries are read: the exchange and the two tokens in order.
pub open spec fn token_pair_key() -> spec_fn(TokenPairEntryView) -> (Exchange, Seq<u8>, Seq<u8>) {
    |e: TokenPairEntryView| (e.exchange, e.first_token, e.second_token)
}

/// What one pool deposited under an action key, with the fees owed on it.
#[derive(Debug, PartialEq, Eq)]
pub struct AddressDeposits {
    pub address: Vec<u8>,
    pub payments: Vec<EsdtTokenPayment>,
}

/// What an `AddressDeposits` holds, as plain values.
pub struct AddressDepositsView {
    pub address: Seq<u8>,
    pub payments: Seq<PaymentView>,
}

impl View for AddressDeposits {
    type V = AddressDepositsView;

    open spec fn view(&self) -> AddressDepositsView {
        AddressDepositsView { address: self.address@, payments: payments_view(self.payments@) }
    }
}

/// The views of a sequence of `AddressDeposits`.
pub open spec fn address_deposits_view(s: Seq<AddressDeposits>) -> Seq<AddressDepositsView> {
    s.map_values(|d: AddressDeposits| d@)
}

/// The key under which deposits per address are read: the address.
pub open spec fn address_key() -> spec_fn(AddressDepositsView) -> Seq<u8> {
    |e: AddressDepositsView| e.address
}

/// What the storage holds under one action key: the swaps asked for, the
/// number of borrows asked for, who asked, the borrows still awaited, the
/// deposits received, and the deposits with their fees per pool, in the
/// order in which the pools first deposited.
#[derive(Debug, PartialEq, Eq)]
pub struct ActionRecord {
    pub action_key: u64,
    pub user_actions: Vec<UserAction>,
    pub length_borrows: (usize, usize),
    pub original_caller: Vec<u8>,
    pub borrows: Vec<Borrow>,
    pub deposits: Vec<EsdtTokenPayment>,
    pub deposits_per_address: Vec<AddressDeposits>,
}

/// What an `ActionRecord` holds, as plain values.
pub struct ActionRecordView {
    pub action_key: u64,
    pub user_actions: Seq<UserActionView>,
    pub length_borrows: (usize, usize),
    pub original_caller: Seq<u8>,
    pub borrows: Seq<BorrowView>,
    pub deposits: Seq<PaymentView>,
    pub deposits_per_address: Seq<AddressDepositsView>,
}

impl View for ActionRecord {
    type V = ActionRecordView;

    open spec fn view(&self) -> ActionRecordView {
        ActionRecordView {
            action_key: self.action_key,
            user_actions: actions_view(self.user_actions@),
            length_borrows: self.length_borrows,
            original_caller: self.original_caller@,
            borrows: borrows_view(self.borrows@),
            deposits: payments_view(self.deposits@),
            deposits_per_address: address_deposits_view(self.deposits_per_address@),
        }
    }
}

impl ActionRecordView {
    /// No pool appears twice among the deposits per address.
    pub open spec fn pools_unique(self) -> bool {
        forall|i: int, j: int| 0 <= i < j < self.deposits_per_address.len()
            ==> #[trigger] self.deposits_per_address[i].address != #[trigger] self.deposits_per_address[j].address
    }
}

/// What an action key holds before anything is written under it.
pub open spec fn empty_record(action_key: u64) -> ActionRecordView {
    ActionRecordView {
        action_key,
        user_actions: Seq::empty(),
        length_borrows: (0, 0),
        original_caller: Seq::empty(),
        borrows: Seq::empty(),
        deposits: Seq::empty(),
        deposits_per_address: Seq::empty(),
    }
}

/// The key under which records are read: the action key.
pub open spec fn record_key() -> spec_fn(ActionRecordView) -> u64 {
    |e: ActionRecordView| e.action_key
}

/// The storage of the flash-loan contract. Each write of a pool appends an
/// entry and a read returns the latest entry written under its key; the
/// records are read the same way and rewritten in place.
#[derive(Debug, PartialEq, Eq)]
pub struct StorageModule {
    pub token_exchange_map: Vec<TokenExchangeEntry>,
    pub token_exchange_pair_map: Vec<TokenPairEntry>,
    pub action_key: Option<u64>,
    pub records: Vec<ActionRecord>,
}

/// What the storage holds, as plain values.
pub struct StorageView {
    pub token_exchange: Seq<TokenExchangeView>,
    pub token_exchange_pair: Seq<TokenPairEntryView>,
    pub action_key: Option<u64>,
    pub records: Seq<ActionRecordView>,
}

impl View for StorageModule {
    type V = StorageView;

    open spec fn view(&self) -> StorageView {
        StorageView {
            token_exchange: self.token_exchange_map@.map_values(|e: TokenExchangeEntry| e@),
            token_exchange_pair: self.token_exchange_pair_map@.map_values(|e: TokenPairEntry| e@),
            action_key: self.action_key,
            records: self.records@.map_values(|r: ActionRecord| r@),
        }
    }
}

impl StorageView {
    /// The pool set up for `token` on `exchange`, if any.
    pub open spec fn token_exchange(self, exchange: Exchange, token: Seq<u8>) -> Option<Seq<u8>> {
        match latest(self.token_exchange, token_exchange_key(), (exchange, token)) {
            Some(e) => Some(e.address),
            None => None,
        }
    }

    /// The pool set up for the pair `(first, second)`, in this order, on `exchange`, if any.
    pub open spec fn token_exchange_pair(self, exchange: Exchange, first: Seq<u8>, second: Seq<u8>) -> Option<Seq<u8>> {
        match latest(self.token_exchange_pair, token_pair_key(), (exchange, first, second)) {
            Some(e) => Some(e.address),
            None => None,
        }
    }

    /// What `action_key` holds.
    pub open spec fn record(self, action_key: u64) -> ActionRecordView {
        match latest(self.records, record_key(), action_key) {
            Some(r) => r,
            None => empty_record(action_key),
        }
    }

    /// The key that the next borrow gets: 1 for the first, then one more
    /// each time; `None` where the counter is at its largest value.
    pub open spec fn next_action_key(self) -> Option<u64> {
        match self.action_key {
            None => Some(1),
            Some(k) => if k < u64::MAX { Some((k + 1) as u64) } else { None },
        }
    }

    /// Every record keeps each pool's deposits in one list.
    pub open spec fn wf(self) -> bool {
        forall|k: u64| #[trigger] self.record(k).pools_unique()
    }

    /// What is read under an action key carries that key.
    pub proof fn lemma_record_key(self, action_key: u64)
        ensures
            self.record(action_key).action_key == action_key,
    {
        lemma_latest_key(self.records, record_key(), action_key);
    }

    /// Whether every record lists each pool once depends on the records alone.
    pub proof fn lemma_wf_records(self, other: StorageView)
        requires
            self.records == other.records,
            other.wf(),
        ensures
            self.wf(),
    {
        assert forall|k: u64| #[trigger] self.record(k).pools_unique() by {
            assert(other.record(k).pools_unique());
        }
    }

    /// Writing a record that lists each pool once keeps every record so.
    pub proof fn lemma_write_keeps_wf(self, old: StorageView, record: ActionRecordView)
        requires
            self.is_old_with_record(old, record),
            old.wf(),
            record.pools_unique(),
        ensures
            self.wf(),
    {
        assert forall|k: u64| #[trigger] self.record(k).pools_unique() by {
            if k != record.action_key {
                assert(old.record(k).pools_unique());
            }
        }
    }

    /// The counter of action keys either stayed as it was in `old` or took
    /// the next key.
    pub open spec fn counter_step(self, old: StorageView) -> bool {
        ||| self.action_key == old.action_key
        ||| (old.next_action_key() is Some && self.action_key == old.next_action_key())
    }

    /// The last key handed out, 0 before any.
    pub open spec fn counter_value(self) -> int {
        match self.action_key {
            None => 0,
            Some(k) => k as int,
        }
    }

    /// `self` is `old` with `record` written under its key.
    pub open spec fn is_old_with_record(self, old: StorageView, record: ActionRecordView) -> bool {
        &&& self.token_exchange == old.token_exchange
        &&& self.token_exchange_pair == old.token_exchange_pair
        &&& self.action_key == old.action_key
        &&& self.record(record.action_key) == record
        &&& forall|k: u64| k != record.action_key ==> #[trigger] self.record(k) == old.record(k)
    }
}

/// The optional byte string, as plain values.
pub open spec fn opt_bytes(o: Option<Vec<u8>>) -> Option<Seq<u8>> {
    match o {
        Some(v) => Some(v@),
        None => None,
    }
}

/// A copy of a list of user actions.
pub fn duplicate_actions(v: &Vec<UserAction>) -> (r: Vec<UserAction>)
    ensures
        actions_view(r@) == actions_view(v@),
{
    let mut r: Vec<UserAction> = Vec::new();
    let n = v.len();
    let mut i: usize = 0;
    while i < n
        invariant
            n == v.len(),
            i <= n,
            actions_view(r@) =~= actions_view(v@.take(i as int)),
        decreases n - i,
    {
        let ghost old_r = r@;
        r.push(v[i].duplicate());
        assert(v@.take(i + 1) =~= v@.take(i as int).push(v@[i as int]));
        assert(actions_view(r@) =~= actions_view(old_r).push(v@[i as int]@));
        i = i + 1;
    }
    assert(v@.take(n as int) =~= v@);
    r
}

/// A copy of a list of borrows.
pub fn duplicate_borrows(v: &Vec<Borrow>) -> (r: Vec<Borrow>)
    ensures
        borrows_view(r@) == borrows_view(v@),
{
    let mut r: Vec<Borrow> = Vec::new();
    let n = v.len();
    let mut i: usize = 0;
    while i < n
        invariant
            n == v.len(),
            i <= n,
            borrows_view(r@) =~= borrows_view(v@.take(i as int)),
        decreases n - i,
    {
        let ghost old_r = r@;
        r.push(v[i].duplicate());
        assert(v@.take(i + 1) =~= v@.take(i as int).push(v@[i as int]));
        assert(borrows_view(r@) =~= borrows_view(old_r).push(v@[i as int]@));
        i = i + 1;
    }
    assert(v@.take(n as int) =~= v@);
    r
}

/// A copy of a list of deposits per address.
pub fn duplicate_address_deposits(v: &Vec<AddressDeposits>) -> (r: Vec<AddressDeposits>)
    ensures
        address_deposits_view(r@) == address_deposits_view(v@),
{
    let mut r: Vec<AddressDeposits> = Vec::new();
    let n = v.len();
    let mut i: usize = 0;
    while i < n
        invariant
            n == v.len(),
            i <= n,
            address_deposits_view(r@) =~= address_deposits_view(v@.take(i as int)),
        decreases n - i,
    {
        let ghost old_r = r@;
        let d = AddressDeposits { address: copy_bytes(&v[i].address), payments: duplicate_payments(&v[i].payments) };
        r.push(d);
        assert(v@.take(i + 1) =~= v@.take(i as int).push(v@[i as int]));
        assert(address_deposits_view(r@) =~= address_deposits_view(old_r).push(v@[i as int]@));
        i = i + 1;
    }
    assert(v@.take(n as int) =~= v@);
    r
}

impl ActionRecord {
    /// What an action key holds before anything is written under it.
    pub fn empty(action_key: u64) -> (r: Self)
        ensures
            r@ == empty_record(action_key),
    {
        let r = ActionRecord {
            action_key,
            user_actions: Vec::new(),
            length_borrows: (0, 0),
            original_caller: Vec::new(),
            borrows: Vec::new(),
            deposits: Vec::new(),
            deposits_per_address: Vec::new(),
        };
        assert(r@.user_actions =~= Seq::<UserActionView>::empty());
        assert(r@.borrows =~= Seq::<BorrowView>::empty());
        assert(r@.deposits =~= Seq::<PaymentView>::empty());
        assert(r@.deposits_per_address =~= Seq::<AddressDepositsView>::empty());
        r
    }

    /// A copy of this record.
    pub fn duplicate(&self) -> (r: Self)
        ensures
            r@ == self@,
    {
        ActionRecord {
            action_key: self.action_key,
            user_actions: duplicate_actions(&self.user_actions),
            length_borrows: self.length_borrows,
            original_caller: copy_bytes(&self.original_caller),
            borrows: duplicate_borrows(&self.borrows),
            deposits: duplicate_payments(&self.deposits),
            deposits_per_address: duplicate_address_deposits(&self.deposits_per_address),
        }
    }
}

impl StorageModule {
    /// A storage in which nothing is written.
    pub fn new() -> (s: Self)
        ensures
            s@.token_exchange.len() == 0,
            s@.token_exchange_pair.len() == 0,
            s@.action_key is None,
            s@.records.len() == 0,
            s@.wf(),
    {
        StorageModule {
            token_exchange_map: Vec::new(),
            token_exchange_pair_map: Vec::new(),
            action_key: None,
            records: Vec::new(),
        }
    }

    /// The pool set up for `token` on `exchange`, if any.
    pub fn get_token_exchange(&self, exchange: Exchange, token: &Vec<u8>) -> (r: Option<Vec<u8>>)
        ensures
            opt_bytes(r) == self@.token_exchange(exchange, token@),
    {
        let ghost s = self@.token_exchange;
        let ghost k = (exchange, token@);
        let mut i = self.token_exchange_map.len();
        while i > 0
            invariant
                i <= self.token_exchange_map@.len(),
                s == self@.token_exchange,
                k == (exchange, token@),
                forall|j: int| i <= j < s.len() ==> (token_exchange_key())(#[trigger] s[j]) != k,
            decreases i,
        {
            let e = &self.token_exchange_map[i - 1];
            if e.exchange == exchange && bytes_eq(&e.token, token) {
                proof {
                    lemma_latest_prefix(s, token_exchange_key(), k, i as int);
                    assert(s.take(i as int).drop_last() =~= s.take(i - 1));
                    assert(s.take(i as int).last() == s[i - 1]);
                }
                return Some(copy_bytes(&e.address));
            }
            i = i - 1;
        }
        proof {
            lemma_latest_prefix(s, token_exchange_key(), k, 0);
        }
        None
    }

    /// The pool set up for the pair `(first, second)`, in this order, on `exchange`, if any.
    pub fn get_token_exchange_pair(&self, exchange: Exchange, first: &Vec<u8>, second: &Vec<u8>) -> (r: Option<Vec<u8>>)
        ensures
            opt_bytes(r) == self@.token_exchange_pair(exchange, first@, second@),
    {
        let ghost s = self@.token_exchange_pair;
        let ghost k = (exchange, first@, second@);
        let mut i = self.token_exchange_pair_map.len();
        while i > 0
            invariant
                i <= self.token_exchange_pair_map@.len(),
                s == self@.token_exchange_pair,
                k == (exchange, first@, second@),
                forall|j: int| i <= j < s.len() ==> (token_pair_key())(#[trigger] s[j]) != k,
            decreases i,
        {
            let e = &self.token_exchange_pair_map[i - 1];
            if e.exchange == exchange && bytes_eq(&e.first_token, first) && bytes_eq(&e.second_token, second) {
                proof {
                    lemma_latest_prefix(s, token_pair_key(), k, i as int);
                    assert(s.take(i as int).drop_last() =~= s.take(i - 1));
                    assert(s.take(i as int).last() == s[i - 1]);
                }
                return Some(copy_bytes(&e.address));
            }
            i = i - 1;
        }
        proof {
            lemma_latest_prefix(s, token_pair_key(), k, 0);
        }
        None
    }

    /// Sets the pool of `token` on `exchange`.
    pub fn set_token_exchange(&mut self, exchange: Exchange, token: Vec<u8>, address: Vec<u8>)
        ensures
            final(self)@.token_exchange == old(self)@.token_exchange.push(
                TokenExchangeView { exchange, token: token@, address: address@ }),
            final(self)@.token_exchange_pair == old(self)@.token_exchange_pair,
            final(self)@.action_key == old(self)@.action_key,
            final(self)@.records == old(self)@.records,
    {
        self.token_exchange_map.push(TokenExchangeEntry { exchange, token, address });
        assert(self@.token_exchange =~= old(self)@.token_exchange.push(
            TokenExchangeView { exchange, token: token@, address: address@ }));
    }

    /// Sets the pool of the pair `(first, second)` on `exchange`.
    pub fn set_token_exchange_pair(&mut self, exchange: Exchange, first_token: Vec<u8>, second_token: Vec<u8>, address: Vec<u8>)
        ensures
            final(self)@.token_exchange_pair == old(self)@.token_exchange_pair.push(
                TokenPairEntryView { exchange, first_token: first_token@, second_token: second_token@, address: address@ }),
            final(self)@.token_exchange == old(self)@.token_exchange,
            final(self)@.action_key == old(self)@.action_key,
            final(self)@.records == old(self)@.records,
    {
        self.token_exchange_pair_map.push(TokenPairEntry { exchange, first_token, second_token, address });
        assert(self@.token_exchange_pair =~= old(self)@.token_exchange_pair.push(
            TokenPairEntryView { exchange, first_token: first_token@, second_token: second_token@, address: address@ }));
    }

    /// The index of the latest record under `action_key`.
    fn find_record(&self, action_key: u64) -> (r: Option<usize>)
        ensures
            r matches Some(i) ==> i < self.records@.len()
                && self.records@[i as int].action_key == action_key
                && forall|j: int| i < j < self.records@.len()
                    ==> #[trigger] self.records@[j].action_key != action_key,
            r is None ==> forall|j: int| 0 <= j < self.records@.len()
                ==> #[trigger] self.records@[j].action_key != action_key,
    {
        let mut i = self.records.len();
        while i > 0
            invariant
                i <= self.records@.len(),
                forall|j: int| i <= j < self.records@.len() ==> #[trigger] self.records@[j].action_key != action_key,
            decreases i,
        {
            if self.records[i - 1].action_key == action_key {
                return Some(i - 1);
            }
            i = i - 1;
        }
        None
    }

    /// A copy of what `action_key` holds.
    pub fn get_record(&self, action_key: u64) -> (r: ActionRecord)
        ensures
            r@ == self@.record(action_key),
            r.action_key == action_key,
    {
        let ghost s = self@.records;
        match self.find_record(action_key) {
            Some(i) => {
                proof {
                    lemma_latest_at(s, record_key(), i as int);
                }
                self.records[i].duplicate()
            },
            None => {
                proof {
                    lemma_latest_prefix(s, record_key(), action_key, 0);
                }
                ActionRecord::empty(action_key)
            },
        }
    }

    /// Writes `record` under its action key.
    pub fn set_record(&mut self, record: ActionRecord)
        ensures
            final(self)@.is_old_with_record(old(self)@, record@),
            old(self)@.wf() && record@.pools_unique() ==> final(self)@.wf(),
    {
        let ghost s = self@.records;
        let ghost rv = record@;
        let key = record.action_key;
        match self.find_record(key) {
            Some(i) => {
                self.records.set(i, record);
                proof {
                    assert(self@.records =~= s.update(i as int, rv));
                    assert forall|k: u64| #[trigger] latest(self@.records, record_key(), k)
                        == (if k == key { Some(rv) } else { latest(s, record_key(), k) }) by {
                        lemma_latest_update(s, record_key(), i as int, rv, k);
                    }
                    assert(self@.record(key) == rv);
                }
            },
            None => {
                self.records.push(record);
                proof {
                    assert(self@.records =~= s.push(rv));
                    assert forall|k: u64| #[trigger] latest(self@.records, record_key(), k)
                        == (if k == key { Some(rv) } else { latest(s, record_key(), k) }) by {
                        lemma_latest_push(s, record_key(), rv, k);
                    }
                    assert(self@.record(key) == rv);
                }
            },
        }
        assert(self@.token_exchange =~= old(self)@.token_exchange);
        assert(self@.token_exchange_pair =~= old(self)@.token_exchange_pair);
        proof {
            if old(self)@.wf() && rv.pools_unique() {
                self@.lemma_write_keeps_wf(old(self)@, rv);
            }
        }
    }

    /// Takes the key of the next borrow: 1 for the first, then one more each time.
    pub fn get_or_create_action_key(&mut self) -> (r: Result<u64, FastLoanError>)
        ensures
            match old(self)@.next_action_key() {
                Some(k) => r == Ok::<u64, FastLoanError>(k) && final(self)@ == (StorageView {
                    action_key: Some(k),
                    ..old(self)@
                }),
                None => r == Err::<u64, FastLoanError>(FastLoanError::ActionKeyOverflow) && final(self)@ == old(self)@,
            },
            final(self)@.counter_step(old(self)@),
    {
        match self.action_key {
            None => {
                self.action_key = Some(1);
                Ok(1)
            },
            Some(k) => {
                if k == u64::MAX {
                    Err(FastLoanError::ActionKeyOverflow)
                } else {
                    self.action_key = Some(k + 1);
                    Ok(k + 1)
                }
            },
        }
    }
}

} // verus!
