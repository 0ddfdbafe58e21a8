//! Setting up the pools that the flash-loan contract borrows from and swaps in.
use vstd::prelude::*;
use crate::bytes::copy_bytes;
use crate::contract::{FastLoanContract, FastLoanView};
use crate::storage::{TokenExchangeView, TokenPairEntryView};
use crate::types::{Exchange, SwapContractAddress, SwapContractAddressView};

verus! {

/// The views of the pools to set up.
pub open spec fn pools_view(s: Seq<(Exchange, SwapContractAddress)>) -> Seq<(Exchange, SwapContractAddressView)> {
    s.map_values(|p: (Exchange, SwapContractAddress)| (p.0, p.1@))
}

/// The token entries written for the pools, in order: for each pool, its
/// first token, then its second token.
pub open spec fn setup_token_entries(pools: Seq<(Exchange, SwapContractAddressView)>) -> Seq<TokenExchangeView>
    decreases pools.len(),
{
    if pools.len() == 0 {
        Seq::empty()
    } else {
        let (exchange, c) = pools.last();
        setup_token_entries(pools.drop_last())
            .push(TokenExchangeView { exchange, token: c.first_token, address: c.address })
            .push(TokenExchangeView { exchange, token: c.second_token, address: c.address })
    }
}

/// The pair entries written for the pools, in order.
pub open spec fn setup_pair_entries(pools: Seq<(Exchange, SwapContractAddressView)>) -> Seq<TokenPairEntryView>
    decreases pools.len(),
{
    if pools.len() == 0 {
        Seq::empty()
    } else {
        let (exchange, c) = pools.last();
        setup_pair_entries(pools.drop_last()).push(TokenPairEntryView {
            exchange,
            first_token: c.first_token,
            second_token: c.second_token,
            address: c.address,
        })
    }
}

/// Setting up pools.
pub trait SetupModule: View<V = FastLoanView> {
    /// Sets up each pool for its exchange: as the pool of each of its two
    /// tokens, and as the pool of its pair of tokens.
    fn owner_setup_pool_addresses_pairs(&mut self, pool_addresses: Vec<(Exchange, SwapContractAddress)>)
        ensures
            final(self)@.storage.token_exchange
                == old(self)@.storage.token_exchange + setup_token_entries(pools_view(pool_addresses@)),
            final(self)@.storage.token_exchange_pair
                == old(self)@.storage.token_exchange_pair + setup_pair_entries(pools_view(pool_addresses@)),
            final(self)@.storage.action_key == old(self)@.storage.action_key,
            final(self)@.storage.records == old(self)@.storage.records,
            final(self)@.fees_percentage == old(self)@.fees_percentage,
            old(self)@.wf() ==> final(self)@.wf(),
            final(self)@.storage.counter_step(old(self)@.storage),
    ;
}

impl SetupModule for FastLoanContract {
    fn owner_setup_pool_addresses_pairs(&mut self, pool_addresses: Vec<(Exchange, SwapContractAddress)>) {
        let ghost pv = pools_view(pool_addresses@);
        let n = pool_addresses.len();
        let mut i: usize = 0;
        assert(pv.take(0) =~= Seq::<(Exchange, SwapContractAddressView)>::empty());
        assert(old(self)@.storage.token_exchange + setup_token_entries(pv.take(0)) =~= old(self)@.storage.token_exchange);
        assert(old(self)@.storage.token_exchange_pair + setup_pair_entries(pv.take(0)) =~= old(self)@.storage.token_exchange_pair);
        while i < n
            invariant
                n == pool_addresses.len(),
                i <= n,
                pv == pools_view(pool_addresses@),
                self@.storage.token_exchange == old(self)@.storage.token_exchange + setup_token_entries(pv.take(i as int)),
                self@.storage.token_exchange_pair == old(self)@.storage.token_exchange_pair + setup_pair_entries(pv.take(i as int)),
                self@.storage.action_key == old(self)@.storage.action_key,
                self@.storage.records == old(self)@.storage.records,
                self@.fees_percentage == old(self)@.fees_percentage,
            decreases n - i,
        {
            let exchange = pool_addresses[i].0;
            let swap_contract = &pool_addresses[i].1;
            assert(pv.take(i + 1).drop_last() =~= pv.take(i as int));
            assert(pv.take(i + 1).last() == pv[i as int]);
            let ghost te0 = self@.storage.token_exchange;
            let ghost tp0 = self@.storage.token_exchange_pair;
            self.storage.set_token_exchange(exchange, copy_bytes(&swap_contract.tokens.first_token), copy_bytes(&swap_contract.address));
            self.storage.set_token_exchange(exchange, copy_bytes(&swap_contract.tokens.second_token), copy_bytes(&swap_contract.address));
            self.storage.set_token_exchange_pair(
                exchange,
                copy_bytes(&swap_contract.tokens.first_token),
                copy_bytes(&swap_contract.tokens.second_token),
                copy_bytes(&swap_contract.address),
            );
            assert(self@.storage.token_exchange =~= old(self)@.storage.token_exchange + setup_token_entries(pv.take(i + 1)));
            assert(self@.storage.token_exchange_pair =~= old(self)@.storage.token_exchange_pair + setup_pair_entries(pv.take(i + 1)));
            i = i + 1;
        }
        assert(pv.take(n as int) =~= pv);
        proof {
            if old(self)@.wf() {
                self@.storage.lemma_wf_records(old(self)@.storage);
            }
        }
    }
}

} // verus!
