//! The contract facade: one resolved contract address, and the pure
//! builders of every outbound call against it.
//!
//! Only building happens here — the requests are handed to the caller's
//! own transport and submission path. Balance reads and the account
//! stream pair these builders with the codec's return decoders.

use crate::account::Account;
use crate::codec::{
    enc_distribute_erc20, enc_eth_balance, enc_erc20_balance, enc_withdraw,
    encode_distribute_erc20_call, encode_erc20_balance_call, encode_eth_balance_call,
    encode_withdraw_call,
};
use crate::types::{Address, Uint256};
use vstd::prelude::*;

verus! {

/// An outbound call, ready for submission: the destination contract
/// address and the encoded input bytes.
pub struct CallRequest {
    pub to: Address,
    pub input: Vec<u8>,
}

/// The facade over one deployed split-main contract.
pub struct SplitMain {
    pub address: Address,
}

impl SplitMain {
    pub fn new(address: Address) -> (r: SplitMain)
        ensures
            r.address@ == address@,
    {
        SplitMain { address }
    }

    /// Builds the read-only token balance query. Pure; the caller
    /// executes it and decodes the returned amount.
    pub fn build_erc20_balance_call(&self, account: &Address, token: &Address) -> (r: CallRequest)
        requires
            self.address.wf(),
            account.wf(),
            token.wf(),
        ensures
            r.to@ == self.address@,
            r.input@ == enc_erc20_balance(account@, token@),
    {
        CallRequest {
            to: self.address.duplicate(),
            input: encode_erc20_balance_call(account, token),
        }
    }

    /// Builds the read-only native balance query.
    pub fn build_eth_balance_call(&self, account: &Address) -> (r: CallRequest)
        requires
            self.address.wf(),
            account.wf(),
        ensures
            r.to@ == self.address@,
            r.input@ == enc_eth_balance(account@),
    {
        CallRequest { to: self.address.duplicate(), input: encode_eth_balance_call(account) }
    }

    /// Builds the distribution request for a reconstructed record: pure
    /// encoding of the record's participants, allocations and fee, no
    /// I/O.
    pub fn distribute_erc20(
        &self,
        account: Account,
        token: Address,
        distributor_address: Address,
    ) -> (r: CallRequest)
        requires
            self.address.wf(),
            account.wf(),
            token.wf(),
            distributor_address.wf(),
            260 + 64 * account@.accounts.len() <= usize::MAX,
        ensures
            r.to@ == self.address@,
            r.input@ == enc_distribute_erc20(
                account@.address,
                token@,
                account@.accounts,
                account@.percents_allocation,
                account@.distributor_fee,
                distributor_address@,
            ),
    {
        proof {
            assert forall|i: int| 0 <= i < account.accounts@.len() implies (
            #[trigger] account.accounts@[i]).wf() by {
                assert(account@.accounts[i] == account.accounts@[i]@);
            }
        }
        let input = encode_distribute_erc20_call(
            &account.address,
            &token,
            &account.accounts,
            &account.percents_allocation,
            account.distributor_fee,
            &distributor_address,
        );
        CallRequest { to: self.address.duplicate(), input }
    }

    /// Builds the withdrawal request for one account and one token: pure
    /// encoding, no I/O.
    pub fn withdraw(&self, account: Address, eth: Uint256, tokens: Address) -> (r: CallRequest)
        requires
            self.address.wf(),
            account.wf(),
            eth.wf(),
            tokens.wf(),
        ensures
            r.to@ == self.address@,
            r.input@ == enc_withdraw(account@, eth@, seq![tokens@]),
    {
        let token_list = vec![tokens];
        proof {
            assert(token_list@.map_values(|a: Address| a@) =~= seq![token_list@[0]@]);
        }
        let input = encode_withdraw_call(&account, &eth, &token_list);
        CallRequest { to: self.address.duplicate(), input }
    }
}

} // verus!
