//! The reconstructed record of one split creation.

use crate::types::Address;
use vstd::prelude::*;

verus! {

/// The mathematical value of an [`Account`].
pub ghost struct AccountView {
    pub address: Seq<u8>,
    pub accounts: Seq<Seq<u8>>,
    pub percents_allocation: Seq<u32>,
    pub distributor_fee: u32,
}

impl AccountView {
    /// A record pairs each participant with exactly one allocation, and
    /// every address in it is a full 20-byte address.
    pub open spec fn wf(&self) -> bool {
        &&& self.address.len() == 20
        &&& self.accounts.len() == self.percents_allocation.len()
        &&& forall|i: int|
            0 <= i < self.accounts.len() ==> (#[trigger] self.accounts[i]).len() == 20
    }
}

/// One split creation, reconstructed from a matched pair of the "split
/// created" event and the "create split" call that produced it: the
/// address of the new split, its participants in decoded order, their
/// allocation weights (element-wise with the participants), and the fee
/// paid to whoever later triggers a distribution.
#[derive(Debug, PartialEq, Eq, Clone)]
pub struct Account {
    pub address: Address,
    pub accounts: Vec<Address>,
    pub percents_allocation: Vec<u32>,
    pub distributor_fee: u32,
}

impl View for Account {
    type V = AccountView;

    open spec fn view(&self) -> AccountView {
        AccountView {
            address: self.address@,
            accounts: self.accounts@.map_values(|a: Address| a@),
            percents_allocation: self.percents_allocation@,
            distributor_fee: self.distributor_fee,
        }
    }
}

impl Account {
    pub open spec fn wf(&self) -> bool {
        self@.wf()
    }

    /// Assembles a record from already-validated parts: one allocation per
    /// participant, and every address 20 bytes long.
    pub fn new(
        address: Address,
        accounts: Vec<Address>,
        percents_allocation: Vec<u32>,
        distributor_fee: u32,
    ) -> (r: Account)
        requires
            address.wf(),
            accounts@.len() == percents_allocation@.len(),
            forall|i: int| 0 <= i < accounts@.len() ==> (#[trigger] accounts@[i]).wf(),
        ensures
            r@ == (AccountView {
                address: address@,
                accounts: accounts@.map_values(|a: Address| a@),
                percents_allocation: percents_allocation@,
                distributor_fee,
            }),
            r.wf(),
    {
        let r = Account { address, accounts, percents_allocation, distributor_fee };
        proof {
            assert forall|i: int| 0 <= i < r@.accounts.len() implies (
            #[trigger] r@.accounts[i]).len() == 20 by {
                assert(r.accounts@[i].wf());
            }
        }
        r
    }
}

} // verus!
