//! The chain directory: which contract address serves which network.

use crate::types::Address;
use vstd::prelude::*;

verus! {

/// The networks the directory knows.
pub open spec fn supported_chain(chain_id: u64) -> bool {
    chain_id == 1
}

/// The fixed contract address deployed on the given network.
pub open spec fn main_address_of(chain_id: u64) -> Seq<u8> {
    if chain_id == 1 {
        seq![
            0x2eu8, 0xd6u8, 0xc4u8, 0xb5u8, 0xdau8, 0x63u8, 0x78u8, 0xc7u8, 0x89u8, 0x7au8,
            0xc6u8, 0x7bu8, 0xa9u8, 0xe4u8, 0x31u8, 0x02u8, 0xfeu8, 0xb6u8, 0x94u8, 0xeeu8,
        ]
    } else {
        Seq::empty()
    }
}

/// The directory entry for one network: the address of the deployed
/// split-main contract there. Fixed at construction.
pub struct Config {
    pub main_address: Address,
}

impl Config {
    /// Resolves a network identifier. An unsupported identifier is a
    /// configuration error, fatal by design: it lies outside this
    /// function's domain, and callers that cannot rule it out first ask
    /// [`Config::try_new`] and abort on `None`.
    pub fn new(chain_id: u64) -> (r: Config)
        requires
            supported_chain(chain_id),
        ensures
            r.main_address@ == main_address_of(chain_id),
            r.main_address.wf(),
    {
        let mut bytes: Vec<u8> = Vec::new();
        bytes.push(0x2eu8);
        bytes.push(0xd6u8);
        bytes.push(0xc4u8);
        bytes.push(0xb5u8);
        bytes.push(0xdau8);
        bytes.push(0x63u8);
        bytes.push(0x78u8);
        bytes.push(0xc7u8);
        bytes.push(0x89u8);
        bytes.push(0x7au8);
        bytes.push(0xc6u8);
        bytes.push(0x7bu8);
        bytes.push(0xa9u8);
        bytes.push(0xe4u8);
        bytes.push(0x31u8);
        bytes.push(0x02u8);
        bytes.push(0xfeu8);
        bytes.push(0xb6u8);
        bytes.push(0x94u8);
        bytes.push(0xeeu8);
        assert(bytes@ =~= main_address_of(chain_id));
        Config { main_address: Address::new(bytes) }
    }

    /// Resolves a network identifier that may be unsupported: `None`
    /// exactly on the identifiers the directory does not know, before
    /// any network call could be attempted.
    pub fn try_new(chain_id: u64) -> (r: Option<Config>)
        ensures
            match r {
                Some(c) => supported_chain(chain_id) && c.main_address@ == main_address_of(
                    chain_id,
                ) && c.main_address.wf(),
                None => !supported_chain(chain_id),
            },
    {
        if chain_id == 1 {
            Some(Config::new(chain_id))
        } else {
            None
        }
    }
}

impl Default for Config {
    /// The directory entry of the default network.
    fn default() -> (r: Config)
        ensures
            r.main_address@ == main_address_of(1),
            r.main_address.wf(),
    {
        Config::new(1)
    }
}

} // verus!
