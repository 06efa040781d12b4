//! Plain-value models of the on-chain artifacts the pipeline reads:
//! addresses, 256-bit amounts, event logs and block positions.

use vstd::prelude::*;

verus! {

/// A 20-byte account or contract address.
#[derive(Debug, PartialEq, Eq, Clone)]
pub struct Address {
    pub bytes: Vec<u8>,
}

impl View for Address {
    type V = Seq<u8>;

    open spec fn view(&self) -> Seq<u8> {
        self.bytes@
    }
}

impl Address {
    /// A well-formed address holds exactly 20 bytes.
    pub open spec fn wf(&self) -> bool {
        self@.len() == 20
    }

    pub fn new(bytes: Vec<u8>) -> (r: Address)
        requires
            bytes@.len() == 20,
        ensures
            r@ == bytes@,
            r.wf(),
    {
        Address { bytes }
    }

    /// A byte-for-byte copy of the address.
    pub fn duplicate(&self) -> (r: Address)
        ensures
            r@ == self@,
    {
        let mut bytes: Vec<u8> = Vec::new();
        let mut i: usize = 0;
        while i < self.bytes.len()
            invariant
                i <= self.bytes@.len(),
                bytes@ == self.bytes@.take(i as int),
            decreases self.bytes@.len() - i,
        {
            bytes.push(self.bytes[i]);
            i = i + 1;
            assert(bytes@ =~= self.bytes@.take(i as int));
        }
        assert(self.bytes@.take(self.bytes@.len() as int) =~= self.bytes@);
        Address { bytes }
    }
}

/// A 256-bit unsigned amount in its 32-byte big-endian wire form.
#[derive(Debug, PartialEq, Eq, Clone)]
pub struct Uint256 {
    pub be_bytes: Vec<u8>,
}

impl View for Uint256 {
    type V = Seq<u8>;

    open spec fn view(&self) -> Seq<u8> {
        self.be_bytes@
    }
}

impl Uint256 {
    /// A well-formed amount holds exactly 32 bytes.
    pub open spec fn wf(&self) -> bool {
        self@.len() == 32
    }

    pub fn new(be_bytes: Vec<u8>) -> (r: Uint256)
        requires
            be_bytes@.len() == 32,
        ensures
            r@ == be_bytes@,
            r.wf(),
    {
        Uint256 { be_bytes }
    }
}

/// The mathematical value of a log as the pipeline reads it.
pub ghost struct LogView {
    pub topics: Seq<Seq<u8>>,
    pub data: Seq<u8>,
    pub transaction_hash: Option<Seq<u8>>,
    pub removed: bool,
}

/// One event occurrence reported by the provider: its indexed topics, its
/// payload, the hash of the transaction that emitted it, and the flag the
/// node sets when a reorganization has invalidated the containing block.
#[derive(Debug, PartialEq, Eq, Clone)]
pub struct Log {
    pub topics: Vec<Vec<u8>>,
    pub data: Vec<u8>,
    pub transaction_hash: Option<Vec<u8>>,
    pub removed: bool,
}

impl View for Log {
    type V = LogView;

    open spec fn view(&self) -> LogView {
        LogView {
            topics: self.topics@.map_values(|t: Vec<u8>| t@),
            data: self.data@,
            transaction_hash: match self.transaction_hash {
                Some(h) => Some(h@),
                None => None,
            },
            removed: self.removed,
        }
    }
}

/// A position in the chain: a concrete block number, or the newest block
/// the node knows ("latest", the default upper bound of a range query).
#[derive(Debug, PartialEq, Eq, Clone, Copy)]
pub enum BlockTag {
    Number(u64),
    Latest,
}

/// A byte-for-byte copy of a byte vector.
pub fn copy_bytes(src: &Vec<u8>) -> (r: Vec<u8>)
    ensures
        r@ == src@,
{
    let mut r: Vec<u8> = Vec::new();
    let mut i: usize = 0;
    while i < src.len()
        invariant
            i <= src@.len(),
            r@ == src@.take(i as int),
        decreases src@.len() - i,
    {
        r.push(src[i]);
        i = i + 1;
        assert(r@ =~= src@.take(i as int));
    }
    assert(src@.take(src@.len() as int) =~= src@);
    r
}

} // verus!
