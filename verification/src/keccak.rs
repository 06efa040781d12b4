//! The digest that names the contract's functions and events on the wire.
//!
//! A call begins with the first four bytes of the Keccak-256 digest of the
//! function's signature string; an event's first topic is the full digest
//! of the event's signature.

use vstd::prelude::*;

verus! {

/// The 32-byte Keccak-256 digest of a signature string's UTF-8 bytes.
pub uninterp spec fn keccak256_of(sig: Seq<char>) -> Seq<u8>;

/// The four-byte selector that opens a call to the function with this
/// signature: the first four bytes of its Keccak-256 digest.
pub open spec fn selector_of(sig: Seq<char>) -> Seq<u8> {
    Seq::new(4, |i: int| keccak256_of(sig)[i])
}

/// Relies on alloy_primitives::keccak256: the 32-byte Keccak-256 digest of
/// the argument's bytes, a function of the argument alone.
#[verifier::external_body]
pub(crate) fn signature_keccak(sig: &str) -> (r: Vec<u8>)
    ensures
        r@ == keccak256_of(sig@),
        r@.len() == 32,
{
    alloy_primitives::keccak256(sig.as_bytes()).0.to_vec()
}

/// The selector of the function with this signature.
pub fn selector(sig: &str) -> (r: Vec<u8>)
    ensures
        r@ == selector_of(sig@),
        r@.len() == 4,
{
    let h = signature_keccak(sig);
    let mut r: Vec<u8> = Vec::new();
    r.push(h[0]);
    r.push(h[1]);
    r.push(h[2]);
    r.push(h[3]);
    assert(r@ =~= selector_of(sig@));
    r
}

} // verus!
