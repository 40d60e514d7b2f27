//! Contract handles: an address paired with a code hash.
//!
//! A `RawContract` carries an address exactly as a caller supplied it; a
//! `Contract` is one whose address the host has validated. Validation itself
//! is the host's job, so only the plain constructors and conversions live
//! here.

use vstd::prelude::*;

verus! {

/// A contract handle whose address has not been validated.
#[derive(Clone, Debug, PartialEq, Eq)]
pub struct RawContract {
    /// The bech32 address, as supplied.
    pub address: String,
    /// The hash of the contract's code.
    pub code_hash: String,
}

impl RawContract {
    /// Builds a raw handle from its two parts.
    pub fn new(address: &String, code_hash: &String) -> (r: RawContract)
        ensures
            r.address@ == address@,
            r.code_hash@ == code_hash@,
    {
        RawContract { address: address.clone(), code_hash: code_hash.clone() }
    }
}

/// A contract handle with a validated address.
#[derive(Clone, Debug, PartialEq, Eq)]
pub struct Contract {
    /// The validated bech32 address.
    pub address: String,
    /// The hash of the contract's code.
    pub code_hash: String,
}

impl Contract {
    /// Builds a handle from a validated address and a code hash.
    pub fn new(address: &String, code_hash: &String) -> (r: Contract)
        ensures
            r.address@ == address@,
            r.code_hash@ == code_hash@,
    {
        Contract { address: address.clone(), code_hash: code_hash.clone() }
    }
}

} // verus!
