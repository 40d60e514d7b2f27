//! The swap router's configuration.

use vstd::prelude::*;
use crate::asset::Contract;

verus! {

/// The router's configuration.
#[derive(Clone, Debug, PartialEq, Eq)]
pub struct Config {
    /// The router's viewing key.
    pub viewing_key: String,
    /// The admin registry consulted for privileged calls.
    pub admin_auth: Contract,
    /// An optional airdrop contract to register with.
    pub airdrop_address: Option<Contract>,
}

} // verus!
