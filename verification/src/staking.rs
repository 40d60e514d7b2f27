//! Message types of the staking adapter that delegates native coin.

use vstd::prelude::*;
use crate::asset::Contract;

verus! {

/// The adapter's configuration.
#[derive(Clone, Debug, PartialEq, Eq)]
pub struct Config {
    /// Who may reconfigure the adapter.
    pub admins: Vec<String>,
    /// The contract that may trigger unbonds.
    pub owner: String,
    /// The wrapped-coin token.
    pub sscrt: Contract,
    /// Optional limits on validator choice.
    pub validator_bounds: Option<ValidatorBounds>,
}

/// Limits on which validators the adapter delegates to. Commissions are
/// fixed-point fractions scaled by 10^18.
#[derive(Clone, Copy, Debug, PartialEq, Eq, Structural)]
pub struct ValidatorBounds {
    /// Lowest acceptable commission.
    pub min_commission: u128,
    /// Highest acceptable commission.
    pub max_commission: u128,
    /// Highest acceptable rank by stake.
    pub top_position: u128,
    /// Lowest acceptable rank by stake.
    pub bottom_position: u128,
}

/// The instantiation message.
#[derive(Clone, Debug, PartialEq, Eq)]
pub struct InstantiateMsg {
    /// Who may reconfigure the adapter.
    pub admins: Option<Vec<String>>,
    /// The contract that may trigger unbonds.
    pub owner: String,
    /// The wrapped-coin token.
    pub sscrt: Contract,
    /// Optional validator limits.
    pub validator_bounds: Option<ValidatorBounds>,
    /// The viewing key to register.
    pub viewing_key: String,
}

/// The commands the adapter executes.
#[derive(Clone, Debug, PartialEq, Eq)]
pub enum ExecuteMsg {
    /// Funds arriving from the wrapped-coin token.
    Receive {
        /// Who triggered the send.
        sender: String,
        /// Whose balance it came from.
        from: String,
        /// How much arrived.
        amount: u128,
        /// An optional transfer memo.
        memo: Option<String>,
        /// An optional forwarded payload.
        msg: Option<Vec<u8>>,
    },
    /// Replaces the configuration.
    UpdateConfig {
        /// The new configuration.
        config: Config,
    },
    /// Unbonds an amount of the asset.
    AdapterUnbond {
        /// Which asset.
        asset: String,
        /// How much.
        amount: u128,
    },
    /// Claims matured unbondings of the asset.
    AdapterClaim {
        /// Which asset.
        asset: String,
    },
    /// Refreshes the adapter's accounting of the asset.
    AdapterUpdate {
        /// Which asset.
        asset: String,
    },
}

/// What the adapter answers to commands.
#[derive(Clone, Debug, PartialEq, Eq)]
pub enum HandleAnswer {
    /// Instantiation finished.
    Init {
        /// Whether it succeeded.
        success: bool,
        /// The adapter's own address.
        address: String,
    },
    /// The configuration was replaced.
    UpdateConfig {
        /// Whether it succeeded.
        success: bool,
    },
    /// Funds were received and delegated.
    Receive {
        /// Whether it succeeded.
        success: bool,
        /// The validator delegated to.
        validator: String,
    },
}

/// The queries the adapter answers.
#[derive(Clone, Debug, PartialEq, Eq)]
pub enum QueryMsg {
    /// The configuration.
    Config,
    /// The current delegations.
    Delegations,
    /// The pending staking rewards.
    Rewards,
    /// An adapter-standard balance query for one asset.
    AdapterBalance {
        /// Which asset.
        asset: String,
    },
}

/// The answers to queries.
#[derive(Clone, Debug, PartialEq, Eq)]
pub enum QueryAnswer {
    /// The configuration.
    Config {
        /// The configuration.
        config: Config,
    },
}

} // verus!
