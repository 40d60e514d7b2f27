//! Reward-epoch accounting.
//!
//! Each epoch keeps two running counters: total reward value, and reward
//! value weighted by the bin id it accrued at. A position's share of an
//! epoch's emissions is the delta of the weighted counter between its entry
//! and the query point, over the total delta - a time-and-price-weighted
//! share that cannot be gamed by last-moment liquidity.

use vstd::prelude::*;
use crate::errors::LbError;
use crate::tree::ID_SPACE;
use crate::u256::{mul_u128_wide, p256, U256};

verus! {

/// How an epoch attributes emissions.
#[derive(Clone, Copy, Debug, PartialEq, Eq, Structural)]
pub enum RewardsDistributionAlgorithm {
    /// Weight by time spent in range.
    TimeBasedRewards,
    /// Weight by traded volume.
    VolumeBasedRewards,
}

/// Running counters of one rewards epoch. Immutable once the next epoch
/// opens.
#[derive(Clone, Copy, Debug, PartialEq, Eq, Structural)]
pub struct RewardStats {
    /// Cumulative reward value.
    pub cumm_value: U256,
    /// Cumulative reward value weighted by bin id.
    pub cumm_value_mul_bin_id: U256,
    /// The attribution algorithm this epoch runs.
    pub rewards_distribution_algorithm: RewardsDistributionAlgorithm,
}

/// One collected-fee record.
#[derive(Clone, Copy, Debug, PartialEq, Eq, Structural)]
pub struct FeeLog {
    /// Whether the fee was taken in the first asset.
    pub is_token_x: bool,
    /// The fee amount.
    pub fee: u128,
    /// The bin the fee accrued at.
    pub bin_id: u32,
    /// When it accrued, in seconds.
    pub timestamp: u64,
    /// The epoch it belongs to.
    pub last_rewards_epoch_id: u64,
}

/// What the pair currently allows.
#[derive(Clone, Copy, Debug, PartialEq, Eq, Structural)]
pub enum ContractStatus {
    /// All operations allowed.
    Active,
    /// Everything blocked except admin configuration.
    FreezeAll,
    /// Only liquidity withdrawals and admin configuration.
    LpWithdrawOnly,
}

/// Hand-off data while a pair's satellite contracts are instantiated.
#[derive(Clone, Debug, PartialEq, Eq)]
pub struct NextTokenKey {
    /// Code hash of the liquidity token being instantiated.
    pub lb_token_code_hash: String,
    /// Code id of the staking contract.
    pub staking_contract_id: u64,
    /// Code hash of the staking contract.
    pub staking_contract_code_hash: String,
    /// Symbol of the first asset.
    pub token_x_symbol: String,
    /// Symbol of the second asset.
    pub token_y_symbol: String,
}

impl RewardStats {
    /// Opens the next epoch's record. A continuing distribution carries the
    /// closing counters forward; a fresh algorithm starts them at zero.
    pub fn open_epoch(&self, carry: bool, algorithm: RewardsDistributionAlgorithm) -> (r:
        RewardStats)
        ensures
            carry ==> r.cumm_value == self.cumm_value && r.cumm_value_mul_bin_id
                == self.cumm_value_mul_bin_id,
            !carry ==> r.cumm_value.value() == 0 && r.cumm_value_mul_bin_id.value() == 0,
            r.rewards_distribution_algorithm == algorithm,
    {
        if carry {
            RewardStats { rewards_distribution_algorithm: algorithm, ..*self }
        } else {
            RewardStats {
                cumm_value: U256 { hi: 0, lo: 0 },
                cumm_value_mul_bin_id: U256 { hi: 0, lo: 0 },
                rewards_distribution_algorithm: algorithm,
            }
        }
    }

    /// Accumulates one reward-bearing event: `value` at `bin_id`. Counters
    /// that would leave 256 bits abort the operation unchanged.
    pub fn record(&mut self, value: u128, bin_id: u32) -> (r: Result<(), LbError>)
        requires
            bin_id < ID_SPACE,
        ensures
            match r {
                Ok(()) => {
                    &&& final(self).cumm_value.value() == old(self).cumm_value.value() + value
                    &&& final(self).cumm_value_mul_bin_id.value() == old(
                        self,
                    ).cumm_value_mul_bin_id.value() + value * bin_id
                    &&& final(self).rewards_distribution_algorithm == old(
                        self,
                    ).rewards_distribution_algorithm
                },
                Err(e) => {
                    &&& e == LbError::ArithmeticOverflow
                    &&& *final(self) == *old(self)
                    &&& (old(self).cumm_value.value() + value >= p256() || old(
                        self,
                    ).cumm_value_mul_bin_id.value() + value * bin_id >= p256())
                },
            },
    {
        let weighted = mul_u128_wide(value, bin_id as u128);
        let new_value = match self.cumm_value.checked_add(U256 { hi: 0, lo: value }) {
            Some(v) => v,
            None => {
                return Err(LbError::ArithmeticOverflow);
            },
        };
        let new_weighted = match self.cumm_value_mul_bin_id.checked_add(weighted) {
            Some(v) => v,
            None => {
                return Err(LbError::ArithmeticOverflow);
            },
        };
        self.cumm_value = new_value;
        self.cumm_value_mul_bin_id = new_weighted;
        Ok(())
    }

    /// A position's weight numerator over an interval of this epoch: the
    /// growth of the weighted counter since the position's entry snapshot.
    /// An exit snapshot earlier than the entry is an invariant violation.
    pub fn weight_since(&self, entry: &RewardStats) -> (r: Result<U256, LbError>)
        ensures
            match r {
                Ok(d) => entry.cumm_value_mul_bin_id.value() <= self.cumm_value_mul_bin_id.value()
                    && d.value() == self.cumm_value_mul_bin_id.value()
                    - entry.cumm_value_mul_bin_id.value(),
                Err(e) => e == LbError::StaleBinState && entry.cumm_value_mul_bin_id.value()
                    > self.cumm_value_mul_bin_id.value(),
            },
    {
        if entry.cumm_value_mul_bin_id.le(self.cumm_value_mul_bin_id) {
            Ok(self.cumm_value_mul_bin_id.sub_val(entry.cumm_value_mul_bin_id))
        } else {
            Err(LbError::StaleBinState)
        }
    }
}

} // verus!
