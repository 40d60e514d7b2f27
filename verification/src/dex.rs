//! Constant-product pool interface types and the pool arithmetic on them.
//!
//! These describe an external pair contract: what a swap simulation takes and
//! returns, and what a pair reports about itself. The one computation here is
//! the constant product of the two pool sides.

use vstd::prelude::*;
use crate::asset::Contract;
use crate::errors::LbError;

verus! {

/// A token: either a code-backed token or a native denomination.
#[derive(Clone, Debug, PartialEq, Eq)]
pub enum TokenType {
    /// A contract-backed token.
    CustomToken {
        /// The token contract's address.
        contract_addr: String,
        /// The token contract's code hash.
        token_code_hash: String,
    },
    /// A native coin.
    NativeToken {
        /// The denomination string.
        denom: String,
    },
}

/// The two sides of a pair.
#[derive(Clone, Debug, PartialEq, Eq)]
pub struct Pair {
    /// The first token.
    pub token_0: TokenType,
    /// The second token.
    pub token_1: TokenType,
}

/// An amount of one token.
#[derive(Clone, Debug, PartialEq, Eq)]
pub struct TokenTypeAmount {
    /// How much.
    pub amount: u128,
    /// Of what.
    pub token: TokenType,
}

/// The callback payload of a swap.
#[derive(Clone, Debug, PartialEq, Eq)]
pub struct CallbackMsg {
    /// The swap to perform.
    pub swap: CallbackSwap,
}

/// The inner swap payload.
#[derive(Clone, Debug, PartialEq, Eq)]
pub struct CallbackSwap {
    /// The minimum return the caller will accept.
    pub expected_return: u128,
}

/// A dry-run swap request.
#[derive(Clone, Debug, PartialEq, Eq)]
pub struct SwapSimulation {
    /// What is offered.
    pub offer: TokenTypeAmount,
}

/// The queries a pair answers.
#[derive(Clone, Debug, PartialEq, Eq)]
pub enum PairQuery {
    /// Describe the pair.
    PairInfo,
    /// Simulate a swap of the offered amount.
    SwapSimulation {
        /// What is offered.
        offer: TokenTypeAmount,
    },
}

/// The answer to a simulation.
#[derive(Clone, Debug, PartialEq, Eq)]
pub struct SimulationResponse {
    /// What the swap would return.
    pub return_amount: u128,
    /// The price-impact part of the difference.
    pub spread_amount: u128,
    /// The fee part of the difference.
    pub commission_amount: u128,
}

/// What a pair reports about itself.
#[derive(Clone, Debug, PartialEq, Eq)]
pub struct PairInfo {
    /// The liquidity token of the pair.
    pub liquidity_token: Contract,
    /// The factory that created it.
    pub factory: Contract,
    /// The two tokens.
    pub pair: Pair,
    /// Reserve of the first token.
    pub amount_0: u128,
    /// Reserve of the second token.
    pub amount_1: u128,
    /// Total liquidity tokens outstanding.
    pub total_liquidity: u128,
    /// The pair contract's version.
    pub contract_version: u32,
}

/// The envelope of a pair-info answer.
#[derive(Clone, Debug, PartialEq, Eq)]
pub struct PairInfoResponse {
    /// The report.
    pub pair_info: PairInfo,
}

/// The constant product of a pool's two reserves. An overflowing product is
/// rejected, and only an overflowing one.
pub fn pool_cp(amount_0: u128, amount_1: u128) -> (r: Result<u128, LbError>)
    ensures
        match r {
            Ok(cp) => cp == amount_0 as nat * amount_1 as nat,
            Err(e) => e == LbError::ArithmeticOverflow && amount_0 as nat * amount_1 as nat
                > u128::MAX,
        },
{
    match amount_0.checked_mul(amount_1) {
        Some(cp) => Ok(cp),
        None => Err(LbError::ArithmeticOverflow),
    }
}

} // verus!
