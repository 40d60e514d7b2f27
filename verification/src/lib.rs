//! A bin-based ("liquidity book") automated market maker core.
//!
//! Liquidity is discretized into fixed geometric price bins, each bin holding
//! reserves of two assets. A dynamic fee model reacts to price volatility, and
//! a time-weighted oracle over historical price/volatility state answers
//! interpolated queries about the past. Every algorithm here is deterministic:
//! identical inputs give bit-for-bit identical outputs, as a ledger-replicated
//! computation requires.
//!
//! The pieces, leaf first: [`u256`] carries the 256-bit fixed-point
//! arithmetic; [`tree`] indexes which bins hold liquidity; [`price`] converts
//! between bin ids and prices; [`params`] runs the volatility/fee state
//! machine; [`oracle`] retains time-weighted cumulative samples; [`swap`]
//! holds the per-bin trade arithmetic and the multi-bin walk; [`pair`] owns
//! one pair's whole state and commits operations atomically; [`interface`]
//! is the command/query surface the surrounding dispatcher calls. Around the
//! core, [`asset`], [`dex`], [`band`], [`router`], [`staking`], [`manager`]
//! and [`rewards`] carry the neighboring contracts' types and their small
//! verified kernels.

use vstd::prelude::*;

pub mod asset;
pub mod band;
pub mod dex;
pub mod errors;
pub mod interface;
pub mod manager;
pub mod oracle;
pub mod pair;
pub mod params;
pub mod price;
pub mod rewards;
pub mod router;
pub mod staking;
pub mod swap;
pub mod tree;
pub mod u256;

verus! {

} // verus!
