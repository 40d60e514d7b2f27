//! The pair's command and query surface.
//!
//! These are the operations the surrounding contract dispatcher invokes:
//! thin, fully specified entry points over one pair instance. Queries are
//! pure reads of the latest committed state; commands commit atomically.

use vstd::prelude::*;
use crate::asset::Contract;
use crate::dex::TokenType;
use crate::errors::LbError;
use crate::pair::{LbPair, State, SwapResult};
use crate::params::StaticFeeParameters;
use crate::price::{spec_price, valid_bin_step};
use crate::swap::Bin;
use crate::tree::ID_SPACE;
use crate::u256::{p256, U256};

verus! {

/// Instantiates a pair. Rejects an invalid bin step or out-of-bounds static
/// fee parameters, and only those.
pub fn init(
    factory: Contract,
    token_x: TokenType,
    token_y: TokenType,
    bin_step: u16,
    pair_parameters: StaticFeeParameters,
    active_id: u32,
    lb_token: Contract,
    staking_contract: Contract,
    viewing_key: String,
    creator: String,
    admin_auth: Contract,
    oracle_capacity: u16,
    oracle_lifetime: u8,
    now: u64,
) -> (r: Result<LbPair, LbError>)
    requires
        active_id < ID_SPACE,
        oracle_capacity >= 1,
    ensures
        match r {
            Ok(p) => LbPair::spec_fresh_pair(
                p,
                (State {
                    creator,
                    factory,
                    token_x,
                    token_y,
                    bin_step,
                    viewing_key,
                    pair_parameters: p.state.pair_parameters,
                    reserves: p.state.reserves,
                    protocol_fees: p.state.protocol_fees,
                    lb_token,
                    staking_contract,
                    protocol_fees_recipient: p.state.protocol_fees_recipient,
                    admin_auth,
                    last_swap_timestamp: p.state.last_swap_timestamp,
                    rewards_epoch_id: 0u64,
                    base_rewards_bins: None,
                    toggle_distributions_algorithm: false,
                }),
                pair_parameters,
                active_id,
                oracle_capacity,
                oracle_lifetime,
                now,
            ) && p.state.protocol_fees_recipient@ == Seq::<char>::empty(),
            Err(e) => e == LbError::InvalidParameters && (!pair_parameters.valid()
                || !valid_bin_step(bin_step)),
        },
{
    let seed = State {
        creator,
        factory,
        token_x,
        token_y,
        bin_step,
        viewing_key,
        pair_parameters: crate::params::PairParameters {
            statics: pair_parameters,
            volatility_accumulator: 0,
            volatility_reference: 0,
            id_reference: 0,
            time_of_last_update: 0,
            oracle_sample_id: 0,
            active_bin_id: 0,
        },
        reserves: (0, 0),
        protocol_fees: (0, 0),
        lb_token,
        staking_contract,
        protocol_fees_recipient: String::new(),
        admin_auth,
        last_swap_timestamp: now,
        rewards_epoch_id: 0,
        base_rewards_bins: None,
        toggle_distributions_algorithm: false,
    };
    LbPair::new(seed, pair_parameters, active_id, oracle_capacity, oracle_lifetime, now)
}

/// Seeds liquidity into one bin.
pub fn add_liquidity(pair: &mut LbPair, id: u32, amount_x: u128, amount_y: u128) -> (r: Result<
    (),
    LbError,
>)
    requires
        old(pair).wf(),
        id < ID_SPACE,
    ensures
        match r {
            Ok(()) => LbPair::spec_liquidity_added(*old(pair), *final(pair), id, amount_x, amount_y),
            Err(e) => LbPair::spec_add_aborts(*old(pair), *final(pair), e, id, amount_x, amount_y),
        },
{
    pair.add_liquidity(id, amount_x, amount_y)
}

/// Withdraws liquidity from one bin.
pub fn remove_liquidity(pair: &mut LbPair, id: u32, amount_x: u128, amount_y: u128) -> (r: Result<
    (),
    LbError,
>)
    requires
        old(pair).wf(),
        id < ID_SPACE,
    ensures
        match r {
            Ok(()) => LbPair::spec_liquidity_removed(
                *old(pair),
                *final(pair),
                id,
                amount_x,
                amount_y,
            ),
            Err(e) => LbPair::spec_remove_aborts(
                *old(pair),
                *final(pair),
                e,
                id,
                amount_x,
                amount_y,
            ),
        },
{
    pair.remove_liquidity(id, amount_x, amount_y)
}

/// Executes a swap of `amount_received` at time `now`.
pub fn swap(pair: &mut LbPair, swap_for_y: bool, amount_received: u128, now: u64) -> (r: Result<
    SwapResult,
    LbError,
>)
    requires
        old(pair).wf(),
        now >= old(pair).state.pair_parameters.time_of_last_update,
        now >= old(pair).oracle@[old(pair).oracle@.len() - 1].created_at,
    ensures
        match r {
            Ok(res) => LbPair::spec_swap_committed(
                *old(pair),
                *final(pair),
                res,
                amount_received,
                swap_for_y,
                now,
            ),
            Err(e) => LbPair::spec_swap_aborts(
                *old(pair),
                *final(pair),
                e,
                amount_received,
                swap_for_y,
                now,
            ),
        },
{
    pair.swap(amount_received, swap_for_y, now)
}

/// The pair's liquidity token contract.
pub fn lb_token_query(pair: &LbPair) -> (r: &Contract)
    ensures
        r == &pair.state.lb_token,
{
    &pair.state.lb_token
}

/// One bin's reserves.
pub fn bin_query(pair: &LbPair, id: u32) -> (r: (u128, u128))
    ensures
        r.0 == pair.spec_bin(id).reserve_x,
        r.1 == pair.spec_bin(id).reserve_y,
{
    let b = pair.bin(id);
    (b.reserve_x, b.reserve_y)
}

/// Dry-run quote: the output, unconsumed input and fee for a given input.
pub fn swap_out_query(pair: &LbPair, amount_in: u128, swap_for_y: bool) -> (r: Result<
    (u128, u128, u128),
    LbError,
>)
    requires
        pair.wf(),
    ensures
        ({
            let w = pair.spec_quote_walk(amount_in, swap_for_y);
            match r {
                Ok((out, left, fee)) => w.ok && out == w.out && left == w.left && fee
                    == w.fee_total,
                Err(e) => e == LbError::ArithmeticOverflow && (!w.ok || w.out > u128::MAX),
            }
        }),
{
    match pair.get_swap_out(amount_in, swap_for_y) {
        Ok(res) => Ok((res.amount_out, res.amount_in_left, res.fee)),
        Err(e) => Err(e),
    }
}

/// Dry-run quote for a given input: same as `swap_out_query`.
pub fn query_swap_out(pair: &LbPair, amount_in: u128, swap_for_y: bool) -> (r: Result<
    (u128, u128, u128),
    LbError,
>)
    requires
        pair.wf(),
    ensures
        ({
            let w = pair.spec_quote_walk(amount_in, swap_for_y);
            match r {
                Ok((out, left, fee)) => w.ok && out == w.out && left == w.left && fee
                    == w.fee_total,
                Err(e) => e == LbError::ArithmeticOverflow && (!w.ok || w.out > u128::MAX),
            }
        }),
{
    swap_out_query(pair, amount_in, swap_for_y)
}

/// The static fee configuration.
pub fn query_static_fee_params(pair: &LbPair) -> (r: (u16, u16, u16, u16, u32, u16, u32))
    ensures
        ({
            let s = pair.state.pair_parameters.statics;
            r == (
                s.base_factor,
                s.filter_period,
                s.decay_period,
                s.reduction_factor,
                s.variable_fee_control,
                s.protocol_share,
                s.max_volatility_accumulator,
            )
        }),
{
    let s = pair.state.pair_parameters.statics;
    (
        s.base_factor,
        s.filter_period,
        s.decay_period,
        s.reduction_factor,
        s.variable_fee_control,
        s.protocol_share,
        s.max_volatility_accumulator,
    )
}

/// The dynamic volatility state.
pub fn query_variable_fee_params(pair: &LbPair) -> (r: (u32, u32, u32, u64))
    ensures
        ({
            let p = pair.state.pair_parameters;
            r == (
                p.volatility_accumulator,
                p.volatility_reference,
                p.id_reference,
                p.time_of_last_update,
            )
        }),
{
    let p = pair.state.pair_parameters;
    (p.volatility_accumulator, p.volatility_reference, p.id_reference, p.time_of_last_update)
}

/// The factory that deployed the pair.
pub fn query_factory(pair: &LbPair) -> (r: &Contract)
    ensures
        r == &pair.state.factory,
{
    &pair.state.factory
}

/// The first asset.
pub fn query_token_x(pair: &LbPair) -> (r: &TokenType)
    ensures
        r == &pair.state.token_x,
{
    &pair.state.token_x
}

/// The second asset.
pub fn query_token_y(pair: &LbPair) -> (r: &TokenType)
    ensures
        r == &pair.state.token_y,
{
    &pair.state.token_y
}

/// The bin step.
pub fn query_bin_step(pair: &LbPair) -> (r: u16)
    ensures
        r == pair.state.bin_step,
{
    pair.state.bin_step
}

/// The pair's total reserves.
pub fn query_reserves(pair: &LbPair) -> (r: (u128, u128))
    ensures
        r == pair.state.reserves,
{
    pair.state.reserves
}

/// The active bin id.
pub fn query_active_id(pair: &LbPair) -> (r: u32)
    ensures
        r == pair.state.pair_parameters.active_bin_id,
{
    pair.state.pair_parameters.active_bin_id
}

/// One bin's reserves.
pub fn query_bin(pair: &LbPair, id: u32) -> (r: (u128, u128))
    ensures
        r.0 == pair.spec_bin(id).reserve_x,
        r.1 == pair.spec_bin(id).reserve_y,
{
    bin_query(pair, id)
}

/// The next populated bin in the given direction, or `None` when liquidity
/// on that side is exhausted.
pub fn query_next_non_empty_bin(pair: &LbPair, swap_for_y: bool, id: u32) -> (r: Option<u32>)
    requires
        pair.wf(),
        id < ID_SPACE,
    ensures
        match r {
            Some(j) => j < ID_SPACE && pair.tree@.contains(j) && (swap_for_y ==> j < id) && (
            !swap_for_y ==> j > id) && forall|k: u32|
                (if swap_for_y {
                    j < k < id
                } else {
                    id < k < j
                }) ==> !pair.tree@.contains(k),
            None => forall|k: u32|
                (if swap_for_y {
                    k < id
                } else {
                    id < k < ID_SPACE
                }) ==> !pair.tree@.contains(k),
        },
{
    pair.tree.find_first(swap_for_y, id)
}

/// The collected protocol fees.
pub fn query_protocol_fees(pair: &LbPair) -> (r: (u128, u128))
    ensures
        r == pair.state.protocol_fees,
{
    pair.state.protocol_fees
}

/// The oracle's shape: lifetime, capacity, retained count, newest and oldest
/// timestamps.
pub fn query_oracle_parameters(pair: &LbPair) -> (r: (u8, u16, u16, u64, u64))
    requires
        pair.wf(),
    ensures
        r.0 == pair.oracle.spec_lifetime(),
        r.1 == pair.oracle.spec_capacity(),
        r.2 == pair.oracle@.len(),
        r.3 == pair.oracle@[pair.oracle@.len() - 1].created_at,
        r.4 == pair.oracle@[0].created_at,
{
    proof {
        crate::pair::lemma_pair_oracle_wf(pair);
    }
    (
        pair.oracle.lifetime(),
        pair.oracle.capacity(),
        pair.oracle.active_size(),
        pair.oracle.last_updated(),
        pair.oracle.first_timestamp(),
    )
}

/// The cumulative values at a past timestamp: the exact running sums where
/// the timestamp hits a retained sample, else the linear interpolation
/// between the two bracketing samples. Out-of-history timestamps are range
/// errors, and only those.
pub fn query_oracle_sample_at(pair: &LbPair, look_up_timestamp: u64) -> (r: Result<
    (u64, u64, u64),
    LbError,
>)
    requires
        pair.wf(),
    ensures
        match r {
            Ok(c) => pair.oracle.spec_in_range(look_up_timestamp) && crate::oracle::Oracle::spec_lookup(
                pair.oracle@,
                look_up_timestamp,
                c,
            ),
            Err(e) => e == LbError::OracleRangeError && !pair.oracle.spec_in_range(
                look_up_timestamp,
            ),
        },
{
    proof {
        crate::pair::lemma_pair_oracle_wf(pair);
    }
    pair.oracle.get_sample_at(look_up_timestamp)
}

/// The price of a bin id, as a 128.128 fixed-point value.
pub fn query_price_from_id(pair: &LbPair, id: u32) -> (r: Result<U256, LbError>)
    requires
        pair.wf(),
        id < ID_SPACE,
    ensures
        match r {
            Ok(p) => p.value() == spec_price(pair.state.bin_step, id),
            Err(e) => e == LbError::ArithmeticOverflow && spec_price(pair.state.bin_step, id)
                >= p256(),
        },
{
    crate::price::id_to_price(id, pair.state.bin_step)
}

/// The bin whose price range contains the given price.
pub fn query_id_from_price(pair: &LbPair, price: U256) -> (r: u32)
    requires
        pair.wf(),
    ensures
        r < ID_SPACE,
        !crate::price::price_le(pair.state.bin_step, 0, price) ==> r == 0,
        crate::price::price_le(pair.state.bin_step, 0, price) && crate::price::price_le(
            pair.state.bin_step,
            (ID_SPACE - 1) as u32,
            price,
        ) ==> r == ID_SPACE - 1,
        crate::price::price_le(pair.state.bin_step, 0, price) && !crate::price::price_le(
            pair.state.bin_step,
            (ID_SPACE - 1) as u32,
            price,
        ) ==> crate::price::price_le(pair.state.bin_step, r, price) && !crate::price::price_le(
            pair.state.bin_step,
            (r + 1) as u32,
            price,
        ),
{
    crate::price::price_to_id(price, pair.state.bin_step)
}

/// Dry-run inverse quote: the input needed for a desired output, the output
/// left uncovered by liquidity, and the fee inside the input.
pub fn swap_in_query(pair: &LbPair, amount_out: u128, swap_for_y: bool) -> (r: Result<
    (u128, u128, u128),
    LbError,
>)
    requires
        pair.wf(),
    ensures
        ({
            let w = pair.spec_quote_walk_in(amount_out, swap_for_y);
            match r {
                Ok((amount_in, out_left, fee)) => amount_in == w.0 && out_left == w.1 && fee
                    == w.2,
                Err(e) => e == LbError::ArithmeticOverflow && w.0 > u128::MAX,
            }
        }),
{
    pair.get_swap_in(amount_out, swap_for_y)
}

/// Dry-run inverse quote: same as `swap_in_query`.
pub fn query_swap_in(pair: &LbPair, amount_out: u128, swap_for_y: bool) -> (r: Result<
    (u128, u128, u128),
    LbError,
>)
    requires
        pair.wf(),
    ensures
        ({
            let w = pair.spec_quote_walk_in(amount_out, swap_for_y);
            match r {
                Ok((amount_in, out_left, fee)) => amount_in == w.0 && out_left == w.1 && fee
                    == w.2,
                Err(e) => e == LbError::ArithmeticOverflow && w.0 > u128::MAX,
            }
        }),
{
    swap_in_query(pair, amount_out, swap_for_y)
}

/// Replaces the static fee configuration. Out-of-bounds parameters are
/// rejected, and only those; the volatility state is clamped into the new
/// accumulator bound so the register stays consistent.
pub fn set_static_fee_parameters(pair: &mut LbPair, statics: StaticFeeParameters) -> (r: Result<
    (),
    LbError,
>)
    requires
        old(pair).wf(),
    ensures
        match r {
            Ok(()) => {
                let p0 = old(pair).state.pair_parameters;
                &&& statics.valid()
                &&& final(pair).wf()
                &&& final(pair).state == (State {
                    pair_parameters: final(pair).state.pair_parameters,
                    ..old(pair).state
                })
                &&& final(pair).state.pair_parameters == (crate::params::PairParameters {
                    statics,
                    volatility_accumulator: (if p0.volatility_accumulator
                        > statics.max_volatility_accumulator {
                        statics.max_volatility_accumulator
                    } else {
                        p0.volatility_accumulator
                    }),
                    volatility_reference: (if p0.volatility_reference
                        > statics.max_volatility_accumulator {
                        statics.max_volatility_accumulator
                    } else {
                        p0.volatility_reference
                    }),
                    ..p0
                })
                &&& final(pair).spec_bins() == old(pair).spec_bins()
                &&& final(pair).tree@ == old(pair).tree@
                &&& final(pair).oracle@ == old(pair).oracle@
                &&& final(pair).oracle.spec_capacity() == old(pair).oracle.spec_capacity()
                &&& final(pair).oracle.spec_lifetime() == old(pair).oracle.spec_lifetime()
            },
            Err(e) => e == LbError::InvalidParameters && !statics.valid() && *final(pair) == *old(
                pair,
            ),
        },
{
    if statics.protocol_share > crate::params::BASIS_POINT_MAX || statics.reduction_factor
        > crate::params::BASIS_POINT_MAX || statics.filter_period > statics.decay_period {
        return Err(LbError::InvalidParameters);
    }
    let mut params = pair.state.pair_parameters;
    params.statics = statics;
    if params.volatility_accumulator > statics.max_volatility_accumulator {
        params.volatility_accumulator = statics.max_volatility_accumulator;
    }
    if params.volatility_reference > statics.max_volatility_accumulator {
        params.volatility_reference = statics.max_volatility_accumulator;
    }
    pair.state.pair_parameters = params;
    proof {
        assert(pair.state.pair_parameters.wf());
        assert(forall|id: u32|
            id < ID_SPACE ==> (#[trigger] pair.tree@.contains(id) == !pair.spec_bin(
                id,
            ).is_empty()));
        assert(pair.spec_bins() == old(pair).spec_bins());
        assert forall|id: u32| #[trigger] pair.spec_bins().contains_key(id) implies id
            < ID_SPACE by {
            assert(old(pair).spec_bins().contains_key(id));
        }
        assert(forall|id: u32|
            #[trigger] pair.tree@.contains(id) ==> spec_price(pair.state.bin_step, id) < p256());
        assert(pair.wf());
    }
    Ok(())
}

} // verus!
