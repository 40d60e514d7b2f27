//! End-to-end tests of the pair: swaps, quotes, liquidity, queries.

use liquidity_book::asset::Contract;
use liquidity_book::dex::TokenType;
use liquidity_book::errors::LbError;
use liquidity_book::interface;
use liquidity_book::params::StaticFeeParameters;
use liquidity_book::pair::LbPair;

fn statics(base_factor: u16, protocol_share: u16, variable_fee_control: u32) -> StaticFeeParameters {
    StaticFeeParameters {
        base_factor,
        filter_period: 30,
        decay_period: 600,
        reduction_factor: 5_000,
        variable_fee_control,
        protocol_share,
        max_volatility_accumulator: 350_000,
    }
}

fn contract(name: &str) -> Contract {
    Contract::new(&name.to_string(), &"hash".to_string())
}

const MID: u32 = 0x800000;

fn make_pair(bin_step: u16, base_factor: u16, protocol_share: u16) -> LbPair {
    interface::init(
        contract("factory"),
        TokenType::NativeToken { denom: "uscrt".to_string() },
        TokenType::CustomToken {
            contract_addr: "token".to_string(),
            token_code_hash: "hash".to_string(),
        },
        bin_step,
        statics(base_factor, protocol_share, 0),
        MID,
        contract("lb_token"),
        contract("staking"),
        "vk".to_string(),
        "creator".to_string(),
        contract("admin"),
        8,
        10,
        1_000,
    )
    .unwrap()
}

#[test]
fn single_bin_swap_exact_fee() {
    // bin_step 100 (1%), base_factor 10: total fee 10 * 100 = 1000 ppm (0.1%),
    // zero volatility. One bin at the midpoint, price exactly one. A swap of
    // 10_000 pays fee ceil(10_000 * 1000 / 1_000_000) = 10 and converts the
    // net 9_990 one-for-one; the protocol takes floor(10 * 1000 / 10_000) = 1.
    let mut pair = make_pair(100, 10, 1_000);
    interface::add_liquidity(&mut pair, MID, 1_000_000, 1_000_000).unwrap();
    let res = interface::swap(&mut pair, true, 10_000, 1_010).unwrap();
    assert_eq!(res.amount_out, 9_990);
    assert_eq!(res.amount_in_left, 0);
    assert_eq!(res.fee, 10);
    assert_eq!(res.protocol_fee, 1);
    // the bin gained the net input plus the liquidity providers' fee share
    let (bx, by) = interface::bin_query(&pair, MID);
    assert_eq!(bx, 1_000_000 + 9_990 + 9);
    assert_eq!(by, 1_000_000 - 9_990);
    let (rx, ry) = interface::query_reserves(&pair);
    assert_eq!(rx, 1_000_000 + 10_000 - 1);
    assert_eq!(ry, 1_000_000 - 9_990);
    let (pfx, pfy) = interface::query_protocol_fees(&pair);
    assert_eq!(pfx, 1);
    assert_eq!(pfy, 0);
    assert_eq!(interface::query_active_id(&pair), MID);
}

#[test]
fn oversized_swap_partial_fill() {
    // a swap larger than all liquidity ends with a leftover, not an error
    let mut pair = make_pair(100, 10, 0);
    interface::add_liquidity(&mut pair, MID, 1_000, 1_000).unwrap();
    interface::add_liquidity(&mut pair, MID - 1, 500, 500).unwrap();
    let res = interface::swap(&mut pair, true, 1_000_000, 1_010).unwrap();
    assert!(res.amount_in_left > 0);
    assert_eq!(res.amount_out, 1_500);
    assert_eq!(interface::query_active_id(&pair), MID - 1);
}

#[test]
fn swap_crosses_bins() {
    let mut pair = make_pair(100, 0, 0);
    // zero base fee: amounts convert exactly at price one at the midpoint
    interface::add_liquidity(&mut pair, MID, 100, 100).unwrap();
    interface::add_liquidity(&mut pair, MID - 1, 0, 1_000).unwrap();
    let res = interface::swap(&mut pair, true, 150, 1_010).unwrap();
    assert_eq!(res.amount_in_left, 0);
    // the first 100 drained the midpoint bin; the rest filled at the bin below
    assert!(res.amount_out >= 100);
    assert_eq!(interface::query_active_id(&pair), MID - 1);
    let (_, by_mid) = interface::bin_query(&pair, MID);
    assert_eq!(by_mid, 0);
}

#[test]
fn quote_matches_swap() {
    let mut pair = make_pair(100, 10, 1_000);
    interface::add_liquidity(&mut pair, MID, 1_000_000, 1_000_000).unwrap();
    let (out_q, left_q, fee_q) = interface::swap_out_query(&pair, 10_000, true).unwrap();
    let res = interface::swap(&mut pair, true, 10_000, 1_000).unwrap();
    assert_eq!(out_q, res.amount_out);
    assert_eq!(left_q, res.amount_in_left);
    assert_eq!(fee_q, res.fee);
}

#[test]
fn swap_in_quote_roundtrip() {
    let mut pair = make_pair(100, 10, 1_000);
    interface::add_liquidity(&mut pair, MID, 1_000_000, 1_000_000).unwrap();
    let (amount_in, out_left, fee) = interface::swap_in_query(&pair, 9_990, true).unwrap();
    assert_eq!(out_left, 0);
    assert!(fee > 0);
    // feeding the quoted input back buys at least the wanted output
    let (out, left, _) = interface::query_swap_out(&pair, amount_in, true).unwrap();
    assert_eq!(left, 0);
    assert!(out >= 9_990);
}

#[test]
fn liquidity_add_remove_roundtrip() {
    let mut pair = make_pair(100, 10, 0);
    interface::add_liquidity(&mut pair, MID + 3, 700, 800).unwrap();
    assert_eq!(interface::query_bin(&pair, MID + 3), (700, 800));
    assert_eq!(interface::query_next_non_empty_bin(&pair, false, MID), Some(MID + 3));
    interface::remove_liquidity(&mut pair, MID + 3, 700, 800).unwrap();
    assert_eq!(interface::query_bin(&pair, MID + 3), (0, 0));
    assert_eq!(interface::query_next_non_empty_bin(&pair, false, MID), None);
    // withdrawing more than a bin holds is invalid and changes nothing
    let e = interface::remove_liquidity(&mut pair, MID + 3, 1, 0).unwrap_err();
    assert_eq!(e, LbError::InvalidParameters);
}

#[test]
fn init_rejects_bad_parameters() {
    let r = interface::init(
        contract("factory"),
        TokenType::NativeToken { denom: "a".to_string() },
        TokenType::NativeToken { denom: "b".to_string() },
        0, // invalid bin step
        statics(10, 0, 0),
        MID,
        contract("lb"),
        contract("st"),
        "vk".to_string(),
        "c".to_string(),
        contract("admin"),
        4,
        10,
        0,
    );
    assert_eq!(r.err().unwrap(), LbError::InvalidParameters);
    let r2 = interface::init(
        contract("factory"),
        TokenType::NativeToken { denom: "a".to_string() },
        TokenType::NativeToken { denom: "b".to_string() },
        100,
        statics(10, 10_001, 0), // protocol share above 100%
        MID,
        contract("lb"),
        contract("st"),
        "vk".to_string(),
        "c".to_string(),
        contract("admin"),
        4,
        10,
        0,
    );
    assert_eq!(r2.err().unwrap(), LbError::InvalidParameters);
}

#[test]
fn add_liquidity_overflow_rejected() {
    let mut pair = make_pair(100, 10, 0);
    interface::add_liquidity(&mut pair, MID, u128::MAX, 0).unwrap();
    let e = interface::add_liquidity(&mut pair, MID, 1, 0).unwrap_err();
    assert_eq!(e, LbError::ArithmeticOverflow);
    // nothing changed
    assert_eq!(interface::query_bin(&pair, MID), (u128::MAX, 0));
}

#[test]
fn getters_reflect_configuration() {
    let pair = make_pair(25, 7, 500);
    assert_eq!(interface::query_bin_step(&pair), 25);
    let (bf, fp, dp, rf, vfc, ps, mva) = interface::query_static_fee_params(&pair);
    assert_eq!((bf, fp, dp, rf, vfc, ps, mva), (7, 30, 600, 5_000, 0, 500, 350_000));
    let (va, vr, idr, tolu) = interface::query_variable_fee_params(&pair);
    assert_eq!((va, vr, idr, tolu), (0, 0, MID, 1_000));
    assert_eq!(interface::query_factory(&pair).address, "factory");
    assert_eq!(interface::lb_token_query(&pair).address, "lb_token");
    match interface::query_token_x(&pair) {
        TokenType::NativeToken { denom } => assert_eq!(denom, "uscrt"),
        _ => panic!("wrong token type"),
    }
    match interface::query_token_y(&pair) {
        TokenType::CustomToken { contract_addr, .. } => assert_eq!(contract_addr, "token"),
        _ => panic!("wrong token type"),
    }
}

#[test]
fn volatility_grows_fee() {
    // a moving active id grows the volatility accumulator and with it the fee
    let mut pair = make_pair(100, 10, 0);
    // variable_fee_control is zero here, so fee stays at the base even after
    // movement; this checks the accumulator itself through the query
    interface::add_liquidity(&mut pair, MID, 100, 100).unwrap();
    interface::add_liquidity(&mut pair, MID - 1, 0, 10_000).unwrap();
    interface::swap(&mut pair, true, 5_000, 1_100).unwrap();
    let (_va, _vr, idr, tolu) = interface::query_variable_fee_params(&pair);
    assert_eq!(tolu, 1_100);
    // the reference moved to the pre-swap active bin after the filter period
    assert_eq!(idr, MID);
    assert_eq!(interface::query_active_id(&pair), MID - 1);
}

#[test]
fn oracle_parameters_after_swaps() {
    let mut pair = make_pair(100, 10, 0);
    interface::add_liquidity(&mut pair, MID, 1_000_000, 1_000_000).unwrap();
    interface::swap(&mut pair, true, 1_000, 2_000).unwrap();
    interface::swap(&mut pair, true, 1_000, 3_000).unwrap();
    let (lifetime, size, active_size, last_updated, first_timestamp) =
        interface::query_oracle_parameters(&pair);
    assert_eq!(lifetime, 10);
    assert_eq!(size, 8);
    assert_eq!(active_size, 3);
    assert_eq!(last_updated, 3_000);
    assert_eq!(first_timestamp, 1_000);
    // a lookup between samples succeeds; one before history fails
    assert!(interface::query_oracle_sample_at(&pair, 2_500).is_ok());
    let e = interface::query_oracle_sample_at(&pair, 500).unwrap_err();
    assert_eq!(e, LbError::OracleRangeError);
}

#[test]
fn bigger_input_never_buys_less() {
    // swap monotonicity on concrete values: growing inputs, non-shrinking
    // outputs, across a bin boundary
    let mut pair = make_pair(100, 10, 1_000);
    interface::add_liquidity(&mut pair, MID, 2_000, 2_000).unwrap();
    interface::add_liquidity(&mut pair, MID - 2, 0, 5_000).unwrap();
    let mut last_out = 0u128;
    for amount in [0u128, 1, 10, 100, 1_000, 2_500, 5_000, 10_000] {
        let (out, _, _) = interface::swap_out_query(&pair, amount, true).unwrap();
        assert!(out >= last_out, "output shrank at input {amount}");
        last_out = out;
    }
}

#[test]
fn swap_the_other_way() {
    // selling the second asset walks upward through ids and divides by price
    let mut pair = make_pair(100, 10, 1_000);
    interface::add_liquidity(&mut pair, MID, 1_000_000, 1_000_000).unwrap();
    let res = interface::swap(&mut pair, false, 10_000, 1_010).unwrap();
    // price at the midpoint is exactly one, so the net converts one-for-one
    assert_eq!(res.amount_out, 9_990);
    assert_eq!(res.amount_in_left, 0);
    assert_eq!(res.fee, 10);
    let (pfx, pfy) = interface::query_protocol_fees(&pair);
    assert_eq!((pfx, pfy), (0, 1));
    // draining upward crosses to higher ids
    let mut pair2 = make_pair(100, 0, 0);
    interface::add_liquidity(&mut pair2, MID, 100, 100).unwrap();
    interface::add_liquidity(&mut pair2, MID + 1, 1_000, 0).unwrap();
    let res2 = interface::swap(&mut pair2, false, 150, 1_010).unwrap();
    assert_eq!(res2.amount_in_left, 0);
    assert!(res2.amount_out >= 100);
    assert_eq!(interface::query_active_id(&pair2), MID + 1);
}

#[test]
fn price_queries_agree_with_converter() {
    let pair = make_pair(100, 10, 0);
    let p = interface::query_price_from_id(&pair, MID).unwrap();
    assert_eq!((p.hi, p.lo), (1, 0));
    assert_eq!(interface::query_id_from_price(&pair, p), MID);
    let above = interface::query_price_from_id(&pair, MID + 10).unwrap();
    assert_eq!(interface::query_id_from_price(&pair, above), MID + 10);
}

#[test]
fn static_fee_parameters_can_change() {
    let mut pair = make_pair(100, 10, 0);
    let new_statics = StaticFeeParameters {
        base_factor: 20,
        filter_period: 10,
        decay_period: 100,
        reduction_factor: 2_500,
        variable_fee_control: 5,
        protocol_share: 2_000,
        max_volatility_accumulator: 100_000,
    };
    interface::set_static_fee_parameters(&mut pair, new_statics).unwrap();
    let (bf, fp, dp, rf, vfc, ps, mva) = interface::query_static_fee_params(&pair);
    assert_eq!((bf, fp, dp, rf, vfc, ps, mva), (20, 10, 100, 2_500, 5, 2_000, 100_000));
    // out-of-bounds parameters are refused and change nothing
    let bad = StaticFeeParameters { protocol_share: 10_001, ..new_statics };
    let e = interface::set_static_fee_parameters(&mut pair, bad).unwrap_err();
    assert_eq!(e, LbError::InvalidParameters);
    assert_eq!(interface::query_static_fee_params(&pair).5, 2_000);
}

#[test]
fn oracle_lookups_never_decrease() {
    // the cumulative fields are running sums: later lookups dominate earlier
    let mut pair = make_pair(100, 10, 0);
    interface::add_liquidity(&mut pair, MID, 1_000_000, 1_000_000).unwrap();
    interface::swap(&mut pair, true, 1_000, 2_000).unwrap();
    interface::swap(&mut pair, true, 1_000, 3_000).unwrap();
    let mut last = (0u64, 0u64, 0u64);
    for t in [1_000u64, 1_500, 2_000, 2_400, 3_000] {
        let c = interface::query_oracle_sample_at(&pair, t).unwrap();
        assert!(c.0 >= last.0 && c.1 >= last.1 && c.2 >= last.2, "decreased at {t}");
        last = c;
    }
}
