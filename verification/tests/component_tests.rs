//! Component-level tests: tree, price, fees, oracle, numbers, rewards.

use liquidity_book::errors::LbError;
use liquidity_book::oracle::Oracle;
use liquidity_book::params::{PairParameters, StaticFeeParameters, MAX_FEE};
use liquidity_book::rewards::{RewardStats, RewardsDistributionAlgorithm};
use liquidity_book::tree::TreeUint24;
use liquidity_book::u256::{div_rem, fp_mul, mul_u128_wide, sqrt_u256, U256};
use liquidity_book::manager;
use liquidity_book::dex;
use liquidity_book::price;
use liquidity_book::asset::{Contract, RawContract};

const MID: u32 = 0x800000;

#[test]
fn tree_insert_remove_find() {
    let mut t = TreeUint24::new();
    assert!(!t.contains(42));
    t.insert(42);
    t.insert(100_000);
    t.insert(16_777_215);
    assert!(t.contains(42));
    assert!(t.contains(100_000));
    assert!(t.contains(16_777_215));
    // nearest populated bins in both directions
    assert_eq!(t.find_first(true, 100_000), Some(42));
    assert_eq!(t.find_first(false, 100_000), Some(16_777_215));
    assert_eq!(t.find_first(true, 42), None);
    assert_eq!(t.find_first(false, 16_777_215), None);
    // an id inserted and then removed is gone and is never found again
    t.remove(100_000);
    assert!(!t.contains(100_000));
    assert_eq!(t.find_first(true, 16_777_215), Some(42));
    assert_eq!(t.find_first(false, 42), Some(16_777_215));
    t.remove(42);
    t.remove(16_777_215);
    assert_eq!(t.find_first(true, 16_777_215), None);
    assert_eq!(t.find_first(false, 0), None);
}

#[test]
fn tree_neighbors_are_exact() {
    let mut t = TreeUint24::new();
    t.insert(MID);
    t.insert(MID + 1);
    t.insert(MID - 1);
    assert_eq!(t.find_first(true, MID), Some(MID - 1));
    assert_eq!(t.find_first(false, MID), Some(MID + 1));
    // the boundary cases of the id space
    t.insert(0);
    assert_eq!(t.find_first(true, 1), Some(0));
    assert_eq!(t.find_first(true, 0), None);
}

#[test]
fn price_of_midpoint_is_one() {
    // at the midpoint the price is exactly one, i.e. 2^128 in 128.128 form
    let p = price::id_to_price(MID, 100).unwrap();
    assert_eq!(p, U256 { hi: 1, lo: 0 });
}

#[test]
fn price_steps_are_geometric() {
    // one step above the midpoint the price is 1 + 100/10_000 = 1.01
    let p = price::id_to_price(MID + 1, 100).unwrap();
    assert_eq!(p.hi, 1);
    // fractional part: floor(0.01 * 2^128)
    let expected_frac = (U256 { hi: 100, lo: 0 }, 10_000u128);
    let (q, _r) = div_rem(expected_frac.0, U256 { hi: 0, lo: expected_frac.1 });
    assert_eq!(p.lo, q.lo);
    // one step below: price strictly under one
    let below = price::id_to_price(MID - 1, 100).unwrap();
    assert_eq!(below.hi, 0);
    assert!(below.lo > 0);
}

#[test]
fn price_id_round_trip() {
    // converting a bin's price back to an id lands on the same bin, as long
    // as the id's price clears the discretization floor
    for &bin_step in &[1u16, 25, 100] {
        for &id in &[MID - 700, MID - 1, MID, MID + 1, MID + 300] {
            let p = price::id_to_price(id, bin_step).unwrap();
            assert_eq!(price::price_to_id(p, bin_step), id, "step {bin_step} id {id}");
        }
    }
    // the coarsest step doubles the price per bin, so only a narrow band of
    // ids has representable prices at all
    for &id in &[MID - 80, MID - 1, MID, MID + 1, MID + 80] {
        let p = price::id_to_price(id, 10_000).unwrap();
        assert_eq!(price::price_to_id(p, 10_000), id, "step 10000 id {id}");
    }
}

#[test]
fn price_to_id_brackets_extreme_prices() {
    // a tiny price lands deep below the midpoint, where bins truncate to it
    let tiny = U256 { hi: 0, lo: 1 };
    let low = price::price_to_id(tiny, 100);
    assert!(low < MID);
    // a gigantic price lands on the last bin whose price is representable
    let huge = U256 { hi: u128::MAX, lo: u128::MAX };
    let high = price::price_to_id(huge, 100);
    assert!(high > MID);
    let p = price::id_to_price(high, 100).unwrap();
    assert!(p.hi >= 1);
    assert!(price::id_to_price(high + 1, 100).is_err());
}

#[test]
fn fee_is_capped() {
    let statics = StaticFeeParameters {
        base_factor: u16::MAX,
        filter_period: 1,
        decay_period: 1,
        reduction_factor: 10_000,
        variable_fee_control: u32::MAX,
        protocol_share: 10_000,
        max_volatility_accumulator: u32::MAX,
    };
    let mut p = PairParameters::new(statics, MID, 0).unwrap();
    // drive the accumulator to its configured maximum
    p.update_references(0, 10);
    let fee = p.total_fee(10_000);
    assert!(fee <= MAX_FEE);
    assert_eq!(fee, MAX_FEE); // saturated by the cap
}

#[test]
fn fee_formula_exact() {
    let statics = StaticFeeParameters {
        base_factor: 10,
        filter_period: 30,
        decay_period: 600,
        reduction_factor: 5_000,
        variable_fee_control: 0,
        protocol_share: 0,
        max_volatility_accumulator: 350_000,
    };
    let p = PairParameters::new(statics, MID, 0).unwrap();
    // base only: 10 * 100 = 1000 ppm
    assert_eq!(p.total_fee(100), 1_000);
    assert_eq!(p.total_fee(25), 250);
}

#[test]
fn volatility_decays_after_quiet_period() {
    let statics = StaticFeeParameters {
        base_factor: 10,
        filter_period: 30,
        decay_period: 600,
        reduction_factor: 5_000, // halve on decay
        variable_fee_control: 1,
        protocol_share: 0,
        max_volatility_accumulator: 350_000,
    };
    let mut p = PairParameters::new(statics, MID, 0).unwrap();
    // move 100 bins at t=1000: accumulator = 1 * 100
    p.update_references(MID + 100, 1_000);
    assert_eq!(p.volatility_accumulator, 100);
    // within the filter period the reference stays put: the accumulator is
    // rebuilt from the unchanged (zero) volatility reference
    p.update_references(MID + 90, 1_010);
    assert_eq!(p.id_reference, MID + 100);
    assert_eq!(p.volatility_accumulator, 10);
    // after a full quiet decay period the reference halves, then grows by
    // the movement against the old reference id
    p.update_references(MID + 90, 2_000);
    assert_eq!(p.volatility_reference, 5);
    assert_eq!(p.volatility_accumulator, 15);
    assert_eq!(p.id_reference, MID + 90);
}

#[test]
fn oracle_interpolates_between_samples() {
    let mut o = Oracle::new(4, 1, 1_000);
    // two pushes past the lifetime create two more samples
    o.push(100, 7, 3, 1_100).unwrap();
    o.push(100, 7, 2, 1_200).unwrap();
    // cumulative id at 1_100: 100 * 100 elapsed = 10_000
    let (ci_a, cv_a, cb_a) = o.get_sample_at(1_100).unwrap();
    assert_eq!(ci_a, 10_000);
    assert_eq!(cv_a, 700);
    assert_eq!(cb_a, 3);
    let (ci_b, cv_b, cb_b) = o.get_sample_at(1_200).unwrap();
    assert_eq!(ci_b, 20_000);
    assert_eq!(cv_b, 1_400);
    assert_eq!(cb_b, 5);
    // halfway between the two samples the values interpolate linearly and
    // stay inside the band of the bracketing samples
    let (ci, cv, cb) = o.get_sample_at(1_150).unwrap();
    assert_eq!(ci, 15_000);
    assert_eq!(cv, 1_050);
    assert_eq!(cb, 4);
    assert!(ci_a <= ci && ci <= ci_b);
    assert!(cv_a <= cv && cv <= cv_b);
    assert!(cb_a <= cb && cb <= cb_b);
}

#[test]
fn oracle_overwrites_oldest_beyond_capacity() {
    let mut o = Oracle::new(2, 1, 1_000);
    o.push(1, 0, 0, 1_100).unwrap();
    assert_eq!(o.active_size(), 2);
    assert_eq!(o.first_timestamp(), 1_000);
    // a third distinct sample evicts the oldest slot
    o.push(1, 0, 0, 1_200).unwrap();
    assert_eq!(o.active_size(), 2);
    assert_eq!(o.first_timestamp(), 1_100);
    assert_eq!(o.last_updated(), 1_200);
    // a timestamp older than the oldest retained sample is out of range
    let e = o.get_sample_at(1_000).unwrap_err();
    assert_eq!(e, LbError::OracleRangeError);
    // and one beyond the newest as well
    let e2 = o.get_sample_at(1_300).unwrap_err();
    assert_eq!(e2, LbError::OracleRangeError);
}

#[test]
fn oracle_folds_within_lifetime() {
    let mut o = Oracle::new(4, 60, 1_000);
    o.push(10, 0, 1, 1_030).unwrap();
    // within the 60-second lifetime the newest slot is folded, not appended
    assert_eq!(o.active_size(), 1);
    assert_eq!(o.last_updated(), 1_030);
}

#[test]
fn u256_arithmetic_is_exact() {
    let a = mul_u128_wide(u128::MAX, u128::MAX);
    // (2^128 - 1)^2 = 2^256 - 2^129 + 1
    assert_eq!(a.hi, u128::MAX - 1);
    assert_eq!(a.lo, 1);
    let (q, r) = div_rem(a, U256 { hi: 0, lo: u128::MAX });
    // (2^128 - 1)^2 / (2^128 - 1) is exactly 2^128 - 1
    assert_eq!(q, U256 { hi: 0, lo: u128::MAX });
    assert_eq!(r, U256 { hi: 0, lo: 0 });
    // fixed-point multiply: one times x is x
    let one = U256 { hi: 1, lo: 0 };
    let x = U256 { hi: 0, lo: 123_456_789 };
    assert_eq!(fp_mul(one, x), Some(x));
}

#[test]
fn pool_constant_product() {
    assert_eq!(dex::pool_cp(6, 7), Ok(42));
    assert_eq!(dex::pool_cp(u128::MAX, 2), Err(LbError::ArithmeticOverflow));
}

#[test]
fn holders_register_once() {
    let mut holders: Vec<String> = Vec::new();
    let h = manager::add_holder(&mut holders, "alice".to_string()).unwrap();
    assert_eq!(h.status, manager::Status::Active);
    assert!(h.balances.is_empty());
    let e = manager::add_holder(&mut holders, "alice".to_string()).unwrap_err();
    assert_eq!(e, LbError::InvalidParameters);
    let mut held = h;
    manager::remove_holder(&mut held);
    assert_eq!(held.status, manager::Status::Closed);
}

#[test]
fn reward_epochs_carry_or_reset() {
    let mut stats = RewardStats {
        cumm_value: U256 { hi: 0, lo: 0 },
        cumm_value_mul_bin_id: U256 { hi: 0, lo: 0 },
        rewards_distribution_algorithm: RewardsDistributionAlgorithm::TimeBasedRewards,
    };
    stats.record(500, 10).unwrap();
    stats.record(300, 20).unwrap();
    assert_eq!(stats.cumm_value, U256 { hi: 0, lo: 800 });
    assert_eq!(stats.cumm_value_mul_bin_id, U256 { hi: 0, lo: 500 * 10 + 300 * 20 });
    let entry = RewardStats {
        cumm_value: U256 { hi: 0, lo: 500 },
        cumm_value_mul_bin_id: U256 { hi: 0, lo: 5_000 },
        rewards_distribution_algorithm: RewardsDistributionAlgorithm::TimeBasedRewards,
    };
    let w = stats.weight_since(&entry).unwrap();
    assert_eq!(w, U256 { hi: 0, lo: 6_000 });
    // carried epochs keep the counters, fresh ones reset them
    let carried = stats.open_epoch(true, RewardsDistributionAlgorithm::VolumeBasedRewards);
    assert_eq!(carried.cumm_value, stats.cumm_value);
    let fresh = stats.open_epoch(false, RewardsDistributionAlgorithm::TimeBasedRewards);
    assert_eq!(fresh.cumm_value, U256 { hi: 0, lo: 0 });
}

#[test]
fn contract_handles() {
    let raw = RawContract::new(&"addr".to_string(), &"hash".to_string());
    assert_eq!(raw.address, "addr");
    assert_eq!(raw.code_hash, "hash");
    let c = Contract::new(&"addr".to_string(), &"hash".to_string());
    assert_eq!(c.address, "addr");
    assert_eq!(c.code_hash, "hash");
}

#[test]
fn reward_weight_rejects_backwards_interval() {
    let newer = RewardStats {
        cumm_value: U256 { hi: 0, lo: 10 },
        cumm_value_mul_bin_id: U256 { hi: 0, lo: 100 },
        rewards_distribution_algorithm: RewardsDistributionAlgorithm::TimeBasedRewards,
    };
    let older = RewardStats {
        cumm_value: U256 { hi: 0, lo: 5 },
        cumm_value_mul_bin_id: U256 { hi: 0, lo: 50 },
        rewards_distribution_algorithm: RewardsDistributionAlgorithm::TimeBasedRewards,
    };
    // an entry snapshot from the future is an invariant violation
    let e = older.weight_since(&newer).unwrap_err();
    assert_eq!(e, LbError::StaleBinState);
}

#[test]
fn error_kinds_have_names() {
    assert_eq!(LbError::ArithmeticOverflow.as_str(), "arithmetic overflow");
    assert_eq!(LbError::OracleRangeError.as_str(), "oracle lookup out of range");
    assert_eq!(LbError::InvalidParameters.as_str(), "invalid parameters");
    assert_eq!(LbError::StaleBinState.as_str(), "stale bin state");
}

#[test]
fn square_root_is_exact_floor() {
    assert_eq!(sqrt_u256(U256 { hi: 0, lo: 0 }), 0);
    assert_eq!(sqrt_u256(U256 { hi: 0, lo: 1 }), 1);
    assert_eq!(sqrt_u256(U256 { hi: 0, lo: 99 }), 9);
    assert_eq!(sqrt_u256(U256 { hi: 0, lo: 100 }), 10);
    // 2^128 squares back to hi = 1
    assert_eq!(sqrt_u256(U256 { hi: 1, lo: 0 }), 1 << 64);
    // the square of the maximum root fits exactly
    let m = mul_u128_wide(u128::MAX, u128::MAX);
    assert_eq!(sqrt_u256(m), u128::MAX);
    assert_eq!(sqrt_u256(U256 { hi: u128::MAX, lo: u128::MAX }), u128::MAX);
}

#[test]
fn allocations_stay_within_budget() {
    fn alloc(addr: &str, amount: u128, portion: bool) -> manager::Allocation {
        manager::Allocation {
            nick: None,
            contract: Contract::new(&addr.to_string(), &"hash".to_string()),
            amount,
            alloc_type: if portion {
                manager::AllocationType::Portion
            } else {
                manager::AllocationType::Amount
            },
            tolerance: 0,
        }
    }
    let half = manager::ONE_HUNDRED_PERCENT / 2;
    let mut apps: Vec<manager::AllocationMeta> = Vec::new();
    manager::allocate(&mut apps, alloc("a", half, true)).unwrap();
    manager::allocate(&mut apps, alloc("b", 1_000, false)).unwrap();
    // amount-sized entries come first, portions after
    assert_eq!(apps.len(), 2);
    assert_eq!(apps[0].contract.address, "b");
    assert_eq!(apps[1].contract.address, "a");
    // replacing an adapter's allocation drops the stale entry
    manager::allocate(&mut apps, alloc("a", half, true)).unwrap();
    assert_eq!(apps.len(), 2);
    // a plan whose portions exceed one whole is rejected unchanged
    let e = manager::allocate(&mut apps, alloc("c", half + 1, true)).unwrap_err();
    assert_eq!(e, LbError::InvalidParameters);
    assert_eq!(apps.len(), 2);
    assert_eq!(apps[1].balance, 0);
}

#[test]
fn claims_draw_adapters_in_order() {
    // reserves cover part of the unbonding; adapters cover the rest in order
    let claimable: Vec<u128> = vec![0, 30, 50, 100];
    let (total_claimed, send_amount, left_open) =
        manager::claim(100, 40, &claimable).unwrap();
    // need was 60: the first paying adapter gives 30, the next gives its
    // whole 50, and claiming stops before the last adapter
    assert_eq!(total_claimed, 80);
    assert_eq!(send_amount, 100);
    assert_eq!(left_open, 0);
    // with nothing claimable the reserves alone are sent
    let none: Vec<u128> = vec![0, 0];
    let (t2, s2, l2) = manager::claim(100, 40, &none).unwrap();
    assert_eq!((t2, s2, l2), (0, 40, 60));
}

#[test]
fn manager_config_and_assets() {
    let mut config = manager::Config {
        admin_auth: Contract::new(&"admin".to_string(), &"h".to_string()),
        treasury: "treasury".to_string(),
    };
    let newer = manager::Config {
        admin_auth: Contract::new(&"admin2".to_string(), &"h".to_string()),
        treasury: "treasury2".to_string(),
    };
    manager::try_update_config(&mut config, newer.clone());
    assert_eq!(config, newer);
    let mut assets: Vec<String> = vec!["one".to_string()];
    let allocs = manager::try_register_asset(&mut assets, "two".to_string());
    assert_eq!(assets, vec!["one".to_string(), "two".to_string()]);
    assert!(allocs.is_empty());
}
