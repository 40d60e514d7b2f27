//! One liquidity pair: its configuration, bins, presence tree, and oracle.
//!
//! The pair owns all of its state exclusively; every mutation runs to
//! completion through the swap or liquidity paths here and either commits as
//! a whole or changes nothing.

use vstd::prelude::*;
use std::collections::HashMap;
use crate::asset::Contract;
use crate::dex::TokenType;
use crate::errors::LbError;
use crate::oracle::Oracle;
use crate::params::{BASIS_POINT_MAX, MAX_FEE, PairParameters, StaticFeeParameters};
use crate::price::{id_to_price, spec_price, valid_bin_step};
use crate::swap::{
    bin_of, drain_net, fee_amount, gross_fee, lemma_drain_net_pos, lemma_fee_le_amount,
    lemma_find_above_agrees, lemma_find_below_agrees, lemma_protocol_cut_le, lemma_sum_empty,
    lemma_sum_insert, lemma_walk_bounds, lemma_walk_conserves, out_amount, spec_bin_after,
    spec_bin_fits, spec_gross_fee, spec_protocol_cut, spec_sum_x, spec_sum_y, spec_walk, Bin,
    WalkResult,
};
use crate::tree::{TreeUint24, ID_SPACE};
use crate::u256::{mul_u128_wide, div_rem, p128, p256, U256};

verus! {

broadcast use vstd::std_specs::hash::group_hash_axioms;

/// The pair's configuration and bookkeeping register.
pub struct State {
    /// Who instantiated the pair.
    pub creator: String,
    /// The factory that deployed it.
    pub factory: Contract,
    /// The first asset.
    pub token_x: TokenType,
    /// The second asset.
    pub token_y: TokenType,
    /// The geometric price step between adjacent bins, in basis points.
    pub bin_step: u16,
    /// The pair's viewing key for its token accounts.
    pub viewing_key: String,
    /// The fee configuration and volatility state.
    pub pair_parameters: PairParameters,
    /// Total reserves of the two assets across all bins.
    pub reserves: (u128, u128),
    /// Collected protocol fees of the two assets.
    pub protocol_fees: (u128, u128),
    /// The pair's liquidity token contract.
    pub lb_token: Contract,
    /// The staking contract bound to the pair.
    pub staking_contract: Contract,
    /// Where protocol fees are sent when withdrawn.
    pub protocol_fees_recipient: String,
    /// The admin registry consulted for privileged calls.
    pub admin_auth: Contract,
    /// When the last swap committed, in seconds.
    pub last_swap_timestamp: u64,
    /// The current rewards epoch.
    pub rewards_epoch_id: u64,
    /// How many bins around the active one earn base rewards.
    pub base_rewards_bins: Option<u32>,
    /// Whether the next epoch switches the distribution algorithm.
    pub toggle_distributions_algorithm: bool,
}

/// A liquidity pair instance: configuration, bins, presence tree, oracle.
pub struct LbPair {
    /// Configuration and bookkeeping.
    pub state: State,
    /// The presence index over bin ids.
    pub tree: TreeUint24,
    /// The sample history.
    pub oracle: Oracle,
    /// The per-bin reserves, keyed by bin id.
    pub bins: HashMap<u32, Bin>,
}

/// What a swap commits: output given, input left over, fee charged, and the
/// protocol's part of that fee.
#[derive(Clone, Copy, Debug, PartialEq, Eq, Structural)]
pub struct SwapResult {
    /// Output handed to the trader.
    pub amount_out: u128,
    /// Input handed back: a partial fill when positive.
    pub amount_in_left: u128,
    /// The total fee charged.
    pub fee: u128,
    /// The protocol's share of the fee.
    pub protocol_fee: u128,
}

impl LbPair {
    /// The bins, as a total map from id to reserves.
    pub open spec fn spec_bins(self) -> Map<u32, Bin> {
        self.bins@
    }

    /// The bin at an id; ids never touched hold the empty bin.
    pub open spec fn spec_bin(self, id: u32) -> Bin {
        bin_of(self.spec_bins(), id)
    }

    /// Pair well-formedness: valid configuration, consistent tree, and
    /// representable prices wherever there is liquidity.
    pub open spec fn wf(self) -> bool {
        &&& valid_bin_step(self.state.bin_step)
        &&& self.state.pair_parameters.wf()
        &&& self.tree.wf()
        &&& self.oracle.wf()
        &&& forall|id: u32|
            id < ID_SPACE ==> (#[trigger] self.tree@.contains(id) == !self.spec_bin(id).is_empty())
        &&& forall|id: u32| #[trigger] self.spec_bins().contains_key(id) ==> id < ID_SPACE
        &&& forall|id: u32|
            #[trigger] self.tree@.contains(id) ==> spec_price(self.state.bin_step, id) < p256()
    }

    /// What a freshly created pair looks like: the configuration of `seed`
    /// (its dynamic fields overridden), a zeroed volatility register anchored
    /// at the starting bin, no liquidity anywhere, an empty presence tree,
    /// and an oracle holding one zeroed sample created now.
    pub open spec fn spec_fresh_pair(
        p: LbPair,
        seed: State,
        statics: StaticFeeParameters,
        active_id: u32,
        oracle_capacity: u16,
        oracle_lifetime: u8,
        now: u64,
    ) -> bool {
        &&& statics.valid()
        &&& valid_bin_step(seed.bin_step)
        &&& p.wf()
        &&& p.state == (State {
            pair_parameters: p.state.pair_parameters,
            reserves: (0u128, 0u128),
            protocol_fees: (0u128, 0u128),
            last_swap_timestamp: now,
            ..seed
        })
        &&& p.state.pair_parameters == (PairParameters {
            statics,
            volatility_accumulator: 0u32,
            volatility_reference: 0u32,
            id_reference: active_id,
            time_of_last_update: now,
            oracle_sample_id: 0u16,
            active_bin_id: active_id,
        })
        &&& (forall|id: u32| #[trigger] p.spec_bin(id).is_empty())
        &&& p.spec_bins() == Map::<u32, Bin>::empty()
        &&& p.tree@ == Set::<u32>::empty()
        &&& p.oracle@.len() == 1
        &&& p.oracle@[0] == (crate::oracle::OracleSample {
            cumulative_id: 0u64,
            cumulative_volatility: 0u64,
            cumulative_bin_crossed: 0u64,
            created_at: now,
        })
        &&& p.oracle.spec_capacity() == oracle_capacity
        &&& p.oracle.spec_lifetime() == oracle_lifetime
    }

    /// Creates a pair at a starting active bin. Rejects out-of-bounds static
    /// fee parameters or an invalid bin step, and only those.
    pub fn new(
        state_seed: State,
        statics: StaticFeeParameters,
        active_id: u32,
        oracle_capacity: u16,
        oracle_lifetime: u8,
        now: u64,
    ) -> (r: Result<LbPair, LbError>)
        requires
            active_id < ID_SPACE,
            oracle_capacity >= 1,
        ensures
            match r {
                Ok(p) => LbPair::spec_fresh_pair(
                    p,
                    state_seed,
                    statics,
                    active_id,
                    oracle_capacity,
                    oracle_lifetime,
                    now,
                ),
                Err(e) => e == LbError::InvalidParameters && (!statics.valid() || !valid_bin_step(
                    state_seed.bin_step,
                )),
            },
    {
        if state_seed.bin_step < 1 || state_seed.bin_step > 10000 {
            return Err(LbError::InvalidParameters);
        }
        let params = match PairParameters::new(statics, active_id, now) {
            Ok(p) => p,
            Err(e) => {
                return Err(e);
            },
        };
        let pair = LbPair {
            state: State {
                pair_parameters: params,
                reserves: (0, 0),
                protocol_fees: (0, 0),
                last_swap_timestamp: now,
                ..state_seed
            },
            tree: TreeUint24::new(),
            oracle: Oracle::new(oracle_capacity, oracle_lifetime, now),
            bins: HashMap::new(),
        };
        proof {
            assert(forall|id: u32| #[trigger] pair.spec_bin(id).is_empty());
        }
        Ok(pair)
    }

    /// Reads one bin's reserves.
    pub fn bin(&self, id: u32) -> (r: Bin)
        ensures
            r == self.spec_bin(id),
    {
        match self.bins.get(&id) {
            Some(b) => *b,
            None => Bin { reserve_x: 0, reserve_y: 0 },
        }
    }
}

/// Walks a swap across the bins, mutating them as it goes. The result
/// mirrors `spec_walk` on the starting state; an arithmetic overflow of a
/// bin reserve or of the total output aborts with an error, leaving the map
/// dirty - callers run this on a scratch copy and commit only on success.
#[verifier::rlimit(60)]
pub(crate) fn walk_apply(
    bins: &mut HashMap<u32, Bin>,
    tree: &TreeUint24,
    fee_ppm: u64,
    share: u16,
    bin_step: u16,
    swap_for_y: bool,
    start_id: u32,
    amount: u128,
) -> (r: Result<(u128, u128, u128, u128, u32, u32), LbError>)
    requires
        tree.wf(),
        valid_bin_step(bin_step),
        fee_ppm <= MAX_FEE,
        share <= BASIS_POINT_MAX,
        start_id < ID_SPACE,
        forall|id: u32|
            id < ID_SPACE ==> (#[trigger] tree@.contains(id) == !bin_of(
                old(bins)@,
                id,
            ).is_empty()),
        forall|id: u32| #[trigger] old(bins)@.contains_key(id) ==> id < ID_SPACE,
        forall|id: u32| #[trigger] tree@.contains(id) ==> spec_price(bin_step, id) < p256(),
    ensures
        ({
            let w = spec_walk(
                old(bins)@,
                tree@,
                fee_ppm as nat,
                share as nat,
                bin_step,
                swap_for_y,
                start_id,
                amount as nat,
            );
            match r {
                Ok((out, left, fee, prot, end, crossed)) => {
                    &&& w.ok
                    &&& w.out <= u128::MAX
                    &&& out == w.out
                    &&& left == w.left
                    &&& fee == w.fee_total
                    &&& prot == w.protocol
                    &&& end == w.end_id
                    &&& crossed == w.crossed
                    &&& final(bins)@ == w.bins
                    &&& forall|id: u32|
                        id < ID_SPACE ==> (#[trigger] tree@.contains(id) == !bin_of(
                            final(bins)@,
                            id,
                        ).is_empty())
                    &&& forall|id: u32| #[trigger] final(bins)@.contains_key(id) ==> id < ID_SPACE
                },
                Err(e) => e == LbError::ArithmeticOverflow && (!w.ok || w.out > u128::MAX),
            }
        }),
{
    let ghost bins0 = bins@;
    let ghost w_all = spec_walk(
        bins0,
        tree@,
        fee_ppm as nat,
        share as nat,
        bin_step,
        swap_for_y,
        start_id,
        amount as nat,
    );
    proof {
        lemma_walk_bounds(
            bins0,
            tree@,
            fee_ppm as nat,
            share as nat,
            bin_step,
            swap_for_y,
            start_id,
            amount as nat,
        );
    }
    let mut cur: u32 = start_id;
    let mut left: u128 = amount;
    let mut out_acc: u128 = 0;
    let mut fee_acc: u128 = 0;
    let mut prot_acc: u128 = 0;
    let mut crossed: u32 = 0;
    loop
        invariant
            tree.wf(),
            valid_bin_step(bin_step),
            fee_ppm <= MAX_FEE,
            share <= BASIS_POINT_MAX,
            cur < ID_SPACE,
            left <= amount,
            forall|id: u32|
                id < ID_SPACE ==> (#[trigger] tree@.contains(id) == !bin_of(
                    bins@,
                    id,
                ).is_empty()),
            forall|id: u32| #[trigger] bins@.contains_key(id) ==> id < ID_SPACE,
            forall|id: u32| #[trigger] tree@.contains(id) ==> spec_price(bin_step, id) < p256(),
            bins0 == old(bins)@,
            w_all.fee_total <= amount,
            w_all.protocol <= amount,
            w_all.crossed <= ID_SPACE,
            w_all == spec_walk(
                bins0,
                tree@,
                fee_ppm as nat,
                share as nat,
                bin_step,
                swap_for_y,
                start_id,
                amount as nat,
            ),
            ({
                let sub = spec_walk(
                    bins@,
                    tree@,
                    fee_ppm as nat,
                    share as nat,
                    bin_step,
                    swap_for_y,
                    cur,
                    left as nat,
                );
                &&& w_all.ok == sub.ok
                &&& w_all.out == out_acc + sub.out
                &&& w_all.left == sub.left
                &&& w_all.fee_total == fee_acc + sub.fee_total
                &&& w_all.protocol == prot_acc + sub.protocol
                &&& w_all.end_id == sub.end_id
                &&& w_all.crossed == crossed + sub.crossed
                &&& w_all.bins == sub.bins
            }),
        decreases (if swap_for_y {
            cur as int
        } else {
            ID_SPACE - cur
        }),
    {
        let ghost sub = spec_walk(
            bins@,
            tree@,
            fee_ppm as nat,
            share as nat,
            bin_step,
            swap_for_y,
            cur,
            left as nat,
        );
        proof {
            lemma_walk_bounds(
                bins@,
                tree@,
                fee_ppm as nat,
                share as nat,
                bin_step,
                swap_for_y,
                cur,
                left as nat,
            );
        }
        if left == 0 {
            return Ok((out_acc, 0, fee_acc, prot_acc, cur, crossed));
        }
        let bin = match bins.get(&cur) {
            Some(b) => *b,
            None => Bin { reserve_x: 0, reserve_y: 0 },
        };
        proof {
            assert(bin == bin_of(bins@, cur));
        }
        let r_out: u128 = if swap_for_y {
            bin.reserve_y
        } else {
            bin.reserve_x
        };
        if r_out == 0 {
            // nothing on the output side: move to the next populated bin
            match tree.find_first(swap_for_y, cur) {
                Some(j) => {
                    proof {
                        if swap_for_y {
                            lemma_find_below_agrees(tree@, cur, Some(j));
                        } else {
                            lemma_find_above_agrees(tree@, cur, Some(j));
                        }
                    }
                    cur = j;
                    crossed = crossed + 1;
                },
                None => {
                    proof {
                        if swap_for_y {
                            lemma_find_below_agrees(tree@, cur, None::<u32>);
                        } else {
                            lemma_find_above_agrees(tree@, cur, None::<u32>);
                        }
                    }
                    return Ok((out_acc, left, fee_acc, prot_acc, cur, crossed));
                },
            }
        } else {
            let price = match id_to_price(cur, bin_step) {
                Ok(p) => p,
                Err(_) => {
                    proof {
                        assert(tree@.contains(cur));
                        assert(false);
                    }
                    return Err(LbError::ArithmeticOverflow);
                },
            };
            if price.hi == 0 && price.lo == 0 {
                // zero price: the bin cannot give output, move on
                match tree.find_first(swap_for_y, cur) {
                    Some(j) => {
                        proof {
                            if swap_for_y {
                                lemma_find_below_agrees(tree@, cur, Some(j));
                            } else {
                                lemma_find_above_agrees(tree@, cur, Some(j));
                            }
                        }
                        cur = j;
                        crossed = crossed + 1;
                    },
                    None => {
                        proof {
                            if swap_for_y {
                                lemma_find_below_agrees(tree@, cur, None::<u32>);
                            } else {
                                lemma_find_above_agrees(tree@, cur, None::<u32>);
                            }
                        }
                        return Ok((out_acc, left, fee_acc, prot_acc, cur, crossed));
                    },
                }
            } else {
                // a real bin: drain it or absorb the rest of the input here
                let drain = if fee_ppm < 1_000_000 {
                    match drain_net(r_out, price, swap_for_y) {
                        Some(net) => match gross_fee(net, fee_ppm) {
                            Some(f) => match net.checked_add(f) {
                                Some(t) => {
                                    if left >= t {
                                        Some((net, f, t))
                                    } else {
                                        None
                                    }
                                },
                                None => None,
                            },
                            None => None,
                        },
                        None => None,
                    }
                } else {
                    None
                };
                match drain {
                    Some((net, feeamt, used)) => {
                        proof {
                            assert(net as nat == crate::swap::spec_drain_net(
                                r_out as nat,
                                price.value(),
                                swap_for_y,
                            ));
                            assert(feeamt as nat == spec_gross_fee(net as nat, fee_ppm as nat));
                        }
                        let prot = protocol_cut(feeamt, share);
                        let lp = feeamt - prot;
                        let ghost bin_new_spec = spec_bin_after(
                            bin,
                            net as nat,
                            lp as nat,
                            r_out as nat,
                            swap_for_y,
                        );
                        let in_res: u128 = if swap_for_y {
                            bin.reserve_x
                        } else {
                            bin.reserve_y
                        };
                        let in_new: u128 = match in_res.checked_add(net) {
                            Some(s) => match s.checked_add(lp) {
                                Some(s2) => s2,
                                None => {
                                    proof {
                                        assert(!spec_bin_fits(bin, net as nat, lp as nat, swap_for_y));
                                        assert(!sub.ok);
                                    }
                                    return Err(LbError::ArithmeticOverflow);
                                },
                            },
                            None => {
                                proof {
                                    assert(!spec_bin_fits(bin, net as nat, lp as nat, swap_for_y));
                                    assert(!sub.ok);
                                }
                                return Err(LbError::ArithmeticOverflow);
                            },
                        };
                        let bin_new = if swap_for_y {
                            Bin { reserve_x: in_new, reserve_y: 0 }
                        } else {
                            Bin { reserve_x: 0, reserve_y: in_new }
                        };
                        proof {
                            assert(bin_new == bin_new_spec);
                            lemma_drain_net_pos(r_out as nat, price.value(), swap_for_y);
                            assert(!bin_new.is_empty());
                        }
                        bins.insert(cur, bin_new);
                        let out_new: u128 = match out_acc.checked_add(r_out) {
                            Some(o) => o,
                            None => {
                                proof {
                                    assert(sub.out >= r_out as nat);
                                    assert(w_all.out > u128::MAX);
                                }
                                return Err(LbError::ArithmeticOverflow);
                            },
                        };
                        out_acc = out_new;
                        fee_acc = fee_acc + feeamt;
                        prot_acc = prot_acc + prot;
                        left = left - used;
                        match tree.find_first(swap_for_y, cur) {
                            Some(j) => {
                                proof {
                                    if swap_for_y {
                                        lemma_find_below_agrees(tree@, cur, Some(j));
                                    } else {
                                        lemma_find_above_agrees(tree@, cur, Some(j));
                                    }
                                    lemma_bins_sync_after_update(tree@, cur, bins@, bin_new);
                                }
                                cur = j;
                                crossed = crossed + 1;
                            },
                            None => {
                                proof {
                                    if swap_for_y {
                                        lemma_find_below_agrees(tree@, cur, None::<u32>);
                                    } else {
                                        lemma_find_above_agrees(tree@, cur, None::<u32>);
                                    }
                                }
                                return Ok((out_acc, left, fee_acc, prot_acc, cur, crossed));
                            },
                        }
                    },
                    None => {
                        // absorb everything here
                        proof {
                            lemma_fee_le_amount(left as nat, fee_ppm as nat);
                        }
                        let feeamt = fee_amount(left, fee_ppm);
                        let net = left - feeamt;
                        let raw = out_amount(net, price, swap_for_y);
                        let out: u128 = match raw {
                            Some(v) => {
                                if v <= r_out {
                                    v
                                } else {
                                    r_out
                                }
                            },
                            None => r_out,
                        };
                        let prot = protocol_cut(feeamt, share);
                        let lp = feeamt - prot;
                        let in_res: u128 = if swap_for_y {
                            bin.reserve_x
                        } else {
                            bin.reserve_y
                        };
                        let in_new: u128 = match in_res.checked_add(net) {
                            Some(s) => match s.checked_add(lp) {
                                Some(s2) => s2,
                                None => {
                                    proof {
                                        assert(!spec_bin_fits(bin, net as nat, lp as nat, swap_for_y));
                                        assert(!sub.ok);
                                    }
                                    return Err(LbError::ArithmeticOverflow);
                                },
                            },
                            None => {
                                proof {
                                    assert(!spec_bin_fits(bin, net as nat, lp as nat, swap_for_y));
                                    assert(!sub.ok);
                                }
                                return Err(LbError::ArithmeticOverflow);
                            },
                        };
                        let bin_new = if swap_for_y {
                            Bin { reserve_x: in_new, reserve_y: bin.reserve_y - out }
                        } else {
                            Bin { reserve_x: bin.reserve_x - out, reserve_y: in_new }
                        };
                        proof {
                            assert(bin_new == spec_bin_after(
                                bin,
                                net as nat,
                                lp as nat,
                                out as nat,
                                swap_for_y,
                            ));
                        }
                        bins.insert(cur, bin_new);
                        let out_new: u128 = match out_acc.checked_add(out) {
                            Some(o) => o,
                            None => {
                                proof {
                                    assert(sub.out == out as nat);
                                    assert(w_all.out > u128::MAX);
                                }
                                return Err(LbError::ArithmeticOverflow);
                            },
                        };
                        proof {
                            assert(sub.out == out as nat && sub.left == 0 && sub.fee_total
                                == feeamt as nat && sub.protocol == prot as nat && sub.end_id == cur
                                && sub.crossed == 0);
                            assert(bins@ == sub.bins);
                            assert(!bin_of(bins@, cur).is_empty()) by {
                                if swap_for_y {
                                    assert(bin_new.reserve_y == bin.reserve_y - out);
                                    if out < bin.reserve_y {
                                    } else {
                                        assert(in_new >= net as nat + lp as nat);
                                        if net == 0 {
                                            assert(out as nat <= crate::swap::spec_out_amount(
                                                0,
                                                price.value(),
                                                swap_for_y,
                                            ));
                                            assert(out == 0);
                                            assert(bin.reserve_y > 0);
                                        }
                                        assert(in_new > 0 || bin_new.reserve_y > 0);
                                    }
                                } else {
                                    if out < bin.reserve_x {
                                    } else {
                                        if net == 0 {
                                            assert(out == 0);
                                            assert(bin.reserve_x > 0);
                                        }
                                        assert(in_new > 0 || bin_new.reserve_x > 0);
                                    }
                                }
                            }
                            lemma_bins_sync_after_update(
                                tree@,
                                cur,
                                bins@,
                                bin_of(bins@, cur),
                            );
                        }
                        return Ok((out_new, 0, fee_acc + feeamt, prot_acc + prot, cur, crossed));
                    },
                }
            }
        }
    }
}

/// The protocol's cut of a fee, in basis points, rounded down.
fn protocol_cut(fee: u128, share: u16) -> (r: u128)
    requires
        share <= BASIS_POINT_MAX,
    ensures
        r as nat == spec_protocol_cut(fee as nat, share as nat),
        r <= fee,
{
    let wide = mul_u128_wide(fee, share as u128);
    let (q, _rem) = div_rem(wide, U256 { hi: 0, lo: 10_000 });
    proof {
        lemma_protocol_cut_le(fee as nat, share as nat);
    }
    match q.to_u128() {
        Some(v) => v,
        None => {
            proof {
                assert(false);
            }
            0
        },
    }
}

/// After a drain writes a non-empty bin back, the tree still mirrors the
/// bins.
proof fn lemma_bins_sync_after_update(tree: Set<u32>, id: u32, bins: Map<u32, Bin>, b: Bin)
    requires
        bins.contains_key(id),
        bins[id] == b,
        !b.is_empty(),
        tree.contains(id),
        forall|k: u32|
            k < ID_SPACE && k != id ==> (#[trigger] tree.contains(k) == !bin_of(
                bins,
                k,
            ).is_empty()),
        id < ID_SPACE,
    ensures
        forall|k: u32| k < ID_SPACE ==> (#[trigger] tree.contains(k) == !bin_of(bins, k).is_empty()),
{
}

impl LbPair {
    /// The swap walk this pair would run for an input at time `now`: the fee
    /// schedule is fixed once per operation from the refreshed volatility
    /// state, then held constant across the crossed bins.
    pub open spec fn spec_swap_walk(self, amount_in: u128, swap_for_y: bool, now: u64) -> WalkResult {
        let p1 = self.state.pair_parameters.spec_refresh(
            self.state.pair_parameters.active_bin_id,
            now,
        );
        spec_walk(
            self.spec_bins(),
            self.tree@,
            p1.spec_total_fee(self.state.bin_step),
            p1.statics.protocol_share as nat,
            self.state.bin_step,
            swap_for_y,
            p1.active_bin_id,
            amount_in as nat,
        )
    }

    /// The quote walk: the same as `spec_swap_walk` but on the committed
    /// volatility state, without a time refresh.
    pub open spec fn spec_quote_walk(self, amount_in: u128, swap_for_y: bool) -> WalkResult {
        spec_walk(
            self.spec_bins(),
            self.tree@,
            self.state.pair_parameters.spec_total_fee(self.state.bin_step),
            self.state.pair_parameters.statics.protocol_share as nat,
            self.state.bin_step,
            swap_for_y,
            self.state.pair_parameters.active_bin_id,
            amount_in as nat,
        )
    }

    /// Everything a committed swap changes, from the pre-state `pre` to the
    /// post-state `post`: the returned amounts are the walk's, the bins are
    /// the walk's, the volatility state is the refreshed register ending at
    /// the walk's last bin, the totals move by the consumed input net of the
    /// protocol cut, and one oracle sample records the ending state.
    pub open spec fn spec_swap_committed(
        pre: LbPair,
        post: LbPair,
        res: SwapResult,
        amount_in: u128,
        swap_for_y: bool,
        now: u64,
    ) -> bool {
        let p1 = pre.state.pair_parameters.spec_refresh(
            pre.state.pair_parameters.active_bin_id,
            now,
        );
        let w = pre.spec_swap_walk(amount_in, swap_for_y, now);
        &&& post.wf()
        &&& w.ok && w.out <= u128::MAX
        &&& res.amount_out == w.out
        &&& res.amount_in_left == w.left
        &&& res.fee == w.fee_total
        &&& res.protocol_fee == w.protocol
        &&& post.spec_bins() == w.bins
        &&& post.tree@ == pre.tree@
        &&& post.state.pair_parameters.active_bin_id == w.end_id
        &&& post.state.pair_parameters.volatility_accumulator == p1.volatility_accumulator
        &&& post.state.pair_parameters.volatility_reference == p1.volatility_reference
        &&& post.state.pair_parameters.id_reference == p1.id_reference
        &&& post.state.pair_parameters.time_of_last_update == now
        &&& post.state.pair_parameters.statics == pre.state.pair_parameters.statics
        &&& post.state == (State {
            pair_parameters: post.state.pair_parameters,
            reserves: post.state.reserves,
            protocol_fees: post.state.protocol_fees,
            last_swap_timestamp: now,
            ..pre.state
        })
        &&& (if swap_for_y {
            &&& post.state.reserves.0 == pre.state.reserves.0 + (amount_in - res.amount_in_left)
                - res.protocol_fee
            &&& post.state.reserves.1 == pre.state.reserves.1 - res.amount_out
            &&& post.state.protocol_fees.0 == pre.state.protocol_fees.0 + res.protocol_fee
            &&& post.state.protocol_fees.1 == pre.state.protocol_fees.1
        } else {
            &&& post.state.reserves.1 == pre.state.reserves.1 + (amount_in - res.amount_in_left)
                - res.protocol_fee
            &&& post.state.reserves.0 == pre.state.reserves.0 - res.amount_out
            &&& post.state.protocol_fees.1 == pre.state.protocol_fees.1 + res.protocol_fee
            &&& post.state.protocol_fees.0 == pre.state.protocol_fees.0
        })
        &&& post.oracle@ == ({
            let last = pre.oracle@[pre.oracle@.len() - 1];
            let grown = Oracle::spec_grown(
                last,
                w.end_id,
                p1.volatility_accumulator,
                w.crossed as u64,
                now,
            );
            if now - last.created_at < pre.oracle.spec_lifetime() as u64 || now
                == last.created_at {
                pre.oracle@.update(pre.oracle@.len() - 1, grown)
            } else if pre.oracle@.len() < pre.oracle.spec_capacity() {
                pre.oracle@.push(grown)
            } else {
                pre.oracle@.subrange(1, pre.oracle@.len() as int).push(grown)
            }
        })
        &&& post.oracle.spec_capacity() == pre.oracle.spec_capacity()
        &&& post.oracle.spec_lifetime() == pre.oracle.spec_lifetime()
    }

    /// Exactly when a swap aborts, with which error, and that the pair is
    /// left untouched: the walk or its total output overflowing gives an
    /// arithmetic error; the bookkeeping totals overflowing likewise; the
    /// bins asking for more output than the totals show is a stale-state
    /// error; an oracle running sum overflowing is arithmetic again.
    pub open spec fn spec_swap_aborts(
        pre: LbPair,
        post: LbPair,
        e: LbError,
        amount_in: u128,
        swap_for_y: bool,
        now: u64,
    ) -> bool {
        let p1 = pre.state.pair_parameters.spec_refresh(
            pre.state.pair_parameters.active_bin_id,
            now,
        );
        let w = pre.spec_swap_walk(amount_in, swap_for_y, now);
        let consumed = amount_in - w.left;
        let kept = consumed - w.protocol;
        let res_in = if swap_for_y {
            pre.state.reserves.0
        } else {
            pre.state.reserves.1
        };
        let res_out = if swap_for_y {
            pre.state.reserves.1
        } else {
            pre.state.reserves.0
        };
        let prot_in = if swap_for_y {
            pre.state.protocol_fees.0
        } else {
            pre.state.protocol_fees.1
        };
        let cond_walk = !w.ok || w.out > u128::MAX;
        let cond_book = res_in + kept > u128::MAX || prot_in + w.protocol > u128::MAX;
        let cond_stale = w.out > res_out;
        let cond_oracle = Oracle::spec_grow_overflows(
            pre.oracle@[pre.oracle@.len() - 1],
            w.end_id,
            p1.volatility_accumulator,
            w.crossed as u64,
            now,
        );
        &&& post == pre
        &&& (e == LbError::ArithmeticOverflow || e == LbError::StaleBinState)
        &&& (e == LbError::StaleBinState <==> (!cond_walk && !cond_book && cond_stale))
        &&& (e == LbError::ArithmeticOverflow <==> (cond_walk || (!cond_walk && cond_book) || (
        !cond_walk && !cond_book && !cond_stale && cond_oracle)))
    }

    /// A dry-run quote: what a swap of `amount_in` would return right now,
    /// computed against the committed state and committing nothing. A partial
    /// fill is reported through `amount_in_left`, never as an error.
    pub fn get_swap_out(&self, amount_in: u128, swap_for_y: bool) -> (r: Result<
        SwapResult,
        LbError,
    >)
        requires
            self.wf(),
        ensures
            ({
                let w = self.spec_quote_walk(amount_in, swap_for_y);
                match r {
                    Ok(res) => w.ok && w.out <= u128::MAX && res.amount_out == w.out
                        && res.amount_in_left == w.left && res.fee == w.fee_total
                        && res.protocol_fee == w.protocol,
                    Err(e) => e == LbError::ArithmeticOverflow && (!w.ok || w.out > u128::MAX),
                }
            }),
    {
        let fee = self.state.pair_parameters.total_fee(self.state.bin_step);
        let mut scratch = self.bins.clone();
        proof {
            assert forall|id: u32| #[trigger] scratch@.contains_key(id) implies id < ID_SPACE by {
                assert(self.spec_bins().contains_key(id));
            }
        }
        match walk_apply(
            &mut scratch,
            &self.tree,
            fee,
            self.state.pair_parameters.statics.protocol_share,
            self.state.bin_step,
            swap_for_y,
            self.state.pair_parameters.active_bin_id,
            amount_in,
        ) {
            Ok((out, left, fee_tot, prot, _end, _crossed)) => Ok(
                SwapResult { amount_out: out, amount_in_left: left, fee: fee_tot, protocol_fee: prot },
            ),
            Err(e) => Err(e),
        }
    }

    /// Executes a swap at time `now` and commits it atomically: bins, totals,
    /// protocol fees, volatility state, active bin and one oracle sample all
    /// move together, or an error leaves the pair exactly as it was.
    /// Exhausted liquidity is a partial fill, not an error.
    pub fn swap(&mut self, amount_in: u128, swap_for_y: bool, now: u64) -> (r: Result<
        SwapResult,
        LbError,
    >)
        requires
            old(self).wf(),
            now >= old(self).state.pair_parameters.time_of_last_update,
            now >= old(self).oracle@[old(self).oracle@.len() - 1].created_at,
        ensures
            match r {
                Ok(res) => LbPair::spec_swap_committed(
                    *old(self),
                    *final(self),
                    res,
                    amount_in,
                    swap_for_y,
                    now,
                ),
                Err(e) => LbPair::spec_swap_aborts(
                    *old(self),
                    *final(self),
                    e,
                    amount_in,
                    swap_for_y,
                    now,
                ),
            },
    {
        let mut params = self.state.pair_parameters;
        params.update_references(params.active_bin_id, now);
        let fee = params.total_fee(self.state.bin_step);
        let mut scratch = self.bins.clone();
        proof {
            assert forall|id: u32| #[trigger] scratch@.contains_key(id) implies id < ID_SPACE by {
                assert(self.spec_bins().contains_key(id));
            }
        }
        let (out, left, fee_tot, prot, end_id, crossed) = match walk_apply(
            &mut scratch,
            &self.tree,
            fee,
            params.statics.protocol_share,
            self.state.bin_step,
            swap_for_y,
            params.active_bin_id,
            amount_in,
        ) {
            Ok(t) => t,
            Err(e) => {
                return Err(e);
            },
        };
        proof {
            lemma_walk_bounds(
                old(self).spec_bins(),
                old(self).tree@,
                fee as nat,
                params.statics.protocol_share as nat,
                old(self).state.bin_step,
                swap_for_y,
                params.active_bin_id,
                amount_in as nat,
            );
        }
        // stage the bookkeeping; abort before any mutation if it cannot fit
        let consumed = amount_in - left;
        let kept = consumed - prot;
        let (res_in, res_out, prot_in) = if swap_for_y {
            (self.state.reserves.0, self.state.reserves.1, self.state.protocol_fees.0)
        } else {
            (self.state.reserves.1, self.state.reserves.0, self.state.protocol_fees.1)
        };
        let new_res_in = match res_in.checked_add(kept) {
            Some(v) => v,
            None => {
                return Err(LbError::ArithmeticOverflow);
            },
        };
        let new_prot_in = match prot_in.checked_add(prot) {
            Some(v) => v,
            None => {
                return Err(LbError::ArithmeticOverflow);
            },
        };
        if out > res_out {
            // the totals disagree with the bins: refuse loudly
            return Err(LbError::StaleBinState);
        }
        let new_res_out = res_out - out;
        match self.oracle.push(end_id, params.volatility_accumulator, crossed as u64, now) {
            Ok(()) => {},
            Err(e) => {
                return Err(e);
            },
        }
        // commit
        self.bins = scratch;
        params.set_active_id(end_id);
        self.state.pair_parameters = params;
        if swap_for_y {
            self.state.reserves = (new_res_in, new_res_out);
            self.state.protocol_fees = (new_prot_in, self.state.protocol_fees.1);
        } else {
            self.state.reserves = (new_res_out, new_res_in);
            self.state.protocol_fees = (self.state.protocol_fees.0, new_prot_in);
        }
        self.state.last_swap_timestamp = now;
        proof {
            let w = old(self).spec_swap_walk(amount_in, swap_for_y, now);
            assert(self.spec_bins() == w.bins);
            assert(self.state.pair_parameters.wf());
            assert(self.tree.wf());
            assert(self.oracle.wf());
            assert(valid_bin_step(self.state.bin_step));
            assert(forall|id: u32|
                id < ID_SPACE ==> (#[trigger] self.tree@.contains(id) == !self.spec_bin(
                    id,
                ).is_empty()));
            assert(forall|id: u32| #[trigger] self.spec_bins().contains_key(id) ==> id < ID_SPACE);
            assert(forall|id: u32|
                #[trigger] self.tree@.contains(id) ==> spec_price(self.state.bin_step, id)
                    < p256());
            assert(self.wf());
        }
        Ok(SwapResult { amount_out: out, amount_in_left: left, fee: fee_tot, protocol_fee: prot })
    }
}

impl LbPair {
    /// Everything a committed single-bin deposit changes: the one bin grows
    /// by the two amounts, the totals grow identically, the tree marks the
    /// bin exactly when it is now non-empty, and nothing else moves.
    pub open spec fn spec_liquidity_added(
        pre: LbPair,
        post: LbPair,
        id: u32,
        amount_x: u128,
        amount_y: u128,
    ) -> bool {
        &&& post.wf()
        &&& post.spec_bin(id).reserve_x == pre.spec_bin(id).reserve_x + amount_x
        &&& post.spec_bin(id).reserve_y == pre.spec_bin(id).reserve_y + amount_y
        &&& (forall|k: u32| k != id ==> post.spec_bin(k) == pre.spec_bin(k))
        &&& post.spec_bins() == pre.spec_bins().insert(id, post.spec_bin(id))
        &&& post.state.reserves.0 == pre.state.reserves.0 + amount_x
        &&& post.state.reserves.1 == pre.state.reserves.1 + amount_y
        &&& post.tree@ == (if post.spec_bin(id).is_empty() {
            pre.tree@
        } else {
            pre.tree@.insert(id)
        })
        &&& post.state == (State { reserves: post.state.reserves, ..pre.state })
        &&& post.oracle@ == pre.oracle@
        &&& post.oracle.spec_capacity() == pre.oracle.spec_capacity()
        &&& post.oracle.spec_lifetime() == pre.oracle.spec_lifetime()
    }

    /// Exactly when a deposit is rejected: an unrepresentable price at the
    /// id, or a reserve or total that would leave 128 bits. The pair is
    /// untouched.
    pub open spec fn spec_add_aborts(
        pre: LbPair,
        post: LbPair,
        e: LbError,
        id: u32,
        amount_x: u128,
        amount_y: u128,
    ) -> bool {
        &&& post == pre
        &&& e == LbError::ArithmeticOverflow
        &&& (spec_price(pre.state.bin_step, id) >= p256() || pre.spec_bin(id).reserve_x + amount_x
            > u128::MAX || pre.spec_bin(id).reserve_y + amount_y > u128::MAX
            || pre.state.reserves.0 + amount_x > u128::MAX || pre.state.reserves.1 + amount_y
            > u128::MAX)
    }

    /// Everything a committed single-bin withdrawal changes: the one bin
    /// shrinks by the two amounts, the totals shrink identically, a bin left
    /// empty leaves the tree, and nothing else moves.
    pub open spec fn spec_liquidity_removed(
        pre: LbPair,
        post: LbPair,
        id: u32,
        amount_x: u128,
        amount_y: u128,
    ) -> bool {
        &&& amount_x <= pre.spec_bin(id).reserve_x
        &&& amount_y <= pre.spec_bin(id).reserve_y
        &&& post.wf()
        &&& post.spec_bin(id).reserve_x == pre.spec_bin(id).reserve_x - amount_x
        &&& post.spec_bin(id).reserve_y == pre.spec_bin(id).reserve_y - amount_y
        &&& (forall|k: u32| k != id ==> post.spec_bin(k) == pre.spec_bin(k))
        &&& post.spec_bins() == pre.spec_bins().insert(id, post.spec_bin(id))
        &&& post.state.reserves.0 == pre.state.reserves.0 - amount_x
        &&& post.state.reserves.1 == pre.state.reserves.1 - amount_y
        &&& post.tree@ == (if post.spec_bin(id).is_empty() {
            pre.tree@.remove(id)
        } else {
            pre.tree@
        })
        &&& post.state == (State { reserves: post.state.reserves, ..pre.state })
        &&& post.oracle@ == pre.oracle@
        &&& post.oracle.spec_capacity() == pre.oracle.spec_capacity()
        &&& post.oracle.spec_lifetime() == pre.oracle.spec_lifetime()
    }

    /// Exactly when a withdrawal is rejected: it asks for more than the bin
    /// or the totals hold. The pair is untouched.
    pub open spec fn spec_remove_aborts(
        pre: LbPair,
        post: LbPair,
        e: LbError,
        id: u32,
        amount_x: u128,
        amount_y: u128,
    ) -> bool {
        &&& post == pre
        &&& e == LbError::InvalidParameters
        &&& (amount_x > pre.spec_bin(id).reserve_x || amount_y > pre.spec_bin(id).reserve_y
            || amount_x > pre.state.reserves.0 || amount_y > pre.state.reserves.1)
    }

    /// Seeds liquidity into one bin. The presence tree is kept exactly in
    /// step with the bin contents, and the pair totals grow by the same
    /// amounts. An id whose price cannot be represented, or an amount that
    /// does not fit a reserve or total, is rejected with no change.
    pub fn add_liquidity(&mut self, id: u32, amount_x: u128, amount_y: u128) -> (r: Result<
        (),
        LbError,
    >)
        requires
            old(self).wf(),
            id < ID_SPACE,
        ensures
            match r {
                Ok(()) => LbPair::spec_liquidity_added(
                    *old(self),
                    *final(self),
                    id,
                    amount_x,
                    amount_y,
                ),
                Err(e) => LbPair::spec_add_aborts(
                    *old(self),
                    *final(self),
                    e,
                    id,
                    amount_x,
                    amount_y,
                ),
            },
    {
        // the price at a populated bin must stay representable
        match id_to_price(id, self.state.bin_step) {
            Ok(_) => {},
            Err(e) => {
                return Err(e);
            },
        }
        let bin = self.bin(id);
        let new_x = match bin.reserve_x.checked_add(amount_x) {
            Some(v) => v,
            None => {
                return Err(LbError::ArithmeticOverflow);
            },
        };
        let new_y = match bin.reserve_y.checked_add(amount_y) {
            Some(v) => v,
            None => {
                return Err(LbError::ArithmeticOverflow);
            },
        };
        let new_rx = match self.state.reserves.0.checked_add(amount_x) {
            Some(v) => v,
            None => {
                return Err(LbError::ArithmeticOverflow);
            },
        };
        let new_ry = match self.state.reserves.1.checked_add(amount_y) {
            Some(v) => v,
            None => {
                return Err(LbError::ArithmeticOverflow);
            },
        };
        let new_bin = Bin { reserve_x: new_x, reserve_y: new_y };
        self.bins.insert(id, new_bin);
        if !(new_x == 0 && new_y == 0) {
            self.tree.insert(id);
        } else {
            proof {
                assert(self.tree@ =~= old(self).tree@);
            }
        }
        self.state.reserves = (new_rx, new_ry);
        proof {
            assert forall|k: u32|
                k < ID_SPACE implies (#[trigger] self.tree@.contains(k) == !self.spec_bin(
                k,
            ).is_empty()) by {
                if k != id {
                    assert(self.spec_bin(k) == old(self).spec_bin(k));
                    assert(old(self).tree@.contains(k) == !old(self).spec_bin(k).is_empty());
                }
            }
        }
        Ok(())
    }

    /// Withdraws liquidity from one bin; a bin left empty leaves the
    /// presence tree. Withdrawing more than the bin or the totals hold is
    /// rejected as invalid, with no change.
    pub fn remove_liquidity(&mut self, id: u32, amount_x: u128, amount_y: u128) -> (r: Result<
        (),
        LbError,
    >)
        requires
            old(self).wf(),
            id < ID_SPACE,
        ensures
            match r {
                Ok(()) => LbPair::spec_liquidity_removed(
                    *old(self),
                    *final(self),
                    id,
                    amount_x,
                    amount_y,
                ),
                Err(e) => LbPair::spec_remove_aborts(
                    *old(self),
                    *final(self),
                    e,
                    id,
                    amount_x,
                    amount_y,
                ),
            },
    {
        let bin = self.bin(id);
        if amount_x > bin.reserve_x || amount_y > bin.reserve_y || amount_x
            > self.state.reserves.0 || amount_y > self.state.reserves.1 {
            return Err(LbError::InvalidParameters);
        }
        let new_bin = Bin { reserve_x: bin.reserve_x - amount_x, reserve_y: bin.reserve_y - amount_y };
        self.bins.insert(id, new_bin);
        if new_bin.reserve_x == 0 && new_bin.reserve_y == 0 {
            self.tree.remove(id);
        } else {
            self.tree.insert(id);
            proof {
                assert(old(self).tree@.contains(id));
                assert(self.tree@ =~= old(self).tree@);
            }
        }
        self.state.reserves = (self.state.reserves.0 - amount_x, self.state.reserves.1 - amount_y);
        proof {
            assert forall|k: u32|
                k < ID_SPACE implies (#[trigger] self.tree@.contains(k) == !self.spec_bin(
                k,
            ).is_empty()) by {
                if k != id {
                    assert(self.spec_bin(k) == old(self).spec_bin(k));
                    assert(old(self).tree@.contains(k) == !old(self).spec_bin(k).is_empty());
                }
            }
        }
        Ok(())
    }
}

/// A well-formed pair has a well-formed oracle.
pub proof fn lemma_pair_oracle_wf(pair: &LbPair)
    requires
        pair.wf(),
    ensures
        pair.oracle.wf(),
{
}

impl LbPair {
    /// The inverse quote walk this pair runs, on the committed state.
    pub open spec fn spec_quote_walk_in(self, amount_out: u128, swap_for_y: bool) -> (nat, nat, nat) {
        crate::swap::spec_walk_in(
            self.spec_bins(),
            self.tree@,
            self.state.pair_parameters.spec_total_fee(self.state.bin_step),
            self.state.bin_step,
            swap_for_y,
            self.state.pair_parameters.active_bin_id,
            amount_out as nat,
        )
    }

    /// A dry-run inverse quote: the input needed to buy `amount_out`, the
    /// part of it no liquidity covers, and the fee inside that input. An
    /// input beyond 128 bits is an overflow error.
    pub fn get_swap_in(&self, amount_out: u128, swap_for_y: bool) -> (r: Result<
        (u128, u128, u128),
        LbError,
    >)
        requires
            self.wf(),
        ensures
            ({
                let w = self.spec_quote_walk_in(amount_out, swap_for_y);
                match r {
                    Ok((amount_in, out_left, fee)) => amount_in == w.0 && out_left == w.1 && fee
                        == w.2,
                    Err(e) => e == LbError::ArithmeticOverflow && w.0 > u128::MAX,
                }
            }),
    {
        let fee_ppm = self.state.pair_parameters.total_fee(self.state.bin_step);
        let bin_step = self.state.bin_step;
        let ghost whole = self.spec_quote_walk_in(amount_out, swap_for_y);
        let mut cur: u32 = self.state.pair_parameters.active_bin_id;
        let mut wanted: u128 = amount_out;
        let mut in_acc: u128 = 0;
        let mut fee_acc: u128 = 0;
        if fee_ppm >= 1_000_000 {
            return Ok((0, amount_out, 0));
        }
        loop
            invariant
                self.wf(),
                cur < ID_SPACE,
                fee_ppm < 1_000_000,
                fee_ppm as nat == self.state.pair_parameters.spec_total_fee(self.state.bin_step),
                bin_step == self.state.bin_step,
                whole == self.spec_quote_walk_in(amount_out, swap_for_y),
                fee_acc <= in_acc,
                ({
                    let sub = crate::swap::spec_walk_in(
                        self.spec_bins(),
                        self.tree@,
                        fee_ppm as nat,
                        bin_step,
                        swap_for_y,
                        cur,
                        wanted as nat,
                    );
                    &&& whole.0 == in_acc + sub.0
                    &&& whole.1 == sub.1
                    &&& whole.2 == fee_acc + sub.2
                }),
            decreases (if swap_for_y {
                cur as int
            } else {
                ID_SPACE - cur
            }),
        {
            let ghost sub = crate::swap::spec_walk_in(
                self.spec_bins(),
                self.tree@,
                fee_ppm as nat,
                bin_step,
                swap_for_y,
                cur,
                wanted as nat,
            );
            proof {
                crate::swap::lemma_walk_in_bounds(
                    self.spec_bins(),
                    self.tree@,
                    fee_ppm as nat,
                    bin_step,
                    swap_for_y,
                    cur,
                    wanted as nat,
                );
            }
            if wanted == 0 {
                return Ok((in_acc, 0, fee_acc));
            }
            let bin = self.bin(cur);
            let r_out: u128 = if swap_for_y {
                bin.reserve_y
            } else {
                bin.reserve_x
            };
            let price_opt = if r_out == 0 {
                None
            } else {
                match id_to_price(cur, bin_step) {
                    Ok(p) => {
                        if p.hi == 0 && p.lo == 0 {
                            None
                        } else {
                            Some(p)
                        }
                    },
                    Err(_) => {
                        proof {
                            assert(self.tree@.contains(cur));
                            assert(false);
                        }
                        None
                    },
                }
            };
            match price_opt {
                None => {
                    match self.tree.find_first(swap_for_y, cur) {
                        Some(j) => {
                            proof {
                                if swap_for_y {
                                    lemma_find_below_agrees(self.tree@, cur, Some(j));
                                } else {
                                    lemma_find_above_agrees(self.tree@, cur, Some(j));
                                }
                            }
                            cur = j;
                        },
                        None => {
                            proof {
                                if swap_for_y {
                                    lemma_find_below_agrees(self.tree@, cur, None::<u32>);
                                } else {
                                    lemma_find_above_agrees(self.tree@, cur, None::<u32>);
                                }
                            }
                            return Ok((in_acc, wanted, fee_acc));
                        },
                    }
                },
                Some(price) => {
                    let covered: u128 = if wanted > r_out {
                        r_out
                    } else {
                        wanted
                    };
                    let net = match drain_net(covered, price, swap_for_y) {
                        Some(v) => v,
                        None => {
                            proof {
                                assert(sub.0 > u128::MAX);
                            }
                            return Err(LbError::ArithmeticOverflow);
                        },
                    };
                    let gfee = match gross_fee(net, fee_ppm) {
                        Some(v) => v,
                        None => {
                            proof {
                                assert(sub.0 > u128::MAX);
                            }
                            return Err(LbError::ArithmeticOverflow);
                        },
                    };
                    let part = match net.checked_add(gfee) {
                        Some(v) => v,
                        None => {
                            proof {
                                assert(sub.0 > u128::MAX);
                            }
                            return Err(LbError::ArithmeticOverflow);
                        },
                    };
                    let in_new = match in_acc.checked_add(part) {
                        Some(v) => v,
                        None => {
                            proof {
                                assert(sub.0 >= part as nat);
                                assert(whole.0 > u128::MAX);
                            }
                            return Err(LbError::ArithmeticOverflow);
                        },
                    };
                    if wanted > r_out {
                        match self.tree.find_first(swap_for_y, cur) {
                            Some(j) => {
                                proof {
                                    if swap_for_y {
                                        lemma_find_below_agrees(self.tree@, cur, Some(j));
                                    } else {
                                        lemma_find_above_agrees(self.tree@, cur, Some(j));
                                    }
                                }
                                in_acc = in_new;
                                fee_acc = fee_acc + gfee;
                                wanted = wanted - r_out;
                                cur = j;
                            },
                            None => {
                                proof {
                                    if swap_for_y {
                                        lemma_find_below_agrees(self.tree@, cur, None::<u32>);
                                    } else {
                                        lemma_find_above_agrees(self.tree@, cur, None::<u32>);
                                    }
                                }
                                return Ok((in_new, wanted - r_out, fee_acc + gfee));
                            },
                        }
                    } else {
                        return Ok((in_new, 0, fee_acc + gfee));
                    }
                },
            }
        }
    }
}

/// Swap monotonicity at the pair boundary: from one starting state, at one
/// time (so the fee schedule is the same), a larger input never produces a
/// smaller output.
pub proof fn lemma_pair_swap_monotone(
    pair: LbPair,
    a1: u128,
    a2: u128,
    swap_for_y: bool,
    now: u64,
)
    requires
        pair.wf(),
        a1 <= a2,
    ensures
        pair.spec_swap_walk(a1, swap_for_y, now).out <= pair.spec_swap_walk(
            a2,
            swap_for_y,
            now,
        ).out,
{
    let p1 = pair.state.pair_parameters.spec_refresh(
        pair.state.pair_parameters.active_bin_id,
        now,
    );
    crate::swap::lemma_swap_monotone(
        pair.spec_bins(),
        pair.tree@,
        p1.spec_total_fee(pair.state.bin_step),
        p1.statics.protocol_share as nat,
        pair.state.bin_step,
        swap_for_y,
        p1.active_bin_id,
        a1 as nat,
        a2 as nat,
    );
}

/// The pair's totals equal the componentwise sum of reserves over its bins:
/// complete, with empty bins contributing nothing, and excluding the
/// protocol fees, which are tracked apart.
pub open spec fn spec_reserves_match(p: LbPair) -> bool {
    &&& p.state.reserves.0 == spec_sum_x(p.spec_bins())
    &&& p.state.reserves.1 == spec_sum_y(p.spec_bins())
}

/// A fresh pair matches its bins: no liquidity anywhere, zero totals.
pub proof fn lemma_fresh_pair_reserves_match(
    p: LbPair,
    seed: State,
    statics: StaticFeeParameters,
    active_id: u32,
    oracle_capacity: u16,
    oracle_lifetime: u8,
    now: u64,
)
    requires
        LbPair::spec_fresh_pair(p, seed, statics, active_id, oracle_capacity, oracle_lifetime, now),
    ensures
        spec_reserves_match(p),
{
    lemma_sum_empty();
}

/// A committed deposit keeps the totals equal to the bin sums.
pub proof fn lemma_add_liquidity_reserves_match(
    pre: LbPair,
    post: LbPair,
    id: u32,
    amount_x: u128,
    amount_y: u128,
)
    requires
        LbPair::spec_liquidity_added(pre, post, id, amount_x, amount_y),
        spec_reserves_match(pre),
    ensures
        spec_reserves_match(post),
{
    assert(pre.bins@.dom().finite());
    lemma_sum_insert(pre.spec_bins(), id, post.spec_bin(id));
}

/// A committed withdrawal keeps the totals equal to the bin sums.
pub proof fn lemma_remove_liquidity_reserves_match(
    pre: LbPair,
    post: LbPair,
    id: u32,
    amount_x: u128,
    amount_y: u128,
)
    requires
        LbPair::spec_liquidity_removed(pre, post, id, amount_x, amount_y),
        spec_reserves_match(pre),
    ensures
        spec_reserves_match(post),
{
    assert(pre.bins@.dom().finite());
    lemma_sum_insert(pre.spec_bins(), id, post.spec_bin(id));
}

/// A committed swap keeps the totals equal to the bin sums: the output the
/// trader received left the bins, and the consumed input net of the
/// protocol's cut entered them.
pub proof fn lemma_swap_reserves_match(
    pre: LbPair,
    post: LbPair,
    res: SwapResult,
    amount_in: u128,
    swap_for_y: bool,
    now: u64,
)
    requires
        pre.wf(),
        LbPair::spec_swap_committed(pre, post, res, amount_in, swap_for_y, now),
        spec_reserves_match(pre),
    ensures
        spec_reserves_match(post),
{
    assert(pre.bins@.dom().finite());
    let p1 = pre.state.pair_parameters.spec_refresh(
        pre.state.pair_parameters.active_bin_id,
        now,
    );
    lemma_walk_conserves(
        pre.spec_bins(),
        pre.tree@,
        p1.spec_total_fee(pre.state.bin_step),
        p1.statics.protocol_share as nat,
        pre.state.bin_step,
        swap_for_y,
        p1.active_bin_id,
        amount_in as nat,
    );
}

/// An operation that leaves the bins and totals alone keeps them matched.
pub proof fn lemma_untouched_reserves_match(pre: LbPair, post: LbPair)
    requires
        post.spec_bins() == pre.spec_bins(),
        post.state.reserves == pre.state.reserves,
        spec_reserves_match(pre),
    ensures
        spec_reserves_match(post),
{
}

/// The oversized-swap law at the pair boundary: where the pair's populated
/// bins in the trade direction cost `d` of input to drain and hold `o` of
/// output, a swap of anything above `d` drains them all, returns exactly
/// `o`, and hands the positive difference back unconsumed. Running out of
/// liquidity is a partial fill, never an error.
pub proof fn lemma_pair_oversized_swap(
    pair: LbPair,
    amount_in: u128,
    swap_for_y: bool,
    now: u64,
    d: nat,
    o: nat,
)
    requires
        pair.wf(),
        ({
            let p1 = pair.state.pair_parameters.spec_refresh(
                pair.state.pair_parameters.active_bin_id,
                now,
            );
            crate::swap::spec_drain_walk(
                pair.spec_bins(),
                pair.tree@,
                p1.spec_total_fee(pair.state.bin_step),
                pair.state.bin_step,
                swap_for_y,
                p1.active_bin_id,
            ) == Some((d, o))
        }),
        amount_in > d,
    ensures
        ({
            let w = pair.spec_swap_walk(amount_in, swap_for_y, now);
            w.left == amount_in - d && w.left > 0 && w.out == o
        }),
{
    let p1 = pair.state.pair_parameters.spec_refresh(
        pair.state.pair_parameters.active_bin_id,
        now,
    );
    crate::swap::lemma_oversized_swap_partial(
        pair.spec_bins(),
        pair.spec_bins(),
        pair.tree@,
        p1.spec_total_fee(pair.state.bin_step),
        p1.statics.protocol_share as nat,
        pair.state.bin_step,
        swap_for_y,
        p1.active_bin_id,
        amount_in as nat,
        d,
        o,
    );
}

/// Oracle lookups through the pair are monotone in the timestamp: the
/// cumulative fields are running sums, so an earlier lookup never exceeds a
/// later one, component for component.
pub proof fn lemma_pair_lookup_monotone(
    pair: LbPair,
    t_a: u64,
    t_b: u64,
    c_a: (u64, u64, u64),
    c_b: (u64, u64, u64),
)
    requires
        pair.wf(),
        t_a <= t_b,
        Oracle::spec_lookup(pair.oracle@, t_a, c_a),
        Oracle::spec_lookup(pair.oracle@, t_b, c_b),
    ensures
        c_a.0 <= c_b.0,
        c_a.1 <= c_b.1,
        c_a.2 <= c_b.2,
{
    pair.oracle.lemma_view_ordered();
    crate::oracle::lemma_lookup_monotone(pair.oracle@, t_a, t_b, c_a, c_b);
}

} // verus!
