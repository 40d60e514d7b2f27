//! The swap arithmetic: fees, per-bin trades, and the multi-bin walk.
//!
//! A swap consumes its input bin by bin. In each bin the full remaining input
//! either fits (it is absorbed and the swap ends there) or it does not (the
//! bin's output side is drained and the walk moves to the next populated bin
//! in the trade direction). Running out of populated bins is not an error:
//! the unconsumed input is handed back as a partial fill.
//!
//! Rounding always favors the pool: fees round up, output amounts round
//! down, and the input needed to drain a bin rounds up.

use vstd::prelude::*;
use vstd::set::fold::{lemma_fold_empty, lemma_fold_insert};
use crate::params::{BASIS_POINT_MAX, FEE_SCALE, MAX_FEE};
use crate::price::spec_price;
use crate::tree::ID_SPACE;
use crate::u256::{div_rem, mul_u128_wide, p128, p256, U256};

verus! {

/// The fee on a gross amount, in parts per million, rounded up.
pub open spec fn spec_fee(amount: nat, fee_ppm: nat) -> nat {
    ((amount * fee_ppm + (FEE_SCALE - 1)) as nat) / (FEE_SCALE as nat)
}

/// The output a net input buys at a 128.128 price: selling the first asset
/// multiplies by the price, selling the second divides by it.
pub open spec fn spec_out_amount(net: nat, price: nat, swap_for_y: bool) -> nat {
    if swap_for_y {
        (net * price) / p128()
    } else if price == 0 {
        0
    } else {
        (net * p128()) / price
    }
}

/// The net input that just drains `reserve_out` at `price`, rounded up.
pub open spec fn spec_drain_net(reserve_out: nat, price: nat, swap_for_y: bool) -> nat {
    if swap_for_y {
        ((reserve_out * p128() + price - 1) as nat) / price
    } else {
        ((reserve_out * price + p128() - 1) as nat) / p128()
    }
}

/// The fee that grosses a net amount up, so that the gross amount minus its
/// own fee still covers the net amount.
pub open spec fn spec_gross_fee(net: nat, fee_ppm: nat) -> nat {
    ((net * fee_ppm + ((FEE_SCALE as nat - fee_ppm) - 1)) as nat) / ((FEE_SCALE as nat
        - fee_ppm) as nat)
}

/// Computes the fee on `amount`, rounded up. The fee never exceeds the
/// amount itself because the rate is capped at 100%.
pub fn fee_amount(amount: u128, fee_ppm: u64) -> (r: u128)
    requires
        fee_ppm <= MAX_FEE,
    ensures
        r as nat == spec_fee(amount as nat, fee_ppm as nat),
        r <= amount,
{
    let wide = mul_u128_wide(amount, fee_ppm as u128);
    let scale = U256 { hi: 0, lo: 1_000_000 };
    let (q, rem) = div_rem(wide, scale);
    proof {
        lemma_ceil_div_general(amount as nat * fee_ppm as nat, 1_000_000);
        // the ceiling quotient is at most `amount`
        assert(amount as nat * fee_ppm as nat + 999_999 <= (amount as nat + 1) * 1_000_000 - 1)
            by (nonlinear_arith)
            requires
                fee_ppm <= 1_000_000,
        ;
        vstd::arithmetic::div_mod::lemma_div_is_ordered(
            (amount as nat * fee_ppm as nat + 999_999) as int,
            ((amount as nat + 1) * 1_000_000 - 1) as int,
            1_000_000,
        );
        assert(((amount as nat + 1) * 1_000_000 - 1) as int / 1_000_000 == amount as int) by {
            vstd::arithmetic::div_mod::lemma_fundamental_div_mod_converse(
                ((amount as nat + 1) * 1_000_000 - 1) as int,
                1_000_000,
                amount as int,
                999_999,
            );
        }
    }
    if rem.lo == 0 && rem.hi == 0 {
        let out = match q.to_u128() {
            Some(v) => v,
            None => {
                proof {
                    assert(false);
                }
                0
            },
        };
        out
    } else {
        let out = match q.to_u128() {
            Some(v) => v,
            None => {
                proof {
                    assert(false);
                }
                0
            },
        };
        out + 1
    }
}

/// Computes the output bought by `net` at `price`, or reports that it does
/// not fit in 128 bits.
pub fn out_amount(net: u128, price: U256, swap_for_y: bool) -> (r: Option<u128>)
    ensures
        match r {
            Some(v) => v as nat == spec_out_amount(net as nat, price.value(), swap_for_y),
            None => spec_out_amount(net as nat, price.value(), swap_for_y) >= p128(),
        },
{
    if swap_for_y {
        // floor(net * price / 2^128) == net * price.hi + floor(net * price.lo / 2^128)
        let a = mul_u128_wide(net, price.lo);
        let b = mul_u128_wide(net, price.hi);
        proof {
            lemma_mul_shift_down(net as nat, price);
        }
        if b.hi != 0 {
            proof {
                vstd::arithmetic::mul::lemma_mul_inequality(1, b.hi as int, p128() as int);
            }
            return None;
        }
        if b.lo <= u128::MAX - a.hi {
            Some(b.lo + a.hi)
        } else {
            None
        }
    } else {
        if price.hi == 0 && price.lo == 0 {
            return Some(0);
        }
        let n = U256 { hi: net, lo: 0 };
        proof {
            assert(n.value() == net as nat * p128()) by (nonlinear_arith)
                requires
                    n.value() == (n.hi as nat) * p128() + n.lo,
                    n.hi == net,
                    n.lo == 0,
            ;
        }
        let (q, _rem) = div_rem(n, price);
        q.to_u128()
    }
}

/// `floor(net * p / 2^128) == net * p.hi + floor(net * p.lo / 2^128)`.
proof fn lemma_mul_shift_down(net: nat, p: U256)
    ensures
        (net * p.value()) / p128() == net * (p.hi as nat) + (net * (p.lo as nat)) / p128(),
{
    let rem = (net * (p.lo as nat)) % p128();
    vstd::arithmetic::div_mod::lemma_fundamental_div_mod((net * (p.lo as nat)) as int, p128() as int);
    assert(net * p.value() == (net * (p.hi as nat) + (net * (p.lo as nat)) / p128()) * p128()
        + rem) by (nonlinear_arith)
        requires
            p.value() == (p.hi as nat) * p128() + (p.lo as nat),
            net * (p.lo as nat) == ((net * (p.lo as nat)) / p128()) * p128() + rem,
    ;
    vstd::arithmetic::div_mod::lemma_fundamental_div_mod_converse(
        (net * p.value()) as int,
        p128() as int,
        (net * (p.hi as nat) + (net * (p.lo as nat)) / p128()) as int,
        rem as int,
    );
}

/// Computes the net input that just drains `reserve_out`, or reports that no
/// 128-bit input can.
pub fn drain_net(reserve_out: u128, price: U256, swap_for_y: bool) -> (r: Option<u128>)
    requires
        swap_for_y ==> price.value() > 0,
    ensures
        match r {
            Some(v) => v as nat == spec_drain_net(reserve_out as nat, price.value(), swap_for_y),
            None => spec_drain_net(reserve_out as nat, price.value(), swap_for_y) > u128::MAX,
        },
{
    if swap_for_y {
        // ceil(reserve * 2^128 / price)
        let n = U256 { hi: reserve_out, lo: 0 };
        proof {
            assert(n.value() == reserve_out as nat * p128()) by (nonlinear_arith)
                requires
                    n.value() == (n.hi as nat) * p128() + n.lo,
                    n.hi == reserve_out,
                    n.lo == 0,
            ;
        }
        let (q, rem) = div_rem(n, price);
        proof {
            lemma_ceil_div_general(reserve_out as nat * p128(), price.value());
        }
        if rem.hi == 0 && rem.lo == 0 {
            q.to_u128()
        } else {
            match q.to_u128() {
                Some(v) => {
                    if v < u128::MAX {
                        Some(v + 1)
                    } else {
                        None
                    }
                },
                None => None,
            }
        }
    } else {
        // ceil(reserve * price / 2^128)
        let a = mul_u128_wide(reserve_out, price.lo);
        let b = mul_u128_wide(reserve_out, price.hi);
        proof {
            lemma_mul_shift_down(reserve_out as nat, price);
            lemma_ceil_div_general(reserve_out as nat * price.value(), p128());
            // the low part's remainder decides the rounding
            vstd::arithmetic::div_mod::lemma_fundamental_div_mod(
                (reserve_out as nat * (price.lo as nat)) as int,
                p128() as int,
            );
            lemma_mod_shift_down(reserve_out as nat, price);
        }
        if b.hi != 0 {
            proof {
                vstd::arithmetic::mul::lemma_mul_inequality(1, b.hi as int, p128() as int);
            }
            return None;
        }
        let floor_part: u128 = if b.lo <= u128::MAX - a.hi {
            b.lo + a.hi
        } else {
            return None;
        };
        if a.lo == 0 {
            Some(floor_part)
        } else {
            if floor_part < u128::MAX {
                Some(floor_part + 1)
            } else {
                None
            }
        }
    }
}

/// A rounded-up quotient is the rounded-down one, plus one when a remainder
/// exists.
pub proof fn lemma_ceil_div_general(x: nat, d: nat)
    requires
        d >= 1,
    ensures
        x % d == 0 ==> ((x + d - 1) as nat) / d == x / d,
        x % d != 0 ==> ((x + d - 1) as nat) / d == x / d + 1,
{
    vstd::arithmetic::div_mod::lemma_fundamental_div_mod(x as int, d as int);
    let q0 = x as int / d as int;
    let r0 = x as int % d as int;
    if x % d == 0 {
        assert((x + d - 1) as int == q0 * (d as int) + (d - 1)) by (nonlinear_arith)
            requires
                x as int == (d as int) * q0 + r0,
                r0 == 0,
        ;
        vstd::arithmetic::div_mod::lemma_fundamental_div_mod_converse(
            (x + d - 1) as int,
            d as int,
            q0,
            (d - 1) as int,
        );
    } else {
        assert((x + d - 1) as int == (q0 + 1) * (d as int) + (r0 - 1)) by (nonlinear_arith)
            requires
                x as int == (d as int) * q0 + r0,
        ;
        vstd::arithmetic::div_mod::lemma_fundamental_div_mod_converse(
            (x + d - 1) as int,
            d as int,
            q0 + 1,
            r0 - 1,
        );
    }
}

/// `(net * p) % 2^128 == (net * p.lo) % 2^128`.
proof fn lemma_mod_shift_down(net: nat, p: U256)
    ensures
        (net * p.value()) % p128() == (net * (p.lo as nat)) % p128(),
{
    lemma_mul_shift_down(net, p);
    let f = (net * (p.lo as nat)) / p128();
    let rem = (net * (p.lo as nat)) % p128();
    vstd::arithmetic::div_mod::lemma_fundamental_div_mod((net * (p.lo as nat)) as int, p128() as int);
    assert(net * p.value() == (net * (p.hi as nat) + f) * p128() + rem) by (nonlinear_arith)
        requires
            p.value() == (p.hi as nat) * p128() + (p.lo as nat),
            net * (p.lo as nat) == f * p128() + rem,
    ;
    vstd::arithmetic::div_mod::lemma_fundamental_div_mod_converse(
        (net * p.value()) as int,
        p128() as int,
        (net * (p.hi as nat) + f) as int,
        rem as int,
    );
}

/// Computes the gross-up fee for a net amount: the extra input that covers
/// the fee on draining a bin.
pub fn gross_fee(net: u128, fee_ppm: u64) -> (r: Option<u128>)
    requires
        fee_ppm < FEE_SCALE,
    ensures
        match r {
            Some(v) => v as nat == spec_gross_fee(net as nat, fee_ppm as nat),
            None => spec_gross_fee(net as nat, fee_ppm as nat) > u128::MAX,
        },
{
    let wide = mul_u128_wide(net, fee_ppm as u128);
    let denom: u128 = 1_000_000 - (fee_ppm as u128);
    proof {
        assert((net as nat) * (fee_ppm as nat) <= 0xffffffffffffffffffffffffffffffffnat
            * 999_999nat) by (nonlinear_arith)
            requires
                net <= 0xffffffffffffffffffffffffffffffffnat,
                fee_ppm <= 999_999nat,
        ;
    }
    let num = match wide.checked_add(U256 { hi: 0, lo: denom - 1 }) {
        Some(x) => x,
        None => {
            proof {
                assert(false);
            }
            U256 { hi: 0, lo: 0 }
        },
    };
    let (q, _rem) = div_rem(num, U256 { hi: 0, lo: denom });
    q.to_u128()
}

/// A bin's two reserves. A bin with both sides zero is empty and is absent
/// from the presence tree.
#[derive(Clone, Copy, Debug, PartialEq, Eq, Structural)]
pub struct Bin {
    /// Reserve of the first asset.
    pub reserve_x: u128,
    /// Reserve of the second asset.
    pub reserve_y: u128,
}

impl Bin {
    /// Both sides zero.
    pub open spec fn is_empty(self) -> bool {
        self.reserve_x == 0 && self.reserve_y == 0
    }
}

/// The bin stored at an id: absent ids hold the empty bin.
pub open spec fn bin_of(bins: Map<u32, Bin>, id: u32) -> Bin {
    if bins.contains_key(id) {
        bins[id]
    } else {
        Bin { reserve_x: 0, reserve_y: 0 }
    }
}

/// The nearest populated id strictly below `id`.
pub open spec fn spec_find_below(t: Set<u32>, id: u32) -> Option<u32>
    decreases id,
{
    if id == 0 {
        None
    } else if t.contains((id - 1) as u32) {
        Some((id - 1) as u32)
    } else {
        spec_find_below(t, (id - 1) as u32)
    }
}

/// The nearest populated id strictly above `id`, below the id space's end.
pub open spec fn spec_find_above(t: Set<u32>, id: u32) -> Option<u32>
    decreases ID_SPACE - id,
{
    if id + 1 >= ID_SPACE {
        None
    } else if t.contains((id + 1) as u32) {
        Some((id + 1) as u32)
    } else {
        spec_find_above(t, (id + 1) as u32)
    }
}

/// The next populated bin in the trade direction.
pub open spec fn spec_find_next(t: Set<u32>, swap_for_y: bool, id: u32) -> Option<u32> {
    if swap_for_y {
        spec_find_below(t, id)
    } else {
        spec_find_above(t, id)
    }
}

/// What the nearest-bin search finds is what the search tree's contract
/// describes: the bracketing conditions pin the result down.
pub proof fn lemma_find_below_agrees(t: Set<u32>, id: u32, r: Option<u32>)
    requires
        match r {
            Some(j) => j < id && t.contains(j) && forall|k: u32| j < k < id ==> !t.contains(k),
            None => forall|k: u32| k < id ==> !t.contains(k),
        },
    ensures
        spec_find_below(t, id) == r,
    decreases id,
{
    if id > 0 {
        let prev = (id - 1) as u32;
        if t.contains(prev) {
            assert(r == Some(prev)) by {
                match r {
                    Some(j) => {
                        if j < prev {
                            assert(t.contains(prev) && j < prev < id);
                        }
                    },
                    None => {
                        assert(!t.contains(prev));
                    },
                }
            }
        } else {
            match r {
                Some(j) => {
                    assert(j < prev);
                    lemma_find_below_agrees(t, prev, r);
                },
                None => {
                    lemma_find_below_agrees(t, prev, r);
                },
            }
        }
    }
}

/// The ascending counterpart of `lemma_find_below_agrees`.
pub proof fn lemma_find_above_agrees(t: Set<u32>, id: u32, r: Option<u32>)
    requires
        match r {
            Some(j) => id < j < ID_SPACE && t.contains(j) && forall|k: u32|
                id < k < j ==> !t.contains(k),
            None => forall|k: u32| id < k < ID_SPACE ==> !t.contains(k),
        },
    ensures
        spec_find_above(t, id) == r,
    decreases ID_SPACE - id,
{
    if id + 1 < ID_SPACE {
        let next = (id + 1) as u32;
        if t.contains(next) {
            match r {
                Some(j) => {
                    if j > next {
                        assert(t.contains(next) && id < next < j);
                    }
                },
                None => {
                    assert(!t.contains(next));
                },
            }
        } else {
            match r {
                Some(j) => {
                    assert(j > next);
                    lemma_find_above_agrees(t, next, r);
                },
                None => {
                    lemma_find_above_agrees(t, next, r);
                },
            }
        }
    }
}

/// The protocol's cut of a fee, in basis points, rounded down.
pub open spec fn spec_protocol_cut(fee: nat, share: nat) -> nat {
    (fee * share) / (BASIS_POINT_MAX as nat)
}

/// The result of walking a swap across bins.
pub struct WalkResult {
    /// No bin reserve overflowed while absorbing input.
    pub ok: bool,
    /// Total output produced.
    pub out: nat,
    /// Input left unconsumed: a partial fill when positive.
    pub left: nat,
    /// Total fee charged, part of the consumed input.
    pub fee_total: nat,
    /// The protocol's part of the total fee.
    pub protocol: nat,
    /// The bin on which the swap ended.
    pub end_id: u32,
    /// How many times the walk moved to another bin.
    pub crossed: nat,
    /// The bins after the walk.
    pub bins: Map<u32, Bin>,
}

/// Adds the traded amounts to one bin: the net input and the liquidity
/// providers' fee share flow in, the output flows out.
pub open spec fn spec_bin_after(bin: Bin, net_in: nat, lp_fee: nat, out: nat, swap_for_y: bool) -> Bin {
    if swap_for_y {
        Bin {
            reserve_x: (bin.reserve_x + net_in + lp_fee) as u128,
            reserve_y: (bin.reserve_y - out) as u128,
        }
    } else {
        Bin {
            reserve_x: (bin.reserve_x - out) as u128,
            reserve_y: (bin.reserve_y + net_in + lp_fee) as u128,
        }
    }
}

/// Whether the traded amounts fit the bin's input side.
pub open spec fn spec_bin_fits(bin: Bin, net_in: nat, lp_fee: nat, swap_for_y: bool) -> bool {
    if swap_for_y {
        bin.reserve_x + net_in + lp_fee <= u128::MAX
    } else {
        bin.reserve_y + net_in + lp_fee <= u128::MAX
    }
}

/// A found lower neighbor is strictly below the start.
pub proof fn lemma_find_below_bound(t: Set<u32>, id: u32)
    ensures
        match spec_find_below(t, id) {
            Some(j) => j < id,
            None => true,
        },
    decreases id,
{
    if id > 0 && !t.contains((id - 1) as u32) {
        lemma_find_below_bound(t, (id - 1) as u32);
    }
}

/// A found upper neighbor is strictly above the start and in the id space.
pub proof fn lemma_find_above_bound(t: Set<u32>, id: u32)
    ensures
        match spec_find_above(t, id) {
            Some(j) => id < j < ID_SPACE,
            None => true,
        },
    decreases ID_SPACE - id,
{
    if id + 1 < ID_SPACE && !t.contains((id + 1) as u32) {
        lemma_find_above_bound(t, (id + 1) as u32);
    }
}

#[via_fn]
proof fn spec_walk_decreases(
    bins: Map<u32, Bin>,
    tree: Set<u32>,
    fee_ppm: nat,
    share: nat,
    bin_step: u16,
    swap_for_y: bool,
    id: u32,
    amount: nat,
) {
    if swap_for_y {
        lemma_find_below_bound(tree, id);
    } else {
        lemma_find_above_bound(tree, id);
    }
}

/// The swap walk: consumes `amount` bin by bin, starting at `id`, at a fee
/// schedule held constant for the whole walk. Each step either absorbs the
/// whole remaining input in the current bin, or drains the bin and moves to
/// the next populated one; running out of bins leaves the rest unconsumed.
pub open spec fn spec_walk(
    bins: Map<u32, Bin>,
    tree: Set<u32>,
    fee_ppm: nat,
    share: nat,
    bin_step: u16,
    swap_for_y: bool,
    id: u32,
    amount: nat,
) -> WalkResult
    decreases (if swap_for_y { id as int } else { ID_SPACE - id }),
    via spec_walk_decreases
{
    if amount == 0 {
        WalkResult {
            ok: true,
            out: 0,
            left: 0,
            fee_total: 0,
            protocol: 0,
            end_id: id,
            crossed: 0,
            bins,
        }
    } else {
        let bin = bin_of(bins, id);
        let r_out = if swap_for_y {
            bin.reserve_y as nat
        } else {
            bin.reserve_x as nat
        };
        let p = spec_price(bin_step, id);
        if r_out == 0 || p == 0 {
            // nothing to trade here: move on, or stop with a partial fill
            match spec_find_next(tree, swap_for_y, id) {
                None => WalkResult {
                    ok: true,
                    out: 0,
                    left: amount,
                    fee_total: 0,
                    protocol: 0,
                    end_id: id,
                    crossed: 0,
                    bins,
                },
                Some(j) => {
                    let rec = spec_walk(bins, tree, fee_ppm, share, bin_step, swap_for_y, j, amount);
                    WalkResult { crossed: rec.crossed + 1, ..rec }
                },
            }
        } else if fee_ppm < FEE_SCALE && amount >= spec_drain_net(r_out, p, swap_for_y)
            + spec_gross_fee(spec_drain_net(r_out, p, swap_for_y), fee_ppm) {
            // drain this bin and move on
            let net = spec_drain_net(r_out, p, swap_for_y);
            let feeamt = spec_gross_fee(net, fee_ppm);
            let prot = spec_protocol_cut(feeamt, share);
            let lp = (feeamt - prot) as nat;
            let fits = spec_bin_fits(bin, net, lp, swap_for_y);
            let bins2 = bins.insert(id, spec_bin_after(bin, net, lp, r_out, swap_for_y));
            let used = net + feeamt;
            match spec_find_next(tree, swap_for_y, id) {
                None => WalkResult {
                    ok: fits,
                    out: r_out,
                    left: (amount - used) as nat,
                    fee_total: feeamt,
                    protocol: prot,
                    end_id: id,
                    crossed: 0,
                    bins: bins2,
                },
                Some(j) => {
                    let rec = spec_walk(
                        bins2,
                        tree,
                        fee_ppm,
                        share,
                        bin_step,
                        swap_for_y,
                        j,
                        (amount - used) as nat,
                    );
                    WalkResult {
                        ok: fits && rec.ok,
                        out: r_out + rec.out,
                        left: rec.left,
                        fee_total: feeamt + rec.fee_total,
                        protocol: prot + rec.protocol,
                        end_id: rec.end_id,
                        crossed: rec.crossed + 1,
                        bins: rec.bins,
                    }
                },
            }
        } else {
            // the whole remaining input is absorbed here
            let feeamt = spec_fee(amount, fee_ppm);
            let net = (amount - feeamt) as nat;
            let raw = spec_out_amount(net, p, swap_for_y);
            let out = if raw <= r_out {
                raw
            } else {
                r_out
            };
            let prot = spec_protocol_cut(feeamt, share);
            let lp = (feeamt - prot) as nat;
            WalkResult {
                ok: spec_bin_fits(bin, net, lp, swap_for_y),
                out,
                left: 0,
                fee_total: feeamt,
                protocol: prot,
                end_id: id,
                crossed: 0,
                bins: bins.insert(id, spec_bin_after(bin, net, lp, out, swap_for_y)),
            }
        }
    }
}

/// Aggregate bounds of a walk: fees are part of the consumed input, the
/// protocol's cut is part of the fee, and crossings are bounded by the id
/// space left in the trade direction.
pub proof fn lemma_walk_bounds(
    bins: Map<u32, Bin>,
    tree: Set<u32>,
    fee_ppm: nat,
    share: nat,
    bin_step: u16,
    swap_for_y: bool,
    id: u32,
    amount: nat,
)
    requires
        fee_ppm <= FEE_SCALE,
        share <= BASIS_POINT_MAX,
        id < ID_SPACE,
    ensures
        ({
            let w = spec_walk(bins, tree, fee_ppm, share, bin_step, swap_for_y, id, amount);
            &&& w.left <= amount
            &&& w.fee_total + w.left <= amount
            &&& w.protocol <= w.fee_total
            &&& w.crossed <= (if swap_for_y {
                id as int
            } else {
                ID_SPACE - id
            })
            &&& w.end_id < ID_SPACE
        }),
    decreases (if swap_for_y { id as int } else { ID_SPACE - id }),
{
    if swap_for_y {
        lemma_find_below_bound(tree, id);
    } else {
        lemma_find_above_bound(tree, id);
    }
    let w = spec_walk(bins, tree, fee_ppm, share, bin_step, swap_for_y, id, amount);
    if amount == 0 {
    } else {
        let bin = bin_of(bins, id);
        let r_out = if swap_for_y {
            bin.reserve_y as nat
        } else {
            bin.reserve_x as nat
        };
        let p = spec_price(bin_step, id);
        if r_out == 0 || p == 0 {
            match spec_find_next(tree, swap_for_y, id) {
                None => {},
                Some(j) => {
                    lemma_walk_bounds(bins, tree, fee_ppm, share, bin_step, swap_for_y, j, amount);
                    let rec = spec_walk(bins, tree, fee_ppm, share, bin_step, swap_for_y, j, amount);
                    assert(w.left == rec.left && w.fee_total == rec.fee_total && w.protocol
                        == rec.protocol && w.crossed == rec.crossed + 1);
                    assert(w.crossed <= (if swap_for_y {
                        id as int
                    } else {
                        ID_SPACE - id
                    }));
                },
            }
        } else if fee_ppm < FEE_SCALE && amount >= spec_drain_net(r_out, p, swap_for_y)
            + spec_gross_fee(spec_drain_net(r_out, p, swap_for_y), fee_ppm) {
            let net = spec_drain_net(r_out, p, swap_for_y);
            let feeamt = spec_gross_fee(net, fee_ppm);
            lemma_protocol_cut_le(feeamt, share);
            let bins2 = bins.insert(
                id,
                spec_bin_after(
                    bin,
                    net,
                    (feeamt - spec_protocol_cut(feeamt, share)) as nat,
                    r_out,
                    swap_for_y,
                ),
            );
            let used = net + feeamt;
            match spec_find_next(tree, swap_for_y, id) {
                None => {},
                Some(j) => {
                    lemma_walk_bounds(
                        bins2,
                        tree,
                        fee_ppm,
                        share,
                        bin_step,
                        swap_for_y,
                        j,
                        (amount - used) as nat,
                    );
                    let rec = spec_walk(
                        bins2,
                        tree,
                        fee_ppm,
                        share,
                        bin_step,
                        swap_for_y,
                        j,
                        (amount - used) as nat,
                    );
                    assert(w.left == rec.left);
                    assert(w.fee_total == feeamt + rec.fee_total);
                    assert(w.protocol == spec_protocol_cut(feeamt, share) + rec.protocol);
                    assert(w.crossed == rec.crossed + 1);
                    assert(w.fee_total + w.left <= amount);
                    assert(w.protocol <= w.fee_total);
                },
            }
        } else {
            lemma_fee_le_amount(amount, fee_ppm);
            lemma_protocol_cut_le(spec_fee(amount, fee_ppm), share);
            assert(w.fee_total <= amount);
            assert(w.left == 0);
            assert(w.protocol <= w.fee_total);
            assert(w.crossed == 0);
        }
    }
}

/// The fee on an amount never exceeds the amount while the rate is capped.
pub proof fn lemma_fee_le_amount(amount: nat, fee_ppm: nat)
    requires
        fee_ppm <= FEE_SCALE,
    ensures
        spec_fee(amount, fee_ppm) <= amount,
{
    assert(amount * fee_ppm + 999_999 <= (amount + 1) * 1_000_000 - 1) by (nonlinear_arith)
        requires
            fee_ppm <= 1_000_000,
    ;
    vstd::arithmetic::div_mod::lemma_div_is_ordered(
        (amount * fee_ppm + 999_999) as int,
        ((amount + 1) * 1_000_000 - 1) as int,
        1_000_000,
    );
    assert(((amount + 1) * 1_000_000 - 1) as int / 1_000_000 == amount as int) by {
        vstd::arithmetic::div_mod::lemma_fundamental_div_mod_converse(
            ((amount + 1) * 1_000_000 - 1) as int,
            1_000_000,
            amount as int,
            999_999,
        );
    }
}

/// The protocol's cut never exceeds the fee it is cut from.
pub proof fn lemma_protocol_cut_le(fee: nat, share: nat)
    requires
        share <= BASIS_POINT_MAX,
    ensures
        spec_protocol_cut(fee, share) <= fee,
{
    assert(fee * share <= fee * 10000) by (nonlinear_arith)
        requires
            share <= 10000,
    ;
    vstd::arithmetic::div_mod::lemma_div_is_ordered(
        (fee * share) as int,
        (fee * 10000) as int,
        10000,
    );
    assert((fee * 10000) as int / 10000 == fee as int) by {
        vstd::arithmetic::div_mod::lemma_div_by_multiple(fee as int, 10000);
    }
}

/// The net input needed to drain a non-empty reserve is at least one unit.
pub proof fn lemma_drain_net_pos(reserve_out: nat, price: nat, swap_for_y: bool)
    requires
        reserve_out >= 1,
        price > 0,
    ensures
        spec_drain_net(reserve_out, price, swap_for_y) >= 1,
{
    if swap_for_y {
        assert(reserve_out * p128() >= p128()) by (nonlinear_arith)
            requires
                reserve_out >= 1,
        ;
        assert(spec_drain_net(reserve_out, price, swap_for_y) == ((reserve_out * p128() + price
            - 1) as nat) / price);
        vstd::arithmetic::div_mod::lemma_div_non_zero(
            (reserve_out * p128() + price - 1) as int,
            price as int,
        );
    } else {
        assert(reserve_out * price >= price) by (nonlinear_arith)
            requires
                reserve_out >= 1,
                price > 0,
        ;
        vstd::arithmetic::div_mod::lemma_div_non_zero(
            (reserve_out * price + p128() - 1) as int,
            p128() as int,
        );
    }
}

#[via_fn]
proof fn spec_walk_in_decreases(
    bins: Map<u32, Bin>,
    tree: Set<u32>,
    fee_ppm: nat,
    bin_step: u16,
    swap_for_y: bool,
    id: u32,
    wanted: nat,
) {
    if swap_for_y {
        lemma_find_below_bound(tree, id);
    } else {
        lemma_find_above_bound(tree, id);
    }
}

/// The inverse walk: the gross input needed to buy `wanted` output, the
/// output that no amount of input can buy (for want of liquidity), and the
/// fee inside that input. Read-only: a dry-run quote.
pub open spec fn spec_walk_in(
    bins: Map<u32, Bin>,
    tree: Set<u32>,
    fee_ppm: nat,
    bin_step: u16,
    swap_for_y: bool,
    id: u32,
    wanted: nat,
) -> (nat, nat, nat)
    decreases (if swap_for_y { id as int } else { ID_SPACE - id }),
    via spec_walk_in_decreases
{
    if wanted == 0 || fee_ppm >= FEE_SCALE {
        (0, wanted, 0)
    } else {
        let bin = bin_of(bins, id);
        let r_out = if swap_for_y {
            bin.reserve_y as nat
        } else {
            bin.reserve_x as nat
        };
        let p = spec_price(bin_step, id);
        if r_out == 0 || p == 0 {
            match spec_find_next(tree, swap_for_y, id) {
                None => (0, wanted, 0),
                Some(j) => spec_walk_in(bins, tree, fee_ppm, bin_step, swap_for_y, j, wanted),
            }
        } else if wanted > r_out {
            // take this whole bin and keep looking
            let net = spec_drain_net(r_out, p, swap_for_y);
            let gfee = spec_gross_fee(net, fee_ppm);
            match spec_find_next(tree, swap_for_y, id) {
                None => (net + gfee, (wanted - r_out) as nat, gfee),
                Some(j) => {
                    let rec = spec_walk_in(
                        bins,
                        tree,
                        fee_ppm,
                        bin_step,
                        swap_for_y,
                        j,
                        (wanted - r_out) as nat,
                    );
                    (net + gfee + rec.0, rec.1, gfee + rec.2)
                },
            }
        } else {
            // this bin covers the rest
            let net = spec_drain_net(wanted, p, swap_for_y);
            let gfee = spec_gross_fee(net, fee_ppm);
            (net + gfee, 0, gfee)
        }
    }
}

/// The fee inside an inverse quote never exceeds the input it is part of.
pub proof fn lemma_walk_in_bounds(
    bins: Map<u32, Bin>,
    tree: Set<u32>,
    fee_ppm: nat,
    bin_step: u16,
    swap_for_y: bool,
    id: u32,
    wanted: nat,
)
    requires
        id < ID_SPACE,
    ensures
        ({
            let w = spec_walk_in(bins, tree, fee_ppm, bin_step, swap_for_y, id, wanted);
            w.2 <= w.0 && w.1 <= wanted
        }),
    decreases (if swap_for_y { id as int } else { ID_SPACE - id }),
{
    if swap_for_y {
        lemma_find_below_bound(tree, id);
    } else {
        lemma_find_above_bound(tree, id);
    }
    if wanted == 0 || fee_ppm >= FEE_SCALE {
    } else {
        let bin = bin_of(bins, id);
        let r_out = if swap_for_y {
            bin.reserve_y as nat
        } else {
            bin.reserve_x as nat
        };
        let p = spec_price(bin_step, id);
        if r_out == 0 || p == 0 {
            match spec_find_next(tree, swap_for_y, id) {
                None => {},
                Some(j) => {
                    lemma_walk_in_bounds(bins, tree, fee_ppm, bin_step, swap_for_y, j, wanted);
                },
            }
        } else if wanted > r_out {
            match spec_find_next(tree, swap_for_y, id) {
                None => {},
                Some(j) => {
                    lemma_walk_in_bounds(
                        bins,
                        tree,
                        fee_ppm,
                        bin_step,
                        swap_for_y,
                        j,
                        (wanted - r_out) as nat,
                    );
                },
            }
        } else {
        }
    }
}

/// Taking the fee off a larger gross amount never leaves less net input.
proof fn lemma_net_mono(a: nat, b: nat, fee_ppm: nat)
    requires
        a <= b,
        fee_ppm <= FEE_SCALE,
    ensures
        spec_fee(a, fee_ppm) <= spec_fee(b, fee_ppm),
        a - spec_fee(a, fee_ppm) <= b - spec_fee(b, fee_ppm),
{
    lemma_fee_le_amount(a, fee_ppm);
    lemma_fee_le_amount(b, fee_ppm);
    assert(a * fee_ppm <= b * fee_ppm) by (nonlinear_arith)
        requires
            a <= b,
    ;
    vstd::arithmetic::div_mod::lemma_div_is_ordered(
        (a * fee_ppm + 999_999) as int,
        (b * fee_ppm + 999_999) as int,
        1_000_000,
    );
    // fee(b) <= fee(a) + (b - a): the extra gross is charged at most in full
    let k = (b - a) as nat;
    assert(b * fee_ppm + 999_999 <= a * fee_ppm + 999_999 + k * 1_000_000) by (nonlinear_arith)
        requires
            b == a + k,
            fee_ppm <= 1_000_000,
    ;
    vstd::arithmetic::div_mod::lemma_div_is_ordered(
        (b * fee_ppm + 999_999) as int,
        (a * fee_ppm + 999_999 + k * 1_000_000) as int,
        1_000_000,
    );
    assert((a * fee_ppm + 999_999 + k * 1_000_000) as int / 1_000_000 == (a * fee_ppm
        + 999_999) as int / 1_000_000 + k) by {
        vstd::arithmetic::div_mod::lemma_hoist_over_denominator(
            (a * fee_ppm + 999_999) as int,
            k as int,
            1_000_000,
        );
    }
}

/// More net input never buys less output at a fixed price.
proof fn lemma_out_mono(n1: nat, n2: nat, price: nat, swap_for_y: bool)
    requires
        n1 <= n2,
    ensures
        spec_out_amount(n1, price, swap_for_y) <= spec_out_amount(n2, price, swap_for_y),
{
    if swap_for_y {
        assert(n1 * price <= n2 * price) by (nonlinear_arith)
            requires
                n1 <= n2,
        ;
        vstd::arithmetic::div_mod::lemma_div_is_ordered(
            (n1 * price) as int,
            (n2 * price) as int,
            p128() as int,
        );
    } else if price > 0 {
        assert(n1 * p128() <= n2 * p128()) by (nonlinear_arith)
            requires
                n1 <= n2,
        ;
        vstd::arithmetic::div_mod::lemma_div_is_ordered(
            (n1 * p128()) as int,
            (n2 * p128()) as int,
            price as int,
        );
    }
}

/// Swap monotonicity: with the fee schedule held constant, a larger input
/// never produces a smaller output, whatever bins the two walks cross.
pub proof fn lemma_swap_monotone(
    bins: Map<u32, Bin>,
    tree: Set<u32>,
    fee_ppm: nat,
    share: nat,
    bin_step: u16,
    swap_for_y: bool,
    id: u32,
    a1: nat,
    a2: nat,
)
    requires
        fee_ppm <= FEE_SCALE,
        share <= BASIS_POINT_MAX,
        id < ID_SPACE,
        a1 <= a2,
    ensures
        spec_walk(bins, tree, fee_ppm, share, bin_step, swap_for_y, id, a1).out <= spec_walk(
            bins,
            tree,
            fee_ppm,
            share,
            bin_step,
            swap_for_y,
            id,
            a2,
        ).out,
    decreases (if swap_for_y { id as int } else { ID_SPACE - id }),
{
    if swap_for_y {
        lemma_find_below_bound(tree, id);
    } else {
        lemma_find_above_bound(tree, id);
    }
    if a1 == 0 {
    } else {
        let bin = bin_of(bins, id);
        let r_out = if swap_for_y {
            bin.reserve_y as nat
        } else {
            bin.reserve_x as nat
        };
        let p = spec_price(bin_step, id);
        if r_out == 0 || p == 0 {
            match spec_find_next(tree, swap_for_y, id) {
                None => {},
                Some(j) => {
                    lemma_swap_monotone(
                        bins,
                        tree,
                        fee_ppm,
                        share,
                        bin_step,
                        swap_for_y,
                        j,
                        a1,
                        a2,
                    );
                },
            }
        } else {
            let net_t = spec_drain_net(r_out, p, swap_for_y);
            let t = net_t + spec_gross_fee(net_t, fee_ppm);
            if fee_ppm < FEE_SCALE && a1 >= t {
                // both drain the bin identically and recurse
                let feeamt = spec_gross_fee(net_t, fee_ppm);
                let prot = spec_protocol_cut(feeamt, share);
                let bins2 = bins.insert(
                    id,
                    spec_bin_after(bin, net_t, (feeamt - prot) as nat, r_out, swap_for_y),
                );
                match spec_find_next(tree, swap_for_y, id) {
                    None => {},
                    Some(j) => {
                        lemma_swap_monotone(
                            bins2,
                            tree,
                            fee_ppm,
                            share,
                            bin_step,
                            swap_for_y,
                            j,
                            (a1 - t) as nat,
                            (a2 - t) as nat,
                        );
                    },
                }
            } else if fee_ppm < FEE_SCALE && a2 >= t {
                // the smaller input stays in this bin, capped by its reserve;
                // the larger one takes the whole reserve and may go on
                lemma_fee_le_amount(a1, fee_ppm);
            } else {
                // both are absorbed here
                lemma_fee_le_amount(a1, fee_ppm);
                lemma_fee_le_amount(a2, fee_ppm);
                lemma_net_mono(a1, a2, fee_ppm);
                lemma_out_mono(
                    (a1 - spec_fee(a1, fee_ppm)) as nat,
                    (a2 - spec_fee(a2, fee_ppm)) as nat,
                    p,
                    swap_for_y,
                );
            }
        }
    }
}

/// The first-asset contribution function of a bin map's sum.
pub open spec fn sum_x_step(bins: Map<u32, Bin>) -> spec_fn(nat, u32) -> nat {
    |acc: nat, k: u32| acc + bin_of(bins, k).reserve_x as nat
}

/// The second-asset contribution function of a bin map's sum.
pub open spec fn sum_y_step(bins: Map<u32, Bin>) -> spec_fn(nat, u32) -> nat {
    |acc: nat, k: u32| acc + bin_of(bins, k).reserve_y as nat
}

/// The total first-asset reserve across a bin map.
pub open spec fn spec_sum_x(bins: Map<u32, Bin>) -> nat {
    bins.dom().fold(0, sum_x_step(bins))
}

/// The total second-asset reserve across a bin map.
pub open spec fn spec_sum_y(bins: Map<u32, Bin>) -> nat {
    bins.dom().fold(0, sum_y_step(bins))
}

/// Adding reserves commutes, so the fold order cannot matter.
proof fn lemma_sum_steps_commutative(bins: Map<u32, Bin>)
    ensures
        vstd::set::fold::is_fun_commutative(sum_x_step(bins)),
        vstd::set::fold::is_fun_commutative(sum_y_step(bins)),
{
}

/// Two maps that agree on a key set fold to the same sums over it.
proof fn lemma_sum_fold_congruent(s: Set<u32>, m1: Map<u32, Bin>, m2: Map<u32, Bin>)
    requires
        s.finite(),
        forall|k: u32| s.contains(k) ==> bin_of(m1, k) == bin_of(m2, k),
    ensures
        s.fold(0, sum_x_step(m1)) == s.fold(0, sum_x_step(m2)),
        s.fold(0, sum_y_step(m1)) == s.fold(0, sum_y_step(m2)),
    decreases s.len(),
{
    lemma_sum_steps_commutative(m1);
    lemma_sum_steps_commutative(m2);
    if s.len() == 0 {
        assert(s =~= Set::<u32>::empty()) by {
            if exists|a: u32| s.contains(a) {
                let a = choose|a: u32| s.contains(a);
                vstd::set::axiom_set_contains_len(s, a);
            }
        }
        lemma_fold_empty(0nat, sum_x_step(m1));
        lemma_fold_empty(0nat, sum_x_step(m2));
        lemma_fold_empty(0nat, sum_y_step(m1));
        lemma_fold_empty(0nat, sum_y_step(m2));
    } else {
        let a = s.choose();
        assert(s.contains(a)) by {
            vstd::set::axiom_set_choose_len(s);
        }
        let s2 = s.remove(a);
        assert(s2.insert(a) =~= s);
        lemma_sum_fold_congruent(s2, m1, m2);
        lemma_fold_insert(s2, 0nat, sum_x_step(m1), a);
        lemma_fold_insert(s2, 0nat, sum_x_step(m2), a);
        lemma_fold_insert(s2, 0nat, sum_y_step(m1), a);
        lemma_fold_insert(s2, 0nat, sum_y_step(m2), a);
    }
}

/// Splitting one key out of a sum.
proof fn lemma_sum_remove(m: Map<u32, Bin>, k: u32)
    requires
        m.dom().finite(),
        m.dom().contains(k),
    ensures
        spec_sum_x(m) == spec_sum_x(m.remove(k)) + bin_of(m, k).reserve_x,
        spec_sum_y(m) == spec_sum_y(m.remove(k)) + bin_of(m, k).reserve_y,
{
    lemma_sum_steps_commutative(m);
    let s2 = m.dom().remove(k);
    assert(s2.insert(k) =~= m.dom());
    lemma_fold_insert(s2, 0nat, sum_x_step(m), k);
    lemma_fold_insert(s2, 0nat, sum_y_step(m), k);
    assert(m.remove(k).dom() =~= s2);
    lemma_sum_fold_congruent(s2, m, m.remove(k));
}

/// How writing one bin moves the sums: the old contribution leaves, the new
/// one joins.
pub proof fn lemma_sum_insert(m: Map<u32, Bin>, k: u32, v: Bin)
    requires
        m.dom().finite(),
    ensures
        m.insert(k, v).dom().finite(),
        spec_sum_x(m.insert(k, v)) + bin_of(m, k).reserve_x == spec_sum_x(m) + v.reserve_x,
        spec_sum_y(m.insert(k, v)) + bin_of(m, k).reserve_y == spec_sum_y(m) + v.reserve_y,
{
    let m2 = m.insert(k, v);
    assert(m2.dom() =~= m.dom().insert(k));
    lemma_sum_remove(m2, k);
    assert(m2.remove(k) =~= m.remove(k));
    if m.dom().contains(k) {
        lemma_sum_remove(m, k);
    } else {
        assert(m.remove(k) =~= m);
        assert(bin_of(m, k).reserve_x == 0 && bin_of(m, k).reserve_y == 0);
    }
}

/// An empty bin map holds nothing.
pub proof fn lemma_sum_empty()
    ensures
        spec_sum_x(Map::<u32, Bin>::empty()) == 0,
        spec_sum_y(Map::<u32, Bin>::empty()) == 0,
{
    lemma_sum_steps_commutative(Map::<u32, Bin>::empty());
    assert(Map::<u32, Bin>::empty().dom() =~= Set::<u32>::empty());
    lemma_fold_empty(0nat, sum_x_step(Map::<u32, Bin>::empty()));
    lemma_fold_empty(0nat, sum_y_step(Map::<u32, Bin>::empty()));
}

/// The walk conserves value: exactly the produced output leaves the output
/// side of the bins, and exactly the consumed input less the protocol's cut
/// enters the input side.
pub proof fn lemma_walk_conserves(
    bins: Map<u32, Bin>,
    tree: Set<u32>,
    fee_ppm: nat,
    share: nat,
    bin_step: u16,
    swap_for_y: bool,
    id: u32,
    amount: nat,
)
    requires
        fee_ppm <= FEE_SCALE,
        share <= BASIS_POINT_MAX,
        id < ID_SPACE,
        bins.dom().finite(),
    ensures
        ({
            let w = spec_walk(bins, tree, fee_ppm, share, bin_step, swap_for_y, id, amount);
            let sum_out = if swap_for_y {
                spec_sum_y(bins)
            } else {
                spec_sum_x(bins)
            };
            let sum_out2 = if swap_for_y {
                spec_sum_y(w.bins)
            } else {
                spec_sum_x(w.bins)
            };
            let sum_in = if swap_for_y {
                spec_sum_x(bins)
            } else {
                spec_sum_y(bins)
            };
            let sum_in2 = if swap_for_y {
                spec_sum_x(w.bins)
            } else {
                spec_sum_y(w.bins)
            };
            &&& w.bins.dom().finite()
            &&& w.ok ==> sum_out2 + w.out == sum_out
            &&& w.ok ==> sum_in2 + w.protocol + w.left == sum_in + amount
        }),
    decreases (if swap_for_y { id as int } else { ID_SPACE - id }),
{
    if swap_for_y {
        lemma_find_below_bound(tree, id);
    } else {
        lemma_find_above_bound(tree, id);
    }
    lemma_walk_bounds(bins, tree, fee_ppm, share, bin_step, swap_for_y, id, amount);
    if amount == 0 {
    } else {
        let bin = bin_of(bins, id);
        let r_out = if swap_for_y {
            bin.reserve_y as nat
        } else {
            bin.reserve_x as nat
        };
        let p = spec_price(bin_step, id);
        if r_out == 0 || p == 0 {
            match spec_find_next(tree, swap_for_y, id) {
                None => {},
                Some(j) => {
                    lemma_walk_conserves(bins, tree, fee_ppm, share, bin_step, swap_for_y, j, amount);
                },
            }
        } else if fee_ppm < FEE_SCALE && amount >= spec_drain_net(r_out, p, swap_for_y)
            + spec_gross_fee(spec_drain_net(r_out, p, swap_for_y), fee_ppm) {
            let net = spec_drain_net(r_out, p, swap_for_y);
            let feeamt = spec_gross_fee(net, fee_ppm);
            let prot = spec_protocol_cut(feeamt, share);
            let lp = (feeamt - prot) as nat;
            lemma_protocol_cut_le(feeamt, share);
            let newbin = spec_bin_after(bin, net, lp, r_out, swap_for_y);
            let bins2 = bins.insert(id, newbin);
            lemma_sum_insert(bins, id, newbin);
            let used = net + feeamt;
            match spec_find_next(tree, swap_for_y, id) {
                None => {},
                Some(j) => {
                    lemma_walk_conserves(
                        bins2,
                        tree,
                        fee_ppm,
                        share,
                        bin_step,
                        swap_for_y,
                        j,
                        (amount - used) as nat,
                    );
                },
            }
        } else {
            let feeamt = spec_fee(amount, fee_ppm);
            lemma_fee_le_amount(amount, fee_ppm);
            let net = (amount - feeamt) as nat;
            let raw = spec_out_amount(net, p, swap_for_y);
            let out = if raw <= r_out {
                raw
            } else {
                r_out
            };
            let prot = spec_protocol_cut(feeamt, share);
            lemma_protocol_cut_le(feeamt, share);
            let lp = (feeamt - prot) as nat;
            let newbin = spec_bin_after(bin, net, lp, out, swap_for_y);
            lemma_sum_insert(bins, id, newbin);
        }
    }
}

#[via_fn]
proof fn spec_drain_walk_decreases(
    bins: Map<u32, Bin>,
    tree: Set<u32>,
    fee_ppm: nat,
    bin_step: u16,
    swap_for_y: bool,
    id: u32,
) {
    if swap_for_y {
        lemma_find_below_bound(tree, id);
    } else {
        lemma_find_above_bound(tree, id);
    }
}

/// The cost of draining every populated bin in the trade direction: the
/// total gross input that consumes them all, and the total output they hold.
/// `None` when some bin on the way can never be drained (a zero price, or a
/// fee of one whole), so that no finite input exhausts the liquidity.
pub open spec fn spec_drain_walk(
    bins: Map<u32, Bin>,
    tree: Set<u32>,
    fee_ppm: nat,
    bin_step: u16,
    swap_for_y: bool,
    id: u32,
) -> Option<(nat, nat)>
    decreases (if swap_for_y { id as int } else { ID_SPACE - id }),
    via spec_drain_walk_decreases
{
    let bin = bin_of(bins, id);
    let r_out = if swap_for_y {
        bin.reserve_y as nat
    } else {
        bin.reserve_x as nat
    };
    let p = spec_price(bin_step, id);
    if r_out == 0 {
        match spec_find_next(tree, swap_for_y, id) {
            None => Some((0, 0)),
            Some(j) => spec_drain_walk(bins, tree, fee_ppm, bin_step, swap_for_y, j),
        }
    } else if p == 0 || fee_ppm >= FEE_SCALE {
        None
    } else {
        let net = spec_drain_net(r_out, p, swap_for_y);
        let cost = net + spec_gross_fee(net, fee_ppm);
        match spec_find_next(tree, swap_for_y, id) {
            None => Some((cost, r_out)),
            Some(j) => match spec_drain_walk(bins, tree, fee_ppm, bin_step, swap_for_y, j) {
                None => None,
                Some((d, o)) => Some((cost + d, r_out + o)),
            },
        }
    }
}

/// An input beyond the total liquidity is a partial fill, exactly: where the
/// populated bins in the trade direction cost `d` to drain and hold `o` of
/// output, any input above `d` drains them all, receives exactly `o`, and
/// keeps the difference unconsumed - a positive leftover, never an error.
pub proof fn lemma_oversized_swap_partial(
    bins_w: Map<u32, Bin>,
    bins_d: Map<u32, Bin>,
    tree: Set<u32>,
    fee_ppm: nat,
    share: nat,
    bin_step: u16,
    swap_for_y: bool,
    id: u32,
    amount: nat,
    d: nat,
    o: nat,
)
    requires
        fee_ppm <= FEE_SCALE,
        share <= BASIS_POINT_MAX,
        id < ID_SPACE,
        forall|k: u32|
            (if swap_for_y {
                k <= id
            } else {
                k >= id
            }) ==> #[trigger] bin_of(bins_w, k) == bin_of(bins_d, k),
        spec_drain_walk(bins_d, tree, fee_ppm, bin_step, swap_for_y, id) == Some((d, o)),
        amount > d,
    ensures
        ({
            let w = spec_walk(bins_w, tree, fee_ppm, share, bin_step, swap_for_y, id, amount);
            w.left == amount - d && w.left > 0 && w.out == o
        }),
    decreases (if swap_for_y { id as int } else { ID_SPACE - id }),
{
    if swap_for_y {
        lemma_find_below_bound(tree, id);
    } else {
        lemma_find_above_bound(tree, id);
    }
    let bin = bin_of(bins_w, id);
    assert(bin == bin_of(bins_d, id));
    let r_out = if swap_for_y {
        bin.reserve_y as nat
    } else {
        bin.reserve_x as nat
    };
    let p = spec_price(bin_step, id);
    if r_out == 0 {
        match spec_find_next(tree, swap_for_y, id) {
            None => {},
            Some(j) => {
                lemma_oversized_swap_partial(
                    bins_w,
                    bins_d,
                    tree,
                    fee_ppm,
                    share,
                    bin_step,
                    swap_for_y,
                    j,
                    amount,
                    d,
                    o,
                );
            },
        }
    } else {
        // a populated bin on a drainable walk: the input covers its cost
        let net = spec_drain_net(r_out, p, swap_for_y);
        let cost = net + spec_gross_fee(net, fee_ppm);
        let prot = spec_protocol_cut(spec_gross_fee(net, fee_ppm), share);
        lemma_protocol_cut_le(spec_gross_fee(net, fee_ppm), share);
        let bins_w2 = bins_w.insert(
            id,
            spec_bin_after(
                bin,
                net,
                (spec_gross_fee(net, fee_ppm) - prot) as nat,
                r_out,
                swap_for_y,
            ),
        );
        match spec_find_next(tree, swap_for_y, id) {
            None => {},
            Some(j) => {
                let rest = spec_drain_walk(bins_d, tree, fee_ppm, bin_step, swap_for_y, j);
                assert forall|k: u32|
                    (if swap_for_y {
                        k <= j
                    } else {
                        k >= j
                    }) implies #[trigger] bin_of(bins_w2, k) == bin_of(bins_d, k) by {
                    assert(k != id);
                    assert(bin_of(bins_w2, k) == bin_of(bins_w, k));
                }
                lemma_oversized_swap_partial(
                    bins_w2,
                    bins_d,
                    tree,
                    fee_ppm,
                    share,
                    bin_step,
                    swap_for_y,
                    j,
                    (amount - cost) as nat,
                    (d - cost) as nat,
                    (o - r_out) as nat,
                );
            },
        }
    }
}

} // verus!
