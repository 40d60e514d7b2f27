//! The treasury manager's bookkeeping decisions.
//!
//! The manager tracks which accounts hold funds through it, how the funds
//! are allocated across adapters, and how a claim is settled from reserves
//! and adapters. Only the decisions live here: the admin gates, the storage
//! round trips and the messages to adapters stay with the host.

use vstd::prelude::*;
use crate::asset::Contract;
use crate::errors::LbError;

verus! {

/// Whether a holder may still act.
#[derive(Clone, Copy, Debug, PartialEq, Eq, Structural)]
pub enum Status {
    /// The holder is active.
    Active,
    /// The holder was removed; its holdings are frozen.
    Closed,
}

/// One token balance of a holder.
#[derive(Clone, Debug, PartialEq, Eq)]
pub struct Balance {
    /// The token's address.
    pub token: String,
    /// How much.
    pub amount: u128,
}

/// Everything the manager tracks for one holder.
#[derive(Clone, Debug, PartialEq, Eq)]
pub struct Holding {
    /// Balances per token.
    pub balances: Vec<Balance>,
    /// Pending unbondings per token.
    pub unbondings: Vec<Balance>,
    /// Whether the holder may still act.
    pub status: Status,
}

/// Registers a new holder: the address joins the list with a fresh, empty,
/// active holding. A holder registered twice is rejected, and only that.
pub fn add_holder(holders: &mut Vec<String>, holder: String) -> (r: Result<Holding, LbError>)
    ensures
        match r {
            Ok(h) => {
                &&& !old(holders)@.map_values(|s: String| s@).contains(holder@)
                &&& final(holders)@.len() == old(holders)@.len() + 1
                &&& final(holders)@[final(holders)@.len() - 1]@ == holder@
                &&& forall|i: int|
                    0 <= i < old(holders)@.len() ==> final(holders)@[i] == old(holders)@[i]
                &&& h.balances@.len() == 0
                &&& h.unbondings@.len() == 0
                &&& h.status == Status::Active
            },
            Err(e) => {
                &&& e == LbError::InvalidParameters
                &&& old(holders)@.map_values(|s: String| s@).contains(holder@)
                &&& final(holders)@ == old(holders)@
            },
        },
{
    let n = holders.len();
    let mut i: usize = 0;
    while i < n
        invariant
            i <= n,
            n == holders@.len(),
            holders@ == old(holders)@,
            forall|k: int| 0 <= k < i ==> holders@[k]@ != holder@,
        decreases n - i,
    {
        let existing = &holders[i];
        if *existing == holder {
            proof {
                assert(old(holders)@.map_values(|s: String| s@)[i as int] == holder@);
            }
            return Err(LbError::InvalidParameters);
        }
        i = i + 1;
    }
    proof {
        let ghost mapped = old(holders)@.map_values(|s: String| s@);
        assert forall|j: int| 0 <= j < mapped.len() implies #[trigger] mapped[j] != holder@ by {
            assert(holders@[j]@ != holder@);
        }
    }
    holders.push(holder);
    Ok(Holding { balances: Vec::new(), unbondings: Vec::new(), status: Status::Active })
}

/// Deactivates a holder: its holding is marked closed and otherwise kept.
/// Holders are never deleted outright, so their balances stay auditable.
pub fn remove_holder(holding: &mut Holding)
    ensures
        final(holding).status == Status::Closed,
        final(holding).balances == old(holding).balances,
        final(holding).unbondings == old(holding).unbondings,
{
    holding.status = Status::Closed;
}

/// One whole, in the allocation scale: portions are fractions of 10^18.
pub const ONE_HUNDRED_PERCENT: u128 = 1_000_000_000_000_000_000;

/// How an allocation is sized.
#[derive(Clone, Copy, Debug, PartialEq, Eq, Structural)]
pub enum AllocationType {
    /// A fixed amount.
    Amount,
    /// A fraction of what remains after the fixed amounts.
    Portion,
}

/// A requested allocation of managed funds to an adapter.
#[derive(Clone, Debug, PartialEq, Eq)]
pub struct Allocation {
    /// A display name.
    pub nick: Option<String>,
    /// The adapter receiving the funds.
    pub contract: Contract,
    /// The amount or portion, by `alloc_type`.
    pub amount: u128,
    /// How `amount` is read.
    pub alloc_type: AllocationType,
    /// Allowed drift before rebalancing, in the portion scale.
    pub tolerance: u128,
}

/// A stored allocation: the request plus its tracked balance.
#[derive(Clone, Debug, PartialEq, Eq)]
pub struct AllocationMeta {
    /// A display name.
    pub nick: Option<String>,
    /// The adapter holding the funds.
    pub contract: Contract,
    /// The amount or portion, by `alloc_type`.
    pub amount: u128,
    /// How `amount` is read.
    pub alloc_type: AllocationType,
    /// The balance last observed with the adapter.
    pub balance: u128,
    /// Allowed drift before rebalancing.
    pub tolerance: u128,
}

impl AllocationMeta {
    /// An exact copy.
    fn duplicate(&self) -> (r: AllocationMeta)
        ensures
            r == *self,
    {
        AllocationMeta {
            nick: match &self.nick {
                Some(n) => Some(n.clone()),
                None => None,
            },
            contract: Contract {
                address: self.contract.address.clone(),
                code_hash: self.contract.code_hash.clone(),
            },
            amount: self.amount,
            alloc_type: self.alloc_type,
            balance: self.balance,
            tolerance: self.tolerance,
        }
    }
}

/// Whether an allocation is portion-sized.
pub open spec fn is_portion(a: AllocationMeta) -> bool {
    a.alloc_type == AllocationType::Portion
}

/// Whether an allocation is amount-sized.
pub open spec fn is_amount(a: AllocationMeta) -> bool {
    a.alloc_type == AllocationType::Amount
}

/// The sum of the portion-sized allocations.
pub open spec fn portion_total(s: Seq<AllocationMeta>) -> nat
    decreases s.len(),
{
    if s.len() == 0 {
        0
    } else {
        portion_total(s.drop_last()) + (if is_portion(s.last()) {
            s.last().amount as nat
        } else {
            0
        })
    }
}

/// The allocation list after one allocate call: any earlier entry for the
/// same adapter is dropped, the new one joins with a zeroed balance, and the
/// list is arranged amount-sized entries first.
pub open spec fn spec_allocated(olds: Seq<AllocationMeta>, a: Allocation) -> Seq<AllocationMeta> {
    let staged = olds.filter(|m: AllocationMeta| m.contract.address@ != a.contract.address@).push(
        spec_staged_meta(a),
    );
    staged.filter(|m: AllocationMeta| is_amount(m)) + staged.filter(
        |m: AllocationMeta| is_portion(m),
    )
}

/// The stored form of a requested allocation.
pub open spec fn spec_staged_meta(a: Allocation) -> AllocationMeta {
    AllocationMeta {
        nick: a.nick,
        contract: a.contract,
        amount: a.amount,
        alloc_type: a.alloc_type,
        balance: 0,
        tolerance: a.tolerance,
    }
}

/// Stores one allocation: replaces any stale entry for the same adapter,
/// keeps amount-sized entries ahead of portion-sized ones, and rejects a
/// plan whose portions exceed one whole - and only such a plan.
pub fn allocate(apps: &mut Vec<AllocationMeta>, allocation: Allocation) -> (r: Result<(), LbError>)
    ensures
        ({
            let staged = old(apps)@.filter(
                |m: AllocationMeta| m.contract.address@ != allocation.contract.address@,
            ).push(spec_staged_meta(allocation));
            match r {
                Ok(()) => portion_total(staged) <= ONE_HUNDRED_PERCENT && final(apps)@
                    == spec_allocated(old(apps)@, allocation),
                Err(e) => e == LbError::InvalidParameters && portion_total(staged)
                    > ONE_HUNDRED_PERCENT && final(apps)@ == old(apps)@,
            }
        }),
{
    let n = apps.len();
    let mut staged: Vec<AllocationMeta> = Vec::new();
    let mut i: usize = 0;
    while i < n
        invariant
            i <= n,
            n == apps@.len(),
            apps@ == old(apps)@,
            staged@ == apps@.take(i as int).filter(
                |m: AllocationMeta| m.contract.address@ != allocation.contract.address@,
            ),
        decreases n - i,
    {
        let ghost pred = |m: AllocationMeta| m.contract.address@ != allocation.contract.address@;
        let entry = &apps[i];
        proof {
            reveal(Seq::filter);
            assert(apps@.take(i as int + 1).drop_last() =~= apps@.take(i as int));
            assert(apps@.take(i as int + 1).last() == apps@[i as int]);
        }
        if entry.contract.address != allocation.contract.address {
            let copy = apps[i].duplicate();
            staged.push(copy);
        }
        i = i + 1;
    }
    proof {
        assert(apps@.take(n as int) =~= apps@);
    }
    staged.push(
        AllocationMeta {
            nick: allocation.nick,
            contract: allocation.contract,
            amount: allocation.amount,
            alloc_type: allocation.alloc_type,
            balance: 0,
            tolerance: allocation.tolerance,
        },
    );
    // check the portion budget
    let m = staged.len();
    let mut total: u128 = 0;
    let mut j: usize = 0;
    while j < m
        invariant
            j <= m,
            m == staged@.len(),
            apps@ == old(apps)@,
            staged@ == old(apps)@.filter(
                |m0: AllocationMeta| m0.contract.address@ != allocation.contract.address@,
            ).push(spec_staged_meta(allocation)),
            total as nat == portion_total(staged@.take(j as int)),
        decreases m - j,
    {
        proof {
            assert(staged@.take(j as int + 1).drop_last() =~= staged@.take(j as int));
            assert(staged@.take(j as int + 1).last() == staged@[j as int]);
            lemma_portion_total_prefix_le(staged@, j as int + 1);
        }
        let entry = &staged[j];
        if matches!(entry.alloc_type, AllocationType::Portion) {
            total = match total.checked_add(entry.amount) {
                Some(t) => t,
                None => {
                    proof {
                        assert(portion_total(staged@.take(j as int + 1)) > u128::MAX);
                        assert(portion_total(staged@) > ONE_HUNDRED_PERCENT);
                    }
                    return Err(LbError::InvalidParameters);
                },
            };
        }
        j = j + 1;
    }
    proof {
        assert(staged@.take(m as int) =~= staged@);
    }
    if total > ONE_HUNDRED_PERCENT {
        return Err(LbError::InvalidParameters);
    }
    // arrange: amount-sized entries first, portions after, both in order
    let mut arranged: Vec<AllocationMeta> = Vec::new();
    let mut k: usize = 0;
    while k < m
        invariant
            k <= m,
            m == staged@.len(),
            apps@ == old(apps)@,
            staged@ == old(apps)@.filter(
                |m0: AllocationMeta| m0.contract.address@ != allocation.contract.address@,
            ).push(spec_staged_meta(allocation)),
            arranged@ == staged@.take(k as int).filter(|m0: AllocationMeta| is_amount(m0)),
        decreases m - k,
    {
        proof {
            reveal(Seq::filter);
            assert(staged@.take(k as int + 1).drop_last() =~= staged@.take(k as int));
            assert(staged@.take(k as int + 1).last() == staged@[k as int]);
        }
        let entry = &staged[k];
        if matches!(entry.alloc_type, AllocationType::Amount) {
            let copy = staged[k].duplicate();
            arranged.push(copy);
        }
        k = k + 1;
    }
    let mut k2: usize = 0;
    while k2 < m
        invariant
            k2 <= m,
            m == staged@.len(),
            apps@ == old(apps)@,
            staged@ == old(apps)@.filter(
                |m0: AllocationMeta| m0.contract.address@ != allocation.contract.address@,
            ).push(spec_staged_meta(allocation)),
            arranged@ == staged@.filter(|m0: AllocationMeta| is_amount(m0)) + staged@.take(
                k2 as int,
            ).filter(|m0: AllocationMeta| is_portion(m0)),
        decreases m - k2,
    {
        proof {
            reveal(Seq::filter);
            assert(staged@.take(k2 as int + 1).drop_last() =~= staged@.take(k2 as int));
            assert(staged@.take(k2 as int + 1).last() == staged@[k2 as int]);
        }
        let entry = &staged[k2];
        if matches!(entry.alloc_type, AllocationType::Portion) {
            let copy = staged[k2].duplicate();
            arranged.push(copy);
        }
        k2 = k2 + 1;
    }
    proof {
        assert(staged@.take(m as int) =~= staged@);
    }
    *apps = arranged;
    Ok(())
}

/// A prefix of the portion sum never exceeds the whole sum.
proof fn lemma_portion_total_prefix_le(s: Seq<AllocationMeta>, k: int)
    requires
        0 <= k <= s.len(),
    ensures
        portion_total(s.take(k)) <= portion_total(s),
    decreases s.len() - k,
{
    if k < s.len() {
        lemma_portion_total_prefix_le(s, k + 1);
        assert(s.take(k + 1).drop_last() =~= s.take(k));
    }
    if k == s.len() {
        assert(s.take(k) =~= s);
    }
}

/// What claiming from the adapters yields, walking them in order: the total
/// that the adapters pay out, and the shortfall still uncovered. Claiming
/// stops as soon as the need is met; an adapter that pays anything pays its
/// whole claimable amount.
pub open spec fn spec_claimed(claimable: Seq<u128>, need: nat) -> (nat, nat)
    decreases claimable.len(),
{
    if claimable.len() == 0 || need == 0 {
        (0, need)
    } else {
        let c = claimable.first() as nat;
        if c == 0 {
            spec_claimed(claimable.drop_first(), need)
        } else {
            let left = if c > need {
                0
            } else {
                (need - c) as nat
            };
            let rec = spec_claimed(claimable.drop_first(), left);
            (c + rec.0, rec.1)
        }
    }
}

/// Settles a claim of `unbonding` funds: the reserves on hand are used
/// first, adapters are drawn on in order for the rest, and the holder is
/// sent what was gathered, never more than the unbonding. Returns the total
/// drawn from adapters, the amount sent, and the unbonding left open. A sum
/// beyond 128 bits aborts with an overflow error.
pub fn claim(unbonding: u128, reserves: u128, claimable: &Vec<u128>) -> (r: Result<
    (u128, u128, u128),
    LbError,
>)
    ensures
        ({
            let need: nat = if unbonding > reserves {
                (unbonding - reserves) as nat
            } else {
                0
            };
            let c = spec_claimed(claimable@, need);
            match r {
                Ok((total_claimed, send_amount, left_open)) => {
                    &&& total_claimed == c.0
                    &&& send_amount == (if unbonding <= reserves + total_claimed {
                        unbonding as nat
                    } else {
                        (reserves + total_claimed) as nat
                    })
                    &&& left_open == unbonding - send_amount
                },
                Err(e) => e == LbError::ArithmeticOverflow && (c.0 > u128::MAX || reserves + c.0
                    > u128::MAX),
            }
        }),
{
    let need0: u128 = if unbonding > reserves {
        unbonding - reserves
    } else {
        0
    };
    let mut need = need0;
    let mut total_claimed: u128 = 0;
    let n = claimable.len();
    let mut i: usize = 0;
    proof {
        assert(claimable@.skip(0) =~= claimable@);
    }
    while i < n && need > 0
        invariant
            i <= n,
            n == claimable@.len(),
            need0 == (if unbonding > reserves {
                (unbonding - reserves) as u128
            } else {
                0u128
            }),
            spec_claimed(claimable@, need0 as nat).0 == total_claimed + spec_claimed(
                claimable@.skip(i as int),
                need as nat,
            ).0,
            spec_claimed(claimable@, need0 as nat).1 == spec_claimed(
                claimable@.skip(i as int),
                need as nat,
            ).1,
            need <= need0,
        decreases n - i,
    {
        let ghost rest = claimable@.skip(i as int);
        proof {
            assert(rest.first() == claimable@[i as int]);
            assert(rest.drop_first() =~= claimable@.skip(i as int + 1));
        }
        let c = claimable[i];
        if c > 0 {
            if c > need {
                need = 0;
            } else {
                need = need - c;
            }
            total_claimed = match total_claimed.checked_add(c) {
                Some(t) => t,
                None => {
                    proof {
                        assert(spec_claimed(claimable@, need0 as nat).0 > u128::MAX);
                    }
                    return Err(LbError::ArithmeticOverflow);
                },
            };
        }
        i = i + 1;
    }
    proof {
        if i == n {
            assert(claimable@.skip(n as int) =~= Seq::<u128>::empty());
        }
        assert(spec_claimed(claimable@.skip(i as int), need as nat).0 == 0);
        assert(total_claimed as nat == spec_claimed(claimable@, need0 as nat).0);
    }
    let gathered = match reserves.checked_add(total_claimed) {
        Some(g) => g,
        None => {
            return Err(LbError::ArithmeticOverflow);
        },
    };
    let send_amount = if unbonding <= gathered {
        unbonding
    } else {
        gathered
    };
    Ok((total_claimed, send_amount, unbonding - send_amount))
}

/// The manager's configuration.
#[derive(Clone, Debug, PartialEq, Eq)]
pub struct Config {
    /// The admin registry consulted for privileged calls.
    pub admin_auth: Contract,
    /// The treasury behind the manager.
    pub treasury: String,
}

/// Replaces the configuration. The admin gate runs with the host before
/// this is reached.
pub fn try_update_config(config: &mut Config, new_config: Config)
    ensures
        *final(config) == new_config,
{
    *config = new_config;
}

/// Registers an asset: its address joins the list and it starts with no
/// allocations.
pub fn try_register_asset(asset_list: &mut Vec<String>, address: String) -> (r: Vec<
    AllocationMeta,
>)
    ensures
        final(asset_list)@.len() == old(asset_list)@.len() + 1,
        final(asset_list)@[final(asset_list)@.len() - 1]@ == address@,
        forall|i: int|
            0 <= i < old(asset_list)@.len() ==> final(asset_list)@[i] == old(asset_list)@[i],
        r@.len() == 0,
{
    asset_list.push(address);
    Vec::new()
}

} // verus!
