//! The pair's fee configuration and dynamic volatility state.
//!
//! The dynamic part is a small state machine advanced on every price-affecting
//! operation: the volatility accumulator grows with the distance the active
//! bin moved, decays after quiet periods, and is capped by configuration. The
//! total swap fee is a base part plus a part quadratic in the accumulator.

use vstd::prelude::*;
use crate::errors::LbError;
use crate::tree::ID_SPACE;

verus! {

/// Scale of protocol-share and reduction-factor values: 10_000 is 100%.
pub const BASIS_POINT_MAX: u16 = 10_000;

/// Scale of fee fractions: 1_000_000 (parts per million) is 100%.
pub const FEE_SCALE: u64 = 1_000_000;

/// The hard cap on the total swap fee: 100%.
pub const MAX_FEE: u64 = 1_000_000;

/// Divisor of the quadratic term in the variable fee.
pub const VARIABLE_FEE_PRECISION: u64 = 1_000_000_000_000;

/// The static fee configuration of a pair, set at creation.
#[derive(Clone, Copy, Debug, PartialEq, Eq, Structural)]
pub struct StaticFeeParameters {
    /// Scales the flat part of the fee together with the bin step.
    pub base_factor: u16,
    /// Seconds below which the reference id is left alone.
    pub filter_period: u16,
    /// Seconds after which the volatility reference decays.
    pub decay_period: u16,
    /// Decay multiplier in basis points.
    pub reduction_factor: u16,
    /// Scales the variable part of the fee.
    pub variable_fee_control: u32,
    /// The protocol's cut of collected fees, in basis points.
    pub protocol_share: u16,
    /// Upper bound on the volatility accumulator.
    pub max_volatility_accumulator: u32,
}

impl StaticFeeParameters {
    /// The configured bounds of §static parameters.
    pub open spec fn valid(self) -> bool {
        &&& self.protocol_share <= BASIS_POINT_MAX
        &&& self.reduction_factor <= BASIS_POINT_MAX
        &&& self.filter_period <= self.decay_period
    }
}

/// The full fee/volatility register of one pair.
#[derive(Clone, Copy, Debug, PartialEq, Eq, Structural)]
pub struct PairParameters {
    /// The static configuration.
    pub statics: StaticFeeParameters,
    /// Decaying measure of recent price movement.
    pub volatility_accumulator: u32,
    /// The accumulator value the current reference period started from.
    pub volatility_reference: u32,
    /// The bin id volatility is measured against.
    pub id_reference: u32,
    /// Timestamp of the last update, in seconds.
    pub time_of_last_update: u64,
    /// Index of the oracle sample the pair last wrote.
    pub oracle_sample_id: u16,
    /// The bin that defines the pair's spot price.
    pub active_bin_id: u32,
}

impl PairParameters {
    /// Configuration bounds plus the reachable-state invariants.
    pub open spec fn wf(self) -> bool {
        &&& self.statics.valid()
        &&& self.volatility_accumulator <= self.statics.max_volatility_accumulator
        &&& self.volatility_reference <= self.statics.max_volatility_accumulator
        &&& self.id_reference < ID_SPACE
        &&& self.active_bin_id < ID_SPACE
    }

    /// A fresh register: no volatility yet, reference at the starting bin.
    ///
    /// Rejects a configuration that violates its bounds, and only such a
    /// configuration.
    pub fn new(statics: StaticFeeParameters, active_id: u32, now: u64) -> (r: Result<
        PairParameters,
        LbError,
    >)
        requires
            active_id < ID_SPACE,
        ensures
            match r {
                Ok(p) => statics.valid() && p.wf() && p.statics == statics && p.active_bin_id
                    == active_id && p.id_reference == active_id && p.volatility_accumulator == 0
                    && p.volatility_reference == 0 && p.time_of_last_update == now
                    && p.oracle_sample_id == 0,
                Err(e) => !statics.valid() && e == LbError::InvalidParameters,
            },
    {
        if statics.protocol_share > BASIS_POINT_MAX || statics.reduction_factor > BASIS_POINT_MAX
            || statics.filter_period > statics.decay_period {
            return Err(LbError::InvalidParameters);
        }
        Ok(
            PairParameters {
                statics,
                volatility_accumulator: 0,
                volatility_reference: 0,
                id_reference: active_id,
                time_of_last_update: now,
                oracle_sample_id: 0,
                active_bin_id: active_id,
            },
        )
    }

    /// How far the active id moved from the reference.
    pub open spec fn spec_id_delta(self, active_id: u32) -> nat {
        if active_id >= self.id_reference {
            (active_id - self.id_reference) as nat
        } else {
            (self.id_reference - active_id) as nat
        }
    }

    /// The decayed volatility reference: accumulator times reduction factor.
    pub open spec fn spec_decayed_reference(self) -> nat {
        (self.volatility_accumulator as nat * self.statics.reduction_factor as nat) / (
        BASIS_POINT_MAX as nat)
    }

    /// The new accumulator: reference plus controlled movement, capped.
    pub open spec fn spec_new_accumulator(vr: nat, vfc: nat, delta: nat, cap: nat) -> nat {
        if vr + vfc * delta > cap {
            cap
        } else {
            vr + vfc * delta
        }
    }

    /// The register after one advance of the volatility state machine.
    pub open spec fn spec_refresh(self, active_id: u32, now: u64) -> PairParameters {
        let elapsed = now - self.time_of_last_update;
        let new_ref = if elapsed >= self.statics.filter_period as u64 {
            active_id
        } else {
            self.id_reference
        };
        let new_vr = if elapsed >= self.statics.filter_period as u64 {
            if elapsed >= self.statics.decay_period as u64 {
                self.spec_decayed_reference()
            } else {
                self.volatility_accumulator as nat
            }
        } else {
            self.volatility_reference as nat
        };
        let new_va = PairParameters::spec_new_accumulator(
            new_vr,
            self.statics.variable_fee_control as nat,
            self.spec_id_delta(active_id),
            self.statics.max_volatility_accumulator as nat,
        );
        PairParameters {
            volatility_accumulator: new_va as u32,
            volatility_reference: new_vr as u32,
            id_reference: new_ref,
            time_of_last_update: now,
            ..self
        }
    }

    /// Advances the volatility state machine for a price-affecting operation
    /// heading to `active_id` at time `now` (§volatility-decay policy):
    /// the id delta is measured against the old reference; after a quiet
    /// `filter_period` the reference id moves and the volatility reference is
    /// refreshed (decayed, after a full `decay_period`); the accumulator is
    /// recomputed and capped.
    pub fn update_references(&mut self, active_id: u32, now: u64)
        requires
            old(self).wf(),
            active_id < ID_SPACE,
            now >= old(self).time_of_last_update,
        ensures
            final(self).wf(),
            final(self).statics == old(self).statics,
            final(self).active_bin_id == old(self).active_bin_id,
            final(self).oracle_sample_id == old(self).oracle_sample_id,
            final(self).time_of_last_update == now,
            final(self).id_reference == if now - old(self).time_of_last_update
                >= old(self).statics.filter_period as u64 {
                active_id
            } else {
                old(self).id_reference
            },
            final(self).volatility_reference as nat == if now - old(self).time_of_last_update
                >= old(self).statics.filter_period as u64 {
                if now - old(self).time_of_last_update >= old(self).statics.decay_period as u64 {
                    old(self).spec_decayed_reference()
                } else {
                    old(self).volatility_accumulator as nat
                }
            } else {
                old(self).volatility_reference as nat
            },
            final(self).volatility_accumulator as nat == PairParameters::spec_new_accumulator(
                final(self).volatility_reference as nat,
                old(self).statics.variable_fee_control as nat,
                old(self).spec_id_delta(active_id),
                old(self).statics.max_volatility_accumulator as nat,
            ),
            *final(self) == old(self).spec_refresh(active_id, now),
    {
        let ghost va0: nat = self.volatility_accumulator as nat;
        let ghost rf0: nat = self.statics.reduction_factor as nat;
        let ghost vfc0: nat = self.statics.variable_fee_control as nat;
        let elapsed: u64 = now - self.time_of_last_update;
        let delta: u32 = if active_id >= self.id_reference {
            active_id - self.id_reference
        } else {
            self.id_reference - active_id
        };
        if elapsed >= self.statics.filter_period as u64 {
            self.id_reference = active_id;
            if elapsed >= self.statics.decay_period as u64 {
                proof {
                    let va1: nat = self.volatility_accumulator as nat;
                    let rf1: nat = self.statics.reduction_factor as nat;
                    assert(va1 * rf1 <= 4294967295nat * 10000nat && va1 * rf1 <= va1 * 10000)
                        by (nonlinear_arith)
                        requires
                            va1 <= 4294967295nat,
                            rf1 <= 10000nat,
                    ;
                    vstd::arithmetic::div_mod::lemma_div_is_ordered(
                        (va1 * rf1) as int,
                        (va1 * 10000) as int,
                        10000,
                    );
                    assert((va1 * 10000) as int / 10000int == va1 as int) by {
                        vstd::arithmetic::div_mod::lemma_div_by_multiple(va1 as int, 10000);
                    }
                    assert(va0 == va1 && rf0 == rf1);
                }
                let decayed: u64 = (self.volatility_accumulator as u64)
                    * (self.statics.reduction_factor as u64) / (BASIS_POINT_MAX as u64);
                self.volatility_reference = decayed as u32;
            } else {
                self.volatility_reference = self.volatility_accumulator;
            }
        }
        proof {
            let vfc1: nat = self.statics.variable_fee_control as nat;
            assert(vfc1 * (delta as nat) <= 4294967295nat * 0x1000000nat) by (nonlinear_arith)
                requires
                    vfc1 <= 4294967295nat,
                    delta <= 0x1000000u32,
            ;
            assert(vfc0 == vfc1);
        }
        let grown: u64 = (self.volatility_reference as u64) + (
        self.statics.variable_fee_control as u64) * (delta as u64);
        if grown > self.statics.max_volatility_accumulator as u64 {
            self.volatility_accumulator = self.statics.max_volatility_accumulator;
        } else {
            self.volatility_accumulator = grown as u32;
        }
        self.time_of_last_update = now;
    }

    /// Sets the active bin after a completed swap or seeding operation.
    pub fn set_active_id(&mut self, active_id: u32)
        requires
            old(self).wf(),
            active_id < ID_SPACE,
        ensures
            final(self).wf(),
            *final(self) == (PairParameters { active_bin_id: active_id, ..*old(self) }),
    {
        self.active_bin_id = active_id;
    }

    /// The flat part of the fee, in parts per million.
    pub open spec fn spec_base_fee(self, bin_step: u16) -> nat {
        self.statics.base_factor as nat * bin_step as nat
    }

    /// The volatility-driven part of the fee, in parts per million:
    /// quadratic in the accumulator, scaled by the bin step squared and the
    /// variable fee control.
    pub open spec fn spec_variable_fee(self, bin_step: u16) -> nat {
        (self.statics.variable_fee_control as nat * (self.volatility_accumulator as nat
            * bin_step as nat) * (self.volatility_accumulator as nat * bin_step as nat)) / (
        VARIABLE_FEE_PRECISION as nat)
    }

    /// The total swap fee in parts per million, capped at `MAX_FEE`.
    pub open spec fn spec_total_fee(self, bin_step: u16) -> nat {
        if self.spec_base_fee(bin_step) + self.spec_variable_fee(bin_step) > MAX_FEE as nat {
            MAX_FEE as nat
        } else {
            self.spec_base_fee(bin_step) + self.spec_variable_fee(bin_step)
        }
    }

    /// Computes the total fee. The cap means the result never exceeds 100%.
    pub fn total_fee(&self, bin_step: u16) -> (r: u64)
        requires
            bin_step <= 10000,
        ensures
            r as nat == self.spec_total_fee(bin_step),
            r <= MAX_FEE,
    {
        proof {
            assert((self.statics.base_factor as nat) * (bin_step as nat) <= 65535nat * 10000nat)
                by (nonlinear_arith)
                requires
                    self.statics.base_factor <= 65535nat,
                    bin_step <= 10000nat,
            ;
            assert((self.volatility_accumulator as nat) * (bin_step as nat) <= 4294967295nat
                * 10000nat) by (nonlinear_arith)
                requires
                    self.volatility_accumulator <= 4294967295nat,
                    bin_step <= 10000nat,
            ;
        }
        let base: u64 = (self.statics.base_factor as u64) * (bin_step as u64);
        let vabs: u64 = (self.volatility_accumulator as u64) * (bin_step as u64);
        proof {
            assert(((self.statics.variable_fee_control as nat) * (vabs as nat) <= 4294967295nat
                * 42949672950000nat) && ((self.statics.variable_fee_control as nat) * (
            vabs as nat) * (vabs as nat) <= 4294967295nat * 42949672950000nat
                * 42949672950000nat)) by (nonlinear_arith)
                requires
                    self.statics.variable_fee_control <= 4294967295nat,
                    vabs <= 42949672950000nat,
            ;
        }
        let quad: u128 = (self.statics.variable_fee_control as u128) * (vabs as u128) * (
        vabs as u128);
        let var: u128 = quad / (VARIABLE_FEE_PRECISION as u128);
        proof {
            vstd::arithmetic::div_mod::lemma_div_nonincreasing(
                quad as int,
                VARIABLE_FEE_PRECISION as int,
            );
        }
        let total: u128 = (base as u128) + var;
        if total > MAX_FEE as u128 {
            MAX_FEE
        } else {
            total as u64
        }
    }

    /// The fee bounds hold of every reachable state: the total fee is never
    /// negative and never exceeds the configured maximum.
    pub proof fn lemma_fee_cap(self, bin_step: u16)
        ensures
            0 <= self.spec_total_fee(bin_step) <= MAX_FEE as nat,
    {
    }
}

} // verus!
