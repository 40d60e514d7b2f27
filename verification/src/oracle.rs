//! A capacity-bounded buffer of time-stamped cumulative samples.
//!
//! Each sample carries running sums: bin id times seconds, volatility times
//! seconds, and the count of bin crossings. A fresh write within a sample's
//! lifetime folds into the newest slot; otherwise a new slot is taken and,
//! once the capacity is reached, the oldest sample is evicted. Lookups
//! between two retained samples interpolate linearly.

use vstd::prelude::*;
use crate::errors::LbError;

verus! {

/// One time-stamped cumulative snapshot.
#[derive(Clone, Copy, Debug, PartialEq, Eq, Structural)]
pub struct OracleSample {
    /// Running sum of active id times elapsed seconds.
    pub cumulative_id: u64,
    /// Running sum of the volatility accumulator times elapsed seconds.
    pub cumulative_volatility: u64,
    /// Running count of bins crossed by swaps.
    pub cumulative_bin_crossed: u64,
    /// When this sample was created or last folded into, in seconds.
    pub created_at: u64,
}

/// The oracle: retained samples ordered from oldest to newest.
pub struct Oracle {
    samples: Vec<OracleSample>,
    capacity: u16,
    sample_lifetime: u8,
}

/// Linear interpolation of one cumulative field between two samples.
pub open spec fn spec_interp(c0: u64, c1: u64, t0: u64, t1: u64, t: u64) -> nat
    recommends
        t0 <= t <= t1,
        t0 < t1,
        c0 <= c1,
{
    c0 as nat + ((c1 - c0) as nat * (t - t0) as nat) / ((t1 - t0) as nat)
}

/// An interpolated value never leaves the band of its two bracketing
/// samples: for cumulative values `c0` at `t0` and `c1` at `t1`, a lookup at
/// `t` with `t0 <= t <= t1` lies between `c0` and `c1` inclusive.
pub proof fn lemma_interp_bounded(c0: u64, c1: u64, t0: u64, t1: u64, t: u64)
    requires
        t0 <= t <= t1,
        t0 < t1,
        c0 <= c1,
    ensures
        c0 as nat <= spec_interp(c0, c1, t0, t1, t) <= c1 as nat,
{
    let dc: nat = (c1 - c0) as nat;
    let dt: nat = (t - t0) as nat;
    let span: nat = (t1 - t0) as nat;
    assert(dc * dt <= dc * span) by (nonlinear_arith)
        requires
            dt <= span,
    ;
    vstd::arithmetic::div_mod::lemma_div_is_ordered((dc * dt) as int, (dc * span) as int, span as int);
    assert((dc * span) as int / (span as int) == dc as int) by {
        vstd::arithmetic::div_mod::lemma_div_by_multiple(dc as int, span as int);
    }
}

impl Oracle {
    /// Samples are ordered strictly by time and their sums never decrease.
    pub closed spec fn wf(self) -> bool {
        &&& 1 <= self.capacity
        &&& 1 <= self.samples@.len() <= self.capacity
        &&& forall|i: int, j: int|
            0 <= i < j < self.samples@.len() ==> (#[trigger] self.samples@[i]).created_at
                < (#[trigger] self.samples@[j]).created_at
        &&& forall|i: int, j: int|
            0 <= i < j < self.samples@.len() ==> (#[trigger] self.samples@[i]).cumulative_id
                <= (#[trigger] self.samples@[j]).cumulative_id
                && self.samples@[i].cumulative_volatility <= self.samples@[j].cumulative_volatility
                && self.samples@[i].cumulative_bin_crossed
                <= self.samples@[j].cumulative_bin_crossed
    }

    /// The retained samples, oldest first.
    pub closed spec fn view(self) -> Seq<OracleSample> {
        self.samples@
    }

    /// The configured capacity.
    pub closed spec fn spec_capacity(self) -> u16 {
        self.capacity
    }

    /// The configured sample lifetime in seconds.
    pub closed spec fn spec_lifetime(self) -> u8 {
        self.sample_lifetime
    }

    /// A new oracle holding one zeroed sample created `now`.
    pub fn new(capacity: u16, sample_lifetime: u8, now: u64) -> (o: Oracle)
        requires
            capacity >= 1,
        ensures
            o.wf(),
            o.spec_capacity() == capacity,
            o.spec_lifetime() == sample_lifetime,
            o@.len() == 1,
            o@[0] == (OracleSample {
                cumulative_id: 0,
                cumulative_volatility: 0,
                cumulative_bin_crossed: 0,
                created_at: now,
            }),
    {
        let mut samples: Vec<OracleSample> = Vec::new();
        samples.push(
            OracleSample {
                cumulative_id: 0,
                cumulative_volatility: 0,
                cumulative_bin_crossed: 0,
                created_at: now,
            },
        );
        Oracle { samples, capacity, sample_lifetime }
    }

    /// Timestamp of the newest retained sample.
    pub fn last_updated(&self) -> (r: u64)
        requires
            self.wf(),
        ensures
            r == self@[self@.len() - 1].created_at,
    {
        self.samples[self.samples.len() - 1].created_at
    }

    /// Timestamp of the oldest retained sample.
    pub fn first_timestamp(&self) -> (r: u64)
        requires
            self.wf(),
        ensures
            r == self@[0].created_at,
    {
        self.samples[0].created_at
    }

    /// Number of retained samples.
    pub fn active_size(&self) -> (r: u16)
        requires
            self.wf(),
        ensures
            r == self@.len(),
    {
        self.samples.len() as u16
    }

    /// The configured capacity.
    pub fn capacity(&self) -> (r: u16)
        requires
            self.wf(),
        ensures
            r == self.spec_capacity(),
    {
        self.capacity
    }

    /// The configured sample lifetime.
    pub fn lifetime(&self) -> (r: u8)
        requires
            self.wf(),
        ensures
            r == self.spec_lifetime(),
    {
        self.sample_lifetime
    }

    /// The sample that `now` extends the newest one into.
    pub open spec fn spec_grown(last: OracleSample, active_id: u32, volatility: u32, crossed: u64, now: u64) -> OracleSample {
        OracleSample {
            cumulative_id: (last.cumulative_id + active_id * (now - last.created_at)) as u64,
            cumulative_volatility: (last.cumulative_volatility + volatility * (now
                - last.created_at)) as u64,
            cumulative_bin_crossed: (last.cumulative_bin_crossed + crossed) as u64,
            created_at: now,
        }
    }

    /// Whether growing the newest sample overflows a cumulative field.
    pub open spec fn spec_grow_overflows(last: OracleSample, active_id: u32, volatility: u32, crossed: u64, now: u64) -> bool {
        ||| last.cumulative_id + active_id * (now - last.created_at) > u64::MAX
        ||| last.cumulative_volatility + volatility * (now - last.created_at) > u64::MAX
        ||| last.cumulative_bin_crossed + crossed > u64::MAX
    }

    /// Records the state at `now`: within the newest sample's lifetime the
    /// sample is folded in place, otherwise a new slot is written, evicting
    /// the oldest sample once the buffer is full. An overflow of a running
    /// sum aborts the push with no change.
    pub fn push(&mut self, active_id: u32, volatility: u32, crossed: u64, now: u64) -> (r: Result<
        (),
        LbError,
    >)
        requires
            old(self).wf(),
            now >= old(self)@[old(self)@.len() - 1].created_at,
        ensures
            final(self).wf(),
            final(self).spec_capacity() == old(self).spec_capacity(),
            final(self).spec_lifetime() == old(self).spec_lifetime(),
            match r {
                Ok(()) => {
                    let last = old(self)@[old(self)@.len() - 1];
                    let grown = Oracle::spec_grown(last, active_id, volatility, crossed, now);
                    &&& !Oracle::spec_grow_overflows(last, active_id, volatility, crossed, now)
                    &&& if now - last.created_at < old(self).spec_lifetime() as u64 || now
                        == last.created_at {
                        final(self)@ == old(self)@.update(old(self)@.len() - 1, grown)
                    } else if old(self)@.len() < old(self).spec_capacity() {
                        final(self)@ == old(self)@.push(grown)
                    } else {
                        final(self)@ == old(self)@.subrange(1, old(self)@.len() as int).push(
                            grown,
                        )
                    }
                },
                Err(e) => {
                    &&& e == LbError::ArithmeticOverflow
                    &&& Oracle::spec_grow_overflows(
                        old(self)@[old(self)@.len() - 1],
                        active_id,
                        volatility,
                        crossed,
                        now,
                    )
                    &&& *final(self) == *old(self)
                },
            },
    {
        let n = self.samples.len();
        let last = self.samples[n - 1];
        let dt: u64 = now - last.created_at;
        let inc_id: u64 = match (active_id as u64).checked_mul(dt) {
            Some(x) => x,
            None => {
                return Err(LbError::ArithmeticOverflow);
            },
        };
        let inc_vol: u64 = match (volatility as u64).checked_mul(dt) {
            Some(x) => x,
            None => {
                return Err(LbError::ArithmeticOverflow);
            },
        };
        let c_id: u64 = match last.cumulative_id.checked_add(inc_id) {
            Some(x) => x,
            None => {
                return Err(LbError::ArithmeticOverflow);
            },
        };
        let c_vol: u64 = match last.cumulative_volatility.checked_add(inc_vol) {
            Some(x) => x,
            None => {
                return Err(LbError::ArithmeticOverflow);
            },
        };
        let c_bin: u64 = match last.cumulative_bin_crossed.checked_add(crossed) {
            Some(x) => x,
            None => {
                return Err(LbError::ArithmeticOverflow);
            },
        };
        let grown = OracleSample {
            cumulative_id: c_id,
            cumulative_volatility: c_vol,
            cumulative_bin_crossed: c_bin,
            created_at: now,
        };
        if dt < self.sample_lifetime as u64 || dt == 0 {
            self.samples.set(n - 1, grown);
            proof {
                assert(self.samples@ =~= old(self).samples@.drop_last().push(grown));
                lemma_wf_after_append(old(self).samples@.drop_last(), self.samples@, grown);
                assert(self.samples@ =~= old(self)@.update(old(self)@.len() - 1, grown));
            }
        } else if n < self.capacity as usize {
            self.samples.push(grown);
            proof {
                lemma_wf_after_append(old(self).samples@, self.samples@, grown);
            }
        } else {
            self.samples.remove(0);
            self.samples.push(grown);
            proof {
                assert(self.samples@ =~= old(self)@.subrange(1, old(self)@.len() as int).push(
                    grown,
                ));
                lemma_wf_after_append(
                    old(self).samples@.subrange(1, old(self)@.len() as int),
                    self.samples@,
                    grown,
                );
            }
        }
        Ok(())
    }

    /// What a successful lookup at `t` returns, over the retained samples
    /// `samples`: the exact sums where `t` hits a sample, else the linear
    /// interpolation between the bracketing pair. The bracket index is pinned
    /// by the samples' strict time order.
    pub open spec fn spec_lookup(samples: Seq<OracleSample>, t: u64, c: (u64, u64, u64)) -> bool {
        exists|i: int|
            {
                &&& 0 <= i < samples.len()
                &&& (#[trigger] samples[i]).created_at <= t
                &&& (if t == samples[i].created_at {
                    c.0 == samples[i].cumulative_id && c.1 == samples[i].cumulative_volatility
                        && c.2 == samples[i].cumulative_bin_crossed
                } else {
                    &&& i + 1 < samples.len()
                    &&& t < samples[i + 1].created_at
                    &&& c.0 as nat == spec_interp(
                        samples[i].cumulative_id,
                        samples[i + 1].cumulative_id,
                        samples[i].created_at,
                        samples[i + 1].created_at,
                        t,
                    )
                    &&& c.1 as nat == spec_interp(
                        samples[i].cumulative_volatility,
                        samples[i + 1].cumulative_volatility,
                        samples[i].created_at,
                        samples[i + 1].created_at,
                        t,
                    )
                    &&& c.2 as nat == spec_interp(
                        samples[i].cumulative_bin_crossed,
                        samples[i + 1].cumulative_bin_crossed,
                        samples[i].created_at,
                        samples[i + 1].created_at,
                        t,
                    )
                })
            }
    }

    /// Whether `t` falls within the retained history.
    pub open spec fn spec_in_range(self, t: u64) -> bool {
        self@[0].created_at <= t <= self@[self@.len() - 1].created_at
    }

    /// Looks up the cumulative values at `t`: the exact sums if `t` hits a
    /// retained sample, else the linear interpolation between the two
    /// bracketing samples. A timestamp outside the retained history is an
    /// `OracleRangeError` - the oracle's history is finite.
    pub fn get_sample_at(&self, t: u64) -> (r: Result<(u64, u64, u64), LbError>)
        requires
            self.wf(),
        ensures
            match r {
                Ok(c) => self.spec_in_range(t) && Oracle::spec_lookup(self@, t, c),
                Err(e) => e == LbError::OracleRangeError && !self.spec_in_range(t),
            },
    {
        let n = self.samples.len();
        if t < self.samples[0].created_at || t > self.samples[n - 1].created_at {
            return Err(LbError::OracleRangeError);
        }
        // binary search for the newest sample at or before t
        let mut lo: usize = 0;
        let mut hi: usize = n - 1;
        while lo < hi
            invariant
                0 <= lo <= hi < self.samples@.len(),
                self.wf(),
                n == self.samples@.len(),
                self.samples@[lo as int].created_at <= t,
                hi == n - 1 || t < self.samples@[hi + 1].created_at,
            decreases hi - lo,
        {
            let mid = lo + (hi - lo + 1) / 2;
            if self.samples[mid].created_at <= t {
                lo = mid;
            } else {
                hi = mid - 1;
            }
        }
        let s0 = self.samples[lo];
        if s0.created_at == t || lo == n - 1 {
            proof {
                if lo == self.samples@.len() - 1 {
                    assert(t == s0.created_at);
                }
            }
            return Ok((s0.cumulative_id, s0.cumulative_volatility, s0.cumulative_bin_crossed));
        }
        let s1 = self.samples[lo + 1];
        let span: u64 = s1.created_at - s0.created_at;
        let dt: u64 = t - s0.created_at;
        let ci = interp_field(s0.cumulative_id, s1.cumulative_id, span, dt);
        let cv = interp_field(s0.cumulative_volatility, s1.cumulative_volatility, span, dt);
        let cb = interp_field(s0.cumulative_bin_crossed, s1.cumulative_bin_crossed, span, dt);
        proof {
            assert(self.samples@[lo as int].created_at <= t && t < self.samples@[lo as int
                + 1].created_at);
        }
        Ok((ci, cv, cb))
    }
}

/// Interpolates one cumulative field: `c0 + (c1 - c0) * dt / span`.
fn interp_field(c0: u64, c1: u64, span: u64, dt: u64) -> (r: u64)
    requires
        c0 <= c1,
        dt < span,
    ensures
        r as nat == c0 as nat + ((c1 - c0) as nat * dt as nat) / (span as nat),
{
    let dc: u64 = c1 - c0;
    proof {
        assert((dc as nat) * (dt as nat) <= (dc as nat) * (span as nat)) by (nonlinear_arith)
            requires
                dt <= span,
        ;
        vstd::arithmetic::div_mod::lemma_div_is_ordered(
            ((dc as nat) * (dt as nat)) as int,
            ((dc as nat) * (span as nat)) as int,
            span as int,
        );
        assert(((dc as nat) * (span as nat)) as int / (span as int) == dc as int) by {
            vstd::arithmetic::div_mod::lemma_div_by_multiple(dc as int, span as int);
        }
        assert((dc as u128) * (dt as u128) <= 0xffff_ffff_ffff_ffffu128
            * 0xffff_ffff_ffff_ffffu128) by (nonlinear_arith)
            requires
                dc <= 0xffff_ffff_ffff_ffffu128,
                dt <= 0xffff_ffff_ffff_ffffu128,
        ;
    }
    let scaled: u128 = (dc as u128) * (dt as u128) / (span as u128);
    c0 + (scaled as u64)
}

/// Appending a sample that dominates the previous newest keeps the order.
proof fn lemma_wf_after_append(prefix: Seq<OracleSample>, whole: Seq<OracleSample>, last: OracleSample)
    requires
        whole == prefix.push(last),
        forall|i: int, j: int|
            0 <= i < j < prefix.len() ==> (#[trigger] prefix[i]).created_at < (
            #[trigger] prefix[j]).created_at,
        forall|i: int, j: int|
            0 <= i < j < prefix.len() ==> (#[trigger] prefix[i]).cumulative_id < (
            #[trigger] prefix[j]).cumulative_id || prefix[i].cumulative_id
                == prefix[j].cumulative_id,
        forall|i: int, j: int|
            0 <= i < j < prefix.len() ==> prefix[i].cumulative_volatility
                <= prefix[j].cumulative_volatility && prefix[i].cumulative_bin_crossed
                <= prefix[j].cumulative_bin_crossed && prefix[i].cumulative_id
                <= prefix[j].cumulative_id,
        prefix.len() > 0 ==> prefix[prefix.len() - 1].created_at < last.created_at
            && prefix[prefix.len() - 1].cumulative_id <= last.cumulative_id && prefix[prefix.len()
            - 1].cumulative_volatility <= last.cumulative_volatility && prefix[prefix.len()
            - 1].cumulative_bin_crossed <= last.cumulative_bin_crossed,
    ensures
        forall|i: int, j: int|
            0 <= i < j < whole.len() ==> (#[trigger] whole[i]).created_at < (
            #[trigger] whole[j]).created_at,
        forall|i: int, j: int|
            0 <= i < j < whole.len() ==> (#[trigger] whole[i]).cumulative_id <= (
            #[trigger] whole[j]).cumulative_id && whole[i].cumulative_volatility
                <= whole[j].cumulative_volatility && whole[i].cumulative_bin_crossed
                <= whole[j].cumulative_bin_crossed,
{
    assert forall|i: int, j: int| 0 <= i < j < whole.len() implies (
    #[trigger] whole[i]).created_at < (#[trigger] whole[j]).created_at && whole[i].cumulative_id
        <= whole[j].cumulative_id && whole[i].cumulative_volatility
        <= whole[j].cumulative_volatility && whole[i].cumulative_bin_crossed
        <= whole[j].cumulative_bin_crossed by {
        if j == whole.len() - 1 {
            assert(whole[j] == last);
            if i < prefix.len() - 1 {
                assert(prefix[i].created_at < prefix[prefix.len() - 1].created_at);
            }
        }
    }
}


impl Oracle {
    /// The retained samples are ordered: strictly increasing creation times,
    /// and running sums that never decrease along the view.
    pub proof fn lemma_view_ordered(&self)
        requires
            self.wf(),
        ensures
            1 <= self@.len(),
            forall|i: int, j: int|
                0 <= i < j < self@.len() ==> (#[trigger] self@[i]).created_at < (
                #[trigger] self@[j]).created_at,
            forall|i: int, j: int|
                0 <= i < j < self@.len() ==> (#[trigger] self@[i]).cumulative_id <= (
                #[trigger] self@[j]).cumulative_id && self@[i].cumulative_volatility
                    <= self@[j].cumulative_volatility && self@[i].cumulative_bin_crossed
                    <= self@[j].cumulative_bin_crossed,
    {
    }
}

/// Within one segment, the interpolated value is monotone in the timestamp.
proof fn lemma_interp_mono_in_t(c0: u64, c1: u64, t0: u64, t1: u64, ta: u64, tb: u64)
    requires
        t0 <= ta <= tb <= t1,
        t0 < t1,
        c0 <= c1,
    ensures
        spec_interp(c0, c1, t0, t1, ta) <= spec_interp(c0, c1, t0, t1, tb),
{
    let dc: nat = (c1 - c0) as nat;
    assert(dc * ((ta - t0) as nat) <= dc * ((tb - t0) as nat)) by (nonlinear_arith)
        requires
            ta <= tb,
            t0 <= ta,
    ;
    vstd::arithmetic::div_mod::lemma_div_is_ordered(
        (dc * ((ta - t0) as nat)) as int,
        (dc * ((tb - t0) as nat)) as int,
        (t1 - t0) as int,
    );
}

/// The value a lookup returns lies between the cumulative triples of its
/// bracketing samples.
proof fn lemma_lookup_band(samples: Seq<OracleSample>, t: u64, c: (u64, u64, u64), i: int)
    requires
        0 <= i < samples.len(),
        samples[i].created_at <= t,
        (if t == samples[i].created_at {
            c.0 == samples[i].cumulative_id && c.1 == samples[i].cumulative_volatility && c.2
                == samples[i].cumulative_bin_crossed
        } else {
            &&& i + 1 < samples.len()
            &&& t < samples[i + 1].created_at
            &&& c.0 as nat == spec_interp(
                samples[i].cumulative_id,
                samples[i + 1].cumulative_id,
                samples[i].created_at,
                samples[i + 1].created_at,
                t,
            )
            &&& c.1 as nat == spec_interp(
                samples[i].cumulative_volatility,
                samples[i + 1].cumulative_volatility,
                samples[i].created_at,
                samples[i + 1].created_at,
                t,
            )
            &&& c.2 as nat == spec_interp(
                samples[i].cumulative_bin_crossed,
                samples[i + 1].cumulative_bin_crossed,
                samples[i].created_at,
                samples[i + 1].created_at,
                t,
            )
        }),
        i + 1 < samples.len() ==> samples[i].created_at < samples[i + 1].created_at
            && samples[i].cumulative_id <= samples[i + 1].cumulative_id
            && samples[i].cumulative_volatility <= samples[i + 1].cumulative_volatility
            && samples[i].cumulative_bin_crossed <= samples[i + 1].cumulative_bin_crossed,
    ensures
        samples[i].cumulative_id <= c.0,
        samples[i].cumulative_volatility <= c.1,
        samples[i].cumulative_bin_crossed <= c.2,
        t != samples[i].created_at ==> c.0 <= samples[i + 1].cumulative_id && c.1 <= samples[i
            + 1].cumulative_volatility && c.2 <= samples[i + 1].cumulative_bin_crossed,
    {
    if t != samples[i].created_at {
        lemma_interp_bounded(
            samples[i].cumulative_id,
            samples[i + 1].cumulative_id,
            samples[i].created_at,
            samples[i + 1].created_at,
            t,
        );
        lemma_interp_bounded(
            samples[i].cumulative_volatility,
            samples[i + 1].cumulative_volatility,
            samples[i].created_at,
            samples[i + 1].created_at,
            t,
        );
        lemma_interp_bounded(
            samples[i].cumulative_bin_crossed,
            samples[i + 1].cumulative_bin_crossed,
            samples[i].created_at,
            samples[i + 1].created_at,
            t,
        );
    }
}

/// Lookups are monotone in the timestamp: because the cumulative fields are
/// running sums, the value at an earlier time never exceeds the value at a
/// later one, component for component.
pub proof fn lemma_lookup_monotone(
    samples: Seq<OracleSample>,
    ta: u64,
    tb: u64,
    ca: (u64, u64, u64),
    cb: (u64, u64, u64),
)
    requires
        ta <= tb,
        Oracle::spec_lookup(samples, ta, ca),
        Oracle::spec_lookup(samples, tb, cb),
        forall|i: int, j: int|
            0 <= i < j < samples.len() ==> (#[trigger] samples[i]).created_at < (
            #[trigger] samples[j]).created_at,
        forall|i: int, j: int|
            0 <= i < j < samples.len() ==> (#[trigger] samples[i]).cumulative_id <= (
            #[trigger] samples[j]).cumulative_id && samples[i].cumulative_volatility
                <= samples[j].cumulative_volatility && samples[i].cumulative_bin_crossed
                <= samples[j].cumulative_bin_crossed,
    ensures
        ca.0 <= cb.0,
        ca.1 <= cb.1,
        ca.2 <= cb.2,
{
    let ia = choose|i: int|
        {
            &&& 0 <= i < samples.len()
            &&& (#[trigger] samples[i]).created_at <= ta
            &&& (if ta == samples[i].created_at {
                ca.0 == samples[i].cumulative_id && ca.1 == samples[i].cumulative_volatility
                    && ca.2 == samples[i].cumulative_bin_crossed
            } else {
                &&& i + 1 < samples.len()
                &&& ta < samples[i + 1].created_at
                &&& ca.0 as nat == spec_interp(
                    samples[i].cumulative_id,
                    samples[i + 1].cumulative_id,
                    samples[i].created_at,
                    samples[i + 1].created_at,
                    ta,
                )
                &&& ca.1 as nat == spec_interp(
                    samples[i].cumulative_volatility,
                    samples[i + 1].cumulative_volatility,
                    samples[i].created_at,
                    samples[i + 1].created_at,
                    ta,
                )
                &&& ca.2 as nat == spec_interp(
                    samples[i].cumulative_bin_crossed,
                    samples[i + 1].cumulative_bin_crossed,
                    samples[i].created_at,
                    samples[i + 1].created_at,
                    ta,
                )
            })
        };
    let ib = choose|i: int|
        {
            &&& 0 <= i < samples.len()
            &&& (#[trigger] samples[i]).created_at <= tb
            &&& (if tb == samples[i].created_at {
                cb.0 == samples[i].cumulative_id && cb.1 == samples[i].cumulative_volatility
                    && cb.2 == samples[i].cumulative_bin_crossed
            } else {
                &&& i + 1 < samples.len()
                &&& tb < samples[i + 1].created_at
                &&& cb.0 as nat == spec_interp(
                    samples[i].cumulative_id,
                    samples[i + 1].cumulative_id,
                    samples[i].created_at,
                    samples[i + 1].created_at,
                    tb,
                )
                &&& cb.1 as nat == spec_interp(
                    samples[i].cumulative_volatility,
                    samples[i + 1].cumulative_volatility,
                    samples[i].created_at,
                    samples[i + 1].created_at,
                    tb,
                )
                &&& cb.2 as nat == spec_interp(
                    samples[i].cumulative_bin_crossed,
                    samples[i + 1].cumulative_bin_crossed,
                    samples[i].created_at,
                    samples[i + 1].created_at,
                    tb,
                )
            })
        };
    lemma_lookup_band(samples, ta, ca, ia);
    lemma_lookup_band(samples, tb, cb, ib);
    // the earlier bracket cannot start after the later one
    assert(ia <= ib) by {
        if ia > ib {
            if tb == samples[ib].created_at {
                assert(samples[ib].created_at < samples[ia].created_at);
            } else {
                assert(ib + 1 <= ia);
                if ib + 1 < ia {
                    assert(samples[ib + 1].created_at < samples[ia].created_at);
                }
            }
        }
    }
    if ta == samples[ia].created_at {
        // exact hit at the earlier time: its sums precede everything at ib
        if ia < ib {
        } else {
            assert(ia == ib);
        }
    } else {
        // interpolated: bounded above by the right bracket sample
        if ia + 1 <= ib {
        } else {
            assert(ia == ib);
            // same segment: tb is interpolated too, monotone in the time
            assert(tb != samples[ib].created_at) by {
                if tb == samples[ib].created_at {
                    assert(samples[ia].created_at < ta);
                }
            }
            lemma_interp_mono_in_t(
                samples[ia].cumulative_id,
                samples[ia + 1].cumulative_id,
                samples[ia].created_at,
                samples[ia + 1].created_at,
                ta,
                tb,
            );
            lemma_interp_mono_in_t(
                samples[ia].cumulative_volatility,
                samples[ia + 1].cumulative_volatility,
                samples[ia].created_at,
                samples[ia + 1].created_at,
                ta,
                tb,
            );
            lemma_interp_mono_in_t(
                samples[ia].cumulative_bin_crossed,
                samples[ia + 1].cumulative_bin_crossed,
                samples[ia].created_at,
                samples[ia + 1].created_at,
                ta,
                tb,
            );
        }
    }
}

} // verus!
