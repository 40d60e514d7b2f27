//! Conversion between bin ids and 128.128 fixed-point prices.
//!
//! The price at a bin id is `(1 + bin_step / 10_000) ^ (id - MID_ID)`: ids
//! above the midpoint have prices above one, ids below it prices below one.
//! The power is computed by repeated fixed-point multiplication, truncating
//! at each step, so every node computes bit-for-bit the same price. Prices
//! below one are derived from the positive power by dividing it out of the
//! largest 256-bit value, which keeps the whole id axis monotone.

use vstd::prelude::*;
use crate::errors::LbError;
use crate::tree::ID_SPACE;
use crate::u256::{div_rem, fp_mul, p128, p256, U256};

verus! {

/// The id whose price is exactly one: the midpoint of the 24-bit space.
pub const MID_ID: u32 = 0x800000;

/// One fixed-point multiplication: `floor(x * y / 2^128)`.
pub open spec fn spec_mul128(x: nat, y: nat) -> nat {
    (x * y) / p128()
}

/// The fixed-point base `1 + bin_step / 10_000`.
pub open spec fn spec_base(bin_step: u16) -> nat {
    p128() + (bin_step as nat * p128()) / 10000
}

/// The truncating fixed-point power: `base^n`, one multiplication per step.
pub open spec fn spec_pow(base: nat, n: nat) -> nat
    decreases n,
{
    if n == 0 {
        p128()
    } else {
        spec_mul128(spec_pow(base, (n - 1) as nat), base)
    }
}

/// The price at a bin id, as the value of a 128.128 fixed-point number.
pub open spec fn spec_price(bin_step: u16, id: u32) -> nat {
    if id >= MID_ID {
        spec_pow(spec_base(bin_step), (id - MID_ID) as nat)
    } else {
        ((p256() - 1) as nat) / spec_pow(spec_base(bin_step), (MID_ID - id) as nat)
    }
}

/// A usable bin step: at least one hundredth of a percent, at most 100%.
pub open spec fn valid_bin_step(bin_step: u16) -> bool {
    1 <= bin_step <= 10000
}

/// A power of a base at least one never shrinks below one.
pub proof fn lemma_pow_ge_one(base: nat, n: nat)
    requires
        base >= p128(),
    ensures
        spec_pow(base, n) >= p128(),
    decreases n,
{
    if n > 0 {
        lemma_pow_ge_one(base, (n - 1) as nat);
        let x = spec_pow(base, (n - 1) as nat);
        assert(x * base >= x * p128()) by (nonlinear_arith)
            requires
                base >= p128(),
                x >= 0,
        ;
        vstd::arithmetic::div_mod::lemma_div_is_ordered(
            (x * p128()) as int,
            (x * base) as int,
            p128() as int,
        );
        assert((x * p128()) as int / (p128() as int) == x as int) by {
            vstd::arithmetic::div_mod::lemma_div_by_multiple(x as int, p128() as int);
        }
    }
}

/// Each power step grows the value: multiplying by `1 + step` exactly adds
/// the truncated proportional part.
pub proof fn lemma_pow_step(base: nat, n: nat)
    requires
        base >= p128(),
    ensures
        spec_pow(base, n + 1) == spec_pow(base, n) + (spec_pow(base, n) * ((base - p128())
            as nat)) / p128(),
        spec_pow(base, n + 1) >= spec_pow(base, n),
{
    let x = spec_pow(base, n);
    let d = (base - p128()) as nat;
    assert(x * base == x * p128() + x * d) by (nonlinear_arith)
        requires
            base == p128() + d,
    ;
    vstd::arithmetic::div_mod::lemma_hoist_over_denominator(
        (x * d) as int,
        x as int,
        p128(),
    );
    assert(spec_pow(base, n + 1) == (x * p128() + x * d) / p128());
}

/// Powers are monotone in the exponent.
pub proof fn lemma_pow_mono(base: nat, m: nat, n: nat)
    requires
        base >= p128(),
        m <= n,
    ensures
        spec_pow(base, m) <= spec_pow(base, n),
    decreases n - m,
{
    if m < n {
        lemma_pow_step(base, (n - 1) as nat);
        lemma_pow_mono(base, m, (n - 1) as nat);
    }
}

/// With a strictly-above-one base, each power step strictly grows.
pub proof fn lemma_pow_strict(base: nat, n: nat)
    requires
        base >= p128() + 10000,
    ensures
        spec_pow(base, n + 1) > spec_pow(base, n),
        spec_pow(base, n + 1) >= spec_pow(base, n) + (spec_pow(base, n) * ((base - p128())
            as nat)) / p128(),
    decreases n,
{
    lemma_pow_ge_one(base, n);
    lemma_pow_step(base, n);
    let x = spec_pow(base, n);
    let d = (base - p128()) as nat;
    assert(x * d >= p128()) by (nonlinear_arith)
        requires
            x >= p128(),
            d >= 10000,
            p128() >= 10000,
    ;
    assert((x * d) / p128() >= 1) by {
        vstd::arithmetic::div_mod::lemma_div_is_ordered(
            p128() as int,
            (x * d) as int,
            p128() as int,
        );
        vstd::arithmetic::div_mod::lemma_div_by_multiple(1, p128() as int);
    }
}

/// The base of a valid bin step is strictly above one and at most two.
pub proof fn lemma_base_bounds(bin_step: u16)
    requires
        valid_bin_step(bin_step),
    ensures
        p128() + 10000 <= spec_base(bin_step) <= 2 * p128(),
        spec_base(bin_step) - p128() >= p128() / 10000,
{
    let s = bin_step as nat;
    assert((s * p128()) / 10000 >= p128() / 10000) by {
        assert(s * p128() >= 1 * p128()) by (nonlinear_arith)
            requires
                s >= 1,
        ;
        vstd::arithmetic::div_mod::lemma_div_is_ordered(
            p128() as int,
            (s * p128()) as int,
            10000,
        );
    }
    assert(p128() / 10000 >= 10000);
    assert((s * p128()) / 10000 <= p128()) by {
        assert(s * p128() <= 10000 * p128()) by (nonlinear_arith)
            requires
                s <= 10000,
        ;
        vstd::arithmetic::div_mod::lemma_div_is_ordered(
            (s * p128()) as int,
            (10000 * p128()) as int,
            10000,
        );
        vstd::arithmetic::div_mod::lemma_div_by_multiple(p128() as int, 10000);
    }
}

/// Computes the fixed-point base `1 + bin_step / 10_000`.
fn base_of(bin_step: u16) -> (r: U256)
    requires
        valid_bin_step(bin_step),
    ensures
        r.value() == spec_base(bin_step),
{
    let num = U256 { hi: bin_step as u128, lo: 0 };
    proof {
        assert(num.value() == (bin_step as nat) * p128()) by (nonlinear_arith)
            requires
                num.value() == (num.hi as nat) * p128() + num.lo,
                num.hi == bin_step as nat,
                num.lo == 0,
        ;
        lemma_base_bounds(bin_step);
    }
    let (q, _r) = div_rem(num, U256 { hi: 0, lo: 10000 });
    let one = U256 { hi: 1, lo: 0 };
    match one.checked_add(q) {
        Some(b) => b,
        None => {
            proof {
                assert(false);
            }
            one
        },
    }
}

/// The truncating fixed-point power of the base, or the fact that it left
/// the 256-bit range (it can only grow past it, never return).
fn pow_u256(base: U256, n: u32) -> (r: Option<U256>)
    requires
        base.value() >= p128(),
    ensures
        match r {
            Some(v) => v.value() == spec_pow(base.value(), n as nat),
            None => spec_pow(base.value(), n as nat) >= p256(),
        },
{
    let mut v = U256 { hi: 1, lo: 0 };
    let mut i: u32 = 0;
    proof {
        assert(v.value() == p128());
    }
    while i < n
        invariant
            i <= n,
            base.value() >= p128(),
            v.value() == spec_pow(base.value(), i as nat),
        decreases n - i,
    {
        let next = match fp_mul(v, base) {
            Some(x) => x,
            None => {
                proof {
                    lemma_pow_overflow_sticky(base.value(), (i + 1) as nat, n as nat);
                }
                return None;
            },
        };
        v = next;
        i = i + 1;
    }
    Some(v)
}

/// Once a power reaches 2^256 it stays there: growth never reverses.
proof fn lemma_pow_overflow_sticky(base: nat, m: nat, n: nat)
    requires
        base >= p128(),
        m <= n,
        spec_pow(base, m) >= p256(),
    ensures
        spec_pow(base, n) >= p256(),
{
    lemma_pow_mono(base, m, n);
}

/// The price of a bin id as a 128.128 fixed-point number.
///
/// Prices far above the midpoint stop being representable in 256 bits; such
/// an id is rejected with `ArithmeticOverflow`, and only such an id.
pub fn id_to_price(id: u32, bin_step: u16) -> (r: Result<U256, LbError>)
    requires
        id < ID_SPACE,
        valid_bin_step(bin_step),
    ensures
        match r {
            Ok(p) => p.value() == spec_price(bin_step, id),
            Err(e) => e == LbError::ArithmeticOverflow && spec_price(bin_step, id) >= p256(),
        },
{
    let base = base_of(bin_step);
    proof {
        lemma_base_bounds(bin_step);
    }
    if id >= MID_ID {
        match pow_u256(base, id - MID_ID) {
            Some(p) => Ok(p),
            None => Err(LbError::ArithmeticOverflow),
        }
    } else {
        let nmax = U256 { hi: u128::MAX, lo: u128::MAX };
        proof {
            assert(nmax.value() == p256() - 1);
        }
        match pow_u256(base, MID_ID - id) {
            Some(p) => {
                proof {
                    lemma_pow_ge_one(base.value(), (MID_ID - id) as nat);
                }
                let (q, _r) = div_rem(nmax, p);
                Ok(q)
            },
            None => {
                // the divisor outgrew 2^256, so the price truncates to zero
                proof {
                    vstd::arithmetic::div_mod::lemma_basic_div(
                        (p256() - 1) as int,
                        spec_pow(base.value(), (MID_ID - id) as nat) as int,
                    );
                }
                Ok(U256 { hi: 0, lo: 0 })
            },
        }
    }
}

/// Whether `spec_price(bin_step, id) <= p` - what one probe of the search
/// decides.
pub open spec fn price_le(bin_step: u16, id: u32, p: U256) -> bool {
    spec_price(bin_step, id) <= p.value()
}

/// One probe: does the price at `id` stay at or below `p`?
fn probe_price_le(id: u32, bin_step: u16, p: U256) -> (r: bool)
    requires
        id < ID_SPACE,
        valid_bin_step(bin_step),
    ensures
        r == price_le(bin_step, id, p),
{
    match id_to_price(id, bin_step) {
        Ok(v) => v.le(p),
        Err(_) => {
            proof {
                crate::u256::lemma_u256_bound(p);
            }
            false
        },
    }
}

/// The id of the bin whose price range contains `p`: the largest id whose
/// price does not exceed `p`. A price below the whole axis maps to id 0; one
/// at or above the top bin's price maps to the top id.
pub fn price_to_id(p: U256, bin_step: u16) -> (r: u32)
    requires
        valid_bin_step(bin_step),
    ensures
        r < ID_SPACE,
        !price_le(bin_step, 0, p) ==> r == 0,
        price_le(bin_step, 0, p) && price_le(bin_step, (ID_SPACE - 1) as u32, p)
            ==> r == ID_SPACE - 1,
        price_le(bin_step, 0, p) && !price_le(bin_step, (ID_SPACE - 1) as u32, p) ==> price_le(
            bin_step,
            r,
            p,
        ) && !price_le(bin_step, (r + 1) as u32, p),
{
    if !probe_price_le(0, bin_step, p) {
        return 0;
    }
    if probe_price_le(ID_SPACE - 1, bin_step, p) {
        return ID_SPACE - 1;
    }
    // gallop out from the midpoint to a bracketing window, then bisect; the
    // price axis is only ever probed, never assumed monotone here.
    let mut lo: u32;
    let mut hi: u32;
    let mut step: u32 = 1;
    if probe_price_le(MID_ID, bin_step, p) {
        lo = MID_ID;
        hi = ID_SPACE - 1;
        loop
            invariant
                valid_bin_step(bin_step),
                lo < hi < ID_SPACE,
                price_le(bin_step, lo, p),
                !price_le(bin_step, hi, p),
                1 <= step,
            decreases hi - lo,
        {
            let probe: u32 = if step < hi - lo {
                lo + step
            } else {
                hi
            };
            if probe == hi {
                break ;
            }
            if probe_price_le(probe, bin_step, p) {
                lo = probe;
                if step < ID_SPACE {
                    step = step * 2;
                }
            } else {
                hi = probe;
                break ;
            }
        }
    } else {
        lo = 0;
        hi = MID_ID;
        loop
            invariant
                valid_bin_step(bin_step),
                lo < hi < ID_SPACE,
                price_le(bin_step, lo, p),
                !price_le(bin_step, hi, p),
                1 <= step,
            decreases hi - lo,
        {
            let probe: u32 = if step < hi - lo {
                hi - step
            } else {
                lo
            };
            if probe == lo {
                break ;
            }
            if probe_price_le(probe, bin_step, p) {
                lo = probe;
                break ;
            } else {
                hi = probe;
                if step < ID_SPACE {
                    step = step * 2;
                }
            }
        }
    }
    // bisect the bracket down to one bin
    while lo + 1 < hi
        invariant
            valid_bin_step(bin_step),
            lo < hi < ID_SPACE,
            price_le(bin_step, lo, p),
            !price_le(bin_step, hi, p),
        decreases hi - lo,
    {
        let mid = lo + (hi - lo) / 2;
        if probe_price_le(mid, bin_step, p) {
            lo = mid;
        } else {
            hi = mid;
        }
    }
    lo
}

/// Prices never decrease along the id axis: the truncating power grows with
/// the exponent above the midpoint, and the divided-out form shrinks with the
/// exponent below it.
pub proof fn lemma_price_mono(bin_step: u16, i: u32, j: u32)
    requires
        valid_bin_step(bin_step),
        i <= j < ID_SPACE,
    ensures
        spec_price(bin_step, i) <= spec_price(bin_step, j),
{
    let b = spec_base(bin_step);
    lemma_base_bounds(bin_step);
    let nmax: nat = (p256() - 1) as nat;
    if i >= MID_ID {
        lemma_pow_mono(b, (i - MID_ID) as nat, (j - MID_ID) as nat);
    } else if j < MID_ID {
        let ki = (MID_ID - i) as nat;
        let kj = (MID_ID - j) as nat;
        lemma_pow_mono(b, kj, ki);
        lemma_pow_ge_one(b, kj);
        vstd::arithmetic::div_mod::lemma_div_is_ordered_by_denominator(
            nmax as int,
            spec_pow(b, kj) as int,
            spec_pow(b, ki) as int,
        );
    } else {
        // across the midpoint: every below-one price is under every above-one
        let ki = (MID_ID - i) as nat;
        lemma_pow_mono(b, 1, ki);
        lemma_pow_ge_one(b, ki);
        assert(spec_pow(b, 0) == p128());
        assert(spec_pow(b, 1) == spec_mul128(p128(), b));
        assert(p128() * b == b * p128()) by (nonlinear_arith);
        assert((b * p128()) / p128() == b) by {
            vstd::arithmetic::div_mod::lemma_div_by_multiple(b as int, p128() as int);
        }
        assert(spec_pow(b, 1) == b);
        assert(spec_pow(b, ki) >= b);
        vstd::arithmetic::div_mod::lemma_div_is_ordered_by_denominator(
            nmax as int,
            b as int,
            spec_pow(b, ki) as int,
        );
        assert(nmax / spec_pow(b, ki) <= nmax / b);
        // nmax / b < 2^128 because nmax < 2^128 * b
        assert(nmax < p128() * p128());
        assert(p128() * p128() <= p128() * b) by (nonlinear_arith)
            requires
                b >= p128(),
        ;
        assert(p128() * b == b * p128()) by (nonlinear_arith);
        vstd::arithmetic::div_mod::lemma_multiply_divide_lt(nmax as int, b as int, p128() as int);
        assert(nmax / b < p128());
        assert(spec_price(bin_step, i) == nmax / spec_pow(b, ki));
        lemma_pow_ge_one(b, (j - MID_ID) as nat);
        assert(spec_price(bin_step, j) >= p128());
    }
}

/// Where a price still clears the discretization floor, adjacent bins have
/// strictly distinct prices.
pub proof fn lemma_price_strict(bin_step: u16, id: u32)
    requires
        valid_bin_step(bin_step),
        id + 1 < ID_SPACE,
        spec_price(bin_step, id) >= 0x20000,
    ensures
        spec_price(bin_step, id) < spec_price(bin_step, (id + 1) as u32),
{
    let b = spec_base(bin_step);
    lemma_base_bounds(bin_step);
    let nmax: nat = (p256() - 1) as nat;
    if id >= MID_ID {
        lemma_pow_strict(b, (id - MID_ID) as nat);
    } else if id + 1 == MID_ID {
        // the last below-one price is under one
        assert(spec_pow(b, 0) == p128());
        assert(spec_pow(b, 1) == spec_mul128(p128(), b));
        assert(p128() * b == b * p128()) by (nonlinear_arith);
        assert((b * p128()) / p128() == b) by {
            vstd::arithmetic::div_mod::lemma_div_by_multiple(b as int, p128() as int);
        }
        assert(spec_pow(b, 1) == b);
        assert(nmax < p128() * p128());
        assert(p128() * p128() <= p128() * b) by (nonlinear_arith)
            requires
                b >= p128(),
        ;
        assert(nmax < p128() * b);
        assert(p128() * b == b * p128()) by (nonlinear_arith);
        vstd::arithmetic::div_mod::lemma_multiply_divide_lt(nmax as int, b as int, p128() as int);
        assert(nmax / b < p128());
        assert((MID_ID - id) as nat == 1);
        assert(spec_price(bin_step, id) == nmax / spec_pow(b, 1));
        assert(spec_price(bin_step, id) < p128());
        assert(spec_price(bin_step, (id + 1) as u32) == spec_pow(b, 0));
    } else {
        // below the midpoint: the larger power divides nmax strictly deeper
        let k = (MID_ID - id) as nat;
        let x = spec_pow(b, (k - 1) as nat);
        let y = spec_pow(b, k);
        lemma_pow_ge_one(b, (k - 1) as nat);
        lemma_pow_step(b, (k - 1) as nat);
        lemma_price_mono(bin_step, id, (id + 1) as u32);
        let q = nmax / x;
        // the price floor makes q large and so x small
        assert(spec_price(bin_step, (id + 1) as u32) == q);
        assert(q >= 0x20000);
        vstd::arithmetic::div_mod::lemma_fundamental_div_mod(nmax as int, x as int);
        // growth of one power step, bounded below through the base margin
        let d0: nat = p128() / 10000;
        assert(d0 >= 0x40000000000000000000000000000) by {
            assert(p128() / 10000 >= 0x40000000000000000000000000000);
        }
        let delta = (b - p128()) as nat;
        assert(x * d0 <= x * delta) by (nonlinear_arith)
            requires
                d0 <= delta,
                x >= 0,
        ;
        vstd::arithmetic::div_mod::lemma_div_is_ordered(
            (x * d0) as int,
            (x * delta) as int,
            p128() as int,
        );
        let g = (x * d0) / p128();
        assert(y >= x + g);
        // g is at least x / 2^14, up to one unit
        assert(x * d0 >= x * 0x40000000000000000000000000000) by (nonlinear_arith)
            requires
                d0 >= 0x40000000000000000000000000000,
                x >= 0,
        ;
        vstd::arithmetic::div_mod::lemma_div_is_ordered(
            (x * 0x40000000000000000000000000000) as int,
            (x * d0) as int,
            p128() as int,
        );
        assert((x * 0x40000000000000000000000000000) / p128() == x / 0x4000) by {
            vstd::arithmetic::div_mod::lemma_div_denominator(
                (x * 0x40000000000000000000000000000) as int,
                0x40000000000000000000000000000,
                0x4000,
            );
            vstd::arithmetic::div_mod::lemma_div_by_multiple(
                x as int,
                0x40000000000000000000000000000,
            );
        }
        assert(g >= x / 0x4000);
        // q * g makes up more than the remainder: q * y exceeds nmax
        vstd::arithmetic::div_mod::lemma_fundamental_div_mod(x as int, 0x4000);
        assert(q * g >= 0x20000 * ((x - 0x3fff) / 0x4000)) by (nonlinear_arith)
            requires
                q >= 0x20000,
                g >= x / 0x4000,
                x / 0x4000 >= (x - 0x3fff) / 0x4000,
                (x - 0x3fff) / 0x4000 >= 0,
        ;
        assert(0x20000nat * ((x - 0x3fff) as nat / 0x4000) >= 8 * x - 0x20000nat * 2) by {
            assert((x - 0x3fff) as nat / 0x4000 >= x / 0x4000 - 1);
            assert(x / 0x4000 >= (x - 0x3fff) as nat / 0x4000);
            assert(0x20000nat * (x / 0x4000 - 1) >= 8 * x - 2 * 0x20000) by (nonlinear_arith)
                requires
                    x / 0x4000 > x / 0x4000 - 1,
                    0x4000 * (x / 0x4000) + 0x4000 > x,
            ;
            assert(0x20000nat * ((x - 0x3fff) as nat / 0x4000) + 0x20000 >= 0x20000nat * (x
                / 0x4000)) by (nonlinear_arith)
                requires
                    (x - 0x3fff) as nat / 0x4000 + 1 >= x / 0x4000,
            ;
        }
        assert(q * g >= x + (7 * x - 0x40000)) by {
            assert(q * g >= 8 * x - 0x40000);
        }
        assert(7 * x >= 0x40000);
        // conclude: q * y > nmax, so nmax / y < q
        assert(q * y >= q * (x + g)) by (nonlinear_arith)
            requires
                y >= x + g,
                q >= 0,
        ;
        assert(q * (x + g) == q * x + q * g) by (nonlinear_arith);
        assert(nmax < q * x + x);
        assert(q * y > nmax);
        assert(nmax / y < q) by {
            lemma_pow_ge_one(b, k);
            vstd::arithmetic::div_mod::lemma_multiply_divide_lt(nmax as int, y as int, q as int);
        }
    }
}

/// Converting a bin's price back to an id lands on the same bin: for any id
/// whose price clears the discretization floor and stays representable, the
/// bracket that the id search returns can only be the id itself.
pub proof fn lemma_price_round_trip(bin_step: u16, id: u32, p: U256, r: u32)
    requires
        valid_bin_step(bin_step),
        id < ID_SPACE,
        p.value() == spec_price(bin_step, id),
        spec_price(bin_step, id) >= 0x20000,
        r < ID_SPACE,
        !price_le(bin_step, 0, p) ==> r == 0,
        price_le(bin_step, 0, p) && price_le(bin_step, (ID_SPACE - 1) as u32, p) ==> r == ID_SPACE
            - 1,
        price_le(bin_step, 0, p) && !price_le(bin_step, (ID_SPACE - 1) as u32, p) ==> price_le(
            bin_step,
            r,
            p,
        ) && !price_le(bin_step, (r + 1) as u32, p),
    ensures
        r == id,
{
    lemma_price_mono(bin_step, 0, id);
    assert(price_le(bin_step, 0, p));
    if price_le(bin_step, (ID_SPACE - 1) as u32, p) {
        // the whole axis is at or below this price, so id must be the top bin
        if id < ID_SPACE - 1 {
            lemma_price_strict(bin_step, id);
            lemma_price_mono(bin_step, (id + 1) as u32, (ID_SPACE - 1) as u32);
            assert(false);
        }
    } else {
        if r < id {
            lemma_price_mono(bin_step, (r + 1) as u32, id);
            assert(spec_price(bin_step, (r + 1) as u32) <= spec_price(bin_step, id));
            assert(false);
        }
        if r > id {
            lemma_price_strict(bin_step, id);
            lemma_price_mono(bin_step, (id + 1) as u32, r);
            assert(false);
        }
    }
}

} // verus!
