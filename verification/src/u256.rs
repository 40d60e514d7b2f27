//! A 256-bit unsigned integer built from two 128-bit limbs.
//!
//! This is the carrier type of the fixed-point price arithmetic: prices are
//! unsigned 128.128 fixed-point numbers, so a full price needs 256 bits. All
//! operations are deterministic and fully specified against the mathematical
//! value of the limbs.

use vstd::prelude::*;
use vstd::arithmetic::div_mod::{lemma_fundamental_div_mod, lemma_fundamental_div_mod_converse};
use vstd::arithmetic::mul::lemma_mul_inequality;

verus! {

/// 2^128 as a specification-level constant.
pub open spec fn p128() -> nat {
    0x100000000000000000000000000000000nat
}

/// 2^64 as a specification-level constant.
pub open spec fn p64() -> nat {
    0x10000000000000000nat
}

/// 2^256 as a specification-level constant.
pub open spec fn p256() -> nat {
    p128() * p128()
}

/// An unsigned 256-bit integer: `value == hi * 2^128 + lo`.
#[derive(Clone, Copy, Debug, PartialEq, Eq, Structural)]
pub struct U256 {
    pub hi: u128,
    pub lo: u128,
}

impl U256 {
    /// The mathematical value of this integer.
    pub open spec fn value(self) -> nat {
        self.hi as nat * p128() + self.lo as nat
    }

    /// Zero.
    pub fn zero() -> (r: U256)
        ensures
            r.value() == 0,
    {
        U256 { hi: 0, lo: 0 }
    }

    /// Embeds a 128-bit integer.
    pub fn from_u128(x: u128) -> (r: U256)
        ensures
            r.value() == x,
    {
        U256 { hi: 0, lo: x }
    }

    /// Whether the value fits in 128 bits; if so, `lo` is the value.
    pub fn to_u128(self) -> (r: Option<u128>)
        ensures
            match r {
                Some(x) => x == self.value(),
                None => self.value() >= p128(),
            },
    {
        if self.hi == 0 {
            Some(self.lo)
        } else {
            proof {
                lemma_mul_inequality(1, self.hi as int, p128() as int);
            }
            None
        }
    }

    /// `self == other`, by value.
    pub fn eq_val(self, other: U256) -> (r: bool)
        ensures
            r == (self.value() == other.value()),
    {
        self.hi == other.hi && self.lo == other.lo
    }

    /// `self < other`, by value.
    pub fn lt(self, other: U256) -> (r: bool)
        ensures
            r == (self.value() < other.value()),
    {
        proof {
            if self.hi < other.hi {
                lemma_mul_inequality(self.hi as int + 1, other.hi as int, p128() as int);
            }
            if self.hi > other.hi {
                lemma_mul_inequality(other.hi as int + 1, self.hi as int, p128() as int);
            }
        }
        self.hi < other.hi || (self.hi == other.hi && self.lo < other.lo)
    }

    /// `self <= other`, by value.
    pub fn le(self, other: U256) -> (r: bool)
        ensures
            r == (self.value() <= other.value()),
    {
        !other.lt(self)
    }

    /// Checked addition: `None` when the sum does not fit in 256 bits.
    pub fn checked_add(self, other: U256) -> (r: Option<U256>)
        ensures
            match r {
                Some(z) => z.value() == self.value() + other.value(),
                None => self.value() + other.value() >= p256(),
            },
    {
        let (lo, carry): (u128, u128) = if self.lo <= u128::MAX - other.lo {
            (self.lo + other.lo, 0)
        } else {
            ((self.lo - (u128::MAX - other.lo)) - 1, 1)
        };
        if self.hi <= u128::MAX - carry && other.hi <= u128::MAX - carry - self.hi {
            let hi = self.hi + other.hi + carry;
            Some(U256 { hi, lo })
        } else {
            proof {
                assert(self.hi as nat + other.hi as nat + carry as nat >= p128());
                assert((self.hi as nat + other.hi as nat) * p128() >= (p128() - carry as nat)
                    * p128()) by (nonlinear_arith)
                    requires
                        self.hi as nat + other.hi as nat + carry as nat >= p128(),
                ;
                assert((p128() - carry as nat) * p128() + carry as nat * p128() == p256())
                    by (nonlinear_arith);
                assert(self.hi as nat * p128() + other.hi as nat * p128() == (self.hi as nat
                    + other.hi as nat) * p128()) by (nonlinear_arith);
                assert(carry == 1 ==> self.lo as nat + other.lo as nat >= p128());
            }
            None
        }
    }

    /// Subtraction, defined when `other <= self`.
    pub fn sub_val(self, other: U256) -> (r: U256)
        requires
            other.value() <= self.value(),
        ensures
            r.value() == self.value() - other.value(),
    {
        proof {
            if self.hi < other.hi {
                lemma_mul_inequality(self.hi as int + 1, other.hi as int, p128() as int);
                assert(false);
            }
        }
        if self.lo >= other.lo {
            U256 { hi: self.hi - other.hi, lo: self.lo - other.lo }
        } else {
            proof {
                if self.hi == other.hi {
                    assert(false);
                }
            }
            U256 { hi: self.hi - other.hi - 1, lo: (u128::MAX - other.lo) + self.lo + 1 }
        }
    }
}

/// The exact 256-bit product of two 128-bit integers.
pub fn mul_u128_wide(a: u128, b: u128) -> (r: U256)
    ensures
        r.value() == a as nat * b as nat,
{
    let a1: u128 = a >> 64;
    let a0: u128 = a & 0xffff_ffff_ffff_ffff;
    let b1: u128 = b >> 64;
    let b0: u128 = b & 0xffff_ffff_ffff_ffff;
    proof {
        assert(a1 == a as nat / p64() && a0 == a as nat % p64() && b1 == b as nat / p64() && b0
            == b as nat % p64() && a1 < p64() && a0 < p64() && b1 < p64() && b0 < p64())
            by (bit_vector)
            requires
                a1 == a >> 64 && a0 == a & 0xffff_ffff_ffff_ffff && b1 == b >> 64 && b0 == b
                    & 0xffff_ffff_ffff_ffff,
        ;
        lemma_fundamental_div_mod(a as int, p64() as int);
        lemma_fundamental_div_mod(b as int, p64() as int);
    }
    proof {
        assert(((a0 as nat) * (b0 as nat) < p128()) && ((a0 as nat) * (b1 as nat) < p128()) && (
        (a1 as nat) * (b0 as nat) < p128()) && ((a1 as nat) * (b1 as nat) < p128()))
            by (nonlinear_arith)
            requires
                a0 < p64() && b0 < p64() && a1 < p64() && b1 < p64(),
        ;
    }
    let p00: u128 = a0 * b0;
    let p01: u128 = a0 * b1;
    let p10: u128 = a1 * b0;
    let p11: u128 = a1 * b1;
    // mid = p01 + p10, up to 2^129 - 2: split the carry out.
    let (mid, midc): (u128, u128) = if p01 <= u128::MAX - p10 {
        (p01 + p10, 0)
    } else {
        ((p01 - (u128::MAX - p10)) - 1, 1)
    };
    // result = p11 * 2^128 + (midc * 2^128 + mid) * 2^64 + p00
    let mid_hi: u128 = mid >> 64;
    let mid_lo: u128 = mid & 0xffff_ffff_ffff_ffff;
    proof {
        assert(mid_hi == mid as nat / p64() && mid_lo == mid as nat % p64() && mid_hi < p64()
            && mid_lo < p64()) by (bit_vector)
            requires
                mid_hi == mid >> 64 && mid_lo == mid & 0xffff_ffff_ffff_ffff,
        ;
        lemma_fundamental_div_mod(mid as int, p64() as int);
    }
    // lo limb: p00 + mid_lo * 2^64, may carry once.
    let shifted: u128 = mid_lo * 0x1_0000_0000_0000_0000;
    proof {
        assert(mid_lo as nat * p64() <= (p64() - 1) * p64()) by (nonlinear_arith)
            requires
                mid_lo < p64(),
        ;
    }
    let (lo, loc): (u128, u128) = if p00 <= u128::MAX - shifted {
        (p00 + shifted, 0)
    } else {
        ((p00 - (u128::MAX - shifted)) - 1, 1)
    };
    // hi limb: p11 + mid_hi + midc * 2^64 + loc, cannot overflow because the
    // true product is below 2^256.
    let ghost hi_sum: nat = p11 as nat + mid_hi as nat + midc as nat * p64() + loc as nat;
    proof {
        assert(hi_sum * p128() + lo as nat == (a as nat) * (b as nat)) by (nonlinear_arith)
            requires
                hi_sum == p11 as nat + mid_hi as nat + midc as nat * p64() + loc as nat,
                lo as nat + loc as nat * p128() == p00 as nat + mid_lo as nat * p64(),
                mid as nat + midc as nat * p128() == p01 as nat + p10 as nat,
                mid as nat == mid_hi as nat * p64() + mid_lo as nat,
                p00 == a0 as nat * b0 as nat,
                p01 == a0 as nat * b1 as nat,
                p10 == a1 as nat * b0 as nat,
                p11 == a1 as nat * b1 as nat,
                a == a1 as nat * p64() + a0 as nat,
                b == b1 as nat * p64() + b0 as nat,
        ;
        assert(hi_sum < p128()) by (nonlinear_arith)
            requires
                hi_sum * p128() + lo as nat == (a as nat) * (b as nat),
                a <= 0xffffffffffffffffffffffffffffffffu128,
                b <= 0xffffffffffffffffffffffffffffffffu128,
        ;
    }
    let hi: u128 = p11 + mid_hi + midc * 0x1_0000_0000_0000_0000 + loc;
    let r = U256 { hi, lo };
    proof {
        assert(r.value() == hi_sum * p128() + lo as nat);
    }
    r
}

/// `floor(x * y / 2^128)`: the product of two 128.128 fixed-point numbers,
/// rounded toward zero. `None` when the result does not fit in 256 bits.
pub fn fp_mul(x: U256, y: U256) -> (r: Option<U256>)
    ensures
        match r {
            Some(z) => z.value() == (x.value() * y.value()) / p128(),
            None => (x.value() * y.value()) / p128() >= p256(),
        },
{
    let a = mul_u128_wide(x.lo, y.lo);
    let frac = U256 { hi: 0, lo: a.hi };
    let b = mul_u128_wide(x.hi, y.lo);
    let c = mul_u128_wide(x.lo, y.hi);
    proof {
        lemma_fp_mul_decompose(x, y, a.hi as nat);
    }
    // high * high term: overflows unless x.hi * y.hi == 0 after shifting.
    if x.hi != 0 && y.hi != 0 {
        let d = mul_u128_wide(x.hi, y.hi);
        if d.hi != 0 {
            proof {
                lemma_mul_inequality(1, d.hi as int, p128() as int);
                assert(d.value() * p128() >= p256()) by (nonlinear_arith)
                    requires
                        d.value() >= p128(),
                ;
            }
            return None;
        }
        let dshift = U256 { hi: d.lo, lo: 0 };
        proof {
            assert(dshift.value() == d.value() * p128()) by (nonlinear_arith)
                requires
                    dshift.hi == d.lo && dshift.lo == 0 && d.hi == 0 && d.value() == d.hi as nat
                        * p128() + d.lo as nat && dshift.value() == dshift.hi as nat * p128()
                        + dshift.lo as nat,
            ;
        }
        match dshift.checked_add(b) {
            Some(s1) => match s1.checked_add(c) {
                Some(s2) => match s2.checked_add(frac) {
                    Some(s3) => Some(s3),
                    None => None,
                },
                None => None,
            },
            None => None,
        }
    } else {
        proof {
            assert(x.hi as nat * y.hi as nat == 0);
        }
        match b.checked_add(c) {
            Some(s1) => match s1.checked_add(frac) {
                Some(s2) => Some(s2),
                None => None,
            },
            None => None,
        }
    }
}

/// The decomposition behind `fp_mul`:
/// `floor(x*y / 2^128) == x.hi*y.hi*2^128 + x.hi*y.lo + x.lo*y.hi + floor(x.lo*y.lo / 2^128)`.
proof fn lemma_fp_mul_decompose(x: U256, y: U256, ahi: nat)
    requires
        ahi == (x.lo as nat * y.lo as nat) / p128(),
    ensures
        (x.value() * y.value()) / p128() == x.hi as nat * y.hi as nat * p128() + x.hi as nat
            * y.lo as nat + x.lo as nat * y.hi as nat + ahi,
{
    let k = x.hi as nat * y.hi as nat * p128() + x.hi as nat * y.lo as nat + x.lo as nat
        * y.hi as nat + ahi;
    let rem = (x.lo as nat * y.lo as nat) % p128();
    lemma_fundamental_div_mod(x.lo as nat * y.lo as nat as int, p128() as int);
    assert(x.value() * y.value() == k * p128() + rem) by (nonlinear_arith)
        requires
            x.value() == x.hi as nat * p128() + x.lo as nat,
            y.value() == y.hi as nat * p128() + y.lo as nat,
            x.lo as nat * y.lo as nat == ahi * p128() + rem,
            k == x.hi as nat * y.hi as nat * p128() + x.hi as nat * y.lo as nat + x.lo as nat
                * y.hi as nat + ahi,
    ;
    lemma_fundamental_div_mod_converse(
        (x.value() * y.value()) as int,
        p128() as int,
        k as int,
        rem as int,
    );
}

/// 2^e, at the specification level.
pub open spec fn pw2(e: nat) -> nat {
    vstd::arithmetic::power2::pow2(e)
}

/// Shifts left by one bit; the second component is the carried-out top bit.
fn shl1_carry(x: U256) -> (rc: (U256, u128))
    ensures
        rc.0.value() + rc.1 as nat * p256() == x.value() * 2,
        rc.1 <= 1,
        rc.0.lo % 2 == 0,
{
    let half: u128 = 0x8000_0000_0000_0000_0000_0000_0000_0000;
    let (hi_carry, hi_base): (u128, u128) = if x.hi >= half {
        (1, x.hi - half)
    } else {
        (0, x.hi)
    };
    let (lo_carry, lo_base): (u128, u128) = if x.lo >= half {
        (1, x.lo - half)
    } else {
        (0, x.lo)
    };
    let r = U256 { hi: hi_base * 2 + lo_carry, lo: lo_base * 2 };
    proof {
        assert(r.value() + hi_carry as nat * p256() == x.value() * 2) by (nonlinear_arith)
            requires
                r.value() == r.hi as nat * p128() + r.lo as nat,
                x.value() == x.hi as nat * p128() + x.lo as nat,
                r.hi == hi_base * 2 + lo_carry,
                r.lo == lo_base * 2,
                x.hi == hi_carry as nat * (p128() / 2) + hi_base,
                x.lo == lo_carry as nat * (p128() / 2) + lo_base,
                p256() == p128() * p128(),
        ;
    }
    (r, hi_carry)
}

/// Every `U256` value is below 2^256.
pub proof fn lemma_u256_bound(x: U256)
    ensures
        x.value() < p256(),
{
    assert((x.hi as nat) * p128() + (x.lo as nat) < p128() * p128()) by (nonlinear_arith)
        requires
            x.hi < p128(),
            x.lo < p128(),
    ;
}

/// Long division of a 256-bit value: returns quotient and remainder.
///
/// Restoring division, one bit per step, entirely in limb arithmetic, so the
/// result is exact and deterministic: `n == q * d + r` with `r < d`.
#[verifier::rlimit(100)]
pub fn div_rem(n: U256, d: U256) -> (qr: (U256, U256))
    requires
        d.value() > 0,
    ensures
        qr.0.value() == n.value() / d.value(),
        qr.1.value() == n.value() % d.value(),
{
    let mut q = U256 { hi: 0, lo: 0 };
    let mut r = U256 { hi: 0, lo: 0 };
    let mut cur = n;
    // 2^256 - d, used to finish `2*r + b - d` when it exceeded 256 bits.
    let neg_d = U256 { hi: u128::MAX, lo: u128::MAX }.sub_val(d);
    proof {
        assert(neg_d.value() == p256() - 1 - d.value());
        lemma_pw2_256();
        lemma_u256_bound(n);
        vstd::arithmetic::power2::lemma2_to64();
        vstd::arithmetic::div_mod::lemma_basic_div(n.value() as int, p256() as int);
        vstd::arithmetic::div_mod::lemma_small_mod(n.value(), p256());
        assert(n.value() / pw2(256) == 0);
        assert(n.value() % pw2(256) == n.value());
        assert(n.value() * 1 == n.value()) by (nonlinear_arith);
        assert(pw2(0) == 1);
        assert((n.value() % pw2(256)) * pw2(0) == n.value()) by (nonlinear_arith)
            requires
                n.value() % pw2(256) == n.value(),
                pw2(0) == 1,
        ;
    }
    let mut i: usize = 0;
    proof {
        assert(q.value() == 0);
        assert(r.value() == 0);
        assert(q.value() * d.value() == 0);
        assert(q.value() * d.value() + r.value() == n.value() / pw2((256 - i) as nat));
    }
    while i < 256
        invariant
            i <= 256,
            d.value() > 0,
            neg_d.value() == p256() - 1 - d.value(),
            q.value() * d.value() + r.value() == n.value() / pw2((256 - i) as nat),
            r.value() < d.value(),
            q.value() < pw2(i as nat),
            cur.value() == (n.value() % pw2((256 - i) as nat)) * pw2(i as nat),
        decreases 256 - i,
    {
        let ghost m: nat = (255 - i) as nat;
        let ghost top: nat = n.value() / pw2((m + 1) as nat);
        let (cur2, b) = shl1_carry(cur);
        proof {
            lemma_u256_bound(cur2);
            lemma_shift_step(n.value(), m, i as nat, cur.value(), cur2.value(), b as nat);
        }
        cur = cur2;
        // val = 2*r + b, the next remainder candidate.
        let (r2, rc) = shl1_carry(r);
        let ghost val: nat = r.value() * 2 + b as nat;
        let r2 = if b == 1 {
            proof {
                assert(r2.lo % 2 == 0);
                assert(r2.value() + 1 == r2.hi as nat * p128() + (r2.lo + 1) as nat);
            }
            U256 { hi: r2.hi, lo: r2.lo + 1 }
        } else {
            r2
        };
        proof {
            assert(r2.value() + rc as nat * p256() == val);
            assert(val < d.value() * 2) by (nonlinear_arith)
                requires
                    val == r.value() * 2 + b as nat,
                    r.value() < d.value(),
                    b <= 1,
            ;
        }
        let sub_wrapped: bool = rc == 1;
        let sub_plain: bool = !sub_wrapped && d.le(r2);
        let r_new: U256 = if sub_wrapped {
            // val >= 2^256 > d: subtract d by adding 2^256 - d.
            proof {
                assert(val - d.value() < d.value());
                assert(r2.value() + neg_d.value() + 1 == val - d.value());
            }
            let s = match r2.checked_add(neg_d) {
                Some(s0) => s0,
                None => {
                    proof {
                        assert(false);
                    }
                    U256 { hi: 0, lo: 0 }
                },
            };
            match s.checked_add(U256 { hi: 0, lo: 1 }) {
                Some(s0) => s0,
                None => {
                    proof {
                        assert(false);
                    }
                    U256 { hi: 0, lo: 0 }
                },
            }
        } else if sub_plain {
            r2.sub_val(d)
        } else {
            r2
        };
        let qbit: u128 = if sub_wrapped || sub_plain {
            1
        } else {
            0
        };
        proof {
            if qbit == 1 {
                assert(qbit as nat * d.value() == 1 * d.value());
            } else {
                assert(qbit as nat * d.value() == 0 * d.value());
            }
            assert(r_new.value() == val - qbit as nat * d.value());
            assert(r_new.value() < d.value());
        }
        let (q2, qc) = shl1_carry(q);
        proof {
            lemma_pw2_256();
            if (i as nat) < 255 {
                vstd::arithmetic::power2::lemma_pow2_strictly_increases(i as nat, 255);
            }
            assert(q.value() < pw2(255));
            assert(q.value() * 2 + 1 < p256());
            if qc == 1 {
                assert(qc as nat * p256() == p256());
                assert(false);
            }
            assert(qc == 0);
            assert(q2.lo % 2 == 0);
        }
        let q_new = if qbit == 1 {
            proof {
                assert(q2.value() + 1 == q2.hi as nat * p128() + (q2.lo + 1) as nat);
            }
            U256 { hi: q2.hi, lo: q2.lo + 1 }
        } else {
            q2
        };
        proof {
            lemma_div_step(
                n.value(),
                m,
                d.value(),
                q.value(),
                r.value(),
                q_new.value(),
                r_new.value(),
                b as nat,
                qbit as nat,
            );
            vstd::arithmetic::power2::lemma_pow2_unfold((i + 1) as nat);
            assert(q_new.value() < pw2((i + 1) as nat)) by (nonlinear_arith)
                requires
                    q_new.value() <= q.value() * 2 + 1,
                    q.value() < pw2(i as nat),
                    pw2((i + 1) as nat) == 2 * pw2(i as nat),
            ;
        }
        q = q_new;
        r = r_new;
        i = i + 1;
    }
    proof {
        assert(pw2(0) == 1) by {
            vstd::arithmetic::power2::lemma2_to64();
        }
        assert(n.value() / 1 == n.value()) by (nonlinear_arith);
        lemma_fundamental_div_mod_converse(
            n.value() as int,
            d.value() as int,
            q.value() as int,
            r.value() as int,
        );
    }
    (q, r)
}

/// 2^256 at both spec spellings agree.
proof fn lemma_pw2_256()
    ensures
        pw2(256) == p256(),
        pw2(128) == p128(),
        pw2(255) * 2 == pw2(256),
{
    vstd::arithmetic::power2::lemma2_to64();
    vstd::arithmetic::power2::lemma_pow2_adds(64, 64);
    vstd::arithmetic::power2::lemma_pow2_adds(128, 128);
    vstd::arithmetic::power2::lemma_pow2_adds(255, 1);
    vstd::arithmetic::power2::lemma_pow2_unfold(1);
}

/// One shift step of the dividend window: peeling the top bit of `cur`
/// extends the processed prefix of `n` by one bit.
proof fn lemma_shift_step(n: nat, m: nat, i: nat, cur: nat, cur2: nat, b: nat)
    requires
        m + 1 + i == 256,
        cur == (n % pw2(m + 1)) * pw2(i),
        cur2 + b * p256() == cur * 2,
        b <= 1,
        n < p256(),
        cur2 < p256(),
    ensures
        n / pw2(m) == 2 * (n / pw2(m + 1)) + b,
        cur2 == (n % pw2(m)) * pw2(i + 1),
{
    lemma_pw2_256();
    vstd::arithmetic::power2::lemma_pow2_unfold(m + 1);
    vstd::arithmetic::power2::lemma_pow2_unfold(i + 1);
    vstd::arithmetic::power2::lemma_pow2_adds(m, i);
    vstd::arithmetic::power2::lemma_pow2_adds(m, 1);
    vstd::arithmetic::power2::lemma_pow2_adds(m, i + 1);
    vstd::arithmetic::power2::lemma_pow2_adds(m + 1, i);
    vstd::arithmetic::power2::lemma_pow2_adds(i, 1);
    vstd::arithmetic::power2::lemma_pow2_pos(m);
    vstd::arithmetic::power2::lemma_pow2_pos(m + 1);
    vstd::arithmetic::power2::lemma_pow2_pos(i);
    let w = n % pw2(m + 1);
    let hb = w / pw2(m);
    let rest = w % pw2(m);
    lemma_fundamental_div_mod(w as int, pw2(m) as int);
    assert(hb <= 1) by (nonlinear_arith)
        requires
            hb == w / pw2(m),
            w < pw2(m + 1),
            pw2(m + 1) == pw2(m) * 2,
            pw2(m) > 0,
    ;
    // cur * 2 = w * 2^(i+1) = hb * 2^(m+1+i) + rest * 2^(i+1) = hb * 2^256 + rest * 2^(i+1)
    assert(cur * 2 == hb * p256() + rest * pw2(i + 1)) by (nonlinear_arith)
        requires
            cur == w * pw2(i),
            w == hb * pw2(m) + rest,
            pw2(m) * pw2(i) * 2 == p256(),
            pw2(i + 1) == pw2(i) * 2,
            pw2(m + 1 + i) == p256(),
            pw2(m + 1) * pw2(i) == p256(),
            pw2(m + 1) == pw2(m) * 2,
    ;
    assert(rest * pw2(i + 1) < p256()) by (nonlinear_arith)
        requires
            rest < pw2(m),
            pw2(m) * pw2(i + 1) == p256(),
    ;
    assert(b == hb && cur2 == rest * pw2(i + 1)) by (nonlinear_arith)
        requires
            cur2 + b * p256() == cur * 2,
            cur * 2 == hb * p256() + rest * pw2(i + 1),
            rest * pw2(i + 1) < p256(),
            cur2 < p256(),
            b <= 1,
            hb <= 1,
    ;
    // n % 2^m == rest, and the division step identity.
    let q1 = n / pw2(m + 1);
    lemma_fundamental_div_mod(n as int, pw2(m + 1) as int);
    // n == q1 * 2^(m+1) + w, w == hb * 2^m + rest
    assert(n == (2 * q1 + hb) * pw2(m) + rest) by (nonlinear_arith)
        requires
            n == q1 * pw2(m + 1) + w,
            w == hb * pw2(m) + rest,
            pw2(m + 1) == pw2(m) * 2,
    ;
    lemma_fundamental_div_mod_converse(
        n as int,
        pw2(m) as int,
        (2 * q1 + hb) as int,
        rest as int,
    );
}

/// One quotient/remainder step of restoring division.
proof fn lemma_div_step(n: nat, m: nat, d: nat, q: nat, r: nat, q2: nat, r2: nat, b: nat, qbit: nat)
    requires
        d > 0,
        q * d + r == n / pw2(m + 1),
        n / pw2(m) == 2 * (n / pw2(m + 1)) + b,
        r2 < d,
        qbit <= 1,
        q2 == 2 * q + qbit,
        r2 == 2 * r + b - qbit * d,
    ensures
        q2 * d + r2 == n / pw2(m),
{
    assert(q2 * d + r2 == 2 * (q * d + r) + b) by (nonlinear_arith)
        requires
            q2 == 2 * q + qbit,
            r2 == 2 * r + b - qbit * d,
    ;
}

/// The integer square root of a 256-bit value: the largest `r` with
/// `r * r <= n`. Bit-free binary search, so it is deterministic everywhere.
pub fn sqrt_u256(n: U256) -> (r: u128)
    ensures
        (r as nat) * (r as nat) <= n.value(),
        n.value() < (r as nat + 1) * (r as nat + 1),
{
    let mut lo: u128 = 0;
    let mut hi: u128 = u128::MAX;
    proof {
        lemma_u256_bound(n);
        assert((0xffffffffffffffffffffffffffffffffnat + 1) * (0xffffffffffffffffffffffffffffffffnat
            + 1) == p256()) by (nonlinear_arith);
    }
    while lo < hi
        invariant
            lo <= hi,
            (lo as nat) * (lo as nat) <= n.value(),
            n.value() < (hi as nat + 1) * (hi as nat + 1),
        decreases hi - lo,
    {
        let mid = lo + (hi - lo) / 2 + (hi - lo) % 2;
        let sq = mul_u128_wide(mid, mid);
        if sq.le(n) {
            lo = mid;
        } else {
            proof {
                assert((mid as nat) * (mid as nat) == ((mid - 1) as nat + 1) * ((mid - 1) as nat
                    + 1));
            }
            hi = mid - 1;
        }
    }
    lo
}

} // verus!
