use vstd::prelude::*;
use vstd::arithmetic::power2::{pow2, lemma_pow2_pos, lemma_pow2_unfold, lemma_pow2_strictly_increases};
use vstd::arithmetic::div_mod::{lemma_basic_div, lemma_fundamental_div_mod};
use vstd::bits::{lemma_u64_shl_is_mul, lemma_u64_pow2_no_overflow};

verus! {

/// Exclusive bound on the magnitude of a mantissa (`2^53`).
pub const MANTISSA_LIMIT: i64 = 9007199254740992;

/// Smallest exponent of a finite double (that of its subnormals).
pub const MIN_EXPONENT: i32 = -1074;

/// Largest exponent of a finite double with a 53-bit mantissa.
pub const MAX_EXPONENT: i32 = 971;

/// A finite filter weight, held exactly as `mantissa * 2^exponent`.
///
/// Every finite double has such a form, so weights computed in floating point
/// are carried here without loss.
#[derive(Clone, Copy, Debug, PartialEq, Eq, Structural)]
pub struct Weight {
    pub mantissa: i64,
    pub exponent: i32,
}

/// `n / d` rounded to the nearest integer, halves away from zero.
pub open spec fn round_half_away(n: int, d: int) -> int {
    if n >= 0 {
        (n + d / 2) / d
    } else {
        -((-n + d / 2) / d)
    }
}

/// `v` limited to `[lo, hi]`.
pub open spec fn clamp(v: int, lo: int, hi: int) -> int {
    if v < lo {
        lo
    } else if v > hi {
        hi
    } else {
        v
    }
}

/// `w * 2^k` rounded to the nearest integer, halves away from zero.
pub open spec fn round_scaled(w: Weight, k: int) -> int {
    let s = w.exponent + k;
    if s >= 0 {
        w.mantissa * pow2(s as nat)
    } else {
        round_half_away(w.mantissa as int, pow2((-s) as nat) as int)
    }
}

impl Weight {
    /// The mantissa and the exponent lie in the ranges of finite doubles.
    pub open spec fn wf(self) -> bool {
        -MANTISSA_LIMIT < self.mantissa < MANTISSA_LIMIT && MIN_EXPONENT <= self.exponent
            <= MAX_EXPONENT
    }
}

/// The weight that the IEEE 754 binary64 encoding `bits` stands for, or `None`
/// for an infinity or a NaN.
pub open spec fn decode_binary64(bits: u64) -> Option<Weight> {
    let negative = bits / 0x8000_0000_0000_0000 == 1;
    let biased = (bits / 0x10_0000_0000_0000) % 0x800;
    let fraction = bits % 0x10_0000_0000_0000;
    if biased == 0x7ff {
        None
    } else {
        let magnitude: int = if biased == 0 {
            fraction as int
        } else {
            fraction + 0x10_0000_0000_0000
        };
        let exponent: int = if biased == 0 {
            -1074
        } else {
            biased - 1075
        };
        Some(
            Weight {
                mantissa: (if negative {
                    -magnitude
                } else {
                    magnitude
                }) as i64,
                exponent: exponent as i32,
            },
        )
    }
}

impl Weight {
    /// Reads a weight from the bit pattern of a double (`f64::to_bits`).
    /// Infinities and NaNs have no weight.
    pub fn from_f64_bits(bits: u64) -> (r: Option<Weight>)
        ensures
            r == decode_binary64(bits),
            r matches Some(w) ==> w.wf(),
    {
        let negative = bits / 0x8000_0000_0000_0000 == 1;
        let biased = (bits / 0x10_0000_0000_0000) % 0x800;
        let fraction = bits % 0x10_0000_0000_0000;
        if biased == 0x7ff {
            return None;
        }
        let magnitude: i64 = if biased == 0 {
            fraction as i64
        } else {
            (fraction + 0x10_0000_0000_0000) as i64
        };
        let exponent: i32 = if biased == 0 {
            -1074
        } else {
            biased as i32 - 1075
        };
        let mantissa = if negative {
            -magnitude
        } else {
            magnitude
        };
        Some(Weight { mantissa, exponent })
    }
}

/// Scaling a weight by one more bit never lowers its rounded value, unless the
/// weight is negative.
pub proof fn lemma_round_scaled_grows(w: Weight, k: int)
    requires
        w.mantissa >= 0,
        w.exponent + k >= -2000,
    ensures
        0 <= round_scaled(w, k) <= round_scaled(w, k + 1),
{
    let m = w.mantissa as int;
    let s = w.exponent + k;
    if s >= 0 {
        lemma_pow2_unfold((s + 1) as nat);
        lemma_pow2_pos(s as nat);
        let p = pow2(s as nat) as int;
        assert(0 <= m * p <= m * (2 * p)) by (nonlinear_arith)
            requires m >= 0, p > 0;
    } else if s == -1 {
        lemma_pow2_unfold(1);
        vstd::arithmetic::power2::lemma2_to64();
        assert((m + 1) / 2 <= m);
    } else {
        let t = (-s) as nat;
        lemma_pow2_unfold(t);
        lemma_pow2_unfold((t - 1) as nat);
        lemma_pow2_pos((t - 2) as nat);
        let h = pow2((t - 2) as nat) as int;
        assert(pow2(t) == 4 * h);
        assert(pow2((t - 1) as nat) == 2 * h);
        lemma_fundamental_div_mod(m + h, 2 * h);
        lemma_fundamental_div_mod(m + 2 * h, 4 * h);
        let q = (m + h) / (2 * h);
        let r = (m + h) % (2 * h);
        let q2 = (m + 2 * h) / (4 * h);
        let r2 = (m + 2 * h) % (4 * h);
        assert(0 <= q2 <= q) by (nonlinear_arith)
            requires
                h > 0,
                m >= 0,
                m + h == (2 * h) * q + r,
                0 <= r < 2 * h,
                m + 2 * h == (4 * h) * q2 + r2,
                0 <= r2 < 4 * h,
        ;
    }
}

/// A weight that is not positive rounds to a value that is not positive.
pub proof fn lemma_round_scaled_nonpositive(w: Weight, k: int)
    requires
        w.mantissa <= 0,
    ensures
        round_scaled(w, k) <= 0,
{
    let s = w.exponent + k;
    if s >= 0 {
        let p = pow2(s as nat) as int;
        let m = w.mantissa as int;
        assert(m * p <= 0) by (nonlinear_arith)
            requires m <= 0, p >= 0;
    } else {
        let d = pow2((-s) as nat) as int;
        lemma_pow2_pos((-s) as nat);
        vstd::arithmetic::div_mod::lemma_div_pos_is_pos(-w.mantissa + d / 2, d);
        lemma_basic_div(d / 2, d);
    }
}

/// `2^e` as a machine integer.
pub(crate) fn pow2_u64(e: u32) -> (r: u64)
    requires
        e < 64,
    ensures
        r == pow2(e as nat),
{
    proof {
        lemma_u64_pow2_no_overflow(e as nat);
        lemma_u64_shl_is_mul(1, e as u64);
    }
    1u64 << (e as u64)
}

/// Rounded magnitude of `a * 2^s` (`s >= 0`) or `a / 2^-s` (`s < 0`), where it
/// stays below `2^63`; otherwise some value of at least `2^63`.
fn rounded_magnitude(a: u64, s: i64) -> (r: u128)
    requires
        a < MANTISSA_LIMIT,
        -2000 < s < 2000,
    ensures
        s >= 0 ==> (if a * pow2(s as nat) < 0x8000_0000_0000_0000 {
            r == a * pow2(s as nat)
        } else {
            r >= 0x8000_0000_0000_0000
        }),
        s < 0 ==> r == (a + pow2((-s) as nat) / 2) / (pow2((-s) as nat) as int),
{
    if s >= 0 {
        if s >= 63 {
            proof {
                if s > 63 {
                    lemma_pow2_strictly_increases(63, s as nat);
                }
                vstd::arithmetic::power2::lemma2_to64_rest();
                if a > 0 {
                    assert(a * pow2(s as nat) >= pow2(s as nat)) by (nonlinear_arith)
                        requires a >= 1;
                }
            }
            if a == 0 {
                proof {
                    assert(a * pow2(s as nat) == 0);
                }
                0
            } else {
                0x8000_0000_0000_0000
            }
        } else {
            let d = pow2_u64(s as u32);
            proof {
                assert((a as int) * (d as int) < 0x1_0000_0000_0000_0000_0000_0000_0000_0000)
                    by (nonlinear_arith)
                    requires a < 0x20_0000_0000_0000, d < 0x1_0000_0000_0000_0000;
            }
            (a as u128) * (d as u128)
        }
    } else {
        let t = -s;
        proof { lemma_pow2_pos(t as nat); }
        if t >= 60 {
            proof {
                lemma_pow2_unfold(t as nat);
                lemma_pow2_strictly_increases(53, (t - 1) as nat);
                vstd::arithmetic::power2::lemma2_to64();
                vstd::arithmetic::power2::lemma2_to64_rest();
                lemma_basic_div(a + pow2((t - 1) as nat), pow2(t as nat) as int);
            }
            0
        } else {
            let d = pow2_u64(t as u32);
            proof {
                lemma_u64_pow2_no_overflow(t as nat);
                lemma_pow2_strictly_increases(t as nat, 60);
                vstd::arithmetic::power2::lemma2_to64();
                vstd::arithmetic::power2::lemma2_to64_rest();
            }
            ((a + d / 2) / d) as u128
        }
    }
}

/// `round_scaled(w, k)` saturated to `[lo, hi]`.
pub fn round_scaled_clamped(w: &Weight, k: u32, lo: i64, hi: i64) -> (r: i64)
    requires
        w.wf(),
        k <= 64,
        -0x4000_0000_0000_0000 <= lo <= 0 <= hi <= 0x4000_0000_0000_0000,
    ensures
        r == clamp(round_scaled(*w, k as int), lo as int, hi as int),
{
    let m = w.mantissa;
    let s: i64 = w.exponent as i64 + k as i64;
    let a: u64 = if m < 0 {
        (-m) as u64
    } else {
        m as u64
    };
    let mag = rounded_magnitude(a, s);
    proof {
        if s >= 0 {
            if m < 0 {
                assert(m * pow2(s as nat) == -(a * pow2(s as nat))) by (nonlinear_arith)
                    requires a == -m;
            }
            assert(a * pow2(s as nat) >= 0) by (nonlinear_arith)
                requires a >= 0;
        }
    }
    if m >= 0 {
        if mag > hi as u128 {
            hi
        } else {
            mag as i64
        }
    } else {
        if mag > (-lo) as u128 {
            lo
        } else {
            -(mag as i64)
        }
    }
}

} // verus!
