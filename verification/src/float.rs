//! Objective values and float-typed parameters, held as IEEE-754 binary64 bit
//! patterns.
//!
//! The library never does floating-point arithmetic itself: every value that
//! the framework compares (objective values, intermediate reports, bounds of a
//! continuous distribution) is carried as the 64-bit pattern that
//! `f64::to_bits` produces, and compared here with exactly the semantics of
//! IEEE-754 comparison (`<`, `<=`) or of `f64::total_cmp`.
//!
//! A binary64 pattern is a sign bit followed by a 63-bit magnitude. Positive
//! finite values are ordered like their magnitudes, negative ones in reverse,
//! both zeros compare equal, and a magnitude above that of infinity is a NaN,
//! which compares false with everything.
use vstd::prelude::*;

verus! {

/// Bit pattern of the sign bit.
pub const SIGN_BIT: u64 = 0x8000_0000_0000_0000;

/// Magnitude (bits without the sign) of positive infinity.
pub const INFINITY_MAGNITUDE: u64 = 0x7FF0_0000_0000_0000;

/// One IEEE-754 binary64 value, held as its bit pattern.
#[derive(Clone, Copy, Debug, PartialEq, Eq, Structural)]
pub struct FloatBits {
    pub bits: u64,
}

/// The magnitude of a pattern: the pattern without its sign bit.
pub open spec fn magnitude(x: FloatBits) -> int {
    (x.bits % SIGN_BIT) as int
}

/// The sign bit is set.
pub open spec fn sign_set(x: FloatBits) -> bool {
    x.bits >= SIGN_BIT
}

/// The pattern encodes a NaN.
pub open spec fn is_nan_spec(x: FloatBits) -> bool {
    magnitude(x) > INFINITY_MAGNITUDE
}

/// The pattern encodes a finite value (neither infinite nor NaN).
pub open spec fn is_finite_spec(x: FloatBits) -> bool {
    magnitude(x) < INFINITY_MAGNITUDE
}

/// Position of a non-NaN value on the real line: the signed magnitude. Two
/// non-NaN values compare under IEEE-754 exactly as their positions do (both
/// zeros sit at 0).
pub open spec fn position(x: FloatBits) -> int {
    if sign_set(x) {
        -magnitude(x)
    } else {
        magnitude(x)
    }
}

/// IEEE-754 `a < b`.
pub open spec fn lt_spec(a: FloatBits, b: FloatBits) -> bool {
    !is_nan_spec(a) && !is_nan_spec(b) && position(a) < position(b)
}

/// IEEE-754 `a <= b`.
pub open spec fn le_spec(a: FloatBits, b: FloatBits) -> bool {
    !is_nan_spec(a) && !is_nan_spec(b) && position(a) <= position(b)
}

/// The key by which `f64::total_cmp` orders patterns: negative patterns have
/// their low 63 bits flipped and are read as a signed integer.
pub open spec fn total_key(x: FloatBits) -> int {
    if sign_set(x) {
        -1 - magnitude(x)
    } else {
        magnitude(x)
    }
}

/// `f64::total_cmp(a, b) != Greater`.
pub open spec fn total_le(a: FloatBits, b: FloatBits) -> bool {
    total_key(a) <= total_key(b)
}

/// Different patterns have different total-order keys.
pub proof fn lemma_total_key_injective(a: FloatBits, b: FloatBits)
    ensures
        total_key(a) == total_key(b) ==> a == b,
{
    if total_key(a) == total_key(b) {
        assert(a.bits == b.bits);
    }
}

/// The total order of `f64::total_cmp` is a total ordering of patterns.
pub proof fn lemma_total_le_is_total_ordering()
    ensures
        vstd::relations::total_ordering(|a: FloatBits, b: FloatBits| total_le(a, b)),
{
    assert forall|a: FloatBits, b: FloatBits|
        total_le(a, b) && total_le(b, a) implies a == b by {
        lemma_total_key_injective(a, b);
    }
}

/// `2^n`.
pub open spec fn two_pow(n: nat) -> int
    decreases n,
{
    if n == 0 {
        1
    } else {
        2 * two_pow((n - 1) as nat)
    }
}

/// Powers of two grow with the exponent.
pub proof fn lemma_two_pow_monotone(a: nat, b: nat)
    requires
        a <= b,
    ensures
        1 <= two_pow(a) <= two_pow(b),
    decreases b,
{
    if b > 0 {
        if a < b {
            lemma_two_pow_monotone(a, (b - 1) as nat);
        } else {
            lemma_two_pow_monotone(0, (b - 1) as nat);
        }
    }
}

/// The powers of two the conversions below rely on.
pub proof fn lemma_two_pow_values()
    ensures
        two_pow(10) == 1024,
        two_pow(11) == 2048,
        two_pow(12) == 4096,
        two_pow(53) == 0x20_0000_0000_0000,
        two_pow(54) == 0x40_0000_0000_0000,
        two_pow(63) == 0x8000_0000_0000_0000,
{
    reveal_with_fuel(two_pow, 64);
}

/// `2^n`, computed for small `n`.
fn two_pow_exec(n: u64) -> (r: u64)
    requires
        n <= 63,
    ensures
        r == two_pow(n as nat),
{
    let mut p: u64 = 1;
    let mut i: u64 = 0;
    while i < n
        invariant
            i <= n <= 63,
            p == two_pow(i as nat),
        decreases n - i,
    {
        proof {
            lemma_two_pow_monotone(i as nat + 1, 63);
                    lemma_two_pow_values();
        }
        p = p * 2;
        i = i + 1;
    }
    p
}

/// The biased exponent field of a pattern.
pub open spec fn exponent_field(x: FloatBits) -> int {
    magnitude(x) / 0x10_0000_0000_0000
}

/// The fraction field of a pattern.
pub open spec fn fraction_field(x: FloatBits) -> int {
    magnitude(x) % 0x10_0000_0000_0000
}

/// The integer significand: the fraction with the implicit leading bit of a
/// normal number.
pub open spec fn significand(x: FloatBits) -> int {
    if exponent_field(x) == 0 {
        fraction_field(x)
    } else {
        fraction_field(x) + 0x10_0000_0000_0000
    }
}

/// The binary scale: the magnitude of a finite pattern is exactly
/// `significand * 2^scale`.
pub open spec fn scale(x: FloatBits) -> int {
    (if exponent_field(x) == 0 {
        1
    } else {
        exponent_field(x)
    }) - 1075
}

/// The magnitude rounded to the nearest integer, halves away from zero.
pub open spec fn rounded_magnitude(x: FloatBits) -> int {
    if scale(x) >= 0 {
        significand(x) * two_pow(scale(x) as nat)
    } else {
        (2 * significand(x) + two_pow((-scale(x)) as nat)) / two_pow((1 - scale(x)) as nat)
    }
}

/// The magnitude truncated toward zero.
pub open spec fn truncated_magnitude(x: FloatBits) -> int {
    if scale(x) >= 0 {
        significand(x) * two_pow(scale(x) as nat)
    } else {
        significand(x) / two_pow((-scale(x)) as nat)
    }
}

/// `x.round() as i64`: the nearest integer (halves away from zero),
/// saturated to the range of `i64`; a NaN gives 0.
pub open spec fn round_to_i64_spec(x: FloatBits) -> i64 {
    if is_nan_spec(x) {
        0
    } else {
        let v = if sign_set(x) {
            -rounded_magnitude(x)
        } else {
            rounded_magnitude(x)
        };
        if v > i64::MAX {
            i64::MAX
        } else if v < i64::MIN {
            i64::MIN
        } else {
            v as i64
        }
    }
}

/// `x as u64` (`x as usize` on a 64-bit target): truncation toward zero,
/// saturated to the range of `u64`; a NaN gives 0.
pub open spec fn trunc_to_u64_spec(x: FloatBits) -> u64 {
    if is_nan_spec(x) || sign_set(x) {
        0
    } else if truncated_magnitude(x) > u64::MAX {
        u64::MAX
    } else {
        truncated_magnitude(x) as u64
    }
}

impl FloatBits {
    /// Wraps a bit pattern.
    pub fn from_bits(bits: u64) -> (r: FloatBits)
        ensures
            r.bits == bits,
    {
        FloatBits { bits }
    }

    /// The wrapped bit pattern.
    pub fn to_bits(self) -> (r: u64)
        ensures
            r == self.bits,
    {
        self.bits
    }

    /// `f64::is_nan`.
    pub fn is_nan(self) -> (r: bool)
        ensures
            r == is_nan_spec(self),
    {
        self.bits % SIGN_BIT > INFINITY_MAGNITUDE
    }

    /// `f64::is_finite`.
    pub fn is_finite(self) -> (r: bool)
        ensures
            r == is_finite_spec(self),
    {
        self.bits % SIGN_BIT < INFINITY_MAGNITUDE
    }

    /// IEEE-754 `self < other`.
    pub fn lt(self, other: FloatBits) -> (r: bool)
        ensures
            r == lt_spec(self, other),
    {
        if self.is_nan() || other.is_nan() {
            return false;
        }
        let ma = self.bits % SIGN_BIT;
        let mb = other.bits % SIGN_BIT;
        let na = self.bits >= SIGN_BIT;
        let nb = other.bits >= SIGN_BIT;
        if na && nb {
            mb < ma
        } else if na {
            // -ma < mb unless both are zero
            ma != 0 || mb != 0
        } else if nb {
            false
        } else {
            ma < mb
        }
    }

    /// IEEE-754 `self <= other`.
    pub fn le(self, other: FloatBits) -> (r: bool)
        ensures
            r == le_spec(self, other),
    {
        if self.is_nan() || other.is_nan() {
            return false;
        }
        !other.lt(self)
    }

    /// IEEE-754 `self > other`.
    pub fn gt(self, other: FloatBits) -> (r: bool)
        ensures
            r == lt_spec(other, self),
    {
        other.lt(self)
    }

    /// `f64::total_cmp(self, other) != Greater`.
    pub fn total_le(self, other: FloatBits) -> (r: bool)
        ensures
            r == total_le(self, other),
    {
        let ma = self.bits % SIGN_BIT;
        let mb = other.bits % SIGN_BIT;
        let na = self.bits >= SIGN_BIT;
        let nb = other.bits >= SIGN_BIT;
        if na && nb {
            mb <= ma
        } else if na {
            true
        } else if nb {
            false
        } else {
            ma <= mb
        }
    }

    /// `self.round() as i64`.
    pub fn round_to_i64(self) -> (r: i64)
        ensures
            r == round_to_i64_spec(self),
    {
        if self.is_nan() {
            return 0;
        }
        let mag = self.bits % SIGN_BIT;
        let negative = self.bits >= SIGN_BIT;
        let exp = mag / 0x10_0000_0000_0000;
        let frac = mag % 0x10_0000_0000_0000;
        let sig = if exp == 0 {
            frac
        } else {
            frac + 0x10_0000_0000_0000
        };
        let e = if exp == 0 {
            1
        } else {
            exp
        };
        assert(e <= 2047);
        assert(exponent_field(self) == exp && fraction_field(self) == frac);
        assert(significand(self) == sig && sig < 0x20_0000_0000_0000);
        assert(scale(self) == e - 1075);
        let m: u64;
        if e >= 1075 {
            let s = e - 1075;
            if s >= 11 {
                proof {
                    lemma_two_pow_monotone(11, s as nat);
                    lemma_two_pow_values();
                    assert(sig * two_pow(s as nat) >= 0x10_0000_0000_0000 * 2048) by (
                    nonlinear_arith)
                        requires
                            sig >= 0x10_0000_0000_0000,
                            two_pow(s as nat) >= 2048,
                    ;
                }
                return if negative {
                    i64::MIN
                } else {
                    i64::MAX
                };
            }
            let p = two_pow_exec(s);
            proof {
                lemma_two_pow_monotone(s as nat, 10);
                    lemma_two_pow_values();
                assert(sig * p < 0x20_0000_0000_0000 * 1024) by (nonlinear_arith)
                    requires
                        sig < 0x20_0000_0000_0000,
                        1 <= p <= 1024,
                ;
            }
            m = sig * p;
            assert(m == rounded_magnitude(self));
        } else {
            let k = 1075 - e;
            if k >= 54 {
                proof {
                    lemma_two_pow_monotone(54, k as nat);
                    lemma_two_pow_values();
                    assert(two_pow((k + 1) as nat) == 2 * two_pow(k as nat));
                    assert((2 * sig + two_pow(k as nat)) / two_pow((k + 1) as nat) == 0) by (
                    nonlinear_arith)
                        requires
                            sig < 0x20_0000_0000_0000,
                            two_pow(k as nat) >= 0x40_0000_0000_0000,
                            two_pow((k + 1) as nat) == 2 * two_pow(k as nat),
                    ;
                }
                m = 0;
                assert(m == rounded_magnitude(self));
            } else {
                let p = two_pow_exec(k);
                proof {
                    lemma_two_pow_monotone(k as nat, 53);
                    lemma_two_pow_values();
                    assert(two_pow((k + 1) as nat) == 2 * two_pow(k as nat));
                }
                m = (2 * sig + p) / (2 * p);
                proof {
                    assert(m <= 2 * sig + p) by (nonlinear_arith)
                        requires
                            p >= 1,
                            m == (2 * sig + p) / (2 * p),
                    ;
                    assert((1 - scale(self)) as nat == (k + 1) as nat);
                    assert(m == rounded_magnitude(self));
                }
            }
        }
        assert(m < 0x8000_0000_0000_0000);
        if negative {
            -(m as i64)
        } else {
            m as i64
        }
    }

    /// `self as u64` (`self as usize` on a 64-bit target).
    pub fn trunc_to_u64(self) -> (r: u64)
        ensures
            r == trunc_to_u64_spec(self),
    {
        if self.is_nan() || self.bits >= SIGN_BIT {
            return 0;
        }
        let mag = self.bits % SIGN_BIT;
        let exp = mag / 0x10_0000_0000_0000;
        let frac = mag % 0x10_0000_0000_0000;
        let sig = if exp == 0 {
            frac
        } else {
            frac + 0x10_0000_0000_0000
        };
        let e = if exp == 0 {
            1
        } else {
            exp
        };
        assert(e <= 2047);
        if e >= 1075 {
            let s = e - 1075;
            if s >= 12 {
                proof {
                    lemma_two_pow_monotone(12, s as nat);
                    lemma_two_pow_values();
                    assert(sig * two_pow(s as nat) >= 0x10_0000_0000_0000 * 4096) by (
                    nonlinear_arith)
                        requires
                            sig >= 0x10_0000_0000_0000,
                            two_pow(s as nat) >= 4096,
                    ;
                }
                return u64::MAX;
            }
            let p = two_pow_exec(s);
            proof {
                lemma_two_pow_monotone(s as nat, 11);
                    lemma_two_pow_values();
                assert(sig * p < 0x20_0000_0000_0000 * 2048) by (nonlinear_arith)
                    requires
                        sig < 0x20_0000_0000_0000,
                        1 <= p <= 2048,
                ;
            }
            sig * p
        } else {
            let k = 1075 - e;
            if k >= 53 {
                proof {
                    lemma_two_pow_monotone(53, k as nat);
                    lemma_two_pow_values();
                    assert((sig as int) / two_pow(k as nat) == 0) by (nonlinear_arith)
                        requires
                            0 <= sig < 0x20_0000_0000_0000,
                            two_pow(k as nat) >= 0x20_0000_0000_0000,
                    ;
                }
                0
            } else {
                let p = two_pow_exec(k);
                proof {
                    lemma_two_pow_monotone(0, k as nat);
                    assert(sig / p <= sig) by (nonlinear_arith)
                        requires
                            p >= 1,
                            sig >= 0,
                    ;
                }
                sig / p
            }
        }
    }

    /// Unary minus: the same pattern with its sign bit flipped.
    pub fn neg(self) -> (r: FloatBits)
        ensures
            magnitude(r) == magnitude(self),
            sign_set(r) != sign_set(self),
    {
        if self.bits >= SIGN_BIT {
            FloatBits { bits: self.bits - SIGN_BIT }
        } else {
            FloatBits { bits: self.bits + SIGN_BIT }
        }
    }
}

} // verus!
