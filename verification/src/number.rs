//! Double-precision numbers, held by their IEEE-754 bit pattern.
//!
//! The library never computes with floating point. A [`Number`] carries the
//! 64 bits of a binary64 value and the decimal text that renders it; whoever
//! makes a `Number` supplies both. Everything the library needs to know of
//! the value (whether it is a whole number, and which) is read off the bits
//! with integer arithmetic, against the definitions below.

use vstd::prelude::*;
use vstd::arithmetic::div_mod::{lemma_basic_div, lemma_small_mod};
use vstd::arithmetic::power2::{
    lemma2_to64, lemma2_to64_rest, lemma_pow2_pos, lemma_pow2_strictly_increases, pow2,
};
use vstd::bits::{lemma_u64_pow2_no_overflow, lemma_u64_shl_is_mul};

verus! {

/// 2^52: the weight of the implicit leading bit of a normal significand.
pub const HIDDEN_BIT: u64 = 0x10_0000_0000_0000;

/// 2^63: the sign bit.
pub const SIGN_BIT: u64 = 0x8000_0000_0000_0000;

/// The sign of a binary64 bit pattern.
pub open spec fn is_negative(bits: u64) -> bool {
    bits >= SIGN_BIT
}

/// The 11-bit exponent field of a binary64 bit pattern.
pub open spec fn biased_exponent(bits: u64) -> nat {
    ((bits / HIDDEN_BIT) % 2048) as nat
}

/// The 52-bit fraction field of a binary64 bit pattern.
pub open spec fn fraction(bits: u64) -> nat {
    (bits % HIDDEN_BIT) as nat
}

/// Neither an infinity nor a NaN.
pub open spec fn is_finite(bits: u64) -> bool {
    biased_exponent(bits) != 2047
}

/// The integer `m` in the reading `(-1)^s * m * 2^q` of a finite pattern.
pub open spec fn significand(bits: u64) -> nat {
    if biased_exponent(bits) == 0 {
        fraction(bits)
    } else {
        HIDDEN_BIT as nat + fraction(bits)
    }
}

/// The power `q` in the reading `(-1)^s * m * 2^q` of a finite pattern.
pub open spec fn exponent(bits: u64) -> int {
    if biased_exponent(bits) == 0 {
        -1074
    } else {
        biased_exponent(bits) - 1075
    }
}

/// The absolute value of the number, where it is finite and a whole number.
pub open spec fn whole_magnitude(bits: u64) -> Option<nat> {
    let m = significand(bits);
    let q = exponent(bits);
    if !is_finite(bits) {
        None
    } else if q >= 0 {
        Some(m * pow2(q as nat))
    } else if m % pow2((-q) as nat) == 0 {
        Some(m / pow2((-q) as nat))
    } else {
        None
    }
}

/// The number as a mathematical integer, where it is finite and a whole
/// number. Both zeros are the integer 0.
pub open spec fn integer_value(bits: u64) -> Option<int> {
    match whole_magnitude(bits) {
        Some(m) => Some(if is_negative(bits) { -(m as int) } else { m as int }),
        None => None,
    }
}

/// `v` brought into the range that 64-bit integers cover, signed below zero
/// and unsigned above.
pub open spec fn clamp_to_64_bits(v: int) -> int {
    if v > u64::MAX {
        u64::MAX as int
    } else if v < i64::MIN {
        i64::MIN as int
    } else {
        v
    }
}

/// What a [`Number`] stands for.
pub struct NumberModel {
    pub bits: u64,
    pub text: Seq<char>,
}

/// A double-precision number.
///
/// `bits` is its IEEE-754 binary64 bit pattern. `text` is its decimal
/// rendering, used where the number serves as an object key.
#[derive(Debug, PartialEq, Eq)]
pub struct Number {
    pub bits: u64,
    pub text: String,
}

impl View for Number {
    type V = NumberModel;

    open spec fn view(&self) -> NumberModel {
        NumberModel { bits: self.bits, text: self.text@ }
    }
}

impl DeepView for Number {
    type V = NumberModel;

    open spec fn deep_view(&self) -> NumberModel {
        self@
    }
}

impl Clone for Number {
    fn clone(&self) -> (copy: Number)
        ensures
            copy@ == self@,
    {
        Number { bits: self.bits, text: self.text.clone() }
    }
}

/// 2^k as a machine integer.
fn power_of_two(k: u64) -> (p: u64)
    requires
        k < 64,
    ensures
        p == pow2(k as nat),
{
    proof {
        lemma_u64_pow2_no_overflow(k as nat);
        lemma_u64_shl_is_mul(1, k);
    }
    1u64 << k
}

impl Number {
    /// A number from its bit pattern and its decimal rendering.
    pub fn new(bits: u64, text: String) -> (number: Number)
        ensures
            number@ == (NumberModel { bits, text: text@ }),
    {
        Number { bits, text }
    }

    /// The number as an integer, if it is a whole number: exactly where it
    /// lies between `i64::MIN` and `u64::MAX`, and the nearer of those two
    /// bounds where it lies outside. `None` for a number with a fractional
    /// part, an infinity or a NaN.
    pub fn to_integer(&self) -> (result: Option<i128>)
        ensures
            match integer_value(self.bits) {
                Some(v) => result == Some(clamp_to_64_bits(v) as i128),
                None => result is None,
            },
    {
        let bits = self.bits;
        let negative = bits >= SIGN_BIT;
        let field: u64 = (bits / HIDDEN_BIT) % 2048;
        let fraction: u64 = bits % HIDDEN_BIT;
        proof {
            lemma2_to64();
            lemma2_to64_rest();
        }
        if field == 2047 {
            // An infinity or a NaN.
            None
        } else if field == 0 {
            // A zero or a subnormal number: a multiple of 2^-1074 below 2^-1022.
            proof {
                lemma_pow2_strictly_increases(52, 1074);
                lemma_small_mod(fraction as nat, pow2(1074));
                lemma_basic_div(fraction as int, pow2(1074) as int);
            }
            if fraction == 0 {
                Some(0)
            } else {
                None
            }
        } else if field < 1023 {
            // Below one in magnitude, and not zero.
            proof {
                let shift = (1075 - field) as nat;
                if shift > 53 {
                    lemma_pow2_strictly_increases(53, shift);
                }
                lemma_small_mod((HIDDEN_BIT + fraction) as nat, pow2(shift));
            }
            None
        } else if field < 1075 {
            // Between 1 and 2^52: whole if the bits below the point are zero.
            let significand: u64 = HIDDEN_BIT + fraction;
            let divisor: u64 = power_of_two(1075 - field);
            proof {
                lemma_pow2_pos((1075 - field) as nat);
            }
            if significand % divisor == 0 {
                let magnitude: u64 = significand / divisor;
                if negative {
                    Some(-(magnitude as i128))
                } else {
                    Some(magnitude as i128)
                }
            } else {
                None
            }
        } else if field - 1075 < 11 {
            // Between 2^52 and 2^63: whole, and within range either way.
            let significand: u64 = HIDDEN_BIT + fraction;
            let factor: u64 = power_of_two(field - 1075);
            proof {
                if field - 1075 < 10 {
                    lemma_pow2_strictly_increases((field - 1075) as nat, 10);
                }
                assert(significand * factor < 0x8000_0000_0000_0000) by (nonlinear_arith)
                    requires
                        significand < 0x20_0000_0000_0000,
                        factor <= 0x400,
                ;
            }
            let magnitude: u64 = significand * factor;
            if negative {
                Some(-(magnitude as i128))
            } else {
                Some(magnitude as i128)
            }
        } else {
            // 2^63 or more in magnitude: out of range below zero, and above
            // zero from 2^64 on.
            let ghost significand = (HIDDEN_BIT + fraction) as nat;
            let ghost power = (field - 1075) as nat;
            proof {
                if power > 11 {
                    lemma_pow2_strictly_increases(11, power);
                }
                assert(significand * pow2(power) >= 0x8000_0000_0000_0000) by (nonlinear_arith)
                    requires
                        significand >= 0x10_0000_0000_0000,
                        pow2(power) >= 0x800,
                ;
                if power >= 12 {
                    if power > 12 {
                        lemma_pow2_strictly_increases(12, power);
                    }
                    assert(significand * pow2(power) >= 0x1_0000_0000_0000_0000)
                        by (nonlinear_arith)
                        requires
                            significand >= 0x10_0000_0000_0000,
                            pow2(power) >= 0x1000,
                    ;
                }
            }
            if negative {
                Some(i64::MIN as i128)
            } else if field - 1075 >= 12 {
                Some(u64::MAX as i128)
            } else {
                let significand: u64 = HIDDEN_BIT + fraction;
                proof {
                    assert(significand * 0x800 <= u64::MAX) by (nonlinear_arith)
                        requires
                            significand < 0x20_0000_0000_0000,
                    ;
                }
                Some((significand * 0x800) as i128)
            }
        }
    }
}

} // verus!
