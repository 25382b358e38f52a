//! Exact conversion of IEEE 754 double-precision bit patterns to fixed point.
//!
//! The planner never computes with floating point. A number that arrives as
//! the eight bytes of a double is taken apart into sign, exponent and
//! fraction, and its value times a scale factor is rounded to a whole number
//! by integer arithmetic alone.

use vstd::arithmetic::power2::{lemma_pow2_pos, lemma_pow2_strictly_increases, lemma2_to64, pow2};
use vstd::bits::lemma_u128_shr_is_div;
use vstd::prelude::*;

verus! {

/// The values of two large powers of two.
proof fn lemma_large_powers()
    ensures
        pow2(126) == 0x4000_0000_0000_0000_0000_0000_0000_0000,
        pow2(127) == 0x8000_0000_0000_0000_0000_0000_0000_0000,
{
    lemma2_to64();
    vstd::arithmetic::power2::lemma2_to64_rest();
    vstd::arithmetic::power2::lemma_pow2_adds(64, 62);
    vstd::arithmetic::power2::lemma_pow2_adds(64, 63);
}

/// The exponent field of a double, 0 to 2047.
pub open spec fn exponent_field(bits: u64) -> int {
    (bits as int / 0x10_0000_0000_0000) % 2048
}

/// The fraction field of a double, 52 bits.
pub open spec fn fraction_field(bits: u64) -> int {
    bits as int % 0x10_0000_0000_0000
}

/// Whether the sign bit of a double is set.
pub open spec fn sign_field(bits: u64) -> bool {
    bits as int / 0x8000_0000_0000_0000 == 1
}

/// Whether the bit pattern is a number: neither an infinity nor a NaN.
pub open spec fn is_finite(bits: u64) -> bool {
    exponent_field(bits) != 2047
}

/// The integer `m` with `|value| = m * 2^(binary_exponent - 1075)`.
pub open spec fn significand(bits: u64) -> int {
    if exponent_field(bits) == 0 {
        fraction_field(bits)
    } else {
        0x10_0000_0000_0000 + fraction_field(bits)
    }
}

/// The biased exponent that goes with `significand`.
pub open spec fn binary_exponent(bits: u64) -> int {
    if exponent_field(bits) == 0 {
        1
    } else {
        exponent_field(bits)
    }
}

/// `|value| * factor`, rounded to the nearest whole number; a half is
/// rounded up.
#[verifier::opaque]
pub open spec fn scaled_magnitude(bits: u64, factor: u32) -> int {
    let e = binary_exponent(bits);
    if e >= 1075 {
        significand(bits) * factor * pow2((e - 1075) as nat)
    } else {
        (significand(bits) * factor + pow2((1074 - e) as nat)) / (pow2((1075 - e) as nat) as int)
    }
}

/// `value * factor`, rounded to the nearest whole number, a half away from
/// zero; nothing for an infinity, a NaN or a result beyond the range of
/// `i64`.
pub open spec fn scaled_value(bits: u64, factor: u32) -> Option<i64> {
    if !is_finite(bits) || scaled_magnitude(bits, factor) > i64::MAX {
        None
    } else if sign_field(bits) {
        Some((-scaled_magnitude(bits, factor)) as i64)
    } else {
        Some(scaled_magnitude(bits, factor) as i64)
    }
}

fn power_of_two(e: u32) -> (p: u128)
    requires
        e <= 126,
    ensures
        p == pow2(e as nat),
{
    proof {
        lemma2_to64();
    }
    let mut p: u128 = 1;
    let mut i: u32 = 0;
    while i < e
        invariant
            i <= e <= 126,
            p == pow2(i as nat),
        decreases e - i,
    {
        proof {
            vstd::arithmetic::power2::lemma_pow2_unfold((i + 1) as nat);
            lemma_large_powers();
            if i + 1 < 126 {
                lemma_pow2_strictly_increases((i + 1) as nat, 126);
            }
        }
        p = p * 2;
        i = i + 1;
    }
    p
}

fn small_power_of_two(e: u64) -> (p: u128)
    requires
        e <= 10,
    ensures
        p == pow2(e as nat),
        1 <= p <= 1024,
{
    proof {
        lemma2_to64();
    }
    let mut p: u128 = 1;
    let mut i: u64 = 0;
    while i < e
        invariant
            i <= e <= 10,
            p == pow2(i as nat),
            1 <= p <= 1024,
        decreases e - i,
    {
        proof {
            vstd::arithmetic::power2::lemma_pow2_unfold((i + 1) as nat);
            lemma2_to64();
            if i + 1 < 10 {
                lemma_pow2_strictly_increases((i + 1) as nat, 10);
            }
        }
        p = p * 2;
        i = i + 1;
    }
    p
}

/// The number that the double `bits` encodes, times `factor`, rounded to
/// the nearest whole number.
pub fn scale_f64_bits(bits: u64, factor: u32) -> (r: Option<i64>)
    requires
        factor >= 1,
    ensures
        r == scaled_value(bits, factor),
{
    reveal(scaled_magnitude);
    let exponent: u64 = (bits / 0x10_0000_0000_0000) % 2048;
    let fraction: u64 = bits % 0x10_0000_0000_0000;
    let negative: bool = bits / 0x8000_0000_0000_0000 == 1;
    if exponent == 2047 {
        return None;
    }
    let m: u64 = if exponent == 0 {
        fraction
    } else {
        0x10_0000_0000_0000 + fraction
    };
    let e: u64 = if exponent == 0 {
        1
    } else {
        exponent
    };
    assert(m as int * factor as int <= 0x20_0000_0000_0000 * 0x1_0000_0000) by (nonlinear_arith)
        requires
            0 <= m < 0x20_0000_0000_0000,
            0 <= factor < 0x1_0000_0000,
    ;
    let product: u128 = (m as u128) * (factor as u128);
    let magnitude: u128 = if e >= 1075 {
        let up: u64 = e - 1075;
        if m == 0 {
            proof {
                assert(significand(bits) * factor * pow2(up as nat) == 0) by (nonlinear_arith)
                    requires
                        significand(bits) == 0,
                ;
            }
            0
        } else if up >= 11 {
            proof {
                lemma2_to64();
                if up > 11 {
                    lemma_pow2_strictly_increases(11, up as nat);
                }
                assert(m as int * factor as int * pow2(up as nat) as int > i64::MAX)
                    by (nonlinear_arith)
                    requires
                        m >= 0x10_0000_0000_0000,
                        factor >= 1,
                        pow2(up as nat) >= 2048,
                ;
            }
            return None;
        } else {
            let power: u128 = small_power_of_two(up);
            assert(product as int * power as int <= 0x20_0000_0000_0000 * 0x1_0000_0000 * 1024)
                by (nonlinear_arith)
                requires
                    0 <= product <= 0x20_0000_0000_0000 * 0x1_0000_0000,
                    0 <= power <= 1024,
            ;
            product * power
        }
    } else {
        let down: u64 = 1075 - e;
        if down >= 128 {
            proof {
                lemma_large_powers();
                vstd::arithmetic::power2::lemma_pow2_unfold(down as nat);
                if down > 128 {
                    lemma_pow2_strictly_increases(127, (down - 1) as nat);
                }
                let half = pow2((down - 1) as nat) as int;
                assert(half >= 0x8000_0000_0000_0000_0000_0000_0000_0000);
                assert((product as int + half) / (2 * half) == 0) by (nonlinear_arith)
                    requires
                        0 <= product < half,
                ;
            }
            0
        } else {
            proof {
                lemma_pow2_pos(down as nat);
                lemma_large_powers();
                if down - 1 < 126 {
                    lemma_pow2_strictly_increases((down - 1) as nat, 126);
                }
            }
            let half: u128 = power_of_two((down - 1) as u32);
            let rounded: u128 = product + half;
            proof {
                lemma_u128_shr_is_div(rounded, down as u128);
            }
            rounded >> (down as u128)
        }
    };
    assert(magnitude == scaled_magnitude(bits, factor));
    if magnitude > 0x7fff_ffff_ffff_ffff {
        None
    } else if negative {
        Some(-(magnitude as i64))
    } else {
        Some(magnitude as i64)
    }
}

/// Coordinate units in one degree.
pub const UNITS_PER_DEGREE: u32 = 10_000_000;

/// Metres in one kilometre.
pub const METRES_PER_KILOMETRE: u32 = 1000;

/// The coordinate for a double that holds degrees; nothing if the double is
/// no number or the coordinate is beyond `i32`.
pub open spec fn coordinate_of(bits: u64) -> Option<i32> {
    match scaled_value(bits, UNITS_PER_DEGREE) {
        Some(v) => if i32::MIN <= v <= i32::MAX {
            Some(v as i32)
        } else {
            None
        },
        None => None,
    }
}

/// The length in metres for a double that holds kilometres; nothing if the
/// double is no number, or the length is negative or beyond `u32`.
pub open spec fn metres_of(bits: u64) -> Option<u32> {
    match scaled_value(bits, METRES_PER_KILOMETRE) {
        Some(v) => if 0 <= v <= u32::MAX {
            Some(v as u32)
        } else {
            None
        },
        None => None,
    }
}

/// The coordinate for a double that holds degrees.
pub fn coordinate_from_bits(bits: u64) -> (coordinate: Option<i32>)
    ensures
        coordinate == coordinate_of(bits),
{
    match scale_f64_bits(bits, UNITS_PER_DEGREE) {
        Some(v) => if -0x8000_0000 <= v && v <= 0x7fff_ffff {
            Some(v as i32)
        } else {
            None
        },
        None => None,
    }
}

/// The length in metres for a double that holds kilometres.
pub fn metres_from_bits(bits: u64) -> (metres: Option<u32>)
    ensures
        metres == metres_of(bits),
{
    match scale_f64_bits(bits, METRES_PER_KILOMETRE) {
        Some(v) => if 0 <= v && v <= 0xffff_ffff {
            Some(v as u32)
        } else {
            None
        },
        None => None,
    }
}

} // verus!
