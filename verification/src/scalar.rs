//! IEEE 754 binary64 scalars as `u64` bit patterns.
//!
//! The engine never holds a native floating-point value: a scalar is its bit
//! pattern, and each arithmetic operation is a pure function from bit patterns
//! to bit patterns, computed by an outside crate behind a trusted wrapper and
//! named by an uninterpreted spec function. Negation is the one operation whose
//! whole behaviour a few lines can state (flip the sign bit), so it is written
//! here and verified.

use vstd::prelude::*;

use rustc_apfloat::Float;

verus! {

/// The bit pattern of +0.0, the initial value of every gradient accumulator.
pub const POS_ZERO_BITS: u64 = 0x0000_0000_0000_0000;

/// The bit pattern of -0.0.
pub const NEG_ZERO_BITS: u64 = 0x8000_0000_0000_0000;

/// The bit pattern of 1.0, the seed of the root's gradient.
pub const ONE_BITS: u64 = 0x3FF0_0000_0000_0000;

/// The sign bit of a binary64 bit pattern.
pub const SIGN_MASK: u64 = 0x8000_0000_0000_0000;

/// The exponent field of a binary64 bit pattern.
pub const EXP_MASK: u64 = 0x7FF0_0000_0000_0000;

/// The significand field of a binary64 bit pattern.
pub const FRAC_MASK: u64 = 0x000F_FFFF_FFFF_FFFF;

/// Whether the bit pattern encodes a NaN: exponent all ones, significand not zero.
pub open spec fn f_is_nan(x: u64) -> bool {
    x & EXP_MASK == EXP_MASK && x & FRAC_MASK != 0
}

/// IEEE 754 negation: flip the sign bit. Exact for every input, NaN included.
pub open spec fn f_neg(x: u64) -> u64 {
    x ^ SIGN_MASK
}

/// Binary64 addition, round to nearest, ties to even, outside the carve-out
/// that `f_add` states.
pub uninterp spec fn f_add_full(a: u64, b: u64) -> u64;

/// Binary64 addition, round to nearest, ties to even.
///
/// The one stated identity is IEEE 754: adding a non-NaN value other than -0.0
/// to +0.0 returns that value unchanged.
pub open spec fn f_add(a: u64, b: u64) -> u64 {
    if a == POS_ZERO_BITS && !f_is_nan(b) && b != NEG_ZERO_BITS {
        b
    } else {
        f_add_full(a, b)
    }
}

/// Binary64 multiplication, round to nearest, ties to even, outside the
/// carve-out that `f_mul` states.
pub uninterp spec fn f_mul_full(a: u64, b: u64) -> u64;

/// Binary64 multiplication, round to nearest, ties to even.
///
/// The one stated identity is IEEE 754: multiplying a non-NaN value by 1.0
/// returns that value unchanged, zeroes and infinities included.
pub open spec fn f_mul(a: u64, b: u64) -> u64 {
    if b == ONE_BITS && !f_is_nan(a) {
        a
    } else if a == ONE_BITS && !f_is_nan(b) {
        b
    } else {
        f_mul_full(a, b)
    }
}

/// Binary64 subtraction, round to nearest, ties to even.
pub uninterp spec fn f_sub(a: u64, b: u64) -> u64;

/// Binary64 division, round to nearest, ties to even.
pub uninterp spec fn f_div(a: u64, b: u64) -> u64;

/// The base raised to the exponent, as binary64 bit patterns.
pub uninterp spec fn f_pow(a: u64, b: u64) -> u64;

/// The exponential function e^x on binary64 bit patterns.
pub uninterp spec fn f_exp(x: u64) -> u64;

/// The natural logarithm on binary64 bit patterns.
pub uninterp spec fn f_ln(x: u64) -> u64;

/// The logistic sigmoid 1 / (1 + e^(-x)), composed from the operations above.
pub open spec fn f_sigmoid(x: u64) -> u64 {
    f_div(ONE_BITS, f_add(ONE_BITS, f_exp(f_neg(x))))
}

/// Relies on rustc_apfloat::ieee::Double: IEEE 754 binary64 addition of the two
/// bit patterns, round to nearest, ties to even, a function of the arguments
/// alone; +0.0 plus a non-NaN value other than -0.0 is that value unchanged.
#[verifier::external_body]
pub(crate) fn add_bits(a: u64, b: u64) -> (r: u64)
    ensures
        r == f_add(a, b),
        a != POS_ZERO_BITS ==> r == f_add_full(a, b),
{
    let x = rustc_apfloat::ieee::Double::from_bits(a as u128);
    let y = rustc_apfloat::ieee::Double::from_bits(b as u128);
    x.add_r(y, rustc_apfloat::Round::NearestTiesToEven).value.to_bits() as u64
}

/// Relies on rustc_apfloat::ieee::Double: IEEE 754 binary64 subtraction of the
/// two bit patterns, round to nearest, ties to even, a function of the
/// arguments alone.
#[verifier::external_body]
pub(crate) fn sub_bits(a: u64, b: u64) -> (r: u64)
    ensures
        r == f_sub(a, b),
{
    let x = rustc_apfloat::ieee::Double::from_bits(a as u128);
    let y = rustc_apfloat::ieee::Double::from_bits(b as u128);
    x.sub_r(y, rustc_apfloat::Round::NearestTiesToEven).value.to_bits() as u64
}

/// Relies on rustc_apfloat::ieee::Double: IEEE 754 binary64 multiplication of
/// the two bit patterns, round to nearest, ties to even, a function of the
/// arguments alone; a non-NaN value times 1.0 is that value unchanged.
#[verifier::external_body]
pub(crate) fn mul_bits(a: u64, b: u64) -> (r: u64)
    ensures
        r == f_mul(a, b),
        a != ONE_BITS && b != ONE_BITS ==> r == f_mul_full(a, b),
{
    let x = rustc_apfloat::ieee::Double::from_bits(a as u128);
    let y = rustc_apfloat::ieee::Double::from_bits(b as u128);
    x.mul_r(y, rustc_apfloat::Round::NearestTiesToEven).value.to_bits() as u64
}

/// Relies on rustc_apfloat::ieee::Double: IEEE 754 binary64 division of the two
/// bit patterns, round to nearest, ties to even, a function of the arguments
/// alone; division by zero and invalid operands follow IEEE 754 (infinities and
/// NaNs come back, nothing is trapped).
#[verifier::external_body]
pub(crate) fn div_bits(a: u64, b: u64) -> (r: u64)
    ensures
        r == f_div(a, b),
{
    let x = rustc_apfloat::ieee::Double::from_bits(a as u128);
    let y = rustc_apfloat::ieee::Double::from_bits(b as u128);
    x.div_r(y, rustc_apfloat::Round::NearestTiesToEven).value.to_bits() as u64
}

/// IEEE 754 negation of the bit pattern: the sign bit flipped, every other bit
/// kept, NaNs included.
pub fn neg_bits(x: u64) -> (r: u64)
    ensures
        r == f_neg(x),
{
    x ^ SIGN_MASK
}

/// Relies on libm::pow: the base raised to the exponent in binary64, a
/// deterministic function of the two bit patterns alone, total over the
/// extended-real domain (NaNs and infinities propagate, nothing is trapped).
/// bytemuck::cast reinterprets the eight bytes; the sizes match, so it cannot
/// panic.
#[verifier::external_body]
pub(crate) fn pow_bits(a: u64, b: u64) -> (r: u64)
    ensures
        r == f_pow(a, b),
{
    libm::pow(bytemuck::cast(a), bytemuck::cast(b)).to_bits()
}

/// Relies on libm::exp: e^x in binary64, a deterministic function of the bit
/// pattern alone, total over the extended-real domain. bytemuck::cast
/// reinterprets the eight bytes; the sizes match, so it cannot panic.
#[verifier::external_body]
pub(crate) fn exp_bits(x: u64) -> (r: u64)
    ensures
        r == f_exp(x),
{
    libm::exp(bytemuck::cast(x)).to_bits()
}

/// Relies on libm::log: the natural logarithm in binary64, a deterministic
/// function of the bit pattern alone, total over the extended-real domain
/// (a non-positive argument gives NaN or -infinity, nothing is trapped).
/// bytemuck::cast reinterprets the eight bytes; the sizes match, so it cannot
/// panic.
#[verifier::external_body]
pub(crate) fn ln_bits(x: u64) -> (r: u64)
    ensures
        r == f_ln(x),
{
    libm::log(bytemuck::cast(x)).to_bits()
}

/// The constants above are what they claim to be: +0.0, 1.0 and -1.0 are not
/// NaN, and negating 1.0 gives the bit pattern of -1.0.
pub proof fn lemma_bits_facts()
    ensures
        !f_is_nan(POS_ZERO_BITS),
        !f_is_nan(ONE_BITS),
        ONE_BITS != NEG_ZERO_BITS,
        POS_ZERO_BITS != NEG_ZERO_BITS,
        f_neg(ONE_BITS) == 0xBFF0_0000_0000_0000u64,
        !f_is_nan(f_neg(ONE_BITS)),
        f_neg(ONE_BITS) != NEG_ZERO_BITS,
{
    assert(0x0000_0000_0000_0000u64 & 0x7FF0_0000_0000_0000u64 != 0x7FF0_0000_0000_0000u64)
        by (bit_vector);
    assert(0x3FF0_0000_0000_0000u64 & 0x7FF0_0000_0000_0000u64 != 0x7FF0_0000_0000_0000u64)
        by (bit_vector);
    assert(0x3FF0_0000_0000_0000u64 ^ 0x8000_0000_0000_0000u64 == 0xBFF0_0000_0000_0000u64)
        by (bit_vector);
    assert(0xBFF0_0000_0000_0000u64 & 0x7FF0_0000_0000_0000u64 != 0x7FF0_0000_0000_0000u64)
        by (bit_vector);
}

} // verus!
