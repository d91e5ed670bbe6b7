//! Scalar arithmetic on machine doubles, carried as raw bit patterns.
//!
//! Every scalar in the engine is the bit pattern of an IEEE-754 binary64
//! value, held in a `u64`. The arithmetic operations themselves are
//! performed by outside floating-point libraries; each one is named by an
//! uninterpreted spec function of the operand bits, and the contracts of
//! the engine are stated exactly over those names.

use rustc_apfloat::Float;
use vstd::prelude::*;

verus! {

/// Bit pattern of the double 0.0.
pub const ZERO_BITS: u64 = 0x0000000000000000;

/// Bit pattern of the double 1.0.
pub const ONE_BITS: u64 = 0x3FF0000000000000;

/// Bit pattern of the double -1.0.
pub const NEG_ONE_BITS: u64 = 0xBFF0000000000000;

/// The sum of two doubles, as a function of their bit patterns.
pub uninterp spec fn fadd(a: u64, b: u64) -> u64;

/// The difference of two doubles, as a function of their bit patterns.
pub uninterp spec fn fsub(a: u64, b: u64) -> u64;

/// The product of two doubles, as a function of their bit patterns.
pub uninterp spec fn fmul(a: u64, b: u64) -> u64;

/// The quotient of two doubles, as a function of their bit patterns.
pub uninterp spec fn fdiv(a: u64, b: u64) -> u64;

/// The first double raised to the second, as a function of their bit patterns.
pub uninterp spec fn fpow(a: u64, e: u64) -> u64;

/// The hyperbolic tangent of a double, as a function of its bit pattern.
pub uninterp spec fn ftanh(a: u64) -> u64;

/// The exponential of a double, as a function of its bit pattern.
pub uninterp spec fn fexp(a: u64) -> u64;

/// Whether a double is strictly greater than zero.
pub uninterp spec fn fgt_zero(a: u64) -> bool;

/// Relies on rustc_apfloat's binary64 addition (`ieee::Double` + `ieee::Double`,
/// nearest-even rounding): returns the bits of the sum of the two operands.
#[verifier::external_body]
pub(crate) fn add_bits(a: u64, b: u64) -> (r: u64)
    ensures
        r == fadd(a, b),
{
    let x = rustc_apfloat::ieee::Double::from_bits(a as u128);
    let y = rustc_apfloat::ieee::Double::from_bits(b as u128);
    (x + y).value.to_bits() as u64
}

/// Relies on rustc_apfloat's binary64 subtraction (`ieee::Double` - `ieee::Double`,
/// nearest-even rounding): returns the bits of the difference of the two operands.
#[verifier::external_body]
pub(crate) fn sub_bits(a: u64, b: u64) -> (r: u64)
    ensures
        r == fsub(a, b),
{
    let x = rustc_apfloat::ieee::Double::from_bits(a as u128);
    let y = rustc_apfloat::ieee::Double::from_bits(b as u128);
    (x - y).value.to_bits() as u64
}

/// Relies on rustc_apfloat's binary64 multiplication (`ieee::Double` * `ieee::Double`,
/// nearest-even rounding): returns the bits of the product of the two operands.
#[verifier::external_body]
pub(crate) fn mul_bits(a: u64, b: u64) -> (r: u64)
    ensures
        r == fmul(a, b),
{
    let x = rustc_apfloat::ieee::Double::from_bits(a as u128);
    let y = rustc_apfloat::ieee::Double::from_bits(b as u128);
    (x * y).value.to_bits() as u64
}

/// Relies on rustc_apfloat's binary64 division (`ieee::Double` / `ieee::Double`,
/// nearest-even rounding): returns the bits of the quotient of the two operands.
#[verifier::external_body]
pub(crate) fn div_bits(a: u64, b: u64) -> (r: u64)
    ensures
        r == fdiv(a, b),
{
    let x = rustc_apfloat::ieee::Double::from_bits(a as u128);
    let y = rustc_apfloat::ieee::Double::from_bits(b as u128);
    (x / y).value.to_bits() as u64
}

/// Relies on rustc_apfloat's binary64 comparison (`PartialOrd` on `ieee::Double`):
/// whether the operand is strictly greater than zero.
#[verifier::external_body]
pub(crate) fn gt_zero_bits(a: u64) -> (r: bool)
    ensures
        r == fgt_zero(a),
{
    let x = rustc_apfloat::ieee::Double::from_bits(a as u128);
    let z = rustc_apfloat::ieee::Double::from_bits(0);
    x > z
}

/// Relies on libm::pow for the operation and on bytemuck::cast for the
/// bits-to-double conversions: returns the bits of the first operand raised
/// to the second.
#[verifier::external_body]
pub(crate) fn pow_bits(a: u64, e: u64) -> (r: u64)
    ensures
        r == fpow(a, e),
{
    bytemuck::cast(libm::pow(bytemuck::cast(a), bytemuck::cast(e)))
}

/// Relies on libm::tanh for the operation and on bytemuck::cast for the
/// bits-to-double conversions: returns the bits of the hyperbolic tangent of
/// the operand.
#[verifier::external_body]
pub(crate) fn tanh_bits(a: u64) -> (r: u64)
    ensures
        r == ftanh(a),
{
    bytemuck::cast(libm::tanh(bytemuck::cast(a)))
}

/// Relies on libm::exp for the operation and on bytemuck::cast for the
/// bits-to-double conversions: returns the bits of the exponential of the
/// operand.
#[verifier::external_body]
pub(crate) fn exp_bits(a: u64) -> (r: u64)
    ensures
        r == fexp(a),
{
    bytemuck::cast(libm::exp(bytemuck::cast(a)))
}

} // verus!
