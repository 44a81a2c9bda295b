//! IEEE 754 binary32 arithmetic on bit patterns.
//!
//! Every vector component in this crate is carried as the bit pattern (`u32`)
//! of an IEEE 754 binary32 value. The arithmetic itself is done by the
//! `rustc_apfloat` crate, which implements IEEE 754 in software on exactly
//! those bit patterns; each operation is deterministic in its operand bits, so
//! its result is given a name that the callers' contracts compose.

use vstd::prelude::*;

use rustc_apfloat::Float;
use rustc_apfloat::ieee::Single;

verus! {

/// The bit pattern of the IEEE 754 binary32 sum of the values with bit
/// patterns `a` and `b`, rounded to nearest, ties to even.
pub uninterp spec fn add_bits(a: u32, b: u32) -> u32;

/// The bit pattern of the IEEE 754 binary32 product of the values with bit
/// patterns `a` and `b`, rounded to nearest, ties to even.
pub uninterp spec fn mul_bits(a: u32, b: u32) -> u32;

/// The bit pattern of the IEEE 754 binary32 quotient of the values with bit
/// patterns `a` and `b`, rounded to nearest, ties to even.
pub uninterp spec fn div_bits(a: u32, b: u32) -> u32;

/// The bit pattern of the IEEE 754 binary32 value nearest to the integer `n`.
pub uninterp spec fn usize_bits(n: usize) -> u32;

/// What parsing a token as an IEEE 754 binary32 value yields: `None` when the
/// token is not a number, otherwise the value's bit pattern.
pub uninterp spec fn parse_bits(s: Seq<char>) -> Option<u32>;

/// The longest token the number parser is asked to read. The parser's
/// exponent arithmetic positions digits with 32-bit offsets, so a token of
/// two billion digits could overflow it; every genuine number token is
/// orders of magnitude shorter, and a longer one is treated as not a number.
pub const MAX_NUMBER_TOKEN_LEN: usize = 0x100_0000;

/// Relies on `rustc_apfloat::ieee::Single`'s `core::ops::Add` (IEEE 754
/// binary32 addition, round to nearest, ties to even): the result depends on
/// the operand bits alone.
#[verifier::external_body]
pub(crate) fn f32_add(a: u32, b: u32) -> (r: u32)
    ensures
        r == add_bits(a, b),
{
    (Single::from_bits(a as u128) + Single::from_bits(b as u128)).value.to_bits() as u32
}

/// Relies on `rustc_apfloat::ieee::Single`'s `core::ops::Mul` (IEEE 754
/// binary32 multiplication, round to nearest, ties to even): the result
/// depends on the operand bits alone.
#[verifier::external_body]
pub(crate) fn f32_mul(a: u32, b: u32) -> (r: u32)
    ensures
        r == mul_bits(a, b),
{
    (Single::from_bits(a as u128) * Single::from_bits(b as u128)).value.to_bits() as u32
}

/// Relies on `rustc_apfloat::ieee::Single`'s `core::ops::Div` (IEEE 754
/// binary32 division, round to nearest, ties to even): the result depends on
/// the operand bits alone.
#[verifier::external_body]
pub(crate) fn f32_div(a: u32, b: u32) -> (r: u32)
    ensures
        r == div_bits(a, b),
{
    (Single::from_bits(a as u128) / Single::from_bits(b as u128)).value.to_bits() as u32
}

/// Relies on `rustc_apfloat::Float::from_u128` (conversion of an unsigned
/// integer to IEEE 754 binary32, round to nearest, ties to even): the result
/// depends on the integer alone.
#[verifier::external_body]
pub(crate) fn f32_from_usize(n: usize) -> (r: u32)
    ensures
        r == usize_bits(n),
{
    Single::from_u128(n as u128).value.to_bits() as u32
}

/// Relies on `rustc_apfloat::Float::from_str` for `Single` (parsing a decimal
/// or hexadecimal token as an IEEE 754 binary32 value, round to nearest, ties
/// to even; `Err` on a malformed token): the result depends on the characters
/// alone. The length bound keeps the parser's 32-bit digit-position
/// arithmetic, which a hexadecimal token of more than 2^31 digits could
/// overflow, far inside its range.
#[verifier::external_body]
pub(crate) fn f32_parse(s: &str) -> (r: Option<u32>)
    requires
        s@.len() <= MAX_NUMBER_TOKEN_LEN,
    ensures
        r == parse_bits(s@),
{
    match s.parse::<Single>() {
        Ok(v) => Some(v.to_bits() as u32),
        Err(_) => None,
    }
}

} // verus!
