//! Double-precision numbers, held as their IEEE-754 binary64 bit patterns.
//!
//! Sign, ordering and equality are decided here on the bits themselves.
//! Rounded arithmetic and the reading of decimal literals are computed by the
//! `rustc_apfloat` software implementation, behind the five private functions
//! at the end of this file whose contracts are taken on trust.

use vstd::prelude::*;
use vstd::string::*;

verus! {

/// The sign bit of a binary64 pattern.
pub const SIGN_BIT: u64 = 0x8000_0000_0000_0000;

/// The pattern of positive infinity; a larger magnitude is a NaN.
pub const INFINITY_BITS: u64 = 0x7FF0_0000_0000_0000;

/// The pattern without its sign bit.
pub open spec fn magnitude(bits: u64) -> u64 {
    if bits >= SIGN_BIT {
        (bits - SIGN_BIT) as u64
    } else {
        bits
    }
}

/// True when the sign bit is set.
pub open spec fn is_negative(bits: u64) -> bool {
    bits >= SIGN_BIT
}

/// True when the pattern is a NaN: all exponent bits set and a nonzero fraction.
pub open spec fn is_nan(bits: u64) -> bool {
    magnitude(bits) > INFINITY_BITS
}

/// For patterns other than NaN, an integer that orders as the numbers do.
/// Both zeros have key 0.
pub open spec fn order_key(bits: u64) -> int {
    if is_negative(bits) {
        -(magnitude(bits) as int)
    } else {
        magnitude(bits) as int
    }
}

/// IEEE-754 equality: a NaN equals nothing, the two zeros are equal.
pub open spec fn number_eq(a: u64, b: u64) -> bool {
    !is_nan(a) && !is_nan(b) && order_key(a) == order_key(b)
}

/// IEEE-754 `<`: false when either side is a NaN.
pub open spec fn number_lt(a: u64, b: u64) -> bool {
    !is_nan(a) && !is_nan(b) && order_key(a) < order_key(b)
}

/// Negation flips the sign bit and nothing else, of a NaN too.
pub open spec fn negated(bits: u64) -> u64 {
    if bits >= SIGN_BIT {
        (bits - SIGN_BIT) as u64
    } else {
        (bits + SIGN_BIT) as u64
    }
}

fn magnitude_of(bits: u64) -> (m: u64)
    ensures
        m == magnitude(bits),
{
    if bits >= SIGN_BIT {
        bits - SIGN_BIT
    } else {
        bits
    }
}

/// Tells whether the pattern is a NaN.
pub fn nan(bits: u64) -> (r: bool)
    ensures
        r == is_nan(bits),
{
    magnitude_of(bits) > INFINITY_BITS
}

/// The pattern of the negated number.
pub fn negate(bits: u64) -> (r: u64)
    ensures
        r == negated(bits),
{
    if bits >= SIGN_BIT {
        bits - SIGN_BIT
    } else {
        bits + SIGN_BIT
    }
}

/// Compares two numbers for equality as IEEE-754 does.
pub fn equal(a: u64, b: u64) -> (r: bool)
    ensures
        r == number_eq(a, b),
{
    if nan(a) || nan(b) {
        return false;
    }
    let ma = magnitude_of(a);
    let mb = magnitude_of(b);
    if ma == 0 && mb == 0 {
        true
    } else {
        a == b
    }
}

/// Tells whether `a` is less than `b` as IEEE-754 does.
pub fn less(a: u64, b: u64) -> (r: bool)
    ensures
        r == number_lt(a, b),
{
    if nan(a) || nan(b) {
        return false;
    }
    let ma = magnitude_of(a);
    let mb = magnitude_of(b);
    if a >= SIGN_BIT {
        if b >= SIGN_BIT {
            ma > mb
        } else {
            ma != 0 || mb != 0
        }
    } else {
        if b >= SIGN_BIT {
            false
        } else {
            ma < mb
        }
    }
}

/// Tells whether `a` is greater than `b` as IEEE-754 does.
pub fn greater(a: u64, b: u64) -> (r: bool)
    ensures
        r == number_lt(b, a),
{
    less(b, a)
}

/// The sum that `rustc_apfloat` computes for two binary64 patterns.
pub uninterp spec fn sum_bits(a: u64, b: u64) -> u64;

/// The difference that `rustc_apfloat` computes for two binary64 patterns.
pub uninterp spec fn difference_bits(a: u64, b: u64) -> u64;

/// The product that `rustc_apfloat` computes for two binary64 patterns.
pub uninterp spec fn product_bits(a: u64, b: u64) -> u64;

/// The quotient that `rustc_apfloat` computes for two binary64 patterns.
pub uninterp spec fn quotient_bits(a: u64, b: u64) -> u64;

/// What `rustc_apfloat` reads from a piece of text as a binary64 number:
/// the pattern, or `None` where it rejects the text.
pub uninterp spec fn decimal_bits(text: Seq<char>) -> Option<u64>;

/// Calls `rustc_apfloat`'s `Add` on `ieee::Double`, which rounds to nearest,
/// ties to even. The contract only names the result: the same two patterns
/// always give the same pattern.
#[verifier::external_body]
pub(crate) fn add_bits(a: u64, b: u64) -> (r: u64)
    ensures
        r == sum_bits(a, b),
{
    let x = <rustc_apfloat::ieee::Double as rustc_apfloat::Float>::from_bits(a as u128);
    let y = <rustc_apfloat::ieee::Double as rustc_apfloat::Float>::from_bits(b as u128);
    rustc_apfloat::Float::to_bits((x + y).value) as u64
}

/// Calls `rustc_apfloat`'s `Sub` on `ieee::Double`, which rounds to nearest,
/// ties to even. The contract only names the result.
#[verifier::external_body]
pub(crate) fn subtract_bits(a: u64, b: u64) -> (r: u64)
    ensures
        r == difference_bits(a, b),
{
    let x = <rustc_apfloat::ieee::Double as rustc_apfloat::Float>::from_bits(a as u128);
    let y = <rustc_apfloat::ieee::Double as rustc_apfloat::Float>::from_bits(b as u128);
    rustc_apfloat::Float::to_bits((x - y).value) as u64
}

/// Calls `rustc_apfloat`'s `Mul` on `ieee::Double`, which rounds to nearest,
/// ties to even. The contract only names the result.
#[verifier::external_body]
pub(crate) fn multiply_bits(a: u64, b: u64) -> (r: u64)
    ensures
        r == product_bits(a, b),
{
    let x = <rustc_apfloat::ieee::Double as rustc_apfloat::Float>::from_bits(a as u128);
    let y = <rustc_apfloat::ieee::Double as rustc_apfloat::Float>::from_bits(b as u128);
    rustc_apfloat::Float::to_bits((x * y).value) as u64
}

/// Calls `rustc_apfloat`'s `Div` on `ieee::Double`, which rounds to nearest,
/// ties to even. The contract only names the result.
#[verifier::external_body]
pub(crate) fn divide_bits(a: u64, b: u64) -> (r: u64)
    ensures
        r == quotient_bits(a, b),
{
    let x = <rustc_apfloat::ieee::Double as rustc_apfloat::Float>::from_bits(a as u128);
    let y = <rustc_apfloat::ieee::Double as rustc_apfloat::Float>::from_bits(b as u128);
    rustc_apfloat::Float::to_bits((x / y).value) as u64
}

/// The longest text, in bytes, handed to `rustc_apfloat` for reading. Its
/// readers convert distances between positions of the text, digit counts and
/// bit counts of up to four bits for each digit to 32-bit integers, and
/// multiply the number of digits by 196 in `usize`: under this bound all of
/// them fit, with room to spare.
pub const READABLE_LEN: usize = 0x0100_0000;

/// Calls `rustc_apfloat`'s `FromStr` for `ieee::Double`, which rounds to
/// nearest, ties to even. The contract only names the result, `None` standing
/// for the crate's `ParseError`; it leaves out texts longer than
/// [`READABLE_LEN`], on some of which the crate's size arithmetic fails.
#[verifier::external_body]
pub(crate) fn read_bits(text: &str) -> (r: Option<u64>)
    requires
        text.spec_bytes().len() <= READABLE_LEN,
    ensures
        r == decimal_bits(text@),
{
    match text.parse::<rustc_apfloat::ieee::Double>() {
        Ok(x) => Some(rustc_apfloat::Float::to_bits(x) as u64),
        Err(_) => None,
    }
}

} // verus!
