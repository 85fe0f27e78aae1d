//! Signed fixed-point arithmetic with 32 integer and 32 fractional bits.
//!
//! A value is handled here by its raw bits: the `i64` whose value divided
//! by `2^32` is the number it stands for. The arithmetic itself is done by
//! `substrate_fixed::types::I32F32`.

use substrate_fixed::types::I32F32;
use vstd::prelude::*;

verus! {

/// The raw bits of the fixed-point number one.
pub const ONE_BITS: i64 = 0x1_0000_0000;

/// Whether an integer fits in the raw bits of a fixed-point number.
pub open spec fn fits(v: int) -> bool {
    i64::MIN <= v <= i64::MAX
}

/// The raw bits of the product of two fixed-point numbers given by their
/// raw bits, rounded toward negative infinity.
pub open spec fn product(a: int, b: int) -> int {
    (a * b) / (ONE_BITS as int)
}

/// Relies on `From<i32> for I32F32`: the integer shifted left by the 32
/// fractional bits, which never overflows.
#[verifier::external_body]
pub(crate) fn from_int(n: i32) -> (r: i64)
    ensures
        r == n * ONE_BITS,
{
    I32F32::from(n).to_bits()
}

/// Relies on `I32F32::checked_add`: the sum of the raw bits, or `None`
/// where it leaves the range of `i64`.
#[verifier::external_body]
pub(crate) fn checked_add(a: i64, b: i64) -> (r: Option<i64>)
    ensures
        r == (if fits(a + b) { Some((a + b) as i64) } else { None::<i64> }),
{
    I32F32::from_bits(a).checked_add(I32F32::from_bits(b)).map(I32F32::to_bits)
}

/// Relies on `I32F32::checked_sub`: the difference of the raw bits, or
/// `None` where it leaves the range of `i64`.
#[verifier::external_body]
pub(crate) fn checked_sub(a: i64, b: i64) -> (r: Option<i64>)
    ensures
        r == (if fits(a - b) { Some((a - b) as i64) } else { None::<i64> }),
{
    I32F32::from_bits(a).checked_sub(I32F32::from_bits(b)).map(I32F32::to_bits)
}

/// Relies on `I32F32::checked_mul`: the product is formed at double width
/// as `a * (b << 32)` and shifted right by 64 bits, so it is rounded toward
/// negative infinity; the double-width product overflows exactly when the
/// rounded result leaves the range of `i64`, and then `None` comes back.
#[verifier::external_body]
pub(crate) fn checked_mul(a: i64, b: i64) -> (r: Option<i64>)
    ensures
        r == (if fits(product(a as int, b as int)) {
            Some(product(a as int, b as int) as i64)
        } else {
            None::<i64>
        }),
{
    I32F32::from_bits(a).checked_mul(I32F32::from_bits(b)).map(I32F32::to_bits)
}

} // verus!
