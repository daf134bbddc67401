//! Decimal numbers as plain values, and the product that `rust_decimal` computes.

use vstd::prelude::*;

verus! {

/// A decimal number worth `mantissa * 10^(-scale)`.
///
/// `rust_decimal` represents every value it can hold in this form, with
/// `|mantissa| < 2^96` and `scale <= 28`.
#[derive(Clone, Copy, Debug, PartialEq, Eq)]
pub struct Dec {
    pub mantissa: i128,
    pub scale: u32,
}

/// What `rust_decimal` returns for the product of two decimals: `None` where a
/// factor is not a valid decimal or the product overflows, otherwise the rounded
/// product.
pub uninterp spec fn decimal_product(a: Dec, b: Dec) -> Option<Dec>;

/// Relies on `Decimal::try_from_i128_with_scale` to build both factors and on
/// `Decimal::checked_mul` to multiply them; the result is read back through
/// `Decimal::mantissa` and `Decimal::scale`.
#[verifier::external_body]
pub(crate) fn checked_product(a: Dec, b: Dec) -> (r: Option<Dec>)
    ensures
        r == decimal_product(a, b),
{
    let x = rust_decimal::Decimal::try_from_i128_with_scale(a.mantissa, a.scale).ok()?;
    let y = rust_decimal::Decimal::try_from_i128_with_scale(b.mantissa, b.scale).ok()?;
    let p = x.checked_mul(y)?;
    Some(Dec { mantissa: p.mantissa(), scale: p.scale() })
}

} // verus!
