//! Checked conversion of times and sizes into the store's integers.

use vstd::prelude::*;
use crate::error::ErrorKind;

verus! {

/// `cast::Error`, the reason a checked cast gives for refusing a value.
#[verifier::external_type_specification]
#[verifier::external_body]
pub struct ExCastError(cast::Error);

/// `cast::i64` on a `u64`: the same number as an `i64` where it is at most
/// `i64::MAX`, and an error for every larger one.
#[verifier::external_body]
pub(crate) fn cast_i64(value: u64) -> (cast: Result<i64, cast::Error>)
    ensures
        value <= i64::MAX ==> cast == Ok::<i64, cast::Error>(value as i64),
        value > i64::MAX ==> cast is Err,
{
    cast::i64(value)
}

/// Whether `value` fits the store's signed 64-bit integers.
pub open spec fn fits(value: u64) -> bool {
    value <= i64::MAX
}

/// A time or a size as the store keeps it. A value that does not fit is
/// refused; it is never cut short.
pub fn to_signed(value: u64) -> (signed: Result<i64, ErrorKind>)
    ensures
        fits(value) ==> signed == Ok::<i64, ErrorKind>(value as i64),
        !fits(value) ==> signed == Err::<i64, ErrorKind>(ErrorKind::NumericOverflow),
{
    match cast_i64(value) {
        Ok(signed) => Ok(signed),
        Err(_) => Err(ErrorKind::NumericOverflow),
    }
}

} // verus!
