//! The 256-bit unsigned integer of `primitive_types`, as the verifier sees it:
//! an opaque value that stands for one natural number.

use primitive_types::U256;
use vstd::prelude::*;

verus! {

#[verifier::external_type_specification]
#[verifier::external_body]
pub struct ExU256(U256);

/// The natural number that a `U256` holds: its four 64-bit words, least
/// significant first, read as one number below 2^256.
pub uninterp spec fn u256_value(x: U256) -> nat;

/// `U256::from(u64)`: puts `v` into the lowest word and zero into the others,
/// so the result holds exactly `v`.
#[verifier::external_body]
pub(crate) fn u256_from_u64(v: u64) -> (r: U256)
    ensures
        u256_value(r) == v,
{
    U256::from(v)
}

/// `U256::as_u64`: returns the lowest word, and panics when a higher word is
/// set. The precondition leaves those values out, so the result is the whole
/// number.
#[verifier::external_body]
pub(crate) fn u256_as_u64(x: &U256) -> (r: u64)
    requires
        u256_value(*x) <= u64::MAX,
    ensures
        r == u256_value(*x),
{
    x.as_u64()
}

/// `U256::is_zero`: true exactly when every word is zero, which is when the
/// number held is zero.
#[verifier::external_body]
pub(crate) fn u256_is_zero(x: &U256) -> (r: bool)
    ensures
        r == (u256_value(*x) == 0),
{
    x.is_zero()
}

/// The `%` of `U256` (its `Rem`, which goes through `div_mod`): the remainder
/// of `x` on division by `m`. `div_mod` panics on a zero divisor, which the
/// precondition leaves out.
#[verifier::external_body]
pub(crate) fn u256_rem(x: U256, m: U256) -> (r: U256)
    requires
        u256_value(m) > 0,
    ensures
        u256_value(r) == u256_value(x) % u256_value(m),
{
    x % m
}

/// The `<=` of `U256` (its `Ord`, which compares the words from the most
/// significant down): the order of the numbers held.
#[verifier::external_body]
pub(crate) fn u256_le(a: &U256, b: &U256) -> (r: bool)
    ensures
        r == (u256_value(*a) <= u256_value(*b)),
{
    a <= b
}

} // verus!
