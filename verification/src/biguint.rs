//! What this crate takes on trust about arbitrary-precision integers.

use vstd::arithmetic::power::pow;
use vstd::prelude::*;

verus! {

/// Makes `num_bigint::BigUint` known to the verifier, as a type that it does
/// not look into.
#[verifier::external_type_specification]
#[verifier::external_body]
pub struct ExBigUint(num_bigint::BigUint);

/// The natural number that a `BigUint` holds. Nothing is proved of it: what is
/// known of it is what the two functions below claim.
pub uninterp spec fn biguint_value(n: num_bigint::BigUint) -> nat;

/// Calls `BigUint::from` on a `usize`. Trusted: the result holds the number
/// that was given.
#[verifier::external_body]
pub(crate) fn biguint_from_usize(n: usize) -> (r: num_bigint::BigUint)
    ensures
        biguint_value(r) == n,
{
    num_bigint::BigUint::from(n)
}

/// Calls `num_traits::pow::pow` on a `BigUint`, which multiplies by repeated
/// squaring. Trusted: the result holds the base raised to the exponent, and
/// one where the exponent is zero; a `BigUint` does not overflow.
#[verifier::external_body]
pub(crate) fn biguint_pow(base: num_bigint::BigUint, exp: usize) -> (r: num_bigint::BigUint)
    ensures
        biguint_value(r) == pow(biguint_value(base) as int, exp as nat),
{
    num_traits::pow::pow(base, exp)
}

} // verus!
