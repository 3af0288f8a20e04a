//! Arbitrary-precision natural numbers, carried by `num_bigint::BigUint`.
//!
//! The certificate chain works on integers of a few hundred bits.  The
//! numbers themselves live in `num_bigint::BigUint`; this module declares the
//! type, names the natural number a `BigUint` holds, and gives every
//! operation the certificate chain needs a contract over that name.

use vstd::prelude::*;

verus! {

#[verifier::external_type_specification]
#[verifier::external_body]
pub struct ExBigUint(num_bigint::BigUint);

/// The natural number a `BigUint` holds.
pub uninterp spec fn big_val(b: num_bigint::BigUint) -> nat;

/// `pow(b, e) % m`, the value `BigUint::modpow` returns.
pub open spec fn pow_mod(b: nat, e: nat, m: nat) -> nat
    recommends
        m > 0,
{
    (vstd::arithmetic::power::pow(b as int, e) % (m as int)) as nat
}

/// The greatest common divisor of two naturals, by Euclid's recurrence.
pub open spec fn gcd_nat(a: nat, b: nat) -> nat
    decreases b,
{
    if b == 0 {
        a
    } else {
        gcd_nat(b, a % b)
    }
}

/// Relies on `BigUint: From<u64>`: the embedding of a machine word.
#[verifier::external_body]
pub fn big_from_u64(v: u64) -> (r: num_bigint::BigUint)
    ensures
        big_val(r) == v as nat,
{
    num_bigint::BigUint::from(v)
}

/// Relies on `ToPrimitive::to_u64` for `BigUint`: returns the value when it
/// fits in a machine word.
#[verifier::external_body]
pub fn big_to_u64(a: &num_bigint::BigUint) -> (r: u64)
    requires
        big_val(*a) < 0x1_0000_0000_0000_0000,
    ensures
        r as nat == big_val(*a),
{
    num_traits::ToPrimitive::to_u64(a).unwrap()
}

/// Relies on `Clone` for `BigUint`: the clone holds an equal value.
pub assume_specification[ <num_bigint::BigUint as Clone>::clone ](a: &num_bigint::BigUint) -> (r:
    num_bigint::BigUint)
    ensures
        big_val(r) == big_val(*a),
;

/// Relies on `Add` for `BigUint`: exact natural addition.
#[verifier::external_body]
pub fn big_add(a: &num_bigint::BigUint, b: &num_bigint::BigUint) -> (r: num_bigint::BigUint)
    ensures
        big_val(r) == big_val(*a) + big_val(*b),
{
    a + b
}

/// Relies on `Add<u64>` for `BigUint`: exact natural addition of a word.
#[verifier::external_body]
pub fn big_add_u64(a: &num_bigint::BigUint, b: u64) -> (r: num_bigint::BigUint)
    ensures
        big_val(r) == big_val(*a) + b as nat,
{
    a + b
}

/// Relies on `Sub<u64>` for `BigUint`: exact natural subtraction, which
/// panics on underflow, so the argument must be at least as large.
#[verifier::external_body]
pub fn big_sub_u64(a: &num_bigint::BigUint, b: u64) -> (r: num_bigint::BigUint)
    requires
        big_val(*a) >= b as nat,
    ensures
        big_val(r) == big_val(*a) - b as nat,
{
    a - b
}

/// Relies on `Mul` for `BigUint`: exact natural multiplication.
#[verifier::external_body]
pub fn big_mul(a: &num_bigint::BigUint, b: &num_bigint::BigUint) -> (r: num_bigint::BigUint)
    ensures
        big_val(r) == big_val(*a) * big_val(*b),
{
    a * b
}

/// Relies on `Shl<usize>` for `BigUint`: a left shift multiplies by a power
/// of two.
#[verifier::external_body]
pub fn big_shl(a: &num_bigint::BigUint, k: usize) -> (r: num_bigint::BigUint)
    ensures
        big_val(r) == big_val(*a) * vstd::arithmetic::power2::pow2(k as nat),
{
    a << k
}

/// Relies on `Ord` for `BigUint`: the order of the held values.
#[verifier::external_body]
pub fn big_lt(a: &num_bigint::BigUint, b: &num_bigint::BigUint) -> (r: bool)
    ensures
        r == (big_val(*a) < big_val(*b)),
{
    a < b
}

/// Relies on `One::is_one` for `BigUint`: whether the held value is 1.
#[verifier::external_body]
pub fn big_is_one(a: &num_bigint::BigUint) -> (r: bool)
    ensures
        r == (big_val(*a) == 1),
{
    num_traits::One::is_one(a)
}

/// Relies on `BigUint::modpow`, documented as `(self ^ exponent) % modulus`,
/// which panics when the modulus is zero.
#[verifier::external_body]
pub fn big_modpow(
    base: &num_bigint::BigUint,
    exponent: &num_bigint::BigUint,
    modulus: &num_bigint::BigUint,
) -> (r: num_bigint::BigUint)
    requires
        big_val(*modulus) > 0,
    ensures
        big_val(r) == pow_mod(big_val(*base), big_val(*exponent), big_val(*modulus)),
{
    base.modpow(exponent, modulus)
}

/// Relies on `Integer::gcd` for `BigUint`: the greatest common divisor.
#[verifier::external_body]
pub fn big_gcd(a: &num_bigint::BigUint, b: &num_bigint::BigUint) -> (r: num_bigint::BigUint)
    ensures
        big_val(r) == gcd_nat(big_val(*a), big_val(*b)),
{
    num_integer::Integer::gcd(a, b)
}

} // verus!
