//! Hash-to-prime with Pocklington certificates.
//!
//! From an arbitrary sequence of field-sized inputs this library derives a
//! large integer that is provably prime, together with a compact certificate
//! of primality based on Pocklington's criterion and a check-only mirror of
//! the derivation that re-checks every arithmetic relation of the certificate.

use vstd::prelude::*;

pub mod bigint;
pub mod cert;
pub mod circuit;
pub mod entropy;
pub mod field;
pub mod hasher;
pub mod laws;
pub mod plan;

verus! {

} // verus!
