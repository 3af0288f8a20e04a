//! A small prime field of field-sized values.
//!
//! Hash inputs, hash outputs and search counters are all elements of the
//! field of integers modulo `P = 2^61 - 1` (a Mersenne prime).  Every
//! operation here is plain machine arithmetic carried out in `u128`, so the
//! whole field layer is verified down to the word level.

use vstd::prelude::*;

verus! {

/// The field modulus, the Mersenne prime `2^61 - 1`.
pub const FIELD_MODULUS: u64 = 2305843009213693951;

/// One element of the field of integers modulo [`FIELD_MODULUS`].
#[derive(Clone, Copy, Debug, PartialEq, Eq, Structural)]
pub struct FElem {
    pub v: u64,
}

impl FElem {
    /// A value represents a field element when it is a canonical residue.
    pub open spec fn wf(self) -> bool {
        self.v < FIELD_MODULUS
    }

    /// The zero element, the initial value of the outer search counter.
    pub fn zero() -> (r: FElem)
        ensures
            r.wf(),
            r.v == 0,
    {
        FElem { v: 0 }
    }

    /// Embeds a machine integer into the field by reduction.
    pub fn from_u64(v: u64) -> (r: FElem)
        ensures
            r.wf(),
            r.v == v as int % FIELD_MODULUS as int,
    {
        FElem { v: v % FIELD_MODULUS }
    }
}

/// The sum of two field elements.
pub open spec fn spec_fadd(a: FElem, b: FElem) -> FElem {
    FElem { v: ((a.v + b.v) % (FIELD_MODULUS as int)) as u64 }
}

/// The product of two field elements.
pub open spec fn spec_fmul(a: FElem, b: FElem) -> FElem {
    FElem { v: ((a.v * b.v) % (FIELD_MODULUS as int)) as u64 }
}

/// Adds two field elements.
pub fn fadd(a: FElem, b: FElem) -> (r: FElem)
    requires
        a.wf(),
        b.wf(),
    ensures
        r.wf(),
        r == spec_fadd(a, b),
{
    let s: u64 = if a.v >= FIELD_MODULUS - b.v && b.v > 0 {
        // wraps past the modulus exactly once
        a.v - (FIELD_MODULUS - b.v)
    } else {
        a.v + b.v
    };
    proof {
        assert(s as int == (a.v + b.v) % (FIELD_MODULUS as int)) by {
            if a.v >= FIELD_MODULUS - b.v && b.v > 0 {
                assert((a.v + b.v) - FIELD_MODULUS < FIELD_MODULUS);
                assert((a.v + b.v) % (FIELD_MODULUS as int) == (a.v + b.v) - FIELD_MODULUS)
                    by {
                    vstd::arithmetic::div_mod::lemma_mod_sub_multiples_vanish(
                        (a.v + b.v) as int,
                        FIELD_MODULUS as int,
                    );
                    vstd::arithmetic::div_mod::lemma_small_mod(
                        ((a.v + b.v) - FIELD_MODULUS) as nat,
                        FIELD_MODULUS as nat,
                    );
                };
            } else {
                vstd::arithmetic::div_mod::lemma_small_mod(
                    (a.v + b.v) as nat,
                    FIELD_MODULUS as nat,
                );
            }
        };
    }
    FElem { v: s }
}

/// Multiplies two field elements, via a 128-bit intermediate product.
pub fn fmul(a: FElem, b: FElem) -> (r: FElem)
    requires
        a.wf(),
        b.wf(),
    ensures
        r.wf(),
        r == spec_fmul(a, b),
{
    proof {
        assert(a.v as int * b.v as int <= (FIELD_MODULUS - 1) as int * (FIELD_MODULUS - 1) as int)
            by (nonlinear_arith)
            requires
                a.v < FIELD_MODULUS,
                b.v < FIELD_MODULUS,
        ;
    }
    let wide: u128 = (a.v as u128) * (b.v as u128);
    let m: u128 = FIELD_MODULUS as u128;
    let red: u128 = wide % m;
    proof {
        assert(red < FIELD_MODULUS);
        vstd::arithmetic::div_mod::lemma_mod_bound(wide as int, FIELD_MODULUS as int);
    }
    FElem { v: red as u64 }
}

} // verus!
