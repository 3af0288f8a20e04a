//! The two hash roles of the derivation.
//!
//! The *main* hash turns caller inputs plus a search counter into the field
//! element that keys the entropy stream; it is any implementation of the
//! [`Hasher`] trait.  The *nonce-mixing* hash is a fixed cubing permutation
//! over the field, applied to each extension nonce before its low bits are
//! used, so that the low bits are not simply the counter itself.

use crate::field::{fadd, fmul, spec_fadd, spec_fmul, FElem, FIELD_MODULUS};
use vstd::prelude::*;

verus! {

/// Number of rounds of the mixing permutation.
pub const MIX_ROUNDS: usize = 11;

/// Additive round-constant seed (the 64-bit golden-ratio word).
pub const MIX_CONSTANT: u64 = 0x9E3779B97F4A7C15;

/// The round constant of round `i`.
pub open spec fn spec_round_constant(i: int) -> FElem {
    FElem { v: (((i + 1) * MIX_CONSTANT) % (FIELD_MODULUS as int)) as u64 }
}

/// One mixing round: add the round constant, then cube, all in the field.
pub open spec fn spec_mix_round(x: FElem, i: int) -> FElem {
    let t: FElem = spec_fadd(x, spec_round_constant(i));
    spec_fmul(spec_fmul(t, t), t)
}

/// The first `n` mixing rounds applied to `x`.
pub open spec fn spec_mix_n(x: FElem, n: int) -> FElem
    decreases n,
{
    if n <= 0 {
        x
    } else {
        spec_mix_round(spec_mix_n(x, n - 1), n - 1)
    }
}

/// The nonce-mixing permutation-style hash of one field element.
pub open spec fn spec_mix(x: FElem) -> FElem {
    spec_mix_n(x, MIX_ROUNDS as int)
}

/// Applies the nonce-mixing hash.
pub fn mix(x: FElem) -> (r: FElem)
    requires
        x.wf(),
    ensures
        r == spec_mix(x),
        r.wf(),
{
    let mut acc: FElem = x;
    let mut i: usize = 0;
    while i < MIX_ROUNDS
        invariant
            i <= MIX_ROUNDS,
            acc == spec_mix_n(x, i as int),
            acc.wf(),
        decreases MIX_ROUNDS - i,
    {
        let c: u64 = ((((i as u128) + 1) * (MIX_CONSTANT as u128)) % (FIELD_MODULUS as u128)) as u64;
        proof {
            vstd::arithmetic::div_mod::lemma_mod_bound(
                (((i as u128) + 1) * (MIX_CONSTANT as u128)) as int,
                FIELD_MODULUS as int,
            );
            assert(((i as int) + 1) * (MIX_CONSTANT as int) == (((i as u128) + 1) * (
            MIX_CONSTANT as u128)) as int) by (nonlinear_arith)
                requires
                    0 <= i < MIX_ROUNDS,
            ;
        }
        let rc = FElem { v: c };
        assert(rc == spec_round_constant(i as int));
        let t = fadd(acc, rc);
        let t2 = fmul(t, t);
        acc = fmul(t2, t);
        i = i + 1;
    }
    acc
}

/// The running sponge state after absorbing the first `n` inputs: each step
/// adds the input into the state and mixes.
pub open spec fn spec_sponge(inputs: Seq<FElem>, n: int) -> FElem
    decreases n,
{
    if n <= 0 {
        FElem { v: 0 }
    } else {
        spec_mix(spec_fadd(spec_sponge(inputs, n - 1), inputs[n - 1]))
    }
}

/// A hash from sequences of field elements to one field element, with a
/// specification-level account of its value, so that everything derived from
/// the hash is a function of the inputs alone.
pub trait Hasher {
    /// The value the hash returns on these inputs.
    spec fn spec_hash(&self, inputs: Seq<FElem>) -> FElem;

    /// Hashes the inputs.
    fn hash(&self, inputs: &Vec<FElem>) -> (r: FElem)
        requires
            forall|i: int| 0 <= i < inputs@.len() ==> (#[trigger] inputs@[i]).wf(),
        ensures
            r == self.spec_hash(inputs@),
            r.wf(),
    ;
}

/// The library's own main hash: a sponge over the nonce-mixing permutation.
#[derive(Clone, Copy, Debug, PartialEq, Eq, Structural)]
pub struct MixSponge;

impl Hasher for MixSponge {
    open spec fn spec_hash(&self, inputs: Seq<FElem>) -> FElem {
        spec_sponge(inputs, inputs.len() as int)
    }

    fn hash(&self, inputs: &Vec<FElem>) -> (r: FElem) {
        let mut st = FElem::zero();
        let mut i: usize = 0;
        assert(st == spec_sponge(inputs@, 0));
        while i < inputs.len()
            invariant
                forall|k: int| 0 <= k < inputs@.len() ==> (#[trigger] inputs@[k]).wf(),
                i <= inputs@.len(),
                st == spec_sponge(inputs@, i as int),
                st.wf(),
            decreases inputs@.len() - i,
        {
            st = mix(fadd(st, inputs[i]));
            i = i + 1;
        }
        st
    }
}

} // verus!
