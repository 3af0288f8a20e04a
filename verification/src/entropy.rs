//! The deterministic entropy stream.
//!
//! A stream is keyed by one hash value.  Bit `j` of the stream is a fixed bit
//! of the mixing permutation applied to `seed + j/60`, so the whole stream is
//! a function of the seed alone, and the in-circuit re-derivation can consume
//! exactly the same bits.  Values are drawn against a [`NatTemplate`]: a run
//! of forced high bits, fresh pseudorandom bits in the middle, and a run of
//! forced low bits.

use crate::bigint::{big_add, big_from_u64, big_shl, big_val};
use crate::field::{fadd, spec_fadd, FElem, FIELD_MODULUS};
use crate::hasher::{mix, spec_mix};
use vstd::arithmetic::power2::{lemma2_to64, lemma_pow2_adds, lemma_pow2_pos, pow2};
use vstd::prelude::*;

verus! {

/// The shape of one drawn number: `leading_ones` forced set bits, then
/// `random_bits` fresh bits, then `trailing_ones` forced set bits, from most
/// to least significant.
#[derive(Clone, Copy, Debug, PartialEq, Eq, Structural)]
pub struct NatTemplate {
    pub random_bits: usize,
    pub leading_ones: usize,
    pub trailing_ones: usize,
}

/// The `k`-th 60-bit block of the stream keyed by `seed`.
pub open spec fn spec_stream_block(seed: FElem, k: int) -> FElem {
    spec_mix(spec_fadd(seed, FElem { v: (k % (FIELD_MODULUS as int)) as u64 }))
}

/// Bit `j` of the stream keyed by `seed`.
pub open spec fn spec_stream_bit(seed: FElem, j: int) -> bool {
    (spec_stream_block(seed, j / 60).v >> (j % 60) as u64) & 1 == 1
}

/// The value of `count` stream bits starting at stream position `start`,
/// first-drawn bit least significant.
pub open spec fn spec_bits_value(seed: FElem, start: int, count: int) -> nat
    decreases count,
{
    if count <= 0 {
        0
    } else {
        spec_bits_value(seed, start, count - 1) + if spec_stream_bit(seed, start + count - 1) {
            pow2((count - 1) as nat)
        } else {
            0
        }
    }
}

/// The number drawn against template `t` from stream position `start`.
pub open spec fn spec_template_value(seed: FElem, start: int, t: NatTemplate) -> nat {
    ((pow2(t.leading_ones as nat) - 1) * pow2((t.random_bits + t.trailing_ones) as nat)
        + spec_bits_value(seed, start, t.random_bits as int) * pow2(t.trailing_ones as nat) + pow2(
        t.trailing_ones as nat,
    ) - 1) as nat
}

/// Drawn bits are below their width.
pub proof fn lemma_bits_value_bound(seed: FElem, start: int, count: int)
    requires
        count >= 0,
    ensures
        spec_bits_value(seed, start, count) < pow2(count as nat),
    decreases count,
{
    lemma_pow2_pos(count as nat);
    if count > 0 {
        lemma_bits_value_bound(seed, start, count - 1);
        lemma_pow2_adds((count - 1) as nat, 1);
        lemma2_to64();
    }
}

/// A template value is below the template's total width, and at least the
/// value of its forced bits.
pub proof fn lemma_template_value_bound(seed: FElem, start: int, t: NatTemplate)
    ensures
        spec_template_value(seed, start, t) < pow2(
            (t.leading_ones + t.random_bits + t.trailing_ones) as nat,
        ),
        spec_template_value(seed, start, t) >= (pow2(t.leading_ones as nat) - 1) * pow2(
            (t.random_bits + t.trailing_ones) as nat,
        ) + pow2(t.trailing_ones as nat) - 1,
{
    let lw: nat = t.leading_ones as nat;
    let rw: nat = t.random_bits as nat;
    let tw: nat = t.trailing_ones as nat;
    let rv: nat = spec_bits_value(seed, start, t.random_bits as int);
    lemma_bits_value_bound(seed, start, t.random_bits as int);
    lemma_pow2_pos(lw);
    lemma_pow2_pos(rw);
    lemma_pow2_pos(tw);
    lemma_pow2_adds(rw, tw);
    lemma_pow2_adds(lw, (rw + tw) as nat);
    assert((pow2(lw) - 1) * pow2((rw + tw) as nat) + (pow2(rw) - 1) * pow2(tw) + pow2(tw) - 1
        < pow2(lw) * pow2((rw + tw) as nat)) by (nonlinear_arith)
        requires
            pow2(lw) >= 1,
            pow2(rw) >= 1,
            pow2(tw) >= 1,
            pow2((rw + tw) as nat) == pow2(rw) * pow2(tw),
    ;
    assert(rv * pow2(tw) <= (pow2(rw) - 1) * pow2(tw)) by (nonlinear_arith)
        requires
            rv < pow2(rw),
            pow2(tw) >= 1,
    ;
}

/// A deterministic pseudorandom bit source keyed by a hash value; bits are
/// consumed in stream order.
pub struct EntropySource {
    /// The keying hash value.
    pub seed: FElem,
    /// Stream position: how many bits have been drawn.
    pub bits_used: usize,
}

impl EntropySource {
    /// The source is usable while its seed is canonical and its position has
    /// not run away.
    pub open spec fn wf(self) -> bool {
        &&& self.seed.wf()
        &&& self.bits_used <= 0x10000000
    }

    /// Keys a fresh stream.  The entropy argument announces how many bits the
    /// caller intends to draw; the stream itself is unbounded.
    pub fn new(hash: FElem, entropy: usize) -> (r: EntropySource)
        requires
            hash.wf(),
        ensures
            r.wf(),
            r.seed == hash,
            r.bits_used == 0,
    {
        EntropySource { seed: hash, bits_used: 0 }
    }

    /// Draws the next stream bit.
    fn next_bit(&mut self) -> (r: bool)
        requires
            old(self).wf(),
            old(self).bits_used < 0x10000000,
        ensures
            final(self).wf(),
            final(self).seed == old(self).seed,
            final(self).bits_used == old(self).bits_used + 1,
            r == spec_stream_bit(old(self).seed, old(self).bits_used as int),
    {
        let block_index: usize = self.bits_used / 60;
        let offset: usize = self.bits_used % 60;
        let k = FElem::from_u64(block_index as u64);
        proof {
            vstd::arithmetic::div_mod::lemma_mod_bound(block_index as int, FIELD_MODULUS as int);
        }
        let block = mix(fadd(self.seed, k));
        let bit: bool = (block.v >> (offset as u64)) & 1 == 1;
        self.bits_used = self.bits_used + 1;
        bit
    }

    /// Draws a number shaped by the template: `random_bits` fresh stream bits
    /// framed by the forced leading and trailing set bits.
    pub fn get_bits_as_nat(&mut self, t: NatTemplate) -> (r: num_bigint::BigUint)
        requires
            old(self).wf(),
            t.random_bits <= 4096,
            t.leading_ones <= 4,
            t.trailing_ones <= 4,
            old(self).bits_used + t.random_bits < 0x10000000,
        ensures
            final(self).wf(),
            final(self).seed == old(self).seed,
            final(self).bits_used == old(self).bits_used + t.random_bits,
            big_val(r) == spec_template_value(old(self).seed, old(self).bits_used as int, t),
    {
        let ghost seed = self.seed;
        let ghost start: int = self.bits_used as int;
        // trailing forced ones: 2^trailing - 1
        proof {
            lemma2_to64();
            vstd::bits::lemma_u64_shl_is_mul(1u64, t.trailing_ones as u64);
        }
        let trail_ones: u64 = (1u64 << (t.trailing_ones as u64)) - 1;
        proof {
            assert(trail_ones as nat == pow2(t.trailing_ones as nat) - 1);
        }
        let mut acc: num_bigint::BigUint = big_from_u64(trail_ones);
        proof {
            assert(big_val(acc) == pow2(t.trailing_ones as nat) - 1);
            assert(spec_bits_value(seed, start, 0) == 0);
            assert(0nat * pow2(t.trailing_ones as nat) == 0) by (nonlinear_arith);
        }
        // the fresh middle bits, least significant first
        let mut i: usize = 0;
        while i < t.random_bits
            invariant
                self.wf(),
                self.seed == seed,
                seed == old(self).seed,
                start == old(self).bits_used as int,
                t.random_bits <= 4096,
                t.leading_ones <= 4,
                t.trailing_ones <= 4,
                start + t.random_bits < 0x10000000,
                i <= t.random_bits,
                self.bits_used == start + i,
                big_val(acc) == spec_bits_value(seed, start, i as int) * pow2(
                    t.trailing_ones as nat,
                ) + pow2(t.trailing_ones as nat) - 1,
            decreases t.random_bits - i,
        {
            let bit = self.next_bit();
            if bit {
                let one = big_from_u64(1);
                let place = big_shl(&one, t.trailing_ones + i);
                acc = big_add(&acc, &place);
                proof {
                    lemma_pow2_adds(t.trailing_ones as nat, i as nat);
                }
            }
            proof {
                assert(spec_bits_value(seed, start, i as int + 1) == spec_bits_value(
                    seed,
                    start,
                    i as int,
                ) + if spec_stream_bit(seed, start + i) {
                    pow2(i as nat)
                } else {
                    0nat
                });
                if bit {
                    assert((spec_bits_value(seed, start, i as int) + pow2(i as nat)) * pow2(
                        t.trailing_ones as nat,
                    ) == spec_bits_value(seed, start, i as int) * pow2(t.trailing_ones as nat)
                        + pow2(i as nat) * pow2(t.trailing_ones as nat)) by (nonlinear_arith);
                }
            }
            i = i + 1;
        }
        // the forced leading ones, one bit at a time above the middle
        proof {
            lemma2_to64();
            vstd::bits::lemma_u64_shl_is_mul(1u64, t.leading_ones as u64);
        }
        let lead_ones: u64 = (1u64 << (t.leading_ones as u64)) - 1;
        proof {
            assert(lead_ones as nat == pow2(t.leading_ones as nat) - 1);
        }
        let lead = big_from_u64(lead_ones);
        let shifted_lead = big_shl(&lead, t.random_bits + t.trailing_ones);
        acc = big_add(&acc, &shifted_lead);
        proof {
            lemma_pow2_adds(t.random_bits as nat, t.trailing_ones as nat);
        }
        acc
    }
}

} // verus!
