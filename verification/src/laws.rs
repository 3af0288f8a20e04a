//! The library's standing theorems about derived certificates.
//!
//! Each law is stated over the specification mirror `spec_hash_to_prime`,
//! which `derive_with_plan` is proved to compute, so every law holds of every
//! certificate the library actually returns.

use crate::bigint::{gcd_nat, pow_mod};
use crate::cert::{
    cert_number_model, extension_template, lemma_search_nonce_some, seed_template,
    spec_attempt_extension, spec_execute_extensions, spec_execute_plan, spec_hash_to_prime,
    spec_miller_rabin_32, spec_nonce_mask, CertificateModel, ExtensionModel,
};
use crate::entropy::spec_template_value;
use crate::field::{FElem, FIELD_MODULUS};
use crate::hasher::Hasher;
use crate::plan::{bits_prefix, PlannedExtension, PocklingtonPlan};
use vstd::arithmetic::power2::{lemma2_to64, lemma_pow2_adds, lemma_pow2_pos, pow2};
use vstd::prelude::*;

verus! {

/// The number the chain stands on before extension `i` is applied: the
/// previous extension's result, or the seed for the first extension.
pub open spec fn chain_prior(cm: CertificateModel, i: int) -> nat {
    if i == 0 {
        cm.base_prime
    } else {
        cm.extensions[i - 1].result
    }
}

/// The Pocklington relation one recorded extension must satisfy against the
/// number it extends: with `mask` the low nonce bits of the mixed nonce and
/// `part = checking_base ^ (random + mask) mod result`, the result is
/// `prior * (random + mask) + 1`, `part ^ prior == 1 mod result`, and
/// `part - 1` is coprime to the result.
pub open spec fn extension_relation(prior: nat, em: ExtensionModel) -> bool {
    let mask = spec_nonce_mask(em.nonce as int, em.plan.nonce_bits as nat);
    let part = pow_mod(em.checking_base, em.random + mask, em.result);
    &&& em.result == prior * (em.random + mask) + 1
    &&& 2 <= em.checking_base < em.result
    &&& pow_mod(part, prior, em.result) == 1
    &&& gcd_nat((part - 1) as nat, em.result) == 1
}

/// Every extension of the certificate satisfies the relation against its
/// predecessor.
pub open spec fn certificate_chain_ok(cm: CertificateModel) -> bool {
    forall|i: int|
        0 <= i < cm.extensions.len() ==> extension_relation(
            chain_prior(cm, i),
            #[trigger] cm.extensions[i],
        )
}

proof fn lemma_execute_extensions_chain(
    c: CertificateModel,
    hash: FElem,
    exts: Seq<PlannedExtension>,
    used: int,
)
    requires
        c.extensions.len() <= exts.len(),
        certificate_chain_ok(c),
        forall|j: int| 0 <= j < c.extensions.len() ==> (#[trigger] c.extensions[j]).plan == exts[j],
        spec_execute_extensions(c, hash, exts, c.extensions.len() as int, used) is Some,
    ensures
        ({
            let f = spec_execute_extensions(c, hash, exts, c.extensions.len() as int, used)
                ->Some_0;
            &&& certificate_chain_ok(f)
            &&& f.base_prime == c.base_prime
            &&& f.extensions.len() == exts.len()
            &&& forall|j: int|
                0 <= j < f.extensions.len() ==> (#[trigger] f.extensions[j]).plan == exts[j]
        }),
    decreases exts.len() - c.extensions.len(),
{
    let i: int = c.extensions.len() as int;
    if i >= exts.len() {
    } else {
        let random = spec_template_value(hash, used, extension_template(exts[i].random_bits));
        match spec_attempt_extension(c, exts[i], random) {
            Ok(c2) => {
                lemma_search_nonce_some(
                    cert_number_model(c),
                    exts[i],
                    random,
                    0,
                    pow2(exts[i].nonce_bits as nat) as int,
                );
                let em = c2.extensions.last();
                assert(chain_prior(c2, i) == cert_number_model(c));
                assert(extension_relation(chain_prior(c2, i), em));
                assert(certificate_chain_ok(c2)) by {
                    assert(forall|j: int|
                        0 <= j < i ==> #[trigger] c2.extensions[j] == c.extensions[j]
                            && chain_prior(c2, j) == chain_prior(c, j));
                };
                lemma_execute_extensions_chain(c2, hash, exts, used + exts[i].random_bits);
            },
            Err(_) => {},
        }
    }
}

/// Per-extension relation: every certificate the derivation returns carries,
/// for each of its extensions, a checking base that witnesses the Pocklington
/// relation against the preceding number; its seed passes the 32-bit
/// Miller-Rabin test; and its extensions follow the plan's budgets in order.
pub proof fn lemma_certificate_chain<H: Hasher>(
    h: H,
    inputs: Seq<FElem>,
    plan: PocklingtonPlan,
    cm: CertificateModel,
)
    requires
        spec_hash_to_prime(h, inputs, plan.extensions@, plan.nonce_bits as nat) == Some(cm),
    ensures
        certificate_chain_ok(cm),
        spec_miller_rabin_32(cm.base_prime),
        cm.extensions.len() == plan.extensions@.len(),
        forall|j: int|
            0 <= j < cm.extensions.len() ==> (#[trigger] cm.extensions[j]).plan
                == plan.extensions@[j],
        cm.base_prime == spec_template_value(
            h.spec_hash(
                inputs.push(FElem { v: (cm.base_nonce as int % (FIELD_MODULUS as int)) as u64 }),
            ),
            0,
            seed_template(),
        ),
{
    crate::circuit::lemma_derive_some(h, inputs, plan.extensions@, 0, pow2(plan.nonce_bits as nat) as int);
    let hv = h.spec_hash(
        inputs.push(FElem { v: (cm.base_nonce as int % (FIELD_MODULUS as int)) as u64 }),
    );
    let seed = spec_template_value(hv, 0, seed_template());
    let c0 = CertificateModel {
        base_prime: seed,
        base_nonce: cm.base_nonce,
        extensions: Seq::empty(),
    };
    assert(spec_execute_plan(hv, plan.extensions@, cm.base_nonce as int) == Some(cm));
    lemma_execute_extensions_chain(c0, hv, plan.extensions@, 29);
}

/// Determinism: the derivation is a function of the inputs, the plan and the
/// hash alone — two runs with identical arguments yield identical
/// certificates.  `derive_with_plan` is proved to return exactly
/// `spec_hash_to_prime`, so any two of its results on equal arguments are
/// equal.
pub proof fn lemma_derivation_deterministic<H: Hasher>(
    h: H,
    inputs: Seq<FElem>,
    plan: PocklingtonPlan,
    r1: Option<CertificateModel>,
    r2: Option<CertificateModel>,
)
    requires
        r1 == spec_hash_to_prime(h, inputs, plan.extensions@, plan.nonce_bits as nat),
        r2 == spec_hash_to_prime(h, inputs, plan.extensions@, plan.nonce_bits as nat),
    ensures
        r1 == r2,
{
}

proof fn lemma_chain_size(plan: PocklingtonPlan, cm: CertificateModel, i: int)
    requires
        plan.wf(),
        certificate_chain_ok(cm),
        cm.base_prime < pow2(32),
        cm.extensions.len() == plan.extensions@.len(),
        forall|j: int|
            0 <= j < cm.extensions.len() ==> (#[trigger] cm.extensions[j]).plan
                == plan.extensions@[j],
        forall|j: int|
            0 <= j < cm.extensions.len() ==> (#[trigger] cm.extensions[j]).random
                + spec_nonce_mask(
                cm.extensions[j].nonce as int,
                cm.extensions[j].plan.nonce_bits as nat,
            ) < pow2((plan.extensions@[j].random_bits + 1) as nat),
        0 <= i <= cm.extensions.len(),
    ensures
        chain_prior(cm, i) < pow2((32 + bits_prefix(plan.extensions@, i)) as nat),
    decreases i,
{
    crate::plan::lemma_bits_prefix_nonneg(plan.extensions@, i);
    if i == 0 {
    } else {
        lemma_chain_size(plan, cm, i - 1);
        crate::plan::lemma_bits_prefix_nonneg(plan.extensions@, i - 1);
        let em = cm.extensions[i - 1];
        let prior = chain_prior(cm, i - 1);
        let mask = spec_nonce_mask(em.nonce as int, em.plan.nonce_bits as nat);
        let ev = em.random + mask;
        let bw: nat = (32 + bits_prefix(plan.extensions@, i - 1)) as nat;
        let rw: nat = (plan.extensions@[i - 1].random_bits + 1) as nat;
        lemma_pow2_pos(bw);
        lemma_pow2_pos(rw);
        lemma_pow2_adds(bw, rw);
        lemma2_to64();
        vstd::arithmetic::power2::lemma_pow2_strictly_increases(0, bw);
        vstd::arithmetic::power2::lemma_pow2_strictly_increases(0, rw);
        assert(extension_relation(prior, em));
        assert(em.result == prior * ev + 1);
        assert(prior * ev + 1 < pow2(bw) * pow2(rw)) by (nonlinear_arith)
            requires
                prior < pow2(bw),
                ev < pow2(rw),
                pow2(bw) >= 2,
                pow2(rw) >= 2,
                prior >= 0,
                ev >= 0,
        ;
        assert(chain_prior(cm, i) == em.result);
    }
}

/// Size bound: as long as no extension's value `random + mask` overflows its
/// budgeted width `random_bits + 1` (the mask can in principle carry past the
/// drawn value's top bit), the certified number fits the plan's `max_bits`.
pub proof fn lemma_number_size<H: Hasher>(
    h: H,
    inputs: Seq<FElem>,
    plan: PocklingtonPlan,
    cm: CertificateModel,
)
    requires
        plan.wf(),
        spec_hash_to_prime(h, inputs, plan.extensions@, plan.nonce_bits as nat) == Some(cm),
        forall|j: int|
            0 <= j < cm.extensions.len() ==> (#[trigger] cm.extensions[j]).random
                + spec_nonce_mask(
                cm.extensions[j].nonce as int,
                cm.extensions[j].plan.nonce_bits as nat,
            ) < pow2((plan.extensions@[j].random_bits + 1) as nat),
    ensures
        cert_number_model(cm) < pow2(plan.spec_max_bits() as nat),
{
    lemma_certificate_chain(h, inputs, plan, cm);
    let hv = h.spec_hash(
        inputs.push(FElem { v: (cm.base_nonce as int % (FIELD_MODULUS as int)) as u64 }),
    );
    crate::entropy::lemma_template_value_bound(hv, 0, seed_template());
    lemma2_to64();
    lemma_chain_size(plan, cm, cm.extensions.len() as int);
    assert(cert_number_model(cm) == chain_prior(cm, cm.extensions.len() as int));
}

} // verus!
