//! The in-circuit mirror of the derivation, as a check-only driver.
//!
//! The native search (`cert`) finds witnesses; this driver consumes a
//! certificate purely as a witness hint and re-derives everything else — the
//! hash, the entropy stream, the seed test, and every extension's candidate —
//! enforcing each Pocklington relation as a constraint that either holds or
//! makes the synthesis unsatisfiable.  It never searches.  The central
//! theorem, stated as this module's postconditions, is that the number it
//! returns equals the natively derived certificate's number.

use crate::bigint::{big_add, big_add_u64, big_gcd, big_is_one, big_modpow, big_mul, big_sub_u64,
    big_val, pow_mod};
use crate::cert::{
    cert_number_model, derive_with_plan, extension_template, lemma_search_nonce_some,
    miller_rabin_32b, seed_template, spec_attempt_extension, spec_derive,
    spec_execute_extensions, spec_execute_plan, spec_hash_to_prime, spec_nonce_mask,
    CertificateModel, ExtensionModel, PocklingtonCertificate,
};
use crate::entropy::{spec_template_value, EntropySource, NatTemplate};
use crate::field::{FElem, FIELD_MODULUS};
use crate::hasher::Hasher;
use crate::plan::{PlannedExtension, PocklingtonPlan, MAX_PLAN_ENTROPY};
use vstd::arithmetic::power2::pow2;
use vstd::prelude::*;

verus! {

/// Why a synthesis run could not produce its output: the witness hint could
/// not be derived, or a constraint does not hold.
#[derive(Clone, Copy, Debug, PartialEq, Eq, Structural)]
pub enum SynthesisError {
    AssignmentMissing,
    Unsatisfiable,
}

/// Executing the extension steps keeps the seed and counter, extends the
/// chain by one recorded extension per step, and never shrinks it.
proof fn lemma_execute_extensions_prefix(
    c: CertificateModel,
    hash: FElem,
    exts: Seq<PlannedExtension>,
    i: int,
    used: int,
)
    requires
        0 <= i <= exts.len(),
        spec_execute_extensions(c, hash, exts, i, used) is Some,
    ensures
        ({
            let f = spec_execute_extensions(c, hash, exts, i, used)->Some_0;
            &&& f.base_prime == c.base_prime
            &&& f.base_nonce == c.base_nonce
            &&& f.extensions.len() == c.extensions.len() + exts.len() - i
            &&& f.extensions.take(c.extensions.len() as int) == c.extensions
        }),
    decreases exts.len() - i,
{
    let f = spec_execute_extensions(c, hash, exts, i, used)->Some_0;
    if i >= exts.len() {
        assert(f.extensions.take(c.extensions.len() as int) =~= c.extensions);
    } else {
        let random = spec_template_value(hash, used, extension_template(exts[i].random_bits));
        match spec_attempt_extension(c, exts[i], random) {
            Ok(c2) => {
                lemma_execute_extensions_prefix(c2, hash, exts, i + 1, used + exts[i].random_bits);
                assert(f.extensions.take(c2.extensions.len() as int).take(
                    c.extensions.len() as int,
                ) =~= f.extensions.take(c.extensions.len() as int));
                assert(c2.extensions.take(c.extensions.len() as int) =~= c.extensions);
            },
            Err(_) => {},
        }
    }
}

/// A successful outer search records the counter it succeeded at, and the
/// certificate it yields is what executing the plan at that counter yields.
pub proof fn lemma_derive_some<H: Hasher>(
    h: H,
    inputs: Seq<FElem>,
    exts: Seq<PlannedExtension>,
    counter: int,
    bound: int,
)
    requires
        0 <= counter,
        spec_derive(h, inputs, exts, counter, bound) is Some,
    ensures
        ({
            let c = spec_derive(h, inputs, exts, counter, bound)->Some_0;
            let hv = h.spec_hash(
                inputs.push(FElem { v: (c.base_nonce as int % (FIELD_MODULUS as int)) as u64 }),
            );
            &&& counter <= c.base_nonce < bound
            &&& spec_execute_plan(hv, exts, c.base_nonce as int) == Some(c)
        }),
    decreases bound - counter,
{
    let hv0 = h.spec_hash(inputs.push(FElem { v: (counter % (FIELD_MODULUS as int)) as u64 }));
    match spec_execute_plan(hv0, exts, counter) {
        Some(c) => {
            let seed = spec_template_value(hv0, 0, seed_template());
            let c0 = CertificateModel {
                base_prime: seed,
                base_nonce: counter as nat,
                extensions: Seq::empty(),
            };
            lemma_execute_extensions_prefix(c0, hv0, exts, 0, 29);
            assert(c.base_nonce == counter);
        },
        None => {
            lemma_derive_some(h, inputs, exts, counter + 1, bound);
        },
    }
}

/// Synthesizes the in-circuit derivation for an already-computed plan.
///
/// Natively derives the certificate as the witness hint, then recomputes the
/// hash, the stream, the seed test, and each extension's candidate from the
/// witnesses, checking every Pocklington relation.  The postcondition is the
/// native/circuit equivalence: whenever the native derivation succeeds, the
/// synthesis succeeds and returns exactly the certified number.
pub fn synthesize_pocklington_prime<H: Hasher>(
    inputs: &Vec<FElem>,
    plan: &PocklingtonPlan,
    base_hash: &H,
) -> (r: Result<num_bigint::BigUint, SynthesisError>)
    requires
        plan.wf(),
        forall|i: int| 0 <= i < inputs@.len() ==> (#[trigger] inputs@[i]).wf(),
    ensures
        match spec_hash_to_prime(*base_hash, inputs@, plan.extensions@, plan.nonce_bits as nat) {
            Some(cm) => r is Ok && big_val(r->Ok_0) == cert_number_model(cm),
            None => r == Err::<num_bigint::BigUint, SynthesisError>(
                SynthesisError::AssignmentMissing,
            ),
        },
{
    let cert: PocklingtonCertificate = match derive_with_plan(inputs, plan, base_hash) {
        Some(c) => c,
        None => {
            return Err(SynthesisError::AssignmentMissing);
        },
    };
    let ghost fm: CertificateModel = cert.model();
    proof {
        lemma_derive_some(
            *base_hash,
            inputs@,
            plan.extensions@,
            0,
            pow2(plan.nonce_bits as nat) as int,
        );
        vstd::bits::lemma_usize_pow2_no_overflow(plan.nonce_bits as nat);
        vstd::arithmetic::power2::lemma2_to64();
        if plan.nonce_bits < 30 {
            vstd::arithmetic::power2::lemma_pow2_strictly_increases(plan.nonce_bits as nat, 30);
        }
        assert(fm.base_nonce < 0x40000000);
    }
    // allocate the outer nonce as a witness and recompute the keying hash
    let mut with_nonce: Vec<FElem> = Vec::new();
    let mut ii: usize = 0;
    while ii < inputs.len()
        invariant
            ii <= inputs@.len(),
            with_nonce@ == inputs@.subrange(0, ii as int),
        decreases inputs@.len() - ii,
    {
        with_nonce.push(inputs[ii]);
        proof {
            assert(with_nonce@ =~= inputs@.subrange(0, ii as int + 1));
        }
        ii = ii + 1;
    }
    proof {
        assert(with_nonce@ =~= inputs@);
    }
    with_nonce.push(FElem::from_u64(cert.base_nonce as u64));
    proof {
        assert(with_nonce@ =~= inputs@.push(
            FElem { v: (fm.base_nonce as int % (FIELD_MODULUS as int)) as u64 },
        ));
        assert(forall|i: int| 0 <= i < with_nonce@.len() ==> (#[trigger] with_nonce@[i]).wf());
    }
    let hv = base_hash.hash(&with_nonce);
    let ghost counter: int = fm.base_nonce as int;
    proof {
        assert(spec_execute_plan(hv, plan.extensions@, counter) == Some(fm));
    }
    // re-derive the seed from the same entropy stream and enforce the seed
    // primality test
    let total = plan.entropy();
    let mut stream = EntropySource::new(hv, total);
    let mut prime = stream.get_bits_as_nat(
        NatTemplate { trailing_ones: 2, leading_ones: 1, random_bits: 29 },
    );
    proof {
        crate::entropy::lemma_template_value_bound(hv, 0, seed_template());
        vstd::arithmetic::power2::lemma2_to64();
    }
    let mr_res = miller_rabin_32b(&prime);
    if !mr_res {
        return Err(SynthesisError::Unsatisfiable);
    }
    let ghost seed_val: nat = spec_template_value(hv, 0, seed_template());
    let ghost c0 = CertificateModel {
        base_prime: seed_val,
        base_nonce: fm.base_nonce,
        extensions: Seq::empty(),
    };
    let ghost exts = plan.extensions@;
    let ghost cur: CertificateModel = c0;
    proof {
        assert(spec_execute_extensions(cur, hv, exts, 0, 29) == Some(fm));
        lemma_execute_extensions_prefix(cur, hv, exts, 0, 29);
        assert(fm.extensions.len() == exts.len());
    }
    let mut i: usize = 0;
    let mut cur_g: Ghost<CertificateModel> = Ghost(cur);
    while i < plan.extensions.len()
        invariant
            plan.wf(),
            hv.wf(),
            i <= plan.extensions@.len(),
            exts == plan.extensions@,
            fm == cert.model(),
            cert.extensions@.len() == exts.len(),
            fm.extensions.len() == exts.len(),
            stream.wf(),
            stream.seed == hv,
            stream.bits_used as int == 29 + crate::plan::bits_prefix(exts, i as int) - i,
            stream.bits_used <= 29 + i * 4096,
            cur_g@.extensions.len() == i,
            spec_execute_extensions(cur_g@, hv, exts, i as int, stream.bits_used as int) == Some(
                fm,
            ),
            big_val(prime) == cert_number_model(cur_g@),
        decreases plan.extensions@.len() - i,
    {
        proof {
            assert((i + 1) * 4096 == i * 4096 + 4096) by (nonlinear_arith);
            assert(i * 4096 <= 2048 * 4096) by (nonlinear_arith)
                requires
                    0 <= i <= 2048,
            ;
        }
        let ghost upre: int = stream.bits_used as int;
        let ext = PlannedExtension {
            nonce_bits: plan.extensions[i].nonce_bits,
            random_bits: plan.extensions[i].random_bits,
        };
        proof {
            assert(ext == exts[i as int]);
        }
        let ghost rv: nat = spec_template_value(hv, upre, extension_template(ext.random_bits));
        let ghost pv: nat = cert_number_model(cur_g@);
        // the attempt at this step must have succeeded, and its recorded
        // extension is this step's witness
        let ghost em: ExtensionModel = (match spec_attempt_extension(cur_g@, exts[i as int], rv) {
            Ok(c2) => c2.extensions.last(),
            Err(_) => arbitrary(),
        });
        let ghost c2: CertificateModel = CertificateModel {
            base_prime: cur_g@.base_prime,
            base_nonce: cur_g@.base_nonce,
            extensions: cur_g@.extensions.push(em),
        };
        proof {
            assert(spec_attempt_extension(cur_g@, exts[i as int], rv) is Ok);
            assert(spec_attempt_extension(cur_g@, exts[i as int], rv) == Ok::<
                CertificateModel,
                CertificateModel,
            >(c2));
            lemma_search_nonce_some(pv, exts[i as int], rv, 0, pow2(ext.nonce_bits as nat) as int);
            lemma_execute_extensions_prefix(
                c2,
                hv,
                exts,
                i as int + 1,
                upre + exts[i as int].random_bits,
            );
            assert(fm.extensions.take(i as int + 1) == c2.extensions);
            assert(fm.extensions.take(i as int + 1)[i as int] == em);
            assert(fm.extensions[i as int] == cert.extensions@[i as int].model());
            assert(cert.extensions@[i as int].model() == em);
        }
        // the witness nonce, mixed and masked, plus the drawn random value
        let witness_nonce: usize = cert.extensions[i].nonce;
        proof {
            assert(witness_nonce as nat == em.nonce);
            assert(em.nonce < pow2(ext.nonce_bits as nat));
            vstd::arithmetic::power2::lemma2_to64();
            if ext.nonce_bits < 30 {
                vstd::arithmetic::power2::lemma_pow2_strictly_increases(
                    ext.nonce_bits as nat,
                    30,
                );
            }
        }
        let mask = crate::cert::nonce_mask(witness_nonce as u64, ext.nonce_bits);
        let mask_big = crate::bigint::big_from_u64(mask);
        let random = stream.get_bits_as_nat(
            NatTemplate { random_bits: ext.random_bits, trailing_ones: 0, leading_ones: 1 },
        );
        let nonced_extension = big_add(&random, &mask_big);
        // candidate = prior * extension value + 1
        let n_less_one = big_mul(&nonced_extension, &prime);
        let n = big_add_u64(&n_less_one, 1);
        proof {
            let mask_spec = spec_nonce_mask(em.nonce as int, ext.nonce_bits as nat);
            assert(mask as nat == mask_spec);
            assert(big_val(n) == pv * (rv + mask_spec) + 1) by (nonlinear_arith)
                requires
                    big_val(n) == (rv + mask_spec) * pv + 1,
            ;
            assert(big_val(n) == em.result);
        }
        // the witness base and the two Pocklington constraints
        let base = cert.extensions[i].checking_base.clone();
        proof {
            assert(big_val(base) == em.checking_base);
        }
        let part = big_modpow(&base, &nonced_extension, &n);
        proof {
            let mask_spec = spec_nonce_mask(em.nonce as int, ext.nonce_bits as nat);
            assert(big_val(part) == pow_mod(em.checking_base, rv + mask_spec, em.result));
            if big_val(part) == 0 {
                vstd::arithmetic::power::lemma0_pow(pv);
                vstd::arithmetic::div_mod::lemma_small_mod(0nat, em.result);
                assert(false);
            }
        }
        let part_less_one = big_sub_u64(&part, 1);
        let coprime = big_gcd(&part_less_one, &n);
        if !big_is_one(&coprime) {
            return Err(SynthesisError::Unsatisfiable);
        }
        let power = big_modpow(&part, &prime, &n);
        if !big_is_one(&power) {
            return Err(SynthesisError::Unsatisfiable);
        }
        prime = n;
        cur_g = Ghost(c2);
        i = i + 1;
    }
    proof {
        assert(spec_execute_extensions(cur_g@, hv, exts, i as int, stream.bits_used as int)
            == Some(cur_g@));
        assert(cur_g@ == fm);
    }
    Ok(prime)
}

/// Synthesizes the whole in-circuit derivation: recomputes the plan for the
/// requested entropy and hands it, with the inputs, to the check-only driver.
/// The postcondition speaks of the same planning recurrence as the native
/// `cert::hash_to_pocklington_prime`, so the two entropy-level functions are
/// provably tied to the same plan and, on success, to the same number.
pub fn hash_to_pocklington_prime<H: Hasher>(
    inputs: &Vec<FElem>,
    entropy: usize,
    base_hash: &H,
) -> (r: Result<num_bigint::BigUint, SynthesisError>)
    requires
        29 <= entropy <= MAX_PLAN_ENTROPY,
        forall|i: int| 0 <= i < inputs@.len() ==> (#[trigger] inputs@[i]).wf(),
    ensures
        match spec_hash_to_prime(
            *base_hash,
            inputs@,
            crate::plan::spec_plan_extensions(entropy as int),
            10,
        ) {
            Some(cm) => r is Ok && big_val(r->Ok_0) == cert_number_model(cm),
            None => r == Err::<num_bigint::BigUint, SynthesisError>(
                SynthesisError::AssignmentMissing,
            ),
        },
{
    let plan = PocklingtonPlan::new(entropy);
    proof {
        assert(plan.extensions@ == crate::plan::spec_plan_extensions(entropy as int));
        assert(plan.nonce_bits == 10);
    }
    synthesize_pocklington_prime(inputs, &plan, base_hash)
}

} // verus!
