//! Certificate construction: the primality-witness search.
//!
//! A certificate starts from a 32-bit probable-prime seed and grows by
//! Pocklington extensions.  Each extension searches a bounded nonce space
//! and, per nonce, an unbounded base space for a witness base satisfying the
//! Pocklington relations; the recorded witnesses let anyone re-check the
//! relations without repeating the search.

use crate::bigint::{
    big_add, big_add_u64, big_from_u64, big_gcd, big_is_one, big_lt, big_modpow,
    big_mul, big_sub_u64, big_to_u64, big_val, gcd_nat, pow_mod,
};
use crate::entropy::{spec_template_value, EntropySource, NatTemplate};
use crate::field::{FElem, FIELD_MODULUS};
use crate::hasher::{mix, spec_mix, Hasher};
use crate::plan::{planned_extension_wf, PlannedExtension, PocklingtonPlan};
use vstd::arithmetic::div_mod::{lemma_mod_bound, lemma_mul_mod_noop_general};
use vstd::arithmetic::power::{lemma0_pow, lemma_pow_adds, lemma_pow_multiplies, pow};
use vstd::arithmetic::power2::{lemma2_to64, lemma_pow2_adds, lemma_pow2_pos, pow2};
use vstd::prelude::*;

verus! {

/// `(a * b) % m` on machine words, via a 128-bit product.
fn mul_mod_u64(a: u64, b: u64, m: u64) -> (r: u64)
    requires
        1 <= m,
    ensures
        r as int == (a as int * b as int) % (m as int),
        r < m,
{
    proof {
        assert(a as int * b as int <= 0xFFFFFFFFFFFFFFFF * 0xFFFFFFFFFFFFFFFF) by (nonlinear_arith)
            requires
                a <= 0xFFFFFFFFFFFFFFFF,
                b <= 0xFFFFFFFFFFFFFFFF,
        ;
    }
    let wide: u128 = (a as u128) * (b as u128);
    let red: u128 = wide % (m as u128);
    proof {
        lemma_mod_bound(wide as int, m as int);
    }
    red as u64
}

/// `pow(base, exp) % m` on machine words, by square and multiply.
fn pow_mod_u64(base: u64, exp: u64, m: u64) -> (r: u64)
    requires
        1 <= m,
    ensures
        r as nat == pow_mod(base as nat, exp as nat, m as nat),
        r < m,
{
    let mut result: u64 = 1 % m;
    let mut b: u64 = base % m;
    let mut e: u64 = exp;
    proof {
        lemma_mod_bound(1int, m as int);
        lemma_mod_bound(base as int, m as int);
        vstd::arithmetic::power::lemma_pow_mod_noop(base as int, exp as nat, m as int);
        lemma_mul_mod_noop_general(1int, pow(b as int, exp as nat), m as int);
        assert(1int * pow(b as int, exp as nat) == pow(b as int, exp as nat));
        assert((result as int * pow(b as int, e as nat)) % (m as int) == pow(
            base as int,
            exp as nat,
        ) % (m as int));
    }
    while e > 0
        invariant
            1 <= m,
            result < m,
            b < m,
            (result as int * pow(b as int, e as nat)) % (m as int) == pow(
                base as int,
                exp as nat,
            ) % (m as int),
        decreases e,
    {
        let ghost r0: int = result as int;
        let ghost b0: int = b as int;
        let ghost e0: nat = e as nat;
        proof {
            // pow(b, e) == pow(b*b, e/2) * pow(b, e%2)
            lemma_pow_multiplies(b0, 2, (e0 / 2) as nat);
            vstd::arithmetic::power::lemma_square_is_pow2(b0);
            lemma_pow_adds(b0, (2 * (e0 / 2)) as nat, (e0 % 2) as nat);
            vstd::arithmetic::power::lemma_pow1(b0);
            vstd::arithmetic::power::lemma_pow0(b0);
            assert(2 * (e0 / 2) + e0 % 2 == e0);
        }
        if e % 2 == 1 {
            result = mul_mod_u64(result, b, m);
            proof {
                // fold one factor of b into the accumulator
                assert(result as int == (r0 * b0) % (m as int));
                lemma_mul_mod_noop_general(r0 * b0, pow(b0 * b0, (e0 / 2) as nat), m as int);
                assert((r0 * b0) * pow(b0 * b0, (e0 / 2) as nat) == r0 * (pow(b0, 2 * (e0 / 2))
                    * b0)) by (nonlinear_arith)
                    requires
                        pow(b0 * b0, (e0 / 2) as nat) == pow(b0, 2 * (e0 / 2)),
                ;
                assert(pow(b0, e0) == pow(b0, 2 * (e0 / 2)) * b0);
            }
        } else {
            proof {
                assert(pow(b0, e0) == pow(b0 * b0, (e0 / 2) as nat));
            }
        }
        let ghost r1: int = result as int;
        b = mul_mod_u64(b, b, m);
        e = e / 2;
        proof {
            // replace the squared base by its residue
            vstd::arithmetic::power::lemma_pow_mod_noop(b0 * b0, e as nat, m as int);
            lemma_mul_mod_noop_general(r1, pow(b0 * b0, e as nat), m as int);
            lemma_mul_mod_noop_general(r1, pow(b as int, e as nat), m as int);
            if e0 % 2 == 1 {
                lemma_mul_mod_noop_general(r0 * b0, pow(b0 * b0, e as nat), m as int);
                assert(r0 * (pow(b0, 2 * (e0 / 2)) * b0) == (r0 * b0) * pow(b0, 2 * (e0 / 2)))
                    by (nonlinear_arith);
                assert((r0 * pow(b0, e0)) % (m as int) == ((r0 * b0) * pow(b0 * b0, e as nat)) % (
                m as int)) by {
                    assert(r0 * pow(b0, e0) == (r0 * b0) * pow(b0 * b0, e as nat))
                        by (nonlinear_arith)
                        requires
                            pow(b0, e0) == pow(b0, 2 * (e0 / 2)) * b0,
                            pow(b0 * b0, e as nat) == pow(b0, 2 * (e0 / 2)),
                    ;
                };
            }
        }
    }
    proof {
        vstd::arithmetic::power::lemma_pow0(b as int);
        lemma_mod_bound(pow(base as int, exp as nat), m as int);
        vstd::arithmetic::div_mod::lemma_small_mod(result as nat, m as nat);
        assert(result as int * 1 == result as int);
    }
    result
}

/// The number of factors of two in `m`.
pub open spec fn twos_count(m: nat) -> nat
    decreases m,
{
    if m == 0 || m % 2 == 1 {
        0
    } else {
        1 + twos_count(m / 2)
    }
}

/// What is left of `m` after dividing out every factor of two.
pub open spec fn odd_part(m: nat) -> nat
    decreases m,
{
    if m == 0 || m % 2 == 1 {
        m
    } else {
        odd_part(m / 2)
    }
}

/// One Miller-Rabin round: base `a` does not witness `n` composite.  With
/// `n - 1 == d * 2^s`, `d` odd: either `a` collapses mod `n`, or `a^d == 1`,
/// or some repeated squaring of `a^d` hits `n - 1`.
pub open spec fn mr_base_ok(n: nat, a: nat) -> bool {
    let d: nat = odd_part((n - 1) as nat);
    let s: nat = twos_count((n - 1) as nat);
    ||| a % n == 0
    ||| pow_mod(a % n, d, n) == 1
    ||| exists|j: int| 0 <= j < s && #[trigger] pow_mod(a % n, d * pow2(j as nat), n) == n - 1
}

/// The deterministic Miller-Rabin test for 32-bit inputs, with bases 2, 7
/// and 61.
pub open spec fn spec_miller_rabin_32(n: nat) -> bool {
    if n < 2 {
        false
    } else if n % 2 == 0 {
        n == 2
    } else {
        mr_base_ok(n, 2) && mr_base_ok(n, 7) && mr_base_ok(n, 61)
    }
}

/// One Miller-Rabin round on machine words.
fn mr_round_u64(n: u64, d: u64, s: u64, a: u64) -> (r: bool)
    requires
        3 <= n,
        n % 2 == 1,
        d as nat == odd_part((n - 1) as nat),
        s as nat == twos_count((n - 1) as nat),
        d as int * pow2(s as nat) == n - 1,
    ensures
        r == mr_base_ok(n as nat, a as nat),
{
    let ghost an: nat = (a as nat) % (n as nat);
    let ghost dd: nat = odd_part(((n as nat) - 1) as nat);
    proof {
        assert((n - 1) as nat == ((n as nat) - 1) as nat);
        assert(dd == d as nat);
    }
    let a0: u64 = a % n;
    proof {
        assert(a0 as nat == an);
    }
    if a0 == 0 {
        return true;
    }
    let mut x: u64 = pow_mod_u64(a0, d, n);
    proof {
        lemma2_to64();
        assert(dd * pow2(0) == dd);
    }
    if x == 1 {
        proof {
            assert(pow_mod(an, dd, n as nat) == 1);
        }
        return true;
    }
    if x == n - 1 {
        proof {
            assert(twos_count((n - 1) as nat) >= 1);
            assert(pow_mod(
                (a as nat) % (n as nat),
                odd_part(((n as nat) - 1) as nat) * pow2(0),
                n as nat,
            ) == (n as nat) - 1);
            assert(exists|j: int|
                0 <= j < twos_count(((n as nat) - 1) as nat) && #[trigger] pow_mod(
                    (a as nat) % (n as nat),
                    odd_part(((n as nat) - 1) as nat) * pow2(j as nat),
                    n as nat,
                ) == (n as nat) - 1) by {
                assert(0 <= 0 < twos_count(((n as nat) - 1) as nat) && pow_mod(
                    (a as nat) % (n as nat),
                    odd_part(((n as nat) - 1) as nat) * pow2(0int as nat),
                    n as nat,
                ) == (n as nat) - 1);
            };
        }
        return true;
    }
    let mut j: u64 = 1;
    while j < s
        invariant
            3 <= n,
            1 <= j <= s,
            an == (a as nat) % (n as nat),
            dd == odd_part(((n as nat) - 1) as nat),
            s as nat == twos_count(((n as nat) - 1) as nat),
            a0 as nat == an,
            a0 != 0,
            x as nat == pow_mod(an, dd * pow2((j - 1) as nat), n as nat),
            x < n,
            pow_mod(an, dd, n as nat) != 1,
            forall|jj: int|
                0 <= jj < j ==> #[trigger] pow_mod(an, dd * pow2(jj as nat), n as nat) != n - 1,
        decreases s - j,
    {
        let ghost x0: int = x as int;
        let ghost ee: nat = dd * pow2((j - 1) as nat);
        x = mul_mod_u64(x, x, n);
        proof {
            // squaring doubles the exponent
            assert(x0 % (n as int) == x0) by {
                vstd::arithmetic::div_mod::lemma_small_mod(x0 as nat, n as nat);
            };
            lemma_mul_mod_noop_general(pow(a0 as int, ee), pow(a0 as int, ee), n as int);
            assert(x as int == (pow(a0 as int, ee) * pow(a0 as int, ee)) % (n as int));
            lemma_pow_adds(a0 as int, ee, ee);
            assert(x as int == pow(a0 as int, ee + ee) % (n as int));
            lemma_pow2_adds((j - 1) as nat, 1);
            lemma2_to64();
            assert(dd * pow2(j as nat) == ee + ee) by (nonlinear_arith)
                requires
                    pow2(j as nat) == pow2((j - 1) as nat) * 2,
                    ee == dd * pow2((j - 1) as nat),
            ;
            assert(x as nat == pow_mod(an, dd * pow2(j as nat), n as nat));
        }
        if x == n - 1 {
            proof {
                assert(pow_mod(
                    (a as nat) % (n as nat),
                    odd_part(((n as nat) - 1) as nat) * pow2(j as nat),
                    n as nat,
                ) == (n as nat) - 1);
                assert(exists|jj: int|
                    0 <= jj < twos_count(((n as nat) - 1) as nat) && #[trigger] pow_mod(
                        (a as nat) % (n as nat),
                        odd_part(((n as nat) - 1) as nat) * pow2(jj as nat),
                        n as nat,
                    ) == (n as nat) - 1) by {
                    assert(0 <= j < twos_count(((n as nat) - 1) as nat));
                    assert(pow_mod(
                        (a as nat) % (n as nat),
                        odd_part(((n as nat) - 1) as nat) * pow2(j as nat),
                        n as nat,
                    ) == (n as nat) - 1);
                };
            }
            return true;
        }
        j = j + 1;
    }
    proof {
        assert(forall|jj: int|
            0 <= jj < s ==> #[trigger] pow_mod(an, dd * pow2(jj as nat), n as nat) != n - 1);
        assert(!mr_base_ok(n as nat, a as nat));
    }
    false
}

/// Runs the deterministic 32-bit Miller-Rabin test.
pub fn miller_rabin_u64(n: u64) -> (r: bool)
    requires
        n < 0x100000000,
    ensures
        r == spec_miller_rabin_32(n as nat),
{
    if n < 2 {
        return false;
    }
    if n % 2 == 0 {
        return n == 2;
    }
    let mut d: u64 = n - 1;
    let mut s: u64 = 0;
    proof {
        lemma2_to64();
    }
    while d % 2 == 0
        invariant
            1 <= d,
            odd_part((n - 1) as nat) == odd_part(d as nat),
            twos_count((n - 1) as nat) == s as nat + twos_count(d as nat),
            d as int * pow2(s as nat) == n - 1,
            s <= 64,
        decreases d,
    {
        proof {
            lemma_pow2_adds(s as nat, 1);
            lemma2_to64();
            assert((d as int / 2) * (pow2(s as nat) * 2) == d as int * pow2(s as nat))
                by (nonlinear_arith)
                requires
                    d as int % 2 == 0,
            ;
            assert(s < 64) by {
                lemma_pow2_pos(s as nat);
                if s >= 64 {
                    lemma_pow2_adds(64, (s - 64) as nat);
                    lemma_pow2_pos((s - 64) as nat);
                    assert(pow2(s as nat) >= pow2(64)) by (nonlinear_arith)
                        requires
                            pow2(s as nat) == pow2(64) * pow2((s - 64) as nat),
                            pow2((s - 64) as nat) >= 1,
                    ;
                    assert(d as int * pow2(s as nat) >= pow2(64)) by (nonlinear_arith)
                        requires
                            d >= 1,
                            pow2(s as nat) >= pow2(64),
                    ;
                }
            };
        }
        d = d / 2;
        s = s + 1;
    }
    mr_round_u64(n, d, s, 2) && mr_round_u64(n, d, s, 7) && mr_round_u64(n, d, s, 61)
}

/// The seed test on a drawn value: the deterministic 32-bit Miller-Rabin
/// test, taking the value as the big-integer type the stream hands out.
pub fn miller_rabin_32b(n: &num_bigint::BigUint) -> (r: bool)
    requires
        big_val(*n) < 0x100000000,
    ensures
        r == spec_miller_rabin_32(big_val(*n)),
{
    let v: u64 = big_to_u64(n);
    miller_rabin_u64(v)
}

/// Low `k` bits of the mixing hash of a nonce counter: the nonce mask added
/// to an extension's random draw.
pub open spec fn spec_nonce_mask(nonce: int, k: nat) -> nat {
    (spec_mix(FElem { v: (nonce % (FIELD_MODULUS as int)) as u64 }).v as nat) % pow2(k)
}

/// Computes the nonce mask: mixes the counter through the secondary hash and
/// keeps the low `k` bits.
pub fn nonce_mask(nonce: u64, k: usize) -> (r: u64)
    requires
        k <= 60,
    ensures
        r as nat == spec_nonce_mask(nonce as int, k as nat),
        (r as nat) < pow2(k as nat),
{
    let f = FElem::from_u64(nonce);
    let mixed = mix(f);
    proof {
        vstd::bits::lemma_u64_pow2_no_overflow(k as nat);
        vstd::bits::lemma_u64_shl_is_mul(1u64, k as u64);
        lemma_pow2_pos(k as nat);
    }
    let m: u64 = 1u64 << (k as u64);
    let r: u64 = mixed.v % m;
    proof {
        lemma_mod_bound(mixed.v as int, m as int);
    }
    r
}

/// One recorded extension: the budget it followed, the drawn random value,
/// the found nonce and checking base, and the resulting number.
#[derive(Clone, Debug, PartialEq, Eq)]
pub struct PocklingtonExtension {
    pub plan: PlannedExtension,
    pub random: num_bigint::BigUint,
    pub nonce: usize,
    pub checking_base: num_bigint::BigUint,
    pub result: num_bigint::BigUint,
}

/// The mathematical content of one recorded extension.
pub ghost struct ExtensionModel {
    pub plan: PlannedExtension,
    pub random: nat,
    pub nonce: nat,
    pub checking_base: nat,
    pub result: nat,
}

impl PocklingtonExtension {
    /// The numbers this extension records.
    pub open spec fn model(self) -> ExtensionModel {
        ExtensionModel {
            plan: self.plan,
            random: big_val(self.random),
            nonce: self.nonce as nat,
            checking_base: big_val(self.checking_base),
            result: big_val(self.result),
        }
    }
}

/// A full certificate: the probable-prime seed, the hash counter that
/// produced it, and the chain of extensions.
#[derive(Clone, Debug, PartialEq, Eq)]
pub struct PocklingtonCertificate {
    pub base_prime: num_bigint::BigUint,
    pub base_nonce: usize,
    pub extensions: Vec<PocklingtonExtension>,
}

/// The mathematical content of a certificate.
pub ghost struct CertificateModel {
    pub base_prime: nat,
    pub base_nonce: nat,
    pub extensions: Seq<ExtensionModel>,
}

/// The number a certificate certifies: the last extension's result, or the
/// seed itself when there is none.
pub open spec fn cert_number_model(c: CertificateModel) -> nat {
    if c.extensions.len() == 0 {
        c.base_prime
    } else {
        c.extensions.last().result
    }
}

impl PocklingtonCertificate {
    /// The numbers this certificate records.
    pub open spec fn model(self) -> CertificateModel {
        CertificateModel {
            base_prime: big_val(self.base_prime),
            base_nonce: self.base_nonce as nat,
            extensions: self.extensions@.map_values(|e: PocklingtonExtension| e.model()),
        }
    }

    /// The certified number.
    pub fn number(&self) -> (r: &num_bigint::BigUint)
        ensures
            big_val(*r) == cert_number_model(self.model()),
    {
        let n = self.extensions.len();
        if n > 0 {
            &self.extensions[n - 1].result
        } else {
            &self.base_prime
        }
    }
}

/// The base search for one candidate number: bases count up from `base`; one
/// whose `part = base^ev mod number` passes `part^prior == 1 mod number` and
/// whose `part - 1` is coprime to `number` is the witness; one that passes
/// the power check but fails the coprimality check is skipped.  A base that
/// fails the power check abandons the whole candidate: `part^prior` is
/// `base^(number-1) mod number`, so a failing base shows `number` composite
/// by Fermat's little theorem, no base can then complete a Pocklington
/// witness, and walking the remaining bases (time proportional to the
/// candidate itself on every composite candidate) would defeat the
/// expected-fast termination of the search.  That number-theoretic
/// equivalence is not proved here; this scan order is the stated behaviour.
pub open spec fn spec_find_base(prior: nat, ev: nat, number: nat, base: nat) -> Option<nat>
    decreases number - base,
{
    if base >= number {
        None
    } else {
        let part = pow_mod(base, ev, number);
        if pow_mod(part, prior, number) != 1 {
            None
        } else if gcd_nat((part - 1) as nat, number) == 1 {
            Some(base)
        } else {
            spec_find_base(prior, ev, number, base + 1)
        }
    }
}

/// The nonce search for one extension: nonce counters count up from `nonce`
/// to `bound`; each shapes a candidate `prior * (random + mask) + 1` and
/// searches bases for it.
pub open spec fn spec_search_nonce(
    prior: nat,
    plan: PlannedExtension,
    random: nat,
    nonce: int,
    bound: int,
) -> Option<ExtensionModel>
    decreases bound - nonce,
{
    if nonce >= bound {
        None
    } else {
        let mask = spec_nonce_mask(nonce, plan.nonce_bits as nat);
        let number = prior * (random + mask) + 1;
        match spec_find_base(prior, random + mask, number, 2) {
            Some(b) => Some(
                ExtensionModel {
                    plan,
                    random,
                    nonce: nonce as nat,
                    checking_base: b,
                    result: number,
                },
            ),
            None => spec_search_nonce(prior, plan, random, nonce + 1, bound),
        }
    }
}

/// What one extension attempt does to a certificate: on success the found
/// extension is appended, on exhaustion the certificate is handed back.
pub open spec fn spec_attempt_extension(
    c: CertificateModel,
    plan: PlannedExtension,
    random: nat,
) -> Result<CertificateModel, CertificateModel> {
    match spec_search_nonce(
        cert_number_model(c),
        plan,
        random,
        0,
        pow2(plan.nonce_bits as nat) as int,
    ) {
        Some(em) => Ok(
            CertificateModel {
                base_prime: c.base_prime,
                base_nonce: c.base_nonce,
                extensions: c.extensions.push(em),
            },
        ),
        None => Err(c),
    }
}

/// A found base is a Pocklington witness for its candidate.
pub proof fn lemma_find_base_some(prior: nat, ev: nat, number: nat, base: nat)
    requires
        spec_find_base(prior, ev, number, base) is Some,
    ensures
        ({
            let b = spec_find_base(prior, ev, number, base)->Some_0;
            let part = pow_mod(b, ev, number);
            &&& base <= b < number
            &&& pow_mod(part, prior, number) == 1
            &&& gcd_nat((part - 1) as nat, number) == 1
        }),
    decreases number - base,
{
    let part = pow_mod(base, ev, number);
    if base < number && pow_mod(part, prior, number) == 1 && gcd_nat((part - 1) as nat, number)
        == 1 {
    } else {
        lemma_find_base_some(prior, ev, number, base + 1);
    }
}

/// A found extension records its own Pocklington relation: its result is
/// `prior * (random + mask) + 1` and its checking base is a witness for it.
pub proof fn lemma_search_nonce_some(
    prior: nat,
    plan: PlannedExtension,
    random: nat,
    nonce: int,
    bound: int,
)
    requires
        0 <= nonce,
        spec_search_nonce(prior, plan, random, nonce, bound) is Some,
    ensures
        ({
            let em = spec_search_nonce(prior, plan, random, nonce, bound)->Some_0;
            let mask = spec_nonce_mask(em.nonce as int, plan.nonce_bits as nat);
            let part = pow_mod(em.checking_base, random + mask, em.result);
            &&& em.plan == plan
            &&& em.random == random
            &&& nonce <= em.nonce < bound
            &&& em.result == prior * (random + mask) + 1
            &&& 2 <= em.checking_base < em.result
            &&& pow_mod(part, prior, em.result) == 1
            &&& gcd_nat((part - 1) as nat, em.result) == 1
        }),
    decreases bound - nonce,
{
    let mask = spec_nonce_mask(nonce, plan.nonce_bits as nat);
    let number = prior * (random + mask) + 1;
    match spec_find_base(prior, random + mask, number, 2) {
        Some(b) => {
            lemma_find_base_some(prior, random + mask, number, 2);
        },
        None => {
            lemma_search_nonce_some(prior, plan, random, nonce + 1, bound);
        },
    }
}

/// Searches one candidate number for a Pocklington checking base.
fn find_checking_base(
    prior: &num_bigint::BigUint,
    nonced: &num_bigint::BigUint,
    number: &num_bigint::BigUint,
) -> (r: Option<num_bigint::BigUint>)
    requires
        big_val(*prior) >= 2,
        big_val(*number) == big_val(*prior) * big_val(*nonced) + 1,
    ensures
        match r {
            Some(b) => spec_find_base(big_val(*prior), big_val(*nonced), big_val(*number), 2)
                == Some(big_val(b)),
            None => spec_find_base(big_val(*prior), big_val(*nonced), big_val(*number), 2)
                is None,
        },
{
    let ghost pv: nat = big_val(*prior);
    let ghost ev: nat = big_val(*nonced);
    let ghost nv: nat = big_val(*number);
    let mut base = big_from_u64(2);
    while big_lt(&base, number)
        invariant
            pv == big_val(*prior),
            ev == big_val(*nonced),
            nv == big_val(*number),
            pv >= 2,
            big_val(base) >= 2,
            spec_find_base(pv, ev, nv, 2) == spec_find_base(pv, ev, nv, big_val(base)),
        decreases nv - big_val(base),
    {
        let part = big_modpow(&base, nonced, number);
        let power = big_modpow(&part, prior, number);
        if !big_is_one(&power) {
            proof {
                assert(spec_find_base(pv, ev, nv, big_val(base)) is None);
            }
            return None;
        }
        proof {
            // the checked power is 1, so `part` cannot be zero
            if big_val(part) == 0 {
                lemma0_pow(pv);
                vstd::arithmetic::div_mod::lemma_small_mod(0nat, nv);
                assert(pow_mod(0nat, pv, nv) == 0nat);
                assert(false);
            }
        }
        let part_less_one = big_sub_u64(&part, 1);
        let g = big_gcd(&part_less_one, number);
        if big_is_one(&g) {
            proof {
                assert(spec_find_base(pv, ev, nv, big_val(base)) == Some(big_val(base)));
            }
            return Some(base);
        }
        proof {
            assert(spec_find_base(pv, ev, nv, big_val(base)) == spec_find_base(
                pv,
                ev,
                nv,
                big_val(base) + 1,
            ));
        }
        base = big_add_u64(&base, 1);
    }
    proof {
        assert(spec_find_base(pv, ev, nv, big_val(base)) is None);
    }
    None
}

/// Attempts one Pocklington extension of the certificate, searching the
/// planned nonce space and, per nonce, the base space.  On success the
/// extended certificate is returned; on exhaustion the unmodified certificate
/// comes back as the error.
pub fn attempt_pocklington_extension(
    p: PocklingtonCertificate,
    plan: &PlannedExtension,
    random: num_bigint::BigUint,
) -> (r: Result<PocklingtonCertificate, PocklingtonCertificate>)
    requires
        planned_extension_wf(*plan),
        cert_number_model(p.model()) >= 2,
    ensures
        match r {
            Ok(c) => spec_attempt_extension(p.model(), *plan, big_val(random)) == Ok::<CertificateModel, CertificateModel>(c.model()),
            Err(c) => spec_attempt_extension(p.model(), *plan, big_val(random)) == Err::<CertificateModel, CertificateModel>(c.model()),
        },
{
    let ghost c0 = p.model();
    let ghost pv: nat = cert_number_model(p.model());
    let ghost rv: nat = big_val(random);
    proof {
        vstd::bits::lemma_usize_pow2_no_overflow(plan.nonce_bits as nat);
        vstd::bits::lemma_usize_shl_is_mul(1usize, plan.nonce_bits);
    }
    let bound: usize = 1usize << plan.nonce_bits;
    let ghost bd: int = bound as int;
    let mut nonce: usize = 0;
    while nonce < bound
        invariant
            planned_extension_wf(*plan),
            c0 == p.model(),
            pv == cert_number_model(p.model()),
            pv >= 2,
            rv == big_val(random),
            bd == bound as int,
            bd == pow2(plan.nonce_bits as nat),
            nonce <= bound,
            spec_search_nonce(pv, *plan, rv, 0, bd) == spec_search_nonce(
                pv,
                *plan,
                rv,
                nonce as int,
                bd,
            ),
        decreases bound - nonce,
    {
        let mask = nonce_mask(nonce as u64, plan.nonce_bits);
        let mask_big = big_from_u64(mask);
        let nonced = big_add(&random, &mask_big);
        let candidate = big_add_u64(&big_mul(p.number(), &nonced), 1);
        match find_checking_base(p.number(), &nonced, &candidate) {
            Some(base) => {
                let ext = PocklingtonExtension {
                    plan: plan.clone(),
                    random,
                    checking_base: base,
                    result: candidate,
                    nonce,
                };
                let ghost em = ext.model();
                let mut p2 = p;
                p2.extensions.push(ext);
                proof {
                    assert(spec_search_nonce(pv, *plan, rv, nonce as int, bd) == Some(em));
                    assert(p2.model().extensions =~= c0.extensions.push(em));
                    assert(p2.model() == CertificateModel {
                        base_prime: c0.base_prime,
                        base_nonce: c0.base_nonce,
                        extensions: c0.extensions.push(em),
                    });
                }
                return Ok(p2);
            },
            None => {
                proof {
                    assert(spec_search_nonce(pv, *plan, rv, nonce as int, bd)
                        == spec_search_nonce(pv, *plan, rv, nonce as int + 1, bd));
                }
            },
        }
        nonce = nonce + 1;
    }
    proof {
        assert(spec_search_nonce(pv, *plan, rv, nonce as int, bd) is None);
    }
    Err(p)
}

/// The template of the 32-bit seed draw: one forced leading bit, 29 fresh
/// bits, two forced trailing bits.
pub open spec fn seed_template() -> NatTemplate {
    NatTemplate { random_bits: 29, leading_ones: 1, trailing_ones: 2 }
}

/// The template of one extension's random draw: one forced leading bit above
/// the budgeted fresh bits.
pub open spec fn extension_template(random_bits: usize) -> NatTemplate {
    NatTemplate { random_bits, leading_ones: 1, trailing_ones: 0 }
}

/// Folds the extension attempts over the planned budgets, drawing each
/// step's random value from the stream at position `used`.
pub open spec fn spec_execute_extensions(
    c: CertificateModel,
    hash: FElem,
    exts: Seq<PlannedExtension>,
    i: int,
    used: int,
) -> Option<CertificateModel>
    decreases exts.len() - i,
{
    if i >= exts.len() {
        Some(c)
    } else {
        let random = spec_template_value(hash, used, extension_template(exts[i].random_bits));
        match spec_attempt_extension(c, exts[i], random) {
            Ok(c2) => spec_execute_extensions(
                c2,
                hash,
                exts,
                i + 1,
                used + exts[i].random_bits,
            ),
            Err(_) => None,
        }
    }
}

/// What executing the planned budgets against one hash value yields: the
/// seed is drawn and tested, then every budget must succeed in order.
pub open spec fn spec_execute_plan(hash: FElem, exts: Seq<PlannedExtension>, nonce: int) -> Option<
    CertificateModel,
> {
    let seed = spec_template_value(hash, 0, seed_template());
    if !spec_miller_rabin_32(seed) {
        None
    } else {
        spec_execute_extensions(
            CertificateModel { base_prime: seed, base_nonce: nonce as nat, extensions: Seq::empty() },
            hash,
            exts,
            0,
            29,
        )
    }
}

/// Executes a plan against one hash value: keys the entropy stream, draws
/// and tests the seed, then attempts every planned extension in order,
/// drawing each step's random value from the stream.
pub fn execute_pocklington_plan(hash: FElem, plan: &PocklingtonPlan, nonce: usize) -> (r: Option<
    PocklingtonCertificate,
>)
    requires
        hash.wf(),
        plan.wf(),
    ensures
        match r {
            Some(c) => spec_execute_plan(hash, plan.extensions@, nonce as int) == Some(c.model())
                && cert_number_model(c.model()) >= 2,
            None => spec_execute_plan(hash, plan.extensions@, nonce as int) is None,
        },
{
    let total = plan.entropy();
    let mut bits = EntropySource::new(hash, total);
    let seed_big = bits.get_bits_as_nat(
        NatTemplate { trailing_ones: 2, leading_ones: 1, random_bits: 29 },
    );
    proof {
        crate::entropy::lemma_template_value_bound(hash, 0, seed_template());
        lemma2_to64();
        assert(big_val(seed_big) < 0x100000000);
        assert(big_val(seed_big) >= pow2(31)) by {
            assert((pow2(1) - 1) * pow2(31) == pow2(31)) by (nonlinear_arith)
                requires
                    pow2(1) == 2,
            ;
        };
    }
    if !miller_rabin_32b(&seed_big) {
        return None;
    }
    let mut certificate = PocklingtonCertificate {
        base_prime: seed_big,
        base_nonce: nonce,
        extensions: Vec::new(),
    };
    let ghost c0 = certificate.model();
    proof {
        assert(c0.extensions =~= Seq::<ExtensionModel>::empty());
        assert(c0 == CertificateModel {
            base_prime: spec_template_value(hash, 0, seed_template()),
            base_nonce: nonce as nat,
            extensions: Seq::empty(),
        });
    }
    let mut i: usize = 0;
    while i < plan.extensions.len()
        invariant
            plan.wf(),
            hash.wf(),
            i <= plan.extensions@.len(),
            bits.wf(),
            bits.seed == hash,
            bits.bits_used as int == 29 + crate::plan::bits_prefix(plan.extensions@, i as int)
                - i,
            bits.bits_used <= 29 + i * 4096,
            cert_number_model(certificate.model()) >= 2,
            spec_execute_extensions(
                certificate.model(),
                hash,
                plan.extensions@,
                i as int,
                bits.bits_used as int,
            ) == spec_execute_extensions(c0, hash, plan.extensions@, 0, 29),
            spec_execute_plan(hash, plan.extensions@, nonce as int) == spec_execute_extensions(
                c0,
                hash,
                plan.extensions@,
                0,
                29,
            ),
        decreases plan.extensions@.len() - i,
    {
        proof {
            assert((i + 1) * 4096 == i * 4096 + 4096) by (nonlinear_arith);
            assert(i * 4096 <= 2048 * 4096) by (nonlinear_arith)
                requires
                    0 <= i <= 2048,
            ;
        }
        let ghost cpre = certificate.model();
        let ghost upre: int = bits.bits_used as int;
        let ext = PlannedExtension {
            nonce_bits: plan.extensions[i].nonce_bits,
            random_bits: plan.extensions[i].random_bits,
        };
        proof {
            assert(ext == plan.extensions@[i as int]);
        }
        let random = bits.get_bits_as_nat(
            NatTemplate { random_bits: ext.random_bits, trailing_ones: 0, leading_ones: 1 },
        );
        certificate = match attempt_pocklington_extension(certificate, &ext, random) {
            Ok(c) => c,
            Err(_) => {
                proof {
                    let rv = spec_template_value(hash, upre, extension_template(ext.random_bits));
                    assert(spec_attempt_extension(cpre, ext, rv) is Err);
                    assert(spec_execute_extensions(cpre, hash, plan.extensions@, i as int, upre)
                        is None);
                }
                return None;
            },
        };
        proof {
            let rv = spec_template_value(hash, upre, extension_template(ext.random_bits));
            assert(spec_attempt_extension(cpre, ext, rv) == Ok::<
                CertificateModel,
                CertificateModel,
            >(certificate.model()));
            lemma_search_nonce_some(
                cert_number_model(cpre),
                ext,
                rv,
                0,
                pow2(ext.nonce_bits as nat) as int,
            );
            assert(cert_number_model(certificate.model()) >= 2);
        }
        i = i + 1;
    }
    proof {
        assert(spec_execute_extensions(
            certificate.model(),
            hash,
            plan.extensions@,
            i as int,
            bits.bits_used as int,
        ) == Some(certificate.model()));
    }
    Some(certificate)
}

/// The outer counter search: hashes the inputs with each counter value in
/// turn and executes the plan against the hash, returning the first
/// certificate found.
pub open spec fn spec_derive<H: Hasher>(
    h: H,
    inputs: Seq<FElem>,
    exts: Seq<PlannedExtension>,
    counter: int,
    bound: int,
) -> Option<CertificateModel>
    decreases bound - counter,
{
    if counter >= bound {
        None
    } else {
        let hv = h.spec_hash(
            inputs.push(FElem { v: (counter % (FIELD_MODULUS as int)) as u64 }),
        );
        match spec_execute_plan(hv, exts, counter) {
            Some(c) => Some(c),
            None => spec_derive(h, inputs, exts, counter + 1, bound),
        }
    }
}

/// What the whole derivation yields for given extension budgets and outer
/// nonce bits.
pub open spec fn spec_hash_to_prime<H: Hasher>(
    h: H,
    inputs: Seq<FElem>,
    exts: Seq<PlannedExtension>,
    nonce_bits: nat,
) -> Option<CertificateModel> {
    spec_derive(h, inputs, exts, 0, pow2(nonce_bits) as int)
}

/// Runs the derivation for an already-computed plan: appends a counter to
/// the inputs and searches the counter space.
pub fn derive_with_plan<H: Hasher>(
    inputs: &Vec<FElem>,
    plan: &PocklingtonPlan,
    base_hash: &H,
) -> (r: Option<PocklingtonCertificate>)
    requires
        plan.wf(),
        forall|i: int| 0 <= i < inputs@.len() ==> (#[trigger] inputs@[i]).wf(),
    ensures
        match r {
            Some(c) => spec_hash_to_prime(*base_hash, inputs@, plan.extensions@, plan.nonce_bits as nat)
                == Some(c.model()) && cert_number_model(c.model()) >= 2,
            None => spec_hash_to_prime(*base_hash, inputs@, plan.extensions@, plan.nonce_bits as nat)
                is None,
        },
{
    proof {
        vstd::bits::lemma_usize_pow2_no_overflow(plan.nonce_bits as nat);
        vstd::bits::lemma_usize_shl_is_mul(1usize, plan.nonce_bits);
    }
    let bound: usize = 1usize << plan.nonce_bits;
    let ghost bd: int = bound as int;
    proof {
        lemma2_to64();
        if plan.nonce_bits < 30 {
            vstd::arithmetic::power2::lemma_pow2_strictly_increases(plan.nonce_bits as nat, 30);
        }
        assert(bd <= 0x40000000);
    }
    let mut work: Vec<FElem> = Vec::new();
    let mut ii: usize = 0;
    while ii < inputs.len()
        invariant
            ii <= inputs@.len(),
            work@ == inputs@.subrange(0, ii as int),
        decreases inputs@.len() - ii,
    {
        work.push(inputs[ii]);
        proof {
            assert(work@ =~= inputs@.subrange(0, ii as int + 1));
        }
        ii = ii + 1;
    }
    proof {
        assert(work@ =~= inputs@);
    }
    let mut counter: usize = 0;
    while counter < bound
        invariant
            plan.wf(),
            forall|i: int| 0 <= i < inputs@.len() ==> (#[trigger] inputs@[i]).wf(),
            work@ == inputs@,
            counter <= bound,
            bd == bound as int,
            bd == pow2(plan.nonce_bits as nat),
            bd <= 0x40000000,
            spec_derive(*base_hash, inputs@, plan.extensions@, 0, bd) == spec_derive(
                *base_hash,
                inputs@,
                plan.extensions@,
                counter as int,
                bd,
            ),
        decreases bound - counter,
    {
        let c_elem = FElem::from_u64(counter as u64);
        let mut hashed = work.clone();
        hashed.push(c_elem);
        proof {
            assert(hashed@ =~= inputs@.push(
                FElem { v: (counter as int % (FIELD_MODULUS as int)) as u64 },
            ));
            assert(forall|i: int| 0 <= i < hashed@.len() ==> (#[trigger] hashed@[i]).wf());
        }
        let hv = base_hash.hash(&hashed);
        match execute_pocklington_plan(hv, plan, counter) {
            Some(cert) => {
                return Some(cert);
            },
            None => {
                proof {
                    assert(spec_derive(*base_hash, inputs@, plan.extensions@, counter as int, bd)
                        == spec_derive(
                        *base_hash,
                        inputs@,
                        plan.extensions@,
                        counter as int + 1,
                        bd,
                    ));
                }
            },
        }
        counter = counter + 1;
    }
    None
}

/// Derives a certified prime from the inputs: plans for the requested
/// entropy, then runs the counter search against that plan.  The result is
/// pinned to the planning recurrence, so the whole derivation is a function
/// of the inputs, the entropy and the hash alone.
pub fn hash_to_pocklington_prime<H: Hasher>(
    inputs: &Vec<FElem>,
    entropy: usize,
    base_hash: &H,
) -> (r: Option<PocklingtonCertificate>)
    requires
        29 <= entropy <= crate::plan::MAX_PLAN_ENTROPY,
        forall|i: int| 0 <= i < inputs@.len() ==> (#[trigger] inputs@[i]).wf(),
    ensures
        match r {
            Some(c) => spec_hash_to_prime(
                *base_hash,
                inputs@,
                crate::plan::spec_plan_extensions(entropy as int),
                10,
            ) == Some(c.model()) && cert_number_model(c.model()) >= 2,
            None => spec_hash_to_prime(
                *base_hash,
                inputs@,
                crate::plan::spec_plan_extensions(entropy as int),
                10,
            ) is None,
        },
{
    let plan = PocklingtonPlan::new(entropy);
    proof {
        assert(plan.extensions@ == crate::plan::spec_plan_extensions(entropy as int));
        assert(plan.nonce_bits == 10);
    }
    derive_with_plan(inputs, &plan, base_hash)
}

} // verus!
