use num_bigint::BigUint;
use num_integer::Integer;
use num_traits::One;
use pocklington::cert::{hash_to_pocklington_prime, nonce_mask, PocklingtonCertificate};
use pocklington::circuit;
use pocklington::field::FElem;
use pocklington::hasher::MixSponge;
use pocklington::plan::{nonce_bits_needed, PocklingtonPlan};

// A deterministic Miller-Rabin check with the first `rounds` primes as bases.
fn miller_rabin(n: &BigUint, rounds: usize) -> bool {
    let bases: [u64; 20] = [2, 3, 5, 7, 11, 13, 17, 19, 23, 29, 31, 37, 41, 43, 47, 53, 59, 61, 67, 71];
    let one = BigUint::from(1u64);
    let two = BigUint::from(2u64);
    if *n < two {
        return false;
    }
    if n.is_even() {
        return *n == two;
    }
    let n_minus_one = n - 1u64;
    let mut d = n_minus_one.clone();
    let mut s: u64 = 0;
    while d.is_even() {
        d = &d / 2u64;
        s += 1;
    }
    for &b in bases.iter().take(rounds) {
        let a = BigUint::from(b) % n;
        if a == BigUint::from(0u64) {
            continue;
        }
        let mut x = a.modpow(&d, n);
        if x == one || x == n_minus_one {
            continue;
        }
        let mut witnessed = false;
        for _ in 1..s {
            x = x.modpow(&two, n);
            if x == n_minus_one {
                witnessed = true;
                break;
            }
        }
        if !witnessed {
            return false;
        }
    }
    true
}

fn felems(values: &[u64]) -> Vec<FElem> {
    values.iter().map(|&v| FElem::from_u64(v)).collect()
}

#[test]
fn pocklington_plan_128() {
    let p = PocklingtonPlan::new(128);
    println!("{:#?}", p);
    println!("{:#?}", p.max_bits());
    assert_eq!(p.entropy(), 128);
}

#[test]
fn pocklington_plan_256() {
    let p = PocklingtonPlan::new(256);
    println!("{:#?}", p);
    println!("{:#?}", p.max_bits());
    assert_eq!(p.entropy(), 256);
}

#[test]
fn plan_entropy_round_trip() {
    for &e in &[29usize, 30, 40, 64, 128, 256] {
        let p = PocklingtonPlan::new(e);
        assert_eq!(p.entropy(), e);
    }
}

#[test]
fn nonce_bits_at_32() {
    assert_eq!(nonce_bits_needed(32), 10);
}

#[test]
fn nonce_bits_monotone() {
    let mut last = nonce_bits_needed(3);
    for bits in 4usize..600 {
        let cur = nonce_bits_needed(bits);
        assert!(cur >= last);
        last = cur;
    }
}

#[test]
fn pocklington_hash_helper_128_1() {
    let hash = MixSponge;
    let cert = hash_to_pocklington_prime(&felems(&[1]), 128, &hash)
        .expect("pocklington generation failed");
    assert!(miller_rabin(cert.number(), 20));
}

#[test]
fn pocklington_hash_helper_128_more_inputs() {
    let hash = MixSponge;
    for base in 2u64..5 {
        let cert = hash_to_pocklington_prime(&felems(&[base]), 128, &hash)
            .expect("pocklington generation failed");
        assert!(miller_rabin(cert.number(), 20));
    }
}

#[test]
fn derivation_is_deterministic() {
    let hash = MixSponge;
    let inputs = felems(&[1, 2, 3]);
    let a = hash_to_pocklington_prime(&inputs, 64, &hash).expect("derivation failed");
    let b = hash_to_pocklington_prime(&inputs, 64, &hash).expect("derivation failed");
    assert_eq!(a, b);
}

#[test]
fn number_fits_plan_max_bits() {
    let hash = MixSponge;
    for &e in &[29usize, 50, 128] {
        let plan = PocklingtonPlan::new(e);
        let cert = hash_to_pocklington_prime(&felems(&[1, 2, 3, 4, 5, 6, 7, 8, 9, 10]), e, &hash)
            .expect("derivation failed");
        assert!(cert.number().bits() as usize <= plan.max_bits());
    }
}

// Re-checks every recorded extension against the Pocklington relation:
// result == prior * (random + mask) + 1, part^prior == 1 mod result, and
// gcd(part - 1, result) == 1, with mask the low nonce bits of the mixed nonce.
fn check_extension_chain(cert: &PocklingtonCertificate) {
    let mut prior = cert.base_prime.clone();
    for ext in &cert.extensions {
        let mask = nonce_mask(ext.nonce as u64, ext.plan.nonce_bits);
        let extension_value = &ext.random + BigUint::from(mask);
        let expected = &prior * &extension_value + 1u64;
        assert_eq!(expected, ext.result);
        let part = ext.checking_base.modpow(&extension_value, &ext.result);
        assert_eq!(part.modpow(&prior, &ext.result), BigUint::one());
        let part_less_one = &part - 1u64;
        assert!(part_less_one.gcd(&ext.result).is_one());
        prior = ext.result.clone();
    }
}

#[test]
fn extension_relations_hold() {
    let hash = MixSponge;
    let cert = hash_to_pocklington_prime(&felems(&[7, 8]), 80, &hash).expect("derivation failed");
    assert!(!cert.extensions.is_empty());
    check_extension_chain(&cert);
}

#[test]
fn circuit_matches_native() {
    let hash = MixSponge;
    let inputs = felems(&[1, 2, 3, 4, 5, 6, 7, 8, 9, 10]);
    for &e in &[29usize, 30, 50, 80, 128, 256] {
        let cert = hash_to_pocklington_prime(&inputs, e, &hash).expect("derivation failed");
        let synthesized = circuit::hash_to_pocklington_prime(&inputs, e, &hash)
            .expect("circuit synthesis failed");
        assert_eq!(&synthesized, cert.number());
    }
}

#[test]
fn nonce_mask_mixes() {
    // the mask is a hash of the nonce, not the nonce's own low bits
    let mut differs = false;
    for nonce in 0u64..16 {
        if nonce_mask(nonce, 12) != nonce % (1 << 12) {
            differs = true;
        }
    }
    assert!(differs);
}

#[test]
fn plan_64_exact_shape() {
    let p = PocklingtonPlan::new(64);
    // the outer nonce budget is the full nonce_bits_needed(32) and the seed
    // carries the remaining 32 - 3 - 10 == 19 bits of entropy
    assert_eq!(p.nonce_bits, 10);
    assert_eq!(p.initial_entropy, 19);
    let shape: Vec<(usize, usize)> = p
        .extensions
        .iter()
        .map(|e| (e.nonce_bits, e.random_bits))
        .collect();
    assert_eq!(shape, vec![(11, 19), (11, 12), (12, 48)]);
}

#[test]
fn extension_attempt_can_exhaust() {
    // a zero random draw with a zero-bit nonce budget shapes the candidate
    // prior * 0 + 1 == 1, which no base can witness
    let cert = pocklington::cert::PocklingtonCertificate {
        base_prime: BigUint::from(5u64),
        base_nonce: 0,
        extensions: Vec::new(),
    };
    let plan = pocklington::plan::PlannedExtension { nonce_bits: 0, random_bits: 1 };
    let r = pocklington::cert::attempt_pocklington_extension(cert, &plan, BigUint::from(0u64));
    match r {
        Ok(_) => panic!("exhausted search reported success"),
        Err(back) => assert_eq!(back.base_prime, BigUint::from(5u64)),
    }
}

#[test]
fn derive_with_no_inputs() {
    let hash = MixSponge;
    let cert = hash_to_pocklington_prime(&Vec::new(), 29, &hash).expect("derivation failed");
    assert!(miller_rabin(cert.number(), 20));
}
