//! Bit-budget planning for recursive Pocklington certification.
//!
//! A plan decides, for a requested amount of entropy, how many pseudorandom
//! bits and how many nonce bits each extension step of the certificate may
//! consume, so that the final number is as short as possible while every step
//! keeps enough nonce space to find a primality witness with failure
//! probability at most `2^-64`.
//!
//! The analytic quantities behind the plan (the density of primes among
//! `bits`-bit integers and the number of trials needed to hit one) are
//! evaluated in 64.64 fixed-point arithmetic: the density
//! `log2(e)/bits - (log2(e)/bits)^2` and the series
//! `-ln(1-p) = p + p^2/2 + p^3/3 + ...` truncated after three terms.

use vstd::arithmetic::div_mod::{
    lemma_div_denominator, lemma_div_is_ordered, lemma_div_is_ordered_by_denominator,
    lemma_div_pos_is_pos, lemma_fundamental_div_mod, lemma_hoist_over_denominator,
};
use vstd::arithmetic::power2::{
    lemma2_to64, lemma_pow2_adds, lemma_pow2_pos, lemma_pow2_strictly_increases, pow2,
};
use vstd::prelude::*;

verus! {

/// `log2(e)`, scaled by `2^64` and rounded to the nearest integer.
pub const LOG2_E_FIXED: u128 = 26613026195688644983;

/// `-ln(2^-64) = 64 ln 2`, scaled by `2^64` and rounded to the nearest integer.
pub const LN_INV_PFAIL_FIXED: u128 = 818323753292969962226;

/// The fixed-point unit, `2^64`.
pub const FIXED_ONE: u128 = 18446744073709551616;

/// Largest entropy a plan may be asked for.  The planning table's widths can
/// grow by up to `entropy + 31` bits per row over up to `entropy` rows, so
/// widths are bounded by roughly `entropy^2`; the cap keeps every width below
/// `2^23` (so the nonce budgets stay below 31 and the `2^nonce_bits` search
/// bounds fit a 32-bit `usize`) while leaving an order of magnitude of
/// headroom over any security level the protocol uses.
pub const MAX_PLAN_ENTROPY: usize = 2048;

/// The fraction of `bits`-bit integers that are prime, in fixed point:
/// `log2(e)/bits - (log2(e)/bits)^2`.
pub open spec fn prime_density_fixed(bits: int) -> int {
    let q: int = LOG2_E_FIXED as int / bits;
    q - (q * q) / (FIXED_ONE as int)
}

/// `-ln(1 - density)`, in fixed point, by the series truncated after the
/// cubic term.
pub open spec fn neg_log_survival_fixed(bits: int) -> int {
    let p: int = prime_density_fixed(bits);
    let sq: int = (p * p) / (FIXED_ONE as int);
    p + sq / 2 + ((sq * p) / (FIXED_ONE as int)) / 3
}

/// The number of uniform `bits`-bit samples needed so that the probability
/// that none is prime is at most `2^-64`:
/// `ceil(64 ln 2 / -ln(1 - density))`.
pub open spec fn prime_trials_spec(bits: int) -> int {
    let d: int = neg_log_survival_fixed(bits);
    (LN_INV_PFAIL_FIXED as int + d - 1) / d
}

/// The least `k` with `n <= 2^k`.
pub open spec fn clog2(n: nat) -> nat
    decreases n,
{
    if n <= 1 {
        0
    } else {
        1 + clog2(((n + 1) / 2) as nat)
    }
}

/// Nonce bits needed to find a `bits`-bit prime with failure probability at
/// most `2^-64`: `ceil(log2(prime_trials))`.
pub open spec fn nonce_bits_spec(bits: int) -> nat {
    clog2(prime_trials_spec(bits) as nat)
}

/// `clog2(n) <= k` exactly when `n <= 2^k`.
pub proof fn lemma_clog2_le_iff(n: nat, k: nat)
    ensures
        clog2(n) <= k <==> n <= pow2(k),
    decreases n,
{
    lemma_pow2_pos(k);
    if n <= 1 {
    } else {
        if k == 0 {
            assert(pow2(0) == 1) by {
                lemma2_to64();
            };
        } else {
            let h: nat = ((n + 1) / 2) as nat;
            lemma_clog2_le_iff(h, (k - 1) as nat);
            assert(pow2(k) == 2 * pow2((k - 1) as nat)) by {
                lemma_pow2_adds(1, (k - 1) as nat);
                lemma2_to64();
            };
            assert(h <= pow2((k - 1) as nat) <==> n <= pow2(k));
        }
    }
}

/// `clog2` is non-decreasing.
pub proof fn lemma_clog2_mono(a: nat, b: nat)
    requires
        a <= b,
    ensures
        clog2(a) <= clog2(b),
{
    lemma_clog2_le_iff(b, clog2(b));
    lemma_clog2_le_iff(a, clog2(b));
}

/// Counts the nonce bits needed for a `bits`-bit prime search.
///
/// Evaluates the fixed-point chain exactly as the specification functions
/// state it.
pub fn nonce_bits_needed(bits: usize) -> (r: usize)
    requires
        2 <= bits,
    ensures
        r == nonce_bits_spec(bits as int),
        r <= 70,
{
    let b: u128 = bits as u128;
    let q: u128 = LOG2_E_FIXED / b;
    proof {
        lemma_div_is_ordered_by_denominator(LOG2_E_FIXED as int, 2, b as int);
        assert(q <= LOG2_E_FIXED / 2);
        assert(LOG2_E_FIXED as int / 2 == 13306513097844322491);
    }
    assert(q <= 13306513097844322491);
    assert(q >= 1) by {
        assert(b < LOG2_E_FIXED);
        vstd::arithmetic::div_mod::lemma_div_non_zero(LOG2_E_FIXED as int, b as int);
    };
    proof {
        assert(q * q <= 13306513097844322491 * 13306513097844322491) by (nonlinear_arith)
            requires
                q <= 13306513097844322491,
        ;
        assert(q * q < q * FIXED_ONE) by (nonlinear_arith)
            requires
                1 <= q <= 13306513097844322491,
        ;
    }
    let qq: u128 = (q * q) / FIXED_ONE;
    proof {
        assert(qq < q) by {
            vstd::arithmetic::div_mod::lemma_multiply_divide_lt(
                (q * q) as int,
                FIXED_ONE as int,
                q as int,
            );
        };
    }
    let p: u128 = q - qq;
    assert(1 <= p <= q);
    proof {
        assert(p * p <= 13306513097844322491 * 13306513097844322491) by (nonlinear_arith)
            requires
                p <= 13306513097844322491,
        ;
        assert(p * p <= p * FIXED_ONE) by (nonlinear_arith)
            requires
                1 <= p <= 13306513097844322491,
        ;
    }
    let sq: u128 = (p * p) / FIXED_ONE;
    proof {
        lemma_div_is_ordered((p * p) as int, (p * FIXED_ONE) as int, FIXED_ONE as int);
        assert((p * FIXED_ONE) as int / FIXED_ONE as int == p) by {
            vstd::arithmetic::div_mod::lemma_div_by_multiple(p as int, FIXED_ONE as int);
        };
        assert(sq <= p);
        assert(sq * p <= p * FIXED_ONE) by (nonlinear_arith)
            requires
                sq <= p,
                p <= 13306513097844322491,
                p * p <= p * FIXED_ONE,
        ;
    }
    let t2: u128 = sq / 2;
    let t3: u128 = (sq * p / FIXED_ONE) / 3;
    proof {
        lemma_div_is_ordered((sq * p) as int, (p * FIXED_ONE) as int, FIXED_ONE as int);
        assert((sq * p) as int / FIXED_ONE as int <= p);
    }
    let d: u128 = p + t2 + t3;
    assert(1 <= d && d <= 3 * p);
    let num: u128 = LN_INV_PFAIL_FIXED + d - 1;
    let trials: u128 = num / d;
    proof {
        assert(trials >= 1) by {
            lemma_div_is_ordered(d as int, num as int, d as int);
            vstd::arithmetic::div_mod::lemma_div_by_self(d as int);
        };
        assert(trials <= LN_INV_PFAIL_FIXED) by {
            assert(num <= d * LN_INV_PFAIL_FIXED) by (nonlinear_arith)
                requires
                    1 <= d,
                    num == LN_INV_PFAIL_FIXED + d - 1,
            ;
            lemma_div_is_ordered(num as int, (d * LN_INV_PFAIL_FIXED) as int, d as int);
            vstd::arithmetic::div_mod::lemma_div_by_multiple(
                LN_INV_PFAIL_FIXED as int,
                d as int,
            );
        };
        assert(trials as int == prime_trials_spec(bits as int));
    }
    // ceil(log2(trials)) by doubling
    let mut k: usize = 0;
    let mut pw: u128 = 1;
    proof {
        assert(pow2(0) == 1) by {
            lemma2_to64();
        };
    }
    while pw < trials
        invariant
            1 <= trials <= LN_INV_PFAIL_FIXED,
            pw == pow2(k as nat),
            1 <= pw,
            k <= 70,
            k == 0 || pow2((k - 1) as nat) < trials,
            k < pw,
        decreases trials - k,
    {
        proof {
            assert(pow2(70) == 0x400000000000000000) by {
                lemma_pow2_adds(64, 6);
                lemma2_to64();
            };
            assert(k < 70) by {
                if k >= 70 {
                    if k > 70 {
                        lemma_pow2_strictly_increases(70, k as nat);
                    }
                    assert(pw >= 0x400000000000000000);
                }
            };
            lemma_pow2_adds(k as nat, 1);
            lemma2_to64();
        }
        pw = pw * 2;
        k = k + 1;
    }
    proof {
        lemma_clog2_le_iff(trials as nat, k as nat);
        if k > 0 {
            lemma_clog2_le_iff(trials as nat, (k - 1) as nat);
            lemma_pow2_pos((k - 1) as nat);
        }
        assert(clog2(trials as nat) == k);
    }
    k
}

/// More nonce bits are never needed for fewer target bits: `nonce_bits_needed`
/// is non-decreasing in its argument.
pub proof fn lemma_nonce_bits_mono(b1: int, b2: int)
    requires
        3 <= b1 <= b2 <= 0xFFFFFFFFFFFFFFFF,
    ensures
        nonce_bits_spec(b1) <= nonce_bits_spec(b2),
{
    let cc: int = LOG2_E_FIXED as int;
    let ss: int = FIXED_ONE as int;
    let q1: int = cc / b1;
    let q2: int = cc / b2;
    lemma_div_is_ordered_by_denominator(cc, b1, b2);
    lemma_div_is_ordered_by_denominator(cc, 3, b1);
    assert(cc / 3 == 8871008731896214994);
    vstd::arithmetic::div_mod::lemma_div_non_zero(cc, b2);
    assert(1 <= q2 <= q1 <= 8871008731896214994);
    let dq: int = q1 - q2;
    assert(q1 * q1 <= q2 * q2 + dq * ss) by (nonlinear_arith)
        requires
            0 <= q2 <= q1,
            q1 + q2 <= ss,
            dq == q1 - q2,
    ;
    lemma_div_is_ordered(q1 * q1, q2 * q2 + dq * ss, ss);
    lemma_hoist_over_denominator(q2 * q2, dq, ss as nat);
    assert((q1 * q1) / ss <= (q2 * q2) / ss + dq);
    let p1: int = prime_density_fixed(b1);
    let p2: int = prime_density_fixed(b2);
    assert(p2 <= p1);
    assert(q2 * q2 < q2 * ss) by (nonlinear_arith)
        requires
            1 <= q2 < ss,
    ;
    assert((q2 * q2) / ss < q2) by {
        vstd::arithmetic::div_mod::lemma_multiply_divide_lt(q2 * q2, ss, q2);
    };
    assert(1 <= p2);
    // the square and cube terms are ordered the same way
    assert(p2 * p2 <= p1 * p1) by (nonlinear_arith)
        requires
            0 <= p2 <= p1,
    ;
    lemma_div_is_ordered(p2 * p2, p1 * p1, ss);
    let sq1: int = (p1 * p1) / ss;
    let sq2: int = (p2 * p2) / ss;
    lemma_div_is_ordered(sq2, sq1, 2);
    assert(sq2 * p2 <= sq1 * p1) by (nonlinear_arith)
        requires
            0 <= sq2 <= sq1,
            0 <= p2 <= p1,
    ;
    lemma_div_is_ordered(sq2 * p2, sq1 * p1, ss);
    lemma_div_is_ordered((sq2 * p2) / ss, (sq1 * p1) / ss, 3);
    let d1: int = neg_log_survival_fixed(b1);
    let d2: int = neg_log_survival_fixed(b2);
    assert(sq2 / 2 >= 0 && (sq2 * p2) / ss / 3 >= 0) by {
        lemma_div_pos_is_pos(sq2, 2);
        lemma_div_pos_is_pos(p2 * p2, ss);
        assert(p2 * p2 >= 0) by (nonlinear_arith)
            requires
                p2 >= 1,
        ;
        assert(sq2 * p2 >= 0) by (nonlinear_arith)
            requires
                sq2 >= 0,
                p2 >= 1,
        ;
        lemma_div_pos_is_pos(sq2 * p2, ss);
        lemma_div_pos_is_pos((sq2 * p2) / ss, 3);
    };
    assert(1 <= d2 <= d1);
    // the ceiling of `L / d` grows as `d` shrinks
    let ll: int = LN_INV_PFAIL_FIXED as int;
    let t2v: int = (ll + d2 - 1) / d2;
    let t1v: int = (ll + d1 - 1) / d1;
    lemma_fundamental_div_mod(ll + d2 - 1, d2);
    vstd::arithmetic::div_mod::lemma_mod_bound(ll + d2 - 1, d2);
    assert(t2v * d2 >= ll);
    lemma_div_pos_is_pos(ll + d2 - 1, d2);
    assert(t2v * d1 >= ll) by (nonlinear_arith)
        requires
            t2v >= 0,
            d1 >= d2,
            t2v * d2 >= ll,
    ;
    assert(ll + d1 - 1 <= t2v * d1 + d1 - 1);
    lemma_div_is_ordered(ll + d1 - 1, t2v * d1 + d1 - 1, d1);
    lemma_hoist_over_denominator(d1 - 1, t2v, d1 as nat);
    vstd::arithmetic::div_mod::lemma_basic_div(d1 - 1, d1);
    assert(t1v <= t2v);
    assert(t1v >= 1) by {
        lemma_div_is_ordered(d1, ll + d1 - 1, d1);
        vstd::arithmetic::div_mod::lemma_div_by_self(d1);
    };
    lemma_clog2_mono(t1v as nat, t2v as nat);
}

/// For any width in the planner's working range the needed nonce bits stay
/// within `7 + clog2(bits)`.
pub proof fn lemma_nonce_bits_upper(b: int)
    requires
        3 <= b <= 0x200000000000,
    ensures
        nonce_bits_spec(b) <= 7 + clog2(b as nat),
{
    let cc: int = LOG2_E_FIXED as int;
    let ss: int = FIXED_ONE as int;
    let ll: int = LN_INV_PFAIL_FIXED as int;
    let q: int = cc / b;
    lemma_div_is_ordered_by_denominator(cc, 3, b);
    assert(cc / 3 == 8871008731896214994);
    vstd::arithmetic::div_mod::lemma_div_non_zero(cc, b);
    assert(1 <= q <= 8871008731896214994);
    // (q*q)/S <= (3*q)/4, so the density keeps at least a quarter of q
    let s4: int = ss / 4;
    assert(s4 == 4611686018427387904);
    assert(q * q <= (3 * q) * s4) by (nonlinear_arith)
        requires
            1 <= q <= 8871008731896214994,
            s4 == 4611686018427387904,
    ;
    lemma_div_is_ordered(q * q, (3 * q) * s4, ss);
    lemma_div_denominator((3 * q) * s4, s4, 4);
    assert(s4 * 4 == ss);
    vstd::arithmetic::div_mod::lemma_div_by_multiple(3 * q, s4);
    assert(((3 * q) * s4) / ss == (3 * q) / 4);
    assert((q * q) / ss <= (3 * q) / 4);
    let p: int = prime_density_fixed(b);
    // q - (3*q)/4 >= q/4
    lemma_fundamental_div_mod(q, 4);
    vstd::arithmetic::div_mod::lemma_mod_bound(q, 4);
    let qd: int = q / 4;
    let qr: int = q % 4;
    lemma_hoist_over_denominator(3 * qr, 3 * qd, 4nat);
    assert((3 * qr) / 4 + 3 * qd == (3 * qr + (3 * qd) * 4) / 4);
    assert(3 * qr + (3 * qd) * 4 == 3 * q) by (nonlinear_arith)
        requires
            q == 4 * qd + qr,
    ;
    assert((3 * q) / 4 == 3 * qd + (3 * qr) / 4);
    assert((3 * qr) / 4 <= 2);
    assert(p >= qd);
    let d: int = neg_log_survival_fixed(b);
    assert(d >= p) by {
        lemma_div_pos_is_pos(p * p, ss);
        assert(p * p >= 0) by (nonlinear_arith)
            requires
                p >= 0,
        ;
        let sq: int = (p * p) / ss;
        lemma_div_pos_is_pos(sq, 2);
        assert(sq * p >= 0) by (nonlinear_arith)
            requires
                sq >= 0,
                p >= 0,
        ;
        lemma_div_pos_is_pos(sq * p, ss);
        lemma_div_pos_is_pos((sq * p) / ss, 3);
    };
    // q/4 == C/(4b) and 128*b*(C/(4b)) covers L
    lemma_div_denominator(cc, b, 4);
    assert(qd == cc / (b * 4));
    lemma_fundamental_div_mod(cc, b * 4);
    vstd::arithmetic::div_mod::lemma_mod_bound(cc, b * 4);
    let u: int = cc / (b * 4);
    assert(u == qd);
    assert((b * 4) * u >= cc - b * 4 + 1);
    assert(128 * b * u >= 32 * cc - 32 * (b * 4)) by (nonlinear_arith)
        requires
            (b * 4) * u >= cc - b * 4 + 1,
            b >= 1,
    ;
    assert(32 * cc - 32 * (b * 4) >= ll) by {
        assert(b * 4 <= 0x800000000000);
    };
    assert(128 * b * u >= ll);
    assert(d >= u);
    assert(128 * b * d >= 128 * b * u) by (nonlinear_arith)
        requires
            d >= u,
            b >= 1,
    ;
    let tr: int = prime_trials_spec(b);
    // trials <= 128 * b
    assert(ll + d - 1 <= (128 * b) * d + d - 1) by (nonlinear_arith)
        requires
            128 * b * d >= ll,
            d >= 1,
            b >= 1,
    ;
    lemma_div_is_ordered(ll + d - 1, (128 * b) * d + d - 1, d);
    lemma_hoist_over_denominator(d - 1, 128 * b, d as nat);
    vstd::arithmetic::div_mod::lemma_basic_div(d - 1, d);
    assert(tr <= 128 * b);
    assert(tr >= 1) by {
        lemma_div_is_ordered(d, ll + d - 1, d);
        vstd::arithmetic::div_mod::lemma_div_by_self(d);
    };
    // clog2(trials) <= 7 + clog2(b)
    lemma_clog2_mono(tr as nat, (128 * b) as nat);
    lemma_clog2_le_iff(b as nat, clog2(b as nat));
    lemma_pow2_adds(7, clog2(b as nat));
    lemma2_to64();
    assert(128 * b <= 128 * pow2(clog2(b as nat))) by (nonlinear_arith)
        requires
            b <= pow2(clog2(b as nat)),
    ;
    assert(128 * pow2(clog2(b as nat)) == pow2((7 + clog2(b as nat)) as nat));
    lemma_clog2_le_iff((128 * b) as nat, (7 + clog2(b as nat)) as nat);
}

/// The exact nonce budget at the 32-bit seed width.
pub proof fn lemma_nonce_bits_at_32()
    ensures
        nonce_bits_spec(32) == 10,
{
    let cc: int = LOG2_E_FIXED as int;
    let ss: int = FIXED_ONE as int;
    let ll: int = LN_INV_PFAIL_FIXED as int;
    let q: int = cc / 32;
    assert(q == 831657068615270155);
    assert(q * q == 691653479777744170648968443633724025) by (nonlinear_arith)
        requires
            q == 831657068615270155,
    ;
    assert((q * q) / ss == 37494610269109456);
    let p: int = prime_density_fixed(32);
    assert(p == 794162458346160699);
    assert(p * p == 630694010246417427281503513532168601) by (nonlinear_arith)
        requires
            p == 794162458346160699,
    ;
    let sq: int = (p * p) / ss;
    assert(sq == 34189990804138038);
    assert(sq * p == 27152407147846891944941399326568562) by (nonlinear_arith)
        requires
            sq == 34189990804138038,
            p == 794162458346160699,
    ;
    assert((sq * p) / ss == 1471934940895326);
    let d: int = neg_log_survival_fixed(32);
    assert(d == 811748098728528160);
    let tr: int = prime_trials_spec(32);
    assert(tr == 1009);
    lemma_clog2_le_iff(1009nat, 10nat);
    lemma_clog2_le_iff(1009nat, 9nat);
    lemma2_to64();
    assert(clog2(1009nat) == 10);
}

/// One extension candidate's nonce fixed point: starting from `nonce`, grow
/// the nonce budget until it covers the nonce bits needed at the resulting
/// width, or report that the extension would break the applicability bound:
/// the budget's full `random_bits + nonce_bits + 1` (the stored random width
/// is the entropy gap plus the nonce bits, so here `random_bits + 2 * nonce
/// + 1`) must stay below the width being extended.  Returns the nonce bits
/// and the resulting width.
pub open spec fn grow_spec(base_bits: int, random_bits: int, nonce: int) -> Option<(int, int)>
    decreases base_bits - random_bits - nonce - nonce,
{
    if random_bits + nonce + nonce + 1 >= base_bits {
        None
    } else {
        let width: int = nonce + random_bits + base_bits + 1;
        if nonce >= nonce_bits_spec(width) {
            Some((nonce, width))
        } else {
            grow_spec(base_bits, random_bits, nonce + 1)
        }
    }
}

/// What a successful nonce fixed point guarantees: the width accounts for
/// every budgeted bit, the applicability bound holds, and the nonce bits
/// cover what the resulting width needs.
pub proof fn lemma_grow_facts(base_bits: int, random_bits: int, nonce: int)
    requires
        0 <= nonce,
        grow_spec(base_bits, random_bits, nonce) is Some,
    ensures
        ({
            let g = grow_spec(base_bits, random_bits, nonce)->Some_0;
            &&& nonce <= g.0
            &&& g.1 == g.0 + random_bits + base_bits + 1
            &&& random_bits + g.0 + g.0 + 1 < base_bits
            &&& g.0 >= nonce_bits_spec(g.1)
        }),
    decreases base_bits - random_bits - nonce,
{
    let width: int = nonce + random_bits + base_bits + 1;
    if nonce >= nonce_bits_spec(width) {
    } else {
        lemma_grow_facts(base_bits, random_bits, nonce + 1);
    }
}

proof fn lemma_grow_succeeds_aux(base_bits: int, nonce: int)
    requires
        32 <= base_bits <= 0x800000,
        0 <= nonce <= 8 + clog2(base_bits as nat),
    ensures
        grow_spec(base_bits, 1, nonce) is Some,
    decreases 8 + clog2(base_bits as nat) - nonce,
{
    let cl: nat = clog2(base_bits as nat);
    lemma2_to64();
    assert(cl <= 23) by {
        lemma_clog2_le_iff(base_bits as nat, 23);
    };
    assert(2 * (8 + cl) + 2 < base_bits) by {
        if base_bits <= 64 {
            lemma_clog2_le_iff(base_bits as nat, 6);
        }
    };
    let width: int = nonce + 1 + base_bits + 1;
    assert(1 + nonce + nonce + 1 < base_bits);
    if nonce >= nonce_bits_spec(width) {
    } else {
        lemma_nonce_bits_upper(width);
        assert(clog2(width as nat) <= 1 + cl) by {
            lemma_clog2_le_iff(base_bits as nat, cl);
            lemma_pow2_adds(1, cl);
            lemma_clog2_le_iff(width as nat, 1 + cl);
        };
        assert(nonce_bits_spec(width) <= 8 + cl);
        assert(nonce < 8 + cl);
        lemma_grow_succeeds_aux(base_bits, nonce + 1);
    }
}

/// Extending the most recent table entry by a single entropy bit always
/// admits some nonce budget, so the planning table can always grow.
pub proof fn lemma_grow_succeeds(base_bits: int)
    requires
        32 <= base_bits <= 0x800000,
    ensures
        grow_spec(base_bits, 1, 0) is Some,
{
    lemma_grow_succeeds_aux(base_bits, 0);
}

/// Runs the nonce fixed point for one extension candidate.
fn grow_extension(base_bits: usize, random_bits: usize) -> (r: Option<(usize, usize)>)
    requires
        32 <= base_bits <= 0x420000,
        1 <= random_bits <= 2048,
    ensures
        match r {
            Some(v) => grow_spec(base_bits as int, random_bits as int, 0) == Some(
                (v.0 as int, v.1 as int),
            ) && v.0 <= 30 && v.1 == v.0 + random_bits + base_bits + 1,
            None => grow_spec(base_bits as int, random_bits as int, 0) is None,
        },
{
    let ghost bb: int = base_bits as int;
    let ghost rb: int = random_bits as int;
    let mut nonce: usize = 0;
    while random_bits + nonce + nonce + 1 < base_bits
        invariant
            32 <= base_bits <= 0x420000,
            1 <= random_bits <= 2048,
            bb == base_bits as int,
            rb == random_bits as int,
            nonce <= 30,
            grow_spec(bb, rb, 0) == grow_spec(bb, rb, nonce as int),
        decreases base_bits - random_bits - nonce,
    {
        let width: usize = nonce + random_bits + base_bits + 1;
        let need: usize = nonce_bits_needed(width);
        proof {
            lemma_nonce_bits_upper(width as int);
            assert(clog2(width as nat) <= 23) by {
                lemma_clog2_le_iff(width as nat, 23);
                lemma2_to64();
            };
            assert(need <= 30);
        }
        if nonce >= need {
            proof {
                assert(grow_spec(bb, rb, nonce as int) == Some((nonce as int, width as int)));
            }
            return Some((nonce, width));
        }
        proof {
            assert(grow_spec(bb, rb, nonce as int) == grow_spec(bb, rb, nonce as int + 1));
        }
        nonce = nonce + 1;
    }
    proof {
        assert(grow_spec(bb, rb, nonce as int) is None);
    }
    None
}

/// The bit budget of one certificate extension step.
#[derive(Clone, Copy, Debug, PartialEq, Eq, Structural)]
pub struct PlannedExtension {
    pub nonce_bits: usize,
    pub random_bits: usize,
}

/// A well-formed extension budget: the nonce bits are a strict part of the
/// step's random draw and stay within the planner's working range.
pub open spec fn planned_extension_wf(e: PlannedExtension) -> bool {
    &&& e.nonce_bits <= 30
    &&& e.nonce_bits < e.random_bits
    &&& e.random_bits <= 4096
}

/// The entropy gained by the first `k` extensions: each step pays its nonce
/// bits out of its random draw.
pub open spec fn entropy_prefix(s: Seq<PlannedExtension>, k: int) -> int
    decreases k,
{
    if k <= 0 {
        0
    } else {
        entropy_prefix(s, k - 1) + s[k - 1].random_bits - s[k - 1].nonce_bits
    }
}

/// The bit-length budget of the first `k` extensions: each step can add at
/// most `random_bits + 1` bits to the number.
pub open spec fn bits_prefix(s: Seq<PlannedExtension>, k: int) -> int
    decreases k,
{
    if k <= 0 {
        0
    } else {
        bits_prefix(s, k - 1) + s[k - 1].random_bits + 1
    }
}

proof fn lemma_prefix_stable(s1: Seq<PlannedExtension>, s2: Seq<PlannedExtension>, k: int)
    requires
        forall|i: int| 0 <= i < k ==> s1[i] == s2[i],
    ensures
        entropy_prefix(s1, k) == entropy_prefix(s2, k),
        bits_prefix(s1, k) == bits_prefix(s2, k),
    decreases k,
{
    if k > 0 {
        lemma_prefix_stable(s1, s2, k - 1);
    }
}

/// The bit-length budget of a prefix is never negative.
pub proof fn lemma_bits_prefix_nonneg(s: Seq<PlannedExtension>, k: int)
    ensures
        bits_prefix(s, k) >= 0,
    decreases k,
{
    if k > 0 {
        lemma_bits_prefix_nonneg(s, k - 1);
    }
}

/// How a number of a requested entropy is put together: a seed drawn from 29
/// pseudorandom bits, then one Pocklington extension per planned budget.
#[derive(Clone, Debug, PartialEq, Eq)]
pub struct PocklingtonPlan {
    /// Nonce bits of the outer hash-counter search.
    pub nonce_bits: usize,
    /// Entropy carried by the 32-bit seed after paying the outer nonce.
    pub initial_entropy: usize,
    /// Extension budgets, in application order.
    pub extensions: Vec<PlannedExtension>,
}

/// Applicability: each budget's `random_bits + nonce_bits + 1` stays below
/// the width of the number it extends (`32 + bits_prefix` of the budgets
/// before it), so the extension factor cannot reach the prior prime.
pub open spec fn extensions_applicable(s: Seq<PlannedExtension>) -> bool {
    forall|k: int|
        0 <= k < s.len() ==> (#[trigger] s[k]).random_bits + s[k].nonce_bits + 1 < 32
            + bits_prefix(s, k)
}

/// Nonce sufficiency: each budget's nonce bits cover the nonce bits needed at
/// its resulting width, so the planned nonce space suffices for the witness
/// search with failure probability at most `2^-64`.
pub open spec fn extensions_nonce_sufficient(s: Seq<PlannedExtension>) -> bool {
    forall|k: int|
        0 <= k < s.len() ==> (#[trigger] s[k]).nonce_bits >= nonce_bits_spec(
            32 + bits_prefix(s, k + 1),
        )
}

/// One row of the planning table: the cheapest known way to accumulate
/// `entropy` bits of entropy, using `bits` bits, where the last step bridged
/// `marginal_entropy` entropy levels from the row that many places back.
pub ghost struct TableEntry {
    pub marginal_entropy: int,
    pub entropy: int,
    pub bits: int,
    pub random_bits: int,
    pub nonce_bits: int,
}

/// What holds of every non-seed table row: its budget came from a successful
/// nonce fixed point against the row `marginal_entropy` places back.
pub open spec fn table_row_ok(t: Seq<TableEntry>, target: int, k: int) -> bool {
    let b = t[k];
    let base = t[k - b.marginal_entropy];
    &&& 1 <= b.marginal_entropy <= k
    &&& b.random_bits == b.marginal_entropy + b.nonce_bits
    &&& 0 <= b.nonce_bits <= 30
    &&& b.random_bits <= target + 12
    &&& b.bits == base.bits + b.random_bits + 1
    &&& b.random_bits + b.nonce_bits + 1 < base.bits
    &&& b.nonce_bits >= nonce_bits_spec(b.bits)
}

/// A well-formed planning table: entropy rises by one per row from the
/// 19-entropy 32-bit seed row, widths stay in the working range, and every
/// non-seed row came from a successful nonce fixed point.
pub open spec fn spec_table_wf(t: Seq<TableEntry>, target: int) -> bool {
    &&& 1 <= t.len() <= target - 18
    &&& forall|k: int|
        0 <= k < t.len() ==> (#[trigger] t[k]).entropy == 19 + k && 32 <= t[k].bits <= 32 + k * (
        target + 31)
    &&& forall|k: int| 1 <= k < t.len() ==> #[trigger] table_row_ok(t, target, k)
}

/// Marginal jumps stay within the table, which is what the backward walk
/// needs to terminate.
pub open spec fn table_marginals_wf(t: Seq<TableEntry>) -> bool {
    forall|k: int| 1 <= k < t.len() ==> 1 <= (#[trigger] t[k]).marginal_entropy <= k
}

/// The scan over candidate base rows, from index `j` down to the seed,
/// keeping the candidate with the smallest resulting width.
pub open spec fn scan_spec(
    t: Seq<TableEntry>,
    next_entropy: int,
    j: int,
    best: Option<TableEntry>,
) -> Option<TableEntry>
    decreases j + 1,
{
    if j < 0 {
        best
    } else {
        let base = t[j];
        let rb = next_entropy - base.entropy;
        let best2 = match grow_spec(base.bits, rb, 0) {
            Some(g) => if best is None || g.1 < best->Some_0.bits {
                Some(
                    TableEntry {
                        entropy: next_entropy,
                        marginal_entropy: rb,
                        bits: g.1,
                        random_bits: rb + g.0,
                        nonce_bits: g.0,
                    },
                )
            } else {
                best
            },
            None => best,
        };
        scan_spec(t, next_entropy, j - 1, best2)
    }
}

/// Every entry a scan returns carries the entropy level it scanned for.
pub proof fn lemma_scan_entropy(t: Seq<TableEntry>, next_entropy: int, j: int, best: Option<
    TableEntry,
>)
    requires
        best is Some ==> best->Some_0.entropy == next_entropy,
    ensures
        scan_spec(t, next_entropy, j, best) is Some ==> (scan_spec(t, next_entropy, j, best)
            ->Some_0).entropy == next_entropy,
    decreases j + 1,
{
    if j >= 0 {
        let base = t[j];
        let rb = next_entropy - base.entropy;
        let best2 = match grow_spec(base.bits, rb, 0) {
            Some(g) => if best is None || g.1 < best->Some_0.bits {
                Some(
                    TableEntry {
                        entropy: next_entropy,
                        marginal_entropy: rb,
                        bits: g.1,
                        random_bits: rb + g.0,
                        nonce_bits: g.0,
                    },
                )
            } else {
                best
            },
            None => best,
        };
        lemma_scan_entropy(t, next_entropy, j - 1, best2);
    }
}

/// The planning recurrence: while the last row's entropy is short of the
/// target, scan all rows for the cheapest one-more-bit extension and append
/// it.
pub open spec fn table_rec(t: Seq<TableEntry>, target: int) -> Seq<TableEntry>
    decreases target - t.last().entropy
        when 1 <= t.len() && t.last().entropy <= target
{
    if t.last().entropy >= target {
        t
    } else {
        match scan_spec(t, t.last().entropy + 1, t.len() - 1, Option::None) {
            Some(next) => {
                proof {
                    lemma_scan_entropy(t, t.last().entropy + 1, t.len() - 1, Option::None);
                }
                table_rec(t.push(next), target)
            },
            None => t,
        }
    }
}

/// The seed row: a 32-bit number whose 29 drawn bits carry
/// `32 - 3 - nonce_bits_needed(32) == 19` bits of entropy after paying the
/// 10-bit outer nonce budget.
pub open spec fn seed_entry() -> TableEntry {
    TableEntry { marginal_entropy: 19, entropy: 19, bits: 32, random_bits: 0, nonce_bits: 10 }
}

/// The full planning table for a target entropy.
pub open spec fn spec_plan_table(target: int) -> Seq<TableEntry> {
    table_rec(seq![seed_entry()], target)
}

/// The backward walk off the table, one chosen budget per marginal jump,
/// already in application order.
pub open spec fn walk_spec(t: Seq<TableEntry>, i: int) -> Seq<PlannedExtension>
    decreases i
        when table_marginals_wf(t)
{
    if i <= 0 || i >= t.len() {
        Seq::empty()
    } else {
        walk_spec(t, i - t[i].marginal_entropy).push(
            PlannedExtension {
                nonce_bits: t[i].nonce_bits as usize,
                random_bits: t[i].random_bits as usize,
            },
        )
    }
}

/// The extension budgets the planner chooses for a target entropy.
pub open spec fn spec_plan_extensions(target: int) -> Seq<PlannedExtension> {
    let t = spec_plan_table(target);
    walk_spec(t, t.len() - 1)
}

/// What walking a well-formed table yields: at most `i` budgets carrying
/// exactly `i` bits of entropy, ending at the row's width, each budget well
/// formed, applicable, and nonce-sufficient.
#[verifier::rlimit(100)]
#[verifier::spinoff_prover]
pub proof fn lemma_walk_props(t: Seq<TableEntry>, target: int, i: int)
    requires
        29 <= target <= 2048,
        spec_table_wf(t, target),
        0 <= i < t.len(),
    ensures
        ({
            let ws = walk_spec(t, i);
            &&& ws.len() <= i
            &&& entropy_prefix(ws, ws.len() as int) == i
            &&& 32 + bits_prefix(ws, ws.len() as int) == t[i].bits
            &&& forall|k: int| 0 <= k < ws.len() ==> planned_extension_wf(#[trigger] ws[k])
            &&& extensions_applicable(ws)
            &&& extensions_nonce_sufficient(ws)
        }),
    decreases i,
{
    assert(table_marginals_wf(t)) by {
        assert forall|k: int| 1 <= k < t.len() implies 1 <= (#[trigger] t[k]).marginal_entropy
            <= k by {
            assert(table_row_ok(t, target, k));
        };
    };
    let ws = walk_spec(t, i);
    if i == 0 {
        assert(t[0].bits <= 32 + 0 * (target + 31));
        assert(0 * (target + 31) == 0) by (nonlinear_arith);
        assert(ws =~= Seq::<PlannedExtension>::empty());
    } else {
        assert(table_row_ok(t, target, i));
        let m = t[i].marginal_entropy;
        lemma_walk_props(t, target, i - m);
        let prev = walk_spec(t, i - m);
        let e = PlannedExtension {
            nonce_bits: t[i].nonce_bits as usize,
            random_bits: t[i].random_bits as usize,
        };
        assert(ws == prev.push(e));
        let n: int = prev.len() as int;
        lemma_prefix_stable(prev, ws, n);
        assert(ws[n] == e);
        assert(e.random_bits as int == t[i].random_bits && e.nonce_bits as int
            == t[i].nonce_bits);
        assert(entropy_prefix(ws, n + 1) == i);
        assert(32 + bits_prefix(ws, n + 1) == t[i].bits);
        assert(planned_extension_wf(e));
        assert(extensions_applicable(ws)) by {
            assert forall|k: int|
                0 <= k < ws.len() implies (#[trigger] ws[k]).random_bits + ws[k].nonce_bits + 1
                < 32 + bits_prefix(ws, k) by {
                lemma_prefix_stable(prev, ws, k);
                if k < n {
                    assert(prev[k] == ws[k]);
                    assert(prev[k].random_bits + prev[k].nonce_bits + 1 < 32 + bits_prefix(
                        prev,
                        k,
                    ));
                } else {
                    assert(32 + bits_prefix(ws, k) == t[i - m].bits);
                }
            };
        };
        assert(extensions_nonce_sufficient(ws)) by {
            assert forall|k: int|
                0 <= k < ws.len() implies (#[trigger] ws[k]).nonce_bits >= nonce_bits_spec(
                32 + bits_prefix(ws, k + 1)) by {
                if k < n {
                    lemma_prefix_stable(prev, ws, k + 1);
                    assert(prev[k] == ws[k]);
                    assert(prev[k].nonce_bits >= nonce_bits_spec(32 + bits_prefix(prev, k + 1)));
                } else {
                    assert(32 + bits_prefix(ws, k + 1) == t[i].bits);
                }
            };
        };
    }
}

/// The plan the planner must return for a target entropy: the 10-bit outer
/// nonce budget, 19 bits of seed entropy, and exactly the walked budgets.
pub open spec fn plan_matches(p: PocklingtonPlan, target: int) -> bool {
    &&& p.nonce_bits == 10
    &&& p.initial_entropy == 19
    &&& p.extensions@ == spec_plan_extensions(target)
}


// The executable form of one planning-table row.
struct Entry {
    marginal_entropy: usize,
    entropy: usize,
    bits: usize,
    random_bits: usize,
    nonce_bits: usize,
}

spec fn entry_view(e: Entry) -> TableEntry {
    TableEntry {
        marginal_entropy: e.marginal_entropy as int,
        entropy: e.entropy as int,
        bits: e.bits as int,
        random_bits: e.random_bits as int,
        nonce_bits: e.nonce_bits as int,
    }
}

spec fn views(s: Seq<Entry>) -> Seq<TableEntry> {
    s.map_values(|e: Entry| entry_view(e))
}

// Scans all table rows for the candidate with the smallest resulting width
// at the next entropy level.  A candidate always exists: the most recent row
// admits a one-bit extension.
#[verifier::rlimit(100)]
#[verifier::spinoff_prover]
fn best_candidate(table: &Vec<Entry>, next_entropy: usize, Ghost(target): Ghost<int>) -> (r:
    Entry)
    requires
        29 <= target <= 2048,
        spec_table_wf(views(table@), target),
        next_entropy as int == 19 + table@.len(),
        next_entropy <= target,
    ensures
        scan_spec(views(table@), next_entropy as int, table@.len() - 1, Option::None) == Some(
            entry_view(r),
        ),
        ({
            let b = entry_view(r);
            &&& b.entropy == next_entropy
            &&& 1 <= b.marginal_entropy <= table@.len()
            &&& b.random_bits == b.marginal_entropy + b.nonce_bits
            &&& 0 <= b.nonce_bits <= 30
            &&& b.random_bits <= target + 12
            &&& 32 <= b.bits <= 32 + table@.len() * (target + 31)
            &&& b.bits == views(table@)[table@.len() - b.marginal_entropy].bits + b.random_bits
                + 1
            &&& b.random_bits + b.nonce_bits + 1 < views(table@)[table@.len()
                - b.marginal_entropy].bits
            &&& b.nonce_bits >= nonce_bits_spec(b.bits)
        }),
{
    let ghost tv = views(table@);
    let len: usize = table.len();
    let mut best: Option<Entry> = None;
    let ghost mut gbest: Option<TableEntry> = Option::None;
    let mut j: usize = len;
    while j > 0
        invariant
            29 <= target <= 2048,
            tv == views(table@),
            spec_table_wf(tv, target),
            len == table@.len(),
            next_entropy as int == 19 + len,
            next_entropy <= target,
            j <= len,
            j < len ==> best is Some,
            match best {
                Some(b) => gbest == Some(entry_view(b)),
                None => gbest is None,
            },
            scan_spec(tv, next_entropy as int, len - 1, Option::None) == scan_spec(
                tv,
                next_entropy as int,
                j - 1,
                gbest,
            ),
            match gbest {
                Some(b) => {
                    &&& b.entropy == next_entropy
                    &&& 1 <= b.marginal_entropy <= len
                    &&& b.random_bits == b.marginal_entropy + b.nonce_bits
                    &&& 0 <= b.nonce_bits <= 30
                    &&& b.random_bits <= target + 12
                    &&& 32 <= b.bits <= 32 + len * (target + 31)
                    &&& b.bits == tv[len - b.marginal_entropy].bits + b.random_bits + 1
                    &&& b.random_bits + b.nonce_bits + 1 < tv[len - b.marginal_entropy].bits
                    &&& b.nonce_bits >= nonce_bits_spec(b.bits)
                },
                None => true,
            },
        decreases j,
    {
        j = j - 1;
        let ghost gb0 = gbest;
        let base_bits: usize = table[j].bits;
        let base_entropy: usize = table[j].entropy;
        proof {
            assert(tv[j as int] == entry_view(table@[j as int]));
            assert(base_entropy == 19 + j);
            assert(base_bits <= 32 + j * (target + 31));
            assert(j * (target + 31) <= 2029 * (2048 + 31)) by (nonlinear_arith)
                requires
                    0 <= j <= 2029,
                    29 <= target <= 2048,
            ;
        }
        let random_bits: usize = next_entropy - base_entropy;
        assert(1 <= random_bits && random_bits == len - j);
        match grow_extension(base_bits, random_bits) {
            Some(grown) => {
                proof {
                    lemma_grow_facts(base_bits as int, random_bits as int, 0);
                }
                let better: bool = match &best {
                    Option::None => true,
                    Option::Some(b) => grown.1 < b.bits,
                };
                if better {
                    proof {
                        assert(32 + j * (target + 31) + (target + 31) <= 32 + len * (target
                            + 31)) by (nonlinear_arith)
                            requires
                                j + 1 <= len,
                                target + 31 >= 0,
                        ;
                    }
                    best = Some(
                        Entry {
                            entropy: next_entropy,
                            marginal_entropy: random_bits,
                            bits: grown.1,
                            random_bits: random_bits + grown.0,
                            nonce_bits: grown.0,
                        },
                    );
                    proof {
                        gbest = Some(entry_view(best->Some_0));
                    }
                }
                proof {
                    assert(scan_spec(tv, next_entropy as int, j as int, gb0) == scan_spec(
                        tv,
                        next_entropy as int,
                        j as int - 1,
                        gbest,
                    ));
                }
            },
            None => {
                proof {
                    if j == len - 1 {
                        assert(random_bits == 1);
                        lemma_grow_succeeds(base_bits as int);
                        assert(false);
                    }
                    assert(scan_spec(tv, next_entropy as int, j as int, gb0) == scan_spec(
                        tv,
                        next_entropy as int,
                        j as int - 1,
                        gbest,
                    ));
                }
            },
        }
    }
    proof {
        assert(scan_spec(tv, next_entropy as int, -1, gbest) == gbest);
    }
    best.unwrap()
}

impl PocklingtonPlan {
    /// A plan is well formed when its books balance: the seed entropy and the
    /// outer nonce split the 29 seed bits, and every extension budget is well
    /// formed.
    pub open spec fn wf(self) -> bool {
        &&& self.nonce_bits <= 30
        &&& self.initial_entropy + self.nonce_bits == 29
        &&& self.extensions@.len() <= 2048
        &&& forall|i: int|
            0 <= i < self.extensions@.len() ==> planned_extension_wf(#[trigger] self.extensions@[i])
    }

    /// The total entropy the plan spends.
    pub open spec fn spec_entropy(self) -> int {
        self.initial_entropy + entropy_prefix(self.extensions@, self.extensions@.len() as int)
    }

    /// The bound on the bit-length of the resulting number.
    pub open spec fn spec_max_bits(self) -> int {
        32 + bits_prefix(self.extensions@, self.extensions@.len() as int)
    }

    /// Plans how to reach `entropy` bits of entropy with a recursively
    /// certified prime of the smallest reachable bit-length.
    ///
    /// Builds a table of `(entropy, bit-length)` trade-offs by dynamic
    /// programming, one entropy level per row, each row extending the
    /// cheapest admissible earlier row, then reads the chosen extension
    /// budgets back off the table.  The result is pinned exactly to the
    /// planning recurrence `spec_plan_extensions`, so planning is a function
    /// of the target entropy alone.
    #[verifier::rlimit(100)]
    #[verifier::spinoff_prover]
    pub fn new(entropy: usize) -> (r: PocklingtonPlan)
        requires
            29 <= entropy <= MAX_PLAN_ENTROPY,
        ensures
            r.wf(),
            r.spec_entropy() == entropy,
            plan_matches(r, entropy as int),
            extensions_applicable(r.extensions@),
            extensions_nonce_sufficient(r.extensions@),
    {
        let ghost target: int = entropy as int;
        let nb32: usize = nonce_bits_needed(32);
        proof {
            lemma_nonce_bits_at_32();
        }
        assert(nb32 == 10);
        let nonce_bits: usize = nb32;
        let mut table: Vec<Entry> = Vec::new();
        table.push(
            Entry {
                entropy: 32 - 3 - nonce_bits,
                marginal_entropy: 32 - 3 - nonce_bits,
                bits: 32,
                random_bits: 0,
                nonce_bits,
            },
        );
        proof {
            assert(views(table@) =~= seq![seed_entry()]);
        }
        while table[table.len() - 1].entropy < entropy
            invariant
                29 <= entropy <= MAX_PLAN_ENTROPY,
                target == entropy as int,
                spec_table_wf(views(table@), target),
                table@[table@.len() - 1].entropy <= entropy,
                table_rec(views(table@), target) == spec_plan_table(target),
            decreases entropy - table@[table@.len() - 1].entropy,
        {
            let len: usize = table.len();
            let next_entropy: usize = table[len - 1].entropy + 1;
            proof {
                assert(views(table@)[len - 1] == entry_view(table@[len - 1]));
                assert(next_entropy == 19 + len);
            }
            let chosen: Entry = best_candidate(&table, next_entropy, Ghost(target));

            proof {
                let tv = views(table@);
                assert(scan_spec(tv, next_entropy as int, len - 1, Option::None) == Some(
                    entry_view(chosen),
                ));
                assert(tv.last() == entry_view(table@[len - 1]));
                assert(tv.last().entropy + 1 == next_entropy as int);
                assert(table_rec(tv, target) == table_rec(tv.push(entry_view(chosen)), target));
            }
            let ghost old_tv = views(table@);
            table.push(chosen);
            proof {
                let tv = views(table@);
                assert(tv =~= old_tv.push(entry_view(chosen)));
                assert(forall|k: int| 0 <= k < old_tv.len() ==> tv[k] == old_tv[k]);
                assert(spec_table_wf(tv, target)) by {
                    assert forall|k: int| 1 <= k < tv.len() implies #[trigger] table_row_ok(
                        tv,
                        target,
                        k,
                    ) by {
                        if k < old_tv.len() {
                            assert(table_row_ok(old_tv, target, k));
                        }
                    };
                };
            }
        }
        let total_len: usize = table.len();
        let ghost tv = views(table@);
        proof {
            assert(table@[total_len - 1].entropy == entropy);
            assert(tv[total_len - 1] == entry_view(table@[total_len - 1]));
            assert(total_len as int == target - 18);
            assert(table_rec(tv, target) == tv);
            assert(tv == spec_plan_table(target));
            lemma_walk_props(tv, target, total_len as int - 1);
            assert(table_marginals_wf(tv)) by {
                assert forall|k: int|
                    1 <= k < tv.len() implies 1 <= (#[trigger] tv[k]).marginal_entropy <= k by {
                    assert(table_row_ok(tv, target, k));
                };
            };
        }
        // walk the table backwards, one chosen budget per marginal jump,
        // building the list front-first so it lands in application order
        let mut exts: Vec<PlannedExtension> = Vec::new();
        let mut i: usize = total_len - 1;
        while i > 0
            invariant
                29 <= entropy <= MAX_PLAN_ENTROPY,
                target == entropy as int,
                tv == views(table@),
                spec_table_wf(tv, target),
                total_len == table@.len(),
                table_marginals_wf(tv),
                i < total_len,
                walk_spec(tv, total_len as int - 1) == walk_spec(tv, i as int) + exts@,
            decreases i,
        {
            proof {
                assert(table_row_ok(tv, target, i as int));
                assert(tv[i as int] == entry_view(table@[i as int]));
                assert(table_marginals_wf(tv)) by {
                    assert forall|k: int|
                        1 <= k < tv.len() implies 1 <= (#[trigger] tv[k]).marginal_entropy
                        <= k by {
                        assert(table_row_ok(tv, target, k));
                    };
                };
            }
            let e = PlannedExtension {
                nonce_bits: table[i].nonce_bits,
                random_bits: table[i].random_bits,
            };
            let ghost old_exts = exts@;
            exts.insert(0, e);
            proof {
                assert(exts@ =~= seq![e] + old_exts);
                let m = tv[i as int].marginal_entropy;
                assert(e == PlannedExtension {
                    nonce_bits: tv[i as int].nonce_bits as usize,
                    random_bits: tv[i as int].random_bits as usize,
                });
                assert(walk_spec(tv, i as int) == walk_spec(tv, i as int - m).push(e));
                assert(walk_spec(tv, i as int - m) + (seq![e] + old_exts) =~= (walk_spec(
                    tv,
                    i as int - m,
                ).push(e)) + old_exts);
            }
            i = i - table[i].marginal_entropy;
        }
        proof {
            assert(walk_spec(tv, 0) =~= Seq::<PlannedExtension>::empty());
            assert(Seq::<PlannedExtension>::empty() + exts@ =~= exts@);
            assert(exts@ == walk_spec(tv, total_len as int - 1));
            assert(tv.len() == total_len as int);
            assert(exts@ == spec_plan_extensions(target));
        }
        PocklingtonPlan { nonce_bits, initial_entropy: 29 - nonce_bits, extensions: exts }
    }

    /// Recomputes the total entropy the plan spends: the seed entropy plus
    /// each extension's random bits net of its nonce bits.
    pub fn entropy(&self) -> (r: usize)
        requires
            self.wf(),
        ensures
            r as int == self.spec_entropy(),
    {
        let mut acc: usize = self.initial_entropy;
        let mut j: usize = 0;
        while j < self.extensions.len()
            invariant
                self.wf(),
                j <= self.extensions@.len(),
                acc as int == self.initial_entropy + entropy_prefix(self.extensions@, j as int),
                acc <= 29 + j * 4096,
            decreases self.extensions@.len() - j,
        {
            proof {
                assert((j + 1) * 4096 == j * 4096 + 4096) by (nonlinear_arith);
                assert(j * 4096 <= 2048 * 4096) by (nonlinear_arith)
                    requires
                        0 <= j <= 2048,
                ;
            }
            acc = acc + (self.extensions[j].random_bits - self.extensions[j].nonce_bits);
            j = j + 1;
        }
        acc
    }

    /// The bound on the bit-length of the number the plan produces: 32 seed
    /// bits plus at most `random_bits + 1` bits per extension.
    pub fn max_bits(&self) -> (r: usize)
        requires
            self.wf(),
        ensures
            r as int == self.spec_max_bits(),
    {
        let mut acc: usize = 32;
        let mut j: usize = 0;
        while j < self.extensions.len()
            invariant
                self.wf(),
                j <= self.extensions@.len(),
                acc as int == 32 + bits_prefix(self.extensions@, j as int),
                acc <= 32 + j * 4097,
            decreases self.extensions@.len() - j,
        {
            proof {
                assert((j + 1) * 4097 == j * 4097 + 4097) by (nonlinear_arith);
                assert(j * 4097 <= 2048 * 4097) by (nonlinear_arith)
                    requires
                        0 <= j <= 2048,
                ;
            }
            acc = acc + self.extensions[j].random_bits + 1;
            j = j + 1;
        }
        acc
    }
}

} // verus!
