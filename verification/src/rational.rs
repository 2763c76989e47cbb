use crate::arith::{abs_diff, dist, mul_le, mul_u64};
use crate::model::BalanceError;
use vstd::arithmetic::div_mod::lemma_fundamental_div_mod;
use vstd::arithmetic::power2::{
    lemma2_to64, lemma2_to64_rest, lemma_pow2_adds, lemma_pow2_pos, lemma_pow2_strictly_increases,
    lemma_pow2_unfold,
    pow2,
};
use vstd::prelude::*;

verus! {

/// An exact nonnegative rational number held as machine integers.
#[derive(Debug, PartialEq, Eq, Clone, Copy)]
pub struct Ratio {
    pub num: u64,
    pub den: u64,
}

impl Ratio {
    pub open spec fn wf(self) -> bool {
        self.den >= 1
    }
}

/// The biased exponent field of an IEEE 754 single-precision bit pattern.
pub open spec fn exp_field(bits: u32) -> u32 {
    (bits >> 23) & 0xff
}

/// The fraction field of the bit pattern.
pub open spec fn frac_field(bits: u32) -> u32 {
    bits & 0x7fffff
}

/// The pattern encodes a finite number (not an infinity, not a NaN).
pub open spec fn finite_bits(bits: u32) -> bool {
    exp_field(bits) != 255
}

/// The integer significand of the encoded magnitude.
pub open spec fn sig_of(bits: u32) -> nat {
    if exp_field(bits) == 0 {
        frac_field(bits) as nat
    } else {
        frac_field(bits) as nat + 0x800000
    }
}

/// The nonnegative power of two the significand is multiplied by:
/// the magnitude is `sig_of * pow2(pos_exp) / pow2(neg_exp)`.
pub open spec fn pos_exp(bits: u32) -> nat {
    if exp_field(bits) >= 150 {
        (exp_field(bits) - 150) as nat
    } else {
        0
    }
}

/// The nonnegative power of two the significand is divided by.
pub open spec fn neg_exp(bits: u32) -> nat {
    if exp_field(bits) == 0 {
        149
    } else if exp_field(bits) < 150 {
        (150 - exp_field(bits)) as nat
    } else {
        0
    }
}

/// The number of trailing zero bits of a natural.
pub open spec fn tz(n: nat) -> nat
    decreases n,
{
    if n == 0 || n % 2 == 1 {
        0
    } else {
        1 + tz(n / 2)
    }
}

/// The denominator exponent after cancelling common factors of two.
pub open spec fn final_den_exp(bits: u32) -> nat {
    if tz(sig_of(bits)) <= neg_exp(bits) {
        (neg_exp(bits) - tz(sig_of(bits))) as nat
    } else {
        0
    }
}

/// The reduced rational magnitude of a finite bit pattern: the
/// significand over its power of two, with common factors of two
/// cancelled.
pub open spec fn decode_spec(bits: u32) -> (nat, nat) {
    if sig_of(bits) == 0 {
        (0, 1)
    } else if neg_exp(bits) == 0 {
        (sig_of(bits) * pow2(pos_exp(bits)), 1)
    } else {
        let k = if tz(sig_of(bits)) <= neg_exp(bits) {
            tz(sig_of(bits))
        } else {
            neg_exp(bits)
        };
        (sig_of(bits) / pow2(k), pow2((neg_exp(bits) - k) as nat))
    }
}

/// The magnitude has an exact rational form within machine integers.
pub open spec fn fits_u64(bits: u32) -> bool {
    &&& finite_bits(bits)
    &&& (sig_of(bits) == 0 || (sig_of(bits) * pow2(pos_exp(bits)) <= u64::MAX && final_den_exp(
        bits,
    ) <= 63))
}

/// The exact rational magnitude of a single-precision bit pattern, in
/// lowest terms. The sign bit is ignored: callers want the magnitude.
/// Fails exactly on non-finite patterns and on magnitudes whose reduced
/// numerator or denominator does not fit a machine word.
pub fn rational_from_bits(bits: u32) -> (r: Result<Ratio, BalanceError>)
    ensures
        match r {
            Ok(q) => {
                &&& fits_u64(bits)
                &&& (q.num as nat, q.den as nat) == decode_spec(bits)
                &&& q.den >= 1
                &&& (q.num as nat) * pow2(neg_exp(bits)) == sig_of(bits) * pow2(pos_exp(bits)) * (
                q.den as nat)
                &&& (q.num % 2 == 1 || q.den == 1)
                &&& exists|k: nat| k <= 63 && (q.den as nat) == pow2(k)
            },
            Err(e) => !fits_u64(bits) && e == (BalanceError::RationalConversionFailure { bits }),
        },
{
    let ef: u32 = (bits >> 23) & 0xff;
    let fr: u32 = bits & 0x7fffff;
    if ef == 255 {
        return Err(BalanceError::RationalConversionFailure { bits });
    }
    let mut sig: u64 = if ef == 0 {
        fr as u64
    } else {
        fr as u64 + 0x800000
    };
    assert(sig as nat == sig_of(bits));
    if sig == 0 {
        proof {
            lemma_pow2_pos(neg_exp(bits));
            assert(pow2(0) == 1) by {
                lemma2_to64();
            }
            assert(exists|k: nat| k <= 63 && (1 as nat) == pow2(k)) by {
                assert((1 as nat) == pow2(0));
            }
            assert((0 as nat) * pow2(neg_exp(bits)) == 0) by (nonlinear_arith);
            assert(sig_of(bits) * pow2(pos_exp(bits)) * (1 as nat) == 0) by (nonlinear_arith)
                requires
                    sig_of(bits) == 0,
            ;
        }
        return Ok(Ratio { num: 0, den: 1 });
    }
    if ef >= 150 {
        let mut e: u32 = ef - 150;
        proof {
            assert(pow2(0) == 1) by {
                lemma2_to64();
            }
            assert(e as nat == pos_exp(bits));
        }
        while e > 0
            invariant
                1 <= sig,
                (sig as nat) * pow2(e as nat) == sig_of(bits) * pow2(pos_exp(bits)),
            decreases e,
        {
            proof {
                lemma_pow2_unfold(e as nat);
                lemma_pow2_pos((e - 1) as nat);
            }
            if sig > u64::MAX / 2 {
                proof {
                    assert(sig_of(bits) * pow2(pos_exp(bits)) > u64::MAX) by (nonlinear_arith)
                        requires
                            (sig as nat) * pow2(e as nat) == sig_of(bits) * pow2(pos_exp(bits)),
                            pow2(e as nat) == 2 * pow2((e - 1) as nat),
                            pow2((e - 1) as nat) >= 1,
                            sig > u64::MAX / 2,
                            sig >= 1,
                    ;
                }
                return Err(BalanceError::RationalConversionFailure { bits });
            }
            proof {
                assert((2 * sig as nat) * pow2((e - 1) as nat) == (sig as nat) * pow2(e as nat))
                    by (nonlinear_arith)
                    requires
                        pow2(e as nat) == 2 * pow2((e - 1) as nat),
                ;
            }
            sig = sig * 2;
            e = e - 1;
        }
        proof {
            assert(pow2(0) == 1) by {
                lemma2_to64();
            }
            assert(neg_exp(bits) == 0);
            assert(exists|k: nat| k <= 63 && (1 as nat) == pow2(k)) by {
                assert((1 as nat) == pow2(0));
            }
            assert(sig_of(bits) * pow2(pos_exp(bits)) <= u64::MAX && (sig as nat) * pow2(
                neg_exp(bits),
            ) == sig_of(bits) * pow2(pos_exp(bits)) * (1 as nat)) by (nonlinear_arith)
                requires
                    (sig as nat) * pow2(0) == sig_of(bits) * pow2(pos_exp(bits)),
                    pow2(0) == 1,
                    neg_exp(bits) == 0,
                    sig <= u64::MAX,
            ;
            assert(final_den_exp(bits) == 0);
            assert(sig as nat == sig_of(bits) * pow2(pos_exp(bits))) by (nonlinear_arith)
                requires
                    (sig as nat) * pow2(0) == sig_of(bits) * pow2(pos_exp(bits)),
                    pow2(0) == 1,
            ;
        }
        return Ok(Ratio { num: sig, den: 1 });
    }
    // Negative binary exponent: the magnitude is sig / 2^ne.
    let mut ne: u32 = if ef == 0 {
        149
    } else {
        150 - ef
    };
    proof {
        assert(ne as nat == neg_exp(bits));
        assert(pos_exp(bits) == 0);
        assert(pow2(0) == 1) by {
            lemma2_to64();
        }
    }
    while sig % 2 == 0 && ne > 0
        invariant
            1 <= sig,
            ne as nat <= neg_exp(bits),
            (sig as nat) * pow2((neg_exp(bits) - ne as nat) as nat) == sig_of(bits),
            tz(sig_of(bits)) == (neg_exp(bits) - ne as nat) + tz(sig as nat),
        decreases ne,
    {
        let ghost h = (neg_exp(bits) - ne as nat) as nat;
        proof {
            lemma_pow2_unfold((h + 1) as nat);
            assert(tz(sig as nat) == 1 + tz((sig / 2) as nat));
            assert(((sig / 2) as nat) * pow2((h + 1) as nat) == (sig as nat) * pow2(h))
                by (nonlinear_arith)
                requires
                    sig % 2 == 0,
                    sig >= 1,
                    pow2((h + 1) as nat) == 2 * pow2(h),
            ;
        }
        sig = sig / 2;
        ne = ne - 1;
    }
    let ghost hh = (neg_exp(bits) - ne as nat) as nat;
    proof {
        if sig % 2 == 1 {
            assert(tz(sig as nat) == 0);
            assert(final_den_exp(bits) == ne as nat);
            assert(tz(sig_of(bits)) == hh);
        } else {
            assert(ne == 0);
            assert(final_den_exp(bits) == 0);
            assert(tz(sig_of(bits)) >= hh && hh == neg_exp(bits));
        }
        // The cancelled exponent agrees with the reduced form's.
        assert(hh == (if tz(sig_of(bits)) <= neg_exp(bits) {
            tz(sig_of(bits))
        } else {
            neg_exp(bits)
        }));
        lemma_pow2_pos(hh);
        assert(sig as nat == sig_of(bits) / pow2(hh)) by (nonlinear_arith)
            requires
                (sig as nat) * pow2(hh) == sig_of(bits),
                pow2(hh) >= 1,
        ;
    }
    if ne > 63 {
        proof {
            lemma_pow2_pos((neg_exp(bits) - ne as nat) as nat);
            assert(sig_of(bits) >= 1) by (nonlinear_arith)
                requires
                    (sig as nat) * pow2((neg_exp(bits) - ne as nat) as nat) == sig_of(bits),
                    sig >= 1,
                    pow2((neg_exp(bits) - ne as nat) as nat) >= 1,
            ;
        }
        return Err(BalanceError::RationalConversionFailure { bits });
    }
    let mut den: u64 = 1;
    let mut i: u32 = 0;
    proof {
        assert(pow2(0) == 1) by {
            lemma2_to64();
        }
    }
    while i < ne
        invariant
            i <= ne <= 63,
            den as nat == pow2(i as nat),
        decreases ne - i,
    {
        proof {
            lemma_pow2_unfold((i + 1) as nat);
            if i + 1 < 64 {
                if i + 1 < 63 {
                    lemma_pow2_strictly_increases((i + 1) as nat, 63);
                }
                assert(pow2(63) == 0x8000000000000000) by {
                    lemma2_to64();
                    lemma2_to64_rest();
                }
            }
        }
        den = den * 2;
        i = i + 1;
    }
    let ghost hfin = (neg_exp(bits) - ne as nat) as nat;
    proof {
        lemma_pow2_adds(hfin, ne as nat);
        assert((sig as nat) * pow2(neg_exp(bits)) == sig_of(bits) * (den as nat))
            by (nonlinear_arith)
            requires
                (sig as nat) * pow2(hfin) == sig_of(bits),
                pow2((hfin + ne as nat) as nat) == pow2(hfin) * pow2(ne as nat),
                hfin + ne as nat == neg_exp(bits),
                den as nat == pow2(ne as nat),
        ;
        assert(pos_exp(bits) == 0);
        assert(pow2(0) == 1) by {
            lemma2_to64();
        }
        assert(sig_of(bits) * pow2(pos_exp(bits)) * (den as nat) == sig_of(bits) * (den as nat))
            by (nonlinear_arith)
            requires
                pow2(pos_exp(bits)) == 1,
        ;
        assert(exists|k: nat| k <= 63 && (den as nat) == pow2(k)) by {
            assert(ne <= 63 && (den as nat) == pow2(ne as nat));
        }
        assert(sig_of(bits) * pow2(pos_exp(bits)) <= u64::MAX) by (nonlinear_arith)
            requires
                sig_of(bits) <= u64::MAX,
                pow2(pos_exp(bits)) == 1,
        ;
        lemma_pow2_pos(ne as nat);
        assert(sig_of(bits) >= 1) by (nonlinear_arith)
            requires
                (sig as nat) * pow2(hfin) == sig_of(bits),
                sig >= 1,
                pow2(hfin) >= 1,
        ;
        assert((sig as nat, den as nat) == decode_spec(bits));
    }
    Ok(Ratio { num: sig, den })
}

/// The closing step of the bounded-denominator search: the better of the
/// last convergent and the boundary semiconvergent, by distance to the
/// original rational `n0 / d0`, ties favouring the semiconvergent.
pub open spec fn cf_finish(n0: nat, d0: nat, p0: nat, q0: nat, p1: nat, q1: nat, bound: nat) -> (
    nat,
    nat,
) {
    let k = if q1 >= 1 && q0 <= bound {
        ((bound - q0) as nat) / q1
    } else {
        0
    };
    let pa = p0 + k * p1;
    let qa = q0 + k * q1;
    if dist(pa * d0, n0 * qa) * q1 <= dist(p1 * d0, n0 * q1) * qa {
        (pa, qa)
    } else {
        (p1, q1)
    }
}

/// The smallest-denominator-first search over Stern-Brocot convergents of
/// `n / d`, bounded by `bound`: advance the two running convergents along
/// Euclid's quotients until the next denominator would pass the bound.
pub open spec fn cf_step(
    n: nat,
    d: nat,
    p0: nat,
    q0: nat,
    p1: nat,
    q1: nat,
    n0: nat,
    d0: nat,
    bound: nat,
) -> (nat, nat)
    decreases d,
{
    if d == 0 {
        cf_finish(n0, d0, p0, q0, p1, q1, bound)
    } else {
        let a = n / d;
        if q0 + a * q1 > bound {
            cf_finish(n0, d0, p0, q0, p1, q1, bound)
        } else {
            cf_step(d, n % d, p1, q1, p0 + a * p1, q0 + a * q1, n0, d0, bound)
        }
    }
}

/// The best rational approximation of `n / d` with denominator at most
/// `bound`: the input itself when its denominator already obeys the bound
/// (or when the bound is zero), else the bounded convergent search.
pub open spec fn limit_spec(n: nat, d: nat, bound: nat) -> (nat, nat) {
    if bound < 1 || d <= bound {
        (n, d)
    } else {
        cf_step(n, d, 0, 1, 1, 0, n, d, bound)
    }
}

/// Limiting is the identity on rationals whose denominator already obeys
/// the bound; in particular, on integers (denominator one) it is a no-op.
pub proof fn lemma_limit_identity_within_bound(n: nat, d: nat, bound: nat)
    requires
        1 <= d <= bound,
    ensures
        limit_spec(n, d, bound) == (n, d),
{
}

/// The closest rational to `given` whose denominator is at most
/// `max_denominator`, found by the continued-fraction convergent search;
/// `given` itself when its denominator already obeys the bound.
pub fn limit_denominator(given: Ratio, max_denominator: u64) -> (r: Ratio)
    requires
        given.wf(),
    ensures
        (r.num as nat, r.den as nat) == limit_spec(
            given.num as nat,
            given.den as nat,
            max_denominator as nat,
        ),
        r.wf(),
        max_denominator >= 1 ==> r.den <= max_denominator,
        (max_denominator < 1 || given.den <= max_denominator) ==> r == given,
{
    if max_denominator < 1 || given.den <= max_denominator {
        return given;
    }
    let n0: u64 = given.num;
    let d0: u64 = given.den;
    let mut p0: u64 = 0;
    let mut q0: u64 = 1;
    let mut p1: u64 = 1;
    let mut q1: u64 = 0;
    let mut n: u64 = n0;
    let mut d: u64 = d0;
    while d != 0
        invariant
            max_denominator >= 1,
            d0 > max_denominator,
            n0 == given.num,
            d0 == given.den,
            (p1 as int) * (n as int) + (p0 as int) * (d as int) == n0 as int,
            (q1 as int) * (n as int) + (q0 as int) * (d as int) == d0 as int,
            cf_step(
                n as nat,
                d as nat,
                p0 as nat,
                q0 as nat,
                p1 as nat,
                q1 as nat,
                n0 as nat,
                d0 as nat,
                max_denominator as nat,
            ) == limit_spec(n0 as nat, d0 as nat, max_denominator as nat),
            (p0 == 0 && q0 == 1 && p1 == 1 && q1 == 0 && n == n0 && d == d0) || (q1 >= 1 && q0
                <= max_denominator && q1 <= max_denominator && p1 <= n0 && n > d),
        ensures
            q1 >= 1,
            q0 <= max_denominator,
            q1 <= max_denominator,
            p1 <= n0,
            d == 0 || (q0 as int) + ((n as int) / (d as int)) * (q1 as int)
                > max_denominator as int,
        decreases d,
    {
        let a: u64 = n / d;
        let rem: u64 = n % d;
        proof {
            lemma_fundamental_div_mod(n as int, d as int);
            assert((q0 as int) + (a as int) * (q1 as int)
                < 0x100000000000000000000000000000000) by (nonlinear_arith)
                requires
                    0 <= q0 <= 0xFFFFFFFFFFFFFFFFu64,
                    0 <= a <= 0xFFFFFFFFFFFFFFFFu64,
                    0 <= q1 <= 0xFFFFFFFFFFFFFFFFu64,
            ;
        }
        let q2w: u128 = q0 as u128 + (a as u128) * (q1 as u128);
        if q2w > max_denominator as u128 {
            proof {
                if p0 == 0 && q0 == 1 && p1 == 1 && q1 == 0 && n == n0 && d == d0 {
                    assert(q2w == 1);
                }
            }
            break ;
        }
        proof {
            assert((p0 as int) + (a as int) * (p1 as int)
                < 0x100000000000000000000000000000000) by (nonlinear_arith)
                requires
                    0 <= p0 <= 0xFFFFFFFFFFFFFFFFu64,
                    0 <= a <= 0xFFFFFFFFFFFFFFFFu64,
                    0 <= p1 <= 0xFFFFFFFFFFFFFFFFu64,
            ;
        }
        let p2w: u128 = p0 as u128 + (a as u128) * (p1 as u128);
        proof {
            assert((p2w as int) * (d as int) <= n0 as int && (q2w as int) * (d as int)
                <= d0 as int) by (nonlinear_arith)
                requires
                    p2w == p0 + (a as int) * (p1 as int),
                    q2w == q0 + (a as int) * (q1 as int),
                    n as int == (d as int) * (a as int) + (rem as int),
                    0 <= rem as int,
                    (p1 as int) * (n as int) + (p0 as int) * (d as int) == n0 as int,
                    (q1 as int) * (n as int) + (q0 as int) * (d as int) == d0 as int,
                    d >= 1,
                    p0 >= 0,
                    p1 >= 0,
                    q0 >= 0,
                    q1 >= 0,
                    a >= 0,
            ;
            assert(p2w <= n0 && q2w <= d0) by (nonlinear_arith)
                requires
                    (p2w as int) * (d as int) <= n0 as int,
                    (q2w as int) * (d as int) <= d0 as int,
                    d >= 1,
                    p2w >= 0,
                    q2w >= 0,
            ;
        }
        let p2: u64 = p2w as u64;
        let q2: u64 = q2w as u64;
        proof {
            // The advanced state satisfies the two convergent identities.
            assert((p2 as int) * (d as int) + (p1 as int) * (rem as int) == n0 as int && (
            q2 as int) * (d as int) + (q1 as int) * (rem as int) == d0 as int) by (nonlinear_arith)
                requires
                    p2 == p0 + (a as int) * (p1 as int),
                    q2 == q0 + (a as int) * (q1 as int),
                    rem as int == (n as int) - (d as int) * (a as int),
                    (p1 as int) * (n as int) + (p0 as int) * (d as int) == n0 as int,
                    (q1 as int) * (n as int) + (q0 as int) * (d as int) == d0 as int,
            ;
            // One unfolding of the search keeps the final result.
            assert(cf_step(
                n as nat,
                d as nat,
                p0 as nat,
                q0 as nat,
                p1 as nat,
                q1 as nat,
                n0 as nat,
                d0 as nat,
                max_denominator as nat,
            ) == cf_step(
                d as nat,
                rem as nat,
                p1 as nat,
                q1 as nat,
                p2 as nat,
                q2 as nat,
                n0 as nat,
                d0 as nat,
                max_denominator as nat,
            ));
            if !(p0 == 0 && q0 == 1 && p1 == 1 && q1 == 0 && n == n0 && d == d0) {
                assert(a >= 1) by (nonlinear_arith)
                    requires
                        n as int == (d as int) * (a as int) + (rem as int),
                        rem < d,
                        (n as int) > (d as int),
                        d >= 1,
                        a >= 0,
                ;
                assert(q2 >= 1) by (nonlinear_arith)
                    requires
                        q2 == q0 + (a as int) * (q1 as int),
                        q1 >= 1,
                        a >= 1,
                        q0 >= 0,
                ;
            }
        }
        p0 = p1;
        q0 = q1;
        p1 = p2;
        q1 = q2;
        n = d;
        d = rem;
    }
    let k: u64 = (max_denominator - q0) / q1;
    proof {
        lemma_fundamental_div_mod((max_denominator - q0) as int, q1 as int);
        assert((k as int) * (q1 as int) <= (max_denominator as int) - (q0 as int))
            by (nonlinear_arith)
            requires
                (max_denominator - q0) as int == (q1 as int) * (k as int) + ((max_denominator - q0)
                    as int) % (q1 as int),
                q1 >= 1,
                ((max_denominator - q0) as int) % (q1 as int) >= 0,
        ;
    }
    let qa: u64 = q0 + k * q1;
    proof {
        if q0 == 0 {
            assert(k >= 1) by (nonlinear_arith)
                requires
                    (max_denominator - q0) as int == (q1 as int) * (k as int) + ((max_denominator
                        - q0) as int) % (q1 as int),
                    q0 == 0,
                    1 <= q1 <= max_denominator,
                    ((max_denominator - q0) as int) % (q1 as int) < q1 as int,
            ;
            assert(qa >= 1) by (nonlinear_arith)
                requires
                    qa == q0 + (k as int) * (q1 as int),
                    k >= 1,
                    q1 >= 1,
                    q0 >= 0,
            ;
        }
    }
    proof {
        assert((p0 as int) + (k as int) * (p1 as int) < 0x100000000000000000000000000000000)
            by (nonlinear_arith)
            requires
                0 <= p0 <= 0xFFFFFFFFFFFFFFFFu64,
                0 <= k <= 0xFFFFFFFFFFFFFFFFu64,
                0 <= p1 <= 0xFFFFFFFFFFFFFFFFu64,
        ;
    }
    let paw: u128 = p0 as u128 + (k as u128) * (p1 as u128);
    proof {
        assert(paw == (p0 as int) + (k as int) * (p1 as int)) by (nonlinear_arith)
            requires
                paw == (p0 as u128) + (k as u128) * (p1 as u128),
        ;
    }
    let ghost fin = cf_finish(
        n0 as nat,
        d0 as nat,
        p0 as nat,
        q0 as nat,
        p1 as nat,
        q1 as nat,
        max_denominator as nat,
    );
    proof {
        // The spec's boundary index agrees with the computed one.
        assert(((max_denominator - q0) as nat) / (q1 as nat) == k as nat);
    }
    if paw > u64::MAX as u128 {
        proof {
            if d != 0 {
                let a = (n as int) / (d as int);
                lemma_fundamental_div_mod(n as int, d as int);
                assert((k as int) < a) by (nonlinear_arith)
                    requires
                        (k as int) * (q1 as int) <= (max_denominator as int) - (q0 as int),
                        (q0 as int) + a * (q1 as int) > max_denominator as int,
                        q1 >= 1,
                ;
                assert(((p0 as int) + a * (p1 as int)) * (d as int) <= n0 as int)
                    by (nonlinear_arith)
                    requires
                        n as int == (d as int) * a + (n as int) % (d as int),
                        0 <= (n as int) % (d as int),
                        (p1 as int) * (n as int) + (p0 as int) * (d as int) == n0 as int,
                        d >= 1,
                        p0 >= 0,
                        p1 >= 0,
                        a >= 0,
                ;
                assert(paw <= n0) by (nonlinear_arith)
                    requires
                        ((p0 as int) + a * (p1 as int)) * (d as int) <= n0 as int,
                        paw == (p0 as int) + (k as int) * (p1 as int),
                        (k as int) < a,
                        d >= 1,
                        p1 >= 0,
                        p0 >= 0,
                        a >= 0,
                ;
                assert(false);
            }
            // Exact-value exit: the last convergent equals the input, so the
            // semiconvergent (whose numerator overflowed) is strictly worse.
            assert((p1 as int) * (d0 as int) == (n0 as int) * (q1 as int)) by (nonlinear_arith)
                requires
                    (p1 as int) * (n as int) == n0 as int,
                    (q1 as int) * (n as int) == d0 as int,
            ;
            assert(dist((p1 as nat) * (d0 as nat), (n0 as nat) * (q1 as nat)) == 0);
            let pa = (p0 as nat) + (k as nat) * (p1 as nat);
            assert(pa * (d0 as nat) > (n0 as nat) * (qa as nat)) by (nonlinear_arith)
                requires
                    pa > u64::MAX as nat,
                    n0 <= u64::MAX as nat,
                    qa <= max_denominator,
                    (d0 as nat) > max_denominator as nat,
            ;
            assert(dist(pa * (d0 as nat), (n0 as nat) * (qa as nat)) * (q1 as nat) >= 1)
                by (nonlinear_arith)
                requires
                    dist(pa * (d0 as nat), (n0 as nat) * (qa as nat)) >= 1,
                    q1 >= 1,
            ;
            assert(dist((p1 as nat) * (d0 as nat), (n0 as nat) * (q1 as nat)) * (qa as nat) == 0)
                by (nonlinear_arith)
                requires
                    dist((p1 as nat) * (d0 as nat), (n0 as nat) * (q1 as nat)) == 0,
            ;
            assert(pa == (p0 as nat) + (((max_denominator - q0) as nat) / (q1 as nat)) * (
            p1 as nat));
            assert(qa as nat == (q0 as nat) + (((max_denominator - q0) as nat) / (q1 as nat)) * (
            q1 as nat));
            assert(fin == (p1 as nat, q1 as nat));
        }
        return Ratio { num: p1, den: q1 };
    }
    let pa: u64 = paw as u64;
    let d1: u128 = abs_diff(mul_u64(pa, d0), mul_u64(n0, qa));
    let d2: u128 = abs_diff(mul_u64(p1, d0), mul_u64(n0, q1));
    proof {
        assert(pa as nat == (p0 as nat) + (((max_denominator - q0) as nat) / (q1 as nat)) * (
        p1 as nat));
        assert(qa as nat == (q0 as nat) + (((max_denominator - q0) as nat) / (q1 as nat)) * (
        q1 as nat));
    }
    if mul_le(d1, q1, d2, qa) {
        proof {
            assert(fin == (pa as nat, qa as nat));
        }
        Ratio { num: pa, den: qa }
    } else {
        proof {
            assert(fin == (p1 as nat, q1 as nat));
        }
        Ratio { num: p1, den: q1 }
    }
}

} // verus!
