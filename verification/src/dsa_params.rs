//! Custom ML-DSA (Dilithium-shaped) parameter derivation. The caller supplies k, l, q, gamma1;
//! this module derives eta/gamma2/tau/omega/lambda and validates that the whole tuple supports
//! a terminating Fiat-Shamir-with-aborts sign loop. Every failure mode returns a specific
//! error, never a silent clamp of what the caller asked for.
//!
//! FIPS 204 only defines eta/gamma2/tau/omega/lambda for its three approved parameter sets, so
//! each is an optional override (`DsaParamOverrides`): set it to the exact constant of a
//! standard set for real compliance, or leave it `None` to use the heuristic below. Either way
//! `build_params` checks the tuple's correctness inequalities before returning it.
use crate::error::PqcError;
use vstd::arithmetic::power2::pow2;
use vstd::prelude::*;

verus! {

pub const N: usize = crate::poly::N;

#[derive(Clone, Copy, Debug, PartialEq, Eq)]
pub struct GenericDsaParams {
    pub k: u32,
    pub l: u32,
    pub q: i32,
    pub eta: u32,
    pub gamma1: i32,
    pub gamma2: i32,
    pub tau: u32,
    pub omega: u32,
    pub lambda: u32,
}

#[derive(Clone, Copy, Debug, Default)]
pub struct DsaParamOverrides {
    pub eta: Option<u32>,
    pub gamma2: Option<i32>,
    pub tau: Option<u32>,
    pub omega: Option<u32>,
    pub lambda: Option<u32>,
}

/// `n` is a prime number.
pub open spec fn is_prime_spec(n: int) -> bool {
    n >= 2 && forall|d: int| 2 <= d < n ==> #[trigger] (n % d) != 0
}

/// An odd number has no even divisor.
proof fn lemma_odd_no_even_divisor(n: int, e: int)
    requires
        n % 2 == 1,
        e >= 2,
        e % 2 == 0,
    ensures
        n % e != 0,
{
    if n % e == 0 {
        let f = n / e;
        let h = e / 2;
        vstd::arithmetic::div_mod::lemma_fundamental_div_mod(n, e);
        vstd::arithmetic::div_mod::lemma_fundamental_div_mod(e, 2);
        assert(n == 2 * (h * f)) by (nonlinear_arith)
            requires
                n == e * f,
                e == 2 * h,
        ;
        vstd::arithmetic::div_mod::lemma_fundamental_div_mod_converse(n, 2, h * f, 0);
    }
}

/// Once `d * d > n` and nothing below `d` divides `n`, nothing in `[2, n)` does.
proof fn lemma_no_large_divisor(n: int, d: int)
    requires
        n >= 2,
        d >= 2,
        d * d > n,
        forall|e: int| 2 <= e < d ==> #[trigger] (n % e) != 0,
    ensures
        is_prime_spec(n),
{
    assert forall|e: int| 2 <= e < n implies #[trigger] (n % e) != 0 by {
        if n % e == 0 && e >= d {
            let f = n / e;
            vstd::arithmetic::div_mod::lemma_fundamental_div_mod(n, e);
            assert(n == e * f);
            if f >= d {
                assert(e * f >= d * d) by (nonlinear_arith)
                    requires
                        e >= d,
                        f >= d,
                        d >= 2,
                ;
            }
            if f <= 1 {
                assert(e * f <= e) by (nonlinear_arith)
                    requires
                        f <= 1,
                        e >= 2,
                ;
                assert(f >= 1) by (nonlinear_arith)
                    requires
                        n == e * f,
                        n >= 2,
                        e >= 2,
                ;
            }
            vstd::arithmetic::div_mod::lemma_fundamental_div_mod_converse(n, f, e, 0);
            assert(n % f == 0);
        }
    }
}

/// Trial division primality test.
pub fn is_prime(n: i32) -> (r: bool)
    ensures
        r == is_prime_spec(n as int),
{
    if n < 2 {
        return false;
    }
    if n % 2 == 0 {
        if n != 2 {
            assert(n % 2 == 0 && 2 < n);
        }
        return n == 2;
    }
    let mut d: i64 = 3;
    proof {
        assert forall|e: int| 2 <= e < 3 implies #[trigger] ((n as int) % e) != 0 by {
            assert(e == 2);
        }
    }
    while d <= (n as i64) / d
        invariant
            n >= 3,
            n % 2 == 1,
            3 <= d <= n + 1,
            d % 2 == 1,
            forall|e: int| 2 <= e < d ==> #[trigger] ((n as int) % e) != 0,
        decreases n - d,
    {
        proof {
            vstd::arithmetic::div_mod::lemma_fundamental_div_mod(n as int, d as int);
            assert(d * d <= n) by (nonlinear_arith)
                requires
                    d <= (n as int) / (d as int),
                    n == d * ((n as int) / (d as int)) + (n as int) % (d as int),
                    0 <= (n as int) % (d as int),
                    d >= 3,
            ;
            assert(d < n - 1) by (nonlinear_arith)
                requires
                    d * d <= n,
                    d >= 3,
            ;
        }
        if n as i64 % d == 0 {
            assert((n as int) % (d as int) == 0);
            assert(2 <= d < n);
            return false;
        }
        proof {
            assert forall|e: int| 2 <= e < d + 2 implies #[trigger] ((n as int) % e) != 0 by {
                if e == d + 1 {
                    lemma_odd_no_even_divisor(n as int, e);
                } else if e == d {
                } else {
                }
            }
        }
        d = d + 2;
    }
    proof {
        vstd::arithmetic::div_mod::lemma_fundamental_div_mod(n as int, d as int);
        assert(d * d > n) by (nonlinear_arith)
            requires
                d > (n as int) / (d as int),
                n == d * ((n as int) / (d as int)) + (n as int) % (d as int),
                (n as int) % (d as int) < d,
                d >= 3,
        ;
    }
    proof {
        lemma_no_large_divisor(n as int, d as int);
    }
    true
}

/// q must be prime, NTT-suitable for n=256 (q ≡ 1 mod 512), and small enough to leave headroom
/// in i32 arithmetic. All NTT and rounding math runs in i64 internally, so larger well-known NTT
/// primes (e.g. 998244353) are intentionally allowed.
pub open spec fn validate_q_spec(q: i32) -> Result<(), PqcError> {
    if q < 5 {
        Err(PqcError::QTooSmall { q })
    } else if !is_prime_spec(q as int) {
        Err(PqcError::QNotPrime { q })
    } else if (q - 1) % 512 != 0 {
        Err(PqcError::QNotNttFriendly { q, two_n: 512, rem: ((q - 1) % 512) as i32 })
    } else if q >= 2_000_000_000 {
        Err(PqcError::QTooLarge { q })
    } else {
        Ok(())
    }
}

pub fn validate_q(q: i32) -> (r: Result<(), PqcError>)
    ensures
        r == validate_q_spec(q),
{
    if q < 5 {
        return Err(PqcError::QTooSmall { q });
    }
    if !is_prime(q) {
        return Err(PqcError::QNotPrime { q });
    }
    if (q - 1) % 512 != 0 {
        return Err(PqcError::QNotNttFriendly { q, two_n: 512, rem: (q - 1) % 512 });
    }
    if q >= 2_000_000_000 {
        return Err(PqcError::QTooLarge { q });
    }
    Ok(())
}

pub open spec fn clamp_int(v: int, lo: int, hi: int) -> int {
    if v < lo {
        lo
    } else if v > hi {
        hi
    } else {
        v
    }
}

/// tau: the override, or `5 * (k + l)` clamped to `[20, 60]`.
pub open spec fn derived_tau(k: u32, l: u32, ov: DsaParamOverrides) -> int {
    match ov.tau {
        Some(t) => t as int,
        None => clamp_int(5 * (k + l), 20, 60),
    }
}

/// eta when not overridden: `max(1, (gamma1 / 2048) / tau)`.
pub open spec fn heuristic_eta(gamma1: int, tau: int) -> int {
    let max_beta = gamma1 / (8 * N as int);
    if max_beta / tau >= 1 {
        max_beta / tau
    } else {
        1
    }
}

/// The first `(q - 1) / 2^e` for `e` in `e0..=9` lying in `(beta, gamma1 - beta]`.
pub open spec fn search_gamma2(q: int, gamma1: int, beta: int, e0: nat) -> Option<int>
    decreases 10 - e0,
{
    if e0 > 9 {
        None
    } else {
        let candidate = (q - 1) / vstd::arithmetic::power2::pow2(e0) as int;
        if beta < candidate <= gamma1 - beta {
            Some(candidate)
        } else {
            search_gamma2(q, gamma1, beta, e0 + 1)
        }
    }
}

/// omega when not overridden: `4 * k * 256 * 4096 / gamma2`, clamped to `[8, k * 256]`.
pub open spec fn heuristic_omega(k: int, gamma2: int) -> int {
    clamp_int((4 * k * N as int * 4096) / gamma2, 8, k * N as int)
}

/// The tuple `build_params` returns, or the first check it fails, in order: q, k/l, gamma1,
/// tau, eta, beta < gamma1, gamma2, the gamma2-versus-tau margin, omega, lambda.
pub open spec fn build_params_spec(
    k: u32,
    l: u32,
    q: i32,
    gamma1: i32,
    ov: DsaParamOverrides,
) -> Result<GenericDsaParams, PqcError> {
    let tau = derived_tau(k, l, ov);
    if validate_q_spec(q) is Err {
        Err(validate_q_spec(q)->Err_0)
    } else if k == 0 || l == 0 {
        Err(PqcError::KOrLZero)
    } else if gamma1 <= 0 || gamma1 >= q / 2 {
        Err(PqcError::Gamma1OutOfRange { gamma1, q })
    } else if tau == 0 || tau > N {
        Err(PqcError::TauOutOfRange { tau: tau as u32 })
    } else if ov.eta is None && (gamma1 as int) / (8 * N as int) < 1 {
        Err(PqcError::Gamma1TooSmall { gamma1, minimum: 2048, q })
    } else {
        let eta: int = match ov.eta {
            Some(e) => e as int,
            None => heuristic_eta(gamma1 as int, tau),
        };
        let beta = tau * eta;
        if eta == 0 {
            Err(PqcError::EtaZero)
        } else if beta >= gamma1 {
            Err(
                PqcError::BetaTooLarge {
                    beta: beta as i32,
                    gamma1,
                    tau: tau as u32,
                    eta: eta as u32,
                },
            )
        } else {
            let g2: Result<int, PqcError> = match ov.gamma2 {
                Some(g) => if g <= beta || g > gamma1 - beta {
                    Err(PqcError::Gamma2OutOfRange { gamma2: g, beta: beta as i32, gamma1 })
                } else if (q - 1) % (2 * g) != 0 {
                    Err(
                        PqcError::Gamma2NotDivisor {
                            gamma2: g,
                            q,
                            rem: ((q - 1) % (2 * g)) as i32,
                        },
                    )
                } else {
                    Ok(g as int)
                },
                None => match search_gamma2(q as int, gamma1 as int, beta, 1) {
                    Some(c) => Ok(c),
                    None => Err(
                        PqcError::NoGamma2 {
                            q,
                            gamma1,
                            beta: beta as i32,
                            tau: tau as u32,
                            eta: eta as u32,
                        },
                    ),
                },
            };
            if g2 is Err {
                Err(g2->Err_0)
            } else {
                let gamma2 = g2->Ok_0;
                if gamma2 * gamma2 < 9 * tau * 4096 * 4096 {
                    Err(PqcError::Gamma2TooSmallForTau { gamma2: gamma2 as i32, tau: tau as u32 })
                } else {
                    let om: Result<int, PqcError> = match ov.omega {
                        Some(o) => if o == 0 || o > k * N {
                            Err(PqcError::OmegaOutOfRange { omega: o, maximum: (k * N) as i64 })
                        } else {
                            Ok(o as int)
                        },
                        None => Ok(heuristic_omega(k as int, gamma2)),
                    };
                    if om is Err {
                        Err(om->Err_0)
                    } else if ov.lambda == Some(0u32) {
                        Err(PqcError::LambdaZero)
                    } else {
                        let lambda: int = match ov.lambda {
                            Some(lam) => lam as int,
                            None => clamp_int(tau, 16, 64),
                        };
                        Ok(
                            GenericDsaParams {
                                k,
                                l,
                                q,
                                eta: eta as u32,
                                gamma1,
                                gamma2: gamma2 as i32,
                                tau: tau as u32,
                                omega: (om->Ok_0) as u32,
                                lambda: lambda as u32,
                            },
                        )
                    }
                }
            }
        }
    }
}

/// What every accepted tuple satisfies: the correctness inequalities of the sign loop.
pub open spec fn dsa_params_valid(p: GenericDsaParams) -> bool {
    let beta = p.tau * p.eta;
    &&& is_prime_spec(p.q as int)
    &&& 5 <= p.q < 2_000_000_000
    &&& (p.q - 1) % 512 == 0
    &&& p.k >= 1 && p.l >= 1
    &&& 0 < p.gamma1 && p.gamma1 < p.q / 2
    &&& 1 <= p.tau <= N
    &&& p.eta >= 1
    &&& beta < p.gamma1
    &&& beta < p.gamma2 <= p.gamma1 - beta
    &&& (p.q - 1) % (2 * p.gamma2) == 0
    &&& p.gamma2 * p.gamma2 >= 9 * p.tau * 4096 * 4096
    &&& 1 <= p.omega <= p.k * N
    &&& p.lambda >= 1
}

proof fn lemma_search_gamma2_in_range(q: int, gamma1: int, beta: int, e0: nat)
    requires
        q > 1,
        (q - 1) % 512 == 0,
        e0 >= 1,
    ensures
        search_gamma2(q, gamma1, beta, e0) matches Some(c) ==> beta < c <= gamma1 - beta && (q
            - 1) % (2 * c) == 0,
    decreases 10 - e0,
{
    if e0 <= 9 {
        lemma_search_gamma2_in_range(q, gamma1, beta, e0 + 1);
        let c = (q - 1) / vstd::arithmetic::power2::pow2(e0) as int;
        if beta < c <= gamma1 - beta {
            let m = (q - 1) / 512;
            vstd::arithmetic::div_mod::lemma_fundamental_div_mod(q - 1, 512);
            let a = vstd::arithmetic::power2::pow2(e0) as int;
            let b = vstd::arithmetic::power2::pow2((9 - e0) as nat) as int;
            let h = vstd::arithmetic::power2::pow2((e0 - 1) as nat) as int;
            vstd::arithmetic::power2::lemma_pow2_adds(e0, (9 - e0) as nat);
            vstd::arithmetic::power2::lemma_pow2_unfold(e0);
            vstd::arithmetic::power2::lemma2_to64();
            vstd::arithmetic::power2::lemma_pow2_pos(e0);
            assert(a * b == 512);
            assert(q - 1 == a * (m * b)) by (nonlinear_arith)
                requires
                    q - 1 == 512 * m,
                    a * b == 512,
            ;
            vstd::arithmetic::div_mod::lemma_fundamental_div_mod_converse(q - 1, a, m * b, 0);
            assert(c == m * b);
            assert(q - 1 == (2 * c) * h) by (nonlinear_arith)
                requires
                    q - 1 == a * (m * b),
                    c == m * b,
                    a == 2 * h,
            ;
            vstd::arithmetic::div_mod::lemma_fundamental_div_mod_converse(q - 1, 2 * c, h, 0);
        }
    }
}

fn search_gamma2_exec(q: i32, gamma1: i32, beta: i32) -> (r: Option<i32>)
    requires
        5 <= q,
        0 <= beta,
        beta < gamma1 < q / 2,
    ensures
        r matches Some(c) ==> search_gamma2(q as int, gamma1 as int, beta as int, 1) == Some(
            c as int,
        ),
        r is None ==> search_gamma2(q as int, gamma1 as int, beta as int, 1) is None,
{
    let mut e: u32 = 1;
    while e <= 9
        invariant
            1 <= e <= 10,
            5 <= q,
            0 <= beta,
            beta < gamma1 < q / 2,
            search_gamma2(q as int, gamma1 as int, beta as int, 1) == search_gamma2(
                q as int,
                gamma1 as int,
                beta as int,
                e as nat,
            ),
        decreases 10 - e,
    {
        let p64 = crate::arith::pow2_u64(e);
        proof {
            vstd::arithmetic::power2::lemma2_to64();
            vstd::arithmetic::power2::lemma_pow2_pos(e as nat);
            assert(p64 <= 512) by {
                if e < 9 {
                    vstd::arithmetic::power2::lemma_pow2_strictly_increases(e as nat, 9);
                }
            }
        }
        let p = p64 as i32;
        let candidate = (q - 1) / p;
        if candidate > beta && candidate <= gamma1 - beta {
            return Some(candidate);
        }
        e = e + 1;
    }
    None
}

/// The first candidate `(q - 1) / 2^e`, `e0 <= e <= 9`, inside `(beta, gamma1 - beta]`.
proof fn lemma_search_gamma2_first(q: int, gamma1: int, beta: int, e0: nat)
    requires
        search_gamma2(q, gamma1, beta, e0) is Some,
    ensures
        exists|e: nat|
            #![trigger pow2(e)]
            e0 <= e <= 9 && search_gamma2(q, gamma1, beta, e0) == Some((q - 1) / pow2(e) as int) && beta < (q - 1) / pow2(e) as int
                <= gamma1 - beta && forall|e2: nat| e0 <= e2 < e ==> !(beta < #[trigger] ((q - 1) / pow2(e2) as int) <= gamma1 - beta),
    decreases 10 - e0,
{
    let c = (q - 1) / pow2(e0) as int;
    if beta < c <= gamma1 - beta {
        assert(e0 <= e0 <= 9 && search_gamma2(q, gamma1, beta, e0) == Some((q - 1) / pow2(e0) as int));
    } else {
        lemma_search_gamma2_first(q, gamma1, beta, e0 + 1);
        let e = choose|e: nat|
            #![trigger pow2(e)]
            e0 + 1 <= e <= 9 && search_gamma2(q, gamma1, beta, e0 + 1) == Some((q - 1) / pow2(e) as int) && beta < (q - 1) / pow2(e) as int
                <= gamma1 - beta && forall|e2: nat| e0 + 1 <= e2 < e ==> !(beta < #[trigger] ((q - 1) / pow2(e2) as int) <= gamma1 - beta);
        assert forall|e2: nat| e0 <= e2 < e implies !(beta < #[trigger] ((q - 1) / pow2(e2) as int) <= gamma1 - beta) by {
            if e2 == e0 {
            }
        }
        assert(pow2(e) == pow2(e));
    }
}

/// Law: what `build_params` derives for each knob. An override is taken as given; otherwise
/// `tau = clamp(5 (k + l), 20, 60)`, `eta = max(1, (gamma1 / 2048) / tau)`, `gamma2` is the
/// first `(q - 1) / 2^e`, `1 <= e <= 9`, inside `(tau eta, gamma1 - tau eta]`,
/// `omega = clamp(4 k 256 4096 / gamma2, 8, 256 k)` (taken as a `u32`) and
/// `lambda = clamp(tau, 16, 64)`.
pub proof fn lemma_build_params_knobs(k: u32, l: u32, q: i32, gamma1: i32, ov: DsaParamOverrides)
    ensures
        build_params_spec(k, l, q, gamma1, ov) matches Ok(p) ==> {
            let t5 = 5 * (k + l);
            let beta = p.tau * p.eta;
            let raw = (4 * k * 256 * 4096) / (p.gamma2 as int);
            &&& p.k == k && p.l == l && p.q == q && p.gamma1 == gamma1
            &&& ov.tau matches Some(t) ==> p.tau == t
            &&& ov.tau is None ==> 20 <= p.tau <= 60 && p.tau == (if t5 < 20 {
                20
            } else if t5 > 60 {
                60
            } else {
                t5
            })
            &&& ov.eta matches Some(e) ==> p.eta == e
            &&& ov.eta is None ==> p.eta == (if (gamma1 / 2048) / (p.tau as int) >= 1 {
                (gamma1 / 2048) / (p.tau as int)
            } else {
                1
            })
            &&& ov.gamma2 matches Some(g) ==> p.gamma2 == g
            &&& ov.gamma2 is None ==> exists|e: nat|
                #![trigger pow2(e)]
                1 <= e <= 9 && p.gamma2 == (q - 1) / pow2(e) as int && forall|e2: nat|
                    1 <= e2 < e ==> !(beta < #[trigger] ((q - 1) / pow2(e2) as int) <= gamma1 - beta)
            &&& ov.omega matches Some(o) ==> p.omega == o
            &&& ov.omega is None ==> p.omega == ((if raw < 8 {
                8
            } else if raw > 256 * k {
                256 * k
            } else {
                raw
            }) as u32)
            &&& ov.lambda matches Some(lam) ==> p.lambda == lam
            &&& ov.lambda is None ==> p.lambda == (if p.tau < 16 {
                16
            } else if p.tau > 64 {
                64
            } else {
                p.tau
            })
        },
{
    if build_params_spec(k, l, q, gamma1, ov) is Ok {
        let p = build_params_spec(k, l, q, gamma1, ov)->Ok_0;
        let tau = derived_tau(k, l, ov);
        assert(1 <= tau <= N);
        assert(p.tau == tau);
        let eta: int = match ov.eta {
            Some(e) => e as int,
            None => heuristic_eta(gamma1 as int, tau),
        };
        if ov.eta is None {
            assert(gamma1 as int / (8 * N as int) == gamma1 / 2048);
            assert(1 <= eta <= gamma1);
        }
        assert(p.eta == eta);
        let beta = tau * eta;
        if ov.gamma2 is None {
            lemma_search_gamma2_first(q as int, gamma1 as int, beta, 1);
        }
    }
}

pub fn build_params(k: u32, l: u32, q: i32, gamma1: i32, overrides: &DsaParamOverrides) -> (r:
    Result<GenericDsaParams, PqcError>)
    requires
        overrides.tau is None ==> 5 * (k + l) <= u32::MAX,
        overrides.eta matches Some(e) ==> (1 <= derived_tau(k, l, *overrides) <= N ==> e
            * derived_tau(k, l, *overrides) <= i32::MAX),
    ensures
        r == build_params_spec(k, l, q, gamma1, *overrides),
        r matches Ok(p) ==> ((overrides.omega is Some || heuristic_omega(k as int, p.gamma2 as int) <= u32::MAX) ==> dsa_params_valid(p)),
{
    let ov = *overrides;
    match validate_q(q) {
        Err(e) => return Err(e),
        Ok(()) => {},
    }
    if k == 0 || l == 0 {
        return Err(PqcError::KOrLZero);
    }
    if gamma1 <= 0 || gamma1 >= q / 2 {
        return Err(PqcError::Gamma1OutOfRange { gamma1, q });
    }
    let tau: u32 = match ov.tau {
        Some(t) => t,
        None => {
            let raw = (k + l) * 5;
            if raw < 20 {
                20
            } else if raw > 60 {
                60
            } else {
                raw
            }
        },
    };
    if tau == 0 || tau as usize > N {
        return Err(PqcError::TauOutOfRange { tau });
    }
    let eta: u32 = match ov.eta {
        Some(e) => e,
        None => {
            let max_beta = gamma1 / (8 * N as i32);
            if max_beta < 1 {
                return Err(PqcError::Gamma1TooSmall { gamma1, minimum: 8 * N as i32, q });
            }
            let per_tau = max_beta / tau as i32;
            if per_tau >= 1 {
                per_tau as u32
            } else {
                1
            }
        },
    };
    if eta == 0 {
        return Err(PqcError::EtaZero);
    }
    proof {
        assert(tau == derived_tau(k, l, ov));
        if ov.eta is None {
            assert(eta <= gamma1 / 2048);
            assert(tau * eta <= 256 * (gamma1 / 2048)) by (nonlinear_arith)
                requires
                    tau <= 256,
                    1 <= eta <= gamma1 / 2048,
            ;
        }
    }
    proof {
        assert(tau * eta <= i32::MAX);
        assert(eta <= tau * eta) by (nonlinear_arith)
            requires
                tau >= 1,
        ;
    }
    let beta = tau as i32 * eta as i32;
    if beta >= gamma1 {
        return Err(PqcError::BetaTooLarge { beta, gamma1, tau, eta });
    }
    let gamma2: i32 = match ov.gamma2 {
        Some(g) => {
            if g <= beta || g > gamma1 - beta {
                return Err(PqcError::Gamma2OutOfRange { gamma2: g, beta, gamma1 });
            }
            if (q - 1) % (2 * g) != 0 {
                return Err(PqcError::Gamma2NotDivisor { gamma2: g, q, rem: (q - 1) % (2 * g) });
            }
            g
        },
        None => {
            match search_gamma2_exec(q, gamma1, beta) {
                Some(c) => c,
                None => {
                    return Err(PqcError::NoGamma2 { q, gamma1, beta, tau, eta });
                },
            }
        },
    };
    proof {
        if ov.gamma2 is None {
            lemma_search_gamma2_in_range(q as int, gamma1 as int, beta as int, 1);
        }
        assert(beta < gamma2 <= gamma1 - beta);
        assert((gamma2 as i64) * (gamma2 as i64) <= 0x4000_0000_0000_0000) by (nonlinear_arith)
            requires
                0 < gamma2 < 0x8000_0000i64,
        ;
    }
    let t0_max: i64 = 4096;
    if (gamma2 as i64) * (gamma2 as i64) < 9 * tau as i64 * t0_max * t0_max {
        return Err(PqcError::Gamma2TooSmallForTau { gamma2, tau });
    }
    let omega: u32 = match ov.omega {
        Some(o) => {
            if o == 0 || (o as i64) > (k as i64) * (N as i64) {
                return Err(PqcError::OmegaOutOfRange { omega: o, maximum: (k as i64) * (N as i64) });
            }
            o
        },
        None => {
            let raw = (4i64 * k as i64 * N as i64 * t0_max) / gamma2 as i64;
            let hi = (k as i64) * (N as i64);
            let c = if raw < 8 {
                8
            } else if raw > hi {
                hi
            } else {
                raw
            };
            proof {
                if k <= 0xFF_FFFF {
                    assert(c <= 0xFF_FFFF * 256);
                }
            }
            c as u32
        },
    };
    let lambda: u32 = match ov.lambda {
        Some(lam) => {
            if lam == 0 {
                return Err(PqcError::LambdaZero);
            }
            lam
        },
        None => if tau < 16 {
            16
        } else if tau > 64 {
            64
        } else {
            tau
        },
    };
    Ok(GenericDsaParams { k, l, q, eta, gamma1, gamma2, tau, omega, lambda })
}

/// Whether a parameter set meets every condition of `dsa_params_valid`; for sets read back
/// from storage rather than built by `build_params`.
pub fn check_params_valid(p: &GenericDsaParams) -> (r: bool)
    ensures
        r == dsa_params_valid(*p),
{
    if !(5 <= p.q && p.q < 2_000_000_000) || !is_prime(p.q) || (p.q - 1) % 512 != 0 {
        return false;
    }
    if p.k < 1 || p.l < 1 || !(0 < p.gamma1 && p.gamma1 < p.q / 2) || !(1 <= p.tau && p.tau <= 256) || p.eta < 1 {
        return false;
    }
    let tau: u64 = p.tau as u64;
    let eta: u64 = p.eta as u64;
    proof {
        assert(tau * eta <= 256 * 0xffff_ffff) by (nonlinear_arith)
            requires
                tau <= 256,
                eta <= 0xffff_ffff,
        ;
    }
    let beta: u64 = tau * eta;
    if !(beta < p.gamma1 as u64) || p.gamma2 < 1 {
        return false;
    }
    if !(beta < p.gamma2 as u64 && p.gamma2 as i64 <= p.gamma1 as i64 - beta as i64) {
        return false;
    }
    if (p.q - 1) % (2 * p.gamma2) != 0 {
        return false;
    }
    let g2: i64 = p.gamma2 as i64;
    proof {
        assert(0 < g2 < 0x8000_0000);
        assert(g2 * g2 < 0x4000_0000_0000_0000) by (nonlinear_arith)
            requires
                0 < g2 < 0x8000_0000,
        ;
    }
    if g2 * g2 < 9 * (p.tau as i64) * 4096 * 4096 {
        return false;
    }
    p.omega >= 1 && (p.omega as u64) <= (p.k as u64) * 256 && p.lambda >= 1
}

} // verus!
