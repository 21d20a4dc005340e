//! Custom ML-KEM (Kyber-shaped) parameter derivation. The caller supplies k, n, q; this module
//! derives eta1/eta2/du/dv and validates that the whole tuple is NTT-suitable and structurally
//! sound. Every failure mode returns a specific error, never a silent clamp.
//!
//! The derivation reproduces ML-KEM-512/768/1024's published (eta1, du, dv) at n = 256 from
//! the shape `(q_bits, k * n)`; real ML-KEM's own q = 3329 is only 1 (mod n), not 1 (mod 2n),
//! so it does not pass this engine's full-split NTT check.
use crate::custom_kem_ntt::{build_table, no_root_below, ROOT_SEARCH_LIMIT};
use crate::dsa_params::{is_prime, is_prime_spec};
use crate::encode::bit_length;
use crate::error::PqcError;
use vstd::prelude::*;

verus! {

#[derive(Clone, Copy, Debug, PartialEq, Eq)]
pub struct GenericCustomKemParams {
    pub k: u32,
    pub n: usize,
    pub q: i32,
    pub eta1: u32,
    pub eta2: u32,
    pub du: u32,
    pub dv: u32,
}

pub open spec fn validate_n_spec(n: usize) -> Result<(), PqcError> {
    if !vstd::arithmetic::power2::is_pow2(n as int) {
        Err(PqcError::NotPowerOfTwo { n })
    } else if !(32 <= n <= 1024) {
        Err(PqcError::DegreeOutOfRange { n })
    } else {
        Ok(())
    }
}

/// The ring degree must be a power of two in `[32, 1024]`.
pub fn validate_n(n: usize) -> (r: Result<(), PqcError>)
    ensures
        r == validate_n_spec(n),
{
    if !crate::custom_kem_ntt::is_power_of_two(n) {
        return Err(PqcError::NotPowerOfTwo { n });
    }
    if !(32 <= n && n <= 1024) {
        return Err(PqcError::DegreeOutOfRange { n });
    }
    Ok(())
}

pub open spec fn validate_q_spec(q: i32, n: usize) -> Result<(), PqcError> {
    let two_n = 2 * n;
    if q < 5 {
        Err(PqcError::QTooSmall { q })
    } else if !is_prime_spec(q as int) {
        Err(PqcError::QNotPrime { q })
    } else if (q - 1) % (two_n as int) != 0 {
        Err(PqcError::QNotNttFriendly { q, two_n: two_n as i32, rem: ((q - 1) % (two_n as int)) as i32 })
    } else if q >= 2_000_000_000 {
        Err(PqcError::QTooLarge { q })
    } else {
        Ok(())
    }
}

/// q must be prime, NTT-suitable for `n` (q = 1 mod 2n), and below 2,000,000,000.
pub fn validate_q(q: i32, n: usize) -> (r: Result<(), PqcError>)
    requires
        1 <= n <= 0x3FFF_FFFF,
    ensures
        r == validate_q_spec(q, n),
{
    if q < 5 {
        return Err(PqcError::QTooSmall { q });
    }
    if !is_prime(q) {
        return Err(PqcError::QNotPrime { q });
    }
    let two_n = 2 * n as i32;
    if (q - 1) % two_n != 0 {
        return Err(PqcError::QNotNttFriendly { q, two_n, rem: (q - 1) % two_n });
    }
    if q >= 2_000_000_000 {
        return Err(PqcError::QTooLarge { q });
    }
    Ok(())
}

/// `e` is at most `max(1, round(64 / sqrt(d)))`: either 1, or `(e - 1/2) * sqrt(d) <= 64`.
pub open spec fn eta_fits(d: int, e: int) -> bool {
    e >= 1 && (e == 1 || d * (2 * e - 1) * (2 * e - 1) <= 16384)
}

/// `floor(log2(max(d, 512) / 512))`.
pub open spec fn size_scale(d: int) -> int {
    bit_length((if d < 512 {
        512
    } else {
        d
    }) as nat) - 10
}

pub open spec fn clamp(v: int, lo: int, hi: int) -> int {
    if v < lo {
        lo
    } else if v > hi {
        hi
    } else {
        v
    }
}

/// The compressed width `clamp(q_bits - margin, 1, q_bits - 1)`.
pub open spec fn compressed_bits(q_bits: int, margin: int) -> int {
    clamp(q_bits - margin, 1, q_bits - 1)
}

/// The derived parameters for a validated `(k, n, q)`: `eta1 = eta2` is the largest `e` with
/// `eta_fits(k * n, e)`, `du` keeps `clamp(2 - scale, 1, 2)` bits fewer than `q` needs and
/// `dv` keeps `clamp(8 - scale, 7, 8)` fewer.
pub open spec fn derived_params_ok(p: GenericCustomKemParams) -> bool {
    let d = p.k * p.n;
    let q_bits = bit_length((p.q - 1) as nat) as int;
    let scale = size_scale(d);
    &&& p.eta1 == p.eta2
    &&& eta_fits(d, p.eta1 as int)
    &&& !eta_fits(d, p.eta1 + 1)
    &&& p.du == compressed_bits(q_bits, clamp(2 - scale, 1, 2))
    &&& p.dv == compressed_bits(q_bits, clamp(8 - scale, 7, 8))
}

/// `bit_length` of a machine word, by halving.
fn bit_length_u64(v: u64) -> (r: u32)
    ensures
        r == bit_length(v as nat),
        r <= 64,
{
    let mut x = v;
    let mut r: u32 = 0;
    proof {
        vstd::arithmetic::power2::lemma2_to64();
        vstd::arithmetic::power2::lemma2_to64_rest();
        crate::encode::lemma_bit_length_le(v as nat, 64);
    }
    while x > 0
        invariant
            r + bit_length(x as nat) == bit_length(v as nat),
            bit_length(v as nat) <= 64,
        decreases x,
    {
        x = x / 2;
        r = r + 1;
    }
    r
}

/// Largest `e >= 1` with `eta_fits(d, e)`.
fn derive_eta(d: u64) -> (e: u32)
    requires
        32 <= d <= 0x400_0000_0000,
    ensures
        eta_fits(d as int, e as int),
        !eta_fits(d as int, e + 1),
{
    let mut e: u32 = 1;
    loop
        invariant
            32 <= d <= 0x400_0000_0000,
            1 <= e <= 64,
            eta_fits(d as int, e as int),
        ensures
            1 <= e <= 64,
            eta_fits(d as int, e as int),
            e >= 64 || d * (2 * e + 1) * (2 * e + 1) > 16384,
        decreases 64 - e,
    {
        if e >= 64 {
            break;
        }
        let w = (2 * e + 1) as u64;
        proof {
            assert(d * w <= 0x400_0000_0000 * 129) by (nonlinear_arith)
                requires
                    d <= 0x400_0000_0000,
                    w <= 129,
            ;
            assert(d * w * w <= 0x400_0000_0000 * 129 * 129) by (nonlinear_arith)
                requires
                    d <= 0x400_0000_0000,
                    w <= 129,
            ;
        }
        if d * w * w > 16384 {
            break;
        }
        e = e + 1;
    }
    proof {
        if e >= 64 {
            assert(d * (2 * e + 1) * (2 * e + 1) > 16384) by (nonlinear_arith)
                requires
                    d >= 32,
                    e >= 64,
            ;
        }
    }
    e
}

pub open spec fn build_params_spec_err(k: u32, n: usize, q: i32) -> Option<PqcError> {
    if validate_n_spec(n) is Err {
        Some(validate_n_spec(n)->Err_0)
    } else if validate_q_spec(q, n) is Err {
        Some(validate_q_spec(q, n)->Err_0)
    } else if k == 0 {
        Some(PqcError::KZero)
    } else if no_root_below(q as int, n as int, ROOT_SEARCH_LIMIT as int) {
        Some(PqcError::NoPrimitiveRoot { q: q as i64, two_n: (2 * n) as i64 })
    } else {
        None
    }
}

/// Validates `(k, n, q)` (in that order: degree, modulus, `k >= 1`, an actual primitive
/// `2n`-th root) and derives `eta1 = eta2`, `du`, `dv`.
pub fn build_params(k: u32, n: usize, q: i32) -> (r: Result<GenericCustomKemParams, PqcError>)
    ensures
        build_params_spec_err(k, n, q) matches Some(e) ==> r == Err::<GenericCustomKemParams, PqcError>(e),
        build_params_spec_err(k, n, q) is None ==> (r matches Ok(p) && p.k == k && p.n == n && p.q == q
            && derived_params_ok(p)),
{
    match validate_n(n) {
        Err(e) => return Err(e),
        Ok(()) => {},
    }
    match validate_q(q, n) {
        Err(e) => return Err(e),
        Ok(()) => {},
    }
    if k == 0 {
        return Err(PqcError::KZero);
    }
    match build_table(n, q) {
        Err(e) => return Err(e),
        Ok(_) => {},
    }
    proof {
        assert(32 <= k * n <= 0x400_0000_0000) by (nonlinear_arith)
            requires
                1 <= k <= 0xFFFF_FFFF,
                32 <= n <= 1024,
        ;
    }
    let d: u64 = k as u64 * n as u64;
    let eta = derive_eta(d);
    let q_bits = crate::encode::bits_for_q(q);
    let dd: u64 = if d < 512 {
        512
    } else {
        d
    };
    let scale: i64 = bit_length_u64(dd) as i64 - 10;
    let margin_du: i64 = if 2 - scale < 1 {
        1
    } else if 2 - scale > 2 {
        2
    } else {
        2 - scale
    };
    let margin_dv: i64 = if 8 - scale < 7 {
        7
    } else if 8 - scale > 8 {
        8
    } else {
        8 - scale
    };
    proof {
        crate::encode::lemma_bit_length_bounds((q - 1) as nat);
        vstd::arithmetic::power2::lemma2_to64();
        if q_bits < 3 {
            vstd::arithmetic::power2::lemma_pow2_strictly_increases(q_bits as nat, 2);
        }
    }
    let qb = q_bits as i64;
    let du: i64 = if qb - margin_du < 1 {
        1
    } else if qb - margin_du > qb - 1 {
        qb - 1
    } else {
        qb - margin_du
    };
    let dv: i64 = if qb - margin_dv < 1 {
        1
    } else if qb - margin_dv > qb - 1 {
        qb - 1
    } else {
        qb - margin_dv
    };
    Ok(GenericCustomKemParams { k, n, q, eta1: eta, eta2: eta, du: du as u32, dv: dv as u32 })
}

} // verus!
