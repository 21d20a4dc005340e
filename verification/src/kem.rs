//! KEM wrap around the fixed-degree K-PKE core: the shared secret is SHAKE256(m || ciphertext).
//! This is not FIPS 203's Fujisaki-Okamoto transform (no re-encryption check, no implicit
//! rejection); a genuine round trip agrees regardless.
use crate::bytes::{append_bytes, take32};
use crate::custom_kem_pke::derived_seed;
use crate::encode::is_packing_of;
use crate::error::PqcError;
use crate::params::{kem_knobs_ok, GenericKemParams, Q};
use crate::pke::{
    coeff_rows, decrypt, decrypt_mu_coeff, encrypt, encrypt_u_flat, encrypt_v_comp, keygen_t_coeff, matrix_ok,
    noise_rows, Ciphertext, PublicKey, SecretKey,
};
use crate::poly::{small_coeffs, N};
use crate::encode::compress_spec;
use crate::xof::{os_random_bytes, shake256, shake256_output};
use vstd::prelude::*;

verus! {

pub struct EncapsulationKey {
    pub pk: PublicKey,
}

pub struct DecapsulationKey {
    pub sk: SecretKey,
}

/// `(pk, sk)` is what keygen produces from `seed`.
pub open spec fn keys_from_seed(p: GenericKemParams, seed: Seq<u8>, pk: PublicKey, sk: SecretKey) -> bool {
    &&& pk.rho@ == derived_seed(seed, 0)
    &&& pk.t.len() == p.k && sk.s.len() == p.k
    &&& coeff_rows(sk.s@) == noise_rows(derived_seed(seed, 1), 0, p.k as int, p.eta1)
    &&& forall|i: int, c: int| 0 <= i < p.k && 0 <= c < N ==> #[trigger] pk.t@[i].coeffs@[c] == keygen_t_coeff(p, seed, i, c)
}

/// The shared secret for message `m` and ciphertext `(u, v)`: 32 bytes of SHAKE256(m || u || v).
pub open spec fn kem_kdf(m: Seq<u8>, u: Seq<u8>, v: Seq<u8>) -> Seq<u8> {
    shake256_output(m + u + v, 32)
}

/// Law: the shared secret hashes the message followed by both parts of the ciphertext.
pub proof fn lemma_kem_secret_hashes_ciphertext(m: Seq<u8>, u: Seq<u8>, v: Seq<u8>)
    ensures
        kem_kdf(m, u, v) == shake256_output(m + u + v, 32),
{
}

fn kdf(m: &[u8; 32], ct: &Ciphertext) -> (out: [u8; 32])
    ensures
        out@ == kem_kdf(m@, ct.u_bytes@, ct.v_bytes@),
        out@ == shake256_output(m@ + ct.u_bytes@ + ct.v_bytes@, 32),
{
    let mut input: Vec<u8> = Vec::new();
    append_bytes(&mut input, m);
    append_bytes(&mut input, ct.u_bytes.as_slice());
    append_bytes(&mut input, ct.v_bytes.as_slice());
    let v = shake256(input.as_slice(), 32);
    let out = take32(v.as_slice(), 0);
    proof {
        assert(out@ =~= v@);
    }
    out
}

/// Generates a key pair from a fresh OS-random seed: the keys are keygen's on some 32-byte seed.
pub fn kem_keygen(params: &GenericKemParams) -> (r: Result<(DecapsulationKey, EncapsulationKey), PqcError>)
    requires
        kem_knobs_ok(*params),
    ensures
        r matches Ok((dk, ek)) ==> exists|seed: Seq<u8>| seed.len() == 32 && keys_from_seed(*params, seed, ek.pk, dk.sk),
        r matches Ok((dk, ek)) ==> (forall|t: int| 0 <= t < ek.pk.t.len() ==> small_coeffs(#[trigger] ek.pk.t@[t]))
            && (forall|t: int| 0 <= t < dk.sk.s.len() ==> small_coeffs(#[trigger] dk.sk.s@[t])),
        r matches Err(e) ==> e == PqcError::RandomSourceFailed || e == PqcError::XofBudgetExhausted,
{
    let seed_v = match os_random_bytes(32) {
        Some(v) => v,
        None => return Err(PqcError::RandomSourceFailed),
    };
    let seed = take32(seed_v.as_slice(), 0);
    let (pk, sk) = match crate::pke::keygen(params, seed) {
        Ok(v) => v,
        Err(e) => return Err(e),
    };
    proof {
        assert(keys_from_seed(*params, seed@, pk, sk));
        assert(seed@.len() == 32);
        assert forall|t: int| 0 <= t < pk.t.len() implies small_coeffs(#[trigger] pk.t@[t]) by {
            assert(crate::poly::reduced_coeffs(pk.t@[t], Q as int));
        }
        assert forall|t: int| 0 <= t < sk.s.len() implies small_coeffs(#[trigger] sk.s@[t]) by {
            assert(crate::poly::reduced_coeffs(sk.s@[t], Q as int));
        }
    }
    Ok((DecapsulationKey { sk }, EncapsulationKey { pk }))
}

/// `ct` is the encryption of `m` to `pk` with `coins`.
pub open spec fn encryption_of(p: GenericKemParams, pk: PublicKey, m: Seq<u8>, coins: Seq<u8>, ct: Ciphertext) -> bool {
    &&& is_packing_of(ct.u_bytes@, encrypt_u_flat(p, pk.rho@, coins), p.du as nat)
    &&& is_packing_of(ct.v_bytes@, encrypt_v_comp(p, coeff_rows(pk.t@), m, coins), p.dv as nat)
}

/// Encapsulates to `ek` with a chosen message and coins.
pub fn kem_encapsulate_with(params: &GenericKemParams, ek: &EncapsulationKey, m: &[u8; 32], coins: &[u8; 32]) -> (r: Result<(Ciphertext, [u8; 32]), PqcError>)
    requires
        kem_knobs_ok(*params),
        forall|t: int| 0 <= t < ek.pk.t.len() ==> small_coeffs(#[trigger] ek.pk.t@[t]),
    ensures
        r is Ok <==> matrix_ok(ek.pk.rho@, params.k as int),
        r is Err ==> r == Err::<(Ciphertext, [u8; 32]), PqcError>(PqcError::XofBudgetExhausted),
        r matches Ok((ct, ss)) ==> encryption_of(*params, ek.pk, m@, coins@, ct) && ss@ == kem_kdf(m@, ct.u_bytes@, ct.v_bytes@),
        r matches Ok((ct, ss)) ==> ss@ == shake256_output(m@ + ct.u_bytes@ + ct.v_bytes@, 32),
{
    let ct = match encrypt(params, &ek.pk, m, coins) {
        Ok(c) => c,
        Err(e) => return Err(e),
    };
    let ss = kdf(m, &ct);
    Ok((ct, ss))
}

/// Encapsulates to `ek` with a fresh OS-random message and coins.
pub fn kem_encapsulate(params: &GenericKemParams, ek: &EncapsulationKey) -> (r: Result<(Ciphertext, [u8; 32]), PqcError>)
    requires
        kem_knobs_ok(*params),
        forall|t: int| 0 <= t < ek.pk.t.len() ==> small_coeffs(#[trigger] ek.pk.t@[t]),
    ensures
        r matches Ok((ct, ss)) ==> exists|m: Seq<u8>, coins: Seq<u8>|
            m.len() == 32 && coins.len() == 32 && encryption_of(*params, ek.pk, m, coins, ct) && ss@ == kem_kdf(
                m,
                ct.u_bytes@,
                ct.v_bytes@,
            ) && ss@ == shake256_output(m + ct.u_bytes@ + ct.v_bytes@, 32),
        r matches Err(e) ==> e == PqcError::RandomSourceFailed || e == PqcError::XofBudgetExhausted,
{
    let m_v = match os_random_bytes(32) {
        Some(v) => v,
        None => return Err(PqcError::RandomSourceFailed),
    };
    let coins_v = match os_random_bytes(32) {
        Some(v) => v,
        None => return Err(PqcError::RandomSourceFailed),
    };
    let m = take32(m_v.as_slice(), 0);
    let coins = take32(coins_v.as_slice(), 0);
    let r = kem_encapsulate_with(params, ek, &m, &coins);
    proof {
        if r is Ok {
            assert(encryption_of(*params, ek.pk, m@, coins@, r->Ok_0.0));
        }
    }
    r
}

/// Decapsulates `ct` with `dk`: decrypts the message and hashes it with the ciphertext.
pub fn kem_decapsulate(params: &GenericKemParams, dk: &DecapsulationKey, ct: &Ciphertext) -> (ss: [u8; 32])
    requires
        kem_knobs_ok(*params),
        forall|t: int| 0 <= t < dk.sk.s.len() ==> small_coeffs(#[trigger] dk.sk.s@[t]),
        params.du * (params.k * N) <= 8 * ct.u_bytes.len(),
        8 * ct.u_bytes.len() <= usize::MAX,
        params.dv * N <= 8 * ct.v_bytes.len(),
        8 * ct.v_bytes.len() <= usize::MAX,
    ensures
        exists|m: Seq<u8>|
            is_packing_of(
                m,
                Seq::new(N as nat, |c: int| compress_spec(decrypt_mu_coeff(*params, coeff_rows(dk.sk.s@), ct.u_bytes@, ct.v_bytes@, c), 1, Q as int) as i32),
                1,
            ) && ss@ == kem_kdf(m, ct.u_bytes@, ct.v_bytes@) && ss@ == shake256_output(m + ct.u_bytes@ + ct.v_bytes@, 32),
{
    let m = decrypt(params, &dk.sk, ct);
    kdf(&m, ct)
}

} // verus!
