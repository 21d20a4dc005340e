//! The byte-level ML-DSA API over a `GenericDsaParams`: keys and signatures travel as their
//! FIPS 204 encodings (pkEncode, skEncode, sigEncode).
use crate::dilithium::{
    dsa_ready, hint_rows, keygen_ok, kg_cap_k, kg_rho, kg_rho_prime, kg_s1, kg_s2, kg_t, kg_tr, pk_bytes_spec,
    sign_result, verify_result, vp2r0, vp2r1, KeygenOverrides, Signature, SigningKey, VerifyingKey,
};
use crate::dsa_encode::{
    decode_pk, decode_sig, decode_sk, decodes_polys, encode_pk, encode_sig, encode_sk, eta_bits_spec, hint_listed,
    hint_row_ok, hint_unpack_error, pk_layout, pk_len_spec, poly_vec_len_spec, sig_layout, sig_len_spec, sk_layout,
    sk_len_spec, t1_bits_spec, z_bits_spec,
};
use crate::dsa_params::GenericDsaParams;
use crate::encode::decoded_field;
use crate::error::{Encoded, PqcError};
use crate::pke::coeff_rows;
use crate::poly::{Poly, N};
use vstd::prelude::*;

verus! {

pub struct KeyPair {
    pub sk_bytes: Vec<u8>,
    pub pk_bytes: Vec<u8>,
}

/// The encoded keypair together with every seed keygen used, derived or overridden. Field
/// names follow FIPS 204: `xi` is the master seed, `(rho, rho_prime, cap_k) = H(xi || k || l)`.
pub struct KeyPairWithSeeds {
    pub sk_bytes: Vec<u8>,
    pub pk_bytes: Vec<u8>,
    pub xi: [u8; 32],
    pub rho: [u8; 32],
    pub cap_k: [u8; 32],
    pub rho_prime: [u8; 64],
}

/// The coefficient rows that `decodes_polys` describes.
pub open spec fn decoded_rows(bytes: Seq<u8>, bits: nat, count: nat, shift: Option<i32>) -> Seq<Seq<i32>> {
    Seq::new(
        count,
        |t: int|
            Seq::new(
                N as nat,
                |i: int|
                    match shift {
                        None => decoded_field(bytes, bits, t * N + i),
                        Some(b) => (b - decoded_field(bytes, bits, t * N + i)) as i32,
                    },
            ),
    )
}

proof fn lemma_decoded_rows(out: Seq<Poly>, bytes: Seq<u8>, bits: nat, count: nat, shift: Option<i32>)
    requires
        decodes_polys(out, bytes, bits, count, shift),
    ensures
        coeff_rows(out) == decoded_rows(bytes, bits, count, shift),
{
    assert forall|t: int| 0 <= t < count implies #[trigger] coeff_rows(out)[t] == decoded_rows(bytes, bits, count, shift)[t] by {
        assert(coeff_rows(out)[t] =~= decoded_rows(bytes, bits, count, shift)[t]);
    }
    assert(coeff_rows(out) =~= decoded_rows(bytes, bits, count, shift));
}

/// The hint rows HintBitUnpack reads from `tail`.
pub open spec fn decoded_hint(tail: Seq<u8>, omega: int, k: int) -> Seq<Seq<bool>> {
    Seq::new(k as nat, |i: int| Seq::new(N as nat, |j: int| hint_listed(tail, omega, i, j)))
}

/// The fields of an encoded secret key of the right length, as `(rho, K, tr, s1, s2, t0)`.
pub open spec fn sk_fields(sk: Seq<u8>, p: GenericDsaParams) -> (Seq<u8>, Seq<u8>, Seq<u8>, Seq<Seq<i32>>, Seq<Seq<i32>>, Seq<Seq<i32>>) {
    let eb = eta_bits_spec(p.eta as int);
    let l1 = poly_vec_len_spec(eb, p.l as nat);
    let l2 = poly_vec_len_spec(eb, p.k as nat);
    (
        sk.subrange(0, 32),
        sk.subrange(32, 64),
        sk.subrange(64, 128),
        decoded_rows(sk.subrange(128, 128 + l1), eb, p.l as nat, Some(p.eta as i32)),
        decoded_rows(sk.subrange(128 + l1, 128 + l1 + l2), eb, p.k as nat, Some(p.eta as i32)),
        decoded_rows(sk.subrange(128 + l1 + l2, sk.len() as int), 13, p.k as nat, Some(4096)),
    )
}

/// The signing outcome for an encoded secret key.
pub open spec fn sign_bytes_outcome(p: GenericDsaParams, sk: Seq<u8>, msg: Seq<u8>, rnd: Seq<u8>) -> Result<
    (Seq<u8>, Seq<Seq<i32>>, Seq<Seq<bool>>),
    PqcError,
> {
    let f = sk_fields(sk, p);
    sign_result(p, f.0, f.1, f.2, f.3, f.4, f.5, msg, rnd)
}

/// `b` is sigEncode of `(c_tilde, z, h)`.
pub open spec fn encodes_sig(b: Seq<u8>, c_tilde: Seq<u8>, z: Seq<Seq<i32>>, h: Seq<Seq<bool>>, p: GenericDsaParams) -> bool {
    exists|zp: Seq<Poly>, hv: Seq<Vec<bool>>| coeff_rows(zp) == z && hint_rows(hv) == h && #[trigger] sig_layout(b, c_tilde, zp, hv, p)
}

/// `r` is the encoding of the signature `outcome` describes, or the same error.
pub open spec fn signed_bytes(
    r: Result<Vec<u8>, PqcError>,
    outcome: Result<(Seq<u8>, Seq<Seq<i32>>, Seq<Seq<bool>>), PqcError>,
    p: GenericDsaParams,
) -> bool {
    match outcome {
        Ok((ct, z, h)) => r matches Ok(b) && encodes_sig(b@, ct, z, h, p),
        Err(e) => r == Err::<Vec<u8>, PqcError>(e),
    }
}

/// `sk` and `pk` are skEncode and pkEncode of the keys derived from `xi` under `ov`.
pub open spec fn keypair_bytes_ok(sk: Seq<u8>, pk: Seq<u8>, xi: Seq<u8>, p: GenericDsaParams, ov: KeygenOverrides) -> bool {
    let t = kg_t(xi, p, ov);
    &&& pk == pk_bytes_spec(kg_rho(xi, p, ov), vp2r1(t, p.q as int), p)
    &&& exists|s1: Seq<Poly>, s2: Seq<Poly>, t0: Seq<Poly>|
        coeff_rows(s1) == kg_s1(xi, p, ov) && coeff_rows(s2) == kg_s2(xi, p, ov) && coeff_rows(t0) == vp2r0(t, p.q as int)
            && #[trigger] sk_layout(sk, kg_rho(xi, p, ov), kg_cap_k(xi, p, ov), kg_tr(xi, p, ov), s1, s2, t0, p)
}

/// What keygen from the master seed `xi` gives.
pub open spec fn keygen_outcome(r: Result<KeyPairWithSeeds, PqcError>, xi: Seq<u8>, p: GenericDsaParams, ov: KeygenOverrides) -> bool {
    &&& !keygen_ok(xi, p, ov) ==> r == Err::<KeyPairWithSeeds, PqcError>(PqcError::XofBudgetExhausted)
    &&& keygen_ok(xi, p, ov) ==> (r matches Ok(kp) && {
        &&& kp.xi@ == xi
        &&& kp.rho@ == kg_rho(xi, p, ov)
        &&& kp.cap_k@ == kg_cap_k(xi, p, ov)
        &&& kp.rho_prime@ == kg_rho_prime(xi, p, ov)
        &&& keypair_bytes_ok(kp.sk_bytes@, kp.pk_bytes@, xi, p, ov)
    })
}

pub open spec fn no_overrides() -> KeygenOverrides {
    KeygenOverrides { rho: None, cap_k: None, rho_prime: None }
}

/// Keygen from `xi`, or from 32 bytes of the operating system's randomness when `xi` is
/// `None`; any of `rho`, `rho'`, `K` may be replaced through `overrides`.
pub fn keygen_with_overrides(params: &GenericDsaParams, xi: Option<[u8; 32]>, overrides: KeygenOverrides) -> (r: Result<
    KeyPairWithSeeds,
    PqcError,
>)
    requires
        dsa_ready(*params),
    ensures
        xi matches Some(x) ==> keygen_outcome(r, x@, *params, overrides),
        xi is None ==> r == Err::<KeyPairWithSeeds, PqcError>(PqcError::RandomSourceFailed) || exists|x: Seq<u8>|
            x.len() == 32 && #[trigger] keygen_outcome(r, x, *params, overrides),
{
    let seed: [u8; 32] = match xi {
        Some(x) => x,
        None => match crate::xof::os_random_bytes(32) {
            Some(v) => crate::bytes::take32(v.as_slice(), 0),
            None => return Err(PqcError::RandomSourceFailed),
        },
    };
    let ghost p = *params;
    let (sk, vk, seeds) = match crate::dilithium::keygen_with_overrides(params, seed, &overrides) {
        Ok(x) => x,
        Err(e) => {
            proof {
                assert(seed@.len() == 32);
                assert(keygen_outcome(Err::<KeyPairWithSeeds, PqcError>(e), seed@, p, overrides));
            }
            return Err(e);
        },
    };
    let sk_bytes = encode_sk(&sk.rho, &sk.cap_k, &sk.tr, sk.s1.as_slice(), sk.s2.as_slice(), sk.t0.as_slice(), params);
    let pk_bytes = encode_pk(&vk.rho, vk.t1.as_slice(), params);
    proof {
        crate::dilithium::lemma_pk_bytes(pk_bytes@, vk.rho@, vk.t1@, p);
        assert(sk_layout(sk_bytes@, sk.rho@, sk.cap_k@, sk.tr@, sk.s1@, sk.s2@, sk.t0@, p));
        assert(seed@.len() == 32);
    }
    let res = Ok(KeyPairWithSeeds { sk_bytes, pk_bytes, xi: seed, rho: seeds.rho, cap_k: seeds.cap_k, rho_prime: seeds.rho_prime });
    proof {
        assert(keygen_outcome(res, seed@, p, overrides));
    }
    res
}

/// What keygen without overrides from the master seed `xi` gives.
pub open spec fn pair_outcome(r: Result<KeyPair, PqcError>, xi: Seq<u8>, p: GenericDsaParams) -> bool {
    &&& !keygen_ok(xi, p, no_overrides()) ==> r == Err::<KeyPair, PqcError>(PqcError::XofBudgetExhausted)
    &&& keygen_ok(xi, p, no_overrides()) ==> (r matches Ok(kp) && keypair_bytes_ok(kp.sk_bytes@, kp.pk_bytes@, xi, p, no_overrides()))
}

/// Keygen from fresh randomness, with no overrides.
pub fn keygen(params: &GenericDsaParams) -> (r: Result<KeyPair, PqcError>)
    requires
        dsa_ready(*params),
    ensures
        r == Err::<KeyPair, PqcError>(PqcError::RandomSourceFailed) || exists|x: Seq<u8>|
            x.len() == 32 && #[trigger] pair_outcome(r, x, *params),
{
    let ov = KeygenOverrides { rho: None, cap_k: None, rho_prime: None };
    let r = keygen_with_overrides(params, None, ov);
    match r {
        Ok(kp) => {
            let ghost x = choose|x: Seq<u8>| x.len() == 32 && #[trigger] keygen_outcome(r, x, *params, ov);
            proof {
                assert(keygen_outcome(r, x, *params, ov));
                assert(keygen_ok(x, *params, no_overrides()));
                assert(keypair_bytes_ok(kp.sk_bytes@, kp.pk_bytes@, x, *params, no_overrides()));
                assert(pair_outcome(Ok::<KeyPair, PqcError>(KeyPair { sk_bytes: kp.sk_bytes, pk_bytes: kp.pk_bytes }), x, *params));
            }
            Ok(KeyPair { sk_bytes: kp.sk_bytes, pk_bytes: kp.pk_bytes })
        },
        Err(e) => {
            proof {
                if e != PqcError::RandomSourceFailed {
                    let x = choose|x: Seq<u8>| x.len() == 32 && #[trigger] keygen_outcome(r, x, *params, ov);
                    assert(keygen_outcome(r, x, *params, ov));
                    assert(!keygen_ok(x, *params, no_overrides()));
                    assert(pair_outcome(Err::<KeyPair, PqcError>(e), x, *params));
                }
            }
            Err(e)
        },
    }
}

/// Signs `message` with an encoded secret key and returns sigEncode of the signature;
/// `deterministic` selects `rnd = 0` over fresh randomness.
pub fn sign(params: &GenericDsaParams, sk_bytes: &[u8], message: &[u8], deterministic: bool) -> (r: Result<Vec<u8>, PqcError>)
    requires
        dsa_ready(*params),
    ensures
        sk_bytes.len() != sk_len_spec(*params) ==> r == Err::<Vec<u8>, PqcError>(
            PqcError::WrongLength { what: Encoded::SecretKey, expected: sk_len_spec(*params) as usize, got: sk_bytes.len() },
        ),
        sk_bytes.len() == sk_len_spec(*params) && deterministic ==> signed_bytes(
            r,
            sign_bytes_outcome(*params, sk_bytes@, message@, Seq::new(32, |i: int| 0u8)),
            *params,
        ),
        sk_bytes.len() == sk_len_spec(*params) && !deterministic ==> r == Err::<Vec<u8>, PqcError>(PqcError::RandomSourceFailed)
            || exists|rnd: Seq<u8>| rnd.len() == 32 && #[trigger] signed_bytes(r, sign_bytes_outcome(*params, sk_bytes@, message@, rnd), *params),
{
    let ghost p = *params;
    let d = match decode_sk(sk_bytes, params) {
        Ok(d) => d,
        Err(e) => return Err(e),
    };
    proof {
        let eb = eta_bits_spec(p.eta as int);
        let l1 = poly_vec_len_spec(eb, p.l as nat);
        let l2 = poly_vec_len_spec(eb, p.k as nat);
        lemma_decoded_rows(d.s1@, sk_bytes@.subrange(128, 128 + l1), eb, p.l as nat, Some(p.eta as i32));
        lemma_decoded_rows(d.s2@, sk_bytes@.subrange(128 + l1, 128 + l1 + l2), eb, p.k as nat, Some(p.eta as i32));
        lemma_decoded_rows(d.t0@, sk_bytes@.subrange(128 + l1 + l2, sk_bytes@.len() as int), 13, p.k as nat, Some(4096));
    }
    let sk = SigningKey { rho: d.rho, cap_k: d.cap_k, tr: d.tr, s1: d.s1, s2: d.s2, t0: d.t0 };
    let r = crate::dilithium::sign(params, &sk, message, deterministic);
    match r {
        Ok(sig) => {
            let out = encode_sig(sig.c_tilde.as_slice(), sig.z.as_slice(), &sig.h, params);
            proof {
                assert(sig_layout(out@, sig.c_tilde@, sig.z@, sig.h@, p));
                if !deterministic {
                    let rnd = choose|rnd: Seq<u8>| rnd.len() == 32 && #[trigger] crate::dilithium::signed_as(
                        r,
                        sign_result(p, sk.rho@, sk.cap_k@, sk.tr@, coeff_rows(sk.s1@), coeff_rows(sk.s2@), coeff_rows(sk.t0@), message@, rnd),
                    );
                    assert(signed_bytes(Ok::<Vec<u8>, PqcError>(out), sign_bytes_outcome(p, sk_bytes@, message@, rnd), p));
                }
            }
            Ok(out)
        },
        Err(e) => {
            proof {
                if !deterministic && e != PqcError::RandomSourceFailed {
                    let rnd = choose|rnd: Seq<u8>| rnd.len() == 32 && #[trigger] crate::dilithium::signed_as(
                        r,
                        sign_result(p, sk.rho@, sk.cap_k@, sk.tr@, coeff_rows(sk.s1@), coeff_rows(sk.s2@), coeff_rows(sk.t0@), message@, rnd),
                    );
                    assert(signed_bytes(Err::<Vec<u8>, PqcError>(e), sign_bytes_outcome(p, sk_bytes@, message@, rnd), p));
                }
            }
            Err(e)
        },
    }
}

/// Verifies sigEncode bytes against pkEncode bytes. Encodings of the wrong length are errors;
/// a signature whose hint section does not unpack, or that does not check out, is `Ok(false)`.
pub fn verify(params: &GenericDsaParams, pk_bytes: &[u8], message: &[u8], sig_bytes: &[u8]) -> (r: Result<bool, PqcError>)
    requires
        dsa_ready(*params),
    ensures
        pk_bytes.len() != pk_len_spec(*params) ==> r == Err::<bool, PqcError>(
            PqcError::WrongLength { what: Encoded::PublicKey, expected: pk_len_spec(*params) as usize, got: pk_bytes.len() },
        ),
        pk_bytes.len() == pk_len_spec(*params) && sig_bytes.len() != sig_len_spec(*params) ==> r == Err::<bool, PqcError>(
            PqcError::WrongLength { what: Encoded::Signature, expected: sig_len_spec(*params) as usize, got: sig_bytes.len() },
        ),
        pk_bytes.len() == pk_len_spec(*params) && sig_bytes.len() == sig_len_spec(*params) ==> ({
            let p = *params;
            let lz = poly_vec_len_spec(z_bits_spec(p.gamma1 as int), p.l as nat);
            let tail = sig_bytes@.subrange(p.lambda + lz, sig_bytes.len() as int);
            &&& hint_unpack_error(tail, p.k as int, p.omega as int) is Some ==> r == Ok::<bool, PqcError>(false)
            &&& hint_unpack_error(tail, p.k as int, p.omega as int) is None ==> r == verify_result(
                p,
                pk_bytes@.subrange(0, 32),
                decoded_rows(pk_bytes@.subrange(32, pk_bytes.len() as int), t1_bits_spec(p.q as int), p.k as nat, None),
                message@,
                sig_bytes@.subrange(0, p.lambda as int),
                decoded_rows(sig_bytes@.subrange(p.lambda as int, p.lambda + lz), z_bits_spec(p.gamma1 as int), p.l as nat, Some(p.gamma1)),
                decoded_hint(tail, p.omega as int, p.k as int),
            )
        }),
{
    let ghost p = *params;
    let (rho, t1) = match decode_pk(pk_bytes, params) {
        Ok(x) => x,
        Err(e) => return Err(e),
    };
    let (c_tilde, z, h) = match decode_sig(sig_bytes, params) {
        Ok(x) => x,
        Err(e) => {
            return match e {
                PqcError::WrongLength { .. } => Err(e),
                _ => Ok(false),
            };
        },
    };
    proof {
        let lz = poly_vec_len_spec(z_bits_spec(p.gamma1 as int), p.l as nat);
        let tail = sig_bytes@.subrange(p.lambda + lz, sig_bytes.len() as int);
        lemma_decoded_rows(t1@, pk_bytes@.subrange(32, pk_bytes.len() as int), t1_bits_spec(p.q as int), p.k as nat, None);
        lemma_decoded_rows(z@, sig_bytes@.subrange(p.lambda as int, p.lambda + lz), z_bits_spec(p.gamma1 as int), p.l as nat, Some(p.gamma1));
        assert forall|i: int| 0 <= i < h.len() implies #[trigger] hint_rows(h@)[i] == decoded_hint(tail, p.omega as int, p.k as int)[i] by {
            assert(hint_row_ok(tail, p.omega as int, i, h@[i]@));
            assert(h@[i]@ =~= decoded_hint(tail, p.omega as int, p.k as int)[i]);
        }
        assert(hint_rows(h@) =~= decoded_hint(tail, p.omega as int, p.k as int));
        assert forall|t: int| 0 <= t < h.len() implies (#[trigger] h@[t])@.len() == N by {
            assert(hint_row_ok(tail, p.omega as int, t, h@[t]@));
        }
    }
    let vk = VerifyingKey { rho, t1 };
    let sig = Signature { c_tilde, z, h };
    crate::dilithium::verify(params, &vk, message, &sig)
}

} // verus!
