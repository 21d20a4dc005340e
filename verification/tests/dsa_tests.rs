use pqc_engines::dilithium::KeygenOverrides;
use pqc_engines::dsa::{keygen, keygen_with_overrides, sign, verify};
use pqc_engines::dsa_encode::{decode_shifted, encode_shifted, poly_vec_byte_len, T0_BITS, T0_SHIFT};
use pqc_engines::dsa_params::{build_params, DsaParamOverrides, GenericDsaParams};
use pqc_engines::dsa_rounding::{high_bits, make_hint, use_hint};
use pqc_engines::error::{Encoded, PqcError};
use pqc_engines::poly::{Poly, N};

fn small_params() -> GenericDsaParams {
    build_params(2, 2, 524_801, 131_072, &DsaParamOverrides::default()).unwrap()
}

fn roundtrip(params: &GenericDsaParams) {
    let kp = keygen(params).expect("keygen should succeed");
    let msg = b"P-KAIDO smoke test message";

    let sig = sign(params, &kp.sk_bytes, msg, false).expect("sign should succeed");
    assert!(verify(params, &kp.pk_bytes, msg, &sig).expect("verify should not error"), "genuine signature should verify");

    let tampered = b"P-KAIDO smoke test message!";
    assert!(
        !verify(params, &kp.pk_bytes, tampered, &sig).expect("verify should not error"),
        "tampered message should not verify"
    );

    let mut bad_sig = sig.clone();
    let last = bad_sig.len() - 1;
    bad_sig[last] ^= 0xFF;
    assert!(
        !verify(params, &kp.pk_bytes, msg, &bad_sig).expect("verify should not error"),
        "tampered signature should not verify"
    );
}

#[test]
fn roundtrip_custom_params_dilithium_shaped() {
    let params = build_params(4, 4, 8380417, 131072, &DsaParamOverrides::default()).unwrap();
    roundtrip(&params);
}

#[test]
fn roundtrip_custom_params_small_q() {
    let params = small_params();
    roundtrip(&params);
}

#[test]
fn same_seed_without_overrides_reproduces_normal_derivation() {
    let params = small_params();
    let seed = [7u8; 32];

    let a = keygen_with_overrides(&params, Some(seed), KeygenOverrides::default()).unwrap();
    let b = keygen_with_overrides(&params, Some(seed), KeygenOverrides::default()).unwrap();

    assert_eq!(a.rho, b.rho);
    assert_eq!(a.cap_k, b.cap_k);
    assert_eq!(a.rho_prime, b.rho_prime);
    assert_eq!(a.pk_bytes, b.pk_bytes, "same seed, no overrides, should be fully deterministic");
}

#[test]
fn rho_override_bypasses_derivation_from_seed() {
    let params = small_params();
    let seed = [7u8; 32];
    let faulty_rho = [0xAAu8; 32];

    let normal = keygen_with_overrides(&params, Some(seed), KeygenOverrides::default()).unwrap();
    let faulted =
        keygen_with_overrides(&params, Some(seed), KeygenOverrides { rho: Some(faulty_rho), ..Default::default() }).unwrap();

    assert_ne!(normal.rho, faulted.rho, "rho override should not match the normally-derived rho");
    assert_eq!(faulted.rho, faulty_rho, "rho override should be used verbatim");
    assert_eq!(normal.cap_k, faulted.cap_k);
    assert_eq!(normal.rho_prime, faulted.rho_prime);
    assert_ne!(
        normal.pk_bytes, faulted.pk_bytes,
        "a different rho means a different matrix A, hence a different public key"
    );
}

#[test]
fn faulted_keypair_is_still_internally_consistent() {
    let params = small_params();
    let kp = keygen_with_overrides(
        &params,
        Some([1u8; 32]),
        KeygenOverrides { rho: Some([0x42u8; 32]), cap_k: Some([0x43u8; 32]), rho_prime: Some([0x44u8; 64]) },
    )
    .unwrap();

    let msg = b"faulted keygen smoke test";
    let sig = sign(&params, &kp.sk_bytes, msg, false).expect("sign should still succeed with a faulted key");
    assert!(verify(&params, &kp.pk_bytes, msg, &sig).expect("verify should not error"));
}

#[test]
fn deterministic_signing_repeats_itself() {
    let params = small_params();
    let kp = keygen_with_overrides(&params, Some([3u8; 32]), KeygenOverrides::default()).unwrap();
    let a = sign(&params, &kp.sk_bytes, b"msg", true).unwrap();
    let b = sign(&params, &kp.sk_bytes, b"msg", true).unwrap();
    assert_eq!(a, b);
    let c = sign(&params, &kp.sk_bytes, b"other", true).unwrap();
    assert_ne!(a, c);
}

#[test]
fn sign_rejects_secret_key_of_wrong_length() {
    let params = small_params();
    let kp = keygen(&params).unwrap();
    let short = &kp.sk_bytes[..kp.sk_bytes.len() - 1];
    assert_eq!(
        sign(&params, short, b"m", true),
        Err(PqcError::WrongLength { what: Encoded::SecretKey, expected: kp.sk_bytes.len(), got: kp.sk_bytes.len() - 1 })
    );
}

#[test]
fn verify_rejects_encodings_of_wrong_length() {
    let params = small_params();
    let kp = keygen(&params).unwrap();
    let sig = sign(&params, &kp.sk_bytes, b"m", true).unwrap();
    assert_eq!(
        verify(&params, &kp.pk_bytes[1..], b"m", &sig),
        Err(PqcError::WrongLength { what: Encoded::PublicKey, expected: kp.pk_bytes.len(), got: kp.pk_bytes.len() - 1 })
    );
    assert_eq!(
        verify(&params, &kp.pk_bytes, b"m", &sig[1..]),
        Err(PqcError::WrongLength { what: Encoded::Signature, expected: sig.len(), got: sig.len() - 1 })
    );
}

#[test]
fn verify_reports_malformed_hint_section_invalid() {
    let params = small_params();
    let kp = keygen(&params).unwrap();
    let mut sig = sign(&params, &kp.sk_bytes, b"m", true).unwrap();
    let n = sig.len();
    // The running hint counts come last; a count above omega cannot be right.
    sig[n - 1] = 255;
    assert_eq!(verify(&params, &kp.pk_bytes, b"m", &sig), Ok(false));
}

#[test]
fn hint_pack_round_trip() {
    let k = 3;
    let omega = 10;
    let mut h: Vec<Vec<bool>> = vec![vec![false; N]; k];
    h[0][0] = true;
    h[0][10] = true;
    h[1][5] = true;
    let packed = pqc_engines::dsa_encode::hint_pack(&h, omega);
    assert_eq!(packed.len(), omega + k);
    let unpacked = pqc_engines::dsa_encode::hint_unpack(&packed, k, omega).unwrap();
    assert_eq!(h, unpacked);
}

#[test]
fn hint_unpack_rejects_wrong_length() {
    assert!(pqc_engines::dsa_encode::hint_unpack(&[0u8; 3], 3, 10).is_err());
}

#[test]
fn t0_encode_round_trips_full_range_including_edges() {
    for &edge in &[-4095i32, -1, 0, 1, 4095, 4096] {
        let mut p = Poly::zero();
        p.coeffs[0] = edge;
        let encoded = encode_shifted(&[p], T0_SHIFT, T0_BITS);
        assert_eq!(encoded.len(), poly_vec_byte_len(T0_BITS, 1), "edge={edge}");
        let decoded = decode_shifted(&encoded, T0_SHIFT, T0_BITS, 1);
        assert_eq!(decoded[0].coeffs[0], edge, "t0={edge} did not round-trip");
    }
}

#[test]
fn decompose_reconstructs_r() {
    let q = 8380417;
    let gamma2 = 130944;
    let alpha = 2 * gamma2;
    for r in [0, 1, q - 1, gamma2, q - gamma2, 12345678] {
        let (r1, r0) = pqc_engines::dsa_rounding::decompose(r, gamma2, q);
        let reconstructed = ((r1 as i64) * (alpha as i64) + r0 as i64).rem_euclid(q as i64);
        assert_eq!(reconstructed, (r as i64).rem_euclid(q as i64));
    }
}

#[test]
fn power2round_reconstructs_r_and_bounds_r0() {
    let q = 8380417;
    for r in [0, 1, q - 1, 4096, 8191, 8192, 8193, 4_000_000] {
        let (r1, r0) = pqc_engines::dsa_rounding::power2round(r, q);
        let reconstructed = ((r1 as i64) * (1i64 << 13) + r0 as i64).rem_euclid(q as i64);
        assert_eq!(reconstructed, (r as i64).rem_euclid(q as i64), "r={r}");
        assert!((-4096..=4096).contains(&r0), "r0={r0} out of range for r={r}");
    }
}

#[test]
fn use_hint_recovers_high_bits_of_perturbed_value() {
    let q = 8380417;
    let gamma2 = 130944;
    for (r, z) in [(55555, 50000), (55555, -50000), (200000, 129000), (q - 1, 60000)] {
        let h = make_hint(z, r, gamma2, q);
        let expected = high_bits(r + z, gamma2, q);
        assert_eq!(use_hint(h, r, gamma2, q), expected, "r={r} z={z}");
    }
}

fn spec_coeff_from_half_byte_eta2(b: u8) -> Option<i32> {
    if b >= 15 {
        return None;
    }
    let m = match b {
        b if b < 5 => b,
        b if b < 10 => b - 5,
        b => b - 10,
    };
    Some(if m <= 2 { 2 - m as i32 } else { -((m - 2) as i32) })
}

fn spec_coeff_from_half_byte_eta4(b: u8) -> Option<i32> {
    if b >= 9 {
        return None;
    }
    Some(if b <= 4 { 4 - b as i32 } else { -((b - 4) as i32) })
}

#[test]
fn coeff_from_half_byte_matches_spec_eta2() {
    for b in 0..16u8 {
        assert_eq!(pqc_engines::dsa_sample::coeff_from_half_byte(b, 2), spec_coeff_from_half_byte_eta2(b), "b={b}");
    }
}

#[test]
fn coeff_from_half_byte_matches_spec_eta4() {
    for b in 0..16u8 {
        assert_eq!(pqc_engines::dsa_sample::coeff_from_half_byte(b, 4), spec_coeff_from_half_byte_eta4(b), "b={b}");
    }
}


#[test]
fn verify_reports_misshapen_key_or_hint_invalid() {
    let params = small_params();
    let (sk, vk) = pqc_engines::dilithium::keygen(&params, [7u8; 32]).expect("keygen should succeed");
    let msg = b"shape check";
    let sig = pqc_engines::dilithium::sign_with_rnd(&params, &sk, msg, [0u8; 32]).expect("sign should succeed");
    assert_eq!(pqc_engines::dilithium::verify(&params, &vk, msg, &sig), Ok(true));
    let mut short_vk = pqc_engines::dilithium::VerifyingKey { rho: vk.rho, t1: vk.t1.clone() };
    short_vk.t1.pop();
    assert_eq!(pqc_engines::dilithium::verify(&params, &short_vk, msg, &sig), Ok(false));
    let mut bad_sig = pqc_engines::dilithium::Signature { c_tilde: sig.c_tilde.clone(), z: sig.z.clone(), h: sig.h.clone() };
    bad_sig.h[0].push(false);
    assert_eq!(pqc_engines::dilithium::verify(&params, &vk, msg, &bad_sig), Ok(false));
}
