use ml_dsa::signature::Signer;
use pqc_engines::error::{Encoded, Family, PqcError};
use pqc_engines::{ml_dsa_libcrux, ml_dsa_rustcrypto, ml_kem_libcrux, ml_kem_rustcrypto};

fn kem_rustcrypto_roundtrip(variant: ml_kem_rustcrypto::Variant) {
    let kp = ml_kem_rustcrypto::keygen(variant).unwrap();
    let enc = ml_kem_rustcrypto::encapsulate(variant, &kp.pk_bytes).expect("encapsulate should succeed");
    let recovered = ml_kem_rustcrypto::decapsulate(variant, &kp.sk_seed, &enc.ciphertext).expect("decapsulate should succeed");
    assert_eq!(enc.shared_secret, recovered);
}

fn kem_libcrux_roundtrip(variant: ml_kem_libcrux::Variant) {
    let kp = ml_kem_libcrux::keygen(variant).unwrap();
    let enc = ml_kem_libcrux::encapsulate(variant, &kp.pk_bytes).expect("encapsulate should succeed");
    let recovered = ml_kem_libcrux::decapsulate(variant, &kp.sk_seed, &enc.ciphertext).expect("decapsulate should succeed");
    assert_eq!(enc.shared_secret, recovered);
}

fn dsa_rustcrypto_roundtrip(variant: ml_dsa_rustcrypto::Variant) {
    let kp = ml_dsa_rustcrypto::keygen(variant).unwrap();
    let msg = b"P-KAIDO smoke test message";
    let sig = ml_dsa_rustcrypto::sign(variant, &kp.sk_seed, msg).expect("sign should succeed");
    assert!(ml_dsa_rustcrypto::verify(variant, &kp.pk_bytes, msg, &sig).expect("verify should not error"));
    let tampered = b"P-KAIDO smoke test message!";
    assert!(!ml_dsa_rustcrypto::verify(variant, &kp.pk_bytes, tampered, &sig).expect("verify should not error"));
}

fn dsa_libcrux_roundtrip(variant: ml_dsa_libcrux::Variant) {
    let kp = ml_dsa_libcrux::keygen(variant).unwrap();
    let msg = b"P-KAIDO smoke test message";
    let sig = ml_dsa_libcrux::sign(variant, &kp.sk_seed, msg).expect("sign should succeed");
    assert!(ml_dsa_libcrux::verify(variant, &kp.pk_bytes, msg, &sig).expect("verify should not error"));
    let tampered = b"P-KAIDO smoke test message!";
    assert!(!ml_dsa_libcrux::verify(variant, &kp.pk_bytes, tampered, &sig).expect("verify should not error"));
}

#[test]
fn lib_roundtrip_all_variants() {
    kem_rustcrypto_roundtrip(ml_kem_rustcrypto::Variant::MlKem512);
    kem_rustcrypto_roundtrip(ml_kem_rustcrypto::Variant::MlKem768);
    kem_rustcrypto_roundtrip(ml_kem_rustcrypto::Variant::MlKem1024);
    kem_libcrux_roundtrip(ml_kem_libcrux::Variant::MlKem512);
    kem_libcrux_roundtrip(ml_kem_libcrux::Variant::MlKem768);
    kem_libcrux_roundtrip(ml_kem_libcrux::Variant::MlKem1024);
    dsa_rustcrypto_roundtrip(ml_dsa_rustcrypto::Variant::MlDsa44);
    dsa_rustcrypto_roundtrip(ml_dsa_rustcrypto::Variant::MlDsa65);
    dsa_rustcrypto_roundtrip(ml_dsa_rustcrypto::Variant::MlDsa87);
    dsa_libcrux_roundtrip(ml_dsa_libcrux::Variant::MlDsa44);
    dsa_libcrux_roundtrip(ml_dsa_libcrux::Variant::MlDsa65);
    dsa_libcrux_roundtrip(ml_dsa_libcrux::Variant::MlDsa87);
}

#[test]
fn variant_names_round_trip() {
    for v in [ml_kem_rustcrypto::Variant::MlKem512, ml_kem_rustcrypto::Variant::MlKem768, ml_kem_rustcrypto::Variant::MlKem1024] {
        assert_eq!(ml_kem_rustcrypto::Variant::parse(v.as_str()), Ok(v));
    }
    for v in [ml_kem_libcrux::Variant::MlKem512, ml_kem_libcrux::Variant::MlKem768, ml_kem_libcrux::Variant::MlKem1024] {
        assert_eq!(ml_kem_libcrux::Variant::parse(v.as_str()), Ok(v));
    }
    for v in [ml_dsa_rustcrypto::Variant::MlDsa44, ml_dsa_rustcrypto::Variant::MlDsa65, ml_dsa_rustcrypto::Variant::MlDsa87] {
        assert_eq!(ml_dsa_rustcrypto::Variant::parse(v.as_str()), Ok(v));
    }
    for v in [ml_dsa_libcrux::Variant::MlDsa44, ml_dsa_libcrux::Variant::MlDsa65, ml_dsa_libcrux::Variant::MlDsa87] {
        assert_eq!(ml_dsa_libcrux::Variant::parse(v.as_str()), Ok(v));
    }
    assert_eq!(ml_kem_rustcrypto::Variant::MlKem768.as_str(), "ml-kem-768");
    assert_eq!(ml_dsa_libcrux::Variant::MlDsa87.as_str(), "ml-dsa-87");
}

#[test]
fn unknown_variant_names_are_refused() {
    assert_eq!(
        ml_kem_rustcrypto::Variant::parse("ml-kem-2048"),
        Err(PqcError::UnknownVariant { family: Family::MlKem, given: "ml-kem-2048".to_string() })
    );
    assert_eq!(
        ml_dsa_rustcrypto::Variant::parse("ML-DSA-44"),
        Err(PqcError::UnknownVariant { family: Family::MlDsa, given: "ML-DSA-44".to_string() })
    );
}

#[test]
fn engine_inputs_of_wrong_length_are_refused() {
    let v = ml_kem_rustcrypto::Variant::MlKem512;
    assert!(matches!(ml_kem_rustcrypto::encapsulate(v, &[0u8; 10]), Err(PqcError::InvalidPublicKey { len: 10 })));
    assert_eq!(
        ml_kem_rustcrypto::decapsulate(v, &[0u8; 63], &[0u8; 768]),
        Err(PqcError::WrongLength { what: Encoded::SecretKey, expected: 64, got: 63 })
    );
    assert_eq!(
        ml_kem_rustcrypto::decapsulate(v, &[0u8; 64], &[0u8; 767]),
        Err(PqcError::WrongLength { what: Encoded::Ciphertext, expected: 768, got: 767 })
    );
    let lv = ml_kem_libcrux::Variant::MlKem768;
    assert!(matches!(ml_kem_libcrux::encapsulate(lv, &[0u8; 10]), Err(PqcError::InvalidPublicKey { len: 10 })));
    assert_eq!(
        ml_kem_libcrux::decapsulate(lv, &[0u8; 10], &[0u8; 1088]),
        Err(PqcError::WrongLength { what: Encoded::SecretKey, expected: 2400, got: 10 })
    );
    let dv = ml_dsa_rustcrypto::Variant::MlDsa44;
    assert_eq!(
        ml_dsa_rustcrypto::sign(dv, &[0u8; 31], b"m"),
        Err(PqcError::WrongLength { what: Encoded::SecretKey, expected: 32, got: 31 })
    );
    assert_eq!(
        ml_dsa_rustcrypto::verify(dv, &[0u8; 1312], b"m", &[0u8; 5]),
        Err(PqcError::WrongLength { what: Encoded::Signature, expected: 2420, got: 5 })
    );
    let lv = ml_dsa_libcrux::Variant::MlDsa65;
    assert_eq!(
        ml_dsa_libcrux::verify(lv, &[0u8; 7], b"m", &[0u8; 3309]),
        Err(PqcError::WrongLength { what: Encoded::PublicKey, expected: 1952, got: 7 })
    );
}

#[test]
fn engine_outputs_match_the_outside_crates() {
    // The same seed through the library and through the crate directly.
    let seed = [9u8; 32];
    let kp_sig = ml_dsa_rustcrypto::sign(ml_dsa_rustcrypto::Variant::MlDsa44, &seed, b"hello").unwrap();
    let sk = ml_dsa::SigningKey::<ml_dsa::MlDsa44>::from_seed(&ml_dsa::Seed::from(seed));
    let direct: ml_dsa::Signature<ml_dsa::MlDsa44> = sk.sign(b"hello");
    assert_eq!(kp_sig, direct.encode().to_vec());
    assert_ne!(kp_sig, seed.to_vec());

    let lc = libcrux_ml_dsa::ml_dsa_65::generate_key_pair(seed);
    let lc_sig = libcrux_ml_dsa::ml_dsa_65::sign(&lc.signing_key, b"hello", b"", [0u8; 32]).unwrap();
    assert_eq!(ml_dsa_libcrux::sign(ml_dsa_libcrux::Variant::MlDsa65, &seed, b"hello").unwrap(), lc_sig.as_slice().to_vec());

    let kem_seed = [5u8; 64];
    let lk = libcrux_ml_kem::mlkem512::generate_key_pair(kem_seed);
    let (ct, ss) = libcrux_ml_kem::mlkem512::encapsulate(lk.public_key(), [1u8; 32]);
    let recovered = ml_kem_libcrux::decapsulate(ml_kem_libcrux::Variant::MlKem512, lk.sk(), ct.as_slice()).unwrap();
    assert_eq!(recovered, ss.to_vec());
}
