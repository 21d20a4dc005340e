//! The three standardized ML-DSA sets (FIPS 204) on RustCrypto's `ml-dsa` crate. Secret keys
//! are kept as their 32-byte seed, the crate's preferred serialization; public keys and
//! signatures in their standard encodings.
use crate::bytes::{str_eq, take32};
use crate::error::{Encoded, Family, PqcError};
use crate::xof::os_random_bytes;
use ml_dsa::signature::{Keypair, Signer, Verifier};
use ml_dsa::{MlDsa44, MlDsa65, MlDsa87};
use vstd::prelude::*;

verus! {

#[derive(Clone, Copy, Debug, PartialEq, Eq, Structural)]
pub enum Variant {
    MlDsa44,
    MlDsa65,
    MlDsa87,
}

pub open spec fn variant_name(v: Variant) -> Seq<char> {
    match v {
        Variant::MlDsa44 => "ml-dsa-44"@,
        Variant::MlDsa65 => "ml-dsa-65"@,
        Variant::MlDsa87 => "ml-dsa-87"@,
    }
}

impl Variant {
    pub fn parse(s: &str) -> (r: Result<Variant, PqcError>)
        ensures
            (r matches Ok(v) && s@ == variant_name(v)) || (r matches Err(PqcError::UnknownVariant { family, given })
                && family == Family::MlDsa && given@ == s@ && s@ != variant_name(Variant::MlDsa44) && s@ != variant_name(Variant::MlDsa65) && s@ != variant_name(Variant::MlDsa87)),
    {
        proof {
            reveal_strlit("ml-dsa-44");
            reveal_strlit("ml-dsa-65");
            reveal_strlit("ml-dsa-87");
            assert("ml-dsa-44"@[7] != "ml-dsa-65"@[7]);
            assert("ml-dsa-44"@[7] != "ml-dsa-87"@[7]);
            assert("ml-dsa-65"@[7] != "ml-dsa-87"@[7]);
        }
        if str_eq(s, "ml-dsa-44") {
            Ok(Variant::MlDsa44)
        } else if str_eq(s, "ml-dsa-65") {
            Ok(Variant::MlDsa65)
        } else if str_eq(s, "ml-dsa-87") {
            Ok(Variant::MlDsa87)
        } else {
            Err(PqcError::UnknownVariant { family: Family::MlDsa, given: s.to_owned() })
        }
    }

    pub fn as_str(self) -> (s: &'static str)
        ensures
            s@ == variant_name(self),
    {
        match self {
            Variant::MlDsa44 => "ml-dsa-44",
            Variant::MlDsa65 => "ml-dsa-65",
            Variant::MlDsa87 => "ml-dsa-87",
        }
    }
}

/// Encoded verifying-key length.
pub open spec fn pk_len(v: Variant) -> nat {
    match v {
        Variant::MlDsa44 => 1312,
        Variant::MlDsa65 => 1952,
        Variant::MlDsa87 => 2592,
    }
}

/// Encoded signature length.
pub open spec fn sig_len(v: Variant) -> nat {
    match v {
        Variant::MlDsa44 => 2420,
        Variant::MlDsa65 => 3309,
        Variant::MlDsa87 => 4627,
    }
}

fn lens_exec(v: Variant) -> (r: (usize, usize))
    ensures
        r.0 == pk_len(v),
        r.1 == sig_len(v),
{
    match v {
        Variant::MlDsa44 => (1312, 2420),
        Variant::MlDsa65 => (1952, 3309),
        Variant::MlDsa87 => (2592, 4627),
    }
}

pub struct KeyPair {
    pub sk_seed: Vec<u8>,
    pub pk_bytes: Vec<u8>,
}

/// The encoded verifying key of `SigningKey::from_seed` (ML-DSA-44).
pub uninterp spec fn rc_ml_dsa_44_public_key(seed: Seq<u8>) -> Seq<u8>;

/// The encoded deterministic signature `Signer::try_sign` makes with the key of a seed, or
/// `None` when it returns an error (ML-DSA-44).
pub uninterp spec fn rc_ml_dsa_44_sign(seed: Seq<u8>, msg: Seq<u8>) -> Option<Seq<u8>>;

/// `Verifier::verify`'s verdict on an encoded key, message and encoded signature, or `None`
/// when the signature does not decode (ML-DSA-44).
pub uninterp spec fn rc_ml_dsa_44_verify(pk: Seq<u8>, msg: Seq<u8>, sig: Seq<u8>) -> Option<bool>;

/// The encoded verifying key of `SigningKey::from_seed` (ML-DSA-65).
pub uninterp spec fn rc_ml_dsa_65_public_key(seed: Seq<u8>) -> Seq<u8>;

/// The encoded deterministic signature `Signer::try_sign` makes with the key of a seed, or
/// `None` when it returns an error (ML-DSA-65).
pub uninterp spec fn rc_ml_dsa_65_sign(seed: Seq<u8>, msg: Seq<u8>) -> Option<Seq<u8>>;

/// `Verifier::verify`'s verdict on an encoded key, message and encoded signature, or `None`
/// when the signature does not decode (ML-DSA-65).
pub uninterp spec fn rc_ml_dsa_65_verify(pk: Seq<u8>, msg: Seq<u8>, sig: Seq<u8>) -> Option<bool>;

/// The encoded verifying key of `SigningKey::from_seed` (ML-DSA-87).
pub uninterp spec fn rc_ml_dsa_87_public_key(seed: Seq<u8>) -> Seq<u8>;

/// The encoded deterministic signature `Signer::try_sign` makes with the key of a seed, or
/// `None` when it returns an error (ML-DSA-87).
pub uninterp spec fn rc_ml_dsa_87_sign(seed: Seq<u8>, msg: Seq<u8>) -> Option<Seq<u8>>;

/// `Verifier::verify`'s verdict on an encoded key, message and encoded signature, or `None`
/// when the signature does not decode (ML-DSA-87).
pub uninterp spec fn rc_ml_dsa_87_verify(pk: Seq<u8>, msg: Seq<u8>, sig: Seq<u8>) -> Option<bool>;

pub open spec fn public_key_of(v: Variant, seed: Seq<u8>) -> Seq<u8> {
    match v {
        Variant::MlDsa44 => rc_ml_dsa_44_public_key(seed),
        Variant::MlDsa65 => rc_ml_dsa_65_public_key(seed),
        Variant::MlDsa87 => rc_ml_dsa_87_public_key(seed),
    }
}

pub open spec fn signature_of(v: Variant, seed: Seq<u8>, msg: Seq<u8>) -> Option<Seq<u8>> {
    match v {
        Variant::MlDsa44 => rc_ml_dsa_44_sign(seed, msg),
        Variant::MlDsa65 => rc_ml_dsa_65_sign(seed, msg),
        Variant::MlDsa87 => rc_ml_dsa_87_sign(seed, msg),
    }
}

pub open spec fn verdict_of(v: Variant, pk: Seq<u8>, msg: Seq<u8>, sig: Seq<u8>) -> Option<bool> {
    match v {
        Variant::MlDsa44 => rc_ml_dsa_44_verify(pk, msg, sig),
        Variant::MlDsa65 => rc_ml_dsa_65_verify(pk, msg, sig),
        Variant::MlDsa87 => rc_ml_dsa_87_verify(pk, msg, sig),
    }
}

/// `SigningKey::from_seed` for ML-DSA-44 (the crate's own reading of a stored 32-byte seed),
/// then the encoding of its verifying key: a function of the seed, 1312 bytes long.
#[verifier::external_body]
fn public_key_44(seed: &[u8; 32]) -> (pk: Vec<u8>)
    ensures
        pk@ == rc_ml_dsa_44_public_key(seed@),
        pk.len() == 1312,
{
    let sk = ml_dsa::SigningKey::<MlDsa44>::from_seed(&ml_dsa::Seed::from(*seed));
    sk.verifying_key().encode().to_vec()
}

/// `SigningKey::from_seed` for ML-DSA-44, then `Signer::try_sign` (the crate's deterministic
/// signing with an empty context) and the signature's encoding: a function of the seed and
/// message, 2420 bytes long, or `None` when `try_sign` returns an error (its signing loop runs
/// out of attempts).
#[verifier::external_body]
fn sign_44(seed: &[u8; 32], msg: &[u8]) -> (r: Option<Vec<u8>>)
    ensures
        r matches Some(sig) ==> rc_ml_dsa_44_sign(seed@, msg@) == Some(sig@) && sig.len() == 2420,
        r is None ==> rc_ml_dsa_44_sign(seed@, msg@) is None,
{
    let sk = ml_dsa::SigningKey::<MlDsa44>::from_seed(&ml_dsa::Seed::from(*seed));
    match sk.try_sign(msg) {
        Ok(sig) => Some(sig.encode().to_vec()),
        Err(_) => None,
    }
}

/// `VerifyingKey::decode` of a 1312-byte key and `Signature::decode` of a 2420-byte signature
/// (ML-DSA-44), then `Verifier::verify`: a function of the key, message and signature.
#[verifier::external_body]
fn verify_44(pk: &[u8], msg: &[u8], sig: &[u8]) -> (r: Option<bool>)
    requires
        pk.len() == 1312,
        sig.len() == 2420,
    ensures
        r == rc_ml_dsa_44_verify(pk@, msg@, sig@),
{
    let (ek, es) = match (ml_dsa::EncodedVerifyingKey::<MlDsa44>::try_from(pk), ml_dsa::EncodedSignature::<MlDsa44>::try_from(sig)) {
        (Ok(ek), Ok(es)) => (ek, es),
        _ => return None,
    };
    let vk = ml_dsa::VerifyingKey::<MlDsa44>::decode(&ek);
    let s = ml_dsa::Signature::<MlDsa44>::decode(&es)?;
    Some(vk.verify(msg, &s).is_ok())
}

/// `SigningKey::from_seed` for ML-DSA-65 (the crate's own reading of a stored 32-byte seed),
/// then the encoding of its verifying key: a function of the seed, 1952 bytes long.
#[verifier::external_body]
fn public_key_65(seed: &[u8; 32]) -> (pk: Vec<u8>)
    ensures
        pk@ == rc_ml_dsa_65_public_key(seed@),
        pk.len() == 1952,
{
    let sk = ml_dsa::SigningKey::<MlDsa65>::from_seed(&ml_dsa::Seed::from(*seed));
    sk.verifying_key().encode().to_vec()
}

/// `SigningKey::from_seed` for ML-DSA-65, then `Signer::try_sign` (the crate's deterministic
/// signing with an empty context) and the signature's encoding: a function of the seed and
/// message, 3309 bytes long, or `None` when `try_sign` returns an error (its signing loop runs
/// out of attempts).
#[verifier::external_body]
fn sign_65(seed: &[u8; 32], msg: &[u8]) -> (r: Option<Vec<u8>>)
    ensures
        r matches Some(sig) ==> rc_ml_dsa_65_sign(seed@, msg@) == Some(sig@) && sig.len() == 3309,
        r is None ==> rc_ml_dsa_65_sign(seed@, msg@) is None,
{
    let sk = ml_dsa::SigningKey::<MlDsa65>::from_seed(&ml_dsa::Seed::from(*seed));
    match sk.try_sign(msg) {
        Ok(sig) => Some(sig.encode().to_vec()),
        Err(_) => None,
    }
}

/// `VerifyingKey::decode` of a 1952-byte key and `Signature::decode` of a 3309-byte signature
/// (ML-DSA-65), then `Verifier::verify`: a function of the key, message and signature.
#[verifier::external_body]
fn verify_65(pk: &[u8], msg: &[u8], sig: &[u8]) -> (r: Option<bool>)
    requires
        pk.len() == 1952,
        sig.len() == 3309,
    ensures
        r == rc_ml_dsa_65_verify(pk@, msg@, sig@),
{
    let (ek, es) = match (ml_dsa::EncodedVerifyingKey::<MlDsa65>::try_from(pk), ml_dsa::EncodedSignature::<MlDsa65>::try_from(sig)) {
        (Ok(ek), Ok(es)) => (ek, es),
        _ => return None,
    };
    let vk = ml_dsa::VerifyingKey::<MlDsa65>::decode(&ek);
    let s = ml_dsa::Signature::<MlDsa65>::decode(&es)?;
    Some(vk.verify(msg, &s).is_ok())
}

/// `SigningKey::from_seed` for ML-DSA-87 (the crate's own reading of a stored 32-byte seed),
/// then the encoding of its verifying key: a function of the seed, 2592 bytes long.
#[verifier::external_body]
fn public_key_87(seed: &[u8; 32]) -> (pk: Vec<u8>)
    ensures
        pk@ == rc_ml_dsa_87_public_key(seed@),
        pk.len() == 2592,
{
    let sk = ml_dsa::SigningKey::<MlDsa87>::from_seed(&ml_dsa::Seed::from(*seed));
    sk.verifying_key().encode().to_vec()
}

/// `SigningKey::from_seed` for ML-DSA-87, then `Signer::try_sign` (the crate's deterministic
/// signing with an empty context) and the signature's encoding: a function of the seed and
/// message, 4627 bytes long, or `None` when `try_sign` returns an error (its signing loop runs
/// out of attempts).
#[verifier::external_body]
fn sign_87(seed: &[u8; 32], msg: &[u8]) -> (r: Option<Vec<u8>>)
    ensures
        r matches Some(sig) ==> rc_ml_dsa_87_sign(seed@, msg@) == Some(sig@) && sig.len() == 4627,
        r is None ==> rc_ml_dsa_87_sign(seed@, msg@) is None,
{
    let sk = ml_dsa::SigningKey::<MlDsa87>::from_seed(&ml_dsa::Seed::from(*seed));
    match sk.try_sign(msg) {
        Ok(sig) => Some(sig.encode().to_vec()),
        Err(_) => None,
    }
}

/// `VerifyingKey::decode` of a 2592-byte key and `Signature::decode` of a 4627-byte signature
/// (ML-DSA-87), then `Verifier::verify`: a function of the key, message and signature.
#[verifier::external_body]
fn verify_87(pk: &[u8], msg: &[u8], sig: &[u8]) -> (r: Option<bool>)
    requires
        pk.len() == 2592,
        sig.len() == 4627,
    ensures
        r == rc_ml_dsa_87_verify(pk@, msg@, sig@),
{
    let (ek, es) = match (ml_dsa::EncodedVerifyingKey::<MlDsa87>::try_from(pk), ml_dsa::EncodedSignature::<MlDsa87>::try_from(sig)) {
        (Ok(ek), Ok(es)) => (ek, es),
        _ => return None,
    };
    let vk = ml_dsa::VerifyingKey::<MlDsa87>::decode(&ek);
    let s = ml_dsa::Signature::<MlDsa87>::decode(&es)?;
    Some(vk.verify(msg, &s).is_ok())
}

/// A keypair from a fresh 32-byte seed; the seed is the secret key.
pub fn keygen(variant: Variant) -> (r: Result<KeyPair, PqcError>)
    ensures
        r matches Err(e) ==> e == PqcError::RandomSourceFailed,
        r matches Ok(kp) ==> kp.sk_seed.len() == 32 && kp.pk_bytes@ == public_key_of(variant, kp.sk_seed@)
            && kp.pk_bytes.len() == pk_len(variant),
{
    let seed_v = match os_random_bytes(32) {
        Some(v) => v,
        None => return Err(PqcError::RandomSourceFailed),
    };
    let seed = take32(seed_v.as_slice(), 0);
    proof {
        assert(seed@ =~= seed_v@);
    }
    let pk_bytes = match variant {
        Variant::MlDsa44 => public_key_44(&seed),
        Variant::MlDsa65 => public_key_65(&seed),
        Variant::MlDsa87 => public_key_87(&seed),
    };
    Ok(KeyPair { sk_seed: seed_v, pk_bytes })
}

/// Signs deterministically with the secret-key seed.
pub fn sign(variant: Variant, sk_seed: &[u8], message: &[u8]) -> (r: Result<Vec<u8>, PqcError>)
    ensures
        sk_seed.len() != 32 ==> r == Err::<Vec<u8>, PqcError>(
            PqcError::WrongLength { what: Encoded::SecretKey, expected: 32, got: sk_seed.len() },
        ),
        sk_seed.len() == 32 ==> match signature_of(variant, sk_seed@, message@) {
            Some(s) => r matches Ok(sig) && sig@ == s,
            None => r == Err::<Vec<u8>, PqcError>(PqcError::SigningFailed),
        },
{
    if sk_seed.len() != 32 {
        return Err(PqcError::WrongLength { what: Encoded::SecretKey, expected: 32, got: sk_seed.len() });
    }
    let seed = take32(sk_seed, 0);
    proof {
        assert(seed@ =~= sk_seed@);
    }
    let sig = match variant {
        Variant::MlDsa44 => sign_44(&seed, message),
        Variant::MlDsa65 => sign_65(&seed, message),
        Variant::MlDsa87 => sign_87(&seed, message),
    };
    match sig {
        Some(sig) => Ok(sig),
        None => Err(PqcError::SigningFailed),
    }
}

/// Checks an encoded signature against an encoded public key.
pub fn verify(variant: Variant, pk_bytes: &[u8], message: &[u8], sig_bytes: &[u8]) -> (r: Result<bool, PqcError>)
    ensures
        pk_bytes.len() != pk_len(variant) ==> r == Err::<bool, PqcError>(
            PqcError::WrongLength { what: Encoded::PublicKey, expected: pk_len(variant) as usize, got: pk_bytes.len() },
        ),
        pk_bytes.len() == pk_len(variant) && sig_bytes.len() != sig_len(variant) ==> r == Err::<bool, PqcError>(
            PqcError::WrongLength { what: Encoded::Signature, expected: sig_len(variant) as usize, got: sig_bytes.len() },
        ),
        pk_bytes.len() == pk_len(variant) && sig_bytes.len() == sig_len(variant) ==> r == match verdict_of(
            variant,
            pk_bytes@,
            message@,
            sig_bytes@,
        ) {
            Some(b) => Ok::<bool, PqcError>(b),
            None => Err(PqcError::SignatureMalformed),
        },
{
    let (pkl, sigl) = lens_exec(variant);
    if pk_bytes.len() != pkl {
        return Err(PqcError::WrongLength { what: Encoded::PublicKey, expected: pkl, got: pk_bytes.len() });
    }
    if sig_bytes.len() != sigl {
        return Err(PqcError::WrongLength { what: Encoded::Signature, expected: sigl, got: sig_bytes.len() });
    }
    let verdict = match variant {
        Variant::MlDsa44 => verify_44(pk_bytes, message, sig_bytes),
        Variant::MlDsa65 => verify_65(pk_bytes, message, sig_bytes),
        Variant::MlDsa87 => verify_87(pk_bytes, message, sig_bytes),
    };
    match verdict {
        Some(b) => Ok(b),
        None => Err(PqcError::SignatureMalformed),
    }
}

} // verus!
