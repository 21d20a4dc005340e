//! The three standardized ML-DSA sets (FIPS 204) on Cryspen's `libcrux-ml-dsa` crate, with the
//! same shape as the RustCrypto backend. Secret keys are kept as the 32-byte keygen seed;
//! signing expands it again and signs deterministically (zero randomness, empty context).
use crate::bytes::{str_eq, take32};
use crate::error::{Encoded, Family, PqcError};
use crate::xof::os_random_bytes;
use vstd::prelude::*;

verus! {

#[derive(Clone, Copy, Debug, PartialEq, Eq, Structural)]
pub enum Variant {
    MlDsa44,
    MlDsa65,
    MlDsa87,
}

pub open spec fn variant_name(v: Variant) -> Seq<char> {
    match v {
        Variant::MlDsa44 => "ml-dsa-44"@,
        Variant::MlDsa65 => "ml-dsa-65"@,
        Variant::MlDsa87 => "ml-dsa-87"@,
    }
}

impl Variant {
    pub fn parse(s: &str) -> (r: Result<Variant, PqcError>)
        ensures
            (r matches Ok(v) && s@ == variant_name(v)) || (r matches Err(PqcError::UnknownVariant { family, given })
                && family == Family::MlDsa && given@ == s@ && s@ != variant_name(Variant::MlDsa44) && s@ != variant_name(Variant::MlDsa65) && s@ != variant_name(Variant::MlDsa87)),
    {
        proof {
            reveal_strlit("ml-dsa-44");
            reveal_strlit("ml-dsa-65");
            reveal_strlit("ml-dsa-87");
            assert("ml-dsa-44"@[7] != "ml-dsa-65"@[7]);
            assert("ml-dsa-44"@[7] != "ml-dsa-87"@[7]);
            assert("ml-dsa-65"@[7] != "ml-dsa-87"@[7]);
        }
        if str_eq(s, "ml-dsa-44") {
            Ok(Variant::MlDsa44)
        } else if str_eq(s, "ml-dsa-65") {
            Ok(Variant::MlDsa65)
        } else if str_eq(s, "ml-dsa-87") {
            Ok(Variant::MlDsa87)
        } else {
            Err(PqcError::UnknownVariant { family: Family::MlDsa, given: s.to_owned() })
        }
    }

    pub fn as_str(self) -> (s: &'static str)
        ensures
            s@ == variant_name(self),
    {
        match self {
            Variant::MlDsa44 => "ml-dsa-44",
            Variant::MlDsa65 => "ml-dsa-65",
            Variant::MlDsa87 => "ml-dsa-87",
        }
    }
}

/// Encoded verifying-key length.
pub open spec fn pk_len(v: Variant) -> nat {
    match v {
        Variant::MlDsa44 => 1312,
        Variant::MlDsa65 => 1952,
        Variant::MlDsa87 => 2592,
    }
}

/// Encoded signature length.
pub open spec fn sig_len(v: Variant) -> nat {
    match v {
        Variant::MlDsa44 => 2420,
        Variant::MlDsa65 => 3309,
        Variant::MlDsa87 => 4627,
    }
}

fn lens_exec(v: Variant) -> (r: (usize, usize))
    ensures
        r.0 == pk_len(v),
        r.1 == sig_len(v),
{
    match v {
        Variant::MlDsa44 => (1312, 2420),
        Variant::MlDsa65 => (1952, 3309),
        Variant::MlDsa87 => (2592, 4627),
    }
}

pub struct KeyPair {
    pub sk_seed: Vec<u8>,
    pub pk_bytes: Vec<u8>,
}

/// The `(signing key, verification key)` bytes `ml_dsa_44::generate_key_pair` derives from a seed.
pub uninterp spec fn lc_ml_dsa_44_keypair(seed: Seq<u8>) -> (Seq<u8>, Seq<u8>);

/// The signature `ml_dsa_44::sign` makes with an empty context and zero randomness, or `None`
/// when it reports an error.
pub uninterp spec fn lc_ml_dsa_44_sign(sk: Seq<u8>, msg: Seq<u8>) -> Option<Seq<u8>>;

/// Whether `ml_dsa_44::verify` accepts a signature with an empty context.
pub uninterp spec fn lc_ml_dsa_44_verify(vk: Seq<u8>, msg: Seq<u8>, sig: Seq<u8>) -> bool;

/// The `(signing key, verification key)` bytes `ml_dsa_65::generate_key_pair` derives from a seed.
pub uninterp spec fn lc_ml_dsa_65_keypair(seed: Seq<u8>) -> (Seq<u8>, Seq<u8>);

/// The signature `ml_dsa_65::sign` makes with an empty context and zero randomness, or `None`
/// when it reports an error.
pub uninterp spec fn lc_ml_dsa_65_sign(sk: Seq<u8>, msg: Seq<u8>) -> Option<Seq<u8>>;

/// Whether `ml_dsa_65::verify` accepts a signature with an empty context.
pub uninterp spec fn lc_ml_dsa_65_verify(vk: Seq<u8>, msg: Seq<u8>, sig: Seq<u8>) -> bool;

/// The `(signing key, verification key)` bytes `ml_dsa_87::generate_key_pair` derives from a seed.
pub uninterp spec fn lc_ml_dsa_87_keypair(seed: Seq<u8>) -> (Seq<u8>, Seq<u8>);

/// The signature `ml_dsa_87::sign` makes with an empty context and zero randomness, or `None`
/// when it reports an error.
pub uninterp spec fn lc_ml_dsa_87_sign(sk: Seq<u8>, msg: Seq<u8>) -> Option<Seq<u8>>;

/// Whether `ml_dsa_87::verify` accepts a signature with an empty context.
pub uninterp spec fn lc_ml_dsa_87_verify(vk: Seq<u8>, msg: Seq<u8>, sig: Seq<u8>) -> bool;

pub open spec fn keypair_of(v: Variant, seed: Seq<u8>) -> (Seq<u8>, Seq<u8>) {
    match v {
        Variant::MlDsa44 => lc_ml_dsa_44_keypair(seed),
        Variant::MlDsa65 => lc_ml_dsa_65_keypair(seed),
        Variant::MlDsa87 => lc_ml_dsa_87_keypair(seed),
    }
}

pub open spec fn signature_of(v: Variant, sk: Seq<u8>, msg: Seq<u8>) -> Option<Seq<u8>> {
    match v {
        Variant::MlDsa44 => lc_ml_dsa_44_sign(sk, msg),
        Variant::MlDsa65 => lc_ml_dsa_65_sign(sk, msg),
        Variant::MlDsa87 => lc_ml_dsa_87_sign(sk, msg),
    }
}

pub open spec fn verdict_of(v: Variant, vk: Seq<u8>, msg: Seq<u8>, sig: Seq<u8>) -> bool {
    match v {
        Variant::MlDsa44 => lc_ml_dsa_44_verify(vk, msg, sig),
        Variant::MlDsa65 => lc_ml_dsa_65_verify(vk, msg, sig),
        Variant::MlDsa87 => lc_ml_dsa_87_verify(vk, msg, sig),
    }
}

/// `libcrux_ml_dsa::ml_dsa_44::generate_key_pair`: a function of the 32-byte seed, giving a
/// 2560-byte signing key and a 1312-byte verification key.
#[verifier::external_body]
fn keypair_44(seed: &[u8; 32]) -> (r: (Vec<u8>, Vec<u8>))
    ensures
        (r.0@, r.1@) == lc_ml_dsa_44_keypair(seed@),
        r.0.len() == 2560,
        r.1.len() == 1312,
{
    let kp = libcrux_ml_dsa::ml_dsa_44::generate_key_pair(*seed);
    (kp.signing_key.as_slice().to_vec(), kp.verification_key.as_slice().to_vec())
}

/// `libcrux_ml_dsa::ml_dsa_44::sign` with an empty context and 32 zero bytes of randomness on
/// a 2560-byte signing key: a function of the key and message; a signature is 2420 bytes.
#[verifier::external_body]
fn sign_44(sk: &[u8], msg: &[u8]) -> (r: Option<Vec<u8>>)
    requires
        sk.len() == 2560,
    ensures
        r matches Some(s) ==> lc_ml_dsa_44_sign(sk@, msg@) == Some(s@) && s.len() == 2420,
        r is None ==> lc_ml_dsa_44_sign(sk@, msg@) is None,
{
    let key: [u8; 2560] = match sk.try_into() {
        Ok(a) => a,
        Err(_) => return None,
    };
    let key = libcrux_ml_dsa::ml_dsa_44::MLDSA44SigningKey::new(key);
    match libcrux_ml_dsa::ml_dsa_44::sign(&key, msg, &[], [0u8; 32]) {
        Ok(s) => Some(s.as_slice().to_vec()),
        Err(_) => None,
    }
}

/// `libcrux_ml_dsa::ml_dsa_44::verify` with an empty context on a 1312-byte verification key
/// and a 2420-byte signature: whether it returns `Ok`, a function of its arguments.
#[verifier::external_body]
fn verify_44(vk: &[u8], msg: &[u8], sig: &[u8]) -> (r: bool)
    requires
        vk.len() == 1312,
        sig.len() == 2420,
    ensures
        r == lc_ml_dsa_44_verify(vk@, msg@, sig@),
{
    let (k, s): ([u8; 1312], [u8; 2420]) = match (vk.try_into(), sig.try_into()) {
        (Ok(k), Ok(s)) => (k, s),
        _ => return false,
    };
    let k = libcrux_ml_dsa::ml_dsa_44::MLDSA44VerificationKey::new(k);
    let s = libcrux_ml_dsa::ml_dsa_44::MLDSA44Signature::new(s);
    libcrux_ml_dsa::ml_dsa_44::verify(&k, msg, &[], &s).is_ok()
}

/// `libcrux_ml_dsa::ml_dsa_65::generate_key_pair`: a function of the 32-byte seed, giving a
/// 4032-byte signing key and a 1952-byte verification key.
#[verifier::external_body]
fn keypair_65(seed: &[u8; 32]) -> (r: (Vec<u8>, Vec<u8>))
    ensures
        (r.0@, r.1@) == lc_ml_dsa_65_keypair(seed@),
        r.0.len() == 4032,
        r.1.len() == 1952,
{
    let kp = libcrux_ml_dsa::ml_dsa_65::generate_key_pair(*seed);
    (kp.signing_key.as_slice().to_vec(), kp.verification_key.as_slice().to_vec())
}

/// `libcrux_ml_dsa::ml_dsa_65::sign` with an empty context and 32 zero bytes of randomness on
/// a 4032-byte signing key: a function of the key and message; a signature is 3309 bytes.
#[verifier::external_body]
fn sign_65(sk: &[u8], msg: &[u8]) -> (r: Option<Vec<u8>>)
    requires
        sk.len() == 4032,
    ensures
        r matches Some(s) ==> lc_ml_dsa_65_sign(sk@, msg@) == Some(s@) && s.len() == 3309,
        r is None ==> lc_ml_dsa_65_sign(sk@, msg@) is None,
{
    let key: [u8; 4032] = match sk.try_into() {
        Ok(a) => a,
        Err(_) => return None,
    };
    let key = libcrux_ml_dsa::ml_dsa_65::MLDSA65SigningKey::new(key);
    match libcrux_ml_dsa::ml_dsa_65::sign(&key, msg, &[], [0u8; 32]) {
        Ok(s) => Some(s.as_slice().to_vec()),
        Err(_) => None,
    }
}

/// `libcrux_ml_dsa::ml_dsa_65::verify` with an empty context on a 1952-byte verification key
/// and a 3309-byte signature: whether it returns `Ok`, a function of its arguments.
#[verifier::external_body]
fn verify_65(vk: &[u8], msg: &[u8], sig: &[u8]) -> (r: bool)
    requires
        vk.len() == 1952,
        sig.len() == 3309,
    ensures
        r == lc_ml_dsa_65_verify(vk@, msg@, sig@),
{
    let (k, s): ([u8; 1952], [u8; 3309]) = match (vk.try_into(), sig.try_into()) {
        (Ok(k), Ok(s)) => (k, s),
        _ => return false,
    };
    let k = libcrux_ml_dsa::ml_dsa_65::MLDSA65VerificationKey::new(k);
    let s = libcrux_ml_dsa::ml_dsa_65::MLDSA65Signature::new(s);
    libcrux_ml_dsa::ml_dsa_65::verify(&k, msg, &[], &s).is_ok()
}

/// `libcrux_ml_dsa::ml_dsa_87::generate_key_pair`: a function of the 32-byte seed, giving a
/// 4896-byte signing key and a 2592-byte verification key.
#[verifier::external_body]
fn keypair_87(seed: &[u8; 32]) -> (r: (Vec<u8>, Vec<u8>))
    ensures
        (r.0@, r.1@) == lc_ml_dsa_87_keypair(seed@),
        r.0.len() == 4896,
        r.1.len() == 2592,
{
    let kp = libcrux_ml_dsa::ml_dsa_87::generate_key_pair(*seed);
    (kp.signing_key.as_slice().to_vec(), kp.verification_key.as_slice().to_vec())
}

/// `libcrux_ml_dsa::ml_dsa_87::sign` with an empty context and 32 zero bytes of randomness on
/// a 4896-byte signing key: a function of the key and message; a signature is 4627 bytes.
#[verifier::external_body]
fn sign_87(sk: &[u8], msg: &[u8]) -> (r: Option<Vec<u8>>)
    requires
        sk.len() == 4896,
    ensures
        r matches Some(s) ==> lc_ml_dsa_87_sign(sk@, msg@) == Some(s@) && s.len() == 4627,
        r is None ==> lc_ml_dsa_87_sign(sk@, msg@) is None,
{
    let key: [u8; 4896] = match sk.try_into() {
        Ok(a) => a,
        Err(_) => return None,
    };
    let key = libcrux_ml_dsa::ml_dsa_87::MLDSA87SigningKey::new(key);
    match libcrux_ml_dsa::ml_dsa_87::sign(&key, msg, &[], [0u8; 32]) {
        Ok(s) => Some(s.as_slice().to_vec()),
        Err(_) => None,
    }
}

/// `libcrux_ml_dsa::ml_dsa_87::verify` with an empty context on a 2592-byte verification key
/// and a 4627-byte signature: whether it returns `Ok`, a function of its arguments.
#[verifier::external_body]
fn verify_87(vk: &[u8], msg: &[u8], sig: &[u8]) -> (r: bool)
    requires
        vk.len() == 2592,
        sig.len() == 4627,
    ensures
        r == lc_ml_dsa_87_verify(vk@, msg@, sig@),
{
    let (k, s): ([u8; 2592], [u8; 4627]) = match (vk.try_into(), sig.try_into()) {
        (Ok(k), Ok(s)) => (k, s),
        _ => return false,
    };
    let k = libcrux_ml_dsa::ml_dsa_87::MLDSA87VerificationKey::new(k);
    let s = libcrux_ml_dsa::ml_dsa_87::MLDSA87Signature::new(s);
    libcrux_ml_dsa::ml_dsa_87::verify(&k, msg, &[], &s).is_ok()
}

/// A keypair from a fresh 32-byte seed; the seed is the secret key.
pub fn keygen(variant: Variant) -> (r: Result<KeyPair, PqcError>)
    ensures
        r matches Err(e) ==> e == PqcError::RandomSourceFailed,
        r matches Ok(kp) ==> kp.sk_seed.len() == 32 && kp.pk_bytes@ == keypair_of(variant, kp.sk_seed@).1
            && kp.pk_bytes.len() == pk_len(variant),
{
    let seed_v = match os_random_bytes(32) {
        Some(v) => v,
        None => return Err(PqcError::RandomSourceFailed),
    };
    let seed = take32(seed_v.as_slice(), 0);
    proof {
        assert(seed@ =~= seed_v@);
    }
    let (_, pk_bytes) = match variant {
        Variant::MlDsa44 => keypair_44(&seed),
        Variant::MlDsa65 => keypair_65(&seed),
        Variant::MlDsa87 => keypair_87(&seed),
    };
    Ok(KeyPair { sk_seed: seed_v, pk_bytes })
}

/// Signs with the key `generate_key_pair` expands from the secret-key seed.
pub fn sign(variant: Variant, sk_seed: &[u8], message: &[u8]) -> (r: Result<Vec<u8>, PqcError>)
    ensures
        sk_seed.len() != 32 ==> r == Err::<Vec<u8>, PqcError>(
            PqcError::WrongLength { what: Encoded::SecretKey, expected: 32, got: sk_seed.len() },
        ),
        sk_seed.len() == 32 ==> match signature_of(variant, keypair_of(variant, sk_seed@).0, message@) {
            Some(s) => r matches Ok(sig) && sig@ == s,
            None => r == Err::<Vec<u8>, PqcError>(PqcError::SigningFailed),
        },
{
    if sk_seed.len() != 32 {
        return Err(PqcError::WrongLength { what: Encoded::SecretKey, expected: 32, got: sk_seed.len() });
    }
    let seed = take32(sk_seed, 0);
    proof {
        assert(seed@ =~= sk_seed@);
    }
    let sig = match variant {
        Variant::MlDsa44 => {
            let (sk, _) = keypair_44(&seed);
            sign_44(sk.as_slice(), message)
        },
        Variant::MlDsa65 => {
            let (sk, _) = keypair_65(&seed);
            sign_65(sk.as_slice(), message)
        },
        Variant::MlDsa87 => {
            let (sk, _) = keypair_87(&seed);
            sign_87(sk.as_slice(), message)
        },
    };
    match sig {
        Some(s) => Ok(s),
        None => Err(PqcError::SigningFailed),
    }
}

/// Checks an encoded signature against an encoded verification key.
pub fn verify(variant: Variant, pk_bytes: &[u8], message: &[u8], sig_bytes: &[u8]) -> (r: Result<bool, PqcError>)
    ensures
        pk_bytes.len() != pk_len(variant) ==> r == Err::<bool, PqcError>(
            PqcError::WrongLength { what: Encoded::PublicKey, expected: pk_len(variant) as usize, got: pk_bytes.len() },
        ),
        pk_bytes.len() == pk_len(variant) && sig_bytes.len() != sig_len(variant) ==> r == Err::<bool, PqcError>(
            PqcError::WrongLength { what: Encoded::Signature, expected: sig_len(variant) as usize, got: sig_bytes.len() },
        ),
        pk_bytes.len() == pk_len(variant) && sig_bytes.len() == sig_len(variant) ==> r == Ok::<bool, PqcError>(
            verdict_of(variant, pk_bytes@, message@, sig_bytes@),
        ),
{
    let (pkl, sigl) = lens_exec(variant);
    if pk_bytes.len() != pkl {
        return Err(PqcError::WrongLength { what: Encoded::PublicKey, expected: pkl, got: pk_bytes.len() });
    }
    if sig_bytes.len() != sigl {
        return Err(PqcError::WrongLength { what: Encoded::Signature, expected: sigl, got: sig_bytes.len() });
    }
    let ok = match variant {
        Variant::MlDsa44 => verify_44(pk_bytes, message, sig_bytes),
        Variant::MlDsa65 => verify_65(pk_bytes, message, sig_bytes),
        Variant::MlDsa87 => verify_87(pk_bytes, message, sig_bytes),
    };
    Ok(ok)
}

} // verus!
