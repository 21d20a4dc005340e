//! The three standardized ML-KEM sets (FIPS 203) on RustCrypto's `ml-kem` crate. Secret keys
//! are kept as their 64-byte seed, the crate's preferred serialization; public keys and
//! ciphertexts in their standard encodings.
use crate::bytes::{str_eq, take32, take64};
use crate::error::{Encoded, Family, PqcError};
use crate::xof::os_random_bytes;
use ml_kem::{Decapsulate, FromSeed, KeyExport, TryKeyInit};
use ml_kem::{MlKem1024, MlKem512, MlKem768};
use vstd::prelude::*;

verus! {

#[derive(Clone, Copy, Debug, PartialEq, Eq, Structural)]
pub enum Variant {
    MlKem512,
    MlKem768,
    MlKem1024,
}

pub open spec fn variant_name(v: Variant) -> Seq<char> {
    match v {
        Variant::MlKem512 => "ml-kem-512"@,
        Variant::MlKem768 => "ml-kem-768"@,
        Variant::MlKem1024 => "ml-kem-1024"@,
    }
}

/// Encapsulation-key length.
pub open spec fn ek_len(v: Variant) -> nat {
    match v {
        Variant::MlKem512 => 800,
        Variant::MlKem768 => 1184,
        Variant::MlKem1024 => 1568,
    }
}

/// Ciphertext length.
pub open spec fn ct_len(v: Variant) -> nat {
    match v {
        Variant::MlKem512 => 768,
        Variant::MlKem768 => 1088,
        Variant::MlKem1024 => 1568,
    }
}

impl Variant {
    pub fn parse(s: &str) -> (r: Result<Variant, PqcError>)
        ensures
            (r matches Ok(v) && s@ == variant_name(v)) || (r matches Err(PqcError::UnknownVariant { family, given })
                && family == Family::MlKem && given@ == s@ && s@ != variant_name(Variant::MlKem512) && s@ != variant_name(
                Variant::MlKem768,
            ) && s@ != variant_name(Variant::MlKem1024)),
    {
        proof {
            reveal_strlit("ml-kem-512");
            reveal_strlit("ml-kem-768");
            reveal_strlit("ml-kem-1024");
            assert("ml-kem-512"@[7] != "ml-kem-768"@[7]);
            assert("ml-kem-512"@.len() != "ml-kem-1024"@.len());
            assert("ml-kem-768"@.len() != "ml-kem-1024"@.len());
        }
        if str_eq(s, "ml-kem-512") {
            Ok(Variant::MlKem512)
        } else if str_eq(s, "ml-kem-768") {
            Ok(Variant::MlKem768)
        } else if str_eq(s, "ml-kem-1024") {
            Ok(Variant::MlKem1024)
        } else {
            Err(PqcError::UnknownVariant { family: Family::MlKem, given: s.to_owned() })
        }
    }

    pub fn as_str(self) -> (s: &'static str)
        ensures
            s@ == variant_name(self),
    {
        match self {
            Variant::MlKem512 => "ml-kem-512",
            Variant::MlKem768 => "ml-kem-768",
            Variant::MlKem1024 => "ml-kem-1024",
        }
    }
}

pub struct KeyPair {
    pub sk_seed: Vec<u8>,
    pub pk_bytes: Vec<u8>,
}

pub struct Encapsulated {
    pub ciphertext: Vec<u8>,
    pub shared_secret: Vec<u8>,
}

/// The encapsulation key `FromSeed::from_seed` derives from a seed, encoded (ML-KEM-512).
pub uninterp spec fn rc_ml_kem_512_public_key(seed: Seq<u8>) -> Seq<u8>;

/// The encapsulation key `FromSeed::from_seed` derives from a seed, encoded (ML-KEM-768).
pub uninterp spec fn rc_ml_kem_768_public_key(seed: Seq<u8>) -> Seq<u8>;

/// The encapsulation key `FromSeed::from_seed` derives from a seed, encoded (ML-KEM-1024).
pub uninterp spec fn rc_ml_kem_1024_public_key(seed: Seq<u8>) -> Seq<u8>;

/// The shared key `Decapsulate::decapsulate` gives for the key of a seed (ML-KEM-512).
pub uninterp spec fn rc_ml_kem_512_decapsulate(seed: Seq<u8>, ct: Seq<u8>) -> Seq<u8>;

/// The shared key `Decapsulate::decapsulate` gives for the key of a seed (ML-KEM-768).
pub uninterp spec fn rc_ml_kem_768_decapsulate(seed: Seq<u8>, ct: Seq<u8>) -> Seq<u8>;

/// The shared key `Decapsulate::decapsulate` gives for the key of a seed (ML-KEM-1024).
pub uninterp spec fn rc_ml_kem_1024_decapsulate(seed: Seq<u8>, ct: Seq<u8>) -> Seq<u8>;

/// The ciphertext and shared key `encapsulate_deterministic` gives for an encoded
/// encapsulation key and a message, or `None` when `new_from_slice` refuses the key (ML-KEM-512).
pub uninterp spec fn rc_ml_kem_512_encapsulate(pk: Seq<u8>, m: Seq<u8>) -> Option<(Seq<u8>, Seq<u8>)>;

/// The ciphertext and shared key `encapsulate_deterministic` gives for an encoded
/// encapsulation key and a message, or `None` when `new_from_slice` refuses the key (ML-KEM-768).
pub uninterp spec fn rc_ml_kem_768_encapsulate(pk: Seq<u8>, m: Seq<u8>) -> Option<(Seq<u8>, Seq<u8>)>;

/// The ciphertext and shared key `encapsulate_deterministic` gives for an encoded
/// encapsulation key and a message, or `None` when `new_from_slice` refuses the key (ML-KEM-1024).
pub uninterp spec fn rc_ml_kem_1024_encapsulate(pk: Seq<u8>, m: Seq<u8>) -> Option<(Seq<u8>, Seq<u8>)>;

pub open spec fn encapsulation_of(v: Variant, pk: Seq<u8>, m: Seq<u8>) -> Option<(Seq<u8>, Seq<u8>)> {
    match v {
        Variant::MlKem512 => rc_ml_kem_512_encapsulate(pk, m),
        Variant::MlKem768 => rc_ml_kem_768_encapsulate(pk, m),
        Variant::MlKem1024 => rc_ml_kem_1024_encapsulate(pk, m),
    }
}

/// The encapsulation outcome for message `m`: the ciphertext and shared key, or the refusal of
/// the key.
pub open spec fn encapsulated_as(r: Result<Encapsulated, PqcError>, v: Variant, pk: Seq<u8>, m: Seq<u8>) -> bool {
    match encapsulation_of(v, pk, m) {
        Some((c, k)) => r matches Ok(enc) && enc.ciphertext@ == c && enc.shared_secret@ == k,
        None => r == Err::<Encapsulated, PqcError>(PqcError::InvalidPublicKey { len: pk.len() as usize }),
    }
}

pub open spec fn public_key_of(v: Variant, seed: Seq<u8>) -> Seq<u8> {
    match v {
        Variant::MlKem512 => rc_ml_kem_512_public_key(seed),
        Variant::MlKem768 => rc_ml_kem_768_public_key(seed),
        Variant::MlKem1024 => rc_ml_kem_1024_public_key(seed),
    }
}

pub open spec fn shared_secret_of(v: Variant, seed: Seq<u8>, ct: Seq<u8>) -> Seq<u8> {
    match v {
        Variant::MlKem512 => rc_ml_kem_512_decapsulate(seed, ct),
        Variant::MlKem768 => rc_ml_kem_768_decapsulate(seed, ct),
        Variant::MlKem1024 => rc_ml_kem_1024_decapsulate(seed, ct),
    }
}

/// `FromSeed::from_seed` for ML-KEM-512, then `KeyExport::to_bytes` of the encapsulation key:
/// a function of the seed, 800 bytes long.
#[verifier::external_body]
fn public_key_512(seed: &[u8; 64]) -> (pk: Vec<u8>)
    ensures
        pk@ == rc_ml_kem_512_public_key(seed@),
        pk.len() == 800,
{
    let (_dk, ek) = MlKem512::from_seed(&ml_kem::Seed::from(*seed));
    ek.to_bytes().to_vec()
}

/// `FromSeed::from_seed` for ML-KEM-768, then `KeyExport::to_bytes` of the encapsulation key:
/// a function of the seed, 1184 bytes long.
#[verifier::external_body]
fn public_key_768(seed: &[u8; 64]) -> (pk: Vec<u8>)
    ensures
        pk@ == rc_ml_kem_768_public_key(seed@),
        pk.len() == 1184,
{
    let (_dk, ek) = MlKem768::from_seed(&ml_kem::Seed::from(*seed));
    ek.to_bytes().to_vec()
}

/// `FromSeed::from_seed` for ML-KEM-1024, then `KeyExport::to_bytes` of the encapsulation key:
/// a function of the seed, 1568 bytes long.
#[verifier::external_body]
fn public_key_1024(seed: &[u8; 64]) -> (pk: Vec<u8>)
    ensures
        pk@ == rc_ml_kem_1024_public_key(seed@),
        pk.len() == 1568,
{
    let (_dk, ek) = MlKem1024::from_seed(&ml_kem::Seed::from(*seed));
    ek.to_bytes().to_vec()
}

/// `TryKeyInit::new_from_slice` for an ML-KEM-512 encapsulation key, then
/// `EncapsulationKey::encapsulate_deterministic` with the 32-byte message `m` (what
/// `Encapsulate::encapsulate` does after drawing `m` from the generator): a function of the
/// key and message, a 768-byte ciphertext and a 32-byte shared key, or `None` when the key
/// is refused (always for a length other than 800).
#[verifier::external_body]
fn encapsulate_512(pk: &[u8], m: &[u8; 32]) -> (r: Option<(Vec<u8>, Vec<u8>)>)
    ensures
        pk.len() != 800 ==> r is None,
        r matches Some((ct, ss)) ==> rc_ml_kem_512_encapsulate(pk@, m@) == Some((ct@, ss@)) && ct.len() == 768 && ss.len() == 32,
        r is None ==> rc_ml_kem_512_encapsulate(pk@, m@) is None,
{
    let ek = match ml_kem::EncapsulationKey::<MlKem512>::new_from_slice(pk) {
        Ok(ek) => ek,
        Err(_) => return None,
    };
    let (ct, ss) = ek.encapsulate_deterministic(&ml_kem::B32::from(*m));
    Some((ct.to_vec(), ss.to_vec()))
}

/// `TryKeyInit::new_from_slice` for an ML-KEM-768 encapsulation key, then
/// `EncapsulationKey::encapsulate_deterministic` with the 32-byte message `m` (what
/// `Encapsulate::encapsulate` does after drawing `m` from the generator): a function of the
/// key and message, a 1088-byte ciphertext and a 32-byte shared key, or `None` when the key
/// is refused (always for a length other than 1184).
#[verifier::external_body]
fn encapsulate_768(pk: &[u8], m: &[u8; 32]) -> (r: Option<(Vec<u8>, Vec<u8>)>)
    ensures
        pk.len() != 1184 ==> r is None,
        r matches Some((ct, ss)) ==> rc_ml_kem_768_encapsulate(pk@, m@) == Some((ct@, ss@)) && ct.len() == 1088 && ss.len() == 32,
        r is None ==> rc_ml_kem_768_encapsulate(pk@, m@) is None,
{
    let ek = match ml_kem::EncapsulationKey::<MlKem768>::new_from_slice(pk) {
        Ok(ek) => ek,
        Err(_) => return None,
    };
    let (ct, ss) = ek.encapsulate_deterministic(&ml_kem::B32::from(*m));
    Some((ct.to_vec(), ss.to_vec()))
}

/// `TryKeyInit::new_from_slice` for an ML-KEM-1024 encapsulation key, then
/// `EncapsulationKey::encapsulate_deterministic` with the 32-byte message `m` (what
/// `Encapsulate::encapsulate` does after drawing `m` from the generator): a function of the
/// key and message, a 1568-byte ciphertext and a 32-byte shared key, or `None` when the key
/// is refused (always for a length other than 1568).
#[verifier::external_body]
fn encapsulate_1024(pk: &[u8], m: &[u8; 32]) -> (r: Option<(Vec<u8>, Vec<u8>)>)
    ensures
        pk.len() != 1568 ==> r is None,
        r matches Some((ct, ss)) ==> rc_ml_kem_1024_encapsulate(pk@, m@) == Some((ct@, ss@)) && ct.len() == 1568 && ss.len() == 32,
        r is None ==> rc_ml_kem_1024_encapsulate(pk@, m@) is None,
{
    let ek = match ml_kem::EncapsulationKey::<MlKem1024>::new_from_slice(pk) {
        Ok(ek) => ek,
        Err(_) => return None,
    };
    let (ct, ss) = ek.encapsulate_deterministic(&ml_kem::B32::from(*m));
    Some((ct.to_vec(), ss.to_vec()))
}

/// `FromSeed::from_seed` for ML-KEM-512, then `Decapsulate::decapsulate` of a 768-byte
/// ciphertext: a function of the seed and ciphertext, 32 bytes long.
#[verifier::external_body]
fn decapsulate_512(seed: &[u8; 64], ct: &[u8]) -> (ss: Vec<u8>)
    requires
        ct.len() == 768,
    ensures
        ss@ == rc_ml_kem_512_decapsulate(seed@, ct@),
        ss.len() == 32,
{
    let (dk, _ek) = MlKem512::from_seed(&ml_kem::Seed::from(*seed));
    match ml_kem::Ciphertext::<MlKem512>::try_from(ct) {
        Ok(c) => dk.decapsulate(&c).to_vec(),
        Err(_) => Vec::new(),
    }
}

/// As `decapsulate_512`, for ML-KEM-768 (ciphertexts of 1088 bytes).
#[verifier::external_body]
fn decapsulate_768(seed: &[u8; 64], ct: &[u8]) -> (ss: Vec<u8>)
    requires
        ct.len() == 1088,
    ensures
        ss@ == rc_ml_kem_768_decapsulate(seed@, ct@),
        ss.len() == 32,
{
    let (dk, _ek) = MlKem768::from_seed(&ml_kem::Seed::from(*seed));
    match ml_kem::Ciphertext::<MlKem768>::try_from(ct) {
        Ok(c) => dk.decapsulate(&c).to_vec(),
        Err(_) => Vec::new(),
    }
}

/// As `decapsulate_512`, for ML-KEM-1024 (ciphertexts of 1568 bytes).
#[verifier::external_body]
fn decapsulate_1024(seed: &[u8; 64], ct: &[u8]) -> (ss: Vec<u8>)
    requires
        ct.len() == 1568,
    ensures
        ss@ == rc_ml_kem_1024_decapsulate(seed@, ct@),
        ss.len() == 32,
{
    let (dk, _ek) = MlKem1024::from_seed(&ml_kem::Seed::from(*seed));
    match ml_kem::Ciphertext::<MlKem1024>::try_from(ct) {
        Ok(c) => dk.decapsulate(&c).to_vec(),
        Err(_) => Vec::new(),
    }
}

fn ct_len_exec(v: Variant) -> (n: usize)
    ensures
        n == ct_len(v),
{
    match v {
        Variant::MlKem512 => 768,
        Variant::MlKem768 => 1088,
        Variant::MlKem1024 => 1568,
    }
}

/// A keypair from a fresh 64-byte seed; the seed is the secret key.
pub fn keygen(variant: Variant) -> (r: Result<KeyPair, PqcError>)
    ensures
        r matches Err(e) ==> e == PqcError::RandomSourceFailed,
        r matches Ok(kp) ==> kp.sk_seed.len() == 64 && kp.pk_bytes@ == public_key_of(variant, kp.sk_seed@)
            && kp.pk_bytes.len() == ek_len(variant),
{
    let seed_v = match os_random_bytes(64) {
        Some(v) => v,
        None => return Err(PqcError::RandomSourceFailed),
    };
    let seed = take64(seed_v.as_slice(), 0);
    proof {
        assert(seed@ =~= seed_v@);
    }
    let pk_bytes = match variant {
        Variant::MlKem512 => public_key_512(&seed),
        Variant::MlKem768 => public_key_768(&seed),
        Variant::MlKem1024 => public_key_1024(&seed),
    };
    Ok(KeyPair { sk_seed: seed_v, pk_bytes })
}

/// Encapsulates a fresh shared secret against an encoded public key: a key of the wrong
/// length is refused; otherwise 32 bytes from the operating system's generator are the message
/// (`RandomSourceFailed` when it fails) and the result is that of `encapsulate_deterministic`.
pub fn encapsulate(variant: Variant, pk_bytes: &[u8]) -> (r: Result<Encapsulated, PqcError>)
    ensures
        pk_bytes.len() != ek_len(variant) ==> r == Err::<Encapsulated, PqcError>(PqcError::InvalidPublicKey { len: pk_bytes.len() }),
        pk_bytes.len() == ek_len(variant) ==> r == Err::<Encapsulated, PqcError>(PqcError::RandomSourceFailed) || exists|m: Seq<u8>|
            m.len() == 32 && #[trigger] encapsulated_as(r, variant, pk_bytes@, m),
        r matches Ok(enc) ==> enc.ciphertext.len() == ct_len(variant) && enc.shared_secret.len() == 32,
{
    if pk_bytes.len() != ek_len_exec(variant) {
        return Err(PqcError::InvalidPublicKey { len: pk_bytes.len() });
    }
    let m_v = match os_random_bytes(32) {
        Some(v) => v,
        None => return Err(PqcError::RandomSourceFailed),
    };
    let m = take32(m_v.as_slice(), 0);
    proof {
        assert(m@ =~= m_v@);
    }
    let res = match variant {
        Variant::MlKem512 => encapsulate_512(pk_bytes, &m),
        Variant::MlKem768 => encapsulate_768(pk_bytes, &m),
        Variant::MlKem1024 => encapsulate_1024(pk_bytes, &m),
    };
    let r = match res {
        Some((ciphertext, shared_secret)) => Ok(Encapsulated { ciphertext, shared_secret }),
        None => Err(PqcError::InvalidPublicKey { len: pk_bytes.len() }),
    };
    proof {
        assert(encapsulated_as(r, variant, pk_bytes@, m@));
    }
    r
}

fn ek_len_exec(v: Variant) -> (n: usize)
    ensures
        n == ek_len(v),
{
    match v {
        Variant::MlKem512 => 800,
        Variant::MlKem768 => 1184,
        Variant::MlKem1024 => 1568,
    }
}

/// Recovers the shared secret from a ciphertext with the secret-key seed.
pub fn decapsulate(variant: Variant, sk_seed: &[u8], ciphertext: &[u8]) -> (r: Result<Vec<u8>, PqcError>)
    ensures
        sk_seed.len() != 64 ==> r == Err::<Vec<u8>, PqcError>(
            PqcError::WrongLength { what: Encoded::SecretKey, expected: 64, got: sk_seed.len() },
        ),
        sk_seed.len() == 64 && ciphertext.len() != ct_len(variant) ==> r == Err::<Vec<u8>, PqcError>(
            PqcError::WrongLength { what: Encoded::Ciphertext, expected: ct_len(variant) as usize, got: ciphertext.len() },
        ),
        sk_seed.len() == 64 && ciphertext.len() == ct_len(variant) ==> (r matches Ok(ss) && ss@ == shared_secret_of(
            variant,
            sk_seed@,
            ciphertext@,
        ) && ss.len() == 32),
{
    if sk_seed.len() != 64 {
        return Err(PqcError::WrongLength { what: Encoded::SecretKey, expected: 64, got: sk_seed.len() });
    }
    let ctl = ct_len_exec(variant);
    if ciphertext.len() != ctl {
        return Err(PqcError::WrongLength { what: Encoded::Ciphertext, expected: ctl, got: ciphertext.len() });
    }
    let seed = take64(sk_seed, 0);
    proof {
        assert(seed@ =~= sk_seed@);
    }
    let ss = match variant {
        Variant::MlKem512 => decapsulate_512(&seed, ciphertext),
        Variant::MlKem768 => decapsulate_768(&seed, ciphertext),
        Variant::MlKem1024 => decapsulate_1024(&seed, ciphertext),
    };
    Ok(ss)
}

} // verus!
