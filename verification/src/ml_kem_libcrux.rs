//! The three standardized ML-KEM sets (FIPS 203) on Cryspen's `libcrux-ml-kem` crate, with the
//! same shape as the RustCrypto backend. Secret keys are kept as the full encoded decapsulation
//! key the crate produces.
use crate::bytes::{str_eq, take32, take64};
use crate::error::{Encoded, Family, PqcError};
use crate::xof::os_random_bytes;
use vstd::prelude::*;

verus! {

#[derive(Clone, Copy, Debug, PartialEq, Eq, Structural)]
pub enum Variant {
    MlKem512,
    MlKem768,
    MlKem1024,
}

pub open spec fn variant_name(v: Variant) -> Seq<char> {
    match v {
        Variant::MlKem512 => "ml-kem-512"@,
        Variant::MlKem768 => "ml-kem-768"@,
        Variant::MlKem1024 => "ml-kem-1024"@,
    }
}

/// Encapsulation-key length.
pub open spec fn ek_len(v: Variant) -> nat {
    match v {
        Variant::MlKem512 => 800,
        Variant::MlKem768 => 1184,
        Variant::MlKem1024 => 1568,
    }
}

/// Decapsulation-key length.
pub open spec fn dk_len(v: Variant) -> nat {
    match v {
        Variant::MlKem512 => 1632,
        Variant::MlKem768 => 2400,
        Variant::MlKem1024 => 3168,
    }
}

/// Ciphertext length.
pub open spec fn ct_len(v: Variant) -> nat {
    match v {
        Variant::MlKem512 => 768,
        Variant::MlKem768 => 1088,
        Variant::MlKem1024 => 1568,
    }
}

impl Variant {
    pub fn parse(s: &str) -> (r: Result<Variant, PqcError>)
        ensures
            (r matches Ok(v) && s@ == variant_name(v)) || (r matches Err(PqcError::UnknownVariant { family, given })
                && family == Family::MlKem && given@ == s@ && s@ != variant_name(Variant::MlKem512) && s@ != variant_name(
                Variant::MlKem768,
            ) && s@ != variant_name(Variant::MlKem1024)),
    {
        proof {
            reveal_strlit("ml-kem-512");
            reveal_strlit("ml-kem-768");
            reveal_strlit("ml-kem-1024");
            assert("ml-kem-512"@[7] != "ml-kem-768"@[7]);
            assert("ml-kem-512"@.len() != "ml-kem-1024"@.len());
            assert("ml-kem-768"@.len() != "ml-kem-1024"@.len());
        }
        if str_eq(s, "ml-kem-512") {
            Ok(Variant::MlKem512)
        } else if str_eq(s, "ml-kem-768") {
            Ok(Variant::MlKem768)
        } else if str_eq(s, "ml-kem-1024") {
            Ok(Variant::MlKem1024)
        } else {
            Err(PqcError::UnknownVariant { family: Family::MlKem, given: s.to_owned() })
        }
    }

    pub fn as_str(self) -> (s: &'static str)
        ensures
            s@ == variant_name(self),
    {
        match self {
            Variant::MlKem512 => "ml-kem-512",
            Variant::MlKem768 => "ml-kem-768",
            Variant::MlKem1024 => "ml-kem-1024",
        }
    }
}

pub struct KeyPair {
    pub sk_seed: Vec<u8>,
    pub pk_bytes: Vec<u8>,
}

pub struct Encapsulated {
    pub ciphertext: Vec<u8>,
    pub shared_secret: Vec<u8>,
}

/// The `(secret key, public key)` bytes `mlkem512::generate_key_pair` derives from a seed.
pub uninterp spec fn lc_ml_kem_512_keypair(seed: Seq<u8>) -> (Seq<u8>, Seq<u8>);

/// The `(ciphertext, shared secret)` `mlkem512::encapsulate` gives for a public key and message.
pub uninterp spec fn lc_ml_kem_512_encapsulate(pk: Seq<u8>, m: Seq<u8>) -> (Seq<u8>, Seq<u8>);

/// The shared secret `mlkem512::decapsulate` gives for a secret key and ciphertext.
pub uninterp spec fn lc_ml_kem_512_decapsulate(sk: Seq<u8>, ct: Seq<u8>) -> Seq<u8>;

/// The `(secret key, public key)` bytes `mlkem768::generate_key_pair` derives from a seed.
pub uninterp spec fn lc_ml_kem_768_keypair(seed: Seq<u8>) -> (Seq<u8>, Seq<u8>);

/// The `(ciphertext, shared secret)` `mlkem768::encapsulate` gives for a public key and message.
pub uninterp spec fn lc_ml_kem_768_encapsulate(pk: Seq<u8>, m: Seq<u8>) -> (Seq<u8>, Seq<u8>);

/// The shared secret `mlkem768::decapsulate` gives for a secret key and ciphertext.
pub uninterp spec fn lc_ml_kem_768_decapsulate(sk: Seq<u8>, ct: Seq<u8>) -> Seq<u8>;

/// The `(secret key, public key)` bytes `mlkem1024::generate_key_pair` derives from a seed.
pub uninterp spec fn lc_ml_kem_1024_keypair(seed: Seq<u8>) -> (Seq<u8>, Seq<u8>);

/// The `(ciphertext, shared secret)` `mlkem1024::encapsulate` gives for a public key and message.
pub uninterp spec fn lc_ml_kem_1024_encapsulate(pk: Seq<u8>, m: Seq<u8>) -> (Seq<u8>, Seq<u8>);

/// The shared secret `mlkem1024::decapsulate` gives for a secret key and ciphertext.
pub uninterp spec fn lc_ml_kem_1024_decapsulate(sk: Seq<u8>, ct: Seq<u8>) -> Seq<u8>;

pub open spec fn keypair_of(v: Variant, seed: Seq<u8>) -> (Seq<u8>, Seq<u8>) {
    match v {
        Variant::MlKem512 => lc_ml_kem_512_keypair(seed),
        Variant::MlKem768 => lc_ml_kem_768_keypair(seed),
        Variant::MlKem1024 => lc_ml_kem_1024_keypair(seed),
    }
}

pub open spec fn encapsulation_of(v: Variant, pk: Seq<u8>, m: Seq<u8>) -> (Seq<u8>, Seq<u8>) {
    match v {
        Variant::MlKem512 => lc_ml_kem_512_encapsulate(pk, m),
        Variant::MlKem768 => lc_ml_kem_768_encapsulate(pk, m),
        Variant::MlKem1024 => lc_ml_kem_1024_encapsulate(pk, m),
    }
}

pub open spec fn shared_secret_of(v: Variant, sk: Seq<u8>, ct: Seq<u8>) -> Seq<u8> {
    match v {
        Variant::MlKem512 => lc_ml_kem_512_decapsulate(sk, ct),
        Variant::MlKem768 => lc_ml_kem_768_decapsulate(sk, ct),
        Variant::MlKem1024 => lc_ml_kem_1024_decapsulate(sk, ct),
    }
}

/// `libcrux_ml_kem::mlkem512::generate_key_pair`: a function of the 64-byte seed, giving a
/// 1632-byte secret key and a 800-byte public key.
#[verifier::external_body]
fn keypair_512(seed: &[u8; 64]) -> (r: (Vec<u8>, Vec<u8>))
    ensures
        (r.0@, r.1@) == lc_ml_kem_512_keypair(seed@),
        r.0.len() == 1632,
        r.1.len() == 800,
{
    let kp = libcrux_ml_kem::mlkem512::generate_key_pair(*seed);
    (kp.sk().to_vec(), kp.pk().to_vec())
}

/// `libcrux_ml_kem::mlkem512::encapsulate` on a 800-byte public key and a 32-byte message:
/// a function of both, giving a 768-byte ciphertext and a 32-byte shared secret.
#[verifier::external_body]
fn encapsulate_512(pk: &[u8], m: &[u8; 32]) -> (r: (Vec<u8>, Vec<u8>))
    requires
        pk.len() == 800,
    ensures
        (r.0@, r.1@) == lc_ml_kem_512_encapsulate(pk@, m@),
        r.0.len() == 768,
        r.1.len() == 32,
{
    match libcrux_ml_kem::mlkem512::MlKem512PublicKey::try_from(pk) {
        Ok(key) => {
            let (ct, ss) = libcrux_ml_kem::mlkem512::encapsulate(&key, *m);
            (ct.as_slice().to_vec(), ss.to_vec())
        },
        Err(_) => (Vec::new(), Vec::new()),
    }
}

/// `libcrux_ml_kem::mlkem512::decapsulate` on a 1632-byte secret key and a 768-byte
/// ciphertext: a function of both, 32 bytes long.
#[verifier::external_body]
fn decapsulate_512(sk: &[u8], ct: &[u8]) -> (ss: Vec<u8>)
    requires
        sk.len() == 1632,
        ct.len() == 768,
    ensures
        ss@ == lc_ml_kem_512_decapsulate(sk@, ct@),
        ss.len() == 32,
{
    match (libcrux_ml_kem::mlkem512::MlKem512PrivateKey::try_from(sk), libcrux_ml_kem::mlkem512::MlKem512Ciphertext::try_from(ct)) {
        (Ok(key), Ok(c)) => libcrux_ml_kem::mlkem512::decapsulate(&key, &c).to_vec(),
        _ => Vec::new(),
    }
}

/// `libcrux_ml_kem::mlkem768::generate_key_pair`: a function of the 64-byte seed, giving a
/// 2400-byte secret key and a 1184-byte public key.
#[verifier::external_body]
fn keypair_768(seed: &[u8; 64]) -> (r: (Vec<u8>, Vec<u8>))
    ensures
        (r.0@, r.1@) == lc_ml_kem_768_keypair(seed@),
        r.0.len() == 2400,
        r.1.len() == 1184,
{
    let kp = libcrux_ml_kem::mlkem768::generate_key_pair(*seed);
    (kp.sk().to_vec(), kp.pk().to_vec())
}

/// `libcrux_ml_kem::mlkem768::encapsulate` on a 1184-byte public key and a 32-byte message:
/// a function of both, giving a 1088-byte ciphertext and a 32-byte shared secret.
#[verifier::external_body]
fn encapsulate_768(pk: &[u8], m: &[u8; 32]) -> (r: (Vec<u8>, Vec<u8>))
    requires
        pk.len() == 1184,
    ensures
        (r.0@, r.1@) == lc_ml_kem_768_encapsulate(pk@, m@),
        r.0.len() == 1088,
        r.1.len() == 32,
{
    match libcrux_ml_kem::mlkem768::MlKem768PublicKey::try_from(pk) {
        Ok(key) => {
            let (ct, ss) = libcrux_ml_kem::mlkem768::encapsulate(&key, *m);
            (ct.as_slice().to_vec(), ss.to_vec())
        },
        Err(_) => (Vec::new(), Vec::new()),
    }
}

/// `libcrux_ml_kem::mlkem768::decapsulate` on a 2400-byte secret key and a 1088-byte
/// ciphertext: a function of both, 32 bytes long.
#[verifier::external_body]
fn decapsulate_768(sk: &[u8], ct: &[u8]) -> (ss: Vec<u8>)
    requires
        sk.len() == 2400,
        ct.len() == 1088,
    ensures
        ss@ == lc_ml_kem_768_decapsulate(sk@, ct@),
        ss.len() == 32,
{
    match (libcrux_ml_kem::mlkem768::MlKem768PrivateKey::try_from(sk), libcrux_ml_kem::mlkem768::MlKem768Ciphertext::try_from(ct)) {
        (Ok(key), Ok(c)) => libcrux_ml_kem::mlkem768::decapsulate(&key, &c).to_vec(),
        _ => Vec::new(),
    }
}

/// `libcrux_ml_kem::mlkem1024::generate_key_pair`: a function of the 64-byte seed, giving a
/// 3168-byte secret key and a 1568-byte public key.
#[verifier::external_body]
fn keypair_1024(seed: &[u8; 64]) -> (r: (Vec<u8>, Vec<u8>))
    ensures
        (r.0@, r.1@) == lc_ml_kem_1024_keypair(seed@),
        r.0.len() == 3168,
        r.1.len() == 1568,
{
    let kp = libcrux_ml_kem::mlkem1024::generate_key_pair(*seed);
    (kp.sk().to_vec(), kp.pk().to_vec())
}

/// `libcrux_ml_kem::mlkem1024::encapsulate` on a 1568-byte public key and a 32-byte message:
/// a function of both, giving a 1568-byte ciphertext and a 32-byte shared secret.
#[verifier::external_body]
fn encapsulate_1024(pk: &[u8], m: &[u8; 32]) -> (r: (Vec<u8>, Vec<u8>))
    requires
        pk.len() == 1568,
    ensures
        (r.0@, r.1@) == lc_ml_kem_1024_encapsulate(pk@, m@),
        r.0.len() == 1568,
        r.1.len() == 32,
{
    match libcrux_ml_kem::mlkem1024::MlKem1024PublicKey::try_from(pk) {
        Ok(key) => {
            let (ct, ss) = libcrux_ml_kem::mlkem1024::encapsulate(&key, *m);
            (ct.as_slice().to_vec(), ss.to_vec())
        },
        Err(_) => (Vec::new(), Vec::new()),
    }
}

/// `libcrux_ml_kem::mlkem1024::decapsulate` on a 3168-byte secret key and a 1568-byte
/// ciphertext: a function of both, 32 bytes long.
#[verifier::external_body]
fn decapsulate_1024(sk: &[u8], ct: &[u8]) -> (ss: Vec<u8>)
    requires
        sk.len() == 3168,
        ct.len() == 1568,
    ensures
        ss@ == lc_ml_kem_1024_decapsulate(sk@, ct@),
        ss.len() == 32,
{
    match (libcrux_ml_kem::mlkem1024::MlKem1024PrivateKey::try_from(sk), libcrux_ml_kem::mlkem1024::MlKem1024Ciphertext::try_from(ct)) {
        (Ok(key), Ok(c)) => libcrux_ml_kem::mlkem1024::decapsulate(&key, &c).to_vec(),
        _ => Vec::new(),
    }
}

fn sizes_exec(v: Variant) -> (r: (usize, usize, usize))
    ensures
        r.0 == dk_len(v),
        r.1 == ek_len(v),
        r.2 == ct_len(v),
{
    match v {
        Variant::MlKem512 => (1632, 800, 768),
        Variant::MlKem768 => (2400, 1184, 1088),
        Variant::MlKem1024 => (3168, 1568, 1568),
    }
}

/// The keypair `generate_key_pair` derives from a fresh 64-byte seed.
pub fn keygen(variant: Variant) -> (r: Result<KeyPair, PqcError>)
    ensures
        r matches Err(e) ==> e == PqcError::RandomSourceFailed,
        r matches Ok(kp) ==> exists|seed: Seq<u8>|
            seed.len() == 64 && (kp.sk_seed@, kp.pk_bytes@) == #[trigger] keypair_of(variant, seed),
{
    let seed_v = match os_random_bytes(64) {
        Some(v) => v,
        None => return Err(PqcError::RandomSourceFailed),
    };
    let seed = take64(seed_v.as_slice(), 0);
    let (sk_seed, pk_bytes) = match variant {
        Variant::MlKem512 => keypair_512(&seed),
        Variant::MlKem768 => keypair_768(&seed),
        Variant::MlKem1024 => keypair_1024(&seed),
    };
    proof {
        assert((sk_seed@, pk_bytes@) == keypair_of(variant, seed@));
    }
    Ok(KeyPair { sk_seed, pk_bytes })
}

/// Encapsulates against an encoded public key with a fresh 32-byte message.
pub fn encapsulate(variant: Variant, pk_bytes: &[u8]) -> (r: Result<Encapsulated, PqcError>)
    ensures
        pk_bytes.len() != ek_len(variant) ==> r == Err::<Encapsulated, PqcError>(PqcError::InvalidPublicKey { len: pk_bytes.len() }),
        r matches Err(e) ==> e == (PqcError::InvalidPublicKey { len: pk_bytes.len() }) || e == PqcError::RandomSourceFailed,
        r matches Ok(enc) ==> exists|m: Seq<u8>|
            m.len() == 32 && (enc.ciphertext@, enc.shared_secret@) == #[trigger] encapsulation_of(variant, pk_bytes@, m),
{
    let (_, ekl, _) = sizes_exec(variant);
    if pk_bytes.len() != ekl {
        return Err(PqcError::InvalidPublicKey { len: pk_bytes.len() });
    }
    let m_v = match os_random_bytes(32) {
        Some(v) => v,
        None => return Err(PqcError::RandomSourceFailed),
    };
    let m = take32(m_v.as_slice(), 0);
    let (ciphertext, shared_secret) = match variant {
        Variant::MlKem512 => encapsulate_512(pk_bytes, &m),
        Variant::MlKem768 => encapsulate_768(pk_bytes, &m),
        Variant::MlKem1024 => encapsulate_1024(pk_bytes, &m),
    };
    proof {
        assert((ciphertext@, shared_secret@) == encapsulation_of(variant, pk_bytes@, m@));
    }
    Ok(Encapsulated { ciphertext, shared_secret })
}

/// Recovers the shared secret from a ciphertext with an encoded secret key.
pub fn decapsulate(variant: Variant, sk_seed: &[u8], ciphertext: &[u8]) -> (r: Result<Vec<u8>, PqcError>)
    ensures
        sk_seed.len() != dk_len(variant) ==> r == Err::<Vec<u8>, PqcError>(
            PqcError::WrongLength { what: Encoded::SecretKey, expected: dk_len(variant) as usize, got: sk_seed.len() },
        ),
        sk_seed.len() == dk_len(variant) && ciphertext.len() != ct_len(variant) ==> r == Err::<Vec<u8>, PqcError>(
            PqcError::WrongLength { what: Encoded::Ciphertext, expected: ct_len(variant) as usize, got: ciphertext.len() },
        ),
        sk_seed.len() == dk_len(variant) && ciphertext.len() == ct_len(variant) ==> (r matches Ok(ss) && ss@
            == shared_secret_of(variant, sk_seed@, ciphertext@) && ss.len() == 32),
{
    let (dkl, _, ctl) = sizes_exec(variant);
    if sk_seed.len() != dkl {
        return Err(PqcError::WrongLength { what: Encoded::SecretKey, expected: dkl, got: sk_seed.len() });
    }
    if ciphertext.len() != ctl {
        return Err(PqcError::WrongLength { what: Encoded::Ciphertext, expected: ctl, got: ciphertext.len() });
    }
    let ss = match variant {
        Variant::MlKem512 => decapsulate_512(sk_seed, ciphertext),
        Variant::MlKem768 => decapsulate_768(sk_seed, ciphertext),
        Variant::MlKem1024 => decapsulate_1024(sk_seed, ciphertext),
    };
    Ok(ss)
}

} // verus!
