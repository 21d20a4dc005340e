//! KEM wrap around the runtime-degree K-PKE core, with a byte-level API: the shared secret is
//! SHAKE256(m || ciphertext). This is not FIPS 203's Fujisaki-Okamoto transform (no
//! re-encryption check, no implicit rejection); a genuine round trip agrees regardless.
use crate::bytes::{append_bytes, copy_range};
use crate::custom_kem_encode::{
    concat_rows, decode_pk, decode_sk, encode_pk, encode_sk, eta_bits_spec, kem_pk_layout, lemma_decodes_rows_view,
    pk_len, q_bits_spec, rows_from_fields, rows_view, sk_len,
};
use crate::custom_kem_params::GenericCustomKemParams;
use crate::custom_kem_pke::{
    compress_rows, compress_seq, decrypt, decrypt_mu, derived_seed, encrypt, encrypt_ok, encrypt_u, encrypt_v, kem_params_ok,
    keygen_ok, keygen_t, noise_vec, Ciphertext, PublicKey, SecretKey,
};
use crate::encode::{bytes_for_bits, is_packing_of};
use crate::error::{Encoded, PqcError};
use crate::xof::{os_random_bytes, shake256, shake256_output};
use vstd::prelude::*;

verus! {

pub struct KeyPair {
    pub sk_bytes: Vec<u8>,
    pub pk_bytes: Vec<u8>,
}

/// The shared secret for message `m` and ciphertext bytes `ct`: 32 bytes of SHAKE256(m || ct).
pub open spec fn kdf_spec(m: Seq<u8>, ct: Seq<u8>) -> Seq<u8> {
    shake256_output(m + ct, 32)
}

fn kdf(m: &[u8], ct: &Ciphertext) -> (out: Vec<u8>)
    ensures
        out@ == kdf_spec(m@, ct.u_bytes@ + ct.v_bytes@),
{
    let mut input: Vec<u8> = Vec::new();
    append_bytes(&mut input, m);
    append_bytes(&mut input, ct.u_bytes.as_slice());
    append_bytes(&mut input, ct.v_bytes.as_slice());
    proof {
        assert(input@ =~= m@ + (ct.u_bytes@ + ct.v_bytes@));
    }
    shake256(input.as_slice(), 32)
}

/// Law: the shared secret of an encapsulation is the first 32 bytes of SHAKE256 over the
/// message followed by the whole ciphertext, `u` part then `v` part.
pub proof fn lemma_encapsulation_secret(
    ct: Seq<u8>,
    ss: Seq<u8>,
    p: GenericCustomKemParams,
    rho: Seq<u8>,
    t: Seq<Seq<i32>>,
    m: Seq<u8>,
    coins: Seq<u8>,
)
    requires
        encapsulation_from(ct, ss, p, rho, t, m, coins),
    ensures
        ss == shake256_output(m + ct.subrange(0, u_len(p)) + ct.subrange(u_len(p), ct.len() as int), 32),
{
    assert(ct =~= ct.subrange(0, u_len(p)) + ct.subrange(u_len(p), ct.len() as int));
    assert(m + ct =~= m + ct.subrange(0, u_len(p)) + ct.subrange(u_len(p), ct.len() as int));
}

/// Byte lengths of the two ciphertext parts.
pub open spec fn u_len(p: GenericCustomKemParams) -> int {
    bytes_for_bits(p.du * p.n * p.k)
}

pub open spec fn v_len(p: GenericCustomKemParams) -> int {
    bytes_for_bits(p.dv * p.n)
}

/// Message bytes drawn per encapsulation: one bit per coefficient.
pub open spec fn msg_len(p: GenericCustomKemParams) -> int {
    (p.n + 7) / 8
}

proof fn lemma_sizes(p: GenericCustomKemParams)
    requires
        kem_params_ok(p),
    ensures
        1 <= p.du <= 30,
        1 <= p.dv <= 30,
        32 <= p.n <= 1024,
        p.k * p.n <= 0x40_0000,
        0 <= u_len(p) <= 0x100_0000,
        0 <= v_len(p) <= 0x1000,
        p.du * (p.k * p.n) <= 8 * u_len(p),
        p.dv * p.n <= 8 * v_len(p),
{
    vstd::arithmetic::power2::lemma2_to64();
    crate::encode::lemma_bit_length_le((p.q - 1) as nat, 31);
    assert(p.k * p.n <= 0xFFF * 1024) by (nonlinear_arith)
        requires
            p.k <= 0xFFF,
            p.n <= 1024,
    ;
    assert(p.du * p.n * p.k == p.du * (p.k * p.n)) by (nonlinear_arith);
    assert(p.du * (p.k * p.n) <= 30 * 0x40_0000) by (nonlinear_arith)
        requires
            p.du <= 30,
            p.k * p.n <= 0x40_0000,
    ;
    assert(p.dv * p.n <= 30 * 1024) by (nonlinear_arith)
        requires
            p.dv <= 30,
            p.n <= 1024,
    ;
}

fn ciphertext_lengths(params: &GenericCustomKemParams) -> (r: (usize, usize))
    requires
        kem_params_ok(*params),
    ensures
        r.0 == u_len(*params),
        r.1 == v_len(*params),
{
    proof {
        lemma_sizes(*params);
    }
    let ub = params.du as usize * (params.k as usize * params.n);
    let vb = params.dv as usize * params.n;
    proof {
        assert(params.du * (params.k * params.n) == params.du * params.n * params.k) by (nonlinear_arith);
    }
    let u_len = ub / 8 + if ub % 8 != 0 {
        1usize
    } else {
        0usize
    };
    let v_len = vb / 8 + if vb % 8 != 0 {
        1usize
    } else {
        0usize
    };
    (u_len, v_len)
}

/// The key pair generated from `seed`: the public key packs `rho` and `t`, the secret key
/// packs `s` shifted by `eta1`.
pub open spec fn keypair_from_seed(kp: KeyPair, p: GenericCustomKemParams, seed: Seq<u8>) -> bool {
    &&& kem_pk_layout(kp.pk_bytes@, derived_seed(seed, 0), keygen_t(p, seed), p)
    &&& is_packing_of(
        kp.sk_bytes@,
        concat_rows(noise_vec(derived_seed(seed, 1), 0, p.k as int, p.eta1, p), p.eta1 as int),
        eta_bits_spec(p),
    )
}

/// Generates the byte-encoded key pair for a given 32-byte seed.
pub fn keygen_from_seed(params: &GenericCustomKemParams, seed: [u8; 32]) -> (r: Result<KeyPair, PqcError>)
    requires
        kem_params_ok(*params),
    ensures
        !keygen_ok(*params, seed@) ==> r == Err::<KeyPair, PqcError>(PqcError::XofBudgetExhausted),
        keygen_ok(*params, seed@) ==> (r matches Ok(kp) && keypair_from_seed(kp, *params, seed@)),
{
    let (pk, sk) = match crate::custom_kem_pke::keygen(params, seed) {
        Ok(v) => v,
        Err(e) => return Err(e),
    };
    proof {
        assert(crate::custom_kem_pke::noise_ok(derived_seed(seed@, 1), 0, params.k as int, params.eta1, *params)) by {
            assert forall|i: int| 0 <= i < params.k implies #[trigger] crate::custom_kem_pke::noise(
                derived_seed(seed@, 1),
                0 + i,
                params.eta1,
                *params,
            ) is Some by {
                assert(crate::custom_kem_pke::noise(derived_seed(seed@, 1), 0 + i, params.eta1, *params) is Some);
            }
        }
        crate::custom_kem_pke::lemma_noise_bound(derived_seed(seed@, 1), 0, params.k as int, params.eta1, *params);
        assert forall|t: int, i: int| 0 <= t < sk.s.len() && 0 <= i < params.n implies -(params.eta1 as int)
            <= #[trigger] sk.s@[t]@[i] <= params.eta1 by {
            assert(rows_view(sk.s@)[t] == noise_vec(derived_seed(seed@, 1), 0, params.k as int, params.eta1, *params)[t]);
        }
    }
    let sk_bytes = encode_sk(sk.s.as_slice(), params);
    let pk_bytes = encode_pk(&pk.rho, pk.t.as_slice(), params);
    Ok(KeyPair { sk_bytes, pk_bytes })
}

/// Generates a key pair from a fresh OS-random seed. What the seed is cannot be stated; the
/// result is `keygen_from_seed` on some 32-byte seed.
pub fn keygen(params: &GenericCustomKemParams) -> (r: Result<KeyPair, PqcError>)
    requires
        kem_params_ok(*params),
    ensures
        r matches Ok(kp) ==> exists|seed: Seq<u8>| seed.len() == 32 && keypair_from_seed(kp, *params, seed),
        r matches Err(e) ==> e == PqcError::RandomSourceFailed || e == PqcError::XofBudgetExhausted,
{
    let seed_v = match os_random_bytes(32) {
        Some(v) => v,
        None => return Err(PqcError::RandomSourceFailed),
    };
    let seed = crate::bytes::take32(seed_v.as_slice(), 0);
    let r = keygen_from_seed(params, seed);
    proof {
        if r is Ok {
            assert(keypair_from_seed(r->Ok_0, *params, seed@));
            assert(seed@.len() == 32);
        }
    }
    r
}

/// The ciphertext bytes `u || v` and shared secret of encrypting `m` with `coins` to the
/// public key `(rho, t)`.
pub open spec fn encapsulation_from(
    ct: Seq<u8>,
    ss: Seq<u8>,
    p: GenericCustomKemParams,
    rho: Seq<u8>,
    t: Seq<Seq<i32>>,
    m: Seq<u8>,
    coins: Seq<u8>,
) -> bool {
    &&& ct.len() >= u_len(p)
    &&& is_packing_of(ct.subrange(0, u_len(p)), compress_rows(encrypt_u(p, rho, coins), p.n as int, p.du as nat, p.q as int), p.du as nat)
    &&& is_packing_of(ct.subrange(u_len(p), ct.len() as int), compress_seq(encrypt_v(p, t, m, coins), p.dv as nat, p.q as int), p.dv as nat)
    &&& ss == kdf_spec(m, ct)
}

/// The public key's `t` as decoded from its bytes.
pub open spec fn pk_t(p: GenericCustomKemParams, pk_bytes: Seq<u8>) -> Seq<Seq<i32>> {
    rows_from_fields(pk_bytes.subrange(32, pk_bytes.len() as int), q_bits_spec(p), p.k as nat, p.n as nat, 0)
}

/// Encapsulates to `pk_bytes` with a chosen message `m` (`ceil(n/8)` bytes) and `coins`;
/// returns `(ciphertext_bytes, shared_secret_bytes)`.
pub fn encapsulate_with(params: &GenericCustomKemParams, pk_bytes: &[u8], m: &[u8], coins: &[u8; 32]) -> (r: Result<(Vec<u8>, Vec<u8>), PqcError>)
    requires
        kem_params_ok(*params),
        m.len() == msg_len(*params),
    ensures
        pk_bytes.len() != pk_len(*params) ==> r == Err::<(Vec<u8>, Vec<u8>), PqcError>(
            PqcError::WrongLength { what: Encoded::PublicKey, expected: pk_len(*params) as usize, got: pk_bytes.len() },
        ),
        pk_bytes.len() == pk_len(*params) && !encrypt_ok(*params, pk_bytes@.subrange(0, 32), coins@) ==> r == Err::<
            (Vec<u8>, Vec<u8>),
            PqcError,
        >(PqcError::XofBudgetExhausted),
        pk_bytes.len() == pk_len(*params) && encrypt_ok(*params, pk_bytes@.subrange(0, 32), coins@) ==> (r matches Ok(
            (ct, ss),
        ) && encapsulation_from(ct@, ss@, *params, pk_bytes@.subrange(0, 32), pk_t(*params, pk_bytes@), m@, coins@)),
        r matches Ok((ct, ss)) ==> ss@ == shake256_output(
            m@ + ct@.subrange(0, u_len(*params)) + ct@.subrange(u_len(*params), ct@.len() as int),
            32,
        ),
{
    proof {
        lemma_sizes(*params);
    }
    let (rho, t) = match decode_pk(pk_bytes, params) {
        Ok(v) => v,
        Err(e) => return Err(e),
    };
    proof {
        lemma_decodes_rows_view(t@, pk_bytes@.subrange(32, pk_bytes.len() as int), q_bits_spec(*params), params.k as nat, params.n as nat, 0);
    }
    let pk = PublicKey { rho, t };
    let ct = match encrypt(params, &pk, m, coins) {
        Ok(c) => c,
        Err(e) => return Err(e),
    };
    let ss = kdf(m, &ct);
    let mut ct_bytes: Vec<u8> = Vec::new();
    append_bytes(&mut ct_bytes, ct.u_bytes.as_slice());
    append_bytes(&mut ct_bytes, ct.v_bytes.as_slice());
    proof {
        assert(ct.u_bytes@.len() == u_len(*params)) by {
            assert(params.du * (params.k * params.n) == params.du * params.n * params.k) by (nonlinear_arith);
        }
        assert(ct_bytes@.subrange(0, u_len(*params)) =~= ct.u_bytes@);
        assert(ct_bytes@.subrange(u_len(*params), ct_bytes@.len() as int) =~= ct.v_bytes@);
        assert(m@ + (ct.u_bytes@ + ct.v_bytes@) =~= m@ + ct_bytes@.subrange(0, u_len(*params)) + ct_bytes@.subrange(
            u_len(*params),
            ct_bytes@.len() as int,
        ));
    }
    Ok((ct_bytes, ss))
}

/// Encapsulates to `pk_bytes` with a fresh OS-random message and coins; the result is
/// `encapsulate_with` on some message and coins of the right lengths.
pub fn encapsulate(params: &GenericCustomKemParams, pk_bytes: &[u8]) -> (r: Result<(Vec<u8>, Vec<u8>), PqcError>)
    requires
        kem_params_ok(*params),
    ensures
        pk_bytes.len() != pk_len(*params) ==> r == Err::<(Vec<u8>, Vec<u8>), PqcError>(
            PqcError::WrongLength { what: Encoded::PublicKey, expected: pk_len(*params) as usize, got: pk_bytes.len() },
        ),
        r matches Ok((ct, ss)) ==> pk_bytes.len() == pk_len(*params) && exists|m: Seq<u8>, coins: Seq<u8>|
            m.len() == msg_len(*params) && coins.len() == 32 && encapsulation_from(
                ct@,
                ss@,
                *params,
                pk_bytes@.subrange(0, 32),
                pk_t(*params, pk_bytes@),
                m,
                coins,
            ) && ss@ == shake256_output(m + ct@, 32),
{
    proof {
        lemma_sizes(*params);
    }
    let expected = crate::custom_kem_encode::public_key_len(params);
    if pk_bytes.len() != expected {
        return Err(PqcError::WrongLength { what: Encoded::PublicKey, expected, got: pk_bytes.len() });
    }
    let mlen = (params.n + 7) / 8;
    let m = match os_random_bytes(mlen) {
        Some(v) => v,
        None => return Err(PqcError::RandomSourceFailed),
    };
    let coins_v = match os_random_bytes(32) {
        Some(v) => v,
        None => return Err(PqcError::RandomSourceFailed),
    };
    let coins = crate::bytes::take32(coins_v.as_slice(), 0);
    encapsulate_with(params, pk_bytes, m.as_slice(), &coins)
}

/// The shared secret decapsulation recovers from `ct_bytes` with the secret `s`.
pub open spec fn decapsulated(p: GenericCustomKemParams, s: Seq<Seq<i32>>, ct: Seq<u8>, m_bytes: Seq<u8>) -> bool {
    is_packing_of(m_bytes, compress_seq(decrypt_mu(p, s, ct.subrange(0, u_len(p)), ct.subrange(u_len(p), ct.len() as int)), 1, p.q as int), 1)
}

/// The secret key's `s` as decoded from its bytes.
pub open spec fn sk_s(p: GenericCustomKemParams, sk_bytes: Seq<u8>) -> Seq<Seq<i32>> {
    rows_from_fields(sk_bytes, eta_bits_spec(p), p.k as nat, p.n as nat, p.eta1 as int)
}

/// Decapsulates `ct_bytes` with `sk_bytes`: decrypts the message and hashes it with the
/// ciphertext. Errors are wrong key or ciphertext lengths.
pub fn decapsulate(params: &GenericCustomKemParams, sk_bytes: &[u8], ct_bytes: &[u8]) -> (r: Result<Vec<u8>, PqcError>)
    requires
        kem_params_ok(*params),
    ensures
        sk_bytes.len() != sk_len(*params) ==> r == Err::<Vec<u8>, PqcError>(
            PqcError::WrongLength { what: Encoded::SecretKey, expected: sk_len(*params) as usize, got: sk_bytes.len() },
        ),
        sk_bytes.len() == sk_len(*params) && ct_bytes.len() != u_len(*params) + v_len(*params) ==> r == Err::<
            Vec<u8>,
            PqcError,
        >(PqcError::WrongLength {
            what: Encoded::Ciphertext,
            expected: (u_len(*params) + v_len(*params)) as usize,
            got: ct_bytes.len(),
        }),
        sk_bytes.len() == sk_len(*params) && ct_bytes.len() == u_len(*params) + v_len(*params) ==> (r matches Ok(ss)
            && exists|m: Seq<u8>| decapsulated(*params, sk_s(*params, sk_bytes@), ct_bytes@, m) && ss@ == kdf_spec(m, ct_bytes@)
            && ss@ == shake256_output(m + ct_bytes@.subrange(0, u_len(*params)) + ct_bytes@.subrange(u_len(*params), ct_bytes@.len() as int), 32)),
{
    proof {
        lemma_sizes(*params);
    }
    let s = match decode_sk(sk_bytes, params) {
        Ok(v) => v,
        Err(e) => return Err(e),
    };
    proof {
        lemma_decodes_rows_view(s@, sk_bytes@, eta_bits_spec(*params), params.k as nat, params.n as nat, params.eta1 as int);
    }
    let (u_len, v_len) = ciphertext_lengths(params);
    if ct_bytes.len() != u_len + v_len {
        return Err(PqcError::WrongLength { what: Encoded::Ciphertext, expected: u_len + v_len, got: ct_bytes.len() });
    }
    let ct = Ciphertext { u_bytes: copy_range(ct_bytes, 0, u_len), v_bytes: copy_range(ct_bytes, u_len, ct_bytes.len()) };
    let sk = SecretKey { s };
    let m = decrypt(params, &sk, &ct);
    let ss = kdf(m.as_slice(), &ct);
    proof {
        assert(ct.u_bytes@ + ct.v_bytes@ =~= ct_bytes@);
        assert(ct.u_bytes@ =~= ct_bytes@.subrange(0, u_len as int));
        assert(ct.v_bytes@ =~= ct_bytes@.subrange(u_len as int, ct_bytes@.len() as int));
        assert(m@ + ct_bytes@ =~= m@ + ct_bytes@.subrange(0, u_len as int) + ct_bytes@.subrange(u_len as int, ct_bytes@.len() as int));
    }
    Ok(ss)
}

} // verus!
