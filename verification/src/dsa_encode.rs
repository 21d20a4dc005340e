//! Key/signature byte packing for the DSA path, built on `encode::byte_encode/byte_decode`.
//! FIPS 204-exact: the public key stores the compressed `t1`, the secret key stores `t0` and a
//! 64-byte `tr`, and the hint uses the spec's compact position-list encoding (Algorithms 20/21).
use crate::bytes::{
    append_bytes,
    copy_range,
    flat_coeffs,
    flatten_polys,
    lemma_flat_index,
    shifted_flat,
    take32,
    take64,
};
use crate::dsa_params::GenericDsaParams;
use crate::dsa_rounding::{count_true, hint_count, Hint};
use crate::encode::{
    bit_length,
    bits_for_q,
    byte_decode,
    byte_encode,
    bytes_for_bits,
    decoded_field,
    is_packing_of,
};
use crate::error::{Encoded, PqcError};
use crate::poly::{Poly, N};
use vstd::prelude::*;

verus! {

/// Bytes taken by `count` polynomials at `bits` bits per coefficient.
pub open spec fn poly_vec_len_spec(bits: nat, count: nat) -> int {
    bytes_for_bits(bits * N * count)
}

/// `out` holds `count` polynomials whose coefficients are the consecutive `bits`-bit fields
/// of `bytes`, each mapped through `c -> b - c` when `shift` is `Some(b)`.
pub open spec fn decodes_polys(out: Seq<Poly>, bytes: Seq<u8>, bits: nat, count: nat, shift: Option<i32>) -> bool {
    &&& out.len() == count
    &&& forall|t: int, i: int|
        0 <= t < count && 0 <= i < N ==> #[trigger] out[t].coeffs@[i] == match shift {
            None => decoded_field(bytes, bits, t * N + i),
            Some(b) => (b - decoded_field(bytes, bits, t * N + i)) as i32,
        }
}

pub fn encode_poly_vec(v: &[Poly], bits: u32) -> (out: Vec<u8>)
    requires
        bits <= 32,
        v.len() * N * 32 + 8 <= usize::MAX,
    ensures
        is_packing_of(out@, flat_coeffs(v@), bits as nat),
{
    let coeffs = flatten_polys(v, None);
    proof {
        assert(bits * (v.len() * N) <= 32 * (v.len() * N)) by (nonlinear_arith)
            requires
                bits <= 32,
        ;
    }
    byte_encode(coeffs.as_slice(), bits)
}

fn decode_polys(bytes: &[u8], bits: u32, count: usize, shift: Option<i32>) -> (out: Vec<Poly>)
    requires
        bits <= 31,
        bits * (count * N) <= 8 * bytes.len(),
        8 * bytes.len() <= usize::MAX,
        shift matches Some(b) ==> b >= 0,
    ensures
        decodes_polys(out@, bytes@, bits as nat, count as nat, shift),
{
    proof {
        assert(count * N <= 8 * bytes.len() || bits == 0) by (nonlinear_arith)
            requires
                bits * (count * N) <= 8 * bytes.len(),
        ;
    }
    let total = if bits == 0 {
        0
    } else {
        count * N
    };
    let coeffs = if bits == 0 {
        Vec::new()
    } else {
        byte_decode(bytes, bits, total)
    };
    let mut out: Vec<Poly> = Vec::with_capacity(count);
    let mut t: usize = 0;
    while t < count
        invariant
            bits <= 31,
            bits > 0 ==> coeffs@ == crate::encode::decode_fields(bytes@, bits as nat, (count * N) as nat),
            bits > 0 ==> count * N <= 8 * bytes.len(),
            8 * bytes.len() <= usize::MAX,
            shift matches Some(b) ==> b >= 0,
            t <= count,
            out.len() == t,
            forall|s: int, i: int|
                0 <= s < t && 0 <= i < N ==> #[trigger] out@[s].coeffs@[i] == match shift {
                    None => decoded_field(bytes@, bits as nat, s * N + i),
                    Some(b) => (b - decoded_field(bytes@, bits as nat, s * N + i)) as i32,
                },
        decreases count - t,
    {
        let mut p = Poly::zero();
        let mut i: usize = 0;
        while i < N
            invariant
                bits <= 31,
                bits > 0 ==> coeffs@ == crate::encode::decode_fields(bytes@, bits as nat, (count * N) as nat),
                bits > 0 ==> count * N <= 8 * bytes.len(),
                8 * bytes.len() <= usize::MAX,
                shift matches Some(b) ==> b >= 0,
                t < count,
                i <= N,
                forall|j: int|
                    0 <= j < i ==> #[trigger] p.coeffs@[j] == match shift {
                        None => decoded_field(bytes@, bits as nat, t * N + j),
                        Some(b) => (b - decoded_field(bytes@, bits as nat, t * N + j)) as i32,
                    },
            decreases N - i,
        {
            proof {
                assert(t * N + i < count * N) by (nonlinear_arith)
                    requires
                        t < count,
                        i < N,
                ;
                lemma_decoded_field_bound(bytes@, bits as nat, (t * N + i) as int);
            }
            let c: i32 = if bits == 0 {
                proof {
                    lemma_decoded_field_zero_width(bytes@, (t * N + i) as int);
                }
                0
            } else {
                coeffs[t * N + i]
            };
            p.coeffs[i] = match shift {
                None => c,
                Some(b) => b - c,
            };
            i = i + 1;
        }
        out.push(p);
        t = t + 1;
    }
    out
}

proof fn lemma_decoded_field_zero_width(bytes: Seq<u8>, j: int)
    ensures
        decoded_field(bytes, 0, j) == 0,
{
}

/// A field of at most 31 bits decodes to a non-negative value below `2^bits`.
proof fn lemma_decoded_field_bound(bytes: Seq<u8>, bits: nat, j: int)
    requires
        bits <= 31,
    ensures
        0 <= decoded_field(bytes, bits, j) < vstd::arithmetic::power2::pow2(bits),
{
    lemma_stream_value_bound(bytes, j * bits, bits);
    vstd::arithmetic::power2::lemma2_to64();
    if bits < 31 {
        vstd::arithmetic::power2::lemma_pow2_strictly_increases(bits, 31);
    }
}

pub(crate) proof fn lemma_stream_value_bound(bytes: Seq<u8>, start: int, n: nat)
    ensures
        crate::encode::stream_value(bytes, start, n) < vstd::arithmetic::power2::pow2(n),
    decreases n,
{
    if n == 0 {
        vstd::arithmetic::power2::lemma2_to64();
    } else {
        lemma_stream_value_bound(bytes, start, (n - 1) as nat);
        vstd::arithmetic::power2::lemma_pow2_unfold(n);
    }
}

pub fn decode_poly_vec(bytes: &[u8], bits: u32, count: usize) -> (out: Vec<Poly>)
    requires
        bits <= 31,
        bits * (count * N) <= 8 * bytes.len(),
        8 * bytes.len() <= usize::MAX,
    ensures
        decodes_polys(out@, bytes@, bits as nat, count as nat, None),
{
    decode_polys(bytes, bits, count, None)
}

/// FIPS 204's BitPack convention (Algorithms 17/18, used for z, s1/s2 and t0 alike) encodes
/// `b - w`, not `w + b`.
pub fn encode_shifted(v: &[Poly], b: i32, bits: u32) -> (out: Vec<u8>)
    requires
        bits <= 32,
        v.len() * N * 32 + 8 <= usize::MAX,
        forall|t: int, i: int|
            0 <= t < v.len() && 0 <= i < N ==> i32::MIN <= b - #[trigger] v@[t].coeffs@[i]
                <= i32::MAX,
    ensures
        is_packing_of(out@, shifted_flat(v@, b as int), bits as nat),
{
    let coeffs = flatten_polys(v, Some(b));
    proof {
        assert(bits * (v.len() * N) <= 32 * (v.len() * N)) by (nonlinear_arith)
            requires
                bits <= 32,
        ;
    }
    byte_encode(coeffs.as_slice(), bits)
}

pub fn decode_shifted(bytes: &[u8], b: i32, bits: u32, count: usize) -> (out: Vec<Poly>)
    requires
        bits <= 31,
        b >= 0,
        bits * (count * N) <= 8 * bytes.len(),
        8 * bytes.len() <= usize::MAX,
    ensures
        decodes_polys(out@, bytes@, bits as nat, count as nat, Some(b)),
{
    decode_polys(bytes, bits, count, Some(b))
}

/// Packed sizes for at most 65535 polynomials of at most 32-bit coefficients stay below 2^29 bits.
proof fn lemma_pack_len(bits: nat, count: nat)
    requires
        bits <= 32,
        count <= 0xffff,
    ensures
        bits * N * count <= 0x2000_0000,
        bits * (count * N) == bits * N * count,
        0 <= poly_vec_len_spec(bits, count) <= 0x400_0000,
        8 * poly_vec_len_spec(bits, count) >= bits * (count * N),
{
    assert(bits * N * count <= 32 * 256 * 0xffff) by (nonlinear_arith)
        requires
            bits <= 32,
            count <= 0xffff,
    ;
    assert(bits * (count * N) == bits * N * count) by (nonlinear_arith);
}

pub fn poly_vec_byte_len(bits: u32, count: usize) -> (r: usize)
    requires
        bits <= 32,
        count <= 0xffff,
    ensures
        r == poly_vec_len_spec(bits as nat, count as nat),
{
    proof {
        lemma_pack_len(bits as nat, count as nat);
    }
    let total = (bits as usize) * N * count;
    total / 8 + if total % 8 != 0 {
        1usize
    } else {
        0usize
    }
}

/// Width of a `t1` coefficient: `t1` lies in `[0, (q - 1) >> 13]`.
pub open spec fn t1_bits_spec(q: int) -> nat {
    bit_length(((q - 1) / 8192) as nat)
}

/// t1 (Power2Round's high bits) coefficients are always in [0, (q-1)>>13] — non-negative, no
/// shift needed, unlike t0.
pub fn t1_bits(q: i32) -> (r: u32)
    requires
        q >= 1,
    ensures
        r as nat == t1_bits_spec(q as int),
        r <= 31,
{
    let t1_max = (q - 1) / 8192;
    bits_for_q(t1_max + 1)
}

/// t0 coefficients lie in [-4095, 4096]; encoded as `4096 - t0` they fill [0, 8191] (13 bits).
pub const T0_SHIFT: i32 = 4096;

pub const T0_BITS: u32 = 13;

/// Width of a secret-key (`s1`/`s2`) coefficient: `eta - s` lies in `[0, 2 eta]`.
pub open spec fn eta_bits_spec(eta: int) -> nat {
    bit_length((2 * eta) as nat)
}

/// Width of a signature `z` coefficient: `gamma1 - z` lies in `[0, 2 gamma1)`.
pub open spec fn z_bits_spec(gamma1: int) -> nat {
    bit_length((2 * gamma1 - 1) as nat)
}

/// Parameters for which the byte lengths of every DSA encoding fit comfortably in `usize`.
pub open spec fn codec_params_ok(p: GenericDsaParams) -> bool {
    &&& 1 <= p.q < 0x7fff_ffff
    &&& 1 <= p.eta <= 0x3fff_ffff
    &&& 1 <= p.gamma1 <= 0x3fff_ffff
    &&& p.k <= 0xffff
    &&& p.l <= 0xffff
    &&& p.omega <= 0x3fff_ffff
    &&& p.lambda <= 0x3fff_ffff
}

/// Encoded public key: `rho || pack(t1, t1_bits(q))`.
pub open spec fn pk_layout(bytes: Seq<u8>, rho: Seq<u8>, t1: Seq<Poly>, p: GenericDsaParams) -> bool {
    &&& bytes.len() >= 32
    &&& bytes.subrange(0, 32) == rho
    &&& is_packing_of(bytes.subrange(32, bytes.len() as int), flat_coeffs(t1), t1_bits_spec(p.q as int))
}

pub fn encode_pk(rho: &[u8; 32], t1: &[Poly], params: &GenericDsaParams) -> (out: Vec<u8>)
    requires
        1 <= params.q,
        t1.len() <= 0xffff,
    ensures
        pk_layout(out@, rho@, t1@, *params),
{
    let mut out: Vec<u8> = Vec::new();
    append_bytes(&mut out, rho);
    let packed = encode_poly_vec(t1, t1_bits(params.q));
    append_bytes(&mut out, packed.as_slice());
    assert(out@.subrange(0, 32) =~= rho@);
    assert(out@.subrange(32, out@.len() as int) =~= packed@);
    out
}

/// Expected public-key length.
pub open spec fn pk_len_spec(p: GenericDsaParams) -> int {
    32 + poly_vec_len_spec(t1_bits_spec(p.q as int), p.k as nat)
}

pub fn decode_pk(bytes: &[u8], params: &GenericDsaParams) -> (r: Result<([u8; 32], Vec<Poly>), PqcError>)
    requires
        codec_params_ok(*params),
    ensures
        r is Err <==> bytes.len() != pk_len_spec(*params),
        r matches Err(e) ==> e == (PqcError::WrongLength {
            what: Encoded::PublicKey,
            expected: pk_len_spec(*params) as usize,
            got: bytes.len(),
        }),
        r matches Ok((rho, t1)) ==> rho@ == bytes@.subrange(0, 32) && decodes_polys(
            t1@,
            bytes@.subrange(32, bytes.len() as int),
            t1_bits_spec(params.q as int),
            params.k as nat,
            None,
        ),
{
    let bits = t1_bits(params.q);
    let t1_len = poly_vec_byte_len(bits, params.k as usize);
    proof {
        lemma_pack_len(bits as nat, params.k as nat);
    }
    let expected = 32 + t1_len;
    if bytes.len() != expected {
        return Err(PqcError::WrongLength { what: Encoded::PublicKey, expected, got: bytes.len() });
    }
    let rho = take32(bytes, 0);
    let rest = copy_range(bytes, 32, bytes.len());
    proof {
        lemma_pack_len(bits as nat, params.k as nat);
    }
    let t1 = decode_poly_vec(rest.as_slice(), bits, params.k as usize);
    Ok((rho, t1))
}

/// Encoded secret key: `rho || K || tr || pack(eta - s1) || pack(eta - s2) || pack(4096 - t0)`.
pub open spec fn sk_layout(
    bytes: Seq<u8>,
    rho: Seq<u8>,
    cap_k: Seq<u8>,
    tr: Seq<u8>,
    s1: Seq<Poly>,
    s2: Seq<Poly>,
    t0: Seq<Poly>,
    p: GenericDsaParams,
) -> bool {
    let eb = eta_bits_spec(p.eta as int);
    let l1 = bytes_for_bits(eb * (s1.len() * N));
    let l2 = bytes_for_bits(eb * (s2.len() * N));
    let l3 = bytes_for_bits(13 * (t0.len() * N));
    &&& bytes.len() == 128 + l1 + l2 + l3
    &&& bytes.subrange(0, 32) == rho
    &&& bytes.subrange(32, 64) == cap_k
    &&& bytes.subrange(64, 128) == tr
    &&& is_packing_of(bytes.subrange(128, 128 + l1), shifted_flat(s1, p.eta as int), eb)
    &&& is_packing_of(bytes.subrange(128 + l1, 128 + l1 + l2), shifted_flat(s2, p.eta as int), eb)
    &&& is_packing_of(bytes.subrange(128 + l1 + l2, 128 + l1 + l2 + l3), shifted_flat(t0, 4096), 13)
}

pub fn encode_sk(
    rho: &[u8; 32],
    cap_k: &[u8; 32],
    tr: &[u8; 64],
    s1: &[Poly],
    s2: &[Poly],
    t0: &[Poly],
    params: &GenericDsaParams,
) -> (out: Vec<u8>)
    requires
        1 <= params.eta <= 0x3fff_ffff,
        s1.len() <= 0xffff,
        s2.len() <= 0xffff,
        t0.len() <= 0xffff,
        forall|t: int, i: int|
            0 <= t < s1.len() && 0 <= i < N ==> i32::MIN <= params.eta - #[trigger] s1@[t].coeffs@[i]
                <= i32::MAX,
        forall|t: int, i: int|
            0 <= t < s2.len() && 0 <= i < N ==> i32::MIN <= params.eta - #[trigger] s2@[t].coeffs@[i]
                <= i32::MAX,
        forall|t: int, i: int|
            0 <= t < t0.len() && 0 <= i < N ==> i32::MIN <= 4096 - #[trigger] t0@[t].coeffs@[i]
                <= i32::MAX,
    ensures
        sk_layout(out@, rho@, cap_k@, tr@, s1@, s2@, t0@, *params),
{
    let eta_bits = bits_for_q(2 * params.eta as i32 + 1);
    let mut out: Vec<u8> = Vec::new();
    append_bytes(&mut out, rho);
    append_bytes(&mut out, cap_k);
    append_bytes(&mut out, tr);
    let e1 = encode_shifted(s1, params.eta as i32, eta_bits);
    let e2 = encode_shifted(s2, params.eta as i32, eta_bits);
    let e3 = encode_shifted(t0, T0_SHIFT, T0_BITS);
    append_bytes(&mut out, e1.as_slice());
    append_bytes(&mut out, e2.as_slice());
    append_bytes(&mut out, e3.as_slice());
    proof {
        let l1 = e1@.len() as int;
        let l2 = e2@.len() as int;
        assert(out@.subrange(0, 32) =~= rho@);
        assert(out@.subrange(32, 64) =~= cap_k@);
        assert(out@.subrange(64, 128) =~= tr@);
        assert(out@.subrange(128, 128 + l1) =~= e1@);
        assert(out@.subrange(128 + l1, 128 + l1 + l2) =~= e2@);
        assert(out@.subrange(128 + l1 + l2, out@.len() as int) =~= e3@);
    }
    out
}

pub struct DecodedSk {
    pub rho: [u8; 32],
    pub cap_k: [u8; 32],
    pub tr: [u8; 64],
    pub s1: Vec<Poly>,
    pub s2: Vec<Poly>,
    pub t0: Vec<Poly>,
}

/// Expected secret-key length.
pub open spec fn sk_len_spec(p: GenericDsaParams) -> int {
    let eb = eta_bits_spec(p.eta as int);
    128 + poly_vec_len_spec(eb, p.l as nat) + poly_vec_len_spec(eb, p.k as nat)
        + poly_vec_len_spec(13, p.k as nat)
}

pub fn decode_sk(bytes: &[u8], params: &GenericDsaParams) -> (r: Result<DecodedSk, PqcError>)
    requires
        codec_params_ok(*params),
    ensures
        r is Err <==> bytes.len() != sk_len_spec(*params),
        r matches Err(e) ==> e == (PqcError::WrongLength {
            what: Encoded::SecretKey,
            expected: sk_len_spec(*params) as usize,
            got: bytes.len(),
        }),
        r matches Ok(d) ==> ({
            let eb = eta_bits_spec(params.eta as int);
            let l1 = poly_vec_len_spec(eb, params.l as nat) as int;
            let l2 = poly_vec_len_spec(eb, params.k as nat) as int;
            &&& d.rho@ == bytes@.subrange(0, 32)
            &&& d.cap_k@ == bytes@.subrange(32, 64)
            &&& d.tr@ == bytes@.subrange(64, 128)
            &&& decodes_polys(d.s1@, bytes@.subrange(128, 128 + l1), eb, params.l as nat, Some(params.eta as i32))
            &&& decodes_polys(d.s2@, bytes@.subrange(128 + l1, 128 + l1 + l2), eb, params.k as nat, Some(params.eta as i32))
            &&& decodes_polys(d.t0@, bytes@.subrange(128 + l1 + l2, bytes.len() as int), 13, params.k as nat, Some(4096))
        }),
{
    let eta_bits = bits_for_q(2 * params.eta as i32 + 1);
    let k = params.k as usize;
    let l = params.l as usize;
    let s1_len = poly_vec_byte_len(eta_bits, l);
    let s2_len = poly_vec_byte_len(eta_bits, k);
    let t0_len = poly_vec_byte_len(T0_BITS, k);
    proof {
        lemma_pack_len(eta_bits as nat, l as nat);
        lemma_pack_len(eta_bits as nat, k as nat);
        lemma_pack_len(13, k as nat);
    }
    let expected = 128 + s1_len + s2_len + t0_len;
    if bytes.len() != expected {
        return Err(PqcError::WrongLength { what: Encoded::SecretKey, expected, got: bytes.len() });
    }
    let rho = take32(bytes, 0);
    let cap_k = take32(bytes, 32);
    let tr = take64(bytes, 64);
    let b1 = copy_range(bytes, 128, 128 + s1_len);
    let b2 = copy_range(bytes, 128 + s1_len, 128 + s1_len + s2_len);
    let b3 = copy_range(bytes, 128 + s1_len + s2_len, bytes.len());
    proof {
        lemma_pack_len(eta_bits as nat, l as nat);
        lemma_pack_len(eta_bits as nat, k as nat);
        lemma_pack_len(13, k as nat);
    }
    let s1 = decode_shifted(b1.as_slice(), params.eta as i32, eta_bits, l);
    let s2 = decode_shifted(b2.as_slice(), params.eta as i32, eta_bits, k);
    let t0 = decode_shifted(b3.as_slice(), T0_SHIFT, T0_BITS, k);
    Ok(DecodedSk { rho, cap_k, tr, s1, s2, t0 })
}


/// Positions (as bytes) of the set entries among the first `n` of `row`, in increasing order.
pub open spec fn row_positions(row: Seq<bool>, n: int) -> Seq<u8>
    decreases n,
{
    if n <= 0 {
        Seq::empty()
    } else {
        row_positions(row, n - 1) + if row[n - 1] {
            seq![(n - 1) as u8]
        } else {
            Seq::<u8>::empty()
        }
    }
}

/// Set positions of the first `i` rows of a hint, row after row.
pub open spec fn hint_positions(h: Seq<Vec<bool>>, i: int) -> Seq<u8>
    decreases i,
{
    if i <= 0 {
        Seq::empty()
    } else {
        hint_positions(h, i - 1) + row_positions(h[i - 1]@, h[i - 1]@.len() as int)
    }
}

proof fn lemma_row_positions_len(row: Seq<bool>, n: int)
    requires
        0 <= n <= row.len(),
    ensures
        row_positions(row, n).len() == count_true(row, n),
    decreases n,
{
    if n > 0 {
        lemma_row_positions_len(row, n - 1);
    }
}

proof fn lemma_hint_positions_len(h: Seq<Vec<bool>>, i: int)
    requires
        0 <= i <= h.len(),
    ensures
        hint_positions(h, i).len() == hint_count(h, i),
    decreases i,
{
    if i > 0 {
        lemma_hint_positions_len(h, i - 1);
        lemma_row_positions_len(h[i - 1]@, h[i - 1]@.len() as int);
    }
}

/// FIPS 204 HintBitPack layout of `y` for hint `h`: the set positions row after row, zero
/// padding up to `omega`, then the running count of set bits after each row.
pub open spec fn is_hint_packing(y: Seq<u8>, h: Seq<Vec<bool>>, omega: int) -> bool {
    let k = h.len() as int;
    let count = hint_count(h, k) as int;
    &&& y.len() == omega + k
    &&& y.subrange(0, count) == hint_positions(h, k)
    &&& forall|m: int| count <= m < omega ==> #[trigger] y[m] == 0
    &&& forall|i: int| 0 <= i < k ==> #[trigger] y[omega + i] == hint_count(h, i + 1) as u8
}

/// FIPS 204 Algorithm 20 (HintBitPack): `omega + k` bytes total — the first `omega` bytes hold
/// the positions of the set hints per polynomial in order, the last `k` bytes hold the running
/// count of hints after each polynomial.
pub fn hint_pack(h: &Hint, omega: usize) -> (y: Vec<u8>)
    requires
        hint_count(h@, h.len() as int) <= omega,
        omega + h.len() <= usize::MAX,
    ensures
        is_hint_packing(y@, h@, omega as int),
{
    let k = h.len();
    let mut y: Vec<u8> = vec![0u8; omega + k];
    let mut index: usize = 0;
    let mut i: usize = 0;
    proof {
        lemma_hint_positions_len(h@, k as int);
    }
    while i < k
        invariant
            k == h.len(),
            y.len() == omega + k,
            hint_count(h@, k as int) <= omega,
            i <= k,
            index == hint_count(h@, i as int),
            y@.subrange(0, index as int) == hint_positions(h@, i as int),
            forall|m: int| index <= m < omega ==> #[trigger] y@[m] == 0,
            forall|s: int| 0 <= s < i ==> #[trigger] y@[omega + s] == hint_count(h@, s + 1) as u8,
        decreases k - i,
    {
        let row = &h[i];
        let mut j: usize = 0;
        proof {
            lemma_hint_count_mono(h@, i as int + 1, k as int);
            lemma_hint_positions_len(h@, i as int);
        }
        while j < row.len()
            invariant
                k == h.len(),
                y.len() == omega + k,
                i < k,
                row@ == h@[i as int]@,
                hint_count(h@, i as int) + count_true(row@, row@.len() as int) <= omega,
                j <= row.len(),
                index == hint_count(h@, i as int) + count_true(row@, j as int),
                y@.subrange(0, index as int) == hint_positions(h@, i as int) + row_positions(
                    row@,
                    j as int,
                ),
                forall|m: int| index <= m < omega ==> #[trigger] y@[m] == 0,
                forall|s: int| 0 <= s < i ==> #[trigger] y@[omega + s] == hint_count(h@, s + 1) as u8,
            decreases row.len() - j,
        {
            proof {
                lemma_count_true_mono(row@, j as int + 1, row@.len() as int);
            }
            if row[j] {
                let ghost before = y@;
                y[index] = j as u8;
                index = index + 1;
                proof {
                    assert(y@.subrange(0, index as int) =~= before.subrange(0, index - 1).push(
                        j as u8,
                    ));
                }
            }
            j = j + 1;
            proof {
                assert(y@.subrange(0, index as int) =~= hint_positions(h@, i as int) + row_positions(
                    row@,
                    j as int,
                ));
            }
        }
        y[omega + i] = index as u8;
        i = i + 1;
        proof {
            assert(y@.subrange(0, index as int) =~= hint_positions(h@, i as int));
        }
    }
    y
}

proof fn lemma_count_true_mono(row: Seq<bool>, a: int, b: int)
    requires
        0 <= a <= b <= row.len(),
    ensures
        count_true(row, a) <= count_true(row, b),
    decreases b - a,
{
    if a < b {
        lemma_count_true_mono(row, a, b - 1);
    }
}

proof fn lemma_hint_count_mono(h: Seq<Vec<bool>>, a: int, b: int)
    requires
        0 <= a <= b <= h.len(),
    ensures
        hint_count(h, a) <= hint_count(h, b),
    decreases b - a,
{
    if a < b {
        lemma_hint_count_mono(h, a, b - 1);
    }
}


/// Cut point `i` of an encoded hint: the running count stored after polynomial `i`.
pub open spec fn hint_cut(y: Seq<u8>, omega: int, i: int) -> int {
    y[omega + i] as int
}

/// Start of polynomial `i`'s segment of positions.
pub open spec fn hint_seg_start(y: Seq<u8>, omega: int, i: int) -> int {
    if i == 0 {
        0
    } else {
        hint_cut(y, omega, i - 1)
    }
}

pub open spec fn hint_cuts_monotone(y: Seq<u8>, omega: int, k: int) -> bool {
    forall|i: int| 0 <= i < k - 1 ==> #[trigger] hint_cut(y, omega, i) <= hint_cut(y, omega, i + 1)
}

/// Largest of the first `n` cut points (0 when `n == 0`).
pub open spec fn hint_max_cut(y: Seq<u8>, omega: int, n: int) -> int
    decreases n,
{
    if n <= 0 {
        0
    } else {
        let rest = hint_max_cut(y, omega, n - 1);
        if hint_cut(y, omega, n - 1) > rest {
            hint_cut(y, omega, n - 1)
        } else {
            rest
        }
    }
}

/// `y[start..end]` is strictly increasing.
#[verifier::opaque]
pub open spec fn increasing_run(y: Seq<u8>, start: int, end: int) -> bool {
    forall|m: int| start <= m < end - 1 ==> #[trigger] y[m] < y[m + 1]
}

/// Some entry of `y[start..end]` equals `j`.
#[verifier::opaque]
pub open spec fn listed_in(y: Seq<u8>, start: int, end: int, j: int) -> bool {
    exists|m: int| start <= m < end && #[trigger] y[m] as int == j
}

/// The positions in polynomial `i`'s segment are strictly increasing.
pub open spec fn hint_seg_increasing(y: Seq<u8>, omega: int, i: int) -> bool {
    increasing_run(y, hint_seg_start(y, omega, i), hint_cut(y, omega, i))
}

/// Position `j` of polynomial `i` is listed in its segment.
pub open spec fn hint_listed(y: Seq<u8>, omega: int, i: int, j: int) -> bool {
    listed_in(y, hint_seg_start(y, omega, i), hint_cut(y, omega, i), j)
}

proof fn lemma_max_cut_bound(y: Seq<u8>, omega: int, n: int, i: int)
    requires
        0 <= i < n,
    ensures
        hint_cut(y, omega, i) <= hint_max_cut(y, omega, n),
    decreases n,
{
    if i < n - 1 {
        lemma_max_cut_bound(y, omega, n - 1, i);
    }
}

proof fn lemma_cuts_monotone_pair(y: Seq<u8>, omega: int, k: int, a: int, b: int)
    requires
        hint_cuts_monotone(y, omega, k),
        0 <= a <= b < k,
    ensures
        hint_cut(y, omega, a) <= hint_cut(y, omega, b),
    decreases b - a,
{
    if a < b {
        lemma_cuts_monotone_pair(y, omega, k, a, b - 1);
        assert(hint_cut(y, omega, b - 1) <= hint_cut(y, omega, b));
    }
}

/// FIPS 204 Algorithm 21 (HintBitUnpack). Rejects malformed encodings (non-monotone cut
/// points, non-increasing indices within a segment) rather than misinterpreting them.
fn strictly_increasing(y: &[u8], start: usize, end: usize) -> (r: bool)
    requires
        start <= end <= y.len(),
    ensures
        r == increasing_run(y@, start as int, end as int),
{
    reveal(increasing_run);
    let mut a = start;
    while a < end && end - a > 1
        invariant
            start <= a,
            a <= end,
            end <= y.len(),
            forall|mm: int| start <= mm < a ==> #[trigger] y@[mm] < y@[mm + 1],
        decreases end - a,
    {
        if y[a] >= y[a + 1] {
            assert(!(y@[a as int] < y@[a + 1]));
            assert(start <= a < end - 1);
            proof {
                reveal(increasing_run);
            }
            assert(!increasing_run(y@, start as int, end as int));
            return false;
        }
        a = a + 1;
    }
    true
}

fn hint_row(y: &[u8], start: usize, end: usize) -> (row: Vec<bool>)
    requires
        start <= end <= y.len(),
    ensures
        row.len() == N,
        forall|j: int| 0 <= j < N ==> #[trigger] row@[j] == listed_in(y@, start as int, end as int, j),
{
    reveal(listed_in);
    let mut row: Vec<bool> = vec![false; N];
    let mut b = start;
    while b < end
        invariant
            start <= b <= end,
            end <= y.len(),
            row.len() == N,
            forall|j: int|
                0 <= j < N ==> #[trigger] row@[j] == exists|mm: int|
                    start <= mm < b && #[trigger] y@[mm] as int == j,
        decreases end - b,
    {
        let j = y[b] as usize;
        row[j] = true;
        proof {
            assert forall|jj: int| 0 <= jj < N implies #[trigger] row@[jj] == exists|mm: int|
                start <= mm < b + 1 && #[trigger] y@[mm] as int == jj by {
                if jj == j {
                    assert(y@[b as int] as int == jj);
                }
            }
        }
        b = b + 1;
    }
    row
}

/// `row` is the decoded row of polynomial `i`: `N` entries, set exactly at its listed positions.
pub open spec fn hint_row_ok(y: Seq<u8>, omega: int, i: int, row: Seq<bool>) -> bool {
    &&& row.len() == N
    &&& forall|j: int| 0 <= j < N ==> row[j] == hint_listed(y, omega, i, j)
}

/// The first polynomial at or after `i` whose segment is not strictly increasing.
pub open spec fn first_bad_segment(y: Seq<u8>, omega: int, k: int, i: int) -> Option<int>
    decreases k - i,
{
    if i >= k {
        None
    } else if !hint_seg_increasing(y, omega, i) {
        Some(i)
    } else {
        first_bad_segment(y, omega, k, i + 1)
    }
}

/// Why HintBitUnpack rejects `y`, checked in order: length, monotone cut points, cut points
/// within `omega`, strictly increasing positions per polynomial; `None` when it accepts.
pub open spec fn hint_unpack_error(y: Seq<u8>, k: int, omega: int) -> Option<PqcError> {
    if y.len() != omega + k {
        Some(PqcError::WrongLength { what: Encoded::Hint, expected: (omega + k) as usize, got: y.len() as usize })
    } else if !hint_cuts_monotone(y, omega, k) {
        Some(PqcError::HintCutsNotMonotone)
    } else if hint_max_cut(y, omega, k) > omega {
        Some(PqcError::HintCutTooLarge { cut: hint_max_cut(y, omega, k) as usize, omega: omega as usize })
    } else {
        match first_bad_segment(y, omega, k, 0) {
            Some(i) => Some(PqcError::HintIndicesNotIncreasing { poly: i as usize }),
            None => None,
        }
    }
}

fn cuts_monotone(y: &[u8], k: usize, omega: usize) -> (r: bool)
    requires
        y.len() == omega + k,
    ensures
        r == hint_cuts_monotone(y@, omega as int, k as int),
{
    let mut i: usize = 1;
    while i < k
        invariant
            y.len() == omega + k,
            1 <= i,
            forall|s: int| 0 <= s < i - 1 ==> #[trigger] hint_cut(y@, omega as int, s) <= hint_cut(
                y@,
                omega as int,
                s + 1,
            ),
        decreases k - i,
    {
        if y[omega + i - 1] > y[omega + i] {
            assert(!(hint_cut(y@, omega as int, i - 1) <= hint_cut(y@, omega as int, (i - 1) + 1)));
            return false;
        }
        i = i + 1;
    }
    true
}

fn max_cut(y: &[u8], k: usize, omega: usize) -> (r: usize)
    requires
        y.len() == omega + k,
    ensures
        r == hint_max_cut(y@, omega as int, k as int),
{
    let mut best: usize = 0;
    let mut m: usize = 0;
    while m < k
        invariant
            y.len() == omega + k,
            m <= k,
            best == hint_max_cut(y@, omega as int, m as int),
        decreases k - m,
    {
        if (y[omega + m] as usize) > best {
            best = y[omega + m] as usize;
        }
        m = m + 1;
    }
    best
}

pub fn hint_unpack(y: &[u8], k: usize, omega: usize) -> (r: Result<Hint, PqcError>)
    requires
        omega + k <= usize::MAX,
    ensures
        hint_unpack_error(y@, k as int, omega as int) matches Some(e) ==> r == Err::<Hint, PqcError>(e),
        hint_unpack_error(y@, k as int, omega as int) is None ==> r is Ok,
        r matches Ok(h) ==> h.len() == k && forall|i: int|
            0 <= i < k ==> #[trigger] hint_row_ok(y@, omega as int, i, h@[i]@),
{
    if y.len() != omega + k {
        return Err(PqcError::WrongLength { what: Encoded::Hint, expected: omega + k, got: y.len() });
    }
    if !cuts_monotone(y, k, omega) {
        return Err(PqcError::HintCutsNotMonotone);
    }
    let max_cut = max_cut(y, k, omega);
    if max_cut > omega {
        return Err(PqcError::HintCutTooLarge { cut: max_cut, omega });
    }
    let mut h: Hint = Vec::with_capacity(k);
    let mut start: usize = 0;
    let mut t: usize = 0;
    while t < k
        invariant
            y.len() == omega + k,
            hint_cuts_monotone(y@, omega as int, k as int),
            max_cut == hint_max_cut(y@, omega as int, k as int),
            max_cut <= omega,
            t <= k,
            start as int == hint_seg_start(y@, omega as int, t as int),
            start <= omega,
            h.len() == t,
            first_bad_segment(y@, omega as int, k as int, 0) == first_bad_segment(
                y@,
                omega as int,
                k as int,
                t as int,
            ),
            forall|s: int| 0 <= s < t ==> #[trigger] hint_row_ok(y@, omega as int, s, h@[s]@),
        decreases k - t,
    {
        let end = y[omega + t] as usize;
        proof {
            lemma_max_cut_bound(y@, omega as int, k as int, t as int);
            if t > 0 {
                lemma_cuts_monotone_pair(y@, omega as int, k as int, t - 1, t as int);
            }
        }
        assert(start <= end);
        if !strictly_increasing(y, start, end) {
            proof {
                assert(!hint_seg_increasing(y@, omega as int, t as int));
                assert(first_bad_segment(y@, omega as int, k as int, t as int) == Some(t as int));
            }
            return Err(PqcError::HintIndicesNotIncreasing { poly: t });
        }
        assert(hint_seg_increasing(y@, omega as int, t as int));
        let row = hint_row(y, start, end);
        let ghost old_h = h@;
        let ghost row_v = row@;
        proof {
            assert forall|j: int| 0 <= j < N implies row_v[j] == hint_listed(
                y@,
                omega as int,
                t as int,
                j,
            ) by {
                assert(row@[j] == listed_in(y@, start as int, end as int, j));
            }
        }
        h.push(row);
        proof {
            assert(hint_row_ok(y@, omega as int, t as int, row_v));
            assert forall|s: int| 0 <= s < t + 1 implies #[trigger] hint_row_ok(
                y@,
                omega as int,
                s,
                h@[s]@,
            ) by {
                if s < t {
                    assert(h@[s] == old_h[s]);
                    assert(hint_row_ok(y@, omega as int, s, old_h[s]@));
                }
            }
        }
        start = end;
        t = t + 1;
    }
    Ok(h)
}


/// Encoded signature: `c_tilde || pack(gamma1 - z, z_bits) || HintBitPack(h, omega)`.
pub open spec fn sig_layout(bytes: Seq<u8>, c_tilde: Seq<u8>, z: Seq<Poly>, h: Seq<Vec<bool>>, p: GenericDsaParams) -> bool {
    let zb = z_bits_spec(p.gamma1 as int);
    let lc = c_tilde.len() as int;
    let lz = bytes_for_bits(zb * (z.len() * N));
    &&& bytes.len() == lc + lz + p.omega + h.len()
    &&& bytes.subrange(0, lc) == c_tilde
    &&& is_packing_of(bytes.subrange(lc, lc + lz), shifted_flat(z, p.gamma1 as int), zb)
    &&& is_hint_packing(bytes.subrange(lc + lz, bytes.len() as int), h, p.omega as int)
}

pub fn encode_sig(c_tilde: &[u8], z: &[Poly], h: &Hint, params: &GenericDsaParams) -> (out: Vec<u8>)
    requires
        1 <= params.gamma1 <= 0x3fff_ffff,
        z.len() <= 0xffff,
        h.len() <= 0xffff,
        params.omega <= 0x3fff_ffff,
        hint_count(h@, h.len() as int) <= params.omega,
        forall|t: int, i: int|
            0 <= t < z.len() && 0 <= i < N ==> i32::MIN <= params.gamma1 - #[trigger] z@[t].coeffs@[i]
                <= i32::MAX,
    ensures
        sig_layout(out@, c_tilde@, z@, h@, *params),
{
    let z_bits = bits_for_q(2 * params.gamma1);
    let mut out: Vec<u8> = Vec::new();
    append_bytes(&mut out, c_tilde);
    let ez = encode_shifted(z, params.gamma1, z_bits);
    let eh = hint_pack(h, params.omega as usize);
    append_bytes(&mut out, ez.as_slice());
    append_bytes(&mut out, eh.as_slice());
    proof {
        let lc = c_tilde@.len() as int;
        let lz = ez@.len() as int;
        assert(out@.subrange(0, lc) =~= c_tilde@);
        assert(out@.subrange(lc, lc + lz) =~= ez@);
        assert(out@.subrange(lc + lz, out@.len() as int) =~= eh@);
    }
    out
}

/// Expected signature length.
pub open spec fn sig_len_spec(p: GenericDsaParams) -> int {
    p.lambda + poly_vec_len_spec(z_bits_spec(p.gamma1 as int), p.l as nat) + p.omega + p.k
}

pub fn decode_sig(bytes: &[u8], params: &GenericDsaParams) -> (r: Result<(Vec<u8>, Vec<Poly>, Hint), PqcError>)
    requires
        codec_params_ok(*params),
    ensures
        bytes.len() != sig_len_spec(*params) ==> r == Err::<(Vec<u8>, Vec<Poly>, Hint), PqcError>(
            PqcError::WrongLength {
                what: Encoded::Signature,
                expected: sig_len_spec(*params) as usize,
                got: bytes.len(),
            },
        ),
        bytes.len() == sig_len_spec(*params) ==> ({
            let lz = poly_vec_len_spec(z_bits_spec(params.gamma1 as int), params.l as nat);
            let tail = bytes@.subrange(params.lambda + lz, bytes.len() as int);
            &&& hint_unpack_error(tail, params.k as int, params.omega as int) matches Some(e)
                ==> r == Err::<(Vec<u8>, Vec<Poly>, Hint), PqcError>(e)
            &&& hint_unpack_error(tail, params.k as int, params.omega as int) is None ==> r is Ok
            &&& r matches Ok((c_tilde, z, h)) ==> {
                &&& c_tilde@ == bytes@.subrange(0, params.lambda as int)
                &&& decodes_polys(
                    z@,
                    bytes@.subrange(params.lambda as int, params.lambda + lz),
                    z_bits_spec(params.gamma1 as int),
                    params.l as nat,
                    Some(params.gamma1),
                )
                &&& h.len() == params.k
                &&& forall|i: int|
                    0 <= i < params.k ==> #[trigger] hint_row_ok(tail, params.omega as int, i, h@[i]@)
            }
        }),
{
    let z_bits = bits_for_q(2 * params.gamma1);
    let k = params.k as usize;
    let l = params.l as usize;
    let lambda = params.lambda as usize;
    let z_len = poly_vec_byte_len(z_bits, l);
    let hint_len = params.omega as usize + k;
    proof {
        lemma_pack_len(z_bits as nat, l as nat);
    }
    let expected = lambda + z_len + hint_len;
    if bytes.len() != expected {
        return Err(PqcError::WrongLength { what: Encoded::Signature, expected, got: bytes.len() });
    }
    let c_tilde = copy_range(bytes, 0, lambda);
    let zb = copy_range(bytes, lambda, lambda + z_len);
    let hb = copy_range(bytes, lambda + z_len, bytes.len());
    let z = decode_shifted(zb.as_slice(), params.gamma1, z_bits, l);
    match hint_unpack(hb.as_slice(), k, params.omega as usize) {
        Ok(h) => Ok((c_tilde, z, h)),
        Err(e) => Err(e),
    }
}


/// `row_positions` lists, in strictly increasing order, exactly the set positions below `n`.
proof fn lemma_row_positions_facts(row: Seq<bool>, n: int)
    requires
        0 <= n <= row.len(),
        n <= 256,
    ensures
        forall|m: int|
            0 <= m < row_positions(row, n).len() ==> (#[trigger] row_positions(row, n)[m] as int) < n,
        forall|m: int|
            0 <= m < row_positions(row, n).len() - 1 ==> #[trigger] row_positions(row, n)[m]
                < row_positions(row, n)[m + 1],
        forall|j: int|
            0 <= j < 256 ==> (exists|m: int|
                0 <= m < row_positions(row, n).len() && #[trigger] row_positions(row, n)[m] as int
                    == j) == (j < n && row[j]),
    decreases n,
{
    if n > 0 {
        lemma_row_positions_facts(row, n - 1);
        let prev = row_positions(row, n - 1);
        let cur = row_positions(row, n);
        if row[n - 1] {
            assert(cur == prev.push((n - 1) as u8));
            assert forall|j: int| 0 <= j < 256 implies (exists|m: int|
                0 <= m < cur.len() && #[trigger] cur[m] as int == j) == (j < n && row[j]) by {
                if j == n - 1 {
                    assert(cur[prev.len() as int] as int == j);
                }
                if exists|m: int| 0 <= m < cur.len() && #[trigger] cur[m] as int == j {
                    let m = choose|m: int| 0 <= m < cur.len() && #[trigger] cur[m] as int == j;
                    if m < prev.len() {
                        assert(prev[m] as int == j);
                    }
                }
                if j < n - 1 && row[j] {
                    let m = choose|m: int| 0 <= m < prev.len() && #[trigger] prev[m] as int == j;
                    assert(cur[m] == prev[m]);
                }
            }
        } else {
            assert(cur =~= prev);
        }
    }
}

proof fn lemma_hint_positions_prefix(h: Seq<Vec<bool>>, i: int, k: int)
    requires
        0 <= i <= k <= h.len(),
    ensures
        hint_positions(h, i).len() <= hint_positions(h, k).len(),
        hint_positions(h, k).subrange(0, hint_positions(h, i).len() as int) == hint_positions(h, i),
    decreases k - i,
{
    if i < k {
        lemma_hint_positions_prefix(h, i, k - 1);
        let a = hint_positions(h, i);
        let b = hint_positions(h, k - 1);
        let c = hint_positions(h, k);
        assert(c == b + row_positions(h[k - 1]@, h[k - 1]@.len() as int));
        assert(c.subrange(0, a.len() as int) =~= b.subrange(0, a.len() as int));
    } else {
        assert(hint_positions(h, k).subrange(0, hint_positions(h, k).len() as int) =~= hint_positions(h, k));
    }
}

proof fn lemma_max_cut_le(y: Seq<u8>, omega: int, n: int, bound: int)
    requires
        bound >= 0,
        forall|i: int| 0 <= i < n ==> #[trigger] hint_cut(y, omega, i) <= bound,
    ensures
        hint_max_cut(y, omega, n) <= bound,
    decreases n,
{
    if n > 0 {
        lemma_max_cut_le(y, omega, n - 1, bound);
    }
}

/// Well-formed hint: `k` rows of `N` bits with at most `omega <= 255` set in total.
pub open spec fn hint_well_formed(h: Seq<Vec<bool>>, omega: int) -> bool {
    &&& forall|i: int| 0 <= i < h.len() ==> #[trigger] h[i]@.len() == N
    &&& hint_count(h, h.len() as int) <= omega
    &&& omega <= 255
}

/// HintBitUnpack accepts what HintBitPack produced, and gives back every row of the hint.
#[verifier::spinoff_prover]
#[verifier::rlimit(40)]
pub proof fn lemma_hint_roundtrip(y: Seq<u8>, h: Seq<Vec<bool>>, omega: int)
    requires
        is_hint_packing(y, h, omega),
        hint_well_formed(h, omega),
    ensures
        hint_unpack_error(y, h.len() as int, omega) is None,
        forall|i: int| 0 <= i < h.len() ==> #[trigger] hint_row_ok(y, omega, i, h[i]@),
{
    let k = h.len() as int;
    let total = hint_count(h, k) as int;
    assert forall|i: int| 0 <= i < k implies #[trigger] hint_cut(y, omega, i) == hint_count(h, i + 1) by {
        lemma_hint_count_mono(h, i + 1, k);
        assert(y[omega + i] == hint_count(h, i + 1) as u8);
    }
    assert forall|i: int| 0 <= i <= k implies #[trigger] hint_seg_start(y, omega, i) == hint_count(h, i) by {
        if i > 0 {
            assert(hint_cut(y, omega, i - 1) == hint_count(h, i));
        }
    }
    assert(hint_cuts_monotone(y, omega, k)) by {
        assert forall|i: int| 0 <= i < k - 1 implies #[trigger] hint_cut(y, omega, i) <= hint_cut(y, omega, i + 1) by {
            lemma_hint_count_mono(h, i + 1, i + 2);
        }
    }
    assert forall|i: int| 0 <= i < k implies #[trigger] hint_cut(y, omega, i) <= omega by {
        lemma_hint_count_mono(h, i + 1, k);
    }
    lemma_max_cut_le(y, omega, k, omega);
    lemma_hint_positions_len(h, k);
    assert forall|i: int| 0 <= i < k implies hint_seg_increasing(y, omega, i) && (#[trigger] hint_row_ok(y, omega, i, h[i]@)) by {
        let row = h[i]@;
        let rp = row_positions(row, row.len() as int);
        let a = hint_count(h, i) as int;
        let b = hint_count(h, i + 1) as int;
        lemma_hint_positions_len(h, i);
        lemma_hint_positions_len(h, i + 1);
        lemma_hint_positions_prefix(h, i + 1, k);
        lemma_hint_count_mono(h, i + 1, k);
        lemma_row_positions_facts(row, row.len() as int);
        let hp = hint_positions(h, i + 1);
        assert(hp == hint_positions(h, i) + rp);
        assert(y.subrange(0, total) == hint_positions(h, k));
        assert forall|m: int| 0 <= m < rp.len() implies #[trigger] y[a + m] == rp[m] by {
            assert(hint_positions(h, k)[a + m] == hp[a + m]);
            assert(y[a + m] == y.subrange(0, total)[a + m]);
        }
        assert(b == a + rp.len());
        assert(hint_seg_start(y, omega, i) == a);
        assert(hint_cut(y, omega, i) == b);
        assert(increasing_run(y, a, b)) by {
            reveal(increasing_run);
            assert forall|m: int| a <= m < b - 1 implies #[trigger] y[m] < y[m + 1] by {
                assert(y[a + (m - a)] == rp[m - a]);
                assert(y[a + (m - a + 1)] == rp[m - a + 1]);
            }
        }
        assert forall|j: int| 0 <= j < N implies row[j] == hint_listed(y, omega, i, j) by {
            reveal(listed_in);
            if row[j] {
                let m = choose|m: int| 0 <= m < rp.len() && #[trigger] rp[m] as int == j;
                assert(y[a + m] == rp[m]);
            }
            if listed_in(y, a, b, j) {
                let mm = choose|mm: int| a <= mm < b && #[trigger] y[mm] as int == j;
                assert(y[a + (mm - a)] == rp[mm - a]);
            }
        }
    }
    assert forall|i: int| 0 <= i < k implies hint_seg_increasing(y, omega, i) by {
        assert(hint_row_ok(y, omega, i, h[i]@));
    }
    lemma_first_bad_none(y, omega, k, 0);
}

proof fn lemma_first_bad_none(y: Seq<u8>, omega: int, k: int, i: int)
    requires
        0 <= i,
        forall|s: int| 0 <= s < k ==> hint_seg_increasing(y, omega, s),
    ensures
        first_bad_segment(y, omega, k, i) is None,
    decreases k - i,
{
    if i < k {
        lemma_first_bad_none(y, omega, k, i + 1);
    }
}


/// Every coefficient of `v` (mapped through `c -> b - c` when `shift` is `Some(b)`) fits in
/// `bits` bits as a non-negative value.
pub open spec fn polys_fit(v: Seq<Poly>, bits: nat, shift: Option<i32>) -> bool {
    forall|t: int, i: int|
        0 <= t < v.len() && 0 <= i < N ==> {
            let c = #[trigger] v[t].coeffs@[i];
            let w = match shift {
                None => c as int,
                Some(b) => b - c,
            };
            0 <= w < vstd::arithmetic::power2::pow2(bits)
        }
}

/// The packing of `v` (shifted when `shift` is `Some(b)`) at `bits` bits per coefficient.
pub open spec fn packs_polys(bytes: Seq<u8>, v: Seq<Poly>, bits: nat, shift: Option<i32>) -> bool {
    match shift {
        None => is_packing_of(bytes, flat_coeffs(v), bits),
        Some(b) => is_packing_of(bytes, shifted_flat(v, b as int), bits),
    }
}

/// Unpacking what `encode_poly_vec` / `encode_shifted` packed gives back every coefficient,
/// provided each (shifted) coefficient fits in the bit width.
pub proof fn lemma_polys_roundtrip(bytes: Seq<u8>, v: Seq<Poly>, bits: nat, shift: Option<i32>, out: Seq<Poly>)
    requires
        bits <= 31,
        packs_polys(bytes, v, bits, shift),
        polys_fit(v, bits, shift),
        decodes_polys(out, bytes, bits, v.len(), shift),
    ensures
        forall|t: int| 0 <= t < v.len() ==> #[trigger] out[t].coeffs@ == v[t].coeffs@,
{
    let flat = match shift {
        None => flat_coeffs(v),
        Some(b) => shifted_flat(v, b as int),
    };
    assert forall|j: int| 0 <= j < flat.len() implies 0 <= #[trigger] flat[j] && flat[j] < vstd::arithmetic::power2::pow2(bits) by {
        let t = j / N as int;
        let i = j % N as int;
        vstd::arithmetic::div_mod::lemma_fundamental_div_mod(j, N as int);
        assert(0 <= t < v.len()) by (nonlinear_arith)
            requires
                0 <= j < v.len() * N,
                j == N * t + i,
                0 <= i < N,
        ;
        let c = v[t].coeffs@[i];
        assert(polys_fit(v, bits, shift));
        vstd::arithmetic::power2::lemma2_to64();
        vstd::arithmetic::power2::lemma2_to64_rest();
        if bits < 31 {
            vstd::arithmetic::power2::lemma_pow2_strictly_increases(bits, 31);
        }
    }
    if bits >= 1 {
        crate::encode::lemma_byte_encode_decode_roundtrip(bytes, flat, bits);
    }
    assert forall|t: int| 0 <= t < v.len() implies #[trigger] out[t].coeffs@ == v[t].coeffs@ by {
        assert forall|i: int| 0 <= i < N implies out[t].coeffs@[i] == v[t].coeffs@[i] by {
            lemma_flat_index(t, i);
            assert(t * N + i < v.len() * N) by (nonlinear_arith)
                requires
                    t < v.len(),
                    i < N,
            ;
            let c = v[t].coeffs@[i];
            let j = t * N + i;
            vstd::arithmetic::power2::lemma2_to64();
            vstd::arithmetic::power2::lemma2_to64_rest();
            if bits < 31 {
                vstd::arithmetic::power2::lemma_pow2_strictly_increases(bits, 31);
            }
            let d = decoded_field(bytes, bits, j);
            if bits == 0 {
                lemma_decoded_field_zero_width(bytes, j);
            } else {
                assert(crate::encode::decode_fields(bytes, bits, flat.len())[j] == flat[j]);
                assert(d == flat[j]);
            }
            match shift {
                None => {
                    assert(flat[j] == c);
                    assert(out[t].coeffs@[i] == d);
                },
                Some(b) => {
                    assert(0 <= b - c < vstd::arithmetic::power2::pow2(bits));
                    assert(flat[j] == (b - c) as i32);
                    assert(d == b - c);
                    assert(out[t].coeffs@[i] == (b - d) as i32);
                },
            }
        }
        assert(out[t].coeffs@ =~= v[t].coeffs@);
    }
}

/// Width facts used by the key and signature laws.
proof fn lemma_codec_widths(p: GenericDsaParams)
    requires
        codec_params_ok(p),
    ensures
        t1_bits_spec(p.q as int) <= 31,
        eta_bits_spec(p.eta as int) <= 31,
        z_bits_spec(p.gamma1 as int) <= 31,
{
    vstd::arithmetic::power2::lemma2_to64();
    vstd::arithmetic::power2::lemma2_to64_rest();
    crate::encode::lemma_bit_length_le(((p.q - 1) / 8192) as nat, 31);
    crate::encode::lemma_bit_length_le((2 * p.eta) as nat, 31);
    crate::encode::lemma_bit_length_le((2 * p.gamma1 - 1) as nat, 31);
}

/// Decoding an encoded public key gives back the `rho` and `t1` it was made from: the encoding
/// has exactly the expected length, so `decode_pk` accepts it.
pub proof fn lemma_pk_roundtrip(bytes: Seq<u8>, rho: Seq<u8>, t1: Seq<Poly>, p: GenericDsaParams, out: Seq<Poly>)
    requires
        codec_params_ok(p),
        pk_layout(bytes, rho, t1, p),
        t1.len() == p.k,
        polys_fit(t1, t1_bits_spec(p.q as int), None),
        decodes_polys(out, bytes.subrange(32, bytes.len() as int), t1_bits_spec(p.q as int), p.k as nat, None),
    ensures
        bytes.len() == pk_len_spec(p),
        bytes.subrange(0, 32) == rho,
        forall|t: int| 0 <= t < p.k ==> #[trigger] out[t].coeffs@ == t1[t].coeffs@,
{
    lemma_codec_widths(p);
    let bits = t1_bits_spec(p.q as int);
    assert(bits * (t1.len() * N) == bits * N * p.k) by (nonlinear_arith)
        requires
            t1.len() == p.k,
    ;
    lemma_polys_roundtrip(bytes.subrange(32, bytes.len() as int), t1, bits, None, out);
}

/// Decoding an encoded secret key gives back every part it was made from.
pub proof fn lemma_sk_roundtrip(
    bytes: Seq<u8>,
    rho: Seq<u8>,
    cap_k: Seq<u8>,
    tr: Seq<u8>,
    s1: Seq<Poly>,
    s2: Seq<Poly>,
    t0: Seq<Poly>,
    p: GenericDsaParams,
    out_s1: Seq<Poly>,
    out_s2: Seq<Poly>,
    out_t0: Seq<Poly>,
)
    requires
        codec_params_ok(p),
        sk_layout(bytes, rho, cap_k, tr, s1, s2, t0, p),
        s1.len() == p.l,
        s2.len() == p.k,
        t0.len() == p.k,
        polys_fit(s1, eta_bits_spec(p.eta as int), Some(p.eta as i32)),
        polys_fit(s2, eta_bits_spec(p.eta as int), Some(p.eta as i32)),
        polys_fit(t0, 13, Some(4096)),
        ({
            let eb = eta_bits_spec(p.eta as int);
            let l1 = poly_vec_len_spec(eb, p.l as nat) as int;
            let l2 = poly_vec_len_spec(eb, p.k as nat) as int;
            &&& decodes_polys(out_s1, bytes.subrange(128, 128 + l1), eb, p.l as nat, Some(p.eta as i32))
            &&& decodes_polys(out_s2, bytes.subrange(128 + l1, 128 + l1 + l2), eb, p.k as nat, Some(p.eta as i32))
            &&& decodes_polys(out_t0, bytes.subrange(128 + l1 + l2, bytes.len() as int), 13, p.k as nat, Some(4096))
        }),
    ensures
        bytes.len() == sk_len_spec(p),
        bytes.subrange(0, 32) == rho,
        bytes.subrange(32, 64) == cap_k,
        bytes.subrange(64, 128) == tr,
        forall|t: int| 0 <= t < p.l ==> #[trigger] out_s1[t].coeffs@ == s1[t].coeffs@,
        forall|t: int| 0 <= t < p.k ==> #[trigger] out_s2[t].coeffs@ == s2[t].coeffs@,
        forall|t: int| 0 <= t < p.k ==> #[trigger] out_t0[t].coeffs@ == t0[t].coeffs@,
{
    lemma_codec_widths(p);
    let eb = eta_bits_spec(p.eta as int);
    assert(eb * (s1.len() * N) == eb * N * p.l) by (nonlinear_arith)
        requires
            s1.len() == p.l,
    ;
    assert(eb * (s2.len() * N) == eb * N * p.k) by (nonlinear_arith)
        requires
            s2.len() == p.k,
    ;
    assert(13 * (t0.len() * N) == 13 * N * p.k) by (nonlinear_arith)
        requires
            t0.len() == p.k,
    ;
    let l1 = poly_vec_len_spec(eb, p.l as nat) as int;
    let l2 = poly_vec_len_spec(eb, p.k as nat) as int;
    lemma_polys_roundtrip(bytes.subrange(128, 128 + l1), s1, eb, Some(p.eta as i32), out_s1);
    lemma_polys_roundtrip(bytes.subrange(128 + l1, 128 + l1 + l2), s2, eb, Some(p.eta as i32), out_s2);
    lemma_polys_roundtrip(bytes.subrange(128 + l1 + l2, bytes.len() as int), t0, 13, Some(4096), out_t0);
}

/// Decoding an encoded signature gives back its challenge seed, its `z` and its hint; the
/// encoding has exactly the expected length and HintBitUnpack accepts its hint part.
pub proof fn lemma_sig_roundtrip(
    bytes: Seq<u8>,
    c_tilde: Seq<u8>,
    z: Seq<Poly>,
    h: Seq<Vec<bool>>,
    p: GenericDsaParams,
    out_z: Seq<Poly>,
)
    requires
        codec_params_ok(p),
        sig_layout(bytes, c_tilde, z, h, p),
        c_tilde.len() == p.lambda,
        z.len() == p.l,
        h.len() == p.k,
        hint_well_formed(h, p.omega as int),
        polys_fit(z, z_bits_spec(p.gamma1 as int), Some(p.gamma1)),
        decodes_polys(
            out_z,
            bytes.subrange(p.lambda as int, p.lambda + poly_vec_len_spec(z_bits_spec(p.gamma1 as int), p.l as nat)),
            z_bits_spec(p.gamma1 as int),
            p.l as nat,
            Some(p.gamma1),
        ),
    ensures
        bytes.len() == sig_len_spec(p),
        bytes.subrange(0, p.lambda as int) == c_tilde,
        forall|t: int| 0 <= t < p.l ==> #[trigger] out_z[t].coeffs@ == z[t].coeffs@,
        ({
            let tail = bytes.subrange(p.lambda + poly_vec_len_spec(z_bits_spec(p.gamma1 as int), p.l as nat), bytes.len() as int);
            &&& hint_unpack_error(tail, p.k as int, p.omega as int) is None
            &&& forall|i: int| 0 <= i < p.k ==> #[trigger] hint_row_ok(tail, p.omega as int, i, h[i]@)
        }),
{
    lemma_codec_widths(p);
    let zb = z_bits_spec(p.gamma1 as int);
    assert(zb * (z.len() * N) == zb * N * p.l) by (nonlinear_arith)
        requires
            z.len() == p.l,
    ;
    let lz = poly_vec_len_spec(zb, p.l as nat) as int;
    lemma_polys_roundtrip(bytes.subrange(p.lambda as int, p.lambda + lz), z, zb, Some(p.gamma1), out_z);
    lemma_hint_roundtrip(bytes.subrange(p.lambda + lz, bytes.len() as int), h, p.omega as int);
}

} // verus!
