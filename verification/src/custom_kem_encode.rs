//! Key byte packing for the runtime-degree KEM, built on `encode::byte_encode/byte_decode`, for
//! vectors of `n`-coefficient polynomials held as `Vec<i32>`.
use crate::bytes::{append_bytes, copy_range, take32};
use crate::custom_kem_params::{validate_n_spec, validate_q_spec, GenericCustomKemParams};
use crate::encode::{
    bit_length, bits_for_q, byte_decode, byte_encode, bytes_for_bits, decode_fields, fits_bits,
    is_packing_of, lemma_byte_encode_decode_roundtrip,
};
use crate::error::{Encoded, PqcError};
use vstd::prelude::*;

verus! {

/// The rows of a vector of polynomials as sequences.
pub open spec fn rows_view(v: Seq<Vec<i32>>) -> Seq<Seq<i32>> {
    v.map_values(|r: Vec<i32>| r@)
}

/// The rows of `v` laid end to end, each coefficient plus `shift`.
pub open spec fn concat_rows(v: Seq<Seq<i32>>, shift: int) -> Seq<i32>
    decreases v.len(),
{
    if v.len() == 0 {
        Seq::empty()
    } else {
        concat_rows(v.drop_last(), shift) + v.last().map_values(|c: i32| (c + shift) as i32)
    }
}

/// Every row of `v` has `n` coefficients.
pub open spec fn rows_of(v: Seq<Seq<i32>>, n: int) -> bool {
    forall|t: int| 0 <= t < v.len() ==> (#[trigger] v[t]).len() == n
}

/// Every polynomial of `v` has `n` coefficients.
pub open spec fn vrows_of(v: Seq<Vec<i32>>, n: int) -> bool {
    forall|t: int| 0 <= t < v.len() ==> (#[trigger] v[t]).len() == n
}

pub proof fn lemma_vrows(v: Seq<Vec<i32>>, n: int)
    ensures
        vrows_of(v, n) <==> rows_of(rows_view(v), n),
{
    if vrows_of(v, n) {
        assert forall|t: int| 0 <= t < rows_view(v).len() implies (#[trigger] rows_view(v)[t]).len() == n by {
            assert(v[t].len() == n);
        }
    }
    if rows_of(rows_view(v), n) {
        assert forall|t: int| 0 <= t < v.len() implies (#[trigger] v[t]).len() == n by {
            assert(rows_view(v)[t].len() == n);
        }
    }
}

/// With rows of `n`, position `t * n + i` of the concatenation is coefficient `i` of row `t`.
proof fn lemma_concat_index(v: Seq<Seq<i32>>, shift: int, n: int, t: int, i: int)
    requires
        n >= 1,
        rows_of(v, n),
        0 <= t < v.len(),
        0 <= i < n,
    ensures
        concat_rows(v, shift).len() == v.len() * n,
        concat_rows(v, shift)[t * n + i] == (v[t][i] + shift) as i32,
    decreases v.len(),
{
    lemma_concat_len(v, shift, n);
    let last = v.len() - 1;
    let front = v.drop_last();
    lemma_concat_len(front, shift, n);
    assert(rows_of(front, n));
    let tail = v.last().map_values(|c: i32| (c + shift) as i32);
    assert(concat_rows(v, shift) == concat_rows(front, shift) + tail);
    assert(concat_rows(front, shift).len() == last * n);
    if t < last {
        lemma_concat_index(front, shift, n, t, i);
        assert(t * n + i < last * n) by (nonlinear_arith)
            requires
                0 <= t < last,
                0 <= i < n,
        ;
        assert(front[t] == v[t]);
    } else {
        assert(t == last);
        assert(t * n + i - last * n == i) by (nonlinear_arith)
            requires
                t == last,
        ;
        assert(v.last() == v[t]);
        assert(tail[i] == (v[t][i] + shift) as i32);
    }
}

proof fn lemma_concat_len(v: Seq<Seq<i32>>, shift: int, n: int)
    requires
        n >= 0,
        rows_of(v, n),
    ensures
        concat_rows(v, shift).len() == v.len() * n,
    decreases v.len(),
{
    if v.len() > 0 {
        assert(rows_of(v.drop_last(), n));
        lemma_concat_len(v.drop_last(), shift, n);
        assert(v.len() * n == (v.len() - 1) * n + n) by (nonlinear_arith);
    }
}

/// Lays the rows of `v` end to end, each coefficient plus `shift`.
fn flatten_rows(v: &[Vec<i32>], shift: i32) -> (out: Vec<i32>)
    requires
        forall|t: int, i: int|
            0 <= t < v.len() && 0 <= i < v@[t].len() ==> i32::MIN <= #[trigger] v@[t]@[i] + shift
                <= i32::MAX,
    ensures
        out@ == concat_rows(rows_view(v@), shift as int),
{
    let mut out: Vec<i32> = Vec::new();
    let mut t: usize = 0;
    while t < v.len()
        invariant
            forall|s: int, i: int|
                0 <= s < v.len() && 0 <= i < v@[s].len() ==> i32::MIN <= #[trigger] v@[s]@[i]
                    + shift <= i32::MAX,
            t <= v.len(),
            out@ == concat_rows(rows_view(v@).take(t as int), shift as int),
        decreases v.len() - t,
    {
        let ghost before = out@;
        let row = &v[t];
        let mut i: usize = 0;
        while i < row.len()
            invariant
                forall|s: int, k: int|
                    0 <= s < v.len() && 0 <= k < v@[s].len() ==> i32::MIN <= #[trigger] v@[s]@[k]
                        + shift <= i32::MAX,
                t < v.len(),
                *row == v@[t as int],
                i <= row.len(),
                out@ == before + row@.take(i as int).map_values(|c: i32| (c + shift) as i32),
            decreases row.len() - i,
        {
            assert(i32::MIN <= v@[t as int]@[i as int] + shift <= i32::MAX);
            out.push(row[i] + shift);
            i = i + 1;
            assert(out@ =~= before + row@.take(i as int).map_values(|c: i32| (c + shift) as i32));
        }
        proof {
            assert(row@.take(row.len() as int) =~= row@);
            assert(rows_view(v@).take((t + 1) as int).drop_last() =~= rows_view(v@).take(t as int));
            assert(rows_view(v@).take((t + 1) as int).last() == row@);
        }
        t = t + 1;
    }
    proof {
        assert(rows_view(v@).take(v.len() as int) =~= rows_view(v@));
    }
    out
}

/// Packs all coefficients of `polys`, row after row, at `bits` bits each.
pub fn encode_poly_vec(polys: &[Vec<i32>], bits: u32) -> (out: Vec<u8>)
    requires
        bits <= 32,
        concat_rows(rows_view(polys@), 0).len() * 32 + 8 <= usize::MAX,
    ensures
        is_packing_of(out@, concat_rows(rows_view(polys@), 0), bits as nat),
{
    let coeffs = flatten_rows(polys, 0);
    proof {
        assert(bits * coeffs.len() <= 32 * coeffs.len()) by (nonlinear_arith)
            requires
                bits <= 32,
        ;
    }
    byte_encode(coeffs.as_slice(), bits)
}

/// `out` holds `count` rows of `n`: row `t` is fields `[t * n, (t + 1) * n)` of `bytes`, each
/// minus `shift`.
pub open spec fn decodes_rows(out: Seq<Vec<i32>>, bytes: Seq<u8>, bits: nat, count: nat, n: nat, shift: int) -> bool {
    &&& out.len() == count
    &&& forall|t: int| 0 <= t < count ==> (#[trigger] out[t]).len() == n
    &&& forall|t: int, i: int|
        0 <= t < count && 0 <= i < n ==> #[trigger] out[t]@[i] == (decode_fields(bytes, bits, count * n)[t * n
            + i] - shift) as i32
}

/// The `count` rows of `n` that `decodes_rows` describes.
pub open spec fn rows_from_fields(bytes: Seq<u8>, bits: nat, count: nat, n: nat, shift: int) -> Seq<Seq<i32>> {
    Seq::new(count, |t: int| Seq::new(n, |i: int| (decode_fields(bytes, bits, count * n)[t * n + i] - shift) as i32))
}

/// Rows described by `decodes_rows` are exactly `rows_from_fields`.
pub proof fn lemma_decodes_rows_view(out: Seq<Vec<i32>>, bytes: Seq<u8>, bits: nat, count: nat, n: nat, shift: int)
    requires
        decodes_rows(out, bytes, bits, count, n, shift),
    ensures
        rows_view(out) == rows_from_fields(bytes, bits, count, n, shift),
        vrows_of(out, n as int),
{
    assert forall|t: int| 0 <= t < count implies #[trigger] rows_view(out)[t] == rows_from_fields(bytes, bits, count, n, shift)[t] by {
        assert(out[t]@ =~= rows_from_fields(bytes, bits, count, n, shift)[t]);
    }
    assert(rows_view(out) =~= rows_from_fields(bytes, bits, count, n, shift));
}

/// Reads `count` rows of `n` coefficients at `bits` bits each, each minus `shift`.
fn decode_rows(bytes: &[u8], bits: u32, count: usize, n: usize, shift: i32) -> (out: Vec<Vec<i32>>)
    requires
        bits <= 31,
        n >= 1,
        shift >= 0,
        count * n <= 0x40_0000,
        bits * (count * n) <= 8 * bytes.len(),
        8 * bytes.len() <= usize::MAX,
    ensures
        decodes_rows(out@, bytes@, bits as nat, count as nat, n as nat, shift as int),
{
    let coeffs = byte_decode(bytes, bits, count * n);
    proof {
        assert forall|j: int| 0 <= j < count * n implies 0 <= #[trigger] coeffs@[j] < 0x8000_0000 by {
            crate::dsa_encode::lemma_stream_value_bound(bytes@, j * bits, bits as nat);
            vstd::arithmetic::power2::lemma2_to64();
            if bits < 31 {
                vstd::arithmetic::power2::lemma_pow2_strictly_increases(bits as nat, 31);
            }
        }
    }
    let mut out: Vec<Vec<i32>> = Vec::new();
    let mut t: usize = 0;
    while t < count
        invariant
            n >= 1,
            shift >= 0,
            count * n <= 0x40_0000,
            coeffs@ == decode_fields(bytes@, bits as nat, (count * n) as nat),
            forall|j: int| 0 <= j < count * n ==> 0 <= #[trigger] coeffs@[j] < 0x8000_0000,
            t <= count,
            out.len() == t,
            forall|s: int| 0 <= s < t ==> (#[trigger] out@[s]).len() == n,
            forall|s: int, i: int|
                0 <= s < t && 0 <= i < n ==> #[trigger] out@[s]@[i] == (coeffs@[s * n + i] - shift) as i32,
        decreases count - t,
    {
        let mut row: Vec<i32> = Vec::new();
        let mut i: usize = 0;
        proof {
            assert((t + 1) * n <= count * n) by (nonlinear_arith)
                requires
                    t < count,
            ;
            assert((t + 1) * n == t * n + n) by (nonlinear_arith);
        }
        while i < n
            invariant
                n >= 1,
                shift >= 0,
                t < count,
                t * n + n <= count * n,
                count * n <= 0x40_0000,
                forall|j: int| 0 <= j < count * n ==> 0 <= #[trigger] coeffs@[j] < 0x8000_0000,
                coeffs.len() == count * n,
                i <= n,
                row.len() == i,
                forall|k: int| 0 <= k < i ==> #[trigger] row@[k] == (coeffs@[t * n + k] - shift) as i32,
            decreases n - i,
        {
            let c = coeffs[t * n + i];
            row.push(c - shift);
            i = i + 1;
        }
        out.push(row);
        t = t + 1;
    }
    out
}

/// Bytes taken by `count` polynomials of `n` coefficients at `bits` bits.
pub open spec fn rows_len_spec(bits: nat, count: nat, n: nat) -> int {
    bytes_for_bits((bits * n * count) as int)
}

fn poly_vec_byte_len(bits: u32, count: usize, n: usize) -> (r: usize)
    requires
        bits <= 32,
        count * n <= 0x40_0000,
    ensures
        r == rows_len_spec(bits as nat, count as nat, n as nat),
        r <= 0x100_0000,
{
    proof {
        assert(bits * n * count <= 32 * 0x40_0000) by (nonlinear_arith)
            requires
                bits <= 32,
                count * n <= 0x40_0000,
        ;
        assert(bits * n <= 32 * n) by (nonlinear_arith)
            requires
                bits <= 32,
        ;
        assert(n <= 0x40_0000 || count == 0) by (nonlinear_arith)
            requires
                count * n <= 0x40_0000,
        ;
    }
    proof {
        assert(bits * (count * n) == bits * n * count) by (nonlinear_arith);
        assert(bits * (count * n) <= 32 * 0x40_0000) by (nonlinear_arith)
            requires
                bits <= 32,
                count * n <= 0x40_0000,
        ;
    }
    let total = (bits as usize) * (count * n);
    total / 8 + if total % 8 != 0 {
        1usize
    } else {
        0usize
    }
}

/// What the key codecs need of a parameter set: a validated degree and modulus, at most
/// 4095 polynomials per vector, and noise bounds whose shifted values fit the packing.
pub open spec fn kem_codec_ok(p: GenericCustomKemParams) -> bool {
    &&& validate_n_spec(p.n) is Ok
    &&& validate_q_spec(p.q, p.n) is Ok
    &&& 1 <= p.k <= 0xFFF
    &&& p.eta1 < 0x4000_0000
}

/// Width of a public coefficient: `bit_length(q - 1)`.
pub open spec fn q_bits_spec(p: GenericCustomKemParams) -> nat {
    bit_length((p.q - 1) as nat)
}

/// Width of a secret coefficient shifted by `eta1`: `bit_length(2 * eta1)`.
pub open spec fn eta_bits_spec(p: GenericCustomKemParams) -> nat {
    bit_length((2 * p.eta1) as nat)
}

proof fn lemma_codec_sizes(p: GenericCustomKemParams)
    requires
        kem_codec_ok(p),
    ensures
        32 <= p.n <= 1024,
        5 <= p.q,
        p.k * p.n <= 0x40_0000,
        q_bits_spec(p) <= 31,
        eta_bits_spec(p) <= 31,
        q_bits_spec(p) >= 1,
{
    assert(p.k * p.n <= 0xFFF * 1024) by (nonlinear_arith)
        requires
            p.k <= 0xFFF,
            p.n <= 1024,
    ;
    vstd::arithmetic::power2::lemma2_to64();
    crate::encode::lemma_bit_length_le((p.q - 1) as nat, 31);
    crate::encode::lemma_bit_length_le((2 * p.eta1) as nat, 31);
    crate::encode::lemma_bit_length_bounds((p.q - 1) as nat);
    if bit_length((p.q - 1) as nat) == 0 {
    }
}

/// `bytes` is `rho` followed by the packing of `t` at `q_bits` bits.
pub open spec fn kem_pk_layout(bytes: Seq<u8>, rho: Seq<u8>, t: Seq<Seq<i32>>, p: GenericCustomKemParams) -> bool {
    &&& bytes.len() >= 32
    &&& bytes.subrange(0, 32) == rho
    &&& is_packing_of(bytes.subrange(32, bytes.len() as int), concat_rows(t, 0), q_bits_spec(p))
}

pub fn encode_pk(rho: &[u8; 32], t: &[Vec<i32>], params: &GenericCustomKemParams) -> (out: Vec<u8>)
    requires
        kem_codec_ok(*params),
        t.len() == params.k,
        vrows_of(t@, params.n as int),
    ensures
        kem_pk_layout(out@, rho@, rows_view(t@), *params),
{
    proof {
        lemma_vrows(t@, params.n as int);
        lemma_codec_sizes(*params);
        lemma_concat_len(rows_view(t@), 0, params.n as int);
        assert forall|s: int, i: int| 0 <= s < t.len() && 0 <= i < t@[s].len() implies i32::MIN
            <= #[trigger] t@[s]@[i] + 0 <= i32::MAX by {}
        assert(concat_rows(rows_view(t@), 0).len() * 32 + 8 <= usize::MAX);
    }
    let mut out: Vec<u8> = Vec::new();
    append_bytes(&mut out, rho);
    let bits = bits_for_q(params.q);
    let packed = encode_poly_vec(t, bits);
    append_bytes(&mut out, packed.as_slice());
    proof {
        assert(out@.subrange(0, 32) =~= rho@);
        assert(out@.subrange(32, out@.len() as int) =~= packed@);
    }
    out
}

pub open spec fn pk_len(p: GenericCustomKemParams) -> int {
    32 + rows_len_spec(q_bits_spec(p), p.k as nat, p.n as nat)
}

/// The byte length of an encoded public key.
pub fn public_key_len(params: &GenericCustomKemParams) -> (r: usize)
    requires
        kem_codec_ok(*params),
    ensures
        r == pk_len(*params),
{
    proof {
        lemma_codec_sizes(*params);
    }
    32 + poly_vec_byte_len(bits_for_q(params.q), params.k as usize, params.n)
}

/// Splits a public key into `rho` and `t`; the only error is a wrong total length.
pub fn decode_pk(bytes: &[u8], params: &GenericCustomKemParams) -> (r: Result<([u8; 32], Vec<Vec<i32>>), PqcError>)
    requires
        kem_codec_ok(*params),
    ensures
        bytes.len() != pk_len(*params) ==> r == Err::<([u8; 32], Vec<Vec<i32>>), PqcError>(
            PqcError::WrongLength { what: Encoded::PublicKey, expected: pk_len(*params) as usize, got: bytes.len() },
        ),
        bytes.len() == pk_len(*params) ==> (r matches Ok((rho, t)) && rho@ == bytes@.subrange(0, 32)
            && decodes_rows(t@, bytes@.subrange(32, bytes.len() as int), q_bits_spec(*params), params.k as nat, params.n as nat, 0)),
{
    proof {
        lemma_codec_sizes(*params);
    }
    let q_bits = bits_for_q(params.q);
    let t_len = poly_vec_byte_len(q_bits, params.k as usize, params.n);
    let expected = 32 + t_len;
    if bytes.len() != expected {
        return Err(PqcError::WrongLength { what: Encoded::PublicKey, expected, got: bytes.len() });
    }
    let rho = take32(bytes, 0);
    let rest = copy_range(bytes, 32, bytes.len());
    proof {
        assert(q_bits * (params.k * params.n) == q_bits * params.n * params.k) by (nonlinear_arith);
        assert(q_bits * (params.k * params.n) <= 8 * rest.len());
    }
    let t = decode_rows(rest.as_slice(), q_bits, params.k as usize, params.n, 0);
    Ok((rho, t))
}

pub fn encode_sk(s: &[Vec<i32>], params: &GenericCustomKemParams) -> (out: Vec<u8>)
    requires
        kem_codec_ok(*params),
        s.len() == params.k,
        vrows_of(s@, params.n as int),
        forall|t: int, i: int|
            0 <= t < s.len() && 0 <= i < params.n ==> -(params.eta1 as int) <= #[trigger] s@[t]@[i]
                <= params.eta1,
    ensures
        is_packing_of(out@, concat_rows(rows_view(s@), params.eta1 as int), eta_bits_spec(*params)),
{
    proof {
        lemma_vrows(s@, params.n as int);
        lemma_codec_sizes(*params);
        lemma_concat_len(rows_view(s@), params.eta1 as int, params.n as int);
    }
    let eta_bits = bits_for_q(2 * params.eta1 as i32 + 1);
    proof {
        assert forall|t: int, i: int| 0 <= t < s.len() && 0 <= i < s@[t].len() implies i32::MIN
            <= #[trigger] s@[t]@[i] + params.eta1 <= i32::MAX by {
            assert(rows_view(s@)[t].len() == params.n);
        }
    }
    let coeffs = flatten_rows(s, params.eta1 as i32);
    proof {
        assert(eta_bits * coeffs.len() <= 32 * 0x40_0000) by (nonlinear_arith)
            requires
                eta_bits <= 32,
                coeffs.len() <= 0x40_0000,
        ;
    }
    byte_encode(coeffs.as_slice(), eta_bits)
}

pub open spec fn sk_len(p: GenericCustomKemParams) -> int {
    rows_len_spec(eta_bits_spec(p), p.k as nat, p.n as nat)
}

/// Reads a secret key; the only error is a wrong length.
pub fn decode_sk(bytes: &[u8], params: &GenericCustomKemParams) -> (r: Result<Vec<Vec<i32>>, PqcError>)
    requires
        kem_codec_ok(*params),
    ensures
        bytes.len() != sk_len(*params) ==> r == Err::<Vec<Vec<i32>>, PqcError>(
            PqcError::WrongLength { what: Encoded::SecretKey, expected: sk_len(*params) as usize, got: bytes.len() },
        ),
        bytes.len() == sk_len(*params) ==> (r matches Ok(s) && decodes_rows(
            s@,
            bytes@,
            eta_bits_spec(*params),
            params.k as nat,
            params.n as nat,
            params.eta1 as int,
        )),
{
    proof {
        lemma_codec_sizes(*params);
    }
    let eta_bits = bits_for_q(2 * params.eta1 as i32 + 1);
    let expected = poly_vec_byte_len(eta_bits, params.k as usize, params.n);
    if bytes.len() != expected {
        return Err(PqcError::WrongLength { what: Encoded::SecretKey, expected, got: bytes.len() });
    }
    proof {
        assert(eta_bits * (params.k * params.n) == eta_bits * params.n * params.k) by (nonlinear_arith);
        assert(eta_bits * (params.k * params.n) <= 8 * bytes.len());
    }
    Ok(decode_rows(bytes, eta_bits, params.k as usize, params.n, params.eta1 as i32))
}

/// Decoding packed rows gives back the rows, when every shifted coefficient fits the width.
proof fn lemma_rows_roundtrip(bytes: Seq<u8>, v: Seq<Seq<i32>>, bits: nat, n: nat, shift: int)
    requires
        1 <= bits <= 31,
        n >= 1,
        rows_of(v, n as int),
        is_packing_of(bytes, concat_rows(v, shift), bits),
        fits_bits(concat_rows(v, shift), bits),
        forall|t: int, i: int| 0 <= t < v.len() && 0 <= i < n ==> i32::MIN <= #[trigger] v[t][i] + shift <= i32::MAX,
    ensures
        rows_from_fields(bytes, bits, v.len(), n, shift) == v,
{
    lemma_concat_len(v, shift, n as int);
    lemma_byte_encode_decode_roundtrip(bytes, concat_rows(v, shift), bits);
    let r = rows_from_fields(bytes, bits, v.len(), n, shift);
    assert forall|t: int| 0 <= t < v.len() implies #[trigger] r[t] == v[t] by {
        assert forall|i: int| 0 <= i < n implies r[t][i] == v[t][i] by {
            lemma_concat_index(v, shift, n as int, t, i);
            assert(v.len() * n == n * v.len()) by (nonlinear_arith);
        }
        assert(r[t] =~= v[t]);
    }
    assert(r =~= v);
}

/// Decoding an encoded public key gives back its `rho` and `t`, for `t` reduced into `[0, q)`.
pub proof fn lemma_kem_pk_roundtrip(bytes: Seq<u8>, rho: Seq<u8>, t: Seq<Seq<i32>>, p: GenericCustomKemParams)
    requires
        kem_codec_ok(p),
        kem_pk_layout(bytes, rho, t, p),
        t.len() == p.k,
        rows_of(t, p.n as int),
        forall|s: int, i: int| 0 <= s < t.len() && 0 <= i < p.n ==> 0 <= #[trigger] t[s][i] < p.q,
    ensures
        bytes.len() == pk_len(p),
        bytes.subrange(0, 32) == rho,
        rows_from_fields(bytes.subrange(32, bytes.len() as int), q_bits_spec(p), p.k as nat, p.n as nat, 0) == t,
{
    lemma_codec_sizes(p);
    lemma_concat_len(t, 0, p.n as int);
    let bits = q_bits_spec(p);
    crate::encode::lemma_bit_length_bounds((p.q - 1) as nat);
    assert forall|j: int| 0 <= j < concat_rows(t, 0).len() implies 0 <= #[trigger] concat_rows(t, 0)[j] && concat_rows(t, 0)[j]
        < vstd::arithmetic::power2::pow2(bits) by {
        let s = j / (p.n as int);
        let i = j % (p.n as int);
        vstd::arithmetic::div_mod::lemma_fundamental_div_mod(j, p.n as int);
        assert(0 <= s < t.len()) by (nonlinear_arith)
            requires
                j == p.n * s + i,
                0 <= i < p.n,
                0 <= j < t.len() * p.n,
                p.n >= 1,
        ;
        lemma_concat_index(t, 0, p.n as int, s, i);
        assert(s * p.n + i == j) by (nonlinear_arith)
            requires
                j == p.n * s + i,
        ;
    }
    assert(bits * concat_rows(t, 0).len() == bits * p.n * p.k) by (nonlinear_arith)
        requires
            concat_rows(t, 0).len() == t.len() * p.n,
            t.len() == p.k,
    ;
    lemma_rows_roundtrip(bytes.subrange(32, bytes.len() as int), t, bits, p.n as nat, 0);
}

/// Decoding an encoded secret key gives back `s`, for `s` within `[-eta1, eta1]`.
pub proof fn lemma_kem_sk_roundtrip(bytes: Seq<u8>, s: Seq<Seq<i32>>, p: GenericCustomKemParams)
    requires
        kem_codec_ok(p),
        s.len() == p.k,
        rows_of(s, p.n as int),
        forall|t: int, i: int| 0 <= t < s.len() && 0 <= i < p.n ==> -(p.eta1 as int) <= #[trigger] s[t][i] <= p.eta1,
        is_packing_of(bytes, concat_rows(s, p.eta1 as int), eta_bits_spec(p)),
    ensures
        bytes.len() == sk_len(p),
        rows_from_fields(bytes, eta_bits_spec(p), p.k as nat, p.n as nat, p.eta1 as int) == s,
{
    lemma_codec_sizes(p);
    let shift = p.eta1 as int;
    lemma_concat_len(s, shift, p.n as int);
    let bits = eta_bits_spec(p);
    crate::encode::lemma_bit_length_bounds((2 * p.eta1) as nat);
    assert forall|j: int| 0 <= j < concat_rows(s, shift).len() implies 0 <= #[trigger] concat_rows(s, shift)[j]
        && concat_rows(s, shift)[j] < vstd::arithmetic::power2::pow2(bits) by {
        let t = j / (p.n as int);
        let i = j % (p.n as int);
        vstd::arithmetic::div_mod::lemma_fundamental_div_mod(j, p.n as int);
        assert(0 <= t < s.len()) by (nonlinear_arith)
            requires
                j == p.n * t + i,
                0 <= i < p.n,
                0 <= j < s.len() * p.n,
                p.n >= 1,
        ;
        lemma_concat_index(s, shift, p.n as int, t, i);
        assert(t * p.n + i == j) by (nonlinear_arith)
            requires
                j == p.n * t + i,
        ;
    }
    if bits == 0 {
        vstd::arithmetic::power2::lemma2_to64();
    }
    assert(bits * concat_rows(s, shift).len() == bits * p.n * p.k) by (nonlinear_arith)
        requires
            concat_rows(s, shift).len() == s.len() * p.n,
            s.len() == p.k,
    ;
    if bits >= 1 {
        lemma_rows_roundtrip(bytes, s, bits, p.n as nat, shift);
    } else {
        let r = rows_from_fields(bytes, bits, p.k as nat, p.n as nat, shift);
        assert forall|t: int| 0 <= t < p.k implies #[trigger] r[t] == s[t] by {
            assert forall|i: int| 0 <= i < p.n implies r[t][i] == s[t][i] by {
                assert(p.eta1 == 0) by {
                    reveal_with_fuel(bit_length, 2);
                }
                assert(0 <= t * p.n + i < p.k * p.n) by (nonlinear_arith)
                    requires
                        0 <= t < p.k,
                        0 <= i < p.n,
                ;
                let j = t * p.n + i;
                assert(decode_fields(bytes, 0, (p.k * p.n) as nat)[j] == crate::encode::decoded_field(bytes, 0, j));
                assert(crate::encode::stream_value(bytes, j * 0, 0) == 0);
                assert(r[t][i] == (decode_fields(bytes, 0, (p.k * p.n) as nat)[t * p.n + i] - shift) as i32);
                assert(-(p.eta1 as int) <= s[t][i] <= p.eta1);
            }
            assert(r[t] =~= s[t]);
        }
        assert(r =~= s);
    }
}

} // verus!
