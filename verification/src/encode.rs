//! Bit-packing (ByteEncode/ByteDecode) and lossy rounding compression (Compress_d/Decompress_d),
//! generalized to an arbitrary bit width `d` rather than the fixed widths the standard uses.
//!
//! The byte stream is read least-significant-bit first: bit `i` of a byte string is bit
//! `i % 8` of byte `i / 8`.
use vstd::arithmetic::power2::{lemma_pow2_pos, lemma_pow2_unfold, pow2};
use vstd::prelude::*;

verus! {

/// Bit `b` (least significant first) of a 32-bit word.
pub open spec fn word_bit(x: u32, b: nat) -> bool {
    (x >> (b as u32)) & 1u32 == 1u32
}

/// Bit `i` of a byte string, least significant bit of byte 0 first.
pub open spec fn stream_bit(bytes: Seq<u8>, i: int) -> bool {
    (bytes[i / 8] >> ((i % 8) as u8)) & 1u8 == 1u8
}

/// Bit `i` of the concatenation of `coeffs`, each written as its low `bits` bits (of its
/// two's-complement 32-bit pattern), least significant bit first.
pub open spec fn coeff_stream_bit(coeffs: Seq<i32>, bits: nat, i: int) -> bool {
    word_bit(coeffs[i / (bits as int)] as u32, (i % (bits as int)) as nat)
}

/// Number of bytes needed for `total_bits` bits.
pub open spec fn bytes_for_bits(total_bits: int) -> int {
    (total_bits + 7) / 8
}

/// `bytes` is exactly the packing of `coeffs` at `bits` bits each: the right length, every
/// coefficient bit in place, and the padding bits of the last byte zero.
pub open spec fn is_packing_of(bytes: Seq<u8>, coeffs: Seq<i32>, bits: nat) -> bool {
    &&& bytes.len() == bytes_for_bits((bits * coeffs.len()) as int)
    &&& forall|i: int|
        0 <= i < bits * coeffs.len() ==> #[trigger] stream_bit(bytes, i) == coeff_stream_bit(
            coeffs,
            bits,
            i,
        )
    &&& forall|i: int| bits * coeffs.len() <= i < 8 * bytes.len() ==> !#[trigger] stream_bit(bytes, i)
}

/// The unsigned value of the `n` stream bits starting at bit `start`, first bit least significant.
pub open spec fn stream_value(bytes: Seq<u8>, start: int, n: nat) -> nat
    decreases n,
{
    if n == 0 {
        0
    } else {
        stream_value(bytes, start, (n - 1) as nat) + if stream_bit(bytes, start + n - 1) {
            pow2((n - 1) as nat)
        } else {
            0
        }
    }
}

/// The `j`-th decoded `bits`-bit field of `bytes`, reinterpreted as `i32`.
pub open spec fn decoded_field(bytes: Seq<u8>, bits: nat, j: int) -> i32 {
    (stream_value(bytes, j * bits, bits) as u32) as i32
}

/// The `count` fields of `bits` bits each read from the start of `bytes`.
pub open spec fn decode_fields(bytes: Seq<u8>, bits: nat, count: nat) -> Seq<i32> {
    Seq::new(count, |j: int| decoded_field(bytes, bits, j))
}

/// Every coefficient fits in `bits` bits as a non-negative value.
pub open spec fn fits_bits(coeffs: Seq<i32>, bits: nat) -> bool {
    forall|k: int| 0 <= k < coeffs.len() ==> 0 <= #[trigger] coeffs[k] && coeffs[k] < pow2(bits)
}

proof fn lemma_set_bit_u8(x: u8, p: u8, bit: u8, r: u8)
    by (bit_vector)
    requires
        p < 8,
        r < 8,
        bit <= 1,
        (x >> p) & 1 == 0,
    ensures
        ((x | (bit << p)) >> r) & 1 == if r == p {
            bit
        } else {
            (x >> r) & 1
        },
{
}

proof fn lemma_low_bit_u32(x: u32, b: u32)
    by (bit_vector)
    requires
        b < 32,
    ensures
        (x >> b) & 1 <= 1,
        ((x >> b) & 1 == 1) == ((x >> b) & 1 != 0),
{
}

proof fn lemma_zero_byte_bits(r: u8)
    by (bit_vector)
    requires
        r < 8,
    ensures
        (0u8 >> r) & 1 == 0,
{
}

/// Relates the position of stream bit `i` to its byte and in-byte offset.
proof fn lemma_stream_bit_pos(i: int, t: int, p: int)
    requires
        0 <= p < 8,
        i == 8 * t + p,
    ensures
        i / 8 == t,
        i % 8 == p,
{
    vstd::arithmetic::div_mod::lemma_fundamental_div_mod_converse(i, 8, t, p);
}

/// Computes bit `i` of the coefficient stream, or 0 past its end.
fn coeff_bit_at(coeffs: &[i32], bits: u32, i: usize, total: usize) -> (b: u8)
    requires
        1 <= bits <= 32,
        total == bits * coeffs.len(),
    ensures
        b <= 1,
        b == 1 <==> (i < total && coeff_stream_bit(coeffs@, bits as nat, i as int)),
{
    if i < total {
        let k = i / (bits as usize);
        let off = (i % (bits as usize)) as u32;
        proof {
            vstd::arithmetic::div_mod::lemma_div_pos_is_pos(i as int, bits as int);
            vstd::arithmetic::div_mod::lemma_fundamental_div_mod(i as int, bits as int);
            assert(k < coeffs.len()) by (nonlinear_arith)
                requires
                    i < total,
                    total == bits * coeffs.len(),
                    i == bits * k + (i % (bits as usize)),
                    0 <= i % (bits as usize),
                    bits >= 1,
            ;
            lemma_low_bit_u32(coeffs@[k as int] as u32, off);
        }
        let w = coeffs[k] as u32;
        (((w >> off) & 1) as u8)
    } else {
        0
    }
}

/// Pack `coeffs`, each using exactly `bits` bits, little-bit-first, into a byte vector.
pub fn byte_encode(coeffs: &[i32], bits: u32) -> (out: Vec<u8>)
    requires
        bits <= 32,
        bits * coeffs.len() + 8 <= usize::MAX,
    ensures
        is_packing_of(out@, coeffs@, bits as nat),
{
    let total: usize = (bits as usize) * coeffs.len();
    let nbytes: usize = total / 8 + if total % 8 != 0 {
        1usize
    } else {
        0usize
    };
    assert(nbytes == bytes_for_bits(total as int));
    let mut out: Vec<u8> = Vec::with_capacity(nbytes);
    let mut t: usize = 0;
    while t < nbytes
        invariant
            bits <= 32,
            total == bits * coeffs.len(),
            nbytes == bytes_for_bits(total as int),
            t <= nbytes,
            out@.len() == t,
            forall|i: int|
                0 <= i < 8 * t ==> #[trigger] stream_bit(out@, i) == (i < total
                    && coeff_stream_bit(coeffs@, bits as nat, i)),
        decreases nbytes - t,
    {
        let mut byte: u8 = 0;
        let mut p: u8 = 0;
        proof {
            assert forall|r: u8| r < 8 implies #[trigger] ((byte >> r) & 1) == 0u8 by {
                lemma_zero_byte_bits(r);
            }
        }
        while p < 8
            invariant
                bits <= 32,
                total == bits * coeffs.len(),
                t < nbytes,
                nbytes == bytes_for_bits(total as int),
                p <= 8,
                forall|r: u8|
                    r < 8 ==> #[trigger] ((byte >> r) & 1) == if r < p {
                        if ((8 * t + r) as int) < total && coeff_stream_bit(
                            coeffs@,
                            bits as nat,
                            (8 * t + r) as int,
                        ) {
                            1u8
                        } else {
                            0u8
                        }
                    } else {
                        0u8
                    },
            decreases 8 - p,
        {
            let idx: usize = 8 * t + p as usize;
            let b: u8 = if bits == 0 {
                0
            } else {
                coeff_bit_at(coeffs, bits, idx, total)
            };
            proof {
                assert(bits == 0 ==> total == 0) by (nonlinear_arith)
                    requires
                        total == bits * coeffs.len(),
                ;
                assert forall|r: u8| r < 8 implies #[trigger] (((byte | (b << p)) >> r) & 1) == if r
                    < p + 1 {
                    if ((8 * t + r) as int) < total && coeff_stream_bit(
                        coeffs@,
                        bits as nat,
                        (8 * t + r) as int,
                    ) {
                        1u8
                    } else {
                        0u8
                    }
                } else {
                    0u8
                } by {
                    assert((byte >> p) & 1 == 0);
                    lemma_set_bit_u8(byte, p, b, r);
                }
            }
            byte = byte | (b << p);
            p = p + 1;
        }
        let ghost old_out = out@;
        out.push(byte);
        proof {
            assert forall|i: int| 0 <= i < 8 * (t + 1) implies #[trigger] stream_bit(out@, i) == (i
                < total && coeff_stream_bit(coeffs@, bits as nat, i)) by {
                if i < 8 * t {
                    assert(stream_bit(old_out, i) == stream_bit(old_out, i));
                    assert(0 <= i / 8 < t);
                    assert(out@[i / 8] == old_out[i / 8]);
                    assert(stream_bit(old_out, i) == (i < total && coeff_stream_bit(coeffs@, bits as nat, i)));
                    assert(stream_bit(out@, i) == stream_bit(old_out, i));
                } else {
                    let r = (i - 8 * t) as u8;
                    lemma_stream_bit_pos(i, t as int, r as int);
                    assert(out@[t as int] == byte);
                    assert(stream_bit(out@, i) == (((byte >> r) & 1u8) == 1u8));
                    assert(((8 * t + r) as int) == i);
                    assert(r < 8);
                    assert(((byte >> r) & 1) == if i < total && coeff_stream_bit(coeffs@, bits as nat, i) { 1u8 } else { 0u8 });
                }
                assert(stream_bit(out@, i) == (i < total && coeff_stream_bit(coeffs@, bits as nat, i)));
            }
        }
        t = t + 1;
    }
    proof {
        assert forall|i: int|
            0 <= i < (bits as nat) * coeffs@.len() implies #[trigger] stream_bit(out@, i)
            == coeff_stream_bit(coeffs@, bits as nat, i) by {
            assert(i < 8 * nbytes);
        }
        assert forall|i: int|
            (bits as nat) * coeffs@.len() <= i < 8 * out@.len() implies !#[trigger] stream_bit(
                out@,
                i,
            ) by {}
    }
    out
}


proof fn lemma_or_high_bit(c: u64, bit: u64, b: u64)
    by (bit_vector)
    requires
        b < 32,
        bit <= 1,
        c < (1u64 << b),
    ensures
        c | (bit << b) == c + (bit << b),
        bit << b == if bit == 1 {
            1u64 << b
        } else {
            0u64
        },
{
}

proof fn lemma_byte_low_bit(x: u8, r: u8)
    by (bit_vector)
    requires
        r < 8,
    ensures
        (x >> r) & 1 <= 1,
{
}

/// Inverse of [`byte_encode`]: reads `count` fields of `bits` bits each.
pub fn byte_decode(bytes: &[u8], bits: u32, count: usize) -> (out: Vec<i32>)
    requires
        bits <= 32,
        bits * count <= 8 * bytes.len(),
        8 * bytes.len() <= usize::MAX,
    ensures
        out@ == decode_fields(bytes@, bits as nat, count as nat),
{
    let mut out: Vec<i32> = Vec::with_capacity(count);
    let mut bit_pos: usize = 0;
    let mut j: usize = 0;
    while j < count
        invariant
            bits <= 32,
            bits * count <= 8 * bytes.len(),
            8 * bytes.len() <= usize::MAX,
            j <= count,
            bit_pos == j * bits,
            out@ =~= decode_fields(bytes@, bits as nat, j as nat),
        decreases count - j,
    {
        let mut c: u64 = 0;
        let mut b: u32 = 0;
        proof {
            vstd::arithmetic::power2::lemma2_to64();
            assert((j + 1) * bits <= count * bits) by (nonlinear_arith)
                requires j < count;
            assert((j + 1) * bits == j * bits + bits) by (nonlinear_arith);
        }
        while b < bits
            invariant
                bits <= 32,
                b <= bits,
                bit_pos == j * bits + b,
                j * bits + bits <= 8 * bytes.len(),
                8 * bytes.len() <= usize::MAX,
                c == stream_value(bytes@, j * bits, b as nat),
                c < pow2(b as nat),
            decreases bits - b,
        {
            let sh: u8 = (bit_pos % 8) as u8;
            let byte = bytes[bit_pos / 8];
            proof {
                lemma_byte_low_bit(byte, sh);
                vstd::bits::lemma_u64_pow2_no_overflow(b as nat);
                vstd::bits::lemma_u64_shl_is_mul(1u64, b as u64);
            }
            let bit: u64 = ((byte >> sh) & 1) as u64;
            proof {
                lemma_or_high_bit(c, bit, b as u64);
                lemma_pow2_unfold((b + 1) as nat);
                assert(stream_bit(bytes@, j * bits + b) == (bit == 1));
            }
            c = c | (bit << (b as u64));
            bit_pos = bit_pos + 1;
            b = b + 1;
        }
        proof {
            vstd::arithmetic::power2::lemma2_to64();
            vstd::arithmetic::power2::lemma2_to64_rest();
            if bits < 32 {
                vstd::arithmetic::power2::lemma_pow2_strictly_increases(bits as nat, 32);
            }
            assert(c < 0x1_0000_0000u64);
        }
        out.push((c as u32) as i32);
        j = j + 1;
        proof {
            assert(bit_pos == j * bits) by (nonlinear_arith)
                requires bit_pos == (j - 1) * bits + bits;
        }
    }
    out
}

/// `x % 2^n` built up from its low bits, one bit at a time.
proof fn lemma_mod_pow2_step(x: u32, n: nat)
    requires
        1 <= n <= 32,
    ensures
        (x as nat) % pow2(n) == (x as nat) % pow2((n - 1) as nat) + if word_bit(x, (n - 1) as nat) {
            pow2((n - 1) as nat)
        } else {
            0
        },
{
    let k = (n - 1) as nat;
    lemma_pow2_pos(k);
    lemma_pow2_unfold(n);
    vstd::arithmetic::div_mod::lemma_mod_breakdown(x as int, pow2(k) as int, 2);
    vstd::bits::lemma_u32_shr_is_div(x, k as u32);
    let y: u32 = x >> (k as u32);
    assert(y & 1 == y % 2) by (bit_vector);
    assert(pow2(k) * 2 == pow2(n));
    let m = (x as nat / pow2(k)) % 2;
    assert(y as nat == x as nat / pow2(k));
    assert(word_bit(x, k) == (m == 1));
    if m == 1 {
        assert(pow2(k) * m == pow2(k)) by (nonlinear_arith)
            requires
                m == 1,
        ;
    } else {
        assert(m == 0);
        assert(pow2(k) * m == 0) by (nonlinear_arith)
            requires
                m == 0,
        ;
    }
}

/// Decoding the packed bits of one coefficient gives back its low bits.
proof fn lemma_field_value(bytes: Seq<u8>, coeffs: Seq<i32>, bits: nat, j: int, n: nat)
    requires
        1 <= bits <= 32,
        0 <= j < coeffs.len(),
        n <= bits,
        forall|i: int|
            0 <= i < bits * coeffs.len() ==> #[trigger] stream_bit(bytes, i) == coeff_stream_bit(
                coeffs,
                bits,
                i,
            ),
    ensures
        stream_value(bytes, j * bits, n) == ((coeffs[j] as u32) as nat) % pow2(n),
    decreases n,
{
    if n == 0 {
        vstd::arithmetic::power2::lemma2_to64();
    } else {
        lemma_field_value(bytes, coeffs, bits, j, (n - 1) as nat);
        let i = j * bits + n - 1;
        assert(j * bits + bits <= bits * coeffs.len()) by (nonlinear_arith)
            requires
                j < coeffs.len(),
        ;
        vstd::arithmetic::div_mod::lemma_fundamental_div_mod_converse(i, bits as int, j, n - 1);
        assert(stream_bit(bytes, i) == word_bit(coeffs[j] as u32, (n - 1) as nat));
        lemma_mod_pow2_step(coeffs[j] as u32, n);
    }
}

/// Decoding what [`byte_encode`] packed gives back the original coefficients, provided each
/// of them fits in the chosen bit width.
pub proof fn lemma_byte_encode_decode_roundtrip(bytes: Seq<u8>, coeffs: Seq<i32>, bits: nat)
    requires
        1 <= bits <= 32,
        is_packing_of(bytes, coeffs, bits),
        fits_bits(coeffs, bits),
    ensures
        decode_fields(bytes, bits, coeffs.len()) == coeffs,
{
    assert forall|j: int| 0 <= j < coeffs.len() implies #[trigger] decode_fields(
        bytes,
        bits,
        coeffs.len(),
    )[j] == coeffs[j] by {
        lemma_field_value(bytes, coeffs, bits, j, bits);
        let c = coeffs[j];
        assert(0 <= c < pow2(bits));
        vstd::arithmetic::div_mod::lemma_small_mod((c as u32) as nat, pow2(bits));
    }
    assert(decode_fields(bytes, bits, coeffs.len()) =~= coeffs);
}


/// Compress_d on integers: `round((2^d / q) * (x mod q)) mod 2^d`, rounding halves up.
pub open spec fn compress_spec(x: int, d: nat, q: int) -> int {
    (((x % q) * pow2(d) + q / 2) / q) % (pow2(d) as int)
}

/// Decompress_d on integers: `round((q / 2^d) * y) mod q`, rounding halves up.
pub open spec fn decompress_spec(y: int, d: nat, q: int) -> int {
    ((y * q + pow2((d - 1) as nat)) / (pow2(d) as int)) % q
}

/// Compress_d: round x in [0, q) to a d-bit value: round((2^d / q) * x) mod 2^d.
pub fn compress(x: i32, d: u32, q: i32) -> (r: i32)
    requires
        q > 0,
        d <= 30,
    ensures
        r == compress_spec(x as int, d as nat, q as int),
        0 <= r < pow2(d as nat),
{
    let xm = crate::arith::rem_euclid_i64(x as i64, q as i64);
    let p = crate::arith::pow2_u64(d) as i64;
    proof {
        vstd::arithmetic::power2::lemma2_to64();
        vstd::arithmetic::power2::lemma2_to64_rest();
        if d < 30 {
            vstd::arithmetic::power2::lemma_pow2_strictly_increases(d as nat, 30);
        }
        assert(xm * p <= 0x8000_0000i64 * 0x4000_0000i64) by (nonlinear_arith)
            requires
                0 <= xm < 0x8000_0000i64,
                0 < p <= 0x4000_0000i64,
        ;
        assert(0 <= xm * p) by (nonlinear_arith)
            requires
                0 <= xm,
                0 < p,
        ;
    }
    let num = xm * p;
    let rounded = (num + (q as i64) / 2) / (q as i64);
    (rounded % p) as i32
}

/// Decompress_d: inverse (lossy) of [`compress`]: round((q / 2^d) * y).
pub fn decompress(y: i32, d: u32, q: i32) -> (r: i32)
    requires
        q > 0,
        1 <= d <= 30,
        0 <= y < pow2(d as nat),
    ensures
        r == decompress_spec(y as int, d as nat, q as int),
        0 <= r < q,
{
    proof {
        vstd::arithmetic::power2::lemma2_to64();
        vstd::arithmetic::power2::lemma2_to64_rest();
        if d < 30 {
            vstd::arithmetic::power2::lemma_pow2_strictly_increases(d as nat, 30);
        }
        assert(y as i64 * q as i64 <= 0x4000_0000i64 * 0x8000_0000i64) by (nonlinear_arith)
            requires
                0 <= y < 0x4000_0000i64,
                0 < q < 0x8000_0000i64,
        ;
        assert(0 <= y as i64 * q as i64) by (nonlinear_arith)
            requires
                0 <= y,
                0 < q,
        ;
    }
    let num = (y as i64) * (q as i64);
    let half = crate::arith::pow2_u64(d - 1) as i64;
    let p = crate::arith::pow2_u64(d) as i64;
    let t = (num + half) / p;
    crate::arith::rem_euclid_i64(t, q as i64) as i32
}

/// Number of binary digits of `v` (0 for `v == 0`).
pub open spec fn bit_length(v: nat) -> nat
    decreases v,
{
    if v == 0 {
        0
    } else {
        1 + bit_length(v / 2)
    }
}

/// `bit_length(v)` is the least `b` with `v < 2^b`.
pub proof fn lemma_bit_length_bounds(v: nat)
    ensures
        v < pow2(bit_length(v)),
        v > 0 ==> pow2((bit_length(v) - 1) as nat) <= v,
    decreases v,
{
    if v == 0 {
        vstd::arithmetic::power2::lemma2_to64();
    } else {
        lemma_bit_length_bounds(v / 2);
        lemma_pow2_unfold(bit_length(v));
        if v / 2 > 0 {
            lemma_pow2_unfold((bit_length(v) - 1) as nat);
        } else {
            vstd::arithmetic::power2::lemma2_to64();
        }
    }
}

/// Bit length never exceeds the exponent of any power of two above the value.
pub proof fn lemma_bit_length_le(v: nat, b: nat)
    requires
        v < pow2(b),
    ensures
        bit_length(v) <= b,
{
    lemma_bit_length_bounds(v);
    if bit_length(v) > b {
        if b < (bit_length(v) - 1) as nat {
            vstd::arithmetic::power2::lemma_pow2_strictly_increases(b, (bit_length(v) - 1) as nat);
        }
    }
}

/// Number of bits needed to represent any value in [0, q).
pub fn bits_for_q(q: i32) -> (r: u32)
    requires
        q >= 1,
    ensures
        r == bit_length((q - 1) as nat),
        r <= 31,
{
    let mut v: u32 = (q - 1) as u32;
    let mut r: u32 = 0;
    proof {
        vstd::arithmetic::power2::lemma2_to64();
        vstd::arithmetic::power2::lemma2_to64_rest();
        lemma_bit_length_le((q - 1) as nat, 31);
    }
    while v > 0
        invariant
            r + bit_length(v as nat) == bit_length((q - 1) as nat),
            bit_length((q - 1) as nat) <= 31,
        decreases v,
    {
        v = v / 2;
        r = r + 1;
    }
    r
}

} // verus!
