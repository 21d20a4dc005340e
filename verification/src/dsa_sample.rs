//! XOF-backed sampling for the signature path and the runtime-degree KEM: uniform rejection
//! sampling for any `q` (ExpandA), bounded noise from half bytes or whole bytes, the dense
//! bit-packed masking vector (ExpandMask), and the weight-`tau` challenge (SampleInBall).
use crate::bytes::append_bytes;
use crate::encode::bit_length;
use crate::error::PqcError;
use crate::poly::{Poly, N};
use crate::sample::opt_prepend;
use crate::xof::{xof_byte, XofKind, XofStream, XOF_BUDGET};
use vstd::arithmetic::power2::pow2;
use vstd::prelude::*;

verus! {

// ---------------------------------------------------------------------------------------------
// Uniform sampling for any q.
// ---------------------------------------------------------------------------------------------

/// The little-endian value of the `n` stream bytes starting at `pos`.
pub open spec fn le_value(kind: XofKind, input: Seq<u8>, pos: int, n: nat) -> nat
    decreases n,
{
    if n == 0 {
        0
    } else {
        le_value(kind, input, pos, (n - 1) as nat) + (xof_byte(kind, input, pos + n - 1) as nat)
            * pow2((8 * (n - 1)) as nat)
    }
}

/// Bytes per uniform candidate for a `bits`-bit modulus.
pub open spec fn candidate_bytes(bits: nat) -> nat {
    ((bits + 7) / 8) as nat
}

/// The coefficients the uniform sampler accepts from stream position `pos` on: candidates of
/// `candidate_bytes(bits)` little-endian bytes, masked to `bits` bits, kept when below `q`.
pub open spec fn uniform_run(input: Seq<u8>, q: int, bits: nat, pos: nat, need: nat) -> Option<Seq<i32>>
    decreases XOF_BUDGET - pos, need,
{
    let w = candidate_bytes(bits);
    if need == 0 {
        Some(Seq::empty())
    } else if w == 0 || pos + w > XOF_BUDGET {
        None
    } else {
        let cand = le_value(XofKind::Shake128, input, pos as int, w) % pow2(bits);
        if cand < q {
            opt_prepend(seq![cand as i32], uniform_run(input, q, bits, pos + w, (need - 1) as nat))
        } else {
            uniform_run(input, q, bits, pos + w, need)
        }
    }
}

/// The absorbed input `seed || b0 || b1`.
pub open spec fn seed_two(seed: Seq<u8>, b0: u8, b1: u8) -> Seq<u8> {
    seed + seq![b0, b1]
}

/// The absorbed input `seed || nonce` with the nonce as two little-endian bytes.
pub open spec fn seed_nonce(seed: Seq<u8>, nonce: u16) -> Seq<u8> {
    seed + seq![(nonce % 256) as u8, (nonce / 256) as u8]
}

fn absorb_two(seed: &[u8], b0: u8, b1: u8) -> (out: Vec<u8>)
    ensures
        out@ == seed_two(seed@, b0, b1),
{
    let mut out: Vec<u8> = Vec::new();
    append_bytes(&mut out, seed);
    out.push(b0);
    out.push(b1);
    proof {
        assert(out@ =~= seed_two(seed@, b0, b1));
    }
    out
}

fn absorb_nonce(seed: &[u8], nonce: u16) -> (out: Vec<u8>)
    ensures
        out@ == seed_nonce(seed@, nonce),
{
    absorb_two(seed, (nonce % 256) as u8, (nonce / 256) as u8)
}

/// Reads one little-endian candidate of `w <= 4` bytes.
fn read_le(buf: &Vec<u8>, w: usize, Ghost(kind): Ghost<XofKind>, Ghost(input): Ghost<Seq<u8>>, Ghost(pos): Ghost<int>) -> (v: u64)
    requires
        w <= 4,
        buf.len() == w,
        forall|i: int| 0 <= i < w ==> #[trigger] buf@[i] == xof_byte(kind, input, pos + i),
    ensures
        v == le_value(kind, input, pos, w as nat),
        v < pow2((8 * w) as nat),
{
    let mut v: u64 = 0;
    let mut idx: usize = 0;
    proof {
        vstd::arithmetic::power2::lemma2_to64();
    }
    while idx < w
        invariant
            w <= 4,
            buf.len() == w,
            forall|i: int| 0 <= i < w ==> #[trigger] buf@[i] == xof_byte(kind, input, pos + i),
            idx <= w,
            v == le_value(kind, input, pos, idx as nat),
            v < pow2((8 * idx) as nat),
        decreases w - idx,
    {
        let m = crate::arith::pow2_u64(8 * idx as u32);
        proof {
            vstd::arithmetic::power2::lemma2_to64();
            vstd::arithmetic::power2::lemma_pow2_adds((8 * idx) as nat, 8);
            assert(pow2(8) == 256);
            assert(v + (buf@[idx as int] as nat) * pow2((8 * idx) as nat) < pow2((8 * (idx + 1)) as nat))
                by (nonlinear_arith)
                requires
                    v < pow2((8 * idx) as nat),
                    buf@[idx as int] < 256,
                    pow2((8 * (idx + 1)) as nat) == pow2((8 * idx) as nat) * 256,
            ;
            if idx + 1 < 4 {
                vstd::arithmetic::power2::lemma_pow2_strictly_increases((8 * (idx + 1)) as nat, 32);
            }
        }
        v = v + (buf[idx] as u64) * m;
        idx = idx + 1;
    }
    v
}

/// Uniform rejection sampling of `n` coefficients in [0, q) from SHAKE128(input).
pub fn uniform_coeffs(input: Vec<u8>, q: i32, n: usize) -> (r: Result<Vec<i32>, PqcError>)
    requires
        q >= 1,
    ensures
        uniform_run(input@, q as int, bit_length((q - 1) as nat), 0, n as nat) is None ==> r == Err::<
            Vec<i32>,
            PqcError,
        >(PqcError::XofBudgetExhausted),
        uniform_run(input@, q as int, bit_length((q - 1) as nat), 0, n as nat) matches Some(s) ==> r
            matches Ok(v) && v@ == s,
        r matches Ok(v) ==> v.len() == n,
{
    let bits = crate::encode::bits_for_q(q);
    let w: usize = ((bits + 7) / 8) as usize;
    let ghost inp = input@;
    let ghost target = uniform_run(inp, q as int, bits as nat, 0, n as nat);
    let mut stream = XofStream::new(XofKind::Shake128, input);
    let mut out: Vec<i32> = Vec::new();
    if w == 0 {
        if n == 0 {
            return Ok(out);
        }
        return Err(PqcError::XofBudgetExhausted);
    }
    let modulus = crate::arith::pow2_u64(bits);
    proof {
        assert(opt_prepend(out@, target) == target) by {
            if let Some(t) = target {
                assert(out@ + t =~= t);
            }
        }
        vstd::arithmetic::power2::lemma_pow2_pos(bits as nat);
    }
    while out.len() < n
        invariant
            stream.wf(),
            stream.kind == XofKind::Shake128,
            stream.input@ == inp,
            1 <= w <= 4,
            w == candidate_bytes(bits as nat),
            q >= 1,
            bits <= 31,
            bits == bit_length((q - 1) as nat),
            modulus == pow2(bits as nat),
            modulus > 0,
            out.len() <= n,
            inp == input@,
            target == uniform_run(inp, q as int, bits as nat, 0, n as nat),
            opt_prepend(out@, uniform_run(inp, q as int, bits as nat, stream.pos as nat, (n - out.len()) as nat)) == target,
        decreases XOF_BUDGET - stream.pos, n - out.len(),
    {
        let ghost pos0 = stream.pos as nat;
        let ghost out0 = out@;
        let ghost need0 = (n - out.len()) as nat;
        let buf = match stream.read(w) {
            Some(b) => b,
            None => {
                proof {
                    assert(uniform_run(inp, q as int, bits as nat, pos0, need0) is None);
                }
                return Err(PqcError::XofBudgetExhausted);
            },
        };
        let raw = read_le(&buf, w, Ghost(XofKind::Shake128), Ghost(inp), Ghost(pos0 as int));
        let cand = raw % modulus;
        proof {
            assert(cand == le_value(XofKind::Shake128, inp, pos0 as int, w as nat) % pow2(bits as nat));
            assert(uniform_run(inp, q as int, bits as nat, pos0, need0) == (if cand < q {
                opt_prepend(seq![cand as i32], uniform_run(inp, q as int, bits as nat, (pos0 + w) as nat, (need0 - 1) as nat))
            } else {
                uniform_run(inp, q as int, bits as nat, (pos0 + w) as nat, need0)
            }));
        }
        if cand < q as u64 {
            out.push(cand as i32);
            proof {
                assert(stream.pos == pos0 + w);
                assert(out@ == out0.push(cand as i32));
                let rest = uniform_run(inp, q as int, bits as nat, stream.pos as nat, (n - out.len()) as nat);
                match rest {
                    Some(s) => {
                        assert(out0 + (seq![cand as i32] + s) =~= out@ + s);
                    },
                    None => {},
                }
            }
        } else {
            proof {
                assert(stream.pos == pos0 + w);
            }
        }
    }
    proof {
        assert(out@ + Seq::<i32>::empty() =~= out@);
    }
    Ok(out)
}

/// Uniform rejection sampling in [0, q) from SHAKE128(seed || s || r), for any `q`: candidates
/// are `ceil(bits/8)` little-endian bytes masked to `bits = bit_length(q - 1)` bits. ExpandA
/// entry `(r, s)`: the column byte is absorbed before the row byte.
pub fn sample_uniform_wide(seed: &[u8; 32], r: u8, s: u8, q: i32) -> (res: Result<Poly, PqcError>)
    requires
        q >= 1,
    ensures
        uniform_run(seed_two(seed@, s, r), q as int, bit_length((q - 1) as nat), 0, N as nat) is None
            ==> res == Err::<Poly, PqcError>(PqcError::XofBudgetExhausted),
        uniform_run(seed_two(seed@, s, r), q as int, bit_length((q - 1) as nat), 0, N as nat) matches Some(
            v,
        ) ==> res matches Ok(p) && p.coeffs@ == v,
{
    let input = absorb_two(seed, s, r);
    match uniform_coeffs(input, q, N) {
        Ok(v) => Ok(poly_from_vec(&v)),
        Err(e) => Err(e),
    }
}

/// The polynomial whose coefficients are `v`.
pub fn poly_from_vec(v: &Vec<i32>) -> (p: Poly)
    requires
        v.len() == N,
    ensures
        p.coeffs@ == v@,
{
    let mut p = Poly::zero();
    let mut i: usize = 0;
    while i < N
        invariant
            v.len() == N,
            i <= N,
            p.coeffs@.len() == N,
            forall|j: int| 0 <= j < i ==> #[trigger] p.coeffs@[j] == v@[j],
        decreases N - i,
    {
        p.coeffs[i] = v[i];
        i = i + 1;
    }
    proof {
        assert(p.coeffs@ =~= v@);
    }
    p
}

// ---------------------------------------------------------------------------------------------
// Bounded noise.
// ---------------------------------------------------------------------------------------------

/// CoeffFromHalfByte generalized to any `eta`: nibbles below the largest multiple of
/// `2*eta + 1` that fits in 16 map to `eta - (nibble mod (2*eta + 1))`; the rest are rejected.
pub open spec fn half_byte_spec(nibble: int, eta: int) -> Option<int> {
    let range = 2 * eta + 1;
    if nibble < 16 - 16int % range {
        Some(eta - nibble % range)
    } else {
        None
    }
}

/// CoeffFromHalfByte generalized to any `eta` (it reproduces the standard's tables at
/// `eta = 2` and `eta = 4`).
pub fn coeff_from_half_byte(nibble: u8, eta: u32) -> (r: Option<i32>)
    requires
        eta < 0x4000_0000,
    ensures
        r == (match half_byte_spec(nibble as int, eta as int) {
            Some(v) => Some(v as i32),
            None => None::<i32>,
        }),
{
    let range = 2 * eta + 1;
    let usable = if range > 16 {
        proof {
            vstd::arithmetic::div_mod::lemma_small_mod(16, range as nat);
        }
        0
    } else {
        16 - (16 % range)
    };
    if (nibble as u32) < usable {
        let m = nibble as u32 % range;
        assert(m < range);
        Some(eta as i32 - m as i32)
    } else {
        None
    }
}

/// The values the half-byte noise sampler accepts from one byte, low nibble first, while
/// `need` more are wanted.
pub open spec fn half_byte_pair(byte: int, eta: int, need: nat) -> Seq<i32> {
    let lo: Seq<i32> = match half_byte_spec(byte % 16, eta) {
        Some(v) => seq![v as i32],
        None => Seq::empty(),
    };
    let hi: Seq<i32> = match half_byte_spec(byte / 16, eta) {
        Some(v) => if need > lo.len() {
            seq![v as i32]
        } else {
            Seq::empty()
        },
        None => Seq::empty(),
    };
    lo + hi
}

/// The half-byte noise sampler's output from stream position `pos` on (for `eta <= 7`).
pub open spec fn half_byte_run(input: Seq<u8>, eta: int, pos: nat, need: nat) -> Option<Seq<i32>>
    decreases XOF_BUDGET - pos, need,
{
    if need == 0 {
        Some(Seq::empty())
    } else if pos + 1 > XOF_BUDGET {
        None
    } else {
        let got = half_byte_pair(xof_byte(XofKind::Shake256, input, pos as int) as int, eta, need);
        opt_prepend(got, half_byte_run(input, eta, pos + 1, (need - got.len()) as nat))
    }
}

/// A finished half-byte noise run has exactly `need` values, all in `[-eta, eta]`.
pub proof fn lemma_half_byte_run_shape(input: Seq<u8>, eta: int, pos: nat, need: nat)
    requires
        0 <= eta <= 7,
    ensures
        half_byte_run(input, eta, pos, need) matches Some(s) ==> s.len() == need && forall|i: int|
            0 <= i < s.len() ==> -eta <= #[trigger] s[i] <= eta,
    decreases XOF_BUDGET - pos, need,
{
    if need > 0 && pos + 1 <= XOF_BUDGET {
        let byte = xof_byte(XofKind::Shake256, input, pos as int) as int;
        let got = half_byte_pair(byte, eta, need);
        assert(got.len() <= need) by {
            if half_byte_spec(byte % 16, eta) is Some {
            }
        }
        assert forall|i: int| 0 <= i < got.len() implies -eta <= #[trigger] got[i] <= eta by {
            let range = 2 * eta + 1;
            assert(0 <= (byte % 16) % range < range);
            assert(0 <= (byte / 16) % range < range);
        }
        lemma_half_byte_run_shape(input, eta, pos + 1, (need - got.len()) as nat);
        if let Some(rest) = half_byte_run(input, eta, pos + 1, (need - got.len()) as nat) {
            let s = got + rest;
            assert forall|i: int| 0 <= i < s.len() implies -eta <= #[trigger] s[i] <= eta by {
                if i < got.len() {
                    assert(s[i] == got[i]);
                } else {
                    assert(s[i] == rest[i - got.len()]);
                }
            }
        }
    }
}

/// The whole-byte noise sampler's output from stream position `pos` on: bytes `v <= 2*eta`
/// become `eta - v`, the rest are rejected.
pub open spec fn byte_eta_run(input: Seq<u8>, eta: int, pos: nat, need: nat) -> Option<Seq<i32>>
    decreases XOF_BUDGET - pos, need,
{
    if need == 0 {
        Some(Seq::empty())
    } else if pos + 1 > XOF_BUDGET {
        None
    } else {
        let v = xof_byte(XofKind::Shake256, input, pos as int) as int;
        if v <= 2 * eta {
            opt_prepend(seq![(eta - v) as i32], byte_eta_run(input, eta, pos + 1, (need - 1) as nat))
        } else {
            byte_eta_run(input, eta, pos + 1, need)
        }
    }
}

/// A finished whole-byte noise run has exactly `need` values, all in `[-eta, eta]`.
pub proof fn lemma_byte_eta_run_shape(input: Seq<u8>, eta: int, pos: nat, need: nat)
    requires
        0 <= eta < 0x4000_0000,
    ensures
        byte_eta_run(input, eta, pos, need) matches Some(s) ==> s.len() == need && forall|i: int|
            0 <= i < s.len() ==> -eta <= #[trigger] s[i] <= eta,
    decreases XOF_BUDGET - pos, need,
{
    if need > 0 && pos + 1 <= XOF_BUDGET {
        let v = xof_byte(XofKind::Shake256, input, pos as int) as int;
        if v <= 2 * eta {
            lemma_byte_eta_run_shape(input, eta, pos + 1, (need - 1) as nat);
            if let Some(rest) = byte_eta_run(input, eta, pos + 1, (need - 1) as nat) {
                let s = seq![(eta - v) as i32] + rest;
                assert forall|i: int| 0 <= i < s.len() implies -eta <= #[trigger] s[i] <= eta by {
                    if i > 0 {
                        assert(s[i] == rest[i - 1]);
                    }
                }
            }
        } else {
            lemma_byte_eta_run_shape(input, eta, pos + 1, need);
        }
    }
}

/// `n` coefficients in [-eta, eta] from SHAKE256(input), one candidate byte at a time.
pub fn byte_eta_coeffs(input: Vec<u8>, eta: u32, n: usize) -> (r: Result<Vec<i32>, PqcError>)
    requires
        eta < 0x4000_0000,
    ensures
        byte_eta_run(input@, eta as int, 0, n as nat) is None ==> r == Err::<Vec<i32>, PqcError>(
            PqcError::XofBudgetExhausted,
        ),
        byte_eta_run(input@, eta as int, 0, n as nat) matches Some(s) ==> r matches Ok(v) && v@ == s,
        r matches Ok(v) ==> v.len() == n,
{
    let ghost inp = input@;
    let ghost target = byte_eta_run(inp, eta as int, 0, n as nat);
    let mut stream = XofStream::new(XofKind::Shake256, input);
    let mut out: Vec<i32> = Vec::new();
    proof {
        assert(opt_prepend(out@, target) == target) by {
            if let Some(t) = target {
                assert(out@ + t =~= t);
            }
        }
    }
    while out.len() < n
        invariant
            stream.wf(),
            stream.kind == XofKind::Shake256,
            stream.input@ == inp,
            eta < 0x4000_0000,
            out.len() <= n,
            inp == input@,
            target == byte_eta_run(inp, eta as int, 0, n as nat),
            opt_prepend(out@, byte_eta_run(inp, eta as int, stream.pos as nat, (n - out.len()) as nat)) == target,
        decreases XOF_BUDGET - stream.pos,
    {
        let ghost out0 = out@;
        let ghost pos0 = stream.pos as nat;
        let buf = match stream.read(1) {
            Some(b) => b,
            None => {
                proof {
                    assert(byte_eta_run(inp, eta as int, pos0, (n - out.len()) as nat) is None);
                }
                return Err(PqcError::XofBudgetExhausted);
            },
        };
        let v = buf[0] as u32;
        if v <= 2 * eta {
            out.push(eta as i32 - v as i32);
            proof {
                let rest = byte_eta_run(inp, eta as int, stream.pos as nat, (n - out.len()) as nat);
                match rest {
                    Some(s) => {
                        assert(out0 + (seq![(eta - v) as i32] + s) =~= out@ + s);
                    },
                    None => {},
                }
            }
        }
    }
    proof {
        assert(out@ + Seq::<i32>::empty() =~= out@);
    }
    Ok(out)
}

/// `N` coefficients in [-eta, eta] from SHAKE256(seed || nonce) (RejBoundedPoly): two
/// half-byte candidates per byte for `eta <= 7`, one byte per candidate above that.
pub fn sample_eta(seed: &[u8], nonce: u16, eta: u32) -> (r: Result<Poly, PqcError>)
    requires
        eta < 0x4000_0000,
    ensures
        ({
            let run = if eta <= 7 {
                half_byte_run(seed_nonce(seed@, nonce), eta as int, 0, N as nat)
            } else {
                byte_eta_run(seed_nonce(seed@, nonce), eta as int, 0, N as nat)
            };
            &&& run is None ==> r == Err::<Poly, PqcError>(PqcError::XofBudgetExhausted)
            &&& run matches Some(s) ==> r matches Ok(p) && p.coeffs@ == s
        }),
{
    let input = absorb_nonce(seed, nonce);
    if eta > 7 {
        return match byte_eta_coeffs(input, eta, N) {
            Ok(v) => Ok(poly_from_vec(&v)),
            Err(e) => Err(e),
        };
    }
    let ghost inp = input@;
    let ghost target = half_byte_run(inp, eta as int, 0, N as nat);
    let mut stream = XofStream::new(XofKind::Shake256, input);
    let mut out: Vec<i32> = Vec::new();
    proof {
        assert(opt_prepend(out@, target) == target) by {
            if let Some(t) = target {
                assert(out@ + t =~= t);
            }
        }
    }
    while out.len() < N
        invariant
            stream.wf(),
            stream.kind == XofKind::Shake256,
            stream.input@ == inp,
            eta <= 7,
            out.len() <= N,
            inp == seed_nonce(seed@, nonce),
            target == half_byte_run(inp, eta as int, 0, N as nat),
            opt_prepend(out@, half_byte_run(inp, eta as int, stream.pos as nat, (N - out.len()) as nat)) == target,
        decreases XOF_BUDGET - stream.pos,
    {
        let ghost out0 = out@;
        let ghost need0 = (N - out.len()) as nat;
        let ghost pos0 = stream.pos as nat;
        let buf = match stream.read(1) {
            Some(b) => b,
            None => {
                proof {
                    assert(half_byte_run(inp, eta as int, pos0, need0) is None);
                }
                return Err(PqcError::XofBudgetExhausted);
            },
        };
        let byte = buf[0];
        let ghost got = half_byte_pair(byte as int, eta as int, need0);
        if let Some(v) = coeff_from_half_byte(byte % 16, eta) {
            out.push(v);
        }
        if out.len() < N {
            if let Some(v) = coeff_from_half_byte(byte / 16, eta) {
                out.push(v);
            }
        }
        proof {
            assert(out@ =~= out0 + got);
            let rest = half_byte_run(inp, eta as int, stream.pos as nat, (N - out.len()) as nat);
            match rest {
                Some(s) => {
                    assert(out0 + (got + s) =~= out@ + s);
                },
                None => {},
            }
        }
    }
    proof {
        assert(out@ + Seq::<i32>::empty() =~= out@);
    }
    Ok(poly_from_vec(&out))
}

// ---------------------------------------------------------------------------------------------
// The masking vector (ExpandMask).
// ---------------------------------------------------------------------------------------------

/// Bit `i` of the chosen SHAKE function's output stream, least significant bit of byte 0 first.
pub open spec fn xof_bit(kind: XofKind, input: Seq<u8>, i: int) -> bool {
    (xof_byte(kind, input, i / 8) >> ((i % 8) as u8)) & 1u8 == 1u8
}

/// The unsigned value of the `n` stream bits starting at bit `start`, first bit least significant.
pub open spec fn xof_field(kind: XofKind, input: Seq<u8>, start: int, n: nat) -> nat
    decreases n,
{
    if n == 0 {
        0
    } else {
        xof_field(kind, input, start, (n - 1) as nat) + if xof_bit(kind, input, start + n - 1) {
            pow2((n - 1) as nat)
        } else {
            0
        }
    }
}

/// Bytes of stream needed to read the first `j + 1` fields of `bits` bits.
pub open spec fn bytes_through(j: int, bits: int) -> int {
    ((j + 1) * bits + 7) / 8
}

/// The masking sampler's output from field `j` on: `bits`-bit fields of the dense stream,
/// each kept as `gamma1 - field` when below `2 * gamma1`.
pub open spec fn mask_run(input: Seq<u8>, bits: nat, gamma1: int, j: nat, need: nat) -> Option<Seq<i32>>
    decreases 8 * XOF_BUDGET - j, need,
{
    if need == 0 {
        Some(Seq::empty())
    } else if j >= 8 * XOF_BUDGET || bytes_through(j as int, bits as int) > XOF_BUDGET {
        None
    } else {
        let cand = xof_field(XofKind::Shake256, input, (j * bits) as int, bits);
        if cand < 2 * gamma1 {
            opt_prepend(seq![(gamma1 - cand) as i32], mask_run(input, bits, gamma1, j + 1, (need - 1) as nat))
        } else {
            mask_run(input, bits, gamma1, j + 1, need)
        }
    }
}

/// A finished masking run has exactly `need` values, all in `(-gamma1, gamma1]`.
pub proof fn lemma_mask_run_shape(input: Seq<u8>, bits: nat, gamma1: int, j: nat, need: nat)
    requires
        1 <= gamma1 < 0x4000_0000,
    ensures
        mask_run(input, bits, gamma1, j, need) matches Some(s) ==> s.len() == need && forall|i: int|
            0 <= i < s.len() ==> -gamma1 < #[trigger] s[i] <= gamma1,
    decreases 8 * XOF_BUDGET - j, need,
{
    if need > 0 && !(j >= 8 * XOF_BUDGET || bytes_through(j as int, bits as int) > XOF_BUDGET) {
        let cand = xof_field(XofKind::Shake256, input, (j * bits) as int, bits);
        if cand < 2 * gamma1 {
            lemma_mask_run_shape(input, bits, gamma1, j + 1, (need - 1) as nat);
            if let Some(rest) = mask_run(input, bits, gamma1, j + 1, (need - 1) as nat) {
                let s = seq![(gamma1 - cand) as i32] + rest;
                assert forall|i: int| 0 <= i < s.len() implies -gamma1 < #[trigger] s[i] <= gamma1 by {
                    if i > 0 {
                        assert(s[i] == rest[i - 1]);
                    }
                }
            }
        } else {
            lemma_mask_run_shape(input, bits, gamma1, j + 1, need);
        }
    }
}

/// Reads the `bits`-bit field starting at stream bit `start` from a held prefix.
fn read_field(buf: &Vec<u8>, start: usize, bits: u32, Ghost(kind): Ghost<XofKind>, Ghost(input): Ghost<Seq<u8>>) -> (v: u64)
    requires
        bits <= 32,
        start + bits <= 8 * buf.len(),
        8 * buf.len() <= usize::MAX,
        forall|i: int| 0 <= i < buf.len() ==> #[trigger] buf@[i] == xof_byte(kind, input, i),
    ensures
        v == xof_field(kind, input, start as int, bits as nat),
        v < pow2(bits as nat),
{
    let mut v: u64 = 0;
    let mut b: u32 = 0;
    proof {
        vstd::arithmetic::power2::lemma2_to64();
    }
    while b < bits
        invariant
            bits <= 32,
            b <= bits,
            start + bits <= 8 * buf.len(),
            8 * buf.len() <= usize::MAX,
            forall|i: int| 0 <= i < buf.len() ==> #[trigger] buf@[i] == xof_byte(kind, input, i),
            v == xof_field(kind, input, start as int, b as nat),
            v < pow2(b as nat),
        decreases bits - b,
    {
        let idx = start + b as usize;
        let sh: u8 = (idx % 8) as u8;
        let byte = buf[idx / 8];
        let bit = (byte >> sh) & 1u8;
        let m = crate::arith::pow2_u64(b);
        proof {
            assert((byte >> sh) & 1u8 <= 1u8) by (bit_vector);
            assert(xof_bit(kind, input, idx as int) == (bit == 1u8));
            vstd::arithmetic::power2::lemma_pow2_unfold((b + 1) as nat);
            vstd::arithmetic::power2::lemma2_to64();
            vstd::arithmetic::power2::lemma2_to64_rest();
            if b + 1 < 33 {
                vstd::arithmetic::power2::lemma_pow2_strictly_increases((b + 1) as nat, 33);
            }
        }
        proof {
            assert(xof_field(kind, input, start as int, (b + 1) as nat) == xof_field(kind, input, start as int, b as nat)
                + if xof_bit(kind, input, start + b) {
                pow2(b as nat)
            } else {
                0
            });
        }
        if bit == 1u8 {
            v = v + m;
        }
        b = b + 1;
    }
    v
}

/// One masking polynomial from SHAKE256(input).
fn mask_poly(input: Vec<u8>, bits: u32, gamma1: i32) -> (r: Result<Poly, PqcError>)
    requires
        1 <= bits <= 31,
        1 <= gamma1 < 0x4000_0000,
    ensures
        mask_run(input@, bits as nat, gamma1 as int, 0, N as nat) is None ==> r == Err::<Poly, PqcError>(
            PqcError::XofBudgetExhausted,
        ),
        mask_run(input@, bits as nat, gamma1 as int, 0, N as nat) matches Some(s) ==> r matches Ok(p)
            && p.coeffs@ == s,
{
    let ghost inp = input@;
    let ghost target = mask_run(inp, bits as nat, gamma1 as int, 0, N as nat);
    let mut stream = XofStream::new(XofKind::Shake256, input);
    let mut out: Vec<i32> = Vec::new();
    let mut j: usize = 0;
    let range: u64 = 2 * gamma1 as u64;
    proof {
        assert(opt_prepend(out@, target) == target) by {
            if let Some(t) = target {
                assert(out@ + t =~= t);
            }
        }
    }
    while out.len() < N
        invariant
            stream.wf(),
            stream.kind == XofKind::Shake256,
            stream.input@ == inp,
            1 <= bits <= 31,
            1 <= gamma1 < 0x4000_0000,
            range == 2 * gamma1,
            out.len() <= N,
            j <= 8 * XOF_BUDGET,
            inp == input@,
            target == mask_run(inp, bits as nat, gamma1 as int, 0, N as nat),
            opt_prepend(out@, mask_run(inp, bits as nat, gamma1 as int, j as nat, (N - out.len()) as nat)) == target,
        decreases 8 * XOF_BUDGET - j,
    {
        let ghost out0 = out@;
        let ghost need0 = (N - out.len()) as nat;
        if j >= 8 * XOF_BUDGET {
            return Err(PqcError::XofBudgetExhausted);
        }
        proof {
            assert((j + 1) * bits <= 8 * XOF_BUDGET * 31) by (nonlinear_arith)
                requires
                    j < 8 * XOF_BUDGET,
                    bits <= 31,
            ;
        }
        let through = ((j + 1) * bits as usize + 7) / 8;
        if !stream.fill_to(through) {
            return Err(PqcError::XofBudgetExhausted);
        }
        proof {
            assert(j * bits + bits == (j + 1) * bits) by (nonlinear_arith);
        }
        let cand = read_field(&stream.buf, j * bits as usize, bits, Ghost(XofKind::Shake256), Ghost(inp));
        if cand < range {
            out.push(gamma1 - cand as i32);
            proof {
                let rest = mask_run(inp, bits as nat, gamma1 as int, (j + 1) as nat, (N - out.len()) as nat);
                match rest {
                    Some(s) => {
                        assert(out0 + (seq![(gamma1 - cand) as i32] + s) =~= out@ + s);
                    },
                    None => {},
                }
            }
        }
        j = j + 1;
    }
    proof {
        assert(out@ + Seq::<i32>::empty() =~= out@);
    }
    Ok(poly_from_vec(&out))
}

/// The nonce of masking polynomial `idx`: `kappa + idx` modulo 2^16.
pub open spec fn mask_nonce(kappa: u16, idx: int) -> u16 {
    ((kappa + idx) % 0x1_0000) as u16
}

/// The masking vector `y` (ExpandMask): `l` polynomials with coefficients in
/// `(-gamma1, gamma1]`, polynomial `idx` read as a dense `bit_length(2*gamma1 - 1)`-bit stream
/// from SHAKE256(seed || kappa + idx).
pub fn expand_mask(seed: &[u8], kappa: u16, l: u32, gamma1: i32) -> (r: Result<Vec<Poly>, PqcError>)
    requires
        1 <= gamma1 < 0x4000_0000,
    ensures
        r is Ok <==> forall|idx: int|
            0 <= idx < l ==> #[trigger] mask_run(
                seed_nonce(seed@, mask_nonce(kappa, idx)),
                bit_length((2 * gamma1 - 1) as nat),
                gamma1 as int,
                0,
                N as nat,
            ) is Some,
        r is Err ==> r == Err::<Vec<Poly>, PqcError>(PqcError::XofBudgetExhausted),
        r matches Ok(v) ==> v.len() == l && forall|idx: int|
            0 <= idx < l ==> mask_run(
                seed_nonce(seed@, mask_nonce(kappa, idx)),
                bit_length((2 * gamma1 - 1) as nat),
                gamma1 as int,
                0,
                N as nat,
            ) == Some(#[trigger] v@[idx].coeffs@),
{
    let range = 2 * gamma1;
    let bits = crate::encode::bits_for_q(range);
    proof {
        crate::encode::lemma_bit_length_bounds((range - 1) as nat);
        if bits == 0 {
            vstd::arithmetic::power2::lemma2_to64();
        }
    }
    let mut out: Vec<Poly> = Vec::new();
    let mut idx: u32 = 0;
    while idx < l
        invariant
            1 <= gamma1 < 0x4000_0000,
            1 <= bits <= 31,
            bits == bit_length((2 * gamma1 - 1) as nat),
            idx <= l,
            out.len() == idx,
            forall|t: int|
                0 <= t < idx ==> mask_run(
                    seed_nonce(seed@, mask_nonce(kappa, t)),
                    bits as nat,
                    gamma1 as int,
                    0,
                    N as nat,
                ) == Some(#[trigger] out@[t].coeffs@),
        decreases l - idx,
    {
        let nonce = ((kappa as u32 + idx % 0x1_0000) % 0x1_0000) as u16;
        proof {
            vstd::arithmetic::div_mod::lemma_add_mod_noop(kappa as int, idx as int, 0x1_0000);
            vstd::arithmetic::div_mod::lemma_small_mod(kappa as nat, 0x1_0000);
            vstd::arithmetic::div_mod::lemma_mod_twice(idx as int, 0x1_0000);
            vstd::arithmetic::div_mod::lemma_add_mod_noop(kappa as int, (idx % 0x1_0000) as int, 0x1_0000);
            assert(nonce == mask_nonce(kappa, idx as int));
        }
        let input = absorb_nonce(seed, nonce);
        match mask_poly(input, bits, gamma1) {
            Ok(p) => {
                out.push(p);
            },
            Err(e) => {
                proof {
                    assert(mask_run(seed_nonce(seed@, mask_nonce(kappa, idx as int)), bits as nat, gamma1 as int, 0, N as nat) is None);
                }
                return Err(e);
            },
        }
        idx = idx + 1;
    }
    proof {
        assert forall|t: int| 0 <= t < l implies #[trigger] mask_run(
            seed_nonce(seed@, mask_nonce(kappa, t)),
            bit_length((2 * gamma1 - 1) as nat),
            gamma1 as int,
            0,
            N as nat,
        ) is Some by {
            assert(mask_run(seed_nonce(seed@, mask_nonce(kappa, t)), bits as nat, gamma1 as int, 0, N as nat)
                == Some(out@[t].coeffs@));
        }
    }
    Ok(out)
}

// ---------------------------------------------------------------------------------------------
// The challenge (SampleInBall).
// ---------------------------------------------------------------------------------------------

/// The first stream position at or after `pos` whose byte is at most `i`.
pub open spec fn first_small(input: Seq<u8>, i: int, pos: nat) -> Option<nat>
    decreases XOF_BUDGET - pos,
{
    if pos + 1 > XOF_BUDGET {
        None
    } else if xof_byte(XofKind::Shake256, input, pos as int) as int <= i {
        Some(pos)
    } else {
        first_small(input, i, pos + 1)
    }
}

/// SampleInBall from step `i` on, with the candidate bytes read from stream position `pos` and
/// the coefficients built so far in `c`: step `i` draws `j <= i`, moves `c[j]` to `c[i]`, and
/// sets `c[j]` to `-1` or `1` by sign bit `i - (N - tau)`.
pub open spec fn challenge_run(input: Seq<u8>, tau: int, i: nat, pos: nat, c: Seq<i32>) -> Option<Seq<i32>>
    decreases N - i,
{
    if i >= N {
        Some(c)
    } else {
        match first_small(input, i as int, pos) {
            None => None,
            Some(p) => {
                let j = xof_byte(XofKind::Shake256, input, p as int) as int;
                let sign: i32 = if xof_bit(XofKind::Shake256, input, i - (N - tau)) {
                    -1i32
                } else {
                    1i32
                };
                challenge_run(input, tau, i + 1, p + 1, c.update(i as int, c[j]).update(j, sign))
            },
        }
    }
}

/// The weight-`tau` challenge polynomial (SampleInBall) from SHAKE256(c_tilde): the first 8
/// bytes are the sign bits, the rest the Fisher-Yates positions.
pub fn sample_challenge(c_tilde: &[u8], tau: u32) -> (r: Result<Poly, PqcError>)
    requires
        tau <= 64,
    ensures
        challenge_run(c_tilde@, tau as int, (N - tau) as nat, 8, Seq::new(N as nat, |k: int| 0i32)) is None
            ==> r == Err::<Poly, PqcError>(PqcError::XofBudgetExhausted),
        challenge_run(c_tilde@, tau as int, (N - tau) as nat, 8, Seq::new(N as nat, |k: int| 0i32)) matches Some(
            s,
        ) ==> r matches Ok(p) && p.coeffs@ == s,
{
    let mut input: Vec<u8> = Vec::new();
    append_bytes(&mut input, c_tilde);
    proof {
        assert(input@ =~= c_tilde@);
    }
    let ghost inp = input@;
    let mut stream = XofStream::new(XofKind::Shake256, input);
    let sign_bytes = match stream.read(8) {
        Some(b) => b,
        None => {
            return Err(PqcError::XofBudgetExhausted);
        },
    };
    let mut c = Poly::zero();
    let ghost target = challenge_run(inp, tau as int, (N - tau) as nat, 8, Seq::new(N as nat, |k: int| 0i32));
    proof {
        assert(c.coeffs@ =~= Seq::new(N as nat, |k: int| 0i32));
    }
    let mut i: usize = N - tau as usize;
    while i < N
        invariant
            stream.wf(),
            stream.kind == XofKind::Shake256,
            stream.input@ == inp,
            inp == c_tilde@,
            tau <= 64,
            N - tau <= i <= N,
            sign_bytes.len() == 8,
            forall|t: int| 0 <= t < 8 ==> #[trigger] sign_bytes@[t] == xof_byte(XofKind::Shake256, inp, t),
            c.coeffs@.len() == N,
            target == challenge_run(inp, tau as int, (N - tau) as nat, 8, Seq::new(N as nat, |k: int| 0i32)),
            challenge_run(inp, tau as int, i as nat, stream.pos as nat, c.coeffs@) == target,
        decreases N - i,
    {
        let ghost pos0 = stream.pos as nat;
        let mut j: usize = 0;
        let mut found = false;
        while !found
            invariant
                stream.wf(),
                stream.kind == XofKind::Shake256,
                stream.input@ == inp,
                i < N,
                pos0 <= stream.pos,
                tau <= 64,
                N - tau <= i,
                inp == c_tilde@,
                target == challenge_run(inp, tau as int, (N - tau) as nat, 8, Seq::new(N as nat, |k: int| 0i32)),
                challenge_run(inp, tau as int, i as nat, pos0, c.coeffs@) == target,
                !found ==> first_small(inp, i as int, pos0) == first_small(inp, i as int, stream.pos as nat),
                found ==> stream.pos >= 1 && first_small(inp, i as int, pos0) == Some((stream.pos - 1) as nat)
                    && j == xof_byte(XofKind::Shake256, inp, stream.pos - 1) && j <= i,
            decreases XOF_BUDGET - stream.pos,
        {
            let ghost p = stream.pos as nat;
            let b = match stream.read(1) {
                Some(b) => b,
                None => {
                    proof {
                        assert(first_small(inp, i as int, p) is None);
                        assert(first_small(inp, i as int, pos0) is None);
                        assert(challenge_run(inp, tau as int, i as nat, pos0, c.coeffs@) is None);
                    }
                    return Err(PqcError::XofBudgetExhausted);
                },
            };
            if b[0] as usize <= i {
                j = b[0] as usize;
                found = true;
            }
        }
        let bit_index = i - (N - tau as usize);
        let bit = (sign_bytes[bit_index / 8] >> ((bit_index % 8) as u8)) & 1u8;
        proof {
            assert(sign_bytes@[(bit_index / 8) as int] == xof_byte(XofKind::Shake256, inp, (bit_index / 8) as int));
        }
        let moved = c.coeffs[j];
        c.coeffs[i] = moved;
        c.coeffs[j] = if bit == 1 {
            -1
        } else {
            1
        };
        i = i + 1;
    }
    Ok(c)
}

} // verus!
