//! XOF-backed sampling for the fixed-degree KEM: uniform rejection sampling for matrix entries
//! (SHAKE128, two 12-bit candidates per three bytes) and centered binomial noise from a
//! SHAKE256 PRF, for any `eta`.
use crate::bytes::append_bytes;
use crate::encode::stream_bit;
use crate::error::PqcError;
use crate::poly::{Poly, N};
use crate::xof::{shake256, shake256_output, xof_byte, XofKind, XofStream, XOF_BUDGET};
use vstd::prelude::*;

verus! {

/// `p` followed by `r`'s sequence, when there is one.
pub open spec fn opt_prepend(p: Seq<i32>, r: Option<Seq<i32>>) -> Option<Seq<i32>> {
    match r {
        Some(s) => Some(p + s),
        None => None,
    }
}

/// The two 12-bit candidates packed into three stream bytes starting at `pos`.
pub open spec fn candidates12(input: Seq<u8>, pos: int) -> (int, int) {
    let b0 = xof_byte(XofKind::Shake128, input, pos) as int;
    let b1 = xof_byte(XofKind::Shake128, input, pos + 1) as int;
    let b2 = xof_byte(XofKind::Shake128, input, pos + 2) as int;
    (b0 + (b1 % 16) * 256, b1 / 16 + b2 * 16)
}

/// The coefficients the 12-bit sampler accepts from stream position `pos` on, until `need`
/// more are found; `None` if that would read past the XOF budget.
pub open spec fn uniform12_run(input: Seq<u8>, q: int, pos: nat, need: nat) -> Option<Seq<i32>>
    decreases XOF_BUDGET - pos, need,
{
    if need == 0 {
        Some(Seq::empty())
    } else if pos + 3 > XOF_BUDGET {
        None
    } else {
        let (d1, d2) = candidates12(input, pos as int);
        let first: Seq<i32> = if d1 < q {
            seq![d1 as i32]
        } else {
            Seq::empty()
        };
        let left = (need - first.len()) as nat;
        let second: Seq<i32> = if left > 0 && d2 < q {
            seq![d2 as i32]
        } else {
            Seq::empty()
        };
        opt_prepend(first + second, uniform12_run(input, q, pos + 3, (left - second.len()) as nat))
    }
}

/// The absorbed input `seed || i || j`.
pub open spec fn seed_ij(seed: Seq<u8>, i: u8, j: u8) -> Seq<u8> {
    seed + seq![i, j]
}

/// Builds `seed || i || j`.
pub fn absorb_ij(seed: &[u8], i: u8, j: u8) -> (out: Vec<u8>)
    ensures
        out@ == seed_ij(seed@, i, j),
{
    let mut out: Vec<u8> = Vec::new();
    append_bytes(&mut out, seed);
    out.push(i);
    out.push(j);
    proof {
        assert(out@ =~= seed_ij(seed@, i, j));
    }
    out
}

/// Samples a polynomial with coefficients uniform in [0, q) from SHAKE128(seed || i || j):
/// every three bytes give two 12-bit candidates, kept when below `q`.
pub fn sample_uniform(seed: &[u8; 32], i: u8, j: u8, q: i32) -> (r: Result<Poly, PqcError>)
    ensures
        uniform12_run(seed_ij(seed@, i, j), q as int, 0, N as nat) is None ==> r == Err::<
            Poly,
            PqcError,
        >(PqcError::XofBudgetExhausted),
        uniform12_run(seed_ij(seed@, i, j), q as int, 0, N as nat) matches Some(s) ==> r matches Ok(
            p,
        ) && p.coeffs@ == s,
{
    let input = absorb_ij(seed, i, j);
    let ghost inp = input@;
    let mut stream = XofStream::new(XofKind::Shake128, input);
    let mut out = Poly::zero();
    let mut count: usize = 0;
    proof {
        assert(out.coeffs@.take(0) =~= Seq::<i32>::empty());
        assert(opt_prepend(Seq::empty(), uniform12_run(inp, q as int, 0, N as nat)) == uniform12_run(
            inp,
            q as int,
            0,
            N as nat,
        )) by {
            match uniform12_run(inp, q as int, 0, N as nat) {
                Some(s) => {
                    assert(Seq::<i32>::empty() + s =~= s);
                },
                None => {},
            }
        }
    }
    while count < N
        invariant
            stream.wf(),
            stream.kind == XofKind::Shake128,
            stream.input@ == inp,
            inp == seed_ij(seed@, i, j),
            count <= N,
            out.coeffs@.len() == N,
            opt_prepend(out.coeffs@.take(count as int), uniform12_run(inp, q as int, stream.pos as nat, (N - count) as nat))
                == uniform12_run(inp, q as int, 0, N as nat),
        decreases XOF_BUDGET - stream.pos,
    {
        let ghost pos0 = stream.pos as nat;
        let ghost prefix0 = out.coeffs@.take(count as int);
        let buf = match stream.read(3) {
            Some(b) => b,
            None => {
                proof {
                    assert(uniform12_run(inp, q as int, pos0, (N - count) as nat) is None);
                }
                return Err(PqcError::XofBudgetExhausted);
            },
        };
        let d1: i32 = (buf[0] as i32) + ((buf[1] as i32) % 16) * 256;
        let d2: i32 = (buf[1] as i32) / 16 + (buf[2] as i32) * 16;
        let ghost need0 = (N - count) as nat;
        let ghost first: Seq<i32> = if d1 < q { seq![d1] } else { Seq::empty() };
        let ghost left = (need0 - first.len()) as nat;
        let ghost second: Seq<i32> = if left > 0 && d2 < q { seq![d2] } else { Seq::empty() };
        proof {
            assert(candidates12(inp, pos0 as int) == (d1 as int, d2 as int));
        }
        if d1 < q {
            out.coeffs[count] = d1;
            count = count + 1;
        }
        if count < N && d2 < q {
            out.coeffs[count] = d2;
            count = count + 1;
        }
        proof {
            assert(out.coeffs@.take(count as int) =~= prefix0 + (first + second));
            let rest = uniform12_run(inp, q as int, stream.pos as nat, (N - count) as nat);
            match rest {
                Some(s) => {
                    assert(prefix0 + ((first + second) + s) =~= (prefix0 + (first + second)) + s);
                },
                None => {},
            }
        }
    }
    proof {
        assert(out.coeffs@.take(N as int) =~= out.coeffs@);
        assert(uniform12_run(inp, q as int, stream.pos as nat, 0) == Some(Seq::<i32>::empty()));
        assert(out.coeffs@ + Seq::<i32>::empty() =~= out.coeffs@);
    }
    Ok(out)
}

/// PRF: `out_len` bytes of SHAKE256(seed || nonce).
pub fn prf(seed: &[u8; 32], nonce: u8, out_len: usize) -> (out: Vec<u8>)
    ensures
        out@ == shake256_output(seed@.push(nonce), out_len as nat),
        out.len() == out_len,
{
    let mut input: Vec<u8> = Vec::new();
    append_bytes(&mut input, seed);
    input.push(nonce);
    proof {
        assert(input@ =~= seed@.push(nonce));
    }
    shake256(input.as_slice(), out_len)
}

/// Number of set stream bits among bits `[start, start + n)` of `bytes`.
pub open spec fn count_bits(bytes: Seq<u8>, start: int, n: nat) -> int
    decreases n,
{
    if n == 0 {
        0
    } else {
        count_bits(bytes, start, (n - 1) as nat) + if stream_bit(bytes, start + n - 1) {
            1int
        } else {
            0
        }
    }
}

/// Coefficient `c` of the centered binomial sample: the first `eta` bits of its `2 * eta`-bit
/// block counted, minus the next `eta`.
pub open spec fn cbd_coeff(bytes: Seq<u8>, eta: int, c: int) -> int {
    count_bits(bytes, 2 * eta * c, eta as nat) - count_bits(bytes, 2 * eta * c + eta, eta as nat)
}

/// Sums `n` stream bits from bit `start`.
fn sum_bits(bytes: &[u8], start: usize, n: u32) -> (s: i64)
    requires
        start + n <= 8 * bytes.len(),
        8 * bytes.len() <= usize::MAX,
    ensures
        s == count_bits(bytes@, start as int, n as nat),
        0 <= s <= n,
{
    let mut s: i64 = 0;
    let mut t: u32 = 0;
    while t < n
        invariant
            start + n <= 8 * bytes.len(),
            8 * bytes.len() <= usize::MAX,
            t <= n,
            s == count_bits(bytes@, start as int, t as nat),
            0 <= s <= t,
        decreases n - t,
    {
        let idx = start + t as usize;
        let bit = (bytes[idx / 8] >> ((idx % 8) as u8)) & 1u8;
        proof {
            let byte = bytes@[(idx / 8) as int];
            let sh = (idx % 8) as u8;
            assert((byte >> sh) & 1u8 <= 1u8) by (bit_vector);
        }
        s = s + bit as i64;
        t = t + 1;
    }
    s
}

/// Centered binomial distribution with parameter `eta`, for any `eta`: coefficient `c` is
/// `cbd_coeff(bytes, eta, c) mod q`. Reads `2 * eta * N` bits.
pub fn cbd(bytes: &[u8], eta: u32, q: i32) -> (out: Poly)
    requires
        q > 0,
        2 * eta * N <= 8 * bytes.len(),
        8 * bytes.len() <= usize::MAX,
    ensures
        forall|c: int| 0 <= c < N ==> #[trigger] out.coeffs@[c] == cbd_coeff(bytes@, eta as int, c) % (q as int),
{
    let mut out = Poly::zero();
    let mut c: usize = 0;
    while c < N
        invariant
            q > 0,
            2 * eta * N <= 8 * bytes.len(),
            8 * bytes.len() <= usize::MAX,
            c <= N,
            out.coeffs@.len() == N,
            forall|x: int| 0 <= x < c ==> #[trigger] out.coeffs@[x] == cbd_coeff(bytes@, eta as int, x) % (q as int),
        decreases N - c,
    {
        proof {
            assert(2 * eta * c + 2 * eta <= 2 * eta * N) by (nonlinear_arith)
                requires
                    c < N,
            ;
        }
        let base = 2 * (eta as usize) * c;
        let a = sum_bits(bytes, base, eta);
        let b = sum_bits(bytes, base + eta as usize, eta);
        out.coeffs[c] = crate::arith::rem_euclid_i64(a - b, q as i64) as i32;
        c = c + 1;
    }
    out
}

/// Bytes of PRF output `cbd` reads at a given `eta`: `2 * eta` bits per coefficient, `N`
/// coefficients.
pub fn cbd_bytes_needed(eta: u32) -> (r: usize)
    requires
        2 * eta * N <= usize::MAX,
    ensures
        r == (2 * eta * N) / 8,
{
    (2 * eta as usize * N) / 8
}

} // verus!
