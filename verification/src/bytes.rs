//! Byte-string helpers used by the key and signature codecs: copying ranges, concatenation,
//! comparison, and flattening polynomial vectors into one coefficient stream.
use crate::poly::{Poly, N};
use vstd::prelude::*;

verus! {

/// Copies `src[start..end]` into a fresh vector.
pub fn copy_range(src: &[u8], start: usize, end: usize) -> (out: Vec<u8>)
    requires
        start <= end <= src.len(),
    ensures
        out@ == src@.subrange(start as int, end as int),
{
    let mut out: Vec<u8> = Vec::with_capacity(end - start);
    let mut i = start;
    while i < end
        invariant
            start <= i <= end <= src.len(),
            out@ == src@.subrange(start as int, i as int),
        decreases end - i,
    {
        out.push(src[i]);
        i = i + 1;
        assert(out@ =~= src@.subrange(start as int, i as int));
    }
    out
}

/// Appends all of `src` to `dst`.
pub fn append_bytes(dst: &mut Vec<u8>, src: &[u8])
    ensures
        final(dst)@ == old(dst)@ + src@,
{
    let ghost start = dst@;
    let mut i: usize = 0;
    while i < src.len()
        invariant
            i <= src.len(),
            dst@ == start + src@.subrange(0, i as int),
        decreases src.len() - i,
    {
        dst.push(src[i]);
        i = i + 1;
        assert(dst@ =~= start + src@.subrange(0, i as int));
    }
    assert(src@.subrange(0, src.len() as int) =~= src@);
}

/// Byte-wise equality.
pub fn bytes_eq(a: &[u8], b: &[u8]) -> (r: bool)
    ensures
        r == (a@ == b@),
{
    if a.len() != b.len() {
        return false;
    }
    let mut i: usize = 0;
    while i < a.len()
        invariant
            a.len() == b.len(),
            i <= a.len(),
            forall|j: int| 0 <= j < i ==> a@[j] == b@[j],
        decreases a.len() - i,
    {
        if a[i] != b[i] {
            return false;
        }
        i = i + 1;
    }
    assert(a@ =~= b@);
    true
}

/// The first 32 bytes of `src` as an array.
pub fn take32(src: &[u8], start: usize) -> (out: [u8; 32])
    requires
        start + 32 <= src.len(),
    ensures
        out@ == src@.subrange(start as int, start + 32),
{
    let mut out = [0u8; 32];
    let mut i: usize = 0;
    while i < 32
        invariant
            start + 32 <= src.len(),
            i <= 32,
            forall|j: int| 0 <= j < i ==> #[trigger] out@[j] == src@[start + j],
        decreases 32 - i,
    {
        out[i] = src[start + i];
        i = i + 1;
    }
    assert(out@ =~= src@.subrange(start as int, start + 32));
    out
}

/// The 64 bytes of `src` starting at `start` as an array.
pub fn take64(src: &[u8], start: usize) -> (out: [u8; 64])
    requires
        start + 64 <= src.len(),
    ensures
        out@ == src@.subrange(start as int, start + 64),
{
    let mut out = [0u8; 64];
    let mut i: usize = 0;
    while i < 64
        invariant
            start + 64 <= src.len(),
            i <= 64,
            forall|j: int| 0 <= j < i ==> #[trigger] out@[j] == src@[start + j],
        decreases 64 - i,
    {
        out[i] = src[start + i];
        i = i + 1;
    }
    assert(out@ =~= src@.subrange(start as int, start + 64));
    out
}

/// Position `j` of a stream of polynomials laid end to end: polynomial `j / N`, coefficient `j % N`.
pub proof fn lemma_flat_index(t: int, i: int)
    requires
        0 <= i < N,
        0 <= t,
    ensures
        (t * N + i) / (N as int) == t,
        (t * N + i) % (N as int) == i,
{
    vstd::arithmetic::div_mod::lemma_fundamental_div_mod_converse(t * N + i, N as int, t, i);
}

/// All coefficients of `v`, polynomial after polynomial.
pub open spec fn flat_coeffs(v: Seq<Poly>) -> Seq<i32> {
    Seq::new(v.len() * (N as nat), |j: int| v[j / N as int].coeffs@[j % N as int])
}

/// All coefficients of `v` mapped through `c -> b - c`, polynomial after polynomial.
pub open spec fn shifted_flat(v: Seq<Poly>, b: int) -> Seq<i32> {
    Seq::new(v.len() * (N as nat), |j: int| (b - v[j / N as int].coeffs@[j % N as int]) as i32)
}

/// Lays the coefficients of `v` end to end, each mapped through `c -> b - c` when `shift`
/// is `Some(b)`.
pub fn flatten_polys(v: &[Poly], shift: Option<i32>) -> (out: Vec<i32>)
    requires
        v.len() * N <= usize::MAX,
        shift matches Some(b) ==> forall|t: int, i: int|
            0 <= t < v.len() && 0 <= i < N ==> i32::MIN <= b - #[trigger] v@[t].coeffs@[i]
                <= i32::MAX,
    ensures
        shift is None ==> out@ == flat_coeffs(v@),
        shift matches Some(b) ==> out@ == shifted_flat(v@, b as int),
{
    let mut out: Vec<i32> = Vec::with_capacity(v.len() * N);
    let mut t: usize = 0;
    while t < v.len()
        invariant
            v.len() * N <= usize::MAX,
            shift matches Some(b) ==> forall|s: int, i: int|
                0 <= s < v.len() && 0 <= i < N ==> i32::MIN <= b - #[trigger] v@[s].coeffs@[i]
                    <= i32::MAX,
            t <= v.len(),
            out.len() == t * N,
            shift is None ==> forall|j: int|
                0 <= j < t * N ==> #[trigger] out@[j] == v@[j / N as int].coeffs@[j % N as int],
            shift matches Some(b) ==> forall|j: int|
                0 <= j < t * N ==> #[trigger] out@[j] == (b - v@[j / N as int].coeffs@[j
                    % N as int]) as i32,
        decreases v.len() - t,
    {
        let mut i: usize = 0;
        while i < N
            invariant
                v.len() * N <= usize::MAX,
                shift matches Some(b) ==> forall|s: int, k: int|
                    0 <= s < v.len() && 0 <= k < N ==> i32::MIN <= b
                        - #[trigger] v@[s].coeffs@[k] <= i32::MAX,
                t < v.len(),
                i <= N,
                out.len() == t * N + i,
                shift is None ==> forall|j: int|
                    0 <= j < t * N + i ==> #[trigger] out@[j] == v@[j / N as int].coeffs@[j
                        % N as int],
                shift matches Some(b) ==> forall|j: int|
                    0 <= j < t * N + i ==> #[trigger] out@[j] == (b - v@[j / N as int].coeffs@[j
                        % N as int]) as i32,
            decreases N - i,
        {
            proof {
                lemma_flat_index(t as int, i as int);
                assert((t + 1) * N <= v.len() * N) by (nonlinear_arith)
                    requires
                        t < v.len(),
                ;
            }
            let c = v[t].coeffs[i];
            let x = match shift {
                Some(b) => {
                    assert(i32::MIN <= b - v@[t as int].coeffs@[i as int] <= i32::MAX);
                    b - c
                },
                None => c,
            };
            out.push(x);
            i = i + 1;
        }
        t = t + 1;
    }
    proof {
        if shift is None {
            assert(out@ =~= flat_coeffs(v@));
        } else {
            assert(out@ =~= shifted_flat(v@, shift->Some_0 as int));
        }
    }
    out
}

/// Whether two strings hold the same characters.
pub fn str_eq(a: &str, b: &str) -> (r: bool)
    ensures
        r == (a@ == b@),
{
    let x = a.to_owned();
    let y = b.to_owned();
    x == y
}

} // verus!
