//! Polynomial ring arithmetic over Z_q[x]/(x^N + 1), N fixed at 256.
//! Schoolbook (O(N^2)) multiplication; the NTT modules provide the fast path.
use vstd::prelude::*;

verus! {

pub const N: usize = 256;

/// Largest coefficient magnitude (exclusive) accepted by the schoolbook product, chosen so that
/// every partial sum of `N` products fits comfortably in an `i64`.
pub const MUL_BOUND: i64 = 0x400_0000;

#[derive(Clone, Copy, Debug, PartialEq, Eq)]
pub struct Poly {
    pub coeffs: [i32; 256],
}

/// Every coefficient lies in `(-MUL_BOUND, MUL_BOUND)`.
pub open spec fn small_coeffs(p: Poly) -> bool {
    forall|i: int| 0 <= i < N ==> -MUL_BOUND < #[trigger] p.coeffs@[i] < MUL_BOUND
}

/// Every coefficient lies in `[0, q)`.
pub open spec fn reduced_coeffs(p: Poly, q: int) -> bool {
    forall|i: int| 0 <= i < N ==> 0 <= #[trigger] p.coeffs@[i] < q
}

/// Sum over `i < upto` of `a[i] * b[m - i]`, taking only terms with `0 <= m - i < N`: the
/// coefficient of `x^m` in the plain (non-reduced) product restricted to the first `upto`
/// coefficients of `a`.
pub open spec fn conv_partial(a: Seq<i32>, b: Seq<i32>, upto: int, m: int) -> int
    decreases upto,
{
    if upto <= 0 {
        0
    } else {
        conv_partial(a, b, upto - 1, m) + if 0 <= m - (upto - 1) < N {
            a[upto - 1] * b[m - (upto - 1)]
        } else {
            0
        }
    }
}

/// Coefficient `k` of `a * b` in Z[x]/(x^N + 1) (before reduction mod q): the `x^k` term of the
/// full product minus the wrapped `x^(k+N)` term, since `x^N == -1`.
pub open spec fn negacyclic_coeff(a: Seq<i32>, b: Seq<i32>, k: int) -> int {
    conv_partial(a, b, N as int, k) - conv_partial(a, b, N as int, k + N)
}

/// Coefficient `k` of the product of `a` and `b` in Z_q[x]/(x^N + 1), in `[0, q)`.
pub open spec fn ring_mul_coeff(a: Seq<i32>, b: Seq<i32>, q: int, k: int) -> int {
    negacyclic_coeff(a, b, k) % q
}

/// Sum over `t < n` of the unreduced negacyclic coefficient `k` of `a[t] * b[t]`.
pub open spec fn dot_sum(a: Seq<Poly>, b: Seq<Poly>, n: int, k: int) -> int
    decreases n,
{
    if n <= 0 {
        0
    } else {
        dot_sum(a, b, n - 1, k) + negacyclic_coeff(a[n - 1].coeffs@, b[n - 1].coeffs@, k)
    }
}

/// Every product of a coefficient of `a` with one of `b` lies within `2^52`, so partial sums
/// of `N` of them fit in an `i64`.
pub open spec fn mul_fits(a: Seq<i32>, b: Seq<i32>) -> bool {
    forall|i: int, j: int|
        #![trigger a[i], b[j]]
        0 <= i < N && 0 <= j < N ==> -0x10_0000_0000_0000 <= a[i] * b[j] <= 0x10_0000_0000_0000
}

/// Two polynomials with coefficients inside `(-MUL_BOUND, MUL_BOUND)` multiply within bounds.
pub proof fn lemma_small_mul_fits(a: Poly, b: Poly)
    requires
        small_coeffs(a),
        small_coeffs(b),
    ensures
        mul_fits(a.coeffs@, b.coeffs@),
{
    assert forall|i: int, j: int| 0 <= i < N && 0 <= j < N implies -0x10_0000_0000_0000 <= #[trigger] a.coeffs@[i]
        * #[trigger] b.coeffs@[j] <= 0x10_0000_0000_0000 by {
        let x = a.coeffs@[i] as int;
        let y = b.coeffs@[j] as int;
        assert(-0x400_0000 < x < 0x400_0000);
        assert(-0x400_0000 < y < 0x400_0000);
        assert(-0x10_0000_0000_0000 <= x * y <= 0x10_0000_0000_0000) by (nonlinear_arith)
            requires
                -0x400_0000 < x < 0x400_0000,
                -0x400_0000 < y < 0x400_0000,
        ;
    }
}

/// Any polynomial times one with coefficients in `[0, q)`, `q <= 2^20`, multiplies within
/// bounds, in either order.
pub proof fn lemma_reduced_mul_fits(a: Poly, b: Poly, q: int)
    requires
        0 < q <= 0x10_0000,
        reduced_coeffs(b, q),
    ensures
        mul_fits(a.coeffs@, b.coeffs@),
        mul_fits(b.coeffs@, a.coeffs@),
{
    assert forall|i: int, j: int| 0 <= i < N && 0 <= j < N implies -0x10_0000_0000_0000 <= #[trigger] a.coeffs@[i]
        * #[trigger] b.coeffs@[j] <= 0x10_0000_0000_0000 && -0x10_0000_0000_0000 <= b.coeffs@[j] * a.coeffs@[i]
        <= 0x10_0000_0000_0000 by {
        let x = a.coeffs@[i] as int;
        let y = b.coeffs@[j] as int;
        assert(0 <= y < 0x10_0000);
        assert(-0x10_0000_0000_0000 <= x * y <= 0x10_0000_0000_0000 && y * x == x * y) by (nonlinear_arith)
            requires
                -0x8000_0000 <= x < 0x8000_0000,
                0 <= y < 0x10_0000,
        ;
    }
}

proof fn lemma_conv_partial_bound(a: Seq<i32>, b: Seq<i32>, upto: int, m: int)
    requires
        0 <= upto <= N,
        a.len() == N,
        b.len() == N,
        mul_fits(a, b),
    ensures
        -upto * 0x10_0000_0000_0000 <= conv_partial(a, b, upto, m) <= upto
            * 0x10_0000_0000_0000,
    decreases upto,
{
    if upto > 0 {
        lemma_conv_partial_bound(a, b, upto - 1, m);
        if 0 <= m - (upto - 1) < N {
            assert(-0x10_0000_0000_0000 <= a[upto - 1] * b[m - (upto - 1)] <= 0x10_0000_0000_0000);
        }
    }
}

impl Poly {
    pub fn zero() -> (p: Poly)
        ensures
            forall|i: int| 0 <= i < N ==> #[trigger] p.coeffs@[i] == 0,
    {
        Poly { coeffs: [0i32; 256] }
    }

    /// Coefficient-wise sum, reduced into `[0, q)`.
    pub fn add(&self, other: &Poly, q: i32) -> (out: Poly)
        requires
            q > 0,
            forall|i: int|
                0 <= i < N ==> i32::MIN <= #[trigger] self.coeffs@[i] + other.coeffs@[i]
                    <= i32::MAX,
        ensures
            forall|i: int|
                0 <= i < N ==> #[trigger] out.coeffs@[i] == (self.coeffs@[i] + other.coeffs@[i])
                    % (q as int),
            reduced_coeffs(out, q as int),
    {
        let mut out = Poly::zero();
        let mut i: usize = 0;
        while i < N
            invariant
                q > 0,
                forall|j: int|
                    0 <= j < N ==> i32::MIN <= #[trigger] self.coeffs@[j] + other.coeffs@[j]
                        <= i32::MAX,
                i <= N,
                forall|j: int|
                    0 <= j < i ==> #[trigger] out.coeffs@[j] == (self.coeffs@[j]
                        + other.coeffs@[j]) % (q as int),
            decreases N - i,
        {
            assert(i32::MIN <= self.coeffs@[i as int] + other.coeffs@[i as int] <= i32::MAX);
            out.coeffs[i] = crate::arith::rem_euclid_i32(self.coeffs[i] + other.coeffs[i], q);
            i = i + 1;
        }
        out
    }

    /// Coefficient-wise difference, reduced into `[0, q)`.
    pub fn sub(&self, other: &Poly, q: i32) -> (out: Poly)
        requires
            q > 0,
            forall|i: int|
                0 <= i < N ==> i32::MIN <= #[trigger] self.coeffs@[i] - other.coeffs@[i]
                    <= i32::MAX,
        ensures
            forall|i: int|
                0 <= i < N ==> #[trigger] out.coeffs@[i] == (self.coeffs@[i] - other.coeffs@[i])
                    % (q as int),
            reduced_coeffs(out, q as int),
    {
        let mut out = Poly::zero();
        let mut i: usize = 0;
        while i < N
            invariant
                q > 0,
                forall|j: int|
                    0 <= j < N ==> i32::MIN <= #[trigger] self.coeffs@[j] - other.coeffs@[j]
                        <= i32::MAX,
                i <= N,
                forall|j: int|
                    0 <= j < i ==> #[trigger] out.coeffs@[j] == (self.coeffs@[j]
                        - other.coeffs@[j]) % (q as int),
            decreases N - i,
        {
            assert(i32::MIN <= self.coeffs@[i as int] - other.coeffs@[i as int] <= i32::MAX);
            out.coeffs[i] = crate::arith::rem_euclid_i32(self.coeffs[i] - other.coeffs[i], q);
            i = i + 1;
        }
        out
    }

    /// Multiplication mod (x^N + 1), reduced mod q.
    pub fn mul(&self, other: &Poly, q: i32) -> (out: Poly)
        requires
            q > 0,
            mul_fits(self.coeffs@, other.coeffs@),
        ensures
            forall|k: int|
                0 <= k < N ==> #[trigger] out.coeffs@[k] == ring_mul_coeff(
                    self.coeffs@,
                    other.coeffs@,
                    q as int,
                    k,
                ),
            reduced_coeffs(out, q as int),
    {
        let ghost a = self.coeffs@;
        let ghost b = other.coeffs@;
        let mut wide = [0i64; 512];
        let mut i: usize = 0;
        while i < N
            invariant
                a == self.coeffs@,
                b == other.coeffs@,
                mul_fits(a, b),
                i <= N,
                forall|m: int| 0 <= m < 2 * N ==> #[trigger] wide@[m] == conv_partial(a, b, i as int, m),
            decreases N - i,
        {
            if self.coeffs[i] != 0 {
                let x = self.coeffs[i] as i64;
                let mut j: usize = 0;
                while j < N
                    invariant
                        a == self.coeffs@,
                        b == other.coeffs@,
                        mul_fits(a, b),
                        i < N,
                        x == a[i as int],
                        j <= N,
                        forall|m: int|
                            0 <= m < 2 * N ==> #[trigger] wide@[m] == if i <= m < i + j {
                                conv_partial(a, b, i + 1, m)
                            } else {
                                conv_partial(a, b, i as int, m)
                            },
                    decreases N - j,
                {
                    let y = other.coeffs[j] as i64;
                    proof {
                        assert(-0x10_0000_0000_0000 <= a[i as int] * b[j as int] <= 0x10_0000_0000_0000);
                        lemma_conv_partial_bound(a, b, i as int, (i + j) as int);
                        assert(wide@[(i + j) as int] == conv_partial(a, b, i as int, (i + j) as int));
                    }
                    wide[i + j] = wide[i + j] + x * y;
                    j = j + 1;
                }
            }
            proof {
                assert forall|m: int| 0 <= m < 2 * N implies #[trigger] wide@[m] == conv_partial(
                    a,
                    b,
                    i + 1,
                    m,
                ) by {
                    if a[i as int] == 0 {
                        assert(a[i as int] * b[m - i] == 0);
                    }
                }
            }
            i = i + 1;
        }
        let mut out = Poly::zero();
        let mut k: usize = 0;
        while k < N
            invariant
                q > 0,
                a == self.coeffs@,
                b == other.coeffs@,
                mul_fits(a, b),
                k <= N,
                forall|m: int| 0 <= m < 2 * N ==> #[trigger] wide@[m] == conv_partial(a, b, N as int, m),
                forall|j: int|
                    0 <= j < k ==> #[trigger] out.coeffs@[j] == ring_mul_coeff(a, b, q as int, j),
            decreases N - k,
        {
            proof {
                lemma_conv_partial_bound(a, b, N as int, k as int);
                lemma_conv_partial_bound(a, b, N as int, (k + N) as int);
                assert(wide@[k as int] == conv_partial(a, b, N as int, k as int));
                assert(wide@[(k + N) as int] == conv_partial(a, b, N as int, (k + N) as int));
            }
            let reduced = wide[k] - wide[k + N];
            out.coeffs[k] = crate::arith::rem_euclid_i64(reduced, q as i64) as i32;
            k = k + 1;
        }
        out
    }
}

/// Dot product of two vectors of polynomials (over their common length), mod q.
pub fn dot(a: &[Poly], b: &[Poly], q: i32) -> (out: Poly)
    requires
        0 < q <= 0x4000_0000,
        forall|t: int| 0 <= t < a.len() && t < b.len() ==> mul_fits(#[trigger] a@[t].coeffs@, b@[t].coeffs@),
    ensures
        forall|k: int|
            0 <= k < N ==> #[trigger] out.coeffs@[k] == dot_sum(
                a@,
                b@,
                if a.len() <= b.len() {
                    a.len() as int
                } else {
                    b.len() as int
                },
                k,
            ) % (q as int),
        reduced_coeffs(out, q as int),
{
    let n = if a.len() <= b.len() {
        a.len()
    } else {
        b.len()
    };
    let mut acc = Poly::zero();
    let mut t: usize = 0;
    proof {
        assert forall|k: int| 0 <= k < N implies #[trigger] acc.coeffs@[k] == dot_sum(
            a@,
            b@,
            0,
            k,
        ) % (q as int) by {
            assert(acc.coeffs@[k] == 0);
            assert(dot_sum(a@, b@, 0, k) == 0);
            assert(0int % (q as int) == 0);
        }
    }
    while t < n
        invariant
            0 < q <= 0x4000_0000,
            n <= a.len(),
            n <= b.len(),
            forall|s: int| 0 <= s < a.len() && s < b.len() ==> mul_fits(#[trigger] a@[s].coeffs@, b@[s].coeffs@),
            t <= n,
            forall|k: int|
                0 <= k < N ==> #[trigger] acc.coeffs@[k] == dot_sum(a@, b@, t as int, k) % (
                q as int),
        decreases n - t,
    {
        assert(mul_fits(a@[t as int].coeffs@, b@[t as int].coeffs@));
        let prod = a[t].mul(&b[t], q);
        proof {
            assert forall|k: int| 0 <= k < N implies i32::MIN <= #[trigger] acc.coeffs@[k]
                + prod.coeffs@[k] <= i32::MAX by {
                assert(0 <= acc.coeffs@[k] < q);
                assert(0 <= prod.coeffs@[k] < q);
            }
        }
        let next = acc.add(&prod, q);
        proof {
            assert forall|k: int| 0 <= k < N implies #[trigger] next.coeffs@[k] == dot_sum(
                a@,
                b@,
                t + 1,
                k,
            ) % (q as int) by {
                let s = dot_sum(a@, b@, t as int, k);
                let c = negacyclic_coeff(a@[t as int].coeffs@, b@[t as int].coeffs@, k);
                assert(acc.coeffs@[k] == s % (q as int));
                assert(prod.coeffs@[k] == c % (q as int));
                vstd::arithmetic::div_mod::lemma_add_mod_noop(s, c, q as int);
                assert(dot_sum(a@, b@, t + 1, k) == s + c);
            }
        }
        acc = next;
        t = t + 1;
    }
    acc
}

} // verus!
