//! The schoolbook product of Z[x]/(x^N + 1) is commutative, associative and bilinear: writing
//! `a * b = sum_i a_i (x^i b)`, multiplying by `x` is a signed rotation that commutes with the
//! product.
use crate::poly::{conv_partial, negacyclic_coeff, N};
use crate::ring_laws::{
    eqm, lemma_cong_add, lemma_cong_mul, lemma_eqm_sym, lemma_eqm_trans, lemma_lin_cong, lemma_ssum_len, lin, reduced, ssum, vzero,
};
use vstd::prelude::*;

verus! {

/// `f(0) + ... + f(m - 1)`.
pub open spec fn isum(f: spec_fn(int) -> int, m: int) -> int
    decreases m,
{
    if m <= 0 {
        0
    } else {
        isum(f, m - 1) + f(m - 1)
    }
}

pub proof fn lemma_isum_ext(f: spec_fn(int) -> int, g: spec_fn(int) -> int, m: int)
    requires
        forall|i: int| 0 <= i < m ==> #[trigger] f(i) == g(i),
    ensures
        isum(f, m) == isum(g, m),
    decreases m,
{
    if m > 0 {
        lemma_isum_ext(f, g, m - 1);
    }
}

/// Sums are linear.
pub proof fn lemma_isum_lin(f: spec_fn(int) -> int, g: spec_fn(int) -> int, c1: int, c2: int, m: int)
    ensures
        isum(|i: int| c1 * f(i) + c2 * g(i), m) == c1 * isum(f, m) + c2 * isum(g, m),
    decreases m,
{
    if m > 0 {
        lemma_isum_lin(f, g, c1, c2, m - 1);
        vstd::arithmetic::mul::lemma_mul_is_distributive_add(c1, isum(f, m - 1), f(m - 1));
        vstd::arithmetic::mul::lemma_mul_is_distributive_add(c2, isum(g, m - 1), g(m - 1));
    }
}

/// The first term split off.
pub proof fn lemma_isum_shift(g: spec_fn(int) -> int, m: int)
    requires
        m >= 0,
    ensures
        isum(g, m + 1) == g(0) + isum(|k: int| g(k + 1), m),
    decreases m,
{
    if m > 0 {
        lemma_isum_shift(g, m - 1);
        assert(isum(|k: int| g(k + 1), m) == isum(|k: int| g(k + 1), m - 1) + g(m));
    } else {
        assert(isum(g, 0) == 0);
        assert(isum(g, 1) == isum(g, 0) + g(0));
        assert(isum(|k: int| g(k + 1), 0) == 0);
    }
}

/// A sum split into two ranges.
pub proof fn lemma_isum_split(f: spec_fn(int) -> int, m1: int, m2: int)
    requires
        m1 >= 0,
        m2 >= 0,
    ensures
        isum(f, m1 + m2) == isum(f, m1) + isum(|i: int| f(m1 + i), m2),
    decreases m2,
{
    if m2 > 0 {
        lemma_isum_split(f, m1, m2 - 1);
    }
}

/// A sum taken backwards.
pub proof fn lemma_isum_rev(f: spec_fn(int) -> int, m: int)
    requires
        m >= 0,
    ensures
        isum(f, m) == isum(|i: int| f(m - 1 - i), m),
    decreases m,
{
    if m > 0 {
        // isum(f, m) = isum(f, m - 1) + f(m - 1); the reversed sum starts with f(m - 1)
        lemma_isum_rev(f, m - 1);
        let h = |i: int| f(m - 1 - i);
        lemma_isum_shift(h, m - 1);
        lemma_isum_ext(|k: int| h(k + 1), |i: int| f(m - 1 - 1 - i), m - 1);
    }
}

/// Double sums can be taken in either order.
pub proof fn lemma_isum_swap(t: spec_fn(int, int) -> int, m1: int, m2: int)
    requires
        m1 >= 0,
        m2 >= 0,
    ensures
        isum(|i: int| isum(|j: int| t(i, j), m2), m1) == isum(|j: int| isum(|i: int| t(i, j), m1), m2),
    decreases m1,
{
    if m1 > 0 {
        lemma_isum_swap(t, m1 - 1, m2);
        let cols0 = |j: int| isum(|i: int| t(i, j), m1 - 1);
        let last = |j: int| t(m1 - 1, j);
        lemma_isum_lin(cols0, last, 1, 1, m2);
        lemma_isum_ext(
            |j: int| isum(|i: int| t(i, j), m1),
            |j: int| 1 * cols0(j) + 1 * last(j),
            m2,
        );
        lemma_isum_ext(|j: int| t(m1 - 1, j), last, m2);
    } else {
        lemma_isum_zero(|j: int| isum(|i: int| t(i, j), m1), m2);
    }
}

proof fn lemma_isum_zero(f: spec_fn(int) -> int, m: int)
    requires
        forall|i: int| 0 <= i < m ==> #[trigger] f(i) == 0,
    ensures
        isum(f, m) == 0,
    decreases m,
{
    if m > 0 {
        lemma_isum_zero(f, m - 1);
    }
}

/// A sum times a constant.
pub proof fn lemma_isum_scale(f: spec_fn(int) -> int, g: int, m: int)
    ensures
        isum(|i: int| f(i) * g, m) == isum(f, m) * g,
        isum(|i: int| g * f(i), m) == g * isum(f, m),
    decreases m,
{
    if m > 0 {
        lemma_isum_scale(f, g, m - 1);
        vstd::arithmetic::mul::lemma_mul_is_distributive_add_other_way(g, isum(f, m - 1), f(m - 1));
        vstd::arithmetic::mul::lemma_mul_is_distributive_add(g, isum(f, m - 1), f(m - 1));
    }
}

/// `x^i b` in Z[x]/(x^N + 1), for `0 <= i < N`: `b` rotated up by `i` with the wrapped
/// coefficients negated.
pub open spec fn rot(b: Seq<int>, i: int) -> Seq<int> {
    Seq::new(N as nat, |c: int| if c >= i { b[c - i] } else { -b[c - i + N] })
}

/// `x v`: rotation up by one, negating the wrapped coefficient.
pub open spec fn sh(v: Seq<int>) -> Seq<int> {
    Seq::new(N as nat, |c: int| if c >= 1 { v[c - 1] } else { -v[N - 1] })
}

/// The product in Z[x]/(x^N + 1): `sum_i a_i x^i b`.
pub open spec fn nci(a: Seq<int>, b: Seq<int>) -> Seq<int> {
    Seq::new(N as nat, |c: int| isum(|i: int| a[i] * rot(b, i)[c], N as int))
}

proof fn lemma_rot_zero(b: Seq<int>)
    requires
        b.len() == N,
    ensures
        rot(b, 0) == b,
{
    assert(rot(b, 0) =~= b);
}

proof fn lemma_rot_step(b: Seq<int>, i: int)
    requires
        b.len() == N,
        0 <= i,
        i + 1 < N,
    ensures
        rot(b, i + 1) == sh(rot(b, i)),
{
    assert(rot(b, i + 1) =~= sh(rot(b, i)));
}

proof fn lemma_rot_wrap(b: Seq<int>)
    requires
        b.len() == N,
    ensures
        sh(rot(b, N - 1)) == Seq::new(N as nat, |c: int| -b[c]),
{
    assert(sh(rot(b, N - 1)) =~= Seq::new(N as nat, |c: int| -b[c]));
}

/// Multiplying by `x` commutes with the product.
proof fn lemma_nci_sh(x: Seq<int>, cc: Seq<int>)
    requires
        x.len() == N,
        cc.len() == N,
    ensures
        nci(sh(x), cc) == sh(nci(x, cc)),
{
    let n = N as int;
    let l = nci(sh(x), cc);
    let r = sh(nci(x, cc));
    assert forall|y: int| 0 <= y < n implies #[trigger] l[y] == r[y] by {
        let f = |k: int| sh(x)[k] * rot(cc, k)[y];
        lemma_isum_shift(f, n - 1);
        // f(k + 1) = x[k] * sh(rot(cc, k))[y] for k < N - 1
        let g = |k: int| x[k] * sh(rot(cc, k))[y];
        assert forall|k: int| 0 <= k < n - 1 implies #[trigger] f(k + 1) == g(k) by {
            lemma_rot_step(cc, k);
        }
        lemma_isum_ext(|k: int| f(k + 1), g, n - 1);
        lemma_rot_wrap(cc);
        assert(f(0) == g(n - 1)) by {
            assert(sh(x)[0] == -x[n - 1]);
            assert(sh(rot(cc, n - 1))[y] == -cc[y]);
            assert(rot(cc, 0)[y] == cc[y]);
            assert(-x[n - 1] * cc[y] == x[n - 1] * -cc[y]) by (nonlinear_arith);
        }
        assert(isum(g, n) == isum(g, n - 1) + g(n - 1));
        assert(l[y] == isum(g, n));
        if y >= 1 {
            lemma_isum_ext(g, |k: int| x[k] * rot(cc, k)[y - 1], n);
        } else {
            let h = |k: int| x[k] * rot(cc, k)[n - 1];
            lemma_isum_scale(h, -1, n);
            assert forall|k: int| 0 <= k < n implies #[trigger] g(k) == h(k) * -1 by {
                assert(x[k] * -rot(cc, k)[n - 1] == x[k] * rot(cc, k)[n - 1] * -1) by (nonlinear_arith);
            }
            lemma_isum_ext(g, |k: int| h(k) * -1, n);
        }
    }
    assert(l =~= r);
}

/// Multiplying by `x^i` commutes with the product.
proof fn lemma_nci_rot(b: Seq<int>, cc: Seq<int>, i: int)
    requires
        b.len() == N,
        cc.len() == N,
        0 <= i < N,
    ensures
        nci(rot(b, i), cc) == rot(nci(b, cc), i),
    decreases i,
{
    if i == 0 {
        lemma_rot_zero(b);
        lemma_rot_zero(nci(b, cc));
    } else {
        lemma_nci_rot(b, cc, i - 1);
        lemma_rot_step(b, i - 1);
        lemma_nci_sh(rot(b, i - 1), cc);
        lemma_rot_step(nci(b, cc), i - 1);
    }
}

/// The product is associative.
pub proof fn lemma_nci_assoc(a: Seq<int>, b: Seq<int>, cc: Seq<int>)
    requires
        a.len() == N,
        b.len() == N,
        cc.len() == N,
    ensures
        nci(nci(a, b), cc) == nci(a, nci(b, cc)),
{
    let n = N as int;
    let l = nci(nci(a, b), cc);
    let r = nci(a, nci(b, cc));
    assert forall|y: int| 0 <= y < n implies #[trigger] l[y] == r[y] by {
        let t = |k: int, i: int| a[i] * rot(b, i)[k] * rot(cc, k)[y];
        // l[y] = sum_k (sum_i a_i rot(b, i)[k]) rot(cc, k)[y]
        assert forall|k: int| 0 <= k < n implies #[trigger] (nci(a, b)[k] * rot(cc, k)[y]) == isum(|i: int| t(k, i), n) by {
            lemma_isum_scale(|i: int| a[i] * rot(b, i)[k], rot(cc, k)[y], n);
            lemma_isum_ext(|i: int| (|i: int| a[i] * rot(b, i)[k])(i) * rot(cc, k)[y], |i: int| t(k, i), n);
        }
        lemma_isum_ext(|k: int| nci(a, b)[k] * rot(cc, k)[y], |k: int| isum(|i: int| t(k, i), n), n);
        lemma_isum_swap(t, n, n);
        // r[y] = sum_i a_i (sum_k rot(b, i)[k] rot(cc, k)[y])
        assert forall|i: int| 0 <= i < n implies #[trigger] (a[i] * rot(nci(b, cc), i)[y]) == isum(|k: int| t(k, i), n) by {
            lemma_nci_rot(b, cc, i);
            assert(rot(nci(b, cc), i)[y] == nci(rot(b, i), cc)[y]);
            lemma_isum_scale(|k: int| rot(b, i)[k] * rot(cc, k)[y], a[i], n);
            assert forall|k: int| 0 <= k < n implies #[trigger] (a[i] * (rot(b, i)[k] * rot(cc, k)[y])) == t(k, i) by {
                vstd::arithmetic::mul::lemma_mul_is_associative(a[i], rot(b, i)[k], rot(cc, k)[y]);
            }
            lemma_isum_ext(|k: int| a[i] * (|k: int| rot(b, i)[k] * rot(cc, k)[y])(k), |k: int| t(k, i), n);
        }
        lemma_isum_ext(|i: int| a[i] * rot(nci(b, cc), i)[y], |i: int| isum(|k: int| t(k, i), n), n);
    }
    assert(l =~= r);
}

/// The product is commutative.
pub proof fn lemma_nci_comm(a: Seq<int>, b: Seq<int>)
    requires
        a.len() == N,
        b.len() == N,
    ensures
        nci(a, b) == nci(b, a),
{
    let n = N as int;
    let l = nci(a, b);
    let r = nci(b, a);
    assert forall|y: int| 0 <= y < n implies #[trigger] l[y] == r[y] by {
        let f = |i: int| a[i] * rot(b, i)[y];
        let g = |j: int| b[j] * rot(a, j)[y];
        lemma_isum_split(f, y + 1, n - 1 - y);
        lemma_isum_split(g, y + 1, n - 1 - y);
        // low parts: sum_{i <= y} a_i b_{y - i}, reversed
        let f1 = |i: int| a[i] * b[y - i];
        let g1 = |j: int| b[j] * a[y - j];
        lemma_isum_ext(f, f1, y + 1);
        lemma_isum_ext(g, g1, y + 1);
        lemma_isum_rev(f1, y + 1);
        assert forall|j: int| 0 <= j < y + 1 implies #[trigger] f1(y + 1 - 1 - j) == g1(j) by {
            vstd::arithmetic::mul::lemma_mul_is_commutative(a[y - j], b[j]);
        }
        lemma_isum_ext(|i: int| f1(y + 1 - 1 - i), g1, y + 1);
        // high parts: sum over i = y + 1 + t of -a_i b_{N - 1 - t}, reversed
        let m = n - 1 - y;
        let f2 = |t: int| -(a[y + 1 + t] * b[n - 1 - t]);
        let g2 = |t: int| -(b[y + 1 + t] * a[n - 1 - t]);
        assert forall|t: int| 0 <= t < m implies #[trigger] f(y + 1 + t) == f2(t) by {
            assert(a[y + 1 + t] * -b[n - 1 - t] == -(a[y + 1 + t] * b[n - 1 - t])) by (nonlinear_arith);
        }
        assert forall|t: int| 0 <= t < m implies #[trigger] g(y + 1 + t) == g2(t) by {
            assert(b[y + 1 + t] * -a[n - 1 - t] == -(b[y + 1 + t] * a[n - 1 - t])) by (nonlinear_arith);
        }
        lemma_isum_ext(|t: int| f(y + 1 + t), f2, m);
        lemma_isum_ext(|t: int| g(y + 1 + t), g2, m);
        lemma_isum_rev(f2, m);
        assert forall|t: int| 0 <= t < m implies #[trigger] f2(m - 1 - t) == g2(t) by {
            vstd::arithmetic::mul::lemma_mul_is_commutative(a[n - 1 - t], b[y + 1 + t]);
        }
        lemma_isum_ext(|t: int| f2(m - 1 - t), g2, m);
    }
    assert(l =~= r);
}

/// The product is linear in its first factor.
pub proof fn lemma_nci_lin_left(a: Seq<int>, a2: Seq<int>, b: Seq<int>, c1: int, c2: int)
    requires
        a.len() == N,
        a2.len() == N,
        b.len() == N,
    ensures
        nci(lin(c1, a, c2, a2), b) == lin(c1, nci(a, b), c2, nci(a2, b)),
{
    let n = N as int;
    let l = nci(lin(c1, a, c2, a2), b);
    let r = lin(c1, nci(a, b), c2, nci(a2, b));
    assert forall|y: int| 0 <= y < n implies #[trigger] l[y] == r[y] by {
        let f = |i: int| a[i] * rot(b, i)[y];
        let g = |i: int| a2[i] * rot(b, i)[y];
        lemma_isum_lin(f, g, c1, c2, n);
        assert forall|i: int| 0 <= i < n implies #[trigger] (lin(c1, a, c2, a2)[i] * rot(b, i)[y]) == c1 * f(i) + c2 * g(i) by {
            vstd::arithmetic::mul::lemma_mul_is_distributive_add_other_way(rot(b, i)[y], c1 * a[i], c2 * a2[i]);
            vstd::arithmetic::mul::lemma_mul_is_associative(c1, a[i], rot(b, i)[y]);
            vstd::arithmetic::mul::lemma_mul_is_associative(c2, a2[i], rot(b, i)[y]);
        }
        lemma_isum_ext(|i: int| lin(c1, a, c2, a2)[i] * rot(b, i)[y], |i: int| c1 * f(i) + c2 * g(i), n);
    }
    assert(l =~= r);
}

/// The product is linear in its second factor.
pub proof fn lemma_nci_lin_right(a: Seq<int>, b: Seq<int>, b2: Seq<int>, c1: int, c2: int)
    requires
        a.len() == N,
        b.len() == N,
        b2.len() == N,
    ensures
        nci(a, lin(c1, b, c2, b2)) == lin(c1, nci(a, b), c2, nci(a, b2)),
{
    lemma_nci_comm(a, lin(c1, b, c2, b2));
    lemma_nci_lin_left(b, b2, a, c1, c2);
    lemma_nci_comm(b, a);
    lemma_nci_comm(b2, a);
}

/// The schoolbook coefficient is the product's coefficient.
pub proof fn lemma_negacyclic_is_nci(a: Seq<i32>, b: Seq<i32>, c: int)
    requires
        a.len() == N,
        b.len() == N,
        0 <= c < N,
    ensures
        negacyclic_coeff(a, b, c) == nci(Seq::new(N as nat, |i: int| a[i] as int), Seq::new(N as nat, |i: int| b[i] as int))[c],
{
    let ai = Seq::new(N as nat, |i: int| a[i] as int);
    let bi = Seq::new(N as nat, |i: int| b[i] as int);
    lemma_conv_split(a, b, ai, bi, c, N as int);
}

proof fn lemma_conv_split(a: Seq<i32>, b: Seq<i32>, ai: Seq<int>, bi: Seq<int>, c: int, u: int)
    requires
        a.len() == N,
        b.len() == N,
        ai == Seq::new(N as nat, |i: int| a[i] as int),
        bi == Seq::new(N as nat, |i: int| b[i] as int),
        0 <= c < N,
        0 <= u <= N,
    ensures
        conv_partial(a, b, u, c) - conv_partial(a, b, u, c + N) == isum(|i: int| ai[i] * rot(bi, i)[c], u),
    decreases u,
{
    if u > 0 {
        lemma_conv_split(a, b, ai, bi, c, u - 1);
        let i = u - 1;
        if i <= c {
            assert(rot(bi, i)[c] == bi[c - i]);
        } else {
            assert(rot(bi, i)[c] == -bi[c - i + N]);
            assert(a[i] * b[c + N - i] == -(ai[i] * rot(bi, i)[c])) by (nonlinear_arith)
                requires
                    ai[i] == a[i],
                    rot(bi, i)[c] == -(b[c + N - i] as int),
            ;
        }
    }
}

/// A sum of multiples of q is a multiple of q.
proof fn lemma_isum_mod_zero(f: spec_fn(int) -> int, m: int, q: int)
    requires
        q > 0,
        forall|i: int| 0 <= i < m ==> #[trigger] f(i) % q == 0,
    ensures
        isum(f, m) % q == 0,
    decreases m,
{
    if m > 0 {
        lemma_isum_mod_zero(f, m - 1, q);
        vstd::arithmetic::div_mod::lemma_add_mod_noop(isum(f, m - 1), f(m - 1), q);
        vstd::arithmetic::div_mod::lemma_small_mod(0, q as nat);
    } else {
        vstd::arithmetic::div_mod::lemma_small_mod(0, q as nat);
    }
}

/// Factors that agree mod q give products that agree mod q.
pub proof fn lemma_nci_cong(x: Seq<int>, x2: Seq<int>, y: Seq<int>, q: int)
    requires
        q > 0,
        x.len() == N,
        x2.len() == N,
        y.len() == N,
        eqm(x, x2, q),
    ensures
        eqm(nci(x, y), nci(x2, y), q),
        eqm(nci(y, x), nci(y, x2), q),
{
    let n = N as int;
    let d = lin(1, x, -1, x2);
    lemma_nci_lin_left(x, x2, y, 1, -1);
    let nd = nci(d, y);
    assert forall|c: int| 0 <= c < n implies #[trigger] nci(x, y)[c] % q == nci(x2, y)[c] % q by {
        let f = |i: int| d[i] * rot(y, i)[c];
        assert forall|i: int| 0 <= i < n implies #[trigger] f(i) % q == 0 by {
            assert(x[i] % q == x2[i] % q);
            vstd::arithmetic::div_mod::lemma_sub_mod_noop(x[i], x2[i], q);
            vstd::arithmetic::div_mod::lemma_small_mod(0, q as nat);
            assert(d[i] % q == 0);
            vstd::arithmetic::div_mod::lemma_mul_mod_noop_left(d[i], rot(y, i)[c], q);
            assert(0 * rot(y, i)[c] == 0);
        }
        lemma_isum_mod_zero(f, n, q);
        assert(nd[c] == 1 * nci(x, y)[c] + -1 * nci(x2, y)[c]);
        vstd::arithmetic::div_mod::lemma_fundamental_div_mod(nd[c], q);
        vstd::arithmetic::div_mod::lemma_mod_multiples_vanish(nd[c] / q, nci(x2, y)[c], q);
        assert(nci(x, y)[c] == q * (nd[c] / q) + nci(x2, y)[c]);
    }
    lemma_nci_comm(x, y);
    lemma_nci_comm(x2, y);
}

/// The product reduced mod q.
pub open spec fn nmul(a: Seq<int>, b: Seq<int>, q: int) -> Seq<int> {
    Seq::new(N as nat, |c: int| nci(a, b)[c] % q)
}

pub proof fn lemma_nmul_basics(a: Seq<int>, b: Seq<int>, q: int)
    requires
        q > 0,
    ensures
        nmul(a, b, q).len() == N,
        reduced(nmul(a, b, q), q),
        eqm(nmul(a, b, q), nci(a, b), q),
{
    assert forall|c: int| 0 <= c < N implies 0 <= #[trigger] nmul(a, b, q)[c] < q && nmul(a, b, q)[c] % q == nci(a, b)[c] % q by {
        vstd::arithmetic::div_mod::lemma_mod_bound(nci(a, b)[c], q);
        vstd::arithmetic::div_mod::lemma_mod_twice(nci(a, b)[c], q);
    }
}

/// Two reduced vectors agreeing mod q are equal.
proof fn lemma_eqm_eq(x: Seq<int>, y: Seq<int>, q: int)
    requires
        q > 0,
        eqm(x, y, q),
        reduced(x, q),
        reduced(y, q),
    ensures
        x == y,
{
    assert forall|i: int| 0 <= i < x.len() implies x[i] == y[i] by {
        vstd::arithmetic::div_mod::lemma_small_mod(x[i] as nat, q as nat);
        vstd::arithmetic::div_mod::lemma_small_mod(y[i] as nat, q as nat);
    }
    assert(x =~= y);
}

pub proof fn lemma_nmul_comm(a: Seq<int>, b: Seq<int>, q: int)
    requires
        q > 0,
        a.len() == N,
        b.len() == N,
    ensures
        nmul(a, b, q) == nmul(b, a, q),
{
    lemma_nci_comm(a, b);
}

pub proof fn lemma_nmul_cong(a: Seq<int>, a2: Seq<int>, b: Seq<int>, q: int)
    requires
        q > 0,
        a.len() == N,
        a2.len() == N,
        b.len() == N,
        eqm(a2, a, q),
    ensures
        nmul(a2, b, q) == nmul(a, b, q),
        nmul(b, a2, q) == nmul(b, a, q),
{
    lemma_nci_cong(a2, a, b, q);
    lemma_nmul_basics(a2, b, q);
    lemma_nmul_basics(a, b, q);
    lemma_nmul_basics(b, a2, q);
    lemma_nmul_basics(b, a, q);
    lemma_eqm_trans(nmul(a2, b, q), nci(a2, b), nci(a, b), q);
    lemma_eqm_sym(nmul(a, b, q), nci(a, b), q);
    lemma_eqm_trans(nmul(a2, b, q), nci(a, b), nmul(a, b, q), q);
    lemma_eqm_eq(nmul(a2, b, q), nmul(a, b, q), q);
    lemma_eqm_trans(nmul(b, a2, q), nci(b, a2), nci(b, a), q);
    lemma_eqm_sym(nmul(b, a, q), nci(b, a), q);
    lemma_eqm_trans(nmul(b, a2, q), nci(b, a), nmul(b, a, q), q);
    lemma_eqm_eq(nmul(b, a2, q), nmul(b, a, q), q);
}

pub proof fn lemma_nmul_assoc(a: Seq<int>, b: Seq<int>, c: Seq<int>, q: int)
    requires
        q > 0,
        a.len() == N,
        b.len() == N,
        c.len() == N,
    ensures
        nmul(nmul(a, b, q), c, q) == nmul(a, nmul(b, c, q), q),
{
    lemma_nmul_basics(a, b, q);
    lemma_nmul_basics(b, c, q);
    lemma_nmul_cong(nci(a, b), nmul(a, b, q), c, q);
    lemma_nmul_cong(nci(b, c), nmul(b, c, q), a, q);
    lemma_nci_assoc(a, b, c);
    assert(nmul(nci(a, b), c, q) == nmul(a, nci(b, c), q));
}

pub proof fn lemma_nmul_lin(a: Seq<int>, b: Seq<int>, c: Seq<int>, c1: int, c2: int, q: int)
    requires
        q > 0,
        a.len() == N,
        b.len() == N,
        c.len() == N,
    ensures
        eqm(nmul(a, lin(c1, b, c2, c), q), lin(c1, nmul(a, b, q), c2, nmul(a, c, q)), q),
{
    lemma_nci_lin_right(a, b, c, c1, c2);
    lemma_nmul_basics(a, lin(c1, b, c2, c), q);
    lemma_nmul_basics(a, b, q);
    lemma_nmul_basics(a, c, q);
    lemma_eqm_sym(nmul(a, b, q), nci(a, b), q);
    lemma_eqm_sym(nmul(a, c, q), nci(a, c), q);
    lemma_lin_cong(nci(a, b), nmul(a, b, q), nci(a, c), nmul(a, c, q), c1, c2, q);
    lemma_eqm_trans(nmul(a, lin(c1, b, c2, c), q), nci(a, lin(c1, b, c2, c)), lin(c1, nmul(a, b, q), c2, nmul(a, c, q)), q);
}

/// Multiplying a sum multiplies each term, mod q.
pub proof fn lemma_nmul_ssum(x: Seq<int>, f: spec_fn(int) -> Seq<int>, m: nat, q: int)
    requires
        q > 0,
        x.len() == N,
        forall|j: int| 0 <= j < m ==> (#[trigger] f(j)).len() == N,
    ensures
        eqm(nmul(x, ssum(f, m, N as nat), q), ssum(|j: int| nmul(x, f(j), q), m, N as nat), q),
    decreases m,
{
    let n = N as nat;
    let g = |j: int| nmul(x, f(j), q);
    lemma_ssum_len(f, m, n);
    lemma_ssum_len(g, m, n);
    if m == 0 {
        assert(vzero(n) =~= lin(0, x, 0, x));
        lemma_nmul_lin(x, x, x, 0, 0, q);
        lemma_nmul_basics(x, x, q);
        let r = nmul(x, x, q);
        assert(lin(0, r, 0, r) =~= vzero(n));
    } else {
        let m0 = (m - 1) as nat;
        lemma_nmul_ssum(x, f, m0, q);
        lemma_ssum_len(f, m0, n);
        lemma_ssum_len(g, m0, n);
        let sm = ssum(f, m0, n);
        lemma_nmul_lin(x, sm, f(m0 as int), 1, 1, q);
        lemma_nmul_basics(x, sm, q);
        lemma_nmul_basics(x, f(m0 as int), q);
        let rs = nmul(x, sm, q);
        let rf = nmul(x, f(m0 as int), q);
        assert(eqm(rf, rf, q));
        lemma_lin_cong(rs, ssum(g, m0, n), rf, rf, 1, 1, q);
        assert(g(m0 as int) == rf);
        lemma_eqm_trans(nmul(x, ssum(f, m, n), q), lin(1, rs, 1, rf), ssum(g, m, n), q);
    }
}

} // verus!
