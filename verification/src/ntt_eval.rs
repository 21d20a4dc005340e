//! The forward transform evaluates: entry `i` of the NTT of `a` is `a(x_i)` mod q, where the
//! point `x_i` is `+-` a twiddle of the last layer. Each Cooley-Tukey layer splits a block that
//! stands for `a mod (X^(2 len) - w)` into the halves for `X^len - z` and `X^len + z`, with
//! `z^2 = w`.
use crate::conv_laws::{isum, lemma_isum_ext, lemma_isum_lin, lemma_isum_scale, lemma_isum_shift, lemma_isum_split, lemma_isum_swap, nci, rot, sh};
use crate::poly::N;
use crate::custom_kem_ntt::{bit_rev, ct_from, ct_layer, ntt_spec};
use crate::ring_laws::{lemma_cong_add, lemma_cong_mul};
use vstd::arithmetic::power::pow;
use vstd::arithmetic::power2::pow2;
use vstd::prelude::*;

verus! {

/// `s[o] + s[o + 1] x + ... + s[o + m - 1] x^(m - 1)`.
pub open spec fn peval(s: Seq<int>, o: int, m: int, x: int) -> int {
    isum(|j: int| s[o + j] * pow(x, j as nat), m)
}

/// The twiddle of block `b` at the layer of half-width `2^j`, for a table of `2^k` entries.
pub open spec fn tw(zetas: Seq<i64>, k: nat, j: int, b: int) -> int {
    zetas[pow2((k - 1 - j) as nat) + b] as int
}

/// The constant `w` of block `b` of width `2^(j + 1)`: the block stands for the polynomial
/// mod `X^(2^(j + 1)) - w`. The whole input (`j = k - 1`) has `w = -1`; the halves a layer
/// makes of a block get `+z` and `-z` for the block's twiddle `z`.
pub open spec fn cst(zetas: Seq<i64>, k: nat, j: int, b: int) -> int {
    if j >= k - 1 {
        -1
    } else if b % 2 == 0 {
        tw(zetas, k, j + 1, b / 2)
    } else {
        -tw(zetas, k, j + 1, b / 2)
    }
}

/// Each twiddle squares to its block's constant, mod q.
pub open spec fn squares_ok(zetas: Seq<i64>, k: nat, q: int) -> bool {
    forall|j: int, b: int|
        0 <= j < k && 0 <= b < pow2((k - 1 - j) as nat) ==> (#[trigger] tw(zetas, k, j, b) * tw(zetas, k, j, b)) % q == cst(
            zetas,
            k,
            j,
            b,
        ) % q
}

/// Before the layer of half-width `2^j`, block `b` evaluates like `a` at every `x` with
/// `x^(2^(j + 1)) = cst(j, b)` (mod q).
pub open spec fn evals_at(s: Seq<int>, a: Seq<int>, zetas: Seq<i64>, k: nat, j: int, q: int) -> bool {
    forall|b: int, x: int|
        0 <= b < pow2((k - 1 - j) as nat) && pow(x, pow2((j + 1) as nat)) % q == cst(zetas, k, j, b) % q ==> #[trigger] peval(
            s,
            b * pow2((j + 1) as nat),
            pow2((j + 1) as nat) as int,
            x,
        ) % q == peval(a, 0, pow2(k) as int, x) % q
}

/// Sums of termwise congruent terms are congruent.
pub proof fn lemma_isum_cong(f: spec_fn(int) -> int, g: spec_fn(int) -> int, m: int, q: int)
    requires
        q > 0,
        forall|i: int| 0 <= i < m ==> #[trigger] f(i) % q == g(i) % q,
    ensures
        isum(f, m) % q == isum(g, m) % q,
    decreases m,
{
    if m > 0 {
        lemma_isum_cong(f, g, m - 1, q);
        lemma_cong_add(isum(f, m - 1), isum(g, m - 1), f(m - 1), g(m - 1), q);
    }
}

/// A block of width `2m` evaluates as its low half plus `x^m` times its high half.
proof fn lemma_peval_split(s: Seq<int>, o: int, m: int, x: int)
    requires
        m >= 0,
    ensures
        peval(s, o, 2 * m, x) == peval(s, o, m, x) + pow(x, m as nat) * peval(s, o + m, m, x),
{
    let f = |j: int| s[o + j] * pow(x, j as nat);
    lemma_isum_split(f, m, m);
    let g = |j: int| s[o + m + j] * pow(x, j as nat);
    assert forall|j: int| 0 <= j < m implies #[trigger] f(m + j) == pow(x, m as nat) * g(j) by {
        vstd::arithmetic::power::lemma_pow_adds(x, m as nat, j as nat);
        assert((m + j) as nat == m as nat + j as nat);
        assert(s[o + (m + j)] == s[o + m + j]);
        assert(s[o + m + j] * (pow(x, m as nat) * pow(x, j as nat)) == pow(x, m as nat) * (s[o + m + j] * pow(x, j as nat)))
            by (nonlinear_arith);
    }
    lemma_isum_ext(|i: int| f(m + i), |j: int| pow(x, m as nat) * g(j), m);
    lemma_isum_scale(g, pow(x, m as nat), m);
    assert(2 * m == m + m);
}

/// A block whose entries are congruent to `u + c v` evaluates congruent to `u(x) + c v(x)`.
proof fn lemma_peval_comb(t: Seq<int>, ot: int, u: Seq<int>, ou: int, v: Seq<int>, ov: int, c: int, m: int, x: int, q: int)
    requires
        q > 0,
        m >= 0,
        forall|i: int| 0 <= i < m ==> #[trigger] t[ot + i] % q == (u[ou + i] + c * v[ov + i]) % q,
    ensures
        peval(t, ot, m, x) % q == (peval(u, ou, m, x) + c * peval(v, ov, m, x)) % q,
{
    let f = |j: int| t[ot + j] * pow(x, j as nat);
    let fu = |j: int| u[ou + j] * pow(x, j as nat);
    let fv = |j: int| v[ov + j] * pow(x, j as nat);
    let g = |j: int| 1 * fu(j) + c * fv(j);
    assert forall|j: int| 0 <= j < m implies #[trigger] f(j) % q == g(j) % q by {
        let uj = u[ou + j];
        let vj = v[ov + j];
        let pj = pow(x, j as nat);
        lemma_cong_mul(t[ot + j], uj + c * vj, pj, pj, q);
        assert((uj + c * vj) * pj == 1 * (uj * pj) + c * (vj * pj)) by (nonlinear_arith);
    }
    lemma_isum_cong(f, g, m, q);
    lemma_isum_lin(fu, fv, 1, c, m);
}

/// One layer: the invariant at half-width `2^j` gives the one at `2^(j - 1)`.
proof fn lemma_layer_evals(s: Seq<int>, a: Seq<int>, zetas: Seq<i64>, k: nat, j: int, q: int)
    requires
        q >= 2,
        0 <= j < k,
        s.len() == pow2(k),
        zetas.len() == pow2(k),
        squares_ok(zetas, k, q),
        evals_at(s, a, zetas, k, j, q),
    ensures
        evals_at(ct_layer(s, zetas, q, pow2(j as nat) as int), a, zetas, k, j - 1, q),
        ct_layer(s, zetas, q, pow2(j as nat) as int).len() == pow2(k),
{
    let n = pow2(k) as int;
    let len = pow2(j as nat) as int;
    let nb = pow2((k - 1 - j) as nat) as int;
    let s2 = ct_layer(s, zetas, q, len);
    vstd::arithmetic::power2::lemma_pow2_pos(j as nat);
    vstd::arithmetic::power2::lemma_pow2_pos((k - 1 - j) as nat);
    vstd::arithmetic::power2::lemma_pow2_adds(j as nat + 1, (k - 1 - j) as nat);
    vstd::arithmetic::power2::lemma_pow2_unfold(j as nat + 1);
    assert(pow2((j + 1) as nat) == 2 * len);
    assert(n == (2 * len) * nb);
    vstd::arithmetic::div_mod::lemma_div_multiples_vanish(nb, 2 * len);
    assert(n / (2 * len) == nb) by {
        assert((2 * len) * nb == nb * (2 * len)) by (nonlinear_arith);
    }
    vstd::arithmetic::power2::lemma_pow2_unfold((k - j) as nat);
    assert(pow2((k - 1 - (j - 1)) as nat) == 2 * nb);
    let full = peval(a, 0, n, 0);
    assert forall|b2: int, x: int|
        0 <= b2 < pow2((k - 1 - (j - 1)) as nat) && pow(x, pow2((j - 1 + 1) as nat)) % q == cst(zetas, k, j - 1, b2) % q implies #[trigger] peval(
        s2,
        b2 * pow2((j - 1 + 1) as nat),
        pow2((j - 1 + 1) as nat) as int,
        x,
    ) % q == peval(a, 0, pow2(k) as int, x) % q by {
        let b = b2 / 2;
        let e = b2 % 2;
        let o = b * (2 * len);
        let z = tw(zetas, k, j, b);
        assert(b2 == 2 * b + e);
        assert(0 <= b < nb);
        assert(pow2((j - 1 + 1) as nat) == len);
        assert(b2 * len == o + e * len) by (nonlinear_arith)
            requires
                b2 == 2 * b + e,
                o == b * (2 * len),
        ;
        assert(o + 2 * len <= n) by (nonlinear_arith)
            requires
                b + 1 <= nb,
                o == b * (2 * len),
                n == (2 * len) * nb,
                len >= 1,
        ;
        // the layer's entries on this half
        assert forall|i: int| 0 <= i < len implies #[trigger] s2[o + e * len + i] % q == (s[o + i] + (if e == 0 {
            z
        } else {
            -z
        }) * s[o + len + i]) % q by {
            let y = o + e * len + i;
            assert(y == b * (2 * len) + (e * len + i));
            vstd::arithmetic::div_mod::lemma_fundamental_div_mod_converse(y, 2 * len, b, e * len + i);
            assert(zetas[n / (2 * len) + y / (2 * len)] as int == z);
            vstd::arithmetic::div_mod::lemma_mod_twice(s[o + i] + (z * s[o + len + i]) % q, q);
            vstd::arithmetic::div_mod::lemma_mod_twice(s[o + i] - (z * s[o + len + i]) % q, q);
            vstd::arithmetic::div_mod::lemma_mod_twice(z * s[o + len + i], q);
            if e == 0 {
                assert(e * len == 0) by (nonlinear_arith)
                    requires
                        e == 0,
                ;
                assert(y % (2 * len) < len);
                assert(s2[y] == (s[y] + (z * s[y + len]) % q) % q);
                lemma_cong_add(s[o + i], s[o + i], (z * s[o + len + i]) % q, z * s[o + len + i], q);
            } else {
                assert(e * len == len) by (nonlinear_arith)
                    requires
                        e == 1,
                ;
                assert(y % (2 * len) >= len);
                assert(s2[y] == (s[y - len] - (z * s[y]) % q) % q);
                assert(y - len == o + i);
                assert(y == o + len + i);
                crate::ring_laws::lemma_cong_sub(s[o + i], s[o + i], (z * s[o + len + i]) % q, z * s[o + len + i], q);
                assert(s[o + i] - z * s[o + len + i] == s[o + i] + (-z) * s[o + len + i]) by (nonlinear_arith);
            }
        }
        let zz = if e == 0 {
            z
        } else {
            -z
        };
        lemma_peval_comb(s2, o + e * len, s, o, s, o + len, zz, len, x, q);
        // `zz` is `x^len` mod q
        assert(cst(zetas, k, j - 1, b2) == zz);
        let lo = peval(s, o, len, x);
        let hi = peval(s, o + len, len, x);
        lemma_cong_mul(zz, pow(x, len as nat), hi, hi, q);
        lemma_cong_add(lo, lo, zz * hi, pow(x, len as nat) * hi, q);
        lemma_peval_split(s, o, len, x);
        // and `x^(2 len)` is the block's constant
        vstd::arithmetic::power::lemma_pow_adds(x, len as nat, len as nat);
        assert(pow2((j + 1) as nat) as nat == len as nat + len as nat);
        lemma_cong_mul(pow(x, len as nat), zz, pow(x, len as nat), zz, q);
        assert(zz * zz == z * z) by (nonlinear_arith)
            requires
                zz == z || zz == -z,
        ;
        assert((tw(zetas, k, j, b) * tw(zetas, k, j, b)) % q == cst(zetas, k, j, b) % q);
        assert(pow(x, pow2((j + 1) as nat)) % q == cst(zetas, k, j, b) % q);
        assert(peval(s, b * pow2((j + 1) as nat), pow2((j + 1) as nat) as int, x) % q == peval(a, 0, pow2(k) as int, x) % q);
        assert(b * pow2((j + 1) as nat) == o);
        assert(2 * len == pow2((j + 1) as nat));
    }
}


/// The layers from half-width `2^j` down to 1 carry the invariant to single entries.
proof fn lemma_ct_from_evals(s: Seq<int>, a: Seq<int>, zetas: Seq<i64>, k: nat, j: int, q: int)
    requires
        q >= 2,
        0 <= j < k,
        s.len() == pow2(k),
        zetas.len() == pow2(k),
        squares_ok(zetas, k, q),
        evals_at(s, a, zetas, k, j, q),
    ensures
        evals_at(ct_from(s, zetas, q, pow2(j as nat) as int), a, zetas, k, -1, q),
    decreases j,
{
    lemma_layer_evals(s, a, zetas, k, j, q);
    let s2 = ct_layer(s, zetas, q, pow2(j as nat) as int);
    vstd::arithmetic::power2::lemma_pow2_pos(j as nat);
    if j == 0 {
        vstd::arithmetic::power2::lemma2_to64();
        assert(ct_from(s, zetas, q, 1) == ct_from(s2, zetas, q, 0));
    } else {
        vstd::arithmetic::power2::lemma_pow2_unfold(j as nat);
        assert(pow2(j as nat) as int / 2 == pow2((j - 1) as nat) as int);
        lemma_ct_from_evals(s2, a, zetas, k, j - 1, q);
    }
}

/// The forward transform evaluates: entry `i` is `a(x_i)` mod q at the point
/// `x_i = cst(-1, i)`.
pub proof fn lemma_ntt_evaluates(a: Seq<int>, zetas: Seq<i64>, q: int, k: nat)
    requires
        q >= 2,
        k >= 1,
        a.len() == pow2(k),
        zetas.len() == pow2(k),
        squares_ok(zetas, k, q),
    ensures
        forall|i: int|
            0 <= i < pow2(k) ==> #[trigger] ntt_spec(a, zetas, q)[i] % q == peval(a, 0, pow2(k) as int, cst(zetas, k, -1, i)) % q,
{
    let n = pow2(k) as int;
    vstd::arithmetic::power2::lemma_pow2_unfold(k);
    assert(n / 2 == pow2((k - 1) as nat) as int);
    assert(evals_at(a, a, zetas, k, k - 1, q)) by {
        assert(pow2((k - 1 - (k - 1)) as nat) == 1) by {
            vstd::arithmetic::power2::lemma2_to64();
        }
        assert(pow2(((k - 1) + 1) as nat) == n);
    }
    lemma_ct_from_evals(a, a, zetas, k, k - 1, q);
    let t = ntt_spec(a, zetas, q);
    assert forall|i: int| 0 <= i < pow2(k) implies #[trigger] ntt_spec(a, zetas, q)[i] % q == peval(a, 0, n, cst(zetas, k, -1, i)) % q by {
        let x = cst(zetas, k, -1, i);
        vstd::arithmetic::power2::lemma2_to64();
        assert(pow2((-1 + 1) as nat) == 1);
        assert(pow2((k - 1 - (-1)) as nat) == n);
        vstd::arithmetic::power::lemma_pow1(x);
        assert(peval(t, i * 1, 1, x) % q == peval(a, 0, n, x) % q);
        vstd::arithmetic::power::lemma_pow0(x);
        assert(peval(t, i * 1, 1, x) == t[i]) by {
            assert(isum(|jj: int| t[i * 1 + jj] * pow(x, jj as nat), 1) == isum(|jj: int| t[i * 1 + jj] * pow(x, jj as nat), 0) + t[i * 1 + 0] * pow(x, 0));
        }
    }
}

/// A point whose `2^(j + 1)`-th power is its block's constant is a negacyclic root:
/// `x^(2^k) = -1` mod q.
pub proof fn lemma_point_root(zetas: Seq<i64>, k: nat, q: int, j: int, b: int, x: int)
    requires
        q >= 2,
        -1 <= j < k,
        0 <= b < pow2((k - 1 - j) as nat),
        squares_ok(zetas, k, q),
        pow(x, pow2((j + 1) as nat)) % q == cst(zetas, k, j, b) % q,
    ensures
        pow(x, pow2(k)) % q == (-1) % q,
    decreases k - j,
{
    if j < k - 1 {
        let b2 = b / 2;
        let y = pow(x, pow2((j + 1) as nat));
        vstd::arithmetic::power2::lemma_pow2_unfold((j + 2) as nat);
        vstd::arithmetic::power::lemma_pow_adds(x, pow2((j + 1) as nat), pow2((j + 1) as nat));
        assert(pow(x, pow2((j + 2) as nat)) == y * y);
        let z = tw(zetas, k, j + 1, b2);
        lemma_cong_mul(y, cst(zetas, k, j, b), y, cst(zetas, k, j, b), q);
        assert(cst(zetas, k, j, b) * cst(zetas, k, j, b) == z * z) by (nonlinear_arith)
            requires
                cst(zetas, k, j, b) == z || cst(zetas, k, j, b) == -z,
        ;
        vstd::arithmetic::power2::lemma_pow2_unfold((k - 1 - j) as nat);
        assert(0 <= b2 < pow2((k - 1 - (j + 1)) as nat));
        assert((tw(zetas, k, j + 1, b2) * tw(zetas, k, j + 1, b2)) % q == cst(zetas, k, j + 1, b2) % q);
        assert(((j + 1) + 1) as nat == (j + 2) as nat);
        lemma_point_root(zetas, k, q, j + 1, b2, x);
    } else {
        assert(j + 1 == k);
    }
}


/// Reversing `2m + e` in `k` bits puts `e` on top of `m` reversed in `k - 1` bits.
proof fn lemma_bit_rev_step(m: nat, e: nat, k: nat)
    requires
        k >= 1,
        e < 2,
    ensures
        bit_rev(2 * m + e, k) == e * pow2((k - 1) as nat) + bit_rev(m, (k - 1) as nat),
{
    let x = 2 * m + e;
    assert(x % 2 == e);
    assert(x / 2 == m);
}

/// A value below `2^(k-1)` reversed in `k` bits is twice its reversal in `k - 1` bits.
proof fn lemma_bit_rev_double(m: nat, k: nat)
    requires
        k >= 1,
        m < pow2((k - 1) as nat),
    ensures
        bit_rev(m, k) == 2 * bit_rev(m, (k - 1) as nat),
    decreases k,
{
    if k == 1 {
        vstd::arithmetic::power2::lemma2_to64();
        assert(m == 0);
        assert(bit_rev(0, 1) == (0nat % 2) * pow2(0) + bit_rev(0, 0));
    } else {
        vstd::arithmetic::power2::lemma_pow2_unfold((k - 1) as nat);
        vstd::arithmetic::power2::lemma_pow2_unfold(k);
        assert(m / 2 < pow2((k - 2) as nat));
        lemma_bit_rev_double(m / 2, (k - 1) as nat);
        assert(bit_rev(m, k) == (m % 2) * pow2((k - 1) as nat) + bit_rev(m / 2, (k - 1) as nat));
        assert(bit_rev(m, (k - 1) as nat) == (m % 2) * pow2((k - 2) as nat) + bit_rev(m / 2, (k - 2) as nat));
        assert((m % 2) * pow2((k - 1) as nat) == 2 * ((m % 2) * pow2((k - 2) as nat))) by (nonlinear_arith)
            requires
                pow2((k - 1) as nat) == 2 * pow2((k - 2) as nat),
        ;
    }
}

/// A table of twiddles `zeta^bitrev_k(i)` for a root with `zeta^(2^k) = -1` squares as the
/// blocks need.
pub proof fn lemma_root_table_squares(zetas: Seq<i64>, zeta: int, q: int, k: nat)
    requires
        q >= 2,
        k >= 1,
        zetas.len() == pow2(k),
        pow(zeta, pow2(k)) % q == q - 1,
        forall|i: int| 0 <= i < pow2(k) ==> #[trigger] zetas[i] == pow(zeta, bit_rev(i as nat, k)) % q,
    ensures
        squares_ok(zetas, k, q),
{
    assert forall|j: int, b: int| 0 <= j < k && 0 <= b < pow2((k - 1 - j) as nat) implies (#[trigger] tw(zetas, k, j, b) * tw(
        zetas,
        k,
        j,
        b,
    )) % q == cst(zetas, k, j, b) % q by {
        let idx = pow2((k - 1 - j) as nat) + b;
        vstd::arithmetic::power2::lemma_pow2_pos((k - 1 - j) as nat);
        crate::ntt_laws::lemma_pow2_divides(k, (k - 1 - j) as nat);
        vstd::arithmetic::power2::lemma_pow2_unfold((k - j) as nat);
        crate::ntt_laws::lemma_pow2_divides(k, (k - j) as nat);
        assert(idx < pow2(k));
        let ex = bit_rev(idx as nat, k);
        let z = tw(zetas, k, j, b);
        assert(z == pow(zeta, ex) % q);
        let pz = pow(zeta, ex);
        vstd::arithmetic::div_mod::lemma_mul_mod_noop(pz, pz, q);
        vstd::arithmetic::power::lemma_pow_adds(zeta, ex, ex);
        assert((z * z) % q == pow(zeta, ex + ex) % q);
        let e: nat = (idx % 2) as nat;
        let m: nat = (idx / 2) as nat;
        lemma_bit_rev_step(m, e, k);
        assert(idx == 2 * m + e);
        vstd::arithmetic::power2::lemma_pow2_unfold(k);
        if j == k - 1 {
            vstd::arithmetic::power2::lemma2_to64();
            assert(idx == 1);
            assert(m == 0 && e == 1);
            crate::ntt_laws::lemma_bit_rev_zero_pub((k - 1) as nat);
            assert(e * pow2((k - 1) as nat) == pow2((k - 1) as nat)) by (nonlinear_arith)
                requires
                    e == 1,
            ;
            assert(ex + ex == pow2(k));
            vstd::arithmetic::div_mod::lemma_small_mod((q - 1) as nat, q as nat);
            assert((-1int) % q == q - 1) by {
                vstd::arithmetic::div_mod::lemma_mod_add_multiples_vanish(-1, q);
            }
            assert(cst(zetas, k, j, b) == -1);
            assert((z * z) % q == pow(zeta, pow2(k)) % q);
        } else {
            // the parent index
            vstd::arithmetic::power2::lemma_pow2_unfold((k - 1 - j) as nat);
            let hp = pow2((k - 2 - j) as nat) as int;
            assert(pow2((k - 1 - j) as nat) == 2 * hp);
            assert(m == hp + b / 2);
            assert(e == b % 2);
            crate::ntt_laws::lemma_pow2_divides((k - 1) as nat, (k - 1 - j) as nat);
            assert(m < pow2((k - 1) as nat));
            lemma_bit_rev_double(m, k);
            let r = bit_rev(m, k);
            assert(ex + ex == e * pow2(k) + r) by (nonlinear_arith)
                requires
                    ex == e * pow2((k - 1) as nat) + bit_rev(m, (k - 1) as nat),
                    r == 2 * bit_rev(m, (k - 1) as nat),
                    pow2(k) == 2 * pow2((k - 1) as nat),
            ;
            assert(pow2((k - 1 - (j + 1)) as nat) == hp);
            assert(tw(zetas, k, j + 1, b / 2) == zetas[m as int]);
            assert(zetas[m as int] == pow(zeta, r) % q);
            if e == 0 {
                assert(e * pow2(k) == 0) by (nonlinear_arith)
                    requires
                        e == 0,
                ;
                assert(ex + ex == r);
                vstd::arithmetic::div_mod::lemma_mod_twice(pow(zeta, r), q);
                assert(cst(zetas, k, j, b) == zetas[m as int]);
                assert((z * z) % q == pow(zeta, r) % q);
            } else {
                vstd::arithmetic::power::lemma_pow_adds(zeta, pow2(k), r);
                assert(e * pow2(k) == pow2(k)) by (nonlinear_arith)
                    requires
                        e == 1,
                ;
                assert((ex + ex) as nat == pow2(k) + r);
                let pk = pow(zeta, pow2(k));
                let pr = pow(zeta, r);
                vstd::arithmetic::div_mod::lemma_mul_mod_noop(pk, pr, q);
                // (pk % q) * pr == (q - 1) * pr == -pr (mod q)
                vstd::arithmetic::div_mod::lemma_mul_mod_noop_left(pk, pr, q);
                assert((q - 1) * pr == q * pr + (-pr)) by (nonlinear_arith);
                vstd::arithmetic::div_mod::lemma_mod_multiples_vanish(pr, -pr, q);
                vstd::arithmetic::div_mod::lemma_mod_bound(pr, q);
                vstd::arithmetic::div_mod::lemma_mod_twice(pr, q);
                crate::ring_laws::lemma_cong_sub(0, 0, pr, pr % q, q);
                assert((pk * pr) % q == ((q - 1) * pr) % q);
                assert(((q - 1) * pr) % q == (-pr) % q);
                assert((0 - pr) % q == (0 - pr % q) % q);
                assert(cst(zetas, k, j, b) == -(pr % q));
                assert(pow(zeta, (ex + ex) as nat) == pk * pr);
                assert((z * z) % q == (pk * pr) % q);
            }
        }
    }
}


/// `a == b + d` with `d = 0` mod q gives `a = b` mod q.
proof fn lemma_plus_zero(a: int, b: int, d: int, q: int)
    requires
        q > 0,
        a == b + d,
        d % q == 0,
    ensures
        a % q == b % q,
{
    vstd::arithmetic::div_mod::lemma_small_mod(0, q as nat);
    lemma_cong_add(b, b, d, 0, q);
}

/// Multiplying by `x` is the signed rotation, at any `x` with `x^N = -1` mod q.
proof fn lemma_peval_sh(v: Seq<int>, x: int, q: int)
    requires
        q > 0,
        v.len() == N,
        pow(x, N as nat) % q == (-1) % q,
    ensures
        peval(sh(v), 0, N as int, x) % q == (x * peval(v, 0, N as int, x)) % q,
{
    let n = N as int;
    let g = |c: int| sh(v)[0 + c] * pow(x, c as nat);
    let f = |d: int| v[0 + d] * pow(x, d as nat);
    lemma_isum_shift(g, n - 1);
    lemma_isum_scale(f, x, n - 1);
    assert forall|kk: int| 0 <= kk < n - 1 implies #[trigger] g(kk + 1) == x * f(kk) by {
        vstd::arithmetic::power::lemma_pow_adds(x, kk as nat, 1);
        vstd::arithmetic::power::lemma_pow1(x);
        assert((kk + 1) as nat == kk as nat + 1);
        assert(sh(v)[0 + (kk + 1)] == v[kk]);
        let vk = v[kk];
        let pk = pow(x, kk as nat);
        assert(vk * (pk * x) == x * (vk * pk)) by (nonlinear_arith);
    }
    lemma_isum_ext(|kk: int| g(kk + 1), |d: int| x * f(d), n - 1);
    vstd::arithmetic::power::lemma_pow0(x);
    vstd::arithmetic::power::lemma_pow_adds(x, (n - 1) as nat, 1);
    vstd::arithmetic::power::lemma_pow1(x);
    let last = v[n - 1];
    let pn1 = pow(x, (n - 1) as nat);
    let pn = pow(x, N as nat);
    assert(((n - 1) as nat + 1) as nat == N as nat);
    assert(pn == pn1 * x);
    let rest = isum(f, n - 1);
    assert(isum(f, n) == rest + last * pn1);
    assert(x * (rest + last * pn1) == x * rest + last * pn) by (nonlinear_arith)
        requires
            pn == pn1 * x,
    ;
    assert(g(0) == -last);
    // the difference is -last (1 + x^N), which vanishes mod q
    let d = -last * (1 + pn);
    assert(-last + x * rest == (x * rest + last * pn) + d) by (nonlinear_arith)
        requires
            d == -last * (1 + pn),
    ;
    vstd::arithmetic::div_mod::lemma_small_mod(0, q as nat);
    lemma_cong_add(1, 1, pn, -1, q);
    lemma_cong_mul(1 + pn, 0, -last, -last, q);
    assert((1 + pn) * -last == d) by (nonlinear_arith)
        requires
            d == -last * (1 + pn),
    ;
    lemma_plus_zero(-last + x * rest, x * rest + last * pn, d, q);
}

/// `x^i b` evaluates as `x^i` times `b`, at any `x` with `x^N = -1` mod q.
proof fn lemma_peval_rot(b: Seq<int>, i: int, x: int, q: int)
    requires
        q > 0,
        b.len() == N,
        0 <= i < N,
        pow(x, N as nat) % q == (-1) % q,
    ensures
        peval(rot(b, i), 0, N as int, x) % q == (pow(x, i as nat) * peval(b, 0, N as int, x)) % q,
    decreases i,
{
    let pb = peval(b, 0, N as int, x);
    if i == 0 {
        assert(rot(b, 0) =~= b);
        vstd::arithmetic::power::lemma_pow0(x);
        assert(1 * pb == pb);
    } else {
        lemma_peval_rot(b, i - 1, x, q);
        assert(rot(b, i) =~= sh(rot(b, i - 1)));
        let r0 = peval(rot(b, i - 1), 0, N as int, x);
        lemma_peval_sh(rot(b, i - 1), x, q);
        let pi1 = pow(x, (i - 1) as nat);
        lemma_cong_mul(x, x, r0, pi1 * pb, q);
        vstd::arithmetic::power::lemma_pow_adds(x, (i - 1) as nat, 1);
        vstd::arithmetic::power::lemma_pow1(x);
        assert(((i - 1) as nat + 1) as nat == i as nat);
        assert(x * (pi1 * pb) == (pi1 * x) * pb) by (nonlinear_arith);
    }
}

/// The negacyclic product evaluates as the product of the evaluations, at any `x` with
/// `x^N = -1` mod q.
pub proof fn lemma_peval_nci(a: Seq<int>, b: Seq<int>, x: int, q: int)
    requires
        q > 0,
        a.len() == N,
        b.len() == N,
        pow(x, N as nat) % q == (-1) % q,
    ensures
        peval(nci(a, b), 0, N as int, x) % q == (peval(a, 0, N as int, x) * peval(b, 0, N as int, x)) % q,
{
    let n = N as int;
    let t = |c: int, i: int| a[i] * rot(b, i)[c] * pow(x, c as nat);
    // each coefficient's term spread over `i`
    let lhs = |c: int| nci(a, b)[0 + c] * pow(x, c as nat);
    let rows = |c: int| isum(|i: int| t(c, i), n);
    assert forall|c: int| 0 <= c < n implies #[trigger] lhs(c) == rows(c) by {
        let fc = |i: int| a[i] * rot(b, i)[c];
        let pc = pow(x, c as nat);
        assert(nci(a, b)[0 + c] == isum(fc, n));
        lemma_isum_scale(fc, pc, n);
        lemma_isum_ext(|i: int| fc(i) * pc, |i: int| t(c, i), n);
        assert(lhs(c) == isum(fc, n) * pc);
        assert(rows(c) == isum(|i: int| t(c, i), n));
    }
    lemma_isum_ext(lhs, rows, n);
    lemma_isum_swap(t, n, n);
    let pb = peval(b, 0, n, x);
    let h = |i: int| (a[0 + i] * pow(x, i as nat)) * pb;
    let cols = |i: int| isum(|c: int| t(c, i), n);
    assert forall|i: int| 0 <= i < n implies #[trigger] cols(i) % q == h(i) % q by {
        let ri = rot(b, i);
        let ff = |c: int| ri[0 + c] * pow(x, c as nat);
        assert forall|c: int| 0 <= c < n implies #[trigger] t(c, i) == a[i] * ff(c) by {
            let ai = a[i];
            let rc = ri[c];
            let pc = pow(x, c as nat);
            assert(ai * rc * pc == ai * (rc * pc)) by (nonlinear_arith);
        }
        lemma_isum_ext(|c: int| t(c, i), |c: int| a[i] * ff(c), n);
        lemma_isum_scale(ff, a[i], n);
        lemma_isum_ext(ff, |j: int| ri[0 + j] * pow(x, j as nat), n);
        let pr = peval(ri, 0, n, x);
        assert(cols(i) == a[i] * pr);
        lemma_peval_rot(b, i, x, q);
        lemma_cong_mul(a[i], a[i], pr, pow(x, i as nat) * pb, q);
        assert(a[i] * (pow(x, i as nat) * pb) == (a[0 + i] * pow(x, i as nat)) * pb) by (nonlinear_arith);
    }
    lemma_isum_cong(cols, h, n, q);
    lemma_isum_ext(|i: int| isum(|c: int| t(c, i), n), cols, n);
    let fa = |i: int| a[0 + i] * pow(x, i as nat);
    lemma_isum_scale(fa, pb, n);
    lemma_isum_ext(|i: int| fa(i) * pb, h, n);
    assert(peval(a, 0, n, x) == isum(fa, n));
    assert(peval(nci(a, b), 0, n, x) == isum(lhs, n));
    assert(isum(lhs, n) == isum(rows, n));
    assert(isum(rows, n) == isum(|i: int| isum(|c: int| t(c, i), n), n));
    assert(isum(h, n) == isum(fa, n) * pb);
}


/// `x^i b` in Z[x]/(x^n + 1), for `0 <= i < n`: `b` rotated up by `i` with the wrapped
/// coefficients negated.
pub open spec fn grot(b: Seq<int>, i: int, n: int) -> Seq<int> {
    Seq::new(n as nat, |c: int| if c >= i { b[c - i] } else { -b[c - i + n] })
}

/// `x v` in Z[x]/(x^n + 1).
pub open spec fn gsh(v: Seq<int>, n: int) -> Seq<int> {
    Seq::new(n as nat, |c: int| if c >= 1 { v[c - 1] } else { -v[n - 1] })
}

/// The schoolbook product in Z[x]/(x^n + 1): `sum_i a_i x^i b`.
pub open spec fn gnci(a: Seq<int>, b: Seq<int>, n: int) -> Seq<int> {
    Seq::new(n as nat, |c: int| isum(|i: int| a[i] * grot(b, i, n)[c], n))
}

/// Multiplying by `x` is the signed rotation, at any `x` with `x^n = -1` mod q.
proof fn lemma_gpeval_sh(v: Seq<int>, n: int, x: int, q: int)
    requires
        q > 0,
        n >= 1,
        v.len() == n,
        pow(x, n as nat) % q == (-1) % q,
    ensures
        peval(gsh(v, n), 0, n, x) % q == (x * peval(v, 0, n, x)) % q,
{
    let g = |c: int| gsh(v, n)[0 + c] * pow(x, c as nat);
    let f = |d: int| v[0 + d] * pow(x, d as nat);
    lemma_isum_shift(g, n - 1);
    lemma_isum_scale(f, x, n - 1);
    assert forall|kk: int| 0 <= kk < n - 1 implies #[trigger] g(kk + 1) == x * f(kk) by {
        vstd::arithmetic::power::lemma_pow_adds(x, kk as nat, 1);
        vstd::arithmetic::power::lemma_pow1(x);
        assert((kk + 1) as nat == kk as nat + 1);
        assert(gsh(v, n)[0 + (kk + 1)] == v[kk]);
        let vk = v[kk];
        let pk = pow(x, kk as nat);
        assert(vk * (pk * x) == x * (vk * pk)) by (nonlinear_arith);
    }
    lemma_isum_ext(|kk: int| g(kk + 1), |d: int| x * f(d), n - 1);
    vstd::arithmetic::power::lemma_pow0(x);
    vstd::arithmetic::power::lemma_pow_adds(x, (n - 1) as nat, 1);
    vstd::arithmetic::power::lemma_pow1(x);
    let last = v[n - 1];
    let pn1 = pow(x, (n - 1) as nat);
    let pn = pow(x, n as nat);
    assert(((n - 1) as nat + 1) as nat == n as nat);
    assert(pn == pn1 * x);
    let rest = isum(f, n - 1);
    assert(isum(f, n) == rest + last * pn1);
    assert(x * (rest + last * pn1) == x * rest + last * pn) by (nonlinear_arith)
        requires
            pn == pn1 * x,
    ;
    assert(g(0) == -last);
    // the difference is -last (1 + x^n), which vanishes mod q
    let d = -last * (1 + pn);
    assert(-last + x * rest == (x * rest + last * pn) + d) by (nonlinear_arith)
        requires
            d == -last * (1 + pn),
    ;
    vstd::arithmetic::div_mod::lemma_small_mod(0, q as nat);
    lemma_cong_add(1, 1, pn, -1, q);
    lemma_cong_mul(1 + pn, 0, -last, -last, q);
    assert((1 + pn) * -last == d) by (nonlinear_arith)
        requires
            d == -last * (1 + pn),
    ;
    lemma_plus_zero(-last + x * rest, x * rest + last * pn, d, q);
}

/// `x^i b` evaluates as `x^i` times `b`, at any `x` with `x^n = -1` mod q.
proof fn lemma_gpeval_rot(b: Seq<int>, n: int, i: int, x: int, q: int)
    requires
        q > 0,
        n >= 1,
        b.len() == n,
        0 <= i < n,
        pow(x, n as nat) % q == (-1) % q,
    ensures
        peval(grot(b, i, n), 0, n, x) % q == (pow(x, i as nat) * peval(b, 0, n, x)) % q,
    decreases i,
{
    let pb = peval(b, 0, n, x);
    if i == 0 {
        assert(grot(b, 0, n) =~= b);
        vstd::arithmetic::power::lemma_pow0(x);
        assert(1 * pb == pb);
    } else {
        lemma_gpeval_rot(b, n, i - 1, x, q);
        assert(grot(b, i, n) =~= gsh(grot(b, i - 1, n), n));
        let r0 = peval(grot(b, i - 1, n), 0, n, x);
        lemma_gpeval_sh(grot(b, i - 1, n), n, x, q);
        let pi1 = pow(x, (i - 1) as nat);
        lemma_cong_mul(x, x, r0, pi1 * pb, q);
        vstd::arithmetic::power::lemma_pow_adds(x, (i - 1) as nat, 1);
        vstd::arithmetic::power::lemma_pow1(x);
        assert(((i - 1) as nat + 1) as nat == i as nat);
        assert(x * (pi1 * pb) == (pi1 * x) * pb) by (nonlinear_arith);
    }
}

/// The negacyclic product evaluates as the product of the evaluations, at any `x` with
/// `x^n = -1` mod q.
pub proof fn lemma_gpeval_nci(a: Seq<int>, b: Seq<int>, n: int, x: int, q: int)
    requires
        q > 0,
        n >= 1,
        a.len() == n,
        b.len() == n,
        pow(x, n as nat) % q == (-1) % q,
    ensures
        peval(gnci(a, b, n), 0, n, x) % q == (peval(a, 0, n, x) * peval(b, 0, n, x)) % q,
{
    let t = |c: int, i: int| a[i] * grot(b, i, n)[c] * pow(x, c as nat);
    // each coefficient's term spread over `i`
    let lhs = |c: int| gnci(a, b, n)[0 + c] * pow(x, c as nat);
    let rows = |c: int| isum(|i: int| t(c, i), n);
    assert forall|c: int| 0 <= c < n implies #[trigger] lhs(c) == rows(c) by {
        let fc = |i: int| a[i] * grot(b, i, n)[c];
        let pc = pow(x, c as nat);
        assert(gnci(a, b, n)[0 + c] == isum(fc, n));
        lemma_isum_scale(fc, pc, n);
        lemma_isum_ext(|i: int| fc(i) * pc, |i: int| t(c, i), n);
        assert(lhs(c) == isum(fc, n) * pc);
        assert(rows(c) == isum(|i: int| t(c, i), n));
    }
    lemma_isum_ext(lhs, rows, n);
    lemma_isum_swap(t, n, n);
    let pb = peval(b, 0, n, x);
    let h = |i: int| (a[0 + i] * pow(x, i as nat)) * pb;
    let cols = |i: int| isum(|c: int| t(c, i), n);
    assert forall|i: int| 0 <= i < n implies #[trigger] cols(i) % q == h(i) % q by {
        let ri = grot(b, i, n);
        let ff = |c: int| ri[0 + c] * pow(x, c as nat);
        assert forall|c: int| 0 <= c < n implies #[trigger] t(c, i) == a[i] * ff(c) by {
            let ai = a[i];
            let rc = ri[c];
            let pc = pow(x, c as nat);
            assert(ai * rc * pc == ai * (rc * pc)) by (nonlinear_arith);
        }
        lemma_isum_ext(|c: int| t(c, i), |c: int| a[i] * ff(c), n);
        lemma_isum_scale(ff, a[i], n);
        lemma_isum_ext(ff, |j: int| ri[0 + j] * pow(x, j as nat), n);
        let pr = peval(ri, 0, n, x);
        assert(cols(i) == a[i] * pr);
        lemma_gpeval_rot(b, n, i, x, q);
        lemma_cong_mul(a[i], a[i], pr, pow(x, i as nat) * pb, q);
        assert(a[i] * (pow(x, i as nat) * pb) == (a[0 + i] * pow(x, i as nat)) * pb) by (nonlinear_arith);
    }
    lemma_isum_cong(cols, h, n, q);
    lemma_isum_ext(|i: int| isum(|c: int| t(c, i), n), cols, n);
    let fa = |i: int| a[0 + i] * pow(x, i as nat);
    lemma_isum_scale(fa, pb, n);
    lemma_isum_ext(|i: int| fa(i) * pb, h, n);
    assert(peval(a, 0, n, x) == isum(fa, n));
    assert(peval(gnci(a, b, n), 0, n, x) == isum(lhs, n));
    assert(isum(lhs, n) == isum(rows, n));
    assert(isum(rows, n) == isum(|i: int| isum(|c: int| t(c, i), n), n));
    assert(isum(h, n) == isum(fa, n) * pb);
}


} // verus!
