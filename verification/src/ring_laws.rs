//! The NTT-domain product `I(F(a) . F(b))` is a commutative ring product mod q: the forward
//! and inverse transforms are linear mod q and undo each other, so the product inherits
//! associativity, commutativity and distributivity from pointwise multiplication.
use crate::custom_kem_ntt::{ct_from, ct_layer, gs_from, gs_layer, inv_ntt_spec, ntt_spec, pointwise};
use crate::ntt_laws::{lemma_in_block, lemma_layer_shape, lemma_pow2_divides, pairs_at};
use vstd::arithmetic::div_mod::{
    lemma_add_mod_noop, lemma_mod_twice, lemma_mul_mod_noop, lemma_mul_mod_noop_left, lemma_mul_mod_noop_right,
    lemma_sub_mod_noop,
};
use vstd::arithmetic::power2::pow2;
use vstd::prelude::*;

verus! {

/// `x` and `y` agree entrywise mod q.
pub open spec fn eqm(x: Seq<int>, y: Seq<int>, q: int) -> bool {
    &&& x.len() == y.len()
    &&& forall|i: int| #![trigger x[i]] #![trigger y[i]] 0 <= i < x.len() ==> x[i] % q == y[i] % q
}

/// `c1 * a + c2 * b`, entrywise over the length of `a`.
pub open spec fn lin(c1: int, a: Seq<int>, c2: int, b: Seq<int>) -> Seq<int> {
    Seq::new(a.len(), |i: int| c1 * a[i] + c2 * b[i])
}

/// Every entry lies in `[0, q)`.
pub open spec fn reduced(x: Seq<int>, q: int) -> bool {
    forall|i: int| 0 <= i < x.len() ==> 0 <= #[trigger] x[i] < q
}

pub(crate) proof fn lemma_cong_add(a1: int, a2: int, b1: int, b2: int, q: int)
    requires
        q > 0,
        a1 % q == a2 % q,
        b1 % q == b2 % q,
    ensures
        (a1 + b1) % q == (a2 + b2) % q,
{
    lemma_add_mod_noop(a1, b1, q);
    lemma_add_mod_noop(a2, b2, q);
}

pub(crate) proof fn lemma_cong_sub(a1: int, a2: int, b1: int, b2: int, q: int)
    requires
        q > 0,
        a1 % q == a2 % q,
        b1 % q == b2 % q,
    ensures
        (a1 - b1) % q == (a2 - b2) % q,
{
    lemma_sub_mod_noop(a1, b1, q);
    lemma_sub_mod_noop(a2, b2, q);
}

pub(crate) proof fn lemma_cong_mul(a1: int, a2: int, b1: int, b2: int, q: int)
    requires
        q > 0,
        a1 % q == a2 % q,
        b1 % q == b2 % q,
    ensures
        (a1 * b1) % q == (a2 * b2) % q,
{
    lemma_mul_mod_noop(a1, b1, q);
    lemma_mul_mod_noop(a2, b2, q);
}

/// `c1 * (u % q) + c2 * (v % q) = c1 * u + c2 * v (mod q)`.
proof fn lemma_cong_lin_mod(c1: int, u: int, c2: int, v: int, q: int)
    requires
        q > 0,
    ensures
        (c1 * (u % q) + c2 * (v % q)) % q == (c1 * u + c2 * v) % q,
{
    lemma_mod_twice(u, q);
    lemma_mod_twice(v, q);
    lemma_cong_mul(c1, c1, u % q, u, q);
    lemma_cong_mul(c2, c2, v % q, v, q);
    lemma_cong_add(c1 * (u % q), c1 * u, c2 * (v % q), c2 * v, q);
}

proof fn lemma_swap3(x: int, y: int, w: int)
    ensures
        x * (y * w) == y * (x * w),
{
    vstd::arithmetic::mul::lemma_mul_is_associative(x, y, w);
    vstd::arithmetic::mul::lemma_mul_is_associative(y, x, w);
    vstd::arithmetic::mul::lemma_mul_is_commutative(x, y);
}

/// `(c1 ai + c2 bi) +- z (c1 aj + c2 bj) = c1 (ai +- z aj) + c2 (bi +- z bj)`.
proof fn lemma_lin_identity(ai: int, aj: int, bi: int, bj: int, z: int, c1: int, c2: int)
    ensures
        (c1 * ai + c2 * bi) + z * (c1 * aj + c2 * bj) == c1 * (ai + z * aj) + c2 * (bi + z * bj),
        (c1 * ai + c2 * bi) - z * (c1 * aj + c2 * bj) == c1 * (ai - z * aj) + c2 * (bi - z * bj),
{
    vstd::arithmetic::mul::lemma_mul_is_distributive_add(z, c1 * aj, c2 * bj);
    lemma_swap3(z, c1, aj);
    lemma_swap3(z, c2, bj);
    vstd::arithmetic::mul::lemma_mul_is_distributive_add(c1, ai, z * aj);
    vstd::arithmetic::mul::lemma_mul_is_distributive_add(c2, bi, z * bj);
    vstd::arithmetic::mul::lemma_mul_is_distributive_sub(c1, ai, z * aj);
    vstd::arithmetic::mul::lemma_mul_is_distributive_sub(c2, bi, z * bj);
}

/// A Cooley-Tukey butterfly is linear mod q.
proof fn lemma_ct_butterfly(xi: int, xj: int, ai: int, aj: int, bi: int, bj: int, z: int, c1: int, c2: int, q: int)
    requires
        q > 0,
        xi % q == (c1 * ai + c2 * bi) % q,
        xj % q == (c1 * aj + c2 * bj) % q,
    ensures
        ((xi + (z * xj) % q) % q) % q == (c1 * ((ai + (z * aj) % q) % q) + c2 * ((bi + (z * bj) % q) % q)) % q,
        ((xi - (z * xj) % q) % q) % q == (c1 * ((ai - (z * aj) % q) % q) + c2 * ((bi - (z * bj) % q) % q)) % q,
{
    lemma_mod_twice(xi + (z * xj) % q, q);
    lemma_mod_twice(xi - (z * xj) % q, q);
    lemma_mod_twice(z * xj, q);
    lemma_mod_twice(z * aj, q);
    lemma_mod_twice(z * bj, q);
    lemma_cong_mul(z, z, xj, c1 * aj + c2 * bj, q);
    let lx = c1 * ai + c2 * bi;
    let rx = z * (c1 * aj + c2 * bj);
    // the x side: xi +- z * xj
    lemma_cong_add(xi, lx, (z * xj) % q, rx, q);
    lemma_cong_sub(xi, lx, (z * xj) % q, rx, q);
    // the a and b sides
    lemma_cong_lin_mod(c1, ai + (z * aj) % q, c2, bi + (z * bj) % q, q);
    lemma_cong_lin_mod(c1, ai - (z * aj) % q, c2, bi - (z * bj) % q, q);
    lemma_cong_add(ai, ai, (z * aj) % q, z * aj, q);
    lemma_cong_add(bi, bi, (z * bj) % q, z * bj, q);
    lemma_cong_sub(ai, ai, (z * aj) % q, z * aj, q);
    lemma_cong_sub(bi, bi, (z * bj) % q, z * bj, q);
    lemma_cong_mul(c1, c1, ai + (z * aj) % q, ai + z * aj, q);
    lemma_cong_mul(c2, c2, bi + (z * bj) % q, bi + z * bj, q);
    lemma_cong_mul(c1, c1, ai - (z * aj) % q, ai - z * aj, q);
    lemma_cong_mul(c2, c2, bi - (z * bj) % q, bi - z * bj, q);
    lemma_cong_add(c1 * (ai + (z * aj) % q), c1 * (ai + z * aj), c2 * (bi + (z * bj) % q), c2 * (bi + z * bj), q);
    lemma_cong_add(c1 * (ai - (z * aj) % q), c1 * (ai - z * aj), c2 * (bi - (z * bj) % q), c2 * (bi - z * bj), q);
    lemma_lin_identity(ai, aj, bi, bj, z, c1, c2);
}

/// A Gentleman-Sande butterfly is linear mod q.
proof fn lemma_gs_butterfly(xi: int, xj: int, ai: int, aj: int, bi: int, bj: int, z: int, c1: int, c2: int, q: int)
    requires
        q > 0,
        xi % q == (c1 * ai + c2 * bi) % q,
        xj % q == (c1 * aj + c2 * bj) % q,
    ensures
        ((xi + xj) % q) % q == (c1 * ((ai + aj) % q) + c2 * ((bi + bj) % q)) % q,
        ((z * ((xi - xj) % q)) % q) % q == (c1 * ((z * ((ai - aj) % q)) % q) + c2 * ((z * ((bi - bj) % q)) % q)) % q,
{
    lemma_mod_twice(xi + xj, q);
    lemma_mod_twice(z * ((xi - xj) % q), q);
    lemma_cong_add(xi, c1 * ai + c2 * bi, xj, c1 * aj + c2 * bj, q);
    lemma_cong_lin_mod(c1, ai + aj, c2, bi + bj, q);
    assert((c1 * ai + c2 * bi) + (c1 * aj + c2 * bj) == c1 * (ai + aj) + c2 * (bi + bj)) by (nonlinear_arith);
    // the difference side
    lemma_cong_sub(xi, c1 * ai + c2 * bi, xj, c1 * aj + c2 * bj, q);
    lemma_mod_twice(xi - xj, q);
    lemma_mod_twice(ai - aj, q);
    lemma_mod_twice(bi - bj, q);
    let dx = (c1 * ai + c2 * bi) - (c1 * aj + c2 * bj);
    lemma_cong_mul(z, z, (xi - xj) % q, dx, q);
    lemma_cong_lin_mod(c1, z * ((ai - aj) % q), c2, z * ((bi - bj) % q), q);
    lemma_cong_mul(z, z, (ai - aj) % q, ai - aj, q);
    lemma_cong_mul(z, z, (bi - bj) % q, bi - bj, q);
    lemma_cong_mul(c1, c1, z * ((ai - aj) % q), z * (ai - aj), q);
    lemma_cong_mul(c2, c2, z * ((bi - bj) % q), z * (bi - bj), q);
    lemma_cong_add(c1 * (z * ((ai - aj) % q)), c1 * (z * (ai - aj)), c2 * (z * ((bi - bj) % q)), c2 * (z * (bi - bj)), q);
    lemma_lin_identity(ai, aj, bi, bj, 1, c1, c2);
    lemma_swap3(z, c1, ai - aj);
    lemma_swap3(z, c2, bi - bj);
    vstd::arithmetic::mul::lemma_mul_is_distributive_add(z, c1 * (ai - aj), c2 * (bi - bj));
    assert(1 * aj == aj && 1 * bj == bj && 1 * (c1 * aj + c2 * bj) == c1 * aj + c2 * bj);
    assert(dx == c1 * (ai - aj) + c2 * (bi - bj));
}

/// A Cooley-Tukey layer maps `c1 a + c2 b` to `c1 ct(a) + c2 ct(b)`, mod q.
proof fn lemma_ct_layer_lin(x: Seq<int>, a: Seq<int>, b: Seq<int>, c1: int, c2: int, zetas: Seq<i64>, q: int, len: int)
    requires
        q >= 2,
        len >= 1,
        (a.len() as int) % (2 * len) == 0,
        zetas.len() == a.len(),
        b.len() == a.len(),
        eqm(x, lin(c1, a, c2, b), q),
    ensures
        eqm(ct_layer(x, zetas, q, len), lin(c1, ct_layer(a, zetas, q, len), c2, ct_layer(b, zetas, q, len)), q),
{
    let n = a.len() as int;
    let ox = ct_layer(x, zetas, q, len);
    let oa = ct_layer(a, zetas, q, len);
    let ob = ct_layer(b, zetas, q, len);
    let l = lin(c1, oa, c2, ob);
    assert forall|i: int| 0 <= i < n implies #[trigger] ox[i] % q == l[i] % q by {
        lemma_layer_shape(n, len, i);
        lemma_in_block(i, len);
        let z = zetas[n / (2 * len) + i / (2 * len)] as int;
        if i % (2 * len) < len {
            assert(x[i] % q == lin(c1, a, c2, b)[i] % q);
            assert(x[i + len] % q == lin(c1, a, c2, b)[i + len] % q);
            lemma_ct_butterfly(x[i], x[i + len], a[i], a[i + len], b[i], b[i + len], z, c1, c2, q);
            lemma_mod_twice(ox[i], q);
        } else {
            lemma_in_block(i - len, len);
            assert(x[i] % q == lin(c1, a, c2, b)[i] % q);
            assert(x[i - len] % q == lin(c1, a, c2, b)[i - len] % q);
            lemma_ct_butterfly(x[i - len], x[i], a[i - len], a[i], b[i - len], b[i], z, c1, c2, q);
            lemma_mod_twice(ox[i], q);
        }
    }
}

/// A Gentleman-Sande layer maps `c1 a + c2 b` to `c1 gs(a) + c2 gs(b)`, mod q.
proof fn lemma_gs_layer_lin(x: Seq<int>, a: Seq<int>, b: Seq<int>, c1: int, c2: int, zinv: Seq<i64>, q: int, len: int)
    requires
        q >= 2,
        len >= 1,
        (a.len() as int) % (2 * len) == 0,
        zinv.len() == a.len(),
        b.len() == a.len(),
        eqm(x, lin(c1, a, c2, b), q),
    ensures
        eqm(gs_layer(x, zinv, q, len), lin(c1, gs_layer(a, zinv, q, len), c2, gs_layer(b, zinv, q, len)), q),
{
    let n = a.len() as int;
    let ox = gs_layer(x, zinv, q, len);
    let oa = gs_layer(a, zinv, q, len);
    let ob = gs_layer(b, zinv, q, len);
    let l = lin(c1, oa, c2, ob);
    assert forall|i: int| 0 <= i < n implies #[trigger] ox[i] % q == l[i] % q by {
        lemma_layer_shape(n, len, i);
        lemma_in_block(i, len);
        let z = zinv[n / len - 1 - i / (2 * len)] as int;
        if i % (2 * len) < len {
            assert(x[i] % q == lin(c1, a, c2, b)[i] % q);
            assert(x[i + len] % q == lin(c1, a, c2, b)[i + len] % q);
            lemma_gs_butterfly(x[i], x[i + len], a[i], a[i + len], b[i], b[i + len], z, c1, c2, q);
            lemma_mod_twice(ox[i], q);
        } else {
            lemma_in_block(i - len, len);
            assert(x[i] % q == lin(c1, a, c2, b)[i] % q);
            assert(x[i - len] % q == lin(c1, a, c2, b)[i - len] % q);
            lemma_gs_butterfly(x[i - len], x[i], a[i - len], a[i], b[i - len], b[i], z, c1, c2, q);
            lemma_mod_twice(ox[i], q);
        }
    }
}

/// The Cooley-Tukey layers keep the length.
pub proof fn lemma_ct_from_len(x: Seq<int>, zetas: Seq<i64>, q: int, len: int)
    ensures
        ct_from(x, zetas, q, len).len() == x.len(),
    decreases len,
{
    if len >= 1 {
        lemma_ct_from_len(ct_layer(x, zetas, q, len), zetas, q, len / 2);
    }
}

/// The Gentleman-Sande layers keep the length.
pub proof fn lemma_gs_from_len(x: Seq<int>, zinv: Seq<i64>, q: int, len: int)
    ensures
        gs_from(x, zinv, q, len).len() == x.len(),
    decreases x.len() - len,
{
    if len >= 1 && 2 * len <= x.len() {
        lemma_gs_from_len(gs_layer(x, zinv, q, len), zinv, q, 2 * len);
    }
}

/// `2 * pow2(i)` divides `pow2(k)` for `i < k`.
proof fn lemma_block_divides(k: nat, i: nat)
    requires
        i < k,
    ensures
        pow2(k) as int % (2 * pow2(i) as int) == 0,
        pow2(i + 1) == 2 * pow2(i),
        pow2(i) >= 1,
        2 * pow2(i) <= pow2(k),
{
    lemma_pow2_divides(k, i + 1);
    vstd::arithmetic::power2::lemma_pow2_unfold(i + 1);
}

/// The Cooley-Tukey layers from half-width `2^i` down to 1 are linear mod q.
proof fn lemma_ct_from_lin(
    x: Seq<int>,
    a: Seq<int>,
    b: Seq<int>,
    c1: int,
    c2: int,
    zetas: Seq<i64>,
    q: int,
    k: nat,
    i: nat,
)
    requires
        q >= 2,
        i < k,
        a.len() == pow2(k),
        zetas.len() == a.len(),
        b.len() == a.len(),
        eqm(x, lin(c1, a, c2, b), q),
    ensures
        eqm(
            ct_from(x, zetas, q, pow2(i) as int),
            lin(c1, ct_from(a, zetas, q, pow2(i) as int), c2, ct_from(b, zetas, q, pow2(i) as int)),
            q,
        ),
    decreases i,
{
    let len = pow2(i) as int;
    lemma_block_divides(k, i);
    lemma_ct_layer_lin(x, a, b, c1, c2, zetas, q, len);
    let x1 = ct_layer(x, zetas, q, len);
    let a1 = ct_layer(a, zetas, q, len);
    let b1 = ct_layer(b, zetas, q, len);
    assert(ct_from(x, zetas, q, len) == ct_from(x1, zetas, q, len / 2));
    assert(ct_from(a, zetas, q, len) == ct_from(a1, zetas, q, len / 2));
    assert(ct_from(b, zetas, q, len) == ct_from(b1, zetas, q, len / 2));
    if i == 0 {
        vstd::arithmetic::power2::lemma2_to64();
        assert(len / 2 == 0);
    } else {
        vstd::arithmetic::power2::lemma_pow2_unfold(i);
        assert(len / 2 == pow2((i - 1) as nat));
        lemma_ct_from_lin(x1, a1, b1, c1, c2, zetas, q, k, (i - 1) as nat);
    }
}

/// The Gentleman-Sande layers from half-width `2^i` up are linear mod q.
proof fn lemma_gs_from_lin(
    x: Seq<int>,
    a: Seq<int>,
    b: Seq<int>,
    c1: int,
    c2: int,
    zinv: Seq<i64>,
    q: int,
    k: nat,
    i: nat,
)
    requires
        q >= 2,
        i <= k,
        a.len() == pow2(k),
        zinv.len() == a.len(),
        b.len() == a.len(),
        eqm(x, lin(c1, a, c2, b), q),
    ensures
        eqm(
            gs_from(x, zinv, q, pow2(i) as int),
            lin(c1, gs_from(a, zinv, q, pow2(i) as int), c2, gs_from(b, zinv, q, pow2(i) as int)),
            q,
        ),
    decreases k - i,
{
    let len = pow2(i) as int;
    vstd::arithmetic::power2::lemma_pow2_pos(i);
    if i == k {
        assert(2 * len > a.len());
        assert(gs_from(x, zinv, q, len) == x);
        assert(gs_from(a, zinv, q, len) == a);
        assert(gs_from(b, zinv, q, len) == b);
    } else {
        lemma_block_divides(k, i);
        lemma_gs_layer_lin(x, a, b, c1, c2, zinv, q, len);
        let x1 = gs_layer(x, zinv, q, len);
        let a1 = gs_layer(a, zinv, q, len);
        let b1 = gs_layer(b, zinv, q, len);
        assert(gs_from(x, zinv, q, len) == gs_from(x1, zinv, q, 2 * len));
        assert(gs_from(a, zinv, q, len) == gs_from(a1, zinv, q, 2 * len));
        assert(gs_from(b, zinv, q, len) == gs_from(b1, zinv, q, 2 * len));
        lemma_gs_from_lin(x1, a1, b1, c1, c2, zinv, q, k, i + 1);
    }
}

/// The forward transform is linear mod q.
pub proof fn lemma_ntt_lin(x: Seq<int>, a: Seq<int>, b: Seq<int>, c1: int, c2: int, zetas: Seq<i64>, q: int, k: nat)
    requires
        q >= 2,
        k >= 1,
        a.len() == pow2(k),
        zetas.len() == a.len(),
        b.len() == a.len(),
        eqm(x, lin(c1, a, c2, b), q),
    ensures
        eqm(ntt_spec(x, zetas, q), lin(c1, ntt_spec(a, zetas, q), c2, ntt_spec(b, zetas, q)), q),
{
    vstd::arithmetic::power2::lemma_pow2_unfold(k);
    assert((a.len() as int) / 2 == pow2((k - 1) as nat));
    lemma_ct_from_lin(x, a, b, c1, c2, zetas, q, k, (k - 1) as nat);
}

/// The inverse transform is linear mod q.
pub proof fn lemma_inv_ntt_lin(
    x: Seq<int>,
    a: Seq<int>,
    b: Seq<int>,
    c1: int,
    c2: int,
    zinv: Seq<i64>,
    n_inv: int,
    q: int,
    k: nat,
)
    requires
        q >= 2,
        a.len() == pow2(k),
        zinv.len() == a.len(),
        b.len() == a.len(),
        eqm(x, lin(c1, a, c2, b), q),
    ensures
        eqm(inv_ntt_spec(x, zinv, n_inv, q), lin(c1, inv_ntt_spec(a, zinv, n_inv, q), c2, inv_ntt_spec(b, zinv, n_inv, q)), q),
{
    vstd::arithmetic::power2::lemma2_to64();
    lemma_gs_from_lin(x, a, b, c1, c2, zinv, q, k, 0);
    lemma_gs_from_len(x, zinv, q, 1);
    lemma_gs_from_len(a, zinv, q, 1);
    lemma_gs_from_len(b, zinv, q, 1);
    let gx = gs_from(x, zinv, q, 1);
    let ga = gs_from(a, zinv, q, 1);
    let gb = gs_from(b, zinv, q, 1);
    let ix = inv_ntt_spec(x, zinv, n_inv, q);
    let ia = inv_ntt_spec(a, zinv, n_inv, q);
    let ib = inv_ntt_spec(b, zinv, n_inv, q);
    let l = lin(c1, ia, c2, ib);
    assert forall|i: int| 0 <= i < ix.len() implies #[trigger] ix[i] % q == l[i] % q by {
        assert(gx[i] % q == lin(c1, ga, c2, gb)[i] % q);
        lemma_cong_mul(gx[i], c1 * ga[i] + c2 * gb[i], n_inv, n_inv, q);
        lemma_cong_lin_mod(c1, ga[i] * n_inv, c2, gb[i] * n_inv, q);
        assert((c1 * ga[i] + c2 * gb[i]) * n_inv == c1 * (ga[i] * n_inv) + c2 * (gb[i] * n_inv)) by {
            vstd::arithmetic::mul::lemma_mul_is_distributive_add_other_way(n_inv, c1 * ga[i], c2 * gb[i]);
            vstd::arithmetic::mul::lemma_mul_is_associative(c1, ga[i], n_inv);
            vstd::arithmetic::mul::lemma_mul_is_associative(c2, gb[i], n_inv);
        }
        lemma_mod_twice(gx[i] * n_inv, q);
    }
}

/// Two reduced sequences that agree mod q are equal.
pub proof fn lemma_eqm_reduced_eq(x: Seq<int>, y: Seq<int>, q: int)
    requires
        q >= 1,
        eqm(x, y, q),
        reduced(x, q),
        reduced(y, q),
    ensures
        x == y,
{
    assert forall|i: int| 0 <= i < x.len() implies x[i] == y[i] by {
        vstd::arithmetic::div_mod::lemma_small_mod(x[i] as nat, q as nat);
        vstd::arithmetic::div_mod::lemma_small_mod(y[i] as nat, q as nat);
    }
    assert(x =~= y);
}

/// At least one Cooley-Tukey layer leaves every entry in `[0, q)`.
proof fn lemma_ct_from_reduced(x: Seq<int>, zetas: Seq<i64>, q: int, i: nat)
    requires
        q >= 1,
    ensures
        reduced(ct_from(x, zetas, q, pow2(i) as int), q),
    decreases i,
{
    let len = pow2(i) as int;
    vstd::arithmetic::power2::lemma_pow2_pos(i);
    let x1 = ct_layer(x, zetas, q, len);
    assert(ct_from(x, zetas, q, len) == ct_from(x1, zetas, q, len / 2));
    if i == 0 {
        vstd::arithmetic::power2::lemma2_to64();
        assert(ct_from(x1, zetas, q, 0) == x1);
    } else {
        vstd::arithmetic::power2::lemma_pow2_unfold(i);
        lemma_ct_from_reduced(x1, zetas, q, (i - 1) as nat);
    }
}

/// The forward transform's entries lie in `[0, q)`.
pub proof fn lemma_ntt_reduced(x: Seq<int>, zetas: Seq<i64>, q: int, k: nat)
    requires
        q >= 1,
        k >= 1,
        x.len() == pow2(k),
    ensures
        reduced(ntt_spec(x, zetas, q), q),
        ntt_spec(x, zetas, q).len() == x.len(),
{
    vstd::arithmetic::power2::lemma_pow2_unfold(k);
    assert((x.len() as int) / 2 == pow2((k - 1) as nat));
    lemma_ct_from_reduced(x, zetas, q, (k - 1) as nat);
    lemma_ct_from_len(x, zetas, q, (x.len() as int) / 2);
}

/// The inverse transform's entries lie in `[0, q)`.
pub proof fn lemma_inv_ntt_reduced(x: Seq<int>, zinv: Seq<i64>, n_inv: int, q: int)
    requires
        q >= 1,
    ensures
        reduced(inv_ntt_spec(x, zinv, n_inv, q), q),
        inv_ntt_spec(x, zinv, n_inv, q).len() == x.len(),
{
    lemma_gs_from_len(x, zinv, q, 1);
}

/// Agreeing inputs mod q give the same forward transform.
pub proof fn lemma_ntt_cong(x: Seq<int>, y: Seq<int>, zetas: Seq<i64>, q: int, k: nat)
    requires
        q >= 2,
        k >= 1,
        y.len() == pow2(k),
        zetas.len() == y.len(),
        eqm(x, y, q),
    ensures
        ntt_spec(x, zetas, q) == ntt_spec(y, zetas, q),
{
    assert(eqm(x, lin(1, y, 0, y), q)) by {
        assert forall|i: int| 0 <= i < y.len() implies #[trigger] lin(1, y, 0, y)[i] == y[i] by {}
    }
    lemma_ntt_lin(x, y, y, 1, 0, zetas, q, k);
    lemma_ntt_reduced(x, zetas, q, k);
    lemma_ntt_reduced(y, zetas, q, k);
    let fy = ntt_spec(y, zetas, q);
    assert(eqm(lin(1, fy, 0, fy), fy, q)) by {
        assert forall|i: int| 0 <= i < fy.len() implies #[trigger] lin(1, fy, 0, fy)[i] == fy[i] by {}
    }
    lemma_eqm_reduced_eq(ntt_spec(x, zetas, q), fy, q);
}

/// Agreeing inputs mod q give the same inverse transform.
pub proof fn lemma_inv_ntt_cong(x: Seq<int>, y: Seq<int>, zinv: Seq<i64>, n_inv: int, q: int, k: nat)
    requires
        q >= 2,
        y.len() == pow2(k),
        zinv.len() == y.len(),
        eqm(x, y, q),
    ensures
        inv_ntt_spec(x, zinv, n_inv, q) == inv_ntt_spec(y, zinv, n_inv, q),
{
    assert(eqm(x, lin(1, y, 0, y), q)) by {
        assert forall|i: int| 0 <= i < y.len() implies #[trigger] lin(1, y, 0, y)[i] == y[i] by {}
    }
    lemma_inv_ntt_lin(x, y, y, 1, 0, zinv, n_inv, q, k);
    lemma_inv_ntt_reduced(x, zinv, n_inv, q);
    lemma_inv_ntt_reduced(y, zinv, n_inv, q);
    let iy = inv_ntt_spec(y, zinv, n_inv, q);
    assert(eqm(lin(1, iy, 0, iy), iy, q)) by {
        assert forall|i: int| 0 <= i < iy.len() implies #[trigger] lin(1, iy, 0, iy)[i] == iy[i] by {}
    }
    lemma_eqm_reduced_eq(inv_ntt_spec(x, zinv, n_inv, q), iy, q);
}

/// A Cooley-Tukey butterfly with twiddle `z` undoes a Gentleman-Sande one with `zi` when
/// `zi * z = 1 (mod q)`, up to a factor 2.
proof fn lemma_ct_gs_pair(w0: int, w1: int, z: int, zi: int, q: int)
    requires
        q >= 2,
        (zi * z) % q == 1,
    ensures
        (((w0 + w1) % q) + (z * ((zi * ((w0 - w1) % q)) % q)) % q) % q == (2 * w0) % q,
        (((w0 + w1) % q) - (z * ((zi * ((w0 - w1) % q)) % q)) % q) % q == (2 * w1) % q,
{
    let d = (w0 - w1) % q;
    let y1 = (zi * d) % q;
    lemma_mul_mod_noop_right(z, zi * d, q);
    assert(z * (zi * d) == (zi * z) * d) by {
        lemma_swap3(z, zi, d);
        vstd::arithmetic::mul::lemma_mul_is_associative(zi, z, d);
    }
    lemma_mul_mod_noop_left(zi * z, d, q);
    assert(1 * d == d);
    lemma_mod_twice(w0 - w1, q);
    assert((z * y1) % q == d);
    lemma_add_mod_noop(w0 + w1, w0 - w1, q);
    lemma_mod_twice(w0 + w1, q);
    lemma_cong_add((w0 + w1) % q, w0 + w1, d, w0 - w1, q);
    lemma_cong_sub((w0 + w1) % q, w0 + w1, d, w0 - w1, q);
}

/// A Cooley-Tukey layer undoes the Gentleman-Sande layer of the same width, up to a factor 2.
proof fn lemma_ct_undoes_gs(w: Seq<int>, zetas: Seq<i64>, zinv: Seq<i64>, q: int, len: int)
    requires
        q >= 2,
        len >= 1,
        (w.len() as int) % (2 * len) == 0,
        zetas.len() == w.len(),
        zinv.len() == w.len(),
        pairs_at(zetas, zinv, q, w.len() as int, len),
    ensures
        eqm(ct_layer(gs_layer(w, zinv, q, len), zetas, q, len), lin(2, w, 0, w), q),
{
    let n = w.len() as int;
    let y = gs_layer(w, zinv, q, len);
    let o = ct_layer(y, zetas, q, len);
    let l = lin(2, w, 0, w);
    assert forall|x: int| 0 <= x < n implies #[trigger] o[x] % q == l[x] % q by {
        lemma_layer_shape(n, len, x);
        lemma_in_block(x, len);
        let b = x / (2 * len);
        let z = zetas[n / (2 * len) + b] as int;
        let zi = zinv[n / len - 1 - b] as int;
        assert((zi * z) % q == 1);
        lemma_mod_twice(o[x], q);
        assert(l[x] == 2 * w[x] + 0 * w[x]);
        assert(0 * w[x] == 0);
        lemma_mod_twice(2 * w[x], q);
        if x % (2 * len) < len {
            lemma_ct_gs_pair(w[x], w[x + len], z, zi, q);
            assert(y[x] == (w[x] + w[x + len]) % q);
            assert(y[x + len] == (zi * ((w[x] - w[x + len]) % q)) % q);
            assert(o[x] == (y[x] + (z * y[x + len]) % q) % q);
        } else {
            lemma_in_block(x - len, len);
            lemma_ct_gs_pair(w[x - len], w[x], z, zi, q);
            assert(y[x - len] == (w[x - len] + w[x]) % q);
            assert(y[x] == (zi * ((w[x - len] - w[x]) % q)) % q);
            assert(o[x] == (y[x - len] - (z * y[x]) % q) % q);
        }
    }
}

/// The Gentleman-Sande layers of half-width `1, 2, ..., 2^(i-1)`.
pub open spec fn gs_upto(x: Seq<int>, zinv: Seq<i64>, q: int, i: nat) -> Seq<int>
    decreases i,
{
    if i == 0 {
        x
    } else {
        gs_layer(gs_upto(x, zinv, q, (i - 1) as nat), zinv, q, pow2((i - 1) as nat) as int)
    }
}

proof fn lemma_gs_upto_len(x: Seq<int>, zinv: Seq<i64>, q: int, i: nat)
    ensures
        gs_upto(x, zinv, q, i).len() == x.len(),
    decreases i,
{
    if i > 0 {
        lemma_gs_upto_len(x, zinv, q, (i - 1) as nat);
    }
}

/// All inverse layers from half-width 1 are the first `i` followed by those from `2^i`.
proof fn lemma_gs_from_upto(x: Seq<int>, zinv: Seq<i64>, q: int, k: nat, i: nat)
    requires
        x.len() == pow2(k),
        i <= k,
    ensures
        gs_from(gs_upto(x, zinv, q, i), zinv, q, pow2(i) as int) == gs_from(x, zinv, q, 1),
    decreases i,
{
    if i == 0 {
        vstd::arithmetic::power2::lemma2_to64();
    } else {
        let j = (i - 1) as nat;
        lemma_gs_from_upto(x, zinv, q, k, j);
        lemma_block_divides(k, j);
        lemma_gs_upto_len(x, zinv, q, j);
        let w = gs_upto(x, zinv, q, j);
        assert(gs_from(w, zinv, q, pow2(j) as int) == gs_from(gs_layer(w, zinv, q, pow2(j) as int), zinv, q, 2 * pow2(j) as int));
    }
}

/// The forward layers down from `2^(i-1)` after the inverse layers up to `2^(i-1)` scale by
/// `2^i`, mod q.
proof fn lemma_ct_gs_compose(x: Seq<int>, zetas: Seq<i64>, zinv: Seq<i64>, q: int, k: nat, i: nat)
    requires
        q >= 2,
        i <= k,
        x.len() == pow2(k),
        zetas.len() == x.len(),
        zinv.len() == x.len(),
        forall|j: nat| j < k ==> #[trigger] pairs_at(zetas, zinv, q, x.len() as int, pow2(j) as int),
    ensures
        eqm(ct_from(gs_upto(x, zinv, q, i), zetas, q, pow2(i) as int / 2), lin(pow2(i) as int, x, 0, x), q),
    decreases i,
{
    vstd::arithmetic::power2::lemma2_to64();
    lemma_gs_upto_len(x, zinv, q, i);
    if i == 0 {
        assert(ct_from(x, zetas, q, 0) == x);
        assert forall|t: int| 0 <= t < x.len() implies #[trigger] lin(1, x, 0, x)[t] == x[t] by {}
    } else {
        let j = (i - 1) as nat;
        let len = pow2(j) as int;
        vstd::arithmetic::power2::lemma_pow2_unfold(i);
        assert(pow2(i) as int / 2 == len);
        lemma_block_divides(k, j);
        let w = gs_upto(x, zinv, q, j);
        lemma_gs_upto_len(x, zinv, q, j);
        let g = gs_layer(w, zinv, q, len);
        assert(gs_upto(x, zinv, q, i) == g);
        assert(pairs_at(zetas, zinv, q, x.len() as int, len));
        lemma_ct_undoes_gs(w, zetas, zinv, q, len);
        let y = ct_layer(g, zetas, q, len);
        assert(ct_from(g, zetas, q, len) == ct_from(y, zetas, q, len / 2));
        lemma_ct_gs_compose(x, zetas, zinv, q, k, j);
        // ct_from(w, len / 2) = 2^j x, and y = 2 w
        let cw = ct_from(w, zetas, q, len / 2);
        let cy = ct_from(y, zetas, q, len / 2);
        if j == 0 {
            assert(len / 2 == 0);
            assert(cy == y);
            assert(cw == w);
        } else {
            vstd::arithmetic::power2::lemma_pow2_unfold(j);
            assert(len / 2 == pow2((j - 1) as nat));
            lemma_ct_from_lin(y, w, w, 2, 0, zetas, q, k, (j - 1) as nat);
        }
        lemma_ct_from_len(w, zetas, q, len / 2);
        lemma_ct_from_len(y, zetas, q, len / 2);
        let target = lin(pow2(i) as int, x, 0, x);
        assert forall|t: int| 0 <= t < x.len() implies #[trigger] cy[t] % q == target[t] % q by {
            assert(cy[t] % q == lin(2, cw, 0, cw)[t] % q);
            assert(cw[t] % q == lin(len, x, 0, x)[t] % q);
            lemma_cong_mul(2, 2, cw[t], len * x[t] + 0 * x[t], q);
            assert(2 * (len * x[t] + 0 * x[t]) == pow2(i) * x[t] + 0 * x[t]) by {
                vstd::arithmetic::mul::lemma_mul_is_associative(2, len, x[t]);
            }
        }
    }
}

/// The forward transform undoes the inverse transform mod q, when mirrored twiddles pair up
/// at every layer and `n * n_inv = 1 (mod q)`.
pub proof fn lemma_ntt_of_inv_ntt(x: Seq<int>, zetas: Seq<i64>, zinv: Seq<i64>, n_inv: int, q: int, k: nat)
    requires
        q >= 2,
        k >= 1,
        x.len() == pow2(k),
        zetas.len() == x.len(),
        zinv.len() == x.len(),
        forall|j: nat| j < k ==> #[trigger] pairs_at(zetas, zinv, q, x.len() as int, pow2(j) as int),
        (pow2(k) * n_inv) % q == 1,
    ensures
        eqm(ntt_spec(inv_ntt_spec(x, zinv, n_inv, q), zetas, q), x, q),
{
    let n = pow2(k) as int;
    lemma_gs_from_upto(x, zinv, q, k, k);
    lemma_gs_upto_len(x, zinv, q, k);
    let g = gs_upto(x, zinv, q, k);
    vstd::arithmetic::power2::lemma_pow2_pos(k);
    assert(2 * n > n);
    assert(gs_from(g, zinv, q, n) == g);
    assert(gs_from(x, zinv, q, 1) == g);
    let ix = inv_ntt_spec(x, zinv, n_inv, q);
    lemma_inv_ntt_reduced(x, zinv, n_inv, q);
    assert(eqm(ix, lin(n_inv, g, 0, g), q)) by {
        assert forall|t: int| 0 <= t < g.len() implies #[trigger] ix[t] % q == lin(n_inv, g, 0, g)[t] % q by {
            lemma_mod_twice(g[t] * n_inv, q);
            vstd::arithmetic::mul::lemma_mul_is_commutative(g[t], n_inv);
        }
    }
    lemma_ntt_lin(ix, g, g, n_inv, 0, zetas, q, k);
    lemma_ct_gs_compose(x, zetas, zinv, q, k, k);
    let fg = ntt_spec(g, zetas, q);
    let fix = ntt_spec(ix, zetas, q);
    lemma_ntt_reduced(g, zetas, q, k);
    lemma_ntt_reduced(ix, zetas, q, k);
    assert forall|t: int| 0 <= t < x.len() implies #[trigger] fix[t] % q == x[t] % q by {
        assert(fix[t] % q == lin(n_inv, fg, 0, fg)[t] % q);
        assert(fg[t] % q == lin(n, x, 0, x)[t] % q);
        lemma_cong_mul(n_inv, n_inv, fg[t], n * x[t] + 0 * x[t], q);
        assert(n_inv * (n * x[t] + 0 * x[t]) == (n * n_inv) * x[t]) by {
            lemma_swap3(n_inv, n, x[t]);
            vstd::arithmetic::mul::lemma_mul_is_associative(n, n_inv, x[t]);
        }
        lemma_mul_mod_noop_left(n * n_inv, x[t], q);
        assert(1 * x[t] == x[t]);
    }
}

/// What the ring laws need of a transform table: mirrored twiddles pair up at every layer
/// and `n_inv` inverts `n = 2^k` mod q.
pub open spec fn ring_table_ok(zetas: Seq<i64>, zinv: Seq<i64>, n_inv: int, q: int, k: nat) -> bool {
    &&& q >= 2
    &&& k >= 1
    &&& zetas.len() == pow2(k)
    &&& zinv.len() == pow2(k)
    &&& forall|j: nat| j < k ==> #[trigger] pairs_at(zetas, zinv, q, pow2(k) as int, pow2(j) as int)
    &&& (pow2(k) * n_inv) % q == 1
}

/// The NTT-domain product: transform both, multiply pointwise mod q, transform back.
pub open spec fn rmul(a: Seq<int>, b: Seq<int>, zetas: Seq<i64>, zinv: Seq<i64>, n_inv: int, q: int) -> Seq<int> {
    inv_ntt_spec(pointwise(ntt_spec(a, zetas, q), ntt_spec(b, zetas, q), q), zinv, n_inv, q)
}

/// The product has `n` entries, each in `[0, q)`.
pub proof fn lemma_rmul_reduced(a: Seq<int>, b: Seq<int>, zetas: Seq<i64>, zinv: Seq<i64>, n_inv: int, q: int, k: nat)
    requires
        ring_table_ok(zetas, zinv, n_inv, q, k),
        a.len() == pow2(k),
        b.len() == pow2(k),
    ensures
        rmul(a, b, zetas, zinv, n_inv, q).len() == pow2(k),
        reduced(rmul(a, b, zetas, zinv, n_inv, q), q),
{
    lemma_ntt_reduced(a, zetas, q, k);
    lemma_ntt_reduced(b, zetas, q, k);
    lemma_inv_ntt_reduced(pointwise(ntt_spec(a, zetas, q), ntt_spec(b, zetas, q), q), zinv, n_inv, q);
}

/// The transform of a product is the pointwise product of the transforms.
pub proof fn lemma_ntt_of_rmul(a: Seq<int>, b: Seq<int>, zetas: Seq<i64>, zinv: Seq<i64>, n_inv: int, q: int, k: nat)
    requires
        ring_table_ok(zetas, zinv, n_inv, q, k),
        a.len() == pow2(k),
        b.len() == pow2(k),
    ensures
        ntt_spec(rmul(a, b, zetas, zinv, n_inv, q), zetas, q) == pointwise(ntt_spec(a, zetas, q), ntt_spec(b, zetas, q), q),
{
    lemma_ntt_reduced(a, zetas, q, k);
    lemma_ntt_reduced(b, zetas, q, k);
    let p = pointwise(ntt_spec(a, zetas, q), ntt_spec(b, zetas, q), q);
    lemma_ntt_of_inv_ntt(p, zetas, zinv, n_inv, q, k);
    lemma_rmul_reduced(a, b, zetas, zinv, n_inv, q, k);
    lemma_ntt_reduced(rmul(a, b, zetas, zinv, n_inv, q), zetas, q, k);
    lemma_eqm_reduced_eq(ntt_spec(rmul(a, b, zetas, zinv, n_inv, q), zetas, q), p, q);
}

/// The product is commutative.
pub proof fn lemma_rmul_comm(a: Seq<int>, b: Seq<int>, zetas: Seq<i64>, zinv: Seq<i64>, n_inv: int, q: int, k: nat)
    requires
        ring_table_ok(zetas, zinv, n_inv, q, k),
        a.len() == pow2(k),
        b.len() == pow2(k),
    ensures
        rmul(a, b, zetas, zinv, n_inv, q) == rmul(b, a, zetas, zinv, n_inv, q),
{
    lemma_ntt_reduced(a, zetas, q, k);
    lemma_ntt_reduced(b, zetas, q, k);
    let fa = ntt_spec(a, zetas, q);
    let fb = ntt_spec(b, zetas, q);
    assert forall|i: int| 0 <= i < fa.len() implies #[trigger] pointwise(fa, fb, q)[i] == pointwise(fb, fa, q)[i] by {
        vstd::arithmetic::mul::lemma_mul_is_commutative(fa[i], fb[i]);
    }
    assert(pointwise(fa, fb, q) =~= pointwise(fb, fa, q));
}

/// The product is associative.
pub proof fn lemma_rmul_assoc(
    a: Seq<int>,
    b: Seq<int>,
    c: Seq<int>,
    zetas: Seq<i64>,
    zinv: Seq<i64>,
    n_inv: int,
    q: int,
    k: nat,
)
    requires
        ring_table_ok(zetas, zinv, n_inv, q, k),
        a.len() == pow2(k),
        b.len() == pow2(k),
        c.len() == pow2(k),
    ensures
        rmul(rmul(a, b, zetas, zinv, n_inv, q), c, zetas, zinv, n_inv, q) == rmul(
            a,
            rmul(b, c, zetas, zinv, n_inv, q),
            zetas,
            zinv,
            n_inv,
            q,
        ),
{
    lemma_ntt_of_rmul(a, b, zetas, zinv, n_inv, q, k);
    lemma_ntt_of_rmul(b, c, zetas, zinv, n_inv, q, k);
    lemma_ntt_reduced(a, zetas, q, k);
    lemma_ntt_reduced(b, zetas, q, k);
    lemma_ntt_reduced(c, zetas, q, k);
    let fa = ntt_spec(a, zetas, q);
    let fb = ntt_spec(b, zetas, q);
    let fc = ntt_spec(c, zetas, q);
    let l = pointwise(pointwise(fa, fb, q), fc, q);
    let r = pointwise(fa, pointwise(fb, fc, q), q);
    assert forall|i: int| 0 <= i < fa.len() implies #[trigger] l[i] == r[i] by {
        lemma_mul_mod_noop_left(fa[i] * fb[i], fc[i], q);
        lemma_mul_mod_noop_right(fa[i], fb[i] * fc[i], q);
        vstd::arithmetic::mul::lemma_mul_is_associative(fa[i], fb[i], fc[i]);
    }
    assert(l =~= r);
}

/// The product distributes over linear combinations, mod q.
pub proof fn lemma_rmul_lin(
    a: Seq<int>,
    b: Seq<int>,
    c: Seq<int>,
    c1: int,
    c2: int,
    zetas: Seq<i64>,
    zinv: Seq<i64>,
    n_inv: int,
    q: int,
    k: nat,
)
    requires
        ring_table_ok(zetas, zinv, n_inv, q, k),
        a.len() == pow2(k),
        b.len() == pow2(k),
        c.len() == pow2(k),
    ensures
        eqm(
            rmul(a, lin(c1, b, c2, c), zetas, zinv, n_inv, q),
            lin(c1, rmul(a, b, zetas, zinv, n_inv, q), c2, rmul(a, c, zetas, zinv, n_inv, q)),
            q,
        ),
{
    let l = lin(c1, b, c2, c);
    assert(eqm(l, l, q));
    lemma_ntt_lin(l, b, c, c1, c2, zetas, q, k);
    lemma_ntt_reduced(a, zetas, q, k);
    lemma_ntt_reduced(b, zetas, q, k);
    lemma_ntt_reduced(c, zetas, q, k);
    lemma_ntt_reduced(l, zetas, q, k);
    let fa = ntt_spec(a, zetas, q);
    let fb = ntt_spec(b, zetas, q);
    let fc = ntt_spec(c, zetas, q);
    let fl = ntt_spec(l, zetas, q);
    let pl = pointwise(fa, fl, q);
    let pb = pointwise(fa, fb, q);
    let pc = pointwise(fa, fc, q);
    assert forall|i: int| 0 <= i < pl.len() implies #[trigger] pl[i] % q == lin(c1, pb, c2, pc)[i] % q by {
        assert(fl[i] % q == lin(c1, fb, c2, fc)[i] % q);
        lemma_mod_twice(fa[i] * fl[i], q);
        lemma_cong_mul(fa[i], fa[i], fl[i], c1 * fb[i] + c2 * fc[i], q);
        lemma_cong_lin_mod(c1, fa[i] * fb[i], c2, fa[i] * fc[i], q);
        assert(fa[i] * (c1 * fb[i] + c2 * fc[i]) == c1 * (fa[i] * fb[i]) + c2 * (fa[i] * fc[i])) by {
            vstd::arithmetic::mul::lemma_mul_is_distributive_add(fa[i], c1 * fb[i], c2 * fc[i]);
            lemma_swap3(fa[i], c1, fb[i]);
            lemma_swap3(fa[i], c2, fc[i]);
        }
    }
    lemma_inv_ntt_lin(pl, pb, pc, c1, c2, zinv, n_inv, q, k);
}

/// Agreeing factors mod q give the same product.
pub proof fn lemma_rmul_cong(
    a: Seq<int>,
    a2: Seq<int>,
    b: Seq<int>,
    zetas: Seq<i64>,
    zinv: Seq<i64>,
    n_inv: int,
    q: int,
    k: nat,
)
    requires
        ring_table_ok(zetas, zinv, n_inv, q, k),
        a.len() == pow2(k),
        b.len() == pow2(k),
        eqm(a2, a, q),
    ensures
        rmul(a2, b, zetas, zinv, n_inv, q) == rmul(a, b, zetas, zinv, n_inv, q),
        rmul(b, a2, zetas, zinv, n_inv, q) == rmul(b, a, zetas, zinv, n_inv, q),
{
    lemma_ntt_cong(a2, a, zetas, q, k);
}

/// The zero vector of length `n`.
pub open spec fn vzero(n: nat) -> Seq<int> {
    Seq::new(n, |i: int| 0int)
}

/// `f(0) + f(1) + ... + f(m - 1)`, entrywise over length `n`.
pub open spec fn ssum(f: spec_fn(int) -> Seq<int>, m: nat, n: nat) -> Seq<int>
    decreases m,
{
    if m == 0 {
        vzero(n)
    } else {
        lin(1, ssum(f, (m - 1) as nat, n), 1, f(m - 1))
    }
}

pub proof fn lemma_ssum_len(f: spec_fn(int) -> Seq<int>, m: nat, n: nat)
    ensures
        ssum(f, m, n).len() == n,
    decreases m,
{
    if m > 0 {
        lemma_ssum_len(f, (m - 1) as nat, n);
    }
}

/// `eqm` is an equivalence.
pub proof fn lemma_eqm_trans(x: Seq<int>, y: Seq<int>, z: Seq<int>, q: int)
    requires
        eqm(x, y, q),
        eqm(y, z, q),
    ensures
        eqm(x, z, q),
{
    assert forall|i: int| 0 <= i < x.len() implies #[trigger] x[i] % q == z[i] % q by {
        assert(x[i] % q == y[i] % q);
        assert(y[i] % q == z[i] % q);
    }
}

pub proof fn lemma_eqm_sym(x: Seq<int>, y: Seq<int>, q: int)
    requires
        eqm(x, y, q),
    ensures
        eqm(y, x, q),
{
    assert forall|i: int| 0 <= i < y.len() implies #[trigger] y[i] % q == x[i] % q by {
        assert(x[i] % q == y[i] % q);
    }
}

/// Linear combinations of agreeing vectors agree.
pub proof fn lemma_lin_cong(a: Seq<int>, a2: Seq<int>, b: Seq<int>, b2: Seq<int>, c1: int, c2: int, q: int)
    requires
        q > 0,
        eqm(a, a2, q),
        eqm(b, b2, q),
        a.len() == b.len(),
    ensures
        eqm(lin(c1, a, c2, b), lin(c1, a2, c2, b2), q),
{
    assert forall|i: int| 0 <= i < a.len() implies #[trigger] lin(c1, a, c2, b)[i] % q == lin(c1, a2, c2, b2)[i] % q by {
        assert(a[i] % q == a2[i] % q);
        assert(b[i] % q == b2[i] % q);
        lemma_cong_mul(c1, c1, a[i], a2[i], q);
        lemma_cong_mul(c2, c2, b[i], b2[i], q);
        lemma_cong_add(c1 * a[i], c1 * a2[i], c2 * b[i], c2 * b2[i], q);
    }
}

/// Sums of agreeing terms agree.
pub proof fn lemma_ssum_cong(f: spec_fn(int) -> Seq<int>, g: spec_fn(int) -> Seq<int>, m: nat, n: nat, q: int)
    requires
        q > 0,
        forall|j: int| 0 <= j < m ==> eqm(#[trigger] f(j), g(j), q) && f(j).len() == n,
    ensures
        eqm(ssum(f, m, n), ssum(g, m, n), q),
    decreases m,
{
    if m > 0 {
        lemma_ssum_cong(f, g, (m - 1) as nat, n, q);
        lemma_ssum_len(f, (m - 1) as nat, n);
        lemma_ssum_len(g, (m - 1) as nat, n);
        assert(eqm(f(m - 1), g(m - 1), q));
        lemma_lin_cong(ssum(f, (m - 1) as nat, n), ssum(g, (m - 1) as nat, n), f(m - 1), g(m - 1), 1, 1, q);
    }
}

/// The sum of termwise sums is the sum of the two sums.
pub proof fn lemma_ssum_add(f: spec_fn(int) -> Seq<int>, g: spec_fn(int) -> Seq<int>, m: nat, n: nat)
    requires
        forall|j: int| 0 <= j < m ==> (#[trigger] f(j)).len() == n,
    ensures
        ssum(|j: int| lin(1, f(j), 1, g(j)), m, n) == lin(1, ssum(f, m, n), 1, ssum(g, m, n)),
    decreases m,
{
    let h = |j: int| lin(1, f(j), 1, g(j));
    lemma_ssum_len(f, m, n);
    lemma_ssum_len(g, m, n);
    lemma_ssum_len(h, m, n);
    if m == 0 {
        assert(ssum(h, 0, n) =~= lin(1, ssum(f, 0, n), 1, ssum(g, 0, n)));
    } else {
        lemma_ssum_add(f, g, (m - 1) as nat, n);
        lemma_ssum_len(f, (m - 1) as nat, n);
        lemma_ssum_len(g, (m - 1) as nat, n);
        assert(ssum(h, m, n) =~= lin(1, ssum(f, m, n), 1, ssum(g, m, n)));
    }
}

/// Double sums can be taken in either order.
pub proof fn lemma_ssum_swap(t: spec_fn(int, int) -> Seq<int>, m1: nat, m2: nat, n: nat)
    requires
        forall|i: int, j: int| 0 <= i < m1 && 0 <= j < m2 ==> (#[trigger] t(i, j)).len() == n,
    ensures
        ssum(|i: int| ssum(|j: int| t(i, j), m2, n), m1, n) == ssum(|j: int| ssum(|i: int| t(i, j), m1, n), m2, n),
    decreases m1,
{
    let rows = |i: int| ssum(|j: int| t(i, j), m2, n);
    let cols = |j: int| ssum(|i: int| t(i, j), m1, n);
    if m1 == 0 {
        assert forall|j: int| 0 <= j < m2 implies #[trigger] cols(j) == vzero(n) by {}
        lemma_ssum_zero(cols, m2, n);
        assert(ssum(rows, 0, n) == vzero(n));
    } else {
        let m = (m1 - 1) as nat;
        lemma_ssum_swap(t, m, m2, n);
        let cols0 = |j: int| ssum(|i: int| t(i, j), m, n);
        let last = |j: int| t(m as int, j);
        // cols(j) = cols0(j) + t(m, j)
        assert forall|j: int| 0 <= j < m2 implies #[trigger] cols(j) == lin(1, cols0(j), 1, last(j)) by {
            assert(ssum(|i: int| t(i, j), m1, n) == lin(1, ssum(|i: int| t(i, j), m, n), 1, t(m as int, j)));
        }
        assert forall|j: int| 0 <= j < m2 implies (#[trigger] cols0(j)).len() == n by {
            lemma_ssum_len(|i: int| t(i, j), m, n);
        }
        lemma_ssum_add(cols0, last, m2, n);
        lemma_ssum_ext(cols, |j: int| lin(1, cols0(j), 1, last(j)), m2, n);
        assert(rows(m as int) == ssum(last, m2, n)) by {
            assert(last =~= |j: int| t(m as int, j));
        }
        assert(ssum(|i: int| ssum(|j: int| t(i, j), m2, n), m, n) == ssum(cols0, m2, n));
    }
}

/// Sums of zero vectors are zero.
proof fn lemma_ssum_zero(f: spec_fn(int) -> Seq<int>, m: nat, n: nat)
    requires
        forall|j: int| 0 <= j < m ==> #[trigger] f(j) == vzero(n),
    ensures
        ssum(f, m, n) == vzero(n),
    decreases m,
{
    if m > 0 {
        lemma_ssum_zero(f, (m - 1) as nat, n);
        assert(ssum(f, m, n) =~= vzero(n));
    }
}

/// Sums over terms that agree on `0..m` are equal.
pub proof fn lemma_ssum_ext(f: spec_fn(int) -> Seq<int>, g: spec_fn(int) -> Seq<int>, m: nat, n: nat)
    requires
        forall|j: int| 0 <= j < m ==> #[trigger] f(j) == g(j),
    ensures
        ssum(f, m, n) == ssum(g, m, n),
    decreases m,
{
    if m > 0 {
        lemma_ssum_ext(f, g, (m - 1) as nat, n);
        assert(f(m - 1) == g(m - 1));
    }
}

/// Multiplying a sum multiplies each term, mod q.
pub proof fn lemma_rmul_ssum(
    x: Seq<int>,
    f: spec_fn(int) -> Seq<int>,
    m: nat,
    zetas: Seq<i64>,
    zinv: Seq<i64>,
    n_inv: int,
    q: int,
    k: nat,
)
    requires
        ring_table_ok(zetas, zinv, n_inv, q, k),
        x.len() == pow2(k),
        forall|j: int| 0 <= j < m ==> (#[trigger] f(j)).len() == pow2(k),
    ensures
        eqm(
            rmul(x, ssum(f, m, pow2(k)), zetas, zinv, n_inv, q),
            ssum(|j: int| rmul(x, f(j), zetas, zinv, n_inv, q), m, pow2(k)),
            q,
        ),
        eqm(
            rmul(ssum(f, m, pow2(k)), x, zetas, zinv, n_inv, q),
            ssum(|j: int| rmul(x, f(j), zetas, zinv, n_inv, q), m, pow2(k)),
            q,
        ),
    decreases m,
{
    let n = pow2(k);
    let g = |j: int| rmul(x, f(j), zetas, zinv, n_inv, q);
    lemma_ssum_len(f, m, n);
    lemma_ssum_len(g, m, n);
    lemma_rmul_comm(ssum(f, m, n), x, zetas, zinv, n_inv, q, k);
    if m == 0 {
        assert(vzero(n) =~= lin(0, x, 0, x));
        lemma_rmul_lin(x, x, x, 0, 0, zetas, zinv, n_inv, q, k);
        lemma_rmul_reduced(x, x, zetas, zinv, n_inv, q, k);
        let r = rmul(x, x, zetas, zinv, n_inv, q);
        assert(lin(0, r, 0, r) =~= vzero(n));
    } else {
        let m0 = (m - 1) as nat;
        lemma_rmul_ssum(x, f, m0, zetas, zinv, n_inv, q, k);
        lemma_ssum_len(f, m0, n);
        lemma_ssum_len(g, m0, n);
        let sm = ssum(f, m0, n);
        lemma_rmul_lin(x, sm, f(m0 as int), 1, 1, zetas, zinv, n_inv, q, k);
        lemma_rmul_reduced(x, sm, zetas, zinv, n_inv, q, k);
        lemma_rmul_reduced(x, f(m0 as int), zetas, zinv, n_inv, q, k);
        let rs = rmul(x, sm, zetas, zinv, n_inv, q);
        let rf = rmul(x, f(m0 as int), zetas, zinv, n_inv, q);
        assert(eqm(rf, rf, q));
        lemma_lin_cong(rs, ssum(g, m0, n), rf, rf, 1, 1, q);
        assert(g(m0 as int) == rf);
        lemma_eqm_trans(
            rmul(x, ssum(f, m, n), zetas, zinv, n_inv, q),
            lin(1, rs, 1, rf),
            ssum(g, m, n),
            q,
        );
    }
}

} // verus!
