//! The inverse transform undoes the forward one: each Gentleman-Sande layer undoes the
//! Cooley-Tukey layer of the same width up to a factor 2, because the twiddles of mirrored
//! blocks multiply to 1 mod q.
use crate::custom_kem_ntt::{
    bit_rev, ct_from, ct_layer, gs_from, gs_layer, inv_ntt_spec, is_negacyclic_root, ntt_spec, table_from_root, table_wf,
};
use crate::ntt::{dsa_root, table256_from_root, table256_wf};
use crate::poly::N;
use crate::dsa_params::is_prime_spec;
use crate::prime_field::lemma_fermat_inverse;
use vstd::arithmetic::power::pow;
use vstd::arithmetic::power2::pow2;
use vstd::prelude::*;

verus! {

proof fn lemma_bit_rev_zero(k: nat)
    ensures
        bit_rev(0, k) == 0,
    decreases k,
{
    if k > 0 {
        lemma_bit_rev_zero((k - 1) as nat);
        assert(bit_rev(0, k) == (0nat % 2) * pow2((k - 1) as nat) + bit_rev(0nat / 2, (k - 1) as nat));
        assert((0nat % 2) * pow2((k - 1) as nat) == 0) by (nonlinear_arith);
    }
}

/// Zero reversed is zero.
pub(crate) proof fn lemma_bit_rev_zero_pub(k: nat)
    ensures
        bit_rev(0, k) == 0,
{
    lemma_bit_rev_zero(k);
}

/// Mirrored indices `m + b` and `2m - 1 - b` (with `m = 2^j`, `b < m`, `j < k`) have bit
/// reversals adding up to `2^k`.
proof fn lemma_bit_rev_pair(k: nat, j: nat, b: nat)
    requires
        j < k,
        b < pow2(j),
    ensures
        bit_rev(pow2(j) + b, k) + bit_rev((2 * pow2(j) - 1 - b) as nat, k) == pow2(k),
    decreases j,
{
    vstd::arithmetic::power2::lemma_pow2_unfold(k);
    if j == 0 {
        vstd::arithmetic::power2::lemma2_to64();
        assert(b == 0);
        lemma_bit_rev_zero((k - 1) as nat);
        assert(bit_rev(1, k) == (1nat % 2) * pow2((k - 1) as nat) + bit_rev(1nat / 2, (k - 1) as nat));
        assert((1nat % 2) * pow2((k - 1) as nat) == pow2((k - 1) as nat)) by (nonlinear_arith);
        assert(bit_rev(1, k) == pow2((k - 1) as nat));
    } else {
        vstd::arithmetic::power2::lemma_pow2_unfold(j);
        let m = pow2(j);
        let mh = pow2((j - 1) as nat);
        assert(m == 2 * mh);
        let x1 = m + b;
        let x2 = (2 * m - 1 - b) as nat;
        let bh = b / 2;
        assert(x1 / 2 == mh + bh);
        assert(x2 / 2 == 2 * mh - 1 - bh);
        assert(x1 % 2 + x2 % 2 == 1);
        lemma_bit_rev_pair((k - 1) as nat, (j - 1) as nat, bh);
        assert(bit_rev(x1, k) == (x1 % 2) * pow2((k - 1) as nat) + bit_rev(x1 / 2, (k - 1) as nat));
        assert(bit_rev(x2, k) == (x2 % 2) * pow2((k - 1) as nat) + bit_rev(x2 / 2, (k - 1) as nat));
        assert((x1 % 2) * pow2((k - 1) as nat) + (x2 % 2) * pow2((k - 1) as nat) == pow2((k - 1) as nat)) by (nonlinear_arith)
            requires
                x1 % 2 + x2 % 2 == 1,
        ;
    }
}

/// `-zeta^e2 * zeta^e1 = -zeta^n = 1 (mod q)` when `e1 + e2 = n` and `zeta^n = -1`.
proof fn lemma_twiddle_pair(zeta: int, q: int, n: nat, e1: nat, e2: nat)
    requires
        q >= 2,
        pow(zeta, n) % q == q - 1,
        e1 + e2 == n,
    ensures
        (((q - pow(zeta, e2) % q) % q) * (pow(zeta, e1) % q)) % q == 1,
{
    let a = pow(zeta, e1);
    let b = pow(zeta, e2);
    vstd::arithmetic::power::lemma_pow_adds(zeta, e1, e2);
    assert(pow(zeta, n) == a * b);
    let am = a % q;
    let bm = b % q;
    vstd::arithmetic::div_mod::lemma_mod_bound(a, q);
    vstd::arithmetic::div_mod::lemma_mod_bound(b, q);
    vstd::arithmetic::div_mod::lemma_mul_mod_noop(a, b, q);
    assert((am * bm) % q == q - 1);
    let nb = (q - bm) % q;
    vstd::arithmetic::div_mod::lemma_mod_bound(q - bm, q);
    // nb * am = (q - bm) * am - q * [bm == 0] * am = q * am - am * bm (mod q)
    vstd::arithmetic::div_mod::lemma_mul_mod_noop_left(q - bm, am, q);
    assert((q - bm) * am == q * am - am * bm) by (nonlinear_arith);
    vstd::arithmetic::div_mod::lemma_mod_multiples_vanish(am, -(am * bm), q);
    assert((q * am + -(am * bm)) % q == (-(am * bm)) % q);
    vstd::arithmetic::div_mod::lemma_fundamental_div_mod(am * bm, q);
    let d = (am * bm) / q;
    assert(-(am * bm) == q * (-d - 1) + 1) by (nonlinear_arith)
        requires
            am * bm == q * d + (q - 1),
    ;
    vstd::arithmetic::div_mod::lemma_mod_multiples_vanish(-d - 1, 1, q);
    vstd::arithmetic::div_mod::lemma_small_mod(1, q as nat);
}

/// At half-width `len`, the inverse twiddle of each block's mirror times the block's forward
/// twiddle is 1 mod q.
pub open spec fn pairs_at(zetas: Seq<i64>, zinv: Seq<i64>, q: int, n: int, len: int) -> bool {
    forall|b: int|
        0 <= b < n / (2 * len) ==> #[trigger] (((zinv[n / len - 1 - b] as int) * (zetas[n / (2 * len) + b] as int)) % q) == 1
}

/// Every entry times `c`, mod q.
pub open spec fn scaled(c: int, v: Seq<int>, q: int) -> Seq<int> {
    Seq::new(v.len(), |i: int| (c * v[i]) % q)
}

/// `x` at offset `p` of block `b` of width `2 len`.
pub(crate) proof fn lemma_in_block(x: int, len: int)
    requires
        len >= 1,
        x >= 0,
    ensures
        x == 2 * len * (x / (2 * len)) + x % (2 * len),
        0 <= x % (2 * len) < 2 * len,
        x / (2 * len) >= 0,
        x % (2 * len) < len ==> (x + len) / (2 * len) == x / (2 * len) && (x + len) % (2 * len) == x % (2 * len) + len,
        x % (2 * len) >= len ==> (x - len) / (2 * len) == x / (2 * len) && (x - len) % (2 * len) == x % (2 * len) - len,
{
    let w = 2 * len;
    vstd::arithmetic::div_mod::lemma_fundamental_div_mod(x, w);
    vstd::arithmetic::div_mod::lemma_mod_bound(x, w);
    vstd::arithmetic::div_mod::lemma_div_pos_is_pos(x, w);
    let b = x / w;
    let p = x % w;
    if p < len {
        assert(x + len == b * w + (p + len)) by (nonlinear_arith)
            requires
                x == w * b + p,
        ;
        vstd::arithmetic::div_mod::lemma_fundamental_div_mod_converse(x + len, w, b, p + len);
    }
    if p >= len {
        assert(x - len == b * w + (p - len)) by (nonlinear_arith)
            requires
                x == w * b + p,
        ;
        vstd::arithmetic::div_mod::lemma_fundamental_div_mod_converse(x - len, w, b, p - len);
    }
}

/// `n = 2 len m` gives `n / len = 2m`, `n / (2 len) = m`, and a block index below `m` keeps
/// both twiddle indices inside the table.
pub(crate) proof fn lemma_layer_shape(n: int, len: int, x: int)
    requires
        len >= 1,
        n % (2 * len) == 0,
        0 <= x < n,
    ensures
        n / len == 2 * (n / (2 * len)),
        x / (2 * len) < n / (2 * len),
        n / (2 * len) >= 1,
        n / (2 * len) + x / (2 * len) < n,
        0 <= n / len - 1 - x / (2 * len) < n,
        x % (2 * len) < len ==> x + len < n,
{
    let w = 2 * len;
    let m = n / w;
    vstd::arithmetic::div_mod::lemma_fundamental_div_mod(n, w);
    assert(n == len * (2 * m)) by (nonlinear_arith)
        requires
            n == w * m,
            w == 2 * len,
    ;
    vstd::arithmetic::div_mod::lemma_div_multiples_vanish(2 * m, len);
    assert(n / len == 2 * m) by {
        assert(len * (2 * m) == (2 * m) * len) by (nonlinear_arith);
    }
    lemma_in_block(x, len);
    let b = x / w;
    assert(b < m) by (nonlinear_arith)
        requires
            x == w * b + x % w,
            x % w >= 0,
            x < n,
            n == w * m,
            w >= 2,
    ;
    assert(m >= 1);
    assert(x % w < len ==> x + len < n) by (nonlinear_arith)
        requires
            x == w * b + x % w,
            b < m,
            b >= 0,
            n == w * m,
            w == 2 * len,
    ;
    assert(2 * m <= n) by (nonlinear_arith)
        requires
            n == w * m,
            w >= 2,
            m >= 1,
    ;
}

/// One Gentleman-Sande layer undoes the Cooley-Tukey layer of the same width, up to a factor 2.
proof fn lemma_gs_undoes_ct(a: Seq<int>, zetas: Seq<i64>, zinv: Seq<i64>, q: int, len: int)
    requires
        q >= 2,
        len >= 1,
        (a.len() as int) % (2 * len) == 0,
        zetas.len() == a.len(),
        zinv.len() == a.len(),
        pairs_at(zetas, zinv, q, a.len() as int, len),
    ensures
        gs_layer(ct_layer(a, zetas, q, len), zinv, q, len) == scaled(2, a, q),
{
    let n = a.len() as int;
    let y = ct_layer(a, zetas, q, len);
    let g = gs_layer(y, zinv, q, len);
    assert forall|x: int| 0 <= x < n implies #[trigger] g[x] == scaled(2, a, q)[x] by {
        lemma_layer_shape(n, len, x);
        lemma_in_block(x, len);
        let b = x / (2 * len);
        let m = n / (2 * len);
        let z = zetas[m + b] as int;
        let zi = zinv[n / len - 1 - b] as int;
        assert((zi * z) % q == 1);
        if x % (2 * len) < len {
            let t = (z * a[x + len]) % q;
            assert(y[x] == (a[x] + t) % q);
            assert(y[x + len] == (a[x] - t) % q);
            assert(g[x] == (y[x] + y[x + len]) % q);
            vstd::arithmetic::div_mod::lemma_add_mod_noop(a[x] + t, a[x] - t, q);
            assert((a[x] + t) + (a[x] - t) == 2 * a[x]);
        } else {
            lemma_in_block(x - len, len);
            let t = (z * a[x]) % q;
            assert(y[x - len] == (a[x - len] + t) % q);
            assert(y[x] == (a[x - len] - t) % q);
            assert(g[x] == (zi * ((y[x - len] - y[x]) % q)) % q);
            vstd::arithmetic::div_mod::lemma_sub_mod_noop(a[x - len] + t, a[x - len] - t, q);
            assert((a[x - len] + t) - (a[x - len] - t) == 2 * t);
            let d = (2 * t) % q;
            vstd::arithmetic::div_mod::lemma_mul_mod_noop_right(2, z * a[x], q);
            assert(d == (2 * (z * a[x])) % q);
            vstd::arithmetic::div_mod::lemma_mul_mod_noop_right(zi, 2 * (z * a[x]), q);
            assert(zi * (2 * (z * a[x])) == (zi * z) * (2 * a[x])) by (nonlinear_arith);
            vstd::arithmetic::div_mod::lemma_mul_mod_noop_left(zi * z, 2 * a[x], q);
            assert(1 * (2 * a[x]) == 2 * a[x]);
        }
    }
    assert(g =~= scaled(2, a, q));
}

/// A Gentleman-Sande layer commutes with scaling every entry mod q.
pub(crate) proof fn lemma_gs_layer_scaled(v: Seq<int>, c: int, zinv: Seq<i64>, q: int, len: int)
    requires
        q >= 2,
        len >= 1,
        (v.len() as int) % (2 * len) == 0,
        zinv.len() == v.len(),
    ensures
        gs_layer(scaled(c, v, q), zinv, q, len) == scaled(c, gs_layer(v, zinv, q, len), q),
{
    let n = v.len() as int;
    let sv = scaled(c, v, q);
    let lhs = gs_layer(sv, zinv, q, len);
    let gv = gs_layer(v, zinv, q, len);
    assert forall|x: int| 0 <= x < n implies #[trigger] lhs[x] == scaled(c, gv, q)[x] by {
        lemma_layer_shape(n, len, x);
        lemma_in_block(x, len);
        let z = zinv[n / len - 1 - x / (2 * len)] as int;
        if x % (2 * len) < len {
            vstd::arithmetic::div_mod::lemma_add_mod_noop(c * v[x], c * v[x + len], q);
            vstd::arithmetic::div_mod::lemma_mul_mod_noop_right(c, v[x] + v[x + len], q);
            assert(c * v[x] + c * v[x + len] == c * (v[x] + v[x + len])) by (nonlinear_arith);
        } else {
            lemma_in_block(x - len, len);
            vstd::arithmetic::div_mod::lemma_sub_mod_noop(c * v[x - len], c * v[x], q);
            assert(c * v[x - len] - c * v[x] == c * (v[x - len] - v[x])) by (nonlinear_arith);
            vstd::arithmetic::div_mod::lemma_mul_mod_noop_right(z, c * (v[x - len] - v[x]), q);
            vstd::arithmetic::div_mod::lemma_mul_mod_noop_right(z, v[x - len] - v[x], q);
            vstd::arithmetic::div_mod::lemma_mul_mod_noop_right(c, z * (v[x - len] - v[x]), q);
            assert(z * (c * (v[x - len] - v[x])) == c * (z * (v[x - len] - v[x]))) by (nonlinear_arith);
        }
    }
    assert(lhs =~= scaled(c, gv, q));
}

pub(crate) proof fn lemma_scaled_twice(x: Seq<int>, c: int, d: int, q: int)
    requires
        q >= 2,
    ensures
        scaled(c, scaled(d, x, q), q) == scaled(c * d, x, q),
{
    assert forall|i: int| 0 <= i < x.len() implies #[trigger] scaled(c, scaled(d, x, q), q)[i] == scaled(c * d, x, q)[i] by {
        vstd::arithmetic::div_mod::lemma_mul_mod_noop_right(c, d * x[i], q);
        assert(c * (d * x[i]) == (c * d) * x[i]) by (nonlinear_arith);
    }
    assert(scaled(c, scaled(d, x, q), q) =~= scaled(c * d, x, q));
}

pub(crate) proof fn lemma_pow2_divides(k: nat, i: nat)
    requires
        i <= k,
    ensures
        pow2(k) % pow2(i) == 0,
        pow2(i) <= pow2(k),
        pow2(i) >= 1,
{
    vstd::arithmetic::power2::lemma_pow2_adds(i, (k - i) as nat);
    vstd::arithmetic::power2::lemma_pow2_pos(i);
    vstd::arithmetic::power2::lemma_pow2_pos((k - i) as nat);
    vstd::arithmetic::div_mod::lemma_mod_multiples_basic(pow2((k - i) as nat) as int, pow2(i) as int);
    assert(pow2(i) * pow2((k - i) as nat) == pow2((k - i) as nat) * pow2(i)) by (nonlinear_arith);
    assert(pow2(i) <= pow2(i) * pow2((k - i) as nat)) by (nonlinear_arith)
        requires
            pow2((k - i) as nat) >= 1,
    ;
}

/// The layers `len = 2^i, ..., 1` of the forward transform, followed by all inverse layers,
/// equal the inverse layers from `2^(i+1)` on applied to `2^(i+1) * x`.
proof fn lemma_gs_ct_from(x: Seq<int>, zetas: Seq<i64>, zinv: Seq<i64>, q: int, k: nat, i: nat)
    requires
        q >= 2,
        x.len() == pow2(k),
        i < k,
        zetas.len() == x.len(),
        zinv.len() == x.len(),
        forall|j: nat| j < k ==> #[trigger] pairs_at(zetas, zinv, q, x.len() as int, pow2(j) as int),
    ensures
        gs_from(ct_from(x, zetas, q, pow2(i) as int), zinv, q, 1) == gs_from(
            scaled((2 * pow2(i)) as int, x, q),
            zinv,
            q,
            (2 * pow2(i)) as int,
        ),
    decreases i,
{
    let n = x.len() as int;
    let len = pow2(i) as int;
    lemma_pow2_divides(k, i + 1);
    vstd::arithmetic::power2::lemma_pow2_unfold(i + 1);
    assert(pairs_at(zetas, zinv, q, n, len));
    lemma_gs_undoes_ct(x, zetas, zinv, q, len);
    if i == 0 {
        vstd::arithmetic::power2::lemma2_to64();
        assert(len == 1);
        let y = ct_layer(x, zetas, q, 1);
        assert(ct_from(y, zetas, q, 0) == y);
        assert(ct_from(x, zetas, q, 1) == y);
        assert(gs_from(y, zinv, q, 1) == gs_from(gs_layer(y, zinv, q, 1), zinv, q, 2));
    } else {
        vstd::arithmetic::power2::lemma_pow2_unfold(i);
        let half = pow2((i - 1) as nat) as int;
        assert(len == 2 * half);
        assert(len / 2 == half);
        let y = ct_layer(x, zetas, q, len);
        assert(ct_from(x, zetas, q, len) == ct_from(y, zetas, q, half));
        lemma_gs_ct_from(y, zetas, zinv, q, k, (i - 1) as nat);
        assert(2 * half == len);
        assert(gs_from(scaled(len, y, q), zinv, q, len) == gs_from(gs_layer(scaled(len, y, q), zinv, q, len), zinv, q, 2 * len));
        lemma_gs_layer_scaled(y, len, zinv, q, len);
        lemma_scaled_twice(x, len, 2, q);
        assert(len * 2 == 2 * len);
    }
}

/// The inverse transform of the forward transform is the input times `n * n_inv`, mod q,
/// whenever mirrored twiddles pair up at every layer.
pub(crate) proof fn lemma_inv_ntt_of_ntt(a: Seq<int>, zetas: Seq<i64>, zinv: Seq<i64>, n_inv: int, q: int, k: nat)
    requires
        q >= 2,
        k >= 1,
        a.len() == pow2(k),
        zetas.len() == a.len(),
        zinv.len() == a.len(),
        forall|j: nat| j < k ==> #[trigger] pairs_at(zetas, zinv, q, a.len() as int, pow2(j) as int),
    ensures
        inv_ntt_spec(ntt_spec(a, zetas, q), zinv, n_inv, q) == Seq::new(a.len(), |i: int| (a[i] * a.len() * n_inv) % q),
{
    let n = a.len() as int;
    vstd::arithmetic::power2::lemma_pow2_unfold(k);
    let h = pow2((k - 1) as nat) as int;
    assert(n == 2 * h);
    assert(n / 2 == h);
    lemma_gs_ct_from(a, zetas, zinv, q, k, (k - 1) as nat);
    let s = scaled(n, a, q);
    assert(gs_from(s, zinv, q, n) == s);
    let g = gs_from(ntt_spec(a, zetas, q), zinv, q, 1);
    assert(g == s);
    assert forall|i: int| 0 <= i < n implies #[trigger] inv_ntt_spec(ntt_spec(a, zetas, q), zinv, n_inv, q)[i] == (a[i] * n * n_inv) % q by {
        vstd::arithmetic::div_mod::lemma_mul_mod_noop_left(n * a[i], n_inv, q);
        assert(n * a[i] * n_inv == a[i] * n * n_inv) by (nonlinear_arith);
    }
    assert(inv_ntt_spec(ntt_spec(a, zetas, q), zinv, n_inv, q) =~= Seq::new(a.len(), |i: int| (a[i] * a.len() * n_inv) % q));
}

/// Tables of twiddles `zeta^bitrev_k(i)` with inverse twiddles their negations pair up at every
/// layer when `zeta^(2^k) = -1`.
pub(crate) proof fn lemma_root_tables_pair(zetas: Seq<i64>, zinv: Seq<i64>, zeta: int, q: int, k: nat)
    requires
        q >= 2,
        k >= 1,
        zetas.len() == pow2(k),
        zinv.len() == pow2(k),
        is_negacyclic_root(zeta, q, pow2(k) as int),
        forall|i: int| 0 <= i < pow2(k) ==> #[trigger] zetas[i] == pow(zeta, bit_rev(i as nat, k)) % q,
        forall|i: int| 0 <= i < pow2(k) ==> #[trigger] zinv[i] == (q - zetas[i]) % q,
    ensures
        forall|j: nat| j < k ==> #[trigger] pairs_at(zetas, zinv, q, pow2(k) as int, pow2(j) as int),
{
    let n = pow2(k) as int;
    assert forall|j: nat| j < k implies #[trigger] pairs_at(zetas, zinv, q, n, pow2(j) as int) by {
        let len = pow2(j) as int;
        let mj = (k - 1 - j) as nat;
        vstd::arithmetic::power2::lemma_pow2_adds(j + 1, mj);
        vstd::arithmetic::power2::lemma_pow2_unfold(j + 1);
        vstd::arithmetic::power2::lemma_pow2_pos(j);
        vstd::arithmetic::power2::lemma_pow2_pos(mj);
        let m = pow2(mj) as int;
        assert(n == (2 * len) * m);
        vstd::arithmetic::div_mod::lemma_div_multiples_vanish(m, 2 * len);
        assert(n / (2 * len) == m) by {
            assert((2 * len) * m == m * (2 * len)) by (nonlinear_arith);
        }
        assert(n == len * (2 * m)) by (nonlinear_arith)
            requires
                n == (2 * len) * m,
        ;
        vstd::arithmetic::div_mod::lemma_div_multiples_vanish(2 * m, len);
        assert(n / len == 2 * m) by {
            assert(len * (2 * m) == (2 * m) * len) by (nonlinear_arith);
        }
        assert forall|b: int| 0 <= b < n / (2 * len) implies #[trigger] (((zinv[n / len - 1 - b] as int) * (zetas[n / (2
            * len) + b] as int)) % q) == 1 by {
            assert(mj < k);
            lemma_pow2_divides(k, mj + 1);
            vstd::arithmetic::power2::lemma_pow2_unfold(mj + 1);
            lemma_bit_rev_pair(k, mj, b as nat);
            let e1 = bit_rev((m + b) as nat, k);
            let e2 = bit_rev((2 * m - 1 - b) as nat, k);
            lemma_twiddle_pair(zeta, q, pow2(k), e1, e2);
        }
    }
}

/// With `n * n_inv = 1 (mod q)`, scaling by `n * n_inv` is reduction mod q.
pub(crate) proof fn lemma_unit_factor(a: Seq<int>, n: int, n_inv: int, q: int)
    requires
        q >= 2,
        a.len() == n,
        (n * n_inv) % q == 1,
    ensures
        Seq::new(a.len(), |i: int| (a[i] * a.len() * n_inv) % q) == Seq::new(a.len(), |i: int| a[i] % q),
{
    assert forall|i: int| 0 <= i < a.len() implies (a[i] * a.len() * n_inv) % q == a[i] % q by {
        assert(a[i] * a.len() * n_inv == a[i] * (n * n_inv)) by (nonlinear_arith)
            requires
                a.len() == n,
        ;
        vstd::arithmetic::div_mod::lemma_mul_mod_noop_right(a[i], n * n_inv, q);
    }
    assert(Seq::new(a.len(), |i: int| (a[i] * a.len() * n_inv) % q) =~= Seq::new(a.len(), |i: int| a[i] % q));
}

/// `q = 1 (mod 2n)` puts `n` strictly between 0 and q.
pub(crate) proof fn lemma_degree_below_modulus(n: int, q: int)
    requires
        n >= 1,
        q >= 2,
        (q - 1) % (2 * n) == 0,
    ensures
        0 < n < q,
{
    vstd::arithmetic::div_mod::lemma_fundamental_div_mod(q - 1, 2 * n);
    let t = (q - 1) / (2 * n);
    assert(q - 1 == 2 * n * t);
    assert(t >= 1) by (nonlinear_arith)
        requires
            q - 1 == 2 * n * t,
            q - 1 >= 1,
            n >= 1,
    ;
    assert(2 * n * t >= 2 * n) by (nonlinear_arith)
        requires
            t >= 1,
            n >= 1,
    ;
}

/// Law of the custom-KEM transform: for a prime `q = 1 (mod 2n)` and every table built from a
/// negacyclic root, the inverse transform undoes the forward one, mod q.
pub proof fn lemma_kem_ntt_inverse(t: crate::custom_kem_ntt::NttTable, a: Seq<int>)
    requires
        table_wf(t),
        is_prime_spec(t.q as int),
        (t.q - 1) % (2 * t.n as int) == 0,
        exists|zeta: int| is_negacyclic_root(zeta, t.q as int, t.n as int) && table_from_root(t, t.n as int, t.q as int, zeta),
        a.len() == t.n,
    ensures
        inv_ntt_spec(ntt_spec(a, t.zetas@, t.q as int), t.zetas_inv@, t.n_inv as int, t.q as int) == Seq::new(
            a.len(),
            |i: int| a[i] % (t.q as int),
        ),
{
    let q = t.q as int;
    let n = t.n as int;
    let zeta = choose|zeta: int| is_negacyclic_root(zeta, q, n) && table_from_root(t, n, q, zeta);
    let k = choose|log_n: nat|
        pow2(log_n) == n && forall|i: int|
            0 <= i < n ==> #[trigger] t.zetas@[i] == pow(zeta, bit_rev(i as nat, log_n)) % q;
    vstd::arithmetic::power2::lemma_pow2_pos(k);
    lemma_degree_below_modulus(n, q);
    lemma_fermat_inverse(q, n);
    lemma_unit_factor(a, n, t.n_inv as int, q);
    if k == 0 {
        vstd::arithmetic::power2::lemma2_to64();
        assert(n == 1);
        let s = ntt_spec(a, t.zetas@, q);
        assert(s == a);
        assert(gs_from(a, t.zetas_inv@, q, 1) == a);
        assert(inv_ntt_spec(s, t.zetas_inv@, t.n_inv as int, q) =~= Seq::new(
            a.len(),
            |i: int| (a[i] * a.len() * t.n_inv) % q,
        ));
    } else {
        lemma_root_tables_pair(t.zetas@, t.zetas_inv@, zeta, q, k);
        lemma_inv_ntt_of_ntt(a, t.zetas@, t.zetas_inv@, t.n_inv as int, q, k);
    }
}

/// Law of the degree-256 transform: for a prime `q = 1 (mod 512)` and every table built from a
/// negacyclic 512th root, the inverse transform undoes the forward one, mod q.
pub proof fn lemma_dsa_ntt_inverse(t: crate::ntt::NttTable, a: Seq<int>)
    requires
        table256_wf(t),
        is_prime_spec(t.q as int),
        (t.q - 1) % 512 == 0,
        is_negacyclic_root(dsa_root(t.q as int), t.q as int, N as int),
        table256_from_root(t, t.q as int, dsa_root(t.q as int)),
        a.len() == N,
    ensures
        inv_ntt_spec(ntt_spec(a, t.zetas@, t.q as int), t.zetas_inv@, t.n_inv as int, t.q as int) == Seq::new(
            a.len(),
            |i: int| a[i] % (t.q as int),
        ),
{
    let q = t.q as int;
    vstd::arithmetic::power2::lemma2_to64();
    assert(pow2(8) == 256);
    lemma_degree_below_modulus(256, q);
    lemma_fermat_inverse(q, 256);
    lemma_unit_factor(a, 256, t.n_inv as int, q);
    lemma_root_tables_pair(t.zetas@, t.zetas_inv@, dsa_root(q), q, 8);
    lemma_inv_ntt_of_ntt(a, t.zetas@, t.zetas_inv@, t.n_inv as int, q, 8);
}

} // verus!
