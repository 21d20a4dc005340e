//! Runtime NTT over Z_q[x]/(x^n+1), for any power-of-two n and prime q with q ≡ 1 (mod 2n):
//! a full radix-2 split (Cooley-Tukey forward, Gentleman-Sande inverse) with `Vec<i64>` data.
//! The fixed-degree DSA path (`ntt.rs`) runs the same transforms.
use crate::error::PqcError;
use crate::modpow::{mod_inverse, mod_pow};
use vstd::arithmetic::power::pow;
use vstd::arithmetic::power2::pow2;
use vstd::prelude::*;

verus! {

pub struct NttTable {
    pub n: usize,
    pub q: i64,
    pub zetas: Vec<i64>,
    /// zetas_inv[i] = -zetas[i] mod q — the "negate and use in reverse order" trick that turns
    /// the forward Cooley-Tukey twiddle table into the inverse Gentleman-Sande one.
    pub zetas_inv: Vec<i64>,
    pub n_inv: i64,
}

/// The values of a machine-integer sequence as mathematical integers.
pub open spec fn ints(s: Seq<i64>) -> Seq<int> {
    Seq::new(s.len(), |i: int| s[i] as int)
}

/// Reverses the low `k` bits of `x`.
pub open spec fn bit_rev(x: nat, k: nat) -> nat
    decreases k,
{
    if k == 0 {
        0
    } else {
        (x % 2) * pow2((k - 1) as nat) + bit_rev(x / 2, (k - 1) as nat)
    }
}

/// One Cooley-Tukey layer with half-block length `len`: block `b` (elements
/// `[2*len*b, 2*len*(b+1))`) uses twiddle `zetas[n/(2*len) + b]`.
pub open spec fn ct_layer(a: Seq<int>, zetas: Seq<i64>, q: int, len: int) -> Seq<int> {
    Seq::new(
        a.len(),
        |x: int|
            {
                let z = zetas[(a.len() as int) / (2 * len) + x / (2 * len)] as int;
                if x % (2 * len) < len {
                    (a[x] + (z * a[x + len]) % q) % q
                } else {
                    (a[x - len] - (z * a[x]) % q) % q
                }
            },
    )
}

/// The Cooley-Tukey layers with half-block lengths `len, len/2, ..., 1`, in that order.
pub open spec fn ct_from(a: Seq<int>, zetas: Seq<i64>, q: int, len: int) -> Seq<int>
    decreases len,
{
    if len < 1 {
        a
    } else {
        ct_from(ct_layer(a, zetas, q, len), zetas, q, len / 2)
    }
}

/// Forward NTT of `a`: all Cooley-Tukey layers, from half-block length `n/2` down to 1.
pub open spec fn ntt_spec(a: Seq<int>, zetas: Seq<i64>, q: int) -> Seq<int> {
    ct_from(a, zetas, q, (a.len() as int) / 2)
}

/// One Gentleman-Sande layer with half-block length `len`: block `b` uses twiddle
/// `zetas_inv[n/len - 1 - b]`.
pub open spec fn gs_layer(a: Seq<int>, zetas_inv: Seq<i64>, q: int, len: int) -> Seq<int> {
    Seq::new(
        a.len(),
        |x: int|
            {
                let z = zetas_inv[(a.len() as int) / len - 1 - x / (2 * len)] as int;
                if x % (2 * len) < len {
                    (a[x] + a[x + len]) % q
                } else {
                    (z * ((a[x - len] - a[x]) % q)) % q
                }
            },
    )
}

/// The Gentleman-Sande layers with half-block lengths `len, 2*len, ..., n/2`, in that order.
pub open spec fn gs_from(a: Seq<int>, zetas_inv: Seq<i64>, q: int, len: int) -> Seq<int>
    decreases a.len() - len,
{
    if len < 1 || 2 * len > a.len() {
        a
    } else {
        proof {
            assert(gs_layer(a, zetas_inv, q, len).len() == a.len());
        }
        gs_from(gs_layer(a, zetas_inv, q, len), zetas_inv, q, 2 * len)
    }
}

/// Inverse NTT of `a`: all Gentleman-Sande layers, then every entry times `n_inv`, mod q.
pub open spec fn inv_ntt_spec(a: Seq<int>, zetas_inv: Seq<i64>, n_inv: int, q: int) -> Seq<int> {
    let g = gs_from(a, zetas_inv, q, 1);
    Seq::new(g.len(), |x: int| (g[x] * n_inv) % q)
}

/// Entries fit the transforms' intermediate arithmetic: `[-2^31, 2^31)`.
pub open spec fn ntt_input_ok(a: Seq<i64>) -> bool {
    forall|i: int| 0 <= i < a.len() ==> -0x8000_0000 <= #[trigger] a[i] < 0x8000_0000
}

/// What the transforms need of a table.
pub open spec fn table_wf(t: NttTable) -> bool {
    &&& 2 <= t.q < 0x8000_0000
    &&& vstd::arithmetic::power2::is_pow2(t.n as int)
    &&& t.n < 0x8000_0000
    &&& t.zetas.len() == t.n
    &&& t.zetas_inv.len() == t.n
    &&& forall|i: int| 0 <= i < t.n ==> 0 <= #[trigger] t.zetas@[i] < t.q
    &&& forall|i: int| 0 <= i < t.n ==> 0 <= #[trigger] t.zetas_inv@[i] < t.q
    &&& 0 <= t.n_inv < t.q
}

/// Position `x` inside block `b` of width `2*len`.
proof fn lemma_block_pos(x: int, b: int, len: int)
    requires
        len >= 1,
        b >= 0,
        2 * len * b <= x < 2 * len * b + 2 * len,
    ensures
        x / (2 * len) == b,
        x % (2 * len) == x - 2 * len * b,
{
    assert(x == b * (2 * len) + (x - 2 * len * b)) by (nonlinear_arith);
    vstd::arithmetic::div_mod::lemma_fundamental_div_mod_converse(x, 2 * len, b, x - 2 * len * b);
}

proof fn lemma_pow2_halves(len: int)
    requires
        vstd::arithmetic::power2::is_pow2(len),
        len > 1,
    ensures
        len % 2 == 0,
        vstd::arithmetic::power2::is_pow2(len / 2),
{
    reveal(vstd::arithmetic::power2::is_pow2);
}

/// The product `z * v` stays far inside `i64` for `0 <= z < 2^31`, `|v| <= 2^31`.
proof fn lemma_prod_bound(z: int, v: int)
    requires
        0 <= z < 0x8000_0000,
        -0x8000_0000 <= v < 0x8000_0000,
    ensures
        -0x4000_0000_0000_0000 <= z * v <= 0x4000_0000_0000_0000,
{
    assert(-0x4000_0000_0000_0000 <= z * v <= 0x4000_0000_0000_0000) by (nonlinear_arith)
        requires
            0 <= z < 0x8000_0000,
            -0x8000_0000 <= v < 0x8000_0000,
    ;
}

/// Block `[start, start + 2*len)` of `n == 2*len*m` lies inside the array, and so does its twiddle.
proof fn lemma_block_fits(start: int, len: int, b: int, m: int, n: int)
    requires
        len >= 1,
        m >= 1,
        b >= 0,
        start == 2 * len * b,
        start < n,
        n == 2 * len * m,
    ensures
        start + 2 * len <= n,
        b < m,
        start + 2 * len == 2 * len * (b + 1),
        n / (2 * len) == m,
        m + b < n,
{
    assert(2 * m <= n) by (nonlinear_arith)
        requires
            n == 2 * len * m,
            len >= 1,
            m >= 1,
    ;
    assert(b < m) by (nonlinear_arith)
        requires
            start == 2 * len * b,
            start < n,
            n == 2 * len * m,
            len >= 1,
    ;
    assert(start + 2 * len <= n) by (nonlinear_arith)
        requires
            start == 2 * len * b,
            b + 1 <= m,
            n == 2 * len * m,
            len >= 1,
    ;
    assert(start + 2 * len == 2 * len * (b + 1)) by (nonlinear_arith)
        requires
            start == 2 * len * b,
    ;
    assert(n == m * (2 * len)) by (nonlinear_arith)
        requires
            n == 2 * len * m,
    ;
    vstd::arithmetic::div_mod::lemma_div_multiples_vanish(m, 2 * len);
}

/// The Cooley-Tukey butterflies of one block with a fixed twiddle `zeta`.
fn ct_butterflies(
    a: &mut [i64],
    start: usize,
    len: usize,
    zeta: i64,
    q: i64,
    Ghost(layer_in): Ghost<Seq<int>>,
    Ghost(target): Ghost<Seq<int>>,
)
    requires
        2 <= q < 0x8000_0000,
        len >= 1,
        start + 2 * len <= old(a).len(),
        0 <= zeta < q,
        layer_in.len() == old(a).len(),
        target.len() == old(a).len(),
        forall|x: int|
            start <= x < start + 2 * len ==> -0x8000_0000 <= #[trigger] layer_in[x] < 0x8000_0000,
        forall|x: int| start <= x < start + 2 * len ==> #[trigger] old(a)@[x] as int == layer_in[x],
        forall|x: int|
            start <= x < start + len ==> #[trigger] target[x] == (layer_in[x] + (zeta * layer_in[x
                + len]) % (q as int)) % (q as int),
        forall|x: int|
            start + len <= x < start + 2 * len ==> #[trigger] target[x] == (layer_in[x - len] - (
            zeta * layer_in[x]) % (q as int)) % (q as int),
    ensures
        final(a).len() == old(a).len(),
        forall|x: int|
            0 <= x < final(a).len() && !(start <= x < start + 2 * len) ==> #[trigger] final(a)@[x]
                == old(a)@[x],
        forall|x: int| start <= x < start + 2 * len ==> #[trigger] final(a)@[x] as int == target[x],
{
    let ghost a0 = a@;
    let mut j = start;
    while j < start + len
        invariant
            2 <= q < 0x8000_0000,
            a.len() == a0.len(),
            len >= 1,
            start + 2 * len <= a.len(),
            start <= j <= start + len,
            0 <= zeta < q,
            layer_in.len() == a0.len(),
            target.len() == a0.len(),
            forall|x: int|
                start <= x < start + 2 * len ==> -0x8000_0000 <= #[trigger] layer_in[x] < 0x8000_0000,
            forall|x: int| start <= x < start + 2 * len ==> #[trigger] a0[x] as int == layer_in[x],
            forall|x: int|
                start <= x < start + len ==> #[trigger] target[x] == (layer_in[x] + (zeta
                    * layer_in[x + len]) % (q as int)) % (q as int),
            forall|x: int|
                start + len <= x < start + 2 * len ==> #[trigger] target[x] == (layer_in[x - len] - (
                zeta * layer_in[x]) % (q as int)) % (q as int),
            forall|x: int|
                0 <= x < a.len() && !(start <= x < j) && !(start + len <= x < j + len)
                    ==> #[trigger] a@[x] == a0[x],
            forall|x: int|
                (start <= x < j || start + len <= x < j + len) ==> #[trigger] a@[x] as int
                    == target[x],
        decreases start + len - j,
    {
        let ghost x0 = j as int;
        proof {
            assert(a@[x0 + len] == a0[x0 + len]);
            assert(a@[x0] == a0[x0]);
            assert(layer_in[x0 + len] == a0[x0 + len] as int);
            assert(layer_in[x0] == a0[x0] as int);
            lemma_prod_bound(zeta as int, a@[x0 + len] as int);
        }
        let t = crate::arith::rem_euclid_i64(zeta * a[j + len], q);
        let lo = a[j];
        a[j + len] = crate::arith::rem_euclid_i64(lo - t, q);
        a[j] = crate::arith::rem_euclid_i64(lo + t, q);
        proof {
            assert(target[x0 + len] == (layer_in[x0 + len - len] - (zeta * layer_in[x0 + len]) % (
            q as int)) % (q as int));
            assert(a@[x0] as int == target[x0]);
            assert(a@[x0 + len] as int == target[x0 + len]);
        }
        j = j + 1;
    }
}

/// In-place forward NTT (decimation-in-time, Cooley-Tukey): `a` becomes `ntt_spec` of its old
/// value, every entry reduced into `[0, q)` once a layer has run.
pub fn ntt_core(a: &mut [i64], zetas: &[i64], q: i64)
    requires
        2 <= q < 0x8000_0000,
        vstd::arithmetic::power2::is_pow2(old(a).len() as int),
        old(a).len() < 0x8000_0000,
        zetas.len() == old(a).len(),
        forall|i: int| 0 <= i < zetas.len() ==> 0 <= #[trigger] zetas@[i] < q,
        ntt_input_ok(old(a)@),
    ensures
        final(a).len() == old(a).len(),
        ints(final(a)@) == ntt_spec(ints(old(a)@), zetas@, q as int),
        final(a).len() > 1 ==> forall|i: int| 0 <= i < final(a).len() ==> 0 <= #[trigger] final(a)@[i] < q,
        ntt_input_ok(final(a)@),
{
    let n = a.len();
    let ghost a_in = ints(a@);
    let mut k: usize = 0;
    let mut len: usize = n / 2;
    let ghost mut m: int = 1;
    proof {
        if n > 1 {
            lemma_pow2_halves(n as int);
        } else {
            reveal(vstd::arithmetic::power2::is_pow2);
        }
    }
    while len >= 1
        invariant
            2 <= q < 0x8000_0000,
            n == a.len(),
            zetas.len() == n,
            forall|i: int| 0 <= i < zetas.len() ==> 0 <= #[trigger] zetas@[i] < q,
            n < 0x8000_0000,
            ntt_input_ok(a@),
            len >= 1 ==> vstd::arithmetic::power2::is_pow2(len as int),
            len >= 1 ==> 2 * len * m == n,
            m >= 1,
            len < 1 ==> m == n,
            k + 1 == m,
            ct_from(ints(a@), zetas@, q as int, len as int) == ntt_spec(a_in, zetas@, q as int),
            m > 1 ==> forall|i: int| 0 <= i < n ==> 0 <= #[trigger] a@[i] < q,
            a_in.len() == n,
        decreases len,
    {
        let ghost layer_in = ints(a@);
        let ghost target = ct_layer(layer_in, zetas@, q as int, len as int);
        let mut start: usize = 0;
        let ghost mut b: int = 0;
        while start < n
            invariant
                2 <= q < 0x8000_0000,
                n == a.len(),
                zetas.len() == n,
                forall|i: int| 0 <= i < zetas.len() ==> 0 <= #[trigger] zetas@[i] < q,
                len >= 1,
                2 * len * m == n,
                m >= 1,
                start <= n,
                0 <= b,
                start == 2 * len * b,
                k + 1 == m + b,
                layer_in.len() == n,
                target == ct_layer(layer_in, zetas@, q as int, len as int),
                forall|i: int| 0 <= i < n ==> -0x8000_0000 <= #[trigger] layer_in[i] < 0x8000_0000,
                forall|x: int| 0 <= x < start ==> #[trigger] a@[x] as int == target[x],
                forall|x: int| start <= x < n ==> #[trigger] a@[x] as int == layer_in[x],
            decreases n - start,
        {
            proof {
                lemma_block_fits(start as int, len as int, b, m, n as int);
            }
            k = k + 1;
            let zeta = zetas[k];
            proof {
                assert forall|x: int| start <= x < start + len implies #[trigger] target[x] == (
                layer_in[x] + (zeta * layer_in[x + len]) % (q as int)) % (q as int) by {
                    lemma_block_pos(x, b, len as int);
                }
                assert forall|x: int| start + len <= x < start + 2 * len implies #[trigger] target[x]
                    == (layer_in[x - len] - (zeta * layer_in[x]) % (q as int)) % (q as int) by {
                    lemma_block_pos(x, b, len as int);
                }
            }
            ct_butterflies(a, start, len, zeta, q, Ghost(layer_in), Ghost(target));
            start = start + 2 * len;
            proof {
                b = b + 1;
            }
        }
        proof {
            assert(ints(a@) =~= target);
            assert forall|i: int| 0 <= i < n implies 0 <= #[trigger] a@[i] < q by {
                assert(a@[i] as int == target[i]);
            }
            if len > 1 {
                lemma_pow2_halves(len as int);
                assert(2 * (len / 2) * (2 * m) == n) by (nonlinear_arith)
                    requires
                        2 * len * m == n,
                        len % 2 == 0,
                ;
            } else {
                assert(m * 2 == n);
            }
            assert(b == m) by (nonlinear_arith)
                requires
                    start == 2 * len * b,
                    start == n,
                    n == 2 * len * m,
                    len >= 1,
            ;
        }
        len = len / 2;
        proof {
            m = 2 * m;
        }
    }
}

/// The Gentleman-Sande butterflies of one block with a fixed twiddle `zeta`.
fn gs_butterflies(
    a: &mut [i64],
    start: usize,
    len: usize,
    zeta: i64,
    q: i64,
    Ghost(layer_in): Ghost<Seq<int>>,
    Ghost(target): Ghost<Seq<int>>,
)
    requires
        2 <= q < 0x8000_0000,
        len >= 1,
        start + 2 * len <= old(a).len(),
        0 <= zeta < q,
        layer_in.len() == old(a).len(),
        target.len() == old(a).len(),
        forall|x: int|
            start <= x < start + 2 * len ==> -0x8000_0000 <= #[trigger] layer_in[x] < 0x8000_0000,
        forall|x: int| start <= x < start + 2 * len ==> #[trigger] old(a)@[x] as int == layer_in[x],
        forall|x: int|
            start <= x < start + len ==> #[trigger] target[x] == (layer_in[x] + layer_in[x + len]) % (
            q as int),
        forall|x: int|
            start + len <= x < start + 2 * len ==> #[trigger] target[x] == (zeta * ((layer_in[x - len]
                - layer_in[x]) % (q as int))) % (q as int),
    ensures
        final(a).len() == old(a).len(),
        forall|x: int|
            0 <= x < final(a).len() && !(start <= x < start + 2 * len) ==> #[trigger] final(a)@[x]
                == old(a)@[x],
        forall|x: int| start <= x < start + 2 * len ==> #[trigger] final(a)@[x] as int == target[x],
{
    let ghost a0 = a@;
    let mut j = start;
    while j < start + len
        invariant
            2 <= q < 0x8000_0000,
            a.len() == a0.len(),
            len >= 1,
            start + 2 * len <= a.len(),
            start <= j <= start + len,
            0 <= zeta < q,
            layer_in.len() == a0.len(),
            target.len() == a0.len(),
            forall|x: int|
                start <= x < start + 2 * len ==> -0x8000_0000 <= #[trigger] layer_in[x] < 0x8000_0000,
            forall|x: int| start <= x < start + 2 * len ==> #[trigger] a0[x] as int == layer_in[x],
            forall|x: int|
                start <= x < start + len ==> #[trigger] target[x] == (layer_in[x] + layer_in[x
                    + len]) % (q as int),
            forall|x: int|
                start + len <= x < start + 2 * len ==> #[trigger] target[x] == (zeta * ((layer_in[x
                    - len] - layer_in[x]) % (q as int))) % (q as int),
            forall|x: int|
                0 <= x < a.len() && !(start <= x < j) && !(start + len <= x < j + len)
                    ==> #[trigger] a@[x] == a0[x],
            forall|x: int|
                (start <= x < j || start + len <= x < j + len) ==> #[trigger] a@[x] as int
                    == target[x],
        decreases start + len - j,
    {
        let ghost x0 = j as int;
        proof {
            assert(a@[x0 + len] == a0[x0 + len]);
            assert(a@[x0] == a0[x0]);
            assert(layer_in[x0 + len] == a0[x0 + len] as int);
            assert(layer_in[x0] == a0[x0] as int);
        }
        let t = a[j];
        let hi = a[j + len];
        a[j] = crate::arith::rem_euclid_i64(t + hi, q);
        let diff = crate::arith::rem_euclid_i64(t - hi, q);
        proof {
            lemma_prod_bound(zeta as int, diff as int);
        }
        a[j + len] = crate::arith::rem_euclid_i64(zeta * diff, q);
        proof {
            assert(target[x0 + len] == (zeta * ((layer_in[x0 + len - len] - layer_in[x0 + len]) % (
            q as int))) % (q as int));
            assert(a@[x0] as int == target[x0]);
            assert(a@[x0 + len] as int == target[x0 + len]);
        }
        j = j + 1;
    }
}

/// In-place inverse NTT (decimation-in-frequency, Gentleman-Sande) followed by the scaling by
/// `n_inv`: `a` becomes `inv_ntt_spec` of its old value, every entry in `[0, q)`.
pub fn inv_ntt_core(a: &mut [i64], zetas_inv: &[i64], n_inv: i64, q: i64)
    requires
        2 <= q < 0x8000_0000,
        vstd::arithmetic::power2::is_pow2(old(a).len() as int),
        old(a).len() < 0x8000_0000,
        zetas_inv.len() == old(a).len(),
        forall|i: int| 0 <= i < zetas_inv.len() ==> 0 <= #[trigger] zetas_inv@[i] < q,
        0 <= n_inv < q,
        ntt_input_ok(old(a)@),
    ensures
        final(a).len() == old(a).len(),
        ints(final(a)@) == inv_ntt_spec(ints(old(a)@), zetas_inv@, n_inv as int, q as int),
        forall|i: int| 0 <= i < final(a).len() ==> 0 <= #[trigger] final(a)@[i] < q,
{
    let n = a.len();
    let ghost a_in = ints(a@);
    let mut k: usize = n;
    let mut len: usize = 1;
    let ghost mut c: int = n as int;
    proof {
        reveal(vstd::arithmetic::power2::is_pow2);
    }
    while len < n
        invariant
            2 <= q < 0x8000_0000,
            n == a.len(),
            zetas_inv.len() == n,
            forall|i: int| 0 <= i < zetas_inv.len() ==> 0 <= #[trigger] zetas_inv@[i] < q,
            n < 0x8000_0000,
            ntt_input_ok(a@),
            len >= 1,
            len * c == n,
            c >= 1,
            vstd::arithmetic::power2::is_pow2(c),
            k == c,
            gs_from(ints(a@), zetas_inv@, q as int, len as int) == gs_from(a_in, zetas_inv@, q as int, 1),
            len > 1 ==> forall|i: int| 0 <= i < n ==> 0 <= #[trigger] a@[i] < q,
            a_in.len() == n,
        decreases n - len,
    {
        let ghost m: int = c / 2;
        proof {
            assert(c > 1) by (nonlinear_arith)
                requires
                    len * c == n,
                    len < n,
                    len >= 1,
            ;
            lemma_pow2_halves(c);
            assert(2 * len * m == n) by (nonlinear_arith)
                requires
                    len * c == n,
                    c % 2 == 0,
                    m == c / 2,
            ;
            assert((n as int) / (len as int) == c) by {
                assert(n == c * len) by (nonlinear_arith)
                    requires
                        len * c == n,
                ;
                vstd::arithmetic::div_mod::lemma_div_multiples_vanish(c, len as int);
            }
        }
        let ghost layer_in = ints(a@);
        let ghost target = gs_layer(layer_in, zetas_inv@, q as int, len as int);
        let mut start: usize = 0;
        let ghost mut b: int = 0;
        while start < n
            invariant
                2 <= q < 0x8000_0000,
                n == a.len(),
                zetas_inv.len() == n,
                forall|i: int| 0 <= i < zetas_inv.len() ==> 0 <= #[trigger] zetas_inv@[i] < q,
                len >= 1,
                2 * len * m == n,
                m >= 1,
                c == 2 * m,
                (n as int) / (len as int) == c,
                start <= n,
                0 <= b,
                start == 2 * len * b,
                k + b == c,
                layer_in.len() == n,
                target == gs_layer(layer_in, zetas_inv@, q as int, len as int),
                forall|i: int| 0 <= i < n ==> -0x8000_0000 <= #[trigger] layer_in[i] < 0x8000_0000,
                forall|x: int| 0 <= x < start ==> #[trigger] a@[x] as int == target[x],
                forall|x: int| start <= x < n ==> #[trigger] a@[x] as int == layer_in[x],
            decreases n - start,
        {
            proof {
                lemma_block_fits(start as int, len as int, b, m, n as int);
            }
            k = k - 1;
            let zeta = zetas_inv[k];
            proof {
                assert forall|x: int| start <= x < start + len implies #[trigger] target[x] == (
                layer_in[x] + layer_in[x + len]) % (q as int) by {
                    lemma_block_pos(x, b, len as int);
                }
                assert forall|x: int| start + len <= x < start + 2 * len implies #[trigger] target[x]
                    == (zeta * ((layer_in[x - len] - layer_in[x]) % (q as int))) % (q as int) by {
                    lemma_block_pos(x, b, len as int);
                }
            }
            gs_butterflies(a, start, len, zeta, q, Ghost(layer_in), Ghost(target));
            start = start + 2 * len;
            proof {
                b = b + 1;
            }
        }
        proof {
            assert(ints(a@) =~= target);
            assert forall|i: int| 0 <= i < n implies 0 <= #[trigger] a@[i] < q by {
                assert(a@[i] as int == target[i]);
            }
            assert(b == m) by (nonlinear_arith)
                requires
                    start == 2 * len * b,
                    start == n,
                    n == 2 * len * m,
                    len >= 1,
            ;
            assert(2 * len <= n) by (nonlinear_arith)
                requires
                    2 * len * m == n,
                    m >= 1,
            ;
            assert((2 * len) * m == n);
        }
        len = len * 2;
        proof {
            c = m;
        }
    }
    proof {
        assert(len == n) by (nonlinear_arith)
            requires
                len * c == n,
                c >= 1,
                len >= n,
                len >= 1,
        ;
        assert(gs_from(ints(a@), zetas_inv@, q as int, len as int) == ints(a@));
    }
    let ghost g = ints(a@);
    let mut i: usize = 0;
    while i < n
        invariant
            2 <= q < 0x8000_0000,
            n == a.len(),
            0 <= n_inv < q,
            g.len() == n,
            forall|x: int| 0 <= x < n ==> -0x8000_0000 <= #[trigger] g[x] < 0x8000_0000,
            forall|x: int| 0 <= x < i ==> #[trigger] a@[x] as int == (g[x] * n_inv) % (q as int),
            forall|x: int| i <= x < n ==> #[trigger] a@[x] as int == g[x],
        decreases n - i,
    {
        proof {
            assert(a@[i as int] as int == g[i as int]);
            lemma_prod_bound(n_inv as int, a@[i as int] as int);
        }
        let v = a[i];
        a[i] = crate::arith::rem_euclid_i64(v * n_inv, q);
        i = i + 1;
    }
    proof {
        assert(ints(a@) =~= inv_ntt_spec(a_in, zetas_inv@, n_inv as int, q as int));
    }
}

/// `n` is a power of two (vstd's `is_pow2`), decided by repeated halving.
pub fn is_power_of_two(n: usize) -> (b: bool)
    ensures
        b == vstd::arithmetic::power2::is_pow2(n as int),
{
    reveal(vstd::arithmetic::power2::is_pow2);
    if n == 0 {
        return false;
    }
    let mut t = n;
    while t > 1
        invariant
            t >= 1,
            vstd::arithmetic::power2::is_pow2(n as int) == vstd::arithmetic::power2::is_pow2(t as int),
        decreases t,
    {
        proof {
            reveal(vstd::arithmetic::power2::is_pow2);
        }
        if t % 2 != 0 {
            return false;
        }
        t = t / 2;
    }
    true
}

/// The exponent `l` with `2^l == n`, for a power of two `n`.
fn exact_log2(n: usize) -> (l: u32)
    requires
        vstd::arithmetic::power2::is_pow2(n as int),
    ensures
        pow2(l as nat) == n,
        l < 64,
{
    reveal(vstd::arithmetic::power2::is_pow2);
    let mut t = n;
    let mut l: u32 = 0;
    proof {
        vstd::arithmetic::power2::lemma_pow2(0);
        vstd::arithmetic::power::lemma_pow0(2);
    }
    while t > 1
        invariant
            t >= 1,
            vstd::arithmetic::power2::is_pow2(t as int),
            t * pow2(l as nat) == n,
            l < 64,
            pow2(l as nat) <= n,
        decreases t,
    {
        proof {
            reveal(vstd::arithmetic::power2::is_pow2);
            vstd::arithmetic::power2::lemma_pow2_unfold((l + 1) as nat);
            assert(t * pow2(l as nat) == (t / 2) * pow2((l + 1) as nat)) by (nonlinear_arith)
                requires
                    t % 2 == 0,
                    pow2((l + 1) as nat) == 2 * pow2(l as nat),
            ;
            assert(pow2((l + 1) as nat) <= n) by (nonlinear_arith)
                requires
                    t * pow2(l as nat) == n,
                    t >= 2,
                    pow2((l + 1) as nat) == 2 * pow2(l as nat),
            ;
            vstd::arithmetic::power2::lemma2_to64();
            if l + 1 >= 64 {
                vstd::arithmetic::power2::lemma_pow2_strictly_increases(63, (l + 1) as nat);
                assert(false);
            }
        }
        t = t / 2;
        l = l + 1;
    }
    l
}

/// Reverses the low `log_n` bits of `x`.
pub(crate) fn bit_reverse(x: usize, log_n: u32) -> (r: usize)
    requires
        log_n < 32,
    ensures
        r == bit_rev(x as nat, log_n as nat),
        r < pow2(log_n as nat),
{
    let mut r: usize = 0;
    let mut xc: usize = x;
    let mut i: u32 = 0;
    proof {
        vstd::arithmetic::power2::lemma2_to64();
    }
    while i < log_n
        invariant
            i <= log_n < 32,
            r < pow2(i as nat),
            r * pow2((log_n - i) as nat) + bit_rev(xc as nat, (log_n - i) as nat) == bit_rev(
                x as nat,
                log_n as nat,
            ),
        decreases log_n - i,
    {
        proof {
            let k = (log_n - i) as nat;
            vstd::arithmetic::power2::lemma_pow2_unfold(k);
            vstd::arithmetic::power2::lemma_pow2_unfold((i + 1) as nat);
            assert((r * 2 + xc % 2) * pow2((k - 1) as nat) + bit_rev((xc / 2) as nat, (k - 1) as nat)
                == r * pow2(k) + bit_rev(xc as nat, k)) by (nonlinear_arith)
                requires
                    pow2(k) == 2 * pow2((k - 1) as nat),
                    bit_rev(xc as nat, k) == (xc % 2) * pow2((k - 1) as nat) + bit_rev(
                        (xc / 2) as nat,
                        (k - 1) as nat,
                    ),
            ;
            vstd::arithmetic::power2::lemma2_to64();
            if i + 1 < 32 {
                vstd::arithmetic::power2::lemma_pow2_strictly_increases((i + 1) as nat, 32);
            }
            assert(r * 2 + xc % 2 < pow2((i + 1) as nat)) by (nonlinear_arith)
                requires
                    r < pow2(i as nat),
                    pow2((i + 1) as nat) == 2 * pow2(i as nat),
                    0 <= xc % 2 < 2,
            ;
            assert(pow2((i + 1) as nat) <= 0x1_0000_0000);
        }
        r = r * 2 + xc % 2;
        xc = xc / 2;
        i = i + 1;
    }
    proof {
        vstd::arithmetic::power2::lemma2_to64();
        assert(i == log_n);
        assert(bit_rev(xc as nat, 0) == 0);
        assert(pow2(0) == 1);
        assert((log_n - i) as nat == 0nat);
        assert(r * pow2(0nat) == r);
    }
    r
}

/// The bounded search range for a primitive root: bases `h` in `[2, ROOT_SEARCH_LIMIT)`.
pub const ROOT_SEARCH_LIMIT: i64 = 100_000;

/// The candidate derived from base `h`: `h^((q-1)/(2n)) mod q`.
pub open spec fn root_candidate(h: int, q: int, n: int) -> int {
    pow(h, ((q - 1) / (2 * n)) as nat) % q
}

/// `z` is a nonzero `2n`-th root of unity with `z^n == -1 (mod q)`; for a power-of-two `n`
/// this makes `z` primitive.
pub open spec fn is_negacyclic_root(z: int, q: int, n: int) -> bool {
    z != 0 && pow(z, n as nat) % q == q - 1
}

/// No base in `[2, h)` yields a root.
pub open spec fn no_root_below(q: int, n: int, h: int) -> bool {
    forall|g: int| 2 <= g < h ==> !#[trigger] is_negacyclic_root(root_candidate(g, q, n), q, n)
}

/// Searches bases `2, 3, ...` for the first whose candidate is a negacyclic root.
fn find_2n_root(q: i64, n: usize) -> (r: Result<i64, PqcError>)
    requires
        2 <= q < 0x8000_0000,
        1 <= n,
        (q - 1) % (2 * n) == 0,
    ensures
        match r {
            Ok(z) => exists|h: int|
                2 <= h < ROOT_SEARCH_LIMIT && z == root_candidate(h, q as int, n as int)
                    && is_negacyclic_root(z as int, q as int, n as int) && no_root_below(
                    q as int,
                    n as int,
                    h,
                ),
            Err(e) => e == PqcError::NoPrimitiveRoot { q, two_n: (2 * n) as i64 } && no_root_below(
                q as int,
                n as int,
                ROOT_SEARCH_LIMIT as int,
            ),
        },
{
    proof {
        let qm = (q - 1) as int;
        let d = 2 * n as int;
        vstd::arithmetic::div_mod::lemma_fundamental_div_mod(qm, d);
        assert(d <= qm) by (nonlinear_arith)
            requires
                qm == d * (qm / d) + qm % d,
                qm % d == 0,
                qm >= 1,
                d >= 2,
        ;
    }
    let two_n = 2 * n as i64;
    let exp = (q - 1) / two_n;
    let mut h: i64 = 2;
    while h < ROOT_SEARCH_LIMIT
        invariant
            2 <= q < 0x8000_0000,
            1 <= n,
            2 * n < 0x8000_0000,
            two_n == 2 * n,
            exp == (q - 1) / (2 * n as int),
            exp >= 0,
            2 <= h <= ROOT_SEARCH_LIMIT,
            no_root_below(q as int, n as int, h as int),
        decreases ROOT_SEARCH_LIMIT - h,
    {
        let zeta = mod_pow(h, exp, q);
        if zeta != 0 {
            if mod_pow(zeta, n as i64, q) == q - 1 {
                return Ok(zeta);
            }
        }
        proof {
            assert(!is_negacyclic_root(root_candidate(h as int, q as int, n as int), q as int, n as int));
            assert forall|g: int| 2 <= g < h + 1 implies !#[trigger] is_negacyclic_root(
                root_candidate(g, q as int, n as int),
                q as int,
                n as int,
            ) by {
                if g < h {
                } else {
                    assert(g == h);
                }
            }
        }
        h = h + 1;
    }
    Err(PqcError::NoPrimitiveRoot { q, two_n })
}

/// The base whose candidate is the root the table search settles on: the first one in
/// `[2, ROOT_SEARCH_LIMIT)` that yields a negacyclic root.
pub open spec fn first_root_base(q: int, n: int) -> int {
    choose|h: int|
        2 <= h < ROOT_SEARCH_LIMIT && is_negacyclic_root(root_candidate(h, q, n), q, n)
            && no_root_below(q, n, h)
}

/// The exponent of a power of two.
pub open spec fn log2_of(n: int) -> nat {
    choose|l: nat| pow2(l) == n
}

/// The forward twiddles of the table for degree `n` and modulus `q`.
pub open spec fn spec_zetas(n: int, q: int) -> Seq<i64> {
    Seq::new(
        n as nat,
        |i: int|
            (pow(root_candidate(first_root_base(q, n), q, n), bit_rev(i as nat, log2_of(n))) % q) as i64,
    )
}

/// The inverse twiddles: the negated forward ones.
pub open spec fn spec_zetas_inv(n: int, q: int) -> Seq<i64> {
    Seq::new(n as nat, |i: int| ((q - spec_zetas(n, q)[i]) % q) as i64)
}

/// `n^(q-2) mod q`, the inverse of `n` for a prime `q`.
pub open spec fn spec_n_inv(n: int, q: int) -> int {
    pow(n, (q - 2) as nat) % q
}

/// `t` holds exactly the table for its degree and modulus.
pub open spec fn table_is_spec(t: NttTable) -> bool {
    &&& t.zetas@ == spec_zetas(t.n as int, t.q as int)
    &&& t.zetas_inv@ == spec_zetas_inv(t.n as int, t.q as int)
    &&& t.n_inv == spec_n_inv(t.n as int, t.q as int)
}

/// Pointwise product mod `q` of two sequences of the same length.
pub open spec fn pointwise(x: Seq<int>, y: Seq<int>, q: int) -> Seq<int> {
    Seq::new(x.len(), |i: int| (x[i] * y[i]) % q)
}

/// The NTT-domain product in `Z_q[x]/(x^n + 1)` with the table for `(n, q)`: transform both,
/// multiply pointwise, transform back.
pub open spec fn ring_mul(a: Seq<int>, b: Seq<int>, n: int, q: int) -> Seq<int> {
    inv_ntt_spec(
        pointwise(ntt_spec(a, spec_zetas(n, q), q), ntt_spec(b, spec_zetas(n, q), q), q),
        spec_zetas_inv(n, q),
        spec_n_inv(n, q),
        q,
    )
}

proof fn lemma_table_is_spec(t: NttTable, n: int, q: int, h: int)
    requires
        2 <= h < ROOT_SEARCH_LIMIT,
        is_negacyclic_root(root_candidate(h, q, n), q, n),
        no_root_below(q, n, h),
        table_from_root(t, n, q, root_candidate(h, q, n)),
    ensures
        table_is_spec(t),
{
    let h0 = first_root_base(q, n);
    assert(2 <= h0 < ROOT_SEARCH_LIMIT && is_negacyclic_root(root_candidate(h0, q, n), q, n)
        && no_root_below(q, n, h0));
    if h0 < h {
        assert(!is_negacyclic_root(root_candidate(h0, q, n), q, n));
    } else if h < h0 {
        assert(!is_negacyclic_root(root_candidate(h, q, n), q, n));
    }
    assert(h0 == h);
    let l = choose|log_n: nat|
        pow2(log_n) == n && forall|i: int|
            0 <= i < n ==> #[trigger] t.zetas@[i] == pow(root_candidate(h, q, n), bit_rev(i as nat, log_n)) % q;
    let l0 = log2_of(n);
    assert(pow2(l0) == n);
    if l0 < l {
        vstd::arithmetic::power2::lemma_pow2_strictly_increases(l0, l);
    } else if l < l0 {
        vstd::arithmetic::power2::lemma_pow2_strictly_increases(l, l0);
    }
    assert(t.zetas@ =~= spec_zetas(n, q));
    assert(t.zetas_inv@ =~= spec_zetas_inv(n, q));
}

/// `t` is the table for degree `n`, modulus `q` and root `zeta`: twiddles `zeta^bitrev(i)` in
/// bit-reversed order, their negations, and `n^(q-2) = n^-1 (mod q)`.
pub open spec fn table_from_root(t: NttTable, n: int, q: int, zeta: int) -> bool {
    &&& t.n == n
    &&& t.q == q
    &&& t.zetas.len() == n
    &&& t.zetas_inv.len() == n
    &&& exists|log_n: nat|
        pow2(log_n) == n && forall|i: int|
            0 <= i < n ==> #[trigger] t.zetas@[i] == pow(zeta, bit_rev(i as nat, log_n)) % q
    &&& forall|i: int| 0 <= i < n ==> #[trigger] t.zetas_inv@[i] == (q - t.zetas@[i]) % q
    &&& t.n_inv == pow(n, (q - 2) as nat) % q
}

/// Builds the twiddle table for the ring `Z_q[x]/(x^n + 1)`: the root is the candidate of the
/// first base in `[2, ROOT_SEARCH_LIMIT)` that yields a negacyclic root.
pub fn build_table(n: usize, q: i32) -> (r: Result<NttTable, PqcError>)
    requires
        n < 0x4000_0000_0000_0000,
    ensures
        !vstd::arithmetic::power2::is_pow2(n as int) ==> r == Err::<NttTable, PqcError>(
            PqcError::NotPowerOfTwo { n },
        ),
        vstd::arithmetic::power2::is_pow2(n as int) && (q < 2 || (q - 1) % (2 * n as int) != 0)
            ==> r == Err::<NttTable, PqcError>(
            PqcError::NoElementOfOrder { q: q as i64, two_n: (2 * n) as i64 },
        ),
        vstd::arithmetic::power2::is_pow2(n as int) && q >= 2 && (q - 1) % (2 * n as int) == 0
            ==> {
            &&& (r is Err <==> no_root_below(q as int, n as int, ROOT_SEARCH_LIMIT as int))
            &&& r is Err ==> r == Err::<NttTable, PqcError>(
                PqcError::NoPrimitiveRoot { q: q as i64, two_n: (2 * n) as i64 },
            )
        },
        r matches Ok(t) ==> table_wf(t) && table_is_spec(t) && t.n == n && t.q == q && exists|h: int|
            2 <= h < ROOT_SEARCH_LIMIT && is_negacyclic_root(
                root_candidate(h, q as int, n as int),
                q as int,
                n as int,
            ) && no_root_below(q as int, n as int, h) && table_from_root(
                t,
                n as int,
                q as int,
                root_candidate(h, q as int, n as int),
            ),
{
    if !is_power_of_two(n) {
        return Err(PqcError::NotPowerOfTwo { n });
    }
    proof {
        reveal(vstd::arithmetic::power2::is_pow2);
    }
    let two_n: i64 = 2 * n as i64;
    let qq = q as i64;
    if qq < 2 || (qq - 1) % two_n != 0 {
        return Err(PqcError::NoElementOfOrder { q: qq, two_n });
    }
    proof {
        let qm = (qq - 1) as int;
        let d = 2 * n as int;
        vstd::arithmetic::div_mod::lemma_fundamental_div_mod(qm, d);
        assert(d <= qm) by (nonlinear_arith)
            requires
                qm == d * (qm / d) + qm % d,
                qm % d == 0,
                qm >= 1,
                d >= 2,
        ;
        reveal(vstd::arithmetic::power2::is_pow2);
    }
    let zeta = match find_2n_root(qq, n) {
        Ok(z) => z,
        Err(e) => {
            return Err(e);
        },
    };
    let log_n = exact_log2(n);
    proof {
        vstd::arithmetic::power2::lemma2_to64();
        if log_n > 31 {
            vstd::arithmetic::power2::lemma_pow2_strictly_increases(31, log_n as nat);
        }
    }
    let mut zetas: Vec<i64> = Vec::new();
    let mut zetas_inv: Vec<i64> = Vec::new();
    let mut i: usize = 0;
    while i < n
        invariant
            2 <= qq < 0x8000_0000,
            n < 0x4000_0000,
            log_n < 31,
            pow2(log_n as nat) == n,
            0 <= i <= n,
            zetas.len() == i,
            zetas_inv.len() == i,
            forall|x: int|
                0 <= x < i ==> #[trigger] zetas@[x] == pow(zeta as int, bit_rev(x as nat, log_n as nat))
                    % (qq as int),
            forall|x: int| 0 <= x < i ==> 0 <= #[trigger] zetas@[x] < qq,
            forall|x: int| 0 <= x < i ==> #[trigger] zetas_inv@[x] == (qq - zetas@[x]) % (qq as int),
            forall|x: int| 0 <= x < i ==> 0 <= #[trigger] zetas_inv@[x] < qq,
        decreases n - i,
    {
        let e = bit_reverse(i, log_n) as i64;
        let z = mod_pow(zeta, e, qq);
        zetas.push(z);
        zetas_inv.push((qq - z) % qq);
        i = i + 1;
    }
    let n_inv = mod_inverse(n as i64, qq);
    let t = NttTable { n, q: qq, zetas, zetas_inv, n_inv };
    proof {
        reveal(vstd::arithmetic::power2::is_pow2);
        assert(table_from_root(t, n as int, qq as int, zeta as int));
        let h = choose|h: int|
            2 <= h < ROOT_SEARCH_LIMIT && zeta == root_candidate(h, qq as int, n as int)
                && is_negacyclic_root(zeta as int, qq as int, n as int) && no_root_below(
                qq as int,
                n as int,
                h,
            );
        lemma_table_is_spec(t, n as int, qq as int, h);
    }
    Ok(t)
}

/// In-place forward NTT with `table`'s twiddles; `a` has `table.n` entries.
pub fn ntt(a: &mut [i64], table: &NttTable)
    requires
        table_wf(*table),
        old(a).len() == table.n,
        ntt_input_ok(old(a)@),
    ensures
        final(a).len() == old(a).len(),
        ints(final(a)@) == ntt_spec(ints(old(a)@), table.zetas@, table.q as int),
        ntt_input_ok(final(a)@),
{
    ntt_core(a, table.zetas.as_slice(), table.q);
}

/// In-place inverse NTT with `table`'s twiddles, including the scaling by `1/n`.
pub fn inv_ntt(a: &mut [i64], table: &NttTable)
    requires
        table_wf(*table),
        old(a).len() == table.n,
        ntt_input_ok(old(a)@),
    ensures
        final(a).len() == old(a).len(),
        ints(final(a)@) == inv_ntt_spec(ints(old(a)@), table.zetas_inv@, table.n_inv as int, table.q as int),
        forall|i: int| 0 <= i < final(a).len() ==> 0 <= #[trigger] final(a)@[i] < table.q,
{
    inv_ntt_core(a, table.zetas_inv.as_slice(), table.n_inv, table.q);
}

/// The values of an `i32` sequence as mathematical integers.
pub open spec fn ints32(s: Seq<i32>) -> Seq<int> {
    Seq::new(s.len(), |i: int| s[i] as int)
}

/// NTT-domain product: transform both operands, multiply pointwise mod q, transform back.
pub open spec fn ntt_mul_spec(a: Seq<int>, b: Seq<int>, t: NttTable) -> Seq<int> {
    inv_ntt_spec(
        pointwise(ntt_spec(a, t.zetas@, t.q as int), ntt_spec(b, t.zetas@, t.q as int), t.q as int),
        t.zetas_inv@,
        t.n_inv as int,
        t.q as int,
    )
}

fn widen(a: &[i32]) -> (v: Vec<i64>)
    ensures
        v.len() == a.len(),
        ints(v@) == ints32(a@),
        ntt_input_ok(v@),
{
    let mut v: Vec<i64> = Vec::new();
    let mut i: usize = 0;
    while i < a.len()
        invariant
            0 <= i <= a.len(),
            v.len() == i,
            forall|x: int| 0 <= x < i ==> #[trigger] v@[x] == a@[x] as i64,
        decreases a.len() - i,
    {
        v.push(a[i] as i64);
        i = i + 1;
    }
    proof {
        assert(ints(v@) =~= ints32(a@));
    }
    v
}

/// Negacyclic product of `a` and `b` via the NTT; both have `table.n` entries.
pub fn ntt_mul(a: &[i32], b: &[i32], table: &NttTable) -> (c: Vec<i32>)
    requires
        table_wf(*table),
        a.len() == table.n,
        b.len() == table.n,
    ensures
        ints32(c@) == ntt_mul_spec(ints32(a@), ints32(b@), *table),
        c.len() == table.n,
{
    let mut av = widen(a);
    let mut bv = widen(b);
    ntt(av.as_mut_slice(), table);
    ntt(bv.as_mut_slice(), table);
    let ghost fa = ints(av@);
    let ghost fb = ints(bv@);
    let mut cv: Vec<i64> = Vec::new();
    let mut i: usize = 0;
    while i < table.n
        invariant
            table_wf(*table),
            av.len() == table.n,
            bv.len() == table.n,
            fa == ints(av@),
            fb == ints(bv@),
            ntt_input_ok(av@),
            ntt_input_ok(bv@),
            0 <= i <= table.n,
            cv.len() == i,
            forall|x: int| 0 <= x < i ==> #[trigger] cv@[x] as int == (fa[x] * fb[x]) % (table.q as int),
            forall|x: int| 0 <= x < i ==> 0 <= #[trigger] cv@[x] < table.q,
        decreases table.n - i,
    {
        proof {
            assert(-0x8000_0000 <= av@[i as int] < 0x8000_0000);
            assert(-0x8000_0000 <= bv@[i as int] < 0x8000_0000);
            assert(-0x4000_0000_0000_0000 <= av@[i as int] * bv@[i as int] <= 0x4000_0000_0000_0000)
                by (nonlinear_arith)
                requires
                    -0x8000_0000 <= av@[i as int] < 0x8000_0000,
                    -0x8000_0000 <= bv@[i as int] < 0x8000_0000,
            ;
        }
        cv.push(crate::arith::rem_euclid_i64(av[i] * bv[i], table.q));
        i = i + 1;
    }
    proof {
        assert(ints(cv@) =~= pointwise(fa, fb, table.q as int));
    }
    inv_ntt(cv.as_mut_slice(), table);
    let ghost cres = ints(cv@);
    let mut out: Vec<i32> = Vec::new();
    let mut j: usize = 0;
    while j < cv.len()
        invariant
            table_wf(*table),
            0 <= j <= cv.len(),
            out.len() == j,
            forall|i: int| 0 <= i < cv.len() ==> 0 <= #[trigger] cv@[i] < table.q,
            forall|x: int| 0 <= x < j ==> #[trigger] out@[x] as int == cv@[x] as int,
        decreases cv.len() - j,
    {
        out.push(cv[j] as i32);
        j = j + 1;
    }
    proof {
        assert(ints32(out@) =~= ints(cv@));
    }
    out
}

} // verus!
