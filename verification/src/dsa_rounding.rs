//! FIPS 204 rounding (Power2Round / Decompose / HighBits / LowBits / MakeHint / UseHint),
//! with q and gamma2 as runtime parameters instead of compile-time constants.
use crate::poly::{Poly, N};
use vstd::prelude::*;

verus! {

/// Hint bits: one `Vec<bool>` of length N per polynomial in the k-length hint vector.
pub type Hint = Vec<Vec<bool>>;

/// Centered remainder: `r mod alpha` moved into `(-alpha/2, alpha/2]`.
pub open spec fn mod_pm_spec(r: int, alpha: int) -> int {
    let r0 = r % alpha;
    if r0 > alpha / 2 {
        r0 - alpha
    } else {
        r0
    }
}

/// FIPS 204 Decompose with alpha = 2 * gamma2: `(r1, r0)` with `r = r1 * alpha + r0 (mod q)`;
/// when `r1` would equal `(q - 1) / alpha` it is folded back to 0 and `r0` lowered by one.
pub open spec fn decompose_spec(r: int, gamma2: int, q: int) -> (int, int) {
    let alpha = 2 * gamma2;
    let rm = r % q;
    let r0 = mod_pm_spec(rm, alpha);
    if rm - r0 == q - 1 {
        (0, r0 - 1)
    } else {
        ((rm - r0) / alpha, r0)
    }
}

/// FIPS 204 Power2Round with d = 13: `(r1, r0)` with `r = r1 * 2^13 + r0 (mod q)`.
pub open spec fn power2round_spec(r: int, q: int) -> (int, int) {
    let rm = r % q;
    let r0 = mod_pm_spec(rm, 8192);
    ((rm - r0) / 8192, r0)
}

/// FIPS 204 UseHint: the high bits of `r`, moved one step toward the sign of its low bits
/// (cyclically mod `(q - 1) / (2 * gamma2)`) when the hint is set.
pub open spec fn use_hint_spec(h: bool, r: int, gamma2: int, q: int) -> int {
    let m = (q - 1) / (2 * gamma2);
    let (r1, r0) = decompose_spec(r, gamma2, q);
    if !h {
        r1
    } else if r0 > 0 {
        (r1 + 1) % m
    } else {
        (r1 - 1) % m
    }
}

/// The centered representative of `c mod q`, in `(-q/2, q/2]`.
pub open spec fn centered_spec(c: int, q: int) -> int {
    let r = c % q;
    if r > q / 2 {
        r - q
    } else {
        r
    }
}

/// Distance of `c` from 0 mod q: `min(c mod q, q - c mod q)`.
pub open spec fn centered_abs(c: int, q: int) -> int {
    let r = c % q;
    if r <= q - r {
        r
    } else {
        q - r
    }
}

/// Largest `centered_abs` over the first `n` entries (0 when `n == 0`).
pub open spec fn max_centered_abs(s: Seq<i32>, q: int, n: int) -> int
    decreases n,
{
    if n <= 0 {
        0
    } else {
        let rest = max_centered_abs(s, q, n - 1);
        let here = centered_abs(s[n - 1] as int, q);
        if here > rest {
            here
        } else {
            rest
        }
    }
}

/// Largest coefficient norm over the first `n` polynomials of `v`.
pub open spec fn max_norm_vec(v: Seq<Poly>, q: int, n: int) -> int
    decreases n,
{
    if n <= 0 {
        0
    } else {
        let rest = max_norm_vec(v, q, n - 1);
        let here = max_centered_abs(v[n - 1].coeffs@, q, N as int);
        if here > rest {
            here
        } else {
            rest
        }
    }
}

/// Number of set bits among the first `n` entries.
pub open spec fn count_true(s: Seq<bool>, n: int) -> nat
    decreases n,
{
    if n <= 0 {
        0
    } else {
        count_true(s, n - 1) + if s[n - 1] {
            1nat
        } else {
            0nat
        }
    }
}

/// Number of set bits in the first `n` rows of a hint.
pub open spec fn hint_count(h: Seq<Vec<bool>>, n: int) -> nat
    decreases n,
{
    if n <= 0 {
        0
    } else {
        hint_count(h, n - 1) + count_true(h[n - 1]@, h[n - 1]@.len() as int)
    }
}

/// Parameters for which Decompose, MakeHint and UseHint are defined without overflow.
pub open spec fn rounding_params_ok(gamma2: int, q: int) -> bool {
    0 < gamma2 && 2 * gamma2 <= q - 1 && q < 0x8000_0000
}

/// `mod_pm` subtracts a multiple of `alpha` and lands in `(-alpha/2, alpha/2]` (alpha even).
proof fn lemma_mod_pm_facts(rm: int, alpha: int)
    requires
        rm >= 0,
        alpha > 0,
        alpha % 2 == 0,
    ensures
        ({
            let r0 = mod_pm_spec(rm, alpha);
            let m = (rm - r0) / alpha;
            &&& -(alpha / 2) < r0 <= alpha / 2
            &&& rm - r0 == alpha * m
            &&& 0 <= m
            &&& alpha * m < rm + alpha / 2 + 1
        }),
{
    vstd::arithmetic::div_mod::lemma_fundamental_div_mod(rm, alpha);
    vstd::arithmetic::div_mod::lemma_mod_bound(rm, alpha);
    vstd::arithmetic::div_mod::lemma_div_pos_is_pos(rm, alpha);
    let d = rm / alpha;
    let r0 = mod_pm_spec(rm, alpha);
    let m = if rm % alpha > alpha / 2 {
        d + 1
    } else {
        d
    };
    assert(rm - r0 == alpha * m) by (nonlinear_arith)
        requires
            rm == alpha * d + rm % alpha,
            m == d + 1 ==> r0 == rm % alpha - alpha,
            m == d ==> r0 == rm % alpha,
            m == d || m == d + 1,
    ;
    vstd::arithmetic::div_mod::lemma_div_multiples_vanish(m, alpha);
    assert(alpha * m / alpha == m);
    assert(m * alpha == alpha * m) by (nonlinear_arith);
}

/// `mod_pm` subtracts a multiple of `alpha` and lands in `(-alpha/2, alpha/2]`, for `rm` in
/// `[0, q)`.
pub proof fn lemma_mod_pm_facts_pub(rm: int, alpha: int)
    requires
        rm >= 0,
        alpha > 0,
        alpha % 2 == 0,
    ensures
        ({
            let r0 = mod_pm_spec(rm, alpha);
            &&& -(alpha / 2) < r0 <= alpha / 2
            &&& (rm - r0) % alpha == 0
            &&& (rm - r0) / alpha * alpha == rm - r0
            &&& (rm - r0) / alpha >= 0
        }),
{
    lemma_mod_pm_facts(rm, alpha);
    let r0 = mod_pm_spec(rm, alpha);
    let m = (rm - r0) / alpha;
    assert(m * alpha == alpha * m) by (nonlinear_arith);
    vstd::arithmetic::div_mod::lemma_mod_multiples_basic(m, alpha);
}

fn mod_pm(r: i64, alpha: i64) -> (r0: i64)
    requires
        alpha > 0,
    ensures
        r0 == mod_pm_spec(r as int, alpha as int),
{
    let mut r0 = crate::arith::rem_euclid_i64(r, alpha);
    if r0 > alpha / 2 {
        r0 = r0 - alpha;
    }
    r0
}

/// Splits r (any representative, reduced mod q internally) into (r1, r0) such that
/// r = r1*alpha + r0 (mod q), with r0 in (-alpha/2, alpha/2], alpha = 2*gamma2. Handles the
/// edge case where r1 would wrap to (q-1)/alpha by folding it back to r1 = 0.
pub fn decompose(r: i32, gamma2: i32, q: i32) -> (out: (i32, i32))
    requires
        rounding_params_ok(gamma2 as int, q as int),
    ensures
        (out.0 as int, out.1 as int) == decompose_spec(r as int, gamma2 as int, q as int),
{
    let alpha = 2 * gamma2 as i64;
    let r_mod = crate::arith::rem_euclid_i64(r as i64, q as i64);
    let mut r0 = mod_pm(r_mod, alpha);
    proof {
        lemma_mod_pm_facts(r_mod as int, alpha as int);
        let ghost dd = (r_mod - r0) / (alpha as int);
        assert(2 * dd <= r_mod - r0) by (nonlinear_arith)
            requires
                r_mod - r0 == alpha * dd,
                alpha >= 2,
                0 <= dd,
        ;
    }
    let r1 = if r_mod - r0 == (q as i64) - 1 {
        r0 = r0 - 1;
        0
    } else {
        (r_mod - r0) / alpha
    };
    (r1 as i32, r0 as i32)
}

/// `decompose` reconstructs its input: `r1 * 2 * gamma2 + r0 == r (mod q)`, with
/// `-gamma2 <= r0 <= gamma2`.
pub proof fn lemma_decompose_reconstructs(r: int, gamma2: int, q: int)
    requires
        rounding_params_ok(gamma2, q),
    ensures
        ({
            let (r1, r0) = decompose_spec(r, gamma2, q);
            &&& (r1 * (2 * gamma2) + r0) % q == r % q
            &&& -gamma2 <= r0 <= gamma2
        }),
{
    let alpha = 2 * gamma2;
    let rm = r % q;
    let r0 = mod_pm_spec(rm, alpha);
    vstd::arithmetic::div_mod::lemma_mod_bound(r, q);
    lemma_mod_pm_facts(rm, alpha);
    let m = (rm - r0) / alpha;
    vstd::arithmetic::div_mod::lemma_mod_twice(r, q);
    if rm - r0 == q - 1 {
        vstd::arithmetic::div_mod::lemma_mod_add_multiples_vanish(rm - q, q);
        assert(0 * alpha + (r0 - 1) == rm - q);
    } else {
        assert(m * alpha == alpha * m) by (nonlinear_arith);
    }
}

/// A split `x = alpha * t + r` with `r` in `(-alpha/2, alpha/2]` is the one `mod_pm` finds.
proof fn lemma_split_unique(x: int, alpha: int, t: int, r: int)
    requires
        alpha > 0,
        alpha % 2 == 0,
        x == alpha * t + r,
        -(alpha / 2) < r <= alpha / 2,
    ensures
        mod_pm_spec(x, alpha) == r,
        (x - r) / alpha == t,
{
    if r >= 0 {
        assert(x == t * alpha + r) by (nonlinear_arith)
            requires
                x == alpha * t + r,
        ;
        vstd::arithmetic::div_mod::lemma_fundamental_div_mod_converse(x, alpha, t, r);
    } else {
        assert(x == (t - 1) * alpha + (r + alpha)) by (nonlinear_arith)
            requires
                x == alpha * t + r,
        ;
        vstd::arithmetic::div_mod::lemma_fundamental_div_mod_converse(x, alpha, t - 1, r + alpha);
    }
    assert((x - r) == t * alpha) by (nonlinear_arith)
        requires
            x == alpha * t + r,
    ;
    vstd::arithmetic::div_mod::lemma_div_multiples_vanish(t, alpha);
    assert(alpha * t == t * alpha) by (nonlinear_arith);
}

/// The parts Decompose works with for `x` in `[0, q)`: `x = alpha * t + r0` with `t` in
/// `[0, m]`; `t == m` is the folded case, where `r0 <= 0`.
proof fn lemma_decompose_parts(x: int, gamma2: int, q: int)
    requires
        rounding_params_ok(gamma2, q),
        (q - 1) % (2 * gamma2) == 0,
        0 <= x < q,
    ensures
        ({
            let alpha = 2 * gamma2;
            let m = (q - 1) / alpha;
            let r0 = mod_pm_spec(x, alpha);
            let t = (x - r0) / alpha;
            &&& x == alpha * t + r0
            &&& -gamma2 < r0 <= gamma2
            &&& 0 <= t <= m
            &&& m >= 1
            &&& q - 1 == alpha * m
            &&& (t == m ==> r0 <= 0)
            &&& decompose_spec(x, gamma2, q) == (if t == m {
                (0, r0 - 1)
            } else {
                (t, r0)
            })
        }),
{
    let alpha = 2 * gamma2;
    let m = (q - 1) / alpha;
    vstd::arithmetic::div_mod::lemma_fundamental_div_mod(q - 1, alpha);
    assert(q - 1 == alpha * m);
    lemma_mod_pm_facts(x, alpha);
    let r0 = mod_pm_spec(x, alpha);
    let t = (x - r0) / alpha;
    assert(m >= 1) by (nonlinear_arith)
        requires
            q - 1 == alpha * m,
            alpha <= q - 1,
            alpha > 0,
    ;
    assert(t <= m) by (nonlinear_arith)
        requires
            x - r0 == alpha * t,
            x <= alpha * m,
            r0 > -gamma2,
            alpha == 2 * gamma2,
            gamma2 > 0,
    ;
    vstd::arithmetic::div_mod::lemma_small_mod(x as nat, q as nat);
    assert((t == m) == (x - r0 == q - 1)) by (nonlinear_arith)
        requires
            x - r0 == alpha * t,
            q - 1 == alpha * m,
            alpha > 0,
    ;
}

/// The high bits of `x` in `[0, q)` given any split `x = alpha * t + r` with `r` in
/// `(-gamma2, gamma2]` and `0 <= t <= m` (where `t == m` folds to 0).
proof fn lemma_high_of_split(x: int, t: int, r: int, gamma2: int, q: int)
    requires
        rounding_params_ok(gamma2, q),
        (q - 1) % (2 * gamma2) == 0,
        0 <= x < q,
        x == 2 * gamma2 * t + r,
        -gamma2 < r <= gamma2,
    ensures
        decompose_spec(x, gamma2, q).0 == (if t == (q - 1) / (2 * gamma2) { 0 } else { t }),
{
    let alpha = 2 * gamma2;
    lemma_decompose_parts(x, gamma2, q);
    lemma_split_unique(x, alpha, t, r);
}

/// FIPS 204's high-bits stability (Dilithium, Lemma 2): adding `s` with `|s| <= beta` to `r`
/// whose low bits lie strictly within `gamma2 - beta` of 0 leaves the high bits unchanged.
pub proof fn lemma_high_bits_stable(r: int, s: int, gamma2: int, beta: int, q: int)
    requires
        rounding_params_ok(gamma2, q),
        (q - 1) % (2 * gamma2) == 0,
        0 <= beta < gamma2,
        -beta <= s <= beta,
        -(gamma2 - beta) < decompose_spec(r, gamma2, q).1 < gamma2 - beta,
    ensures
        decompose_spec(r + s, gamma2, q).0 == decompose_spec(r, gamma2, q).0,
{
    let alpha = 2 * gamma2;
    let m = (q - 1) / alpha;
    let x = r % q;
    let y = (r + s) % q;
    vstd::arithmetic::div_mod::lemma_mod_bound(r, q);
    vstd::arithmetic::div_mod::lemma_mod_bound(r + s, q);
    vstd::arithmetic::div_mod::lemma_mod_twice(r, q);
    vstd::arithmetic::div_mod::lemma_mod_twice(r + s, q);
    assert(decompose_spec(r, gamma2, q) == decompose_spec(x, gamma2, q));
    assert(decompose_spec(r + s, gamma2, q) == decompose_spec(y, gamma2, q));
    lemma_decompose_parts(x, gamma2, q);
    let r0 = mod_pm_spec(x, alpha);
    let t = (x - r0) / alpha;
    // y is x + s reduced once
    vstd::arithmetic::div_mod::lemma_add_mod_noop(r, s, q);
    vstd::arithmetic::div_mod::lemma_small_mod(x as nat, q as nat);
    assert(y == (x + s) % q) by {
        vstd::arithmetic::div_mod::lemma_add_mod_noop(x, s, q);
        if s >= 0 {
            vstd::arithmetic::div_mod::lemma_small_mod(s as nat, q as nat);
        } else {
            vstd::arithmetic::div_mod::lemma_mod_add_multiples_vanish(s, q);
            vstd::arithmetic::div_mod::lemma_small_mod((s + q) as nat, q as nat);
            vstd::arithmetic::div_mod::lemma_add_mod_noop(x, s + q, q);
            vstd::arithmetic::div_mod::lemma_mod_add_multiples_vanish(x + s, q);
        }
    }
    if t < m {
        // r0 is the low part; |r0 + s| < gamma2
        if x + s >= 0 {
            assert(alpha * t <= alpha * (m - 1)) by (nonlinear_arith)
                requires
                    alpha > 0,
                    t <= m - 1,
            ;
            assert(alpha * (m - 1) == alpha * m - alpha) by (nonlinear_arith);
            assert(x + s < q);
            vstd::arithmetic::div_mod::lemma_small_mod((x + s) as nat, q as nat);
            lemma_high_of_split(y, t, r0 + s, gamma2, q);
        } else {
            assert(alpha * t < alpha);
            assert(t < 1) by (nonlinear_arith)
                requires
                    alpha * t < alpha,
                    alpha > 0,
            ;
            assert(t == 0);
            vstd::arithmetic::div_mod::lemma_mod_add_multiples_vanish(x + s, q);
            vstd::arithmetic::div_mod::lemma_small_mod((x + s + q) as nat, q as nat);
            assert(y == x + s + q);
            lemma_high_of_split(y, m, 1 + r0 + s, gamma2, q);
        }
    } else {
        // folded: the high bits are 0 and r0 - 1 is the low part
        if r0 + s <= 0 {
            vstd::arithmetic::div_mod::lemma_small_mod((x + s) as nat, q as nat);
            lemma_high_of_split(y, m, r0 + s, gamma2, q);
        } else {
            assert(x + s >= q);
            vstd::arithmetic::div_mod::lemma_mod_add_multiples_vanish(x + s - q, q);
            vstd::arithmetic::div_mod::lemma_small_mod((x + s - q) as nat, q as nat);
            assert(y == x + s - q);
            lemma_high_of_split(y, 0, r0 + s - 1, gamma2, q);
        }
    }
}

/// FIPS 204's hint recovery (Dilithium, Lemma 1): for `|z| <= gamma2`, the hint saying whether
/// `z` moves the high bits of `r` lets UseHint recover `HighBits(r + z)` from `r` alone.
pub proof fn lemma_use_hint_recovers(z: int, r: int, gamma2: int, q: int)
    requires
        rounding_params_ok(gamma2, q),
        (q - 1) % (2 * gamma2) == 0,
        -gamma2 <= z <= gamma2,
    ensures
        use_hint_spec(decompose_spec(r, gamma2, q).0 != decompose_spec(r + z, gamma2, q).0, r, gamma2, q)
            == decompose_spec(r + z, gamma2, q).0,
{
    let alpha = 2 * gamma2;
    let m = (q - 1) / alpha;
    let rm = r % q;
    vstd::arithmetic::div_mod::lemma_mod_bound(r, q);
    lemma_decompose_reconstructs(r, gamma2, q);
    vstd::arithmetic::div_mod::lemma_mod_twice(r, q);
    lemma_decompose_parts(rm, gamma2, q);
    let r0 = mod_pm_spec(rm, alpha);
    let t = (rm - r0) / alpha;
    assert(decompose_spec(r, gamma2, q) == decompose_spec(rm, gamma2, q));
    let sm = (r + z) % q;
    vstd::arithmetic::div_mod::lemma_mod_bound(r + z, q);
    vstd::arithmetic::div_mod::lemma_mod_twice(r + z, q);
    assert(decompose_spec(r + z, gamma2, q) == decompose_spec(sm, gamma2, q));
    vstd::arithmetic::div_mod::lemma_add_mod_noop(r, z, q);
    let s = rm + z;
    assert(sm == s % q) by {
        vstd::arithmetic::div_mod::lemma_mod_add_multiples_vanish(0, q);
        vstd::arithmetic::div_mod::lemma_add_mod_noop(rm, z, q);
        vstd::arithmetic::div_mod::lemma_mod_twice(r, q);
        vstd::arithmetic::div_mod::lemma_add_mod_noop(r, z, q);
        vstd::arithmetic::div_mod::lemma_mod_twice(z, q);
    }
    lemma_decompose_parts(sm, gamma2, q);
    let hr = decompose_spec(r, gamma2, q).0;
    let hs = decompose_spec(r + z, gamma2, q).0;
    if hr == hs {
        // No hint: UseHint returns the high bits of r, which are those of r + z.
    } else if s < 0 {
        // r + z wraps below 0: both sides have high bits 0, so this case does not arise.
        vstd::arithmetic::div_mod::lemma_mod_add_multiples_vanish(s, q);
        assert(sm == s + q) by {
            vstd::arithmetic::div_mod::lemma_small_mod((s + q) as nat, q as nat);
            vstd::arithmetic::div_mod::lemma_mod_add_multiples_vanish(s, q);
        }
        assert(t == 0) by (nonlinear_arith)
            requires
                rm == alpha * t + r0,
                0 <= t,
                rm < gamma2,
                r0 > -gamma2,
                alpha == 2 * gamma2,
                gamma2 > 0,
        ;
        assert(sm == alpha * m + (s + 1));
        lemma_split_unique(sm, alpha, m, s + 1);
        assert(hs == 0);
        assert(hr == 0);
    } else if s >= q {
        vstd::arithmetic::div_mod::lemma_mod_add_multiples_vanish(s - q, q);
        vstd::arithmetic::div_mod::lemma_small_mod((s - q) as nat, q as nat);
        assert(sm == s - q);
        lemma_split_unique(sm, alpha, 0, sm);
        assert(t == m) by (nonlinear_arith)
            requires
                rm == alpha * t + r0,
                rm >= q - gamma2,
                r0 <= gamma2,
                q - 1 == alpha * m,
                alpha == 2 * gamma2,
                t <= m,
                gamma2 > 0,
        ;
        assert(false);
    } else {
        vstd::arithmetic::div_mod::lemma_small_mod(s as nat, q as nat);
        assert(sm == s);
        let u = r0 + z;
        if u > gamma2 {
            assert(s == alpha * (t + 1) + (u - alpha)) by (nonlinear_arith)
                requires
                    s == rm + z,
                    rm == alpha * t + r0,
                    u == r0 + z,
            ;
            lemma_split_unique(s, alpha, t + 1, u - alpha);
            assert(t < m);
            if t + 1 == m {
                vstd::arithmetic::div_mod::lemma_mod_self_0(m);
            } else {
                vstd::arithmetic::div_mod::lemma_small_mod((t + 1) as nat, m as nat);
            }
            assert(hs == (t + 1) % m);
        } else if u <= -gamma2 {
            assert(s == alpha * (t - 1) + (u + alpha)) by (nonlinear_arith)
                requires
                    s == rm + z,
                    rm == alpha * t + r0,
                    u == r0 + z,
            ;
            lemma_split_unique(s, alpha, t - 1, u + alpha);
            assert(t >= 1);
            assert(hs == t - 1);
            if t == m {
                assert((0 - 1) % m == m - 1) by {
                    vstd::arithmetic::div_mod::lemma_mod_add_multiples_vanish(-1, m);
                    vstd::arithmetic::div_mod::lemma_small_mod((m - 1) as nat, m as nat);
                }
            } else {
                vstd::arithmetic::div_mod::lemma_small_mod((t - 1) as nat, m as nat);
            }
        } else {
            lemma_split_unique(s, alpha, t, u);
        }
    }
}

/// FIPS 204 Algorithm 35 (Power2Round): splits r into (r1, r0) with r = r1*2^13 + r0 (mod q),
/// r0 in (-2^12, 2^12]. d = 13 is a fixed global FIPS 204 constant.
pub fn power2round(r: i32, q: i32) -> (out: (i32, i32))
    requires
        0 < q,
    ensures
        (out.0 as int, out.1 as int) == power2round_spec(r as int, q as int),
{
    let r_mod = crate::arith::rem_euclid_i64(r as i64, q as i64);
    let r0 = mod_pm(r_mod, 8192);
    proof {
        lemma_mod_pm_facts(r_mod as int, 8192);
    }
    let r1 = (r_mod - r0) / 8192;
    (r1 as i32, r0 as i32)
}

/// `power2round` reconstructs its input: `r1 * 2^13 + r0 == r (mod q)`, with
/// `-2^12 < r0 <= 2^12`.
pub proof fn lemma_power2round_reconstructs(r: int, q: int)
    requires
        0 < q,
    ensures
        ({
            let (r1, r0) = power2round_spec(r, q);
            &&& (r1 * 8192 + r0) % q == r % q
            &&& -4096 < r0 <= 4096
        }),
{
    let rm = r % q;
    let r0 = mod_pm_spec(rm, 8192);
    vstd::arithmetic::div_mod::lemma_mod_bound(r, q);
    lemma_mod_pm_facts(rm, 8192);
    let m = (rm - r0) / 8192;
    assert(m * 8192 == 8192 * m) by (nonlinear_arith);
    vstd::arithmetic::div_mod::lemma_mod_twice(r, q);
}

pub fn power2round_vec(v: &[Poly], q: i32) -> (out: (Vec<Poly>, Vec<Poly>))
    requires
        0 < q,
    ensures
        out.0.len() == v.len(),
        out.1.len() == v.len(),
        forall|t: int, i: int|
            0 <= t < v.len() && 0 <= i < N ==> (#[trigger] out.0@[t].coeffs@[i] as int,
            #[trigger] out.1@[t].coeffs@[i] as int) == power2round_spec(
                v@[t].coeffs@[i] as int,
                q as int,
            ),
{
    let mut t1: Vec<Poly> = Vec::with_capacity(v.len());
    let mut t0: Vec<Poly> = Vec::with_capacity(v.len());
    let mut t: usize = 0;
    while t < v.len()
        invariant
            0 < q,
            t <= v.len(),
            t1.len() == t,
            t0.len() == t,
            forall|s: int, i: int|
                0 <= s < t && 0 <= i < N ==> (#[trigger] t1@[s].coeffs@[i] as int,
                #[trigger] t0@[s].coeffs@[i] as int) == power2round_spec(
                    v@[s].coeffs@[i] as int,
                    q as int,
                ),
        decreases v.len() - t,
    {
        let mut p1 = Poly::zero();
        let mut p0 = Poly::zero();
        let mut i: usize = 0;
        while i < N
            invariant
                0 < q,
                t < v.len(),
                i <= N,
                forall|j: int|
                    0 <= j < i ==> (#[trigger] p1.coeffs@[j] as int, p0.coeffs@[j] as int)
                        == power2round_spec(v@[t as int].coeffs@[j] as int, q as int),
            decreases N - i,
        {
            let (r1, r0) = power2round(v[t].coeffs[i], q);
            p1.coeffs[i] = r1;
            p0.coeffs[i] = r0;
            i = i + 1;
        }
        t1.push(p1);
        t0.push(p0);
        t = t + 1;
    }
    (t1, t0)
}

pub fn high_bits(r: i32, gamma2: i32, q: i32) -> (h: i32)
    requires
        rounding_params_ok(gamma2 as int, q as int),
    ensures
        h as int == decompose_spec(r as int, gamma2 as int, q as int).0,
{
    decompose(r, gamma2, q).0
}

pub fn low_bits(r: i32, gamma2: i32, q: i32) -> (l: i32)
    requires
        rounding_params_ok(gamma2 as int, q as int),
    ensures
        l as int == decompose_spec(r as int, gamma2 as int, q as int).1,
{
    decompose(r, gamma2, q).1
}

/// True iff adding correction z to r changes the high bits — i.e. a hint is needed to recover
/// the correct high bits at verify time from a value that was rounded differently.
pub fn make_hint(z: i32, r: i32, gamma2: i32, q: i32) -> (b: bool)
    requires
        rounding_params_ok(gamma2 as int, q as int),
        i32::MIN <= r + z <= i32::MAX,
    ensures
        b == (decompose_spec(r as int, gamma2 as int, q as int).0 != decompose_spec(
            r + z,
            gamma2 as int,
            q as int,
        ).0),
{
    let r1 = high_bits(r, gamma2, q);
    let v1 = high_bits(r + z, gamma2, q);
    r1 != v1
}

/// Recovers the corrected high bits of r using a hint bit produced by `make_hint`.
pub fn use_hint(h: bool, r: i32, gamma2: i32, q: i32) -> (out: i32)
    requires
        rounding_params_ok(gamma2 as int, q as int),
    ensures
        out as int == use_hint_spec(h, r as int, gamma2 as int, q as int),
{
    let alpha = 2 * gamma2;
    let m = (q - 1) / alpha;
    let (r1, r0) = decompose(r, gamma2, q);
    proof {
        vstd::arithmetic::div_mod::lemma_div_by_self(alpha as int);
        vstd::arithmetic::div_mod::lemma_div_is_ordered(alpha as int, (q - 1) as int, alpha as int);
        lemma_decompose_r1_bound(r as int, gamma2 as int, q as int);
        vstd::arithmetic::div_mod::lemma_fundamental_div_mod(q as int, alpha as int);
        vstd::arithmetic::div_mod::lemma_mod_bound(q as int, alpha as int);
        let ghost qd = (q as int) / (alpha as int);
        assert(2 * qd <= q) by (nonlinear_arith)
            requires
                q == alpha * qd + (q as int) % (alpha as int),
                0 <= (q as int) % (alpha as int),
                alpha >= 2,
                q > 0,
        ;
    }
    if !h {
        return r1;
    }
    if r0 > 0 {
        crate::arith::rem_euclid_i32(r1 + 1, m)
    } else {
        crate::arith::rem_euclid_i32(r1 - 1, m)
    }
}

/// The high part of `decompose` stays within `[0, q / (2 * gamma2)]`.
proof fn lemma_decompose_r1_bound(r: int, gamma2: int, q: int)
    requires
        rounding_params_ok(gamma2, q),
    ensures
        0 <= decompose_spec(r, gamma2, q).0 <= q / (2 * gamma2) + 1,
        -gamma2 - 1 <= decompose_spec(r, gamma2, q).1 <= gamma2,
{
    let alpha = 2 * gamma2;
    let rm = r % q;
    vstd::arithmetic::div_mod::lemma_mod_bound(r, q);
    lemma_mod_pm_facts(rm, alpha);
    let r0 = mod_pm_spec(rm, alpha);
    let m = (rm - r0) / alpha;
    vstd::arithmetic::div_mod::lemma_fundamental_div_mod(q, alpha);
    vstd::arithmetic::div_mod::lemma_mod_bound(q, alpha);
    let qd = q / alpha;
    assert(m <= qd + 1) by (nonlinear_arith)
        requires
            alpha * m < rm + alpha / 2 + 1,
            rm < q,
            alpha >= 2,
            q == alpha * qd + q % alpha,
            q % alpha < alpha,
            m >= 0,
    ;
}

pub fn high_bits_vec(v: &[Poly], gamma2: i32, q: i32) -> (out: Vec<Poly>)
    requires
        rounding_params_ok(gamma2 as int, q as int),
    ensures
        out.len() == v.len(),
        forall|t: int, i: int|
            0 <= t < v.len() && 0 <= i < N ==> #[trigger] out@[t].coeffs@[i] as int
                == decompose_spec(v@[t].coeffs@[i] as int, gamma2 as int, q as int).0,
{
    let mut out: Vec<Poly> = Vec::with_capacity(v.len());
    let mut t: usize = 0;
    while t < v.len()
        invariant
            rounding_params_ok(gamma2 as int, q as int),
            t <= v.len(),
            out.len() == t,
            forall|s: int, i: int|
                0 <= s < t && 0 <= i < N ==> #[trigger] out@[s].coeffs@[i] as int
                    == decompose_spec(v@[s].coeffs@[i] as int, gamma2 as int, q as int).0,
        decreases v.len() - t,
    {
        let mut p = Poly::zero();
        let mut i: usize = 0;
        while i < N
            invariant
                rounding_params_ok(gamma2 as int, q as int),
                t < v.len(),
                i <= N,
                forall|j: int|
                    0 <= j < i ==> #[trigger] p.coeffs@[j] as int == decompose_spec(
                        v@[t as int].coeffs@[j] as int,
                        gamma2 as int,
                        q as int,
                    ).0,
            decreases N - i,
        {
            p.coeffs[i] = high_bits(v[t].coeffs[i], gamma2, q);
            i = i + 1;
        }
        out.push(p);
        t = t + 1;
    }
    out
}

pub fn low_bits_vec(v: &[Poly], gamma2: i32, q: i32) -> (out: Vec<Poly>)
    requires
        rounding_params_ok(gamma2 as int, q as int),
    ensures
        out.len() == v.len(),
        forall|t: int, i: int|
            0 <= t < v.len() && 0 <= i < N ==> #[trigger] out@[t].coeffs@[i] as int
                == decompose_spec(v@[t].coeffs@[i] as int, gamma2 as int, q as int).1,
{
    let mut out: Vec<Poly> = Vec::with_capacity(v.len());
    let mut t: usize = 0;
    while t < v.len()
        invariant
            rounding_params_ok(gamma2 as int, q as int),
            t <= v.len(),
            out.len() == t,
            forall|s: int, i: int|
                0 <= s < t && 0 <= i < N ==> #[trigger] out@[s].coeffs@[i] as int
                    == decompose_spec(v@[s].coeffs@[i] as int, gamma2 as int, q as int).1,
        decreases v.len() - t,
    {
        let mut p = Poly::zero();
        let mut i: usize = 0;
        while i < N
            invariant
                rounding_params_ok(gamma2 as int, q as int),
                t < v.len(),
                i <= N,
                forall|j: int|
                    0 <= j < i ==> #[trigger] p.coeffs@[j] as int == decompose_spec(
                        v@[t as int].coeffs@[j] as int,
                        gamma2 as int,
                        q as int,
                    ).1,
            decreases N - i,
        {
            p.coeffs[i] = low_bits(v[t].coeffs[i], gamma2, q);
            i = i + 1;
        }
        out.push(p);
        t = t + 1;
    }
    out
}

/// One row of hints per pair of polynomials (over the common length of `z` and `r`).
pub fn make_hint_vec(z: &[Poly], r: &[Poly], gamma2: i32, q: i32) -> (h: Hint)
    requires
        rounding_params_ok(gamma2 as int, q as int),
        forall|t: int, i: int|
            0 <= t < z.len() && t < r.len() && 0 <= i < N ==> i32::MIN <= #[trigger] r@[t].coeffs@[i]
                + #[trigger] z@[t].coeffs@[i] <= i32::MAX,
    ensures
        h.len() == if z.len() <= r.len() {
            z.len()
        } else {
            r.len()
        },
        forall|t: int| 0 <= t < h.len() ==> #[trigger] h@[t]@.len() == N,
        forall|t: int, i: int|
            0 <= t < h.len() && 0 <= i < N ==> #[trigger] h@[t]@[i] == (decompose_spec(
                r@[t].coeffs@[i] as int,
                gamma2 as int,
                q as int,
            ).0 != decompose_spec(
                r@[t].coeffs@[i] + z@[t].coeffs@[i],
                gamma2 as int,
                q as int,
            ).0),
{
    let n = if z.len() <= r.len() {
        z.len()
    } else {
        r.len()
    };
    let mut h: Hint = Vec::with_capacity(n);
    let mut t: usize = 0;
    while t < n
        invariant
            rounding_params_ok(gamma2 as int, q as int),
            n <= z.len(),
            n <= r.len(),
            forall|s: int, i: int|
                0 <= s < z.len() && s < r.len() && 0 <= i < N ==> i32::MIN
                    <= #[trigger] r@[s].coeffs@[i] + #[trigger] z@[s].coeffs@[i] <= i32::MAX,
            t <= n,
            h.len() == t,
            forall|s: int| 0 <= s < t ==> #[trigger] h@[s]@.len() == N,
            forall|s: int, i: int|
                0 <= s < t && 0 <= i < N ==> #[trigger] h@[s]@[i] == (decompose_spec(
                    r@[s].coeffs@[i] as int,
                    gamma2 as int,
                    q as int,
                ).0 != decompose_spec(
                    r@[s].coeffs@[i] + z@[s].coeffs@[i],
                    gamma2 as int,
                    q as int,
                ).0),
        decreases n - t,
    {
        let mut row: Vec<bool> = Vec::with_capacity(N);
        let mut i: usize = 0;
        while i < N
            invariant
                rounding_params_ok(gamma2 as int, q as int),
                t < n,
                n <= z.len(),
                n <= r.len(),
                forall|s: int, j: int|
                    0 <= s < z.len() && s < r.len() && 0 <= j < N ==> i32::MIN
                        <= #[trigger] r@[s].coeffs@[j] + #[trigger] z@[s].coeffs@[j] <= i32::MAX,
                i <= N,
                row.len() == i,
                forall|j: int|
                    0 <= j < i ==> #[trigger] row@[j] == (decompose_spec(
                        r@[t as int].coeffs@[j] as int,
                        gamma2 as int,
                        q as int,
                    ).0 != decompose_spec(
                        r@[t as int].coeffs@[j] + z@[t as int].coeffs@[j],
                        gamma2 as int,
                        q as int,
                    ).0),
            decreases N - i,
        {
            let zc = z[t].coeffs[i];
            let rc = r[t].coeffs[i];
            assert(i32::MIN <= r@[t as int].coeffs@[i as int] + z@[t as int].coeffs@[i as int]
                <= i32::MAX);
            row.push(make_hint(zc, rc, gamma2, q));
            i = i + 1;
        }
        h.push(row);
        t = t + 1;
    }
    h
}

/// Applies `use_hint` coefficient-wise; positions without a hint bit (past the end of a row)
/// stay zero, as do rows beyond the shorter of `h` and `r`.
pub fn use_hint_vec(h: &Hint, r: &[Poly], gamma2: i32, q: i32) -> (out: Vec<Poly>)
    requires
        rounding_params_ok(gamma2 as int, q as int),
    ensures
        out.len() == if h.len() <= r.len() {
            h.len()
        } else {
            r.len()
        },
        forall|t: int, i: int|
            0 <= t < out.len() && 0 <= i < N ==> #[trigger] out@[t].coeffs@[i] as int == if i
                < h@[t]@.len() {
                use_hint_spec(h@[t]@[i], r@[t].coeffs@[i] as int, gamma2 as int, q as int)
            } else {
                0
            },
{
    let n = if h.len() <= r.len() {
        h.len()
    } else {
        r.len()
    };
    let mut out: Vec<Poly> = Vec::with_capacity(n);
    let mut t: usize = 0;
    while t < n
        invariant
            rounding_params_ok(gamma2 as int, q as int),
            n <= h.len(),
            n <= r.len(),
            t <= n,
            out.len() == t,
            forall|s: int, i: int|
                0 <= s < t && 0 <= i < N ==> #[trigger] out@[s].coeffs@[i] as int == if i
                    < h@[s]@.len() {
                    use_hint_spec(h@[s]@[i], r@[s].coeffs@[i] as int, gamma2 as int, q as int)
                } else {
                    0
                },
        decreases n - t,
    {
        let row = &h[t];
        let mut p = Poly::zero();
        let mut i: usize = 0;
        while i < N
            invariant
                rounding_params_ok(gamma2 as int, q as int),
                t < n,
                n <= h.len(),
                n <= r.len(),
                row@ == h@[t as int]@,
                i <= N,
                forall|j: int|
                    i <= j < N ==> #[trigger] p.coeffs@[j] == 0,
                forall|j: int|
                    0 <= j < i ==> #[trigger] p.coeffs@[j] as int == if j < row@.len() {
                        use_hint_spec(
                            row@[j],
                            r@[t as int].coeffs@[j] as int,
                            gamma2 as int,
                            q as int,
                        )
                    } else {
                        0
                    },
            decreases N - i,
        {
            if i < row.len() {
                p.coeffs[i] = use_hint(row[i], r[t].coeffs[i], gamma2, q);
            }
            i = i + 1;
        }
        out.push(p);
        t = t + 1;
    }
    out
}

/// Total number of set hint bits, as `u32`.
pub fn hint_weight(h: &Hint) -> (w: u32)
    requires
        h.len() <= 0x00FF_FFFF,
        forall|t: int| 0 <= t < h.len() ==> #[trigger] h@[t]@.len() <= N,
    ensures
        w as int == hint_count(h@, h.len() as int),
{
    let mut total: u64 = 0;
    let mut t: usize = 0;
    while t < h.len()
        invariant
            h.len() <= 0x00FF_FFFF,
            forall|s: int| 0 <= s < h.len() ==> #[trigger] h@[s]@.len() <= N,
            t <= h.len(),
            total == hint_count(h@, t as int),
            total <= t * N,
        decreases h.len() - t,
    {
        let row = &h[t];
        let mut c: u64 = 0;
        let mut i: usize = 0;
        assert(row@.len() <= N);
        while i < row.len()
            invariant
                row@.len() <= N,
                i <= row.len(),
                c == count_true(row@, i as int),
                c <= i,
            decreases row.len() - i,
        {
            if row[i] {
                c = c + 1;
            }
            i = i + 1;
        }
        total = total + c;
        t = t + 1;
    }
    total as u32
}

/// Reduces every coefficient to its centered representative in (-q/2, q/2]. Anything that
/// gets bit-packed as a small signed value (e.g. the signature's `z`) must be centered first.
pub fn to_centered(p: &Poly, q: i32) -> (out: Poly)
    requires
        0 < q,
    ensures
        forall|i: int| 0 <= i < N ==> #[trigger] out.coeffs@[i] as int == centered_spec(
            p.coeffs@[i] as int,
            q as int,
        ),
{
    let mut out = Poly::zero();
    let mut i: usize = 0;
    while i < N
        invariant
            0 < q,
            i <= N,
            forall|j: int| 0 <= j < i ==> #[trigger] out.coeffs@[j] as int == centered_spec(
                p.coeffs@[j] as int,
                q as int,
            ),
        decreases N - i,
    {
        let r = crate::arith::rem_euclid_i32(p.coeffs[i], q);
        out.coeffs[i] = if r > q / 2 {
            r - q
        } else {
            r
        };
        i = i + 1;
    }
    out
}

pub fn to_centered_vec(v: &[Poly], q: i32) -> (out: Vec<Poly>)
    requires
        0 < q,
    ensures
        out.len() == v.len(),
        forall|t: int, i: int|
            0 <= t < v.len() && 0 <= i < N ==> #[trigger] out@[t].coeffs@[i] as int
                == centered_spec(v@[t].coeffs@[i] as int, q as int),
{
    let mut out: Vec<Poly> = Vec::with_capacity(v.len());
    let mut t: usize = 0;
    while t < v.len()
        invariant
            0 < q,
            t <= v.len(),
            out.len() == t,
            forall|s: int, i: int|
                0 <= s < t && 0 <= i < N ==> #[trigger] out@[s].coeffs@[i] as int
                    == centered_spec(v@[s].coeffs@[i] as int, q as int),
        decreases v.len() - t,
    {
        let c = to_centered(&v[t], q);
        out.push(c);
        t = t + 1;
    }
    out
}

/// Centered infinity norm: max over coefficients of min(c mod q, q - (c mod q)).
pub fn infinity_norm_centered(p: &Poly, q: i32) -> (m: i32)
    requires
        0 < q,
    ensures
        m as int == max_centered_abs(p.coeffs@, q as int, N as int),
{
    let mut best: i32 = 0;
    let mut i: usize = 0;
    while i < N
        invariant
            0 < q,
            i <= N,
            best as int == max_centered_abs(p.coeffs@, q as int, i as int),
            0 <= best < q,
        decreases N - i,
    {
        let r = crate::arith::rem_euclid_i32(p.coeffs[i], q);
        let d = if r <= q - r {
            r
        } else {
            q - r
        };
        if d > best {
            best = d;
        }
        i = i + 1;
    }
    best
}

pub fn infinity_norm_centered_vec(v: &[Poly], q: i32) -> (m: i32)
    requires
        0 < q,
    ensures
        m as int == max_norm_vec(v@, q as int, v.len() as int),
{
    let mut best: i32 = 0;
    let mut t: usize = 0;
    while t < v.len()
        invariant
            0 < q,
            t <= v.len(),
            best as int == max_norm_vec(v@, q as int, t as int),
        decreases v.len() - t,
    {
        let d = infinity_norm_centered(&v[t], q);
        if d > best {
            best = d;
        }
        t = t + 1;
    }
    best
}

} // verus!
