//! Arithmetic modulo a prime: Euclid's lemma and Fermat's little theorem, which make
//! `n^(q-2) mod q` the inverse of `n` that the NTT tables store.
use crate::dsa_params::is_prime_spec;
use vstd::arithmetic::power::pow;
use vstd::prelude::*;

verus! {

/// Euclid's lemma: a prime dividing `a * b` with `0 < a < p` divides `b`.
pub proof fn lemma_euclid(p: int, a: int, b: int)
    requires
        is_prime_spec(p),
        0 < a < p,
        (a * b) % p == 0,
    ensures
        b % p == 0,
    decreases a,
{
    if a == 1 {
        assert(a * b == b) by (nonlinear_arith)
            requires
                a == 1,
        ;
    } else {
        let r = p % a;
        let t = p / a;
        vstd::arithmetic::div_mod::lemma_fundamental_div_mod(p, a);
        vstd::arithmetic::div_mod::lemma_mod_bound(p, a);
        assert(r != 0);
        assert(r * b == p * b - t * (a * b)) by (nonlinear_arith)
            requires
                p == a * t + r,
        ;
        let m = (a * b) / p;
        vstd::arithmetic::div_mod::lemma_fundamental_div_mod(a * b, p);
        assert(r * b == p * (b - t * m)) by (nonlinear_arith)
            requires
                r * b == p * b - t * (a * b),
                a * b == p * m,
        ;
        vstd::arithmetic::div_mod::lemma_mod_multiples_basic(b - t * m, p);
        assert((b - t * m) * p == p * (b - t * m)) by (nonlinear_arith);
        lemma_euclid(p, r, b);
    }
}

/// Binomial coefficients by Pascal's rule.
pub open spec fn binom(n: nat, k: nat) -> nat
    decreases n,
{
    if k == 0 {
        1
    } else if n == 0 {
        0
    } else {
        binom((n - 1) as nat, (k - 1) as nat) + binom((n - 1) as nat, k)
    }
}

/// `sum_{k < m} binom(n, k) * x^k`.
pub open spec fn binom_sum(n: nat, x: int, m: nat) -> int
    decreases m,
{
    if m == 0 {
        0
    } else {
        binom_sum(n, x, (m - 1) as nat) + binom(n, (m - 1) as nat) * pow(x, (m - 1) as nat)
    }
}

proof fn lemma_binom_above(n: nat, k: nat)
    requires
        k > n,
    ensures
        binom(n, k) == 0,
    decreases n,
{
    if n > 0 {
        lemma_binom_above((n - 1) as nat, (k - 1) as nat);
        lemma_binom_above((n - 1) as nat, k);
    }
}

proof fn lemma_binom_diag(n: nat)
    ensures
        binom(n, n) == 1,
    decreases n,
{
    if n > 0 {
        lemma_binom_diag((n - 1) as nat);
        lemma_binom_above((n - 1) as nat, n);
    }
}

proof fn lemma_binom_one(n: nat)
    ensures
        binom(n, 1) == n,
    decreases n,
{
    if n > 0 {
        lemma_binom_one((n - 1) as nat);
        assert(binom((n - 1) as nat, 0) == 1);
        assert(binom(n, 1) == binom((n - 1) as nat, 0) + binom((n - 1) as nat, 1));
    }
}

/// Absorption: `k * binom(n, k) = n * binom(n - 1, k - 1)`.
proof fn lemma_binom_absorb(n: nat, k: nat)
    requires
        n >= 1,
        k >= 1,
    ensures
        k * binom(n, k) == n * binom((n - 1) as nat, (k - 1) as nat),
    decreases n,
{
    if k == 1 {
        lemma_binom_one(n);
        assert(binom((n - 1) as nat, 0) == 1);
    } else if n == 1 {
        lemma_binom_above(1, k);
        lemma_binom_above(0, (k - 1) as nat);
    } else {
        let c1 = binom((n - 1) as nat, (k - 1) as nat);
        let c2 = binom((n - 1) as nat, k);
        assert(binom(n, k) == c1 + c2);
        lemma_binom_absorb((n - 1) as nat, k);
        lemma_binom_absorb((n - 1) as nat, (k - 1) as nat);
        let d1 = binom((n - 2) as nat, (k - 2) as nat);
        let d2 = binom((n - 2) as nat, (k - 1) as nat);
        assert(c1 == d1 + d2);
        assert(k * c2 == (n - 1) * d2);
        assert((k - 1) * c1 == (n - 1) * d1);
        assert(k * binom(n, k) == n * c1) by (nonlinear_arith)
            requires
                binom(n, k) == c1 + c2,
                c1 == d1 + d2,
                k * c2 == (n - 1) * d2,
                (k - 1) * c1 == (n - 1) * d1,
        ;
    }
}

/// A prime `p` divides `binom(p, k)` for `0 < k < p`.
proof fn lemma_prime_divides_binom(p: nat, k: nat)
    requires
        is_prime_spec(p as int),
        0 < k < p,
    ensures
        (binom(p, k) as int) % (p as int) == 0,
{
    lemma_binom_absorb(p, k);
    let c = binom((p - 1) as nat, (k - 1) as nat);
    vstd::arithmetic::div_mod::lemma_mod_multiples_basic(c as int, p as int);
    assert(c * p == p * c) by (nonlinear_arith);
    lemma_euclid(p as int, k as int, binom(p, k) as int);
}

/// Pascal's rule lifted to the partial sums.
proof fn lemma_binom_sum_step(n: nat, x: int, m: nat)
    ensures
        binom_sum(n + 1, x, m + 1) == binom_sum(n, x, m + 1) + x * binom_sum(n, x, m),
    decreases m,
{
    if m == 0 {
        vstd::arithmetic::power::lemma_pow0(x);
        assert(binom(n + 1, 0) == 1 && binom(n, 0) == 1);
        assert(binom_sum(n + 1, x, 1) == binom_sum(n + 1, x, 0) + binom(n + 1, 0) * pow(x, 0));
        assert(binom_sum(n, x, 1) == binom_sum(n, x, 0) + binom(n, 0) * pow(x, 0));
        assert(x * binom_sum(n, x, 0) == 0) by (nonlinear_arith)
            requires
                binom_sum(n, x, 0) == 0,
        ;
    } else {
        lemma_binom_sum_step(n, x, (m - 1) as nat);
        let a = binom(n, (m - 1) as nat);
        let b = binom(n, m);
        assert(binom(n + 1, m) == a + b);
        vstd::arithmetic::power::lemma_pow_adds(x, 1, (m - 1) as nat);
        vstd::arithmetic::power::lemma_pow1(x);
        assert(pow(x, m) == x * pow(x, (m - 1) as nat));
        let s0 = binom_sum(n, x, (m - 1) as nat);
        let s1 = binom_sum(n, x, m);
        assert(s1 == s0 + a * pow(x, (m - 1) as nat));
        assert((a + b) * pow(x, m) == b * pow(x, m) + x * (a * pow(x, (m - 1) as nat))) by (nonlinear_arith)
            requires
                pow(x, m) == x * pow(x, (m - 1) as nat),
        ;
        assert(x * s1 == x * s0 + x * (a * pow(x, (m - 1) as nat))) by (nonlinear_arith)
            requires
                s1 == s0 + a * pow(x, (m - 1) as nat),
        ;
        assert(binom_sum(n + 1, x, m) == s1 + x * s0);
        assert(binom_sum(n + 1, x, m + 1) == binom_sum(n + 1, x, m) + binom(n + 1, m) * pow(x, m));
        assert(binom_sum(n, x, m + 1) == s1 + b * pow(x, m));
        assert(binom(n + 1, m) * pow(x, m) == (a + b) * pow(x, m));
    }
}

/// The binomial theorem for `(x + 1)^n`.
proof fn lemma_binomial(n: nat, x: int)
    ensures
        pow(x + 1, n) == binom_sum(n, x, n + 1),
    decreases n,
{
    if n == 0 {
        vstd::arithmetic::power::lemma_pow0(x + 1);
        vstd::arithmetic::power::lemma_pow0(x);
        assert(binom_sum(0, x, 1) == binom_sum(0, x, 0) + binom(0, 0) * pow(x, 0));
    } else {
        let m = (n - 1) as nat;
        lemma_binomial(m, x);
        lemma_binom_sum_step(m, x, n);
        lemma_binom_above(m, n);
        assert(binom_sum(m, x, n + 1) == binom_sum(m, x, n) + binom(m, n) * pow(x, n));
        assert(binom(m, n) * pow(x, n) == 0);
        let s = binom_sum(m, x, n);
        assert(binom_sum(m, x, m + 1) == s);
        vstd::arithmetic::power::lemma_pow_adds(x + 1, 1, m);
        vstd::arithmetic::power::lemma_pow1(x + 1);
        assert(pow(x + 1, n) == (x + 1) * s);
        assert((x + 1) * s == s + x * s) by (nonlinear_arith);
    }
}

/// The middle terms of `binom_sum(p, x, m)` vanish mod a prime `p`.
proof fn lemma_binom_sum_mod(p: nat, x: int, m: nat)
    requires
        is_prime_spec(p as int),
        1 <= m <= p,
    ensures
        binom_sum(p, x, m) % (p as int) == 1,
    decreases m,
{
    let pi = p as int;
    if m == 1 {
        vstd::arithmetic::power::lemma_pow0(x);
        assert(binom_sum(p, x, 0) == 0);
        assert(binom_sum(p, x, 1) == 1);
        vstd::arithmetic::div_mod::lemma_small_mod(1, p);
    } else {
        let k = (m - 1) as nat;
        lemma_binom_sum_mod(p, x, k);
        lemma_prime_divides_binom(p, k);
        let c = binom(p, k) as int;
        let t = c * pow(x, k);
        vstd::arithmetic::div_mod::lemma_mul_mod_noop_left(c, pow(x, k), pi);
        assert(0 * pow(x, k) == 0);
        vstd::arithmetic::div_mod::lemma_small_mod(0, p);
        assert(t % pi == 0);
        vstd::arithmetic::div_mod::lemma_add_mod_noop(binom_sum(p, x, k), t, pi);
        vstd::arithmetic::div_mod::lemma_small_mod(1, p);
    }
}

/// `(x + 1)^p = x^p + 1 (mod p)`.
proof fn lemma_freshman(p: nat, x: int)
    requires
        is_prime_spec(p as int),
    ensures
        pow(x + 1, p) % (p as int) == (pow(x, p) + 1) % (p as int),
{
    let pi = p as int;
    lemma_binomial(p, x);
    lemma_binom_diag(p);
    lemma_binom_sum_mod(p, x, p);
    assert(binom_sum(p, x, p + 1) == binom_sum(p, x, p) + binom(p, p) * pow(x, p));
    assert(binom(p, p) * pow(x, p) == pow(x, p));
    vstd::arithmetic::div_mod::lemma_add_mod_noop(binom_sum(p, x, p), pow(x, p), pi);
    vstd::arithmetic::div_mod::lemma_add_mod_noop(1, pow(x, p), pi);
    vstd::arithmetic::div_mod::lemma_small_mod(1, p);
}

/// `a^p = a (mod p)` for `a >= 0`.
proof fn lemma_pow_p(p: nat, a: nat)
    requires
        is_prime_spec(p as int),
    ensures
        pow(a as int, p) % (p as int) == (a as int) % (p as int),
    decreases a,
{
    let pi = p as int;
    if a == 0 {
        vstd::arithmetic::power::lemma0_pow(p);
    } else {
        let b = (a - 1) as nat;
        lemma_pow_p(p, b);
        lemma_freshman(p, b as int);
        vstd::arithmetic::div_mod::lemma_add_mod_noop(pow(b as int, p), 1, pi);
        vstd::arithmetic::div_mod::lemma_add_mod_noop(b as int, 1, pi);
    }
}

/// Fermat's little theorem: `n * n^(p-2) = 1 (mod p)` for a prime `p` that does not divide `n`.
pub proof fn lemma_fermat_inverse(p: int, n: int)
    requires
        is_prime_spec(p),
        0 < n < p,
    ensures
        (n * (pow(n, (p - 2) as nat) % p)) % p == 1,
{
    let e = (p - 2) as nat;
    let r = pow(n, e);
    lemma_pow_p(p as nat, n as nat);
    vstd::arithmetic::power::lemma_pow_adds(n, 1, e);
    vstd::arithmetic::power::lemma_pow_adds(n, 1, (e + 1) as nat);
    vstd::arithmetic::power::lemma_pow1(n);
    let f = n * r;
    assert(pow(n, (e + 1) as nat) == f);
    assert(pow(n, p as nat) == n * f);
    vstd::arithmetic::div_mod::lemma_small_mod(n as nat, p as nat);
    // n * (f - 1) = 0 (mod p), so p divides f - 1.
    vstd::arithmetic::div_mod::lemma_sub_mod_noop(n * f, n, p);
    assert(n * f - n == n * (f - 1)) by (nonlinear_arith);
    vstd::arithmetic::div_mod::lemma_small_mod(0, p as nat);
    assert((n * (f - 1)) % p == 0);
    lemma_euclid(p, n, f - 1);
    vstd::arithmetic::div_mod::lemma_add_mod_noop(f - 1, 1, p);
    vstd::arithmetic::div_mod::lemma_small_mod(1, p as nat);
    vstd::arithmetic::div_mod::lemma_mul_mod_noop_right(n, r, p);
}

} // verus!
