//! Modular exponentiation and inversion for NTT table construction.
use vstd::arithmetic::div_mod::{lemma_mod_bound, lemma_mul_mod_noop_left, lemma_mul_mod_noop_right};
use vstd::arithmetic::power::{lemma_pow0, lemma_pow1, lemma_pow_adds, lemma_pow_mod_noop, lemma_pow_multiplies, pow};
use vstd::prelude::*;

verus! {

/// One square-and-multiply step: consuming the low bit of `e` keeps `res * b^e (mod q)`.
proof fn lemma_pow_step(res: int, b: int, e: nat, q: int)
    requires
        q > 0,
    ensures
        ({
            let h = e / 2;
            let next = if e % 2 == 1 {
                (res * b) % q
            } else {
                res
            };
            (next * pow((b * b) % q, h)) % q == (res * pow(b, e)) % q
        }),
{
    let h = e / 2;
    let r = e % 2;
    let bb = b * b;
    assert(e == 2 * h + r);
    lemma_pow_adds(b, 2 * h, r);
    lemma_pow_multiplies(b, 2, h);
    lemma_pow_adds(b, 1, 1);
    lemma_pow1(b);
    assert(pow(b, 2) == bb);
    assert(pow(b, e) == pow(bb, h) * pow(b, r));
    lemma_pow_mod_noop(bb, h, q);
    let p1 = pow(bb % q, h);
    let p0 = pow(bb, h);
    assert(p1 % q == p0 % q);
    if r == 1 {
        lemma_pow1(b);
        lemma_mul_mod_noop_left(res * b, p1, q);
        lemma_mul_mod_noop_right(res * b, p1, q);
        lemma_mul_mod_noop_right(res * b, p0, q);
        assert((res * b) * p0 == res * (p0 * b)) by (nonlinear_arith);
    } else {
        lemma_pow0(b);
        lemma_mul_mod_noop_right(res, p1, q);
        lemma_mul_mod_noop_right(res, p0, q);
    }
}

/// `base^exp mod q`, by square and multiply.
pub fn mod_pow(base: i64, exp: i64, q: i64) -> (r: i64)
    requires
        2 <= q < 0x8000_0000,
        exp >= 0,
    ensures
        r == pow(base as int, exp as nat) % (q as int),
        0 <= r < q,
{
    let mut result: i64 = 1;
    let mut b = crate::arith::rem_euclid_i64(base, q);
    let mut e = exp;
    proof {
        lemma_pow_mod_noop(base as int, exp as nat, q as int);
        vstd::arithmetic::div_mod::lemma_small_mod(1, q as nat);
    }
    while e > 0
        invariant
            2 <= q < 0x8000_0000,
            0 <= result < q,
            0 <= b < q,
            e >= 0,
            (result * pow(b as int, e as nat)) % (q as int) == pow(base as int, exp as nat) % (
            q as int),
        decreases e,
    {
        proof {
            lemma_pow_step(result as int, b as int, e as nat, q as int);
            assert(result * b < 0x4000_0000_0000_0000) by (nonlinear_arith)
                requires
                    0 <= result < 0x8000_0000,
                    0 <= b < 0x8000_0000,
            ;
            assert(0 <= result * b) by (nonlinear_arith)
                requires
                    0 <= result,
                    0 <= b,
            ;
            assert(b * b < 0x4000_0000_0000_0000) by (nonlinear_arith)
                requires
                    0 <= b < 0x8000_0000,
            ;
            assert(0 <= b * b) by (nonlinear_arith);
            assert(e & 1 == e % 2) by (bit_vector);
            assert(e >> 1 == e / 2) by (bit_vector)
                requires
                    e >= 0,
            ;
        }
        if e & 1 == 1 {
            result = result * b % q;
        }
        b = b * b % q;
        e = e >> 1;
    }
    proof {
        lemma_pow0(b as int);
        vstd::arithmetic::div_mod::lemma_small_mod(result as nat, q as nat);
    }
    result
}

/// `a^(q-2) mod q`: the inverse of `a` modulo a prime `q` (by Fermat's little theorem).
pub fn mod_inverse(a: i64, q: i64) -> (r: i64)
    requires
        2 <= q < 0x8000_0000,
    ensures
        r == pow(a as int, (q - 2) as nat) % (q as int),
        0 <= r < q,
{
    mod_pow(a, q - 2, q)
}

} // verus!
