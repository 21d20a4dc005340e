//! Small integer helpers shared by the ring arithmetic: Euclidean remainders.
use vstd::prelude::*;

verus! {

/// For `y >= 0`, the Euclidean residue of `-(y + 1)` is `m - 1 - (y % m)`.
proof fn lemma_neg_residue(y: int, m: int)
    requires
        y >= 0,
        m > 0,
    ensures
        (-(y + 1)) % m == m - 1 - (y % m),
{
    let r = y % m;
    let d = y / m;
    assert(y == m * d + r && 0 <= r < m) by {
        vstd::arithmetic::div_mod::lemma_fundamental_div_mod(y, m);
    }
    let x = -(y + 1);
    assert(x == m * (-d - 1) + (m - 1 - r)) by (nonlinear_arith)
        requires
            y == m * d + r,
            x == -(y + 1),
    ;
    vstd::arithmetic::div_mod::lemma_fundamental_div_mod_converse(x, m, -d - 1, m - 1 - r);
}

/// Euclidean remainder of `x` by a positive modulus: always in `[0, m)`.
pub fn rem_euclid_i64(x: i64, m: i64) -> (r: i64)
    requires
        m > 0,
    ensures
        r == x % m,
        0 <= r < m,
{
    if x >= 0 {
        x % m
    } else {
        let y: i64 = -(x + 1);
        proof {
            lemma_neg_residue(y as int, m as int);
        }
        m - 1 - y % m
    }
}

/// Euclidean remainder of `x` by a positive `i32` modulus: always in `[0, m)`.
pub fn rem_euclid_i32(x: i32, m: i32) -> (r: i32)
    requires
        m > 0,
    ensures
        r == x % m,
        0 <= r < m,
{
    if x >= 0 {
        x % m
    } else {
        let y: i32 = -(x + 1);
        proof {
            lemma_neg_residue(y as int, m as int);
        }
        m - 1 - y % m
    }
}

} // verus!

verus! {

/// `2^d` as a machine word.
pub fn pow2_u64(d: u32) -> (r: u64)
    requires
        d < 64,
    ensures
        r == vstd::arithmetic::power2::pow2(d as nat),
{
    proof {
        vstd::bits::lemma_u64_pow2_no_overflow(d as nat);
        vstd::bits::lemma_u64_shl_is_mul(1u64, d as u64);
    }
    1u64 << (d as u64)
}

} // verus!
