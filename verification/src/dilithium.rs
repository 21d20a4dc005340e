//! ML-DSA (FIPS 204) orchestration over a runtime-chosen `GenericDsaParams`: keygen
//! (Algorithm 6), sign (Algorithm 7, Fiat-Shamir with aborts, hedged or deterministic) and
//! verify (Algorithm 8), with the external ML-DSA wrapping (empty context string).
//!
//! Contracts are stated over coefficient sequences: a polynomial is its 256 coefficients and a
//! vector is a sequence of them.
use crate::bytes::{append_bytes, flat_coeffs, take32, take64};
use crate::custom_kem_ntt::{ints32, inv_ntt_spec, ntt_spec, pointwise, spec_n_inv};
use crate::dsa_encode::{codec_params_ok, encode_pk, encode_poly_vec, pk_layout, t1_bits_spec};
use crate::dsa_params::{dsa_params_valid, GenericDsaParams};
use crate::dsa_rounding::{
    centered_spec, count_true, decompose_spec, hint_count, max_centered_abs, max_norm_vec, power2round_spec,
    rounding_params_ok, use_hint_spec, Hint,
};
use crate::dsa_sample::{byte_eta_run, half_byte_run, mask_nonce, mask_run, seed_nonce, seed_two, uniform_run};
use crate::encode::{bit_length, bytes_for_bits, coeff_stream_bit, is_packing_of, stream_bit};
use crate::error::PqcError;
use crate::ntt::{dsa_zetas, dsa_zetas_inv, no_root_under, ntt_mul, ntt_mul_a, table256_wf, NttTable};
use crate::pke::coeff_rows;
use crate::poly::{Poly, N};
use crate::xof::shake256_output;
use vstd::prelude::*;

verus! {

// ---------------------------------------------------------------------------------------------
// Polynomial vectors as coefficient sequences.
// ---------------------------------------------------------------------------------------------

pub open spec fn zero_poly() -> Seq<i32> {
    Seq::new(N as nat, |i: int| 0i32)
}

/// `(a + b) mod q`, coefficient-wise.
pub open spec fn padd(a: Seq<i32>, b: Seq<i32>, q: int) -> Seq<i32> {
    Seq::new(N as nat, |i: int| ((a[i] + b[i]) % q) as i32)
}

/// `(a - b) mod q`, coefficient-wise.
pub open spec fn psub(a: Seq<i32>, b: Seq<i32>, q: int) -> Seq<i32> {
    Seq::new(N as nat, |i: int| ((a[i] - b[i]) % q) as i32)
}

/// The product in `Z_q[x]/(x^256 + 1)` through the NTT with the table for `q`: transform
/// both, multiply pointwise, transform back.
pub open spec fn ring_mul256(a: Seq<int>, b: Seq<int>, q: int) -> Seq<int> {
    inv_ntt_spec(
        pointwise(ntt_spec(a, dsa_zetas(q), q), ntt_spec(b, dsa_zetas(q), q), q),
        dsa_zetas_inv(q),
        spec_n_inv(N as int, q),
        q,
    )
}

/// The NTT product of two normal-domain polynomials.
pub open spec fn pmul(c: Seq<i32>, v: Seq<i32>, q: int) -> Seq<i32> {
    Seq::new(N as nat, |i: int| ring_mul256(ints32(c), ints32(v), q)[i] as i32)
}

/// The product of an NTT-domain `a_hat` with a normal-domain `v`, back in the normal domain.
pub open spec fn pmul_a(a_hat: Seq<i32>, v: Seq<i32>, q: int) -> Seq<i32> {
    let n = N as int;
    let prod = inv_ntt_spec(
        pointwise(ints32(a_hat), ntt_spec(ints32(v), dsa_zetas(q), q), q),
        dsa_zetas_inv(q),
        spec_n_inv(n, q),
        q,
    );
    Seq::new(N as nat, |i: int| prod[i] as i32)
}

/// `sum_{s < m} row[s] * v[s]`, accumulated from zero left to right.
pub open spec fn row_acc(row: Seq<Seq<i32>>, v: Seq<Seq<i32>>, m: int, q: int) -> Seq<i32>
    decreases m,
{
    if m <= 0 {
        zero_poly()
    } else {
        padd(row_acc(row, v, m - 1, q), pmul_a(row[m - 1], v[m - 1], q), q)
    }
}

pub open spec fn min_len(a: int, b: int) -> int {
    if a <= b {
        a
    } else {
        b
    }
}

/// `A v` for an NTT-domain matrix `A` and a normal-domain vector `v`.
pub open spec fn mat_vec(a: Seq<Seq<Seq<i32>>>, v: Seq<Seq<i32>>, q: int) -> Seq<Seq<i32>> {
    Seq::new(a.len(), |r: int| row_acc(a[r], v, min_len(a[r].len() as int, v.len() as int), q))
}

pub open spec fn vadd(a: Seq<Seq<i32>>, b: Seq<Seq<i32>>, q: int) -> Seq<Seq<i32>> {
    Seq::new(min_len(a.len() as int, b.len() as int) as nat, |t: int| padd(a[t], b[t], q))
}

pub open spec fn vsub(a: Seq<Seq<i32>>, b: Seq<Seq<i32>>, q: int) -> Seq<Seq<i32>> {
    Seq::new(min_len(a.len() as int, b.len() as int) as nat, |t: int| psub(a[t], b[t], q))
}

pub open spec fn vneg(a: Seq<Seq<i32>>, q: int) -> Seq<Seq<i32>> {
    vsub(Seq::new(a.len(), |t: int| zero_poly()), a, q)
}

/// `c * v[t]` for every `t`.
pub open spec fn scal(c: Seq<i32>, v: Seq<Seq<i32>>, q: int) -> Seq<Seq<i32>> {
    Seq::new(v.len(), |t: int| pmul(c, v[t], q))
}

pub open spec fn vhigh(v: Seq<Seq<i32>>, gamma2: int, q: int) -> Seq<Seq<i32>> {
    Seq::new(v.len(), |t: int| Seq::new(N as nat, |i: int| decompose_spec(v[t][i] as int, gamma2, q).0 as i32))
}

pub open spec fn vlow(v: Seq<Seq<i32>>, gamma2: int, q: int) -> Seq<Seq<i32>> {
    Seq::new(v.len(), |t: int| Seq::new(N as nat, |i: int| decompose_spec(v[t][i] as int, gamma2, q).1 as i32))
}

pub open spec fn vp2r1(v: Seq<Seq<i32>>, q: int) -> Seq<Seq<i32>> {
    Seq::new(v.len(), |t: int| Seq::new(N as nat, |i: int| power2round_spec(v[t][i] as int, q).0 as i32))
}

pub open spec fn vp2r0(v: Seq<Seq<i32>>, q: int) -> Seq<Seq<i32>> {
    Seq::new(v.len(), |t: int| Seq::new(N as nat, |i: int| power2round_spec(v[t][i] as int, q).1 as i32))
}

pub open spec fn vcent(v: Seq<Seq<i32>>, q: int) -> Seq<Seq<i32>> {
    Seq::new(v.len(), |t: int| Seq::new(N as nat, |i: int| centered_spec(v[t][i] as int, q) as i32))
}

/// Largest centered coefficient norm over the first `n` polynomials.
pub open spec fn seq_norm(v: Seq<Seq<i32>>, q: int, n: int) -> int
    decreases n,
{
    if n <= 0 {
        0
    } else {
        let rest = seq_norm(v, q, n - 1);
        let here = max_centered_abs(v[n - 1], q, N as int);
        if here > rest {
            here
        } else {
            rest
        }
    }
}

/// MakeHint, coefficient-wise over the common length.
pub open spec fn vmakehint(z: Seq<Seq<i32>>, r: Seq<Seq<i32>>, gamma2: int, q: int) -> Seq<Seq<bool>> {
    Seq::new(
        min_len(z.len() as int, r.len() as int) as nat,
        |t: int|
            Seq::new(
                N as nat,
                |i: int| decompose_spec(r[t][i] as int, gamma2, q).0 != decompose_spec(r[t][i] + z[t][i], gamma2, q).0,
            ),
    )
}

/// UseHint, coefficient-wise over the common length (0 past a short hint row).
pub open spec fn vusehint(h: Seq<Seq<bool>>, r: Seq<Seq<i32>>, gamma2: int, q: int) -> Seq<Seq<i32>> {
    Seq::new(
        min_len(h.len() as int, r.len() as int) as nat,
        |t: int|
            Seq::new(
                N as nat,
                |i: int|
                    (if i < h[t].len() {
                        use_hint_spec(h[t][i], r[t][i] as int, gamma2, q)
                    } else {
                        0
                    }) as i32,
            ),
    )
}

/// Number of set bits in the first `n` hint rows.
pub open spec fn hcount(h: Seq<Seq<bool>>, n: int) -> nat
    decreases n,
{
    if n <= 0 {
        0
    } else {
        hcount(h, n - 1) + count_true(h[n - 1], h[n - 1].len() as int)
    }
}

/// The rows of a hint as sequences.
pub open spec fn hint_rows(h: Seq<Vec<bool>>) -> Seq<Seq<bool>> {
    h.map_values(|r: Vec<bool>| r@)
}

/// The coefficients of a vector laid end to end.
pub open spec fn flat_rows(v: Seq<Seq<i32>>) -> Seq<i32> {
    Seq::new(v.len() * (N as nat), |j: int| v[j / N as int][j % N as int])
}

/// The packing of `coeffs` at `bits` bits each (unique: see `lemma_packing_unique`).
pub open spec fn packed(coeffs: Seq<i32>, bits: nat) -> Seq<u8> {
    choose|b: Seq<u8>| is_packing_of(b, coeffs, bits)
}

proof fn lemma_byte_from_bits(x: u8, y: u8)
    by (bit_vector)
    requires
        (x >> 0u8) & 1u8 == (y >> 0u8) & 1u8,
        (x >> 1u8) & 1u8 == (y >> 1u8) & 1u8,
        (x >> 2u8) & 1u8 == (y >> 2u8) & 1u8,
        (x >> 3u8) & 1u8 == (y >> 3u8) & 1u8,
        (x >> 4u8) & 1u8 == (y >> 4u8) & 1u8,
        (x >> 5u8) & 1u8 == (y >> 5u8) & 1u8,
        (x >> 6u8) & 1u8 == (y >> 6u8) & 1u8,
        (x >> 7u8) & 1u8 == (y >> 7u8) & 1u8,
    ensures
        x == y,
{
}

proof fn lemma_bit_le_one(v: u8, j: u8)
    by (bit_vector)
    ensures
        (v >> j) & 1u8 <= 1u8,
{
}

proof fn lemma_same_bit(x: Seq<u8>, y: Seq<u8>, b: int, j: u8)
    requires
        j < 8,
        0 <= b,
        stream_bit(x, 8 * b + j) == stream_bit(y, 8 * b + j),
    ensures
        (x[b] >> j) & 1u8 == (y[b] >> j) & 1u8,
{
    let i = 8 * b + j;
    vstd::arithmetic::div_mod::lemma_fundamental_div_mod_converse(i, 8, b, j as int);
    lemma_bit_le_one(x[b], j);
    lemma_bit_le_one(y[b], j);
}

proof fn lemma_bits_agree(x: Seq<u8>, y: Seq<u8>, coeffs: Seq<i32>, bits: nat, i: int)
    requires
        is_packing_of(x, coeffs, bits),
        is_packing_of(y, coeffs, bits),
        0 <= i < 8 * x.len(),
    ensures
        stream_bit(x, i) == stream_bit(y, i),
{
    if i < bits * coeffs.len() {
        assert(stream_bit(x, i) == coeff_stream_bit(coeffs, bits, i));
        assert(stream_bit(y, i) == coeff_stream_bit(coeffs, bits, i));
    } else {
        assert(!stream_bit(x, i));
        assert(!stream_bit(y, i));
    }
}

/// A packing is determined by what it packs.
pub proof fn lemma_packing_unique(x: Seq<u8>, coeffs: Seq<i32>, bits: nat)
    requires
        is_packing_of(x, coeffs, bits),
    ensures
        x == packed(coeffs, bits),
{
    let y = packed(coeffs, bits);
    assert(is_packing_of(y, coeffs, bits));
    assert forall|b: int| 0 <= b < x.len() implies x[b] == y[b] by {
        lemma_bits_agree(x, y, coeffs, bits, 8 * b + 0);
        lemma_same_bit(x, y, b, 0);
        lemma_bits_agree(x, y, coeffs, bits, 8 * b + 1);
        lemma_same_bit(x, y, b, 1);
        lemma_bits_agree(x, y, coeffs, bits, 8 * b + 2);
        lemma_same_bit(x, y, b, 2);
        lemma_bits_agree(x, y, coeffs, bits, 8 * b + 3);
        lemma_same_bit(x, y, b, 3);
        lemma_bits_agree(x, y, coeffs, bits, 8 * b + 4);
        lemma_same_bit(x, y, b, 4);
        lemma_bits_agree(x, y, coeffs, bits, 8 * b + 5);
        lemma_same_bit(x, y, b, 5);
        lemma_bits_agree(x, y, coeffs, bits, 8 * b + 6);
        lemma_same_bit(x, y, b, 6);
        lemma_bits_agree(x, y, coeffs, bits, 8 * b + 7);
        lemma_same_bit(x, y, b, 7);
        lemma_byte_from_bits(x[b], y[b]);
    }
    assert(x =~= y);
}

proof fn lemma_flat_rows(v: Seq<Poly>)
    ensures
        flat_coeffs(v) == flat_rows(coeff_rows(v)),
{
    assert(flat_coeffs(v) =~= flat_rows(coeff_rows(v)));
}

proof fn lemma_norm_rows(v: Seq<Poly>, q: int, n: int)
    requires
        0 <= n <= v.len(),
    ensures
        max_norm_vec(v, q, n) == seq_norm(coeff_rows(v), q, n),
    decreases n,
{
    if n > 0 {
        lemma_norm_rows(v, q, n - 1);
    }
}

proof fn lemma_hcount_rows(h: Seq<Vec<bool>>, n: int)
    requires
        0 <= n <= h.len(),
    ensures
        hint_count(h, n) == hcount(hint_rows(h), n),
    decreases n,
{
    if n > 0 {
        lemma_hcount_rows(h, n - 1);
    }
}

// ---------------------------------------------------------------------------------------------
// Vector helpers.
// ---------------------------------------------------------------------------------------------

/// Every coefficient of every polynomial lies in `(-2^30, 2^30)`, so sums and differences of two
/// of them stay inside an `i32`.
pub open spec fn moderate(v: Seq<Poly>) -> bool {
    forall|t: int, i: int| 0 <= t < v.len() && 0 <= i < N ==> -0x4000_0000 < #[trigger] v[t].coeffs@[i] < 0x4000_0000
}

fn vec_add(a: &Vec<Poly>, b: &Vec<Poly>, q: i32) -> (out: Vec<Poly>)
    requires
        0 < q < 0x4000_0000,
        moderate(a@),
        moderate(b@),
    ensures
        coeff_rows(out@) == vadd(coeff_rows(a@), coeff_rows(b@), q as int),
        out.len() == min_len(a.len() as int, b.len() as int),
        forall|t: int| 0 <= t < out.len() ==> crate::poly::reduced_coeffs(#[trigger] out@[t], q as int),
{
    let m = if a.len() <= b.len() {
        a.len()
    } else {
        b.len()
    };
    let mut out: Vec<Poly> = Vec::new();
    let mut t: usize = 0;
    while t < m
        invariant
            0 < q < 0x4000_0000,
            moderate(a@),
            moderate(b@),
            m <= a.len(),
            m <= b.len(),
            t <= m,
            out.len() == t,
            forall|x: int| 0 <= x < t ==> #[trigger] out@[x].coeffs@ == padd(a@[x].coeffs@, b@[x].coeffs@, q as int),
            forall|x: int| 0 <= x < t ==> crate::poly::reduced_coeffs(#[trigger] out@[x], q as int),
        decreases m - t,
    {
        proof {
            assert forall|i: int| 0 <= i < N implies i32::MIN <= #[trigger] a@[t as int].coeffs@[i] + b@[t as int].coeffs@[i]
                <= i32::MAX by {
                assert(-0x4000_0000 < a@[t as int].coeffs@[i] < 0x4000_0000);
                assert(-0x4000_0000 < b@[t as int].coeffs@[i] < 0x4000_0000);
            }
        }
        let p = a[t].add(&b[t], q);
        proof {
            assert(p.coeffs@ =~= padd(a@[t as int].coeffs@, b@[t as int].coeffs@, q as int));
        }
        out.push(p);
        t = t + 1;
    }
    proof {
        assert(coeff_rows(out@) =~= vadd(coeff_rows(a@), coeff_rows(b@), q as int));
    }
    out
}

fn vec_sub(a: &Vec<Poly>, b: &Vec<Poly>, q: i32) -> (out: Vec<Poly>)
    requires
        0 < q < 0x4000_0000,
        moderate(a@),
        moderate(b@),
    ensures
        coeff_rows(out@) == vsub(coeff_rows(a@), coeff_rows(b@), q as int),
        out.len() == min_len(a.len() as int, b.len() as int),
        forall|t: int| 0 <= t < out.len() ==> crate::poly::reduced_coeffs(#[trigger] out@[t], q as int),
{
    let m = if a.len() <= b.len() {
        a.len()
    } else {
        b.len()
    };
    let mut out: Vec<Poly> = Vec::new();
    let mut t: usize = 0;
    while t < m
        invariant
            0 < q < 0x4000_0000,
            moderate(a@),
            moderate(b@),
            m <= a.len(),
            m <= b.len(),
            t <= m,
            out.len() == t,
            forall|x: int| 0 <= x < t ==> #[trigger] out@[x].coeffs@ == psub(a@[x].coeffs@, b@[x].coeffs@, q as int),
            forall|x: int| 0 <= x < t ==> crate::poly::reduced_coeffs(#[trigger] out@[x], q as int),
        decreases m - t,
    {
        proof {
            assert forall|i: int| 0 <= i < N implies i32::MIN <= #[trigger] a@[t as int].coeffs@[i] - b@[t as int].coeffs@[i]
                <= i32::MAX by {
                assert(-0x4000_0000 < a@[t as int].coeffs@[i] < 0x4000_0000);
                assert(-0x4000_0000 < b@[t as int].coeffs@[i] < 0x4000_0000);
            }
        }
        let p = a[t].sub(&b[t], q);
        proof {
            assert(p.coeffs@ =~= psub(a@[t as int].coeffs@, b@[t as int].coeffs@, q as int));
        }
        out.push(p);
        t = t + 1;
    }
    proof {
        assert(coeff_rows(out@) =~= vsub(coeff_rows(a@), coeff_rows(b@), q as int));
    }
    out
}

fn vec_neg(a: &Vec<Poly>, q: i32) -> (out: Vec<Poly>)
    requires
        0 < q < 0x4000_0000,
        moderate(a@),
    ensures
        coeff_rows(out@) == vneg(coeff_rows(a@), q as int),
        out.len() == a.len(),
        forall|t: int| 0 <= t < out.len() ==> crate::poly::reduced_coeffs(#[trigger] out@[t], q as int),
{
    let mut zero: Vec<Poly> = Vec::new();
    let mut t: usize = 0;
    while t < a.len()
        invariant
            t <= a.len(),
            zero.len() == t,
            forall|x: int| 0 <= x < t ==> #[trigger] zero@[x].coeffs@ == zero_poly(),
        decreases a.len() - t,
    {
        let z = Poly::zero();
        proof {
            assert(z.coeffs@ =~= zero_poly());
        }
        zero.push(z);
        t = t + 1;
    }
    proof {
        assert(coeff_rows(zero@) =~= Seq::new(a.len() as nat, |t: int| zero_poly()));
    }
    vec_sub(&zero, a, q)
}

/// Reduced coefficients are moderate.
proof fn lemma_reduced_moderate(v: Seq<Poly>, q: int)
    requires
        0 < q < 0x4000_0000,
        forall|t: int| 0 <= t < v.len() ==> crate::poly::reduced_coeffs(#[trigger] v[t], q),
    ensures
        moderate(v),
{
    assert forall|t: int, i: int| 0 <= t < v.len() && 0 <= i < N implies -0x4000_0000 < #[trigger] v[t].coeffs@[i] < 0x4000_0000 by {
        assert(crate::poly::reduced_coeffs(v[t], q));
    }
}

/// `c * v[t]` for every `t`, through the NTT.
fn scalar_vec_mul(c: &Poly, v: &Vec<Poly>, table: &NttTable) -> (out: Vec<Poly>)
    requires
        table256_wf(*table),
        table.zetas@ == dsa_zetas(table.q as int),
        table.zetas_inv@ == dsa_zetas_inv(table.q as int),
        table.n_inv == spec_n_inv(N as int, table.q as int),
    ensures
        coeff_rows(out@) == scal(c.coeffs@, coeff_rows(v@), table.q as int),
        out.len() == v.len(),
        forall|t: int| 0 <= t < out.len() ==> crate::poly::reduced_coeffs(#[trigger] out@[t], table.q as int),
{
    let mut out: Vec<Poly> = Vec::new();
    let mut t: usize = 0;
    while t < v.len()
        invariant
            table256_wf(*table),
            table.zetas@ == dsa_zetas(table.q as int),
            table.zetas_inv@ == dsa_zetas_inv(table.q as int),
            table.n_inv == spec_n_inv(N as int, table.q as int),
            t <= v.len(),
            out.len() == t,
            forall|x: int| 0 <= x < t ==> #[trigger] out@[x].coeffs@ == pmul(c.coeffs@, v@[x].coeffs@, table.q as int),
            forall|x: int| 0 <= x < t ==> crate::poly::reduced_coeffs(#[trigger] out@[x], table.q as int),
        decreases v.len() - t,
    {
        let p = ntt_mul(c, &v[t], table);
        proof {
            assert forall|i: int| 0 <= i < N implies #[trigger] p.coeffs@[i] == pmul(c.coeffs@, v@[t as int].coeffs@, table.q as int)[i] by {
                assert(ints32(p.coeffs@)[i] == p.coeffs@[i] as int);
            }
            assert(p.coeffs@ =~= pmul(c.coeffs@, v@[t as int].coeffs@, table.q as int));
        }
        out.push(p);
        t = t + 1;
    }
    proof {
        assert(coeff_rows(out@) =~= scal(c.coeffs@, coeff_rows(v@), table.q as int));
    }
    out
}

/// The rows of a matrix of polynomials as coefficient sequences.
pub open spec fn mat_rows(a: Seq<Vec<Poly>>) -> Seq<Seq<Seq<i32>>> {
    a.map_values(|row: Vec<Poly>| coeff_rows(row@))
}

/// The tables the transforms use: the table for `(256, q)`.
pub open spec fn table_for(t: NttTable, q: int) -> bool {
    &&& table256_wf(t)
    &&& t.q == q
    &&& t.zetas@ == dsa_zetas(q)
    &&& t.zetas_inv@ == dsa_zetas_inv(q)
    &&& t.n_inv == spec_n_inv(N as int, q)
}

/// `A v` through the NTT; `A` is in the NTT domain, `v` and the result are not.
fn mat_vec_mul(a: &Vec<Vec<Poly>>, v: &Vec<Poly>, table: &NttTable, q: i32) -> (out: Vec<Poly>)
    requires
        table_for(*table, q as int),
        q < 0x4000_0000,
    ensures
        coeff_rows(out@) == mat_vec(mat_rows(a@), coeff_rows(v@), q as int),
        out.len() == a.len(),
        forall|t: int| 0 <= t < out.len() ==> crate::poly::reduced_coeffs(#[trigger] out@[t], q as int),
{
    let mut out: Vec<Poly> = Vec::new();
    let mut r: usize = 0;
    while r < a.len()
        invariant
            table_for(*table, q as int),
            q < 0x4000_0000,
            r <= a.len(),
            out.len() == r,
            forall|x: int| 0 <= x < r ==> #[trigger] out@[x].coeffs@ == mat_vec(mat_rows(a@), coeff_rows(v@), q as int)[x],
            forall|x: int| 0 <= x < r ==> crate::poly::reduced_coeffs(#[trigger] out@[x], q as int),
        decreases a.len() - r,
    {
        let row = &a[r];
        let m = if row.len() <= v.len() {
            row.len()
        } else {
            v.len()
        };
        let mut acc = Poly::zero();
        proof {
            assert(acc.coeffs@ =~= row_acc(coeff_rows(row@), coeff_rows(v@), 0, q as int));
        }
        let mut s: usize = 0;
        while s < m
            invariant
                table_for(*table, q as int),
                q < 0x4000_0000,
                *row == a@[r as int],
                m <= row.len(),
                m <= v.len(),
                s <= m,
                acc.coeffs@ == row_acc(coeff_rows(row@), coeff_rows(v@), s as int, q as int),
                crate::poly::reduced_coeffs(acc, q as int),
            decreases m - s,
        {
            let p = ntt_mul_a(&row[s], &v[s], table);
            proof {
                assert forall|i: int| 0 <= i < N implies i32::MIN <= #[trigger] acc.coeffs@[i] + p.coeffs@[i] <= i32::MAX by {
                    assert(0 <= acc.coeffs@[i] < q);
                    assert(0 <= p.coeffs@[i] < q);
                }
            }
            let next = acc.add(&p, q);
            proof {
                assert forall|i: int| 0 <= i < N implies #[trigger] p.coeffs@[i] == pmul_a(row@[s as int].coeffs@, v@[s as int].coeffs@, q as int)[i] by {
                    assert(ints32(p.coeffs@)[i] == p.coeffs@[i] as int);
                }
                assert(next.coeffs@ =~= row_acc(coeff_rows(row@), coeff_rows(v@), (s + 1) as int, q as int));
            }
            acc = next;
            s = s + 1;
        }
        proof {
            assert(mat_rows(a@)[r as int] == coeff_rows(row@));
        }
        out.push(acc);
        r = r + 1;
    }
    proof {
        assert(coeff_rows(out@) =~= mat_vec(mat_rows(a@), coeff_rows(v@), q as int));
    }
    out
}

/// Matrix entry `(r, s)` sampled from `rho` (ExpandA: column byte first).
pub open spec fn a_entry(rho: Seq<u8>, r: int, s: int, q: int) -> Option<Seq<i32>> {
    uniform_run(seed_two(rho, s as u8, r as u8), q, bit_length((q - 1) as nat), 0, N as nat)
}

pub open spec fn a_ok(rho: Seq<u8>, k: int, l: int, q: int) -> bool {
    forall|r: int, s: int| 0 <= r < k && 0 <= s < l ==> #[trigger] a_entry(rho, r, s, q) is Some
}

pub open spec fn a_mat(rho: Seq<u8>, k: int, l: int, q: int) -> Seq<Seq<Seq<i32>>> {
    Seq::new(k as nat, |r: int| Seq::new(l as nat, |s: int| a_entry(rho, r, s, q).unwrap()))
}

/// FIPS 204 Algorithm 32 (ExpandA): `A[r][s]` for `r < k`, `s < l`, already in the NTT domain.
fn expand_a(rho: &[u8; 32], k: usize, l: usize, q: i32) -> (res: Result<Vec<Vec<Poly>>, PqcError>)
    requires
        q >= 1,
    ensures
        res is Ok <==> a_ok(rho@, k as int, l as int, q as int),
        res is Err ==> res == Err::<Vec<Vec<Poly>>, PqcError>(PqcError::XofBudgetExhausted),
        res matches Ok(a) ==> mat_rows(a@) == a_mat(rho@, k as int, l as int, q as int),
{
    let mut a: Vec<Vec<Poly>> = Vec::new();
    let mut r: usize = 0;
    while r < k
        invariant
            q >= 1,
            r <= k,
            a.len() == r,
            forall|x: int| 0 <= x < r ==> #[trigger] mat_rows(a@)[x] == a_mat(rho@, k as int, l as int, q as int)[x],
            forall|x: int, y: int| 0 <= x < r && 0 <= y < l ==> #[trigger] a_entry(rho@, x, y, q as int) is Some,
        decreases k - r,
    {
        let mut row: Vec<Poly> = Vec::new();
        let mut s: usize = 0;
        while s < l
            invariant
                q >= 1,
                r < k,
                s <= l,
                row.len() == s,
                forall|y: int| 0 <= y < s ==> a_entry(rho@, r as int, y, q as int) == Some(#[trigger] row@[y].coeffs@),
            decreases l - s,
        {
            match crate::dsa_sample::sample_uniform_wide(rho, r as u8, s as u8, q) {
                Ok(p) => {
                    row.push(p);
                },
                Err(e) => {
                    proof {
                        assert(a_entry(rho@, r as int, s as int, q as int) is None);
                    }
                    return Err(e);
                },
            }
            s = s + 1;
        }
        proof {
            assert(coeff_rows(row@) =~= a_mat(rho@, k as int, l as int, q as int)[r as int]);
            assert forall|y: int| 0 <= y < l implies #[trigger] a_entry(rho@, r as int, y, q as int) is Some by {
                assert(a_entry(rho@, r as int, y, q as int) == Some(row@[y].coeffs@));
            }
        }
        let ghost old_a = a@;
        a.push(row);
        proof {
            assert forall|x: int| 0 <= x < r + 1 implies #[trigger] mat_rows(a@)[x] == a_mat(rho@, k as int, l as int, q as int)[x] by {
                if x < r {
                    assert(a@[x] == old_a[x]);
                    assert(mat_rows(old_a)[x] == a_mat(rho@, k as int, l as int, q as int)[x]);
                } else {
                    assert(a@[x] == row);
                }
            }
        }
        r = r + 1;
    }
    proof {
        assert(mat_rows(a@) =~= a_mat(rho@, k as int, l as int, q as int));
    }
    Ok(a)
}

/// The bounded-noise polynomial `nonce` from `seed` (RejBoundedPoly).
pub open spec fn eta_poly(seed: Seq<u8>, nonce: int, eta: u32) -> Option<Seq<i32>> {
    if eta <= 7 {
        half_byte_run(seed_nonce(seed, nonce as u16), eta as int, 0, N as nat)
    } else {
        byte_eta_run(seed_nonce(seed, nonce as u16), eta as int, 0, N as nat)
    }
}

pub open spec fn eta_ok(seed: Seq<u8>, first: int, count: int, eta: u32) -> bool {
    forall|i: int| 0 <= i < count ==> #[trigger] eta_poly(seed, first + i, eta) is Some
}

pub open spec fn eta_vec(seed: Seq<u8>, first: int, count: int, eta: u32) -> Seq<Seq<i32>> {
    Seq::new(count as nat, |i: int| eta_poly(seed, first + i, eta).unwrap())
}

/// Samples bounded-noise polynomials `first .. first + count` from `seed`.
fn sample_eta_vec(seed: &[u8], first: usize, count: usize, eta: u32) -> (r: Result<Vec<Poly>, PqcError>)
    requires
        first + count <= 0x2_0000,
        eta < 0x4000_0000,
    ensures
        r is Ok <==> eta_ok(seed@, first as int, count as int, eta),
        r is Err ==> r == Err::<Vec<Poly>, PqcError>(PqcError::XofBudgetExhausted),
        r matches Ok(v) ==> coeff_rows(v@) == eta_vec(seed@, first as int, count as int, eta),
{
    let mut out: Vec<Poly> = Vec::new();
    let mut i: usize = 0;
    while i < count
        invariant
            first + count <= 0x2_0000,
            eta < 0x4000_0000,
            i <= count,
            out.len() == i,
            forall|x: int| 0 <= x < i ==> eta_poly(seed@, first + x, eta) == Some(#[trigger] out@[x].coeffs@),
        decreases count - i,
    {
        match crate::dsa_sample::sample_eta(seed, (first + i) as u16, eta) {
            Ok(p) => {
                out.push(p);
            },
            Err(e) => {
                proof {
                    assert(eta_poly(seed@, first + i, eta) is None);
                }
                return Err(e);
            },
        }
        i = i + 1;
    }
    proof {
        assert(coeff_rows(out@) =~= eta_vec(seed@, first as int, count as int, eta));
        assert forall|x: int| 0 <= x < count implies #[trigger] eta_poly(seed@, first as int + x, eta) is Some by {
            assert(eta_poly(seed@, first + x, eta) == Some(out@[x].coeffs@));
        }
    }
    Ok(out)
}

/// Finished noise polynomials have 256 coefficients in `[-eta, eta]`.
proof fn lemma_eta_vec_bounds(seed: Seq<u8>, first: int, count: int, eta: u32)
    requires
        eta_ok(seed, first, count, eta),
        eta < 0x4000_0000,
    ensures
        forall|t: int| 0 <= t < count ==> (#[trigger] eta_vec(seed, first, count, eta)[t]).len() == N,
        forall|t: int, i: int|
            0 <= t < count && 0 <= i < N ==> -(eta as int) <= #[trigger] eta_vec(seed, first, count, eta)[t][i] <= eta,
{
    assert forall|t: int| 0 <= t < count implies (#[trigger] eta_vec(seed, first, count, eta)[t]).len() == N && forall|i: int|
        0 <= i < N ==> -(eta as int) <= #[trigger] eta_vec(seed, first, count, eta)[t][i] <= eta by {
        assert(eta_poly(seed, first + t, eta) is Some);
        if eta <= 7 {
            crate::dsa_sample::lemma_half_byte_run_shape(seed_nonce(seed, (first + t) as u16), eta as int, 0, N as nat);
        } else {
            crate::dsa_sample::lemma_byte_eta_run_shape(seed_nonce(seed, (first + t) as u16), eta as int, 0, N as nat);
        }
    }
}

pub struct SigningKey {
    pub rho: [u8; 32],
    /// FIPS 204's `K`: mixed into each signature's private randomness.
    pub cap_k: [u8; 32],
    pub tr: [u8; 64],
    pub s1: Vec<Poly>,
    pub s2: Vec<Poly>,
    /// Power2Round's low bits of `t`: what signing needs for the hint correction `c * t0`.
    pub t0: Vec<Poly>,
}

pub struct VerifyingKey {
    pub rho: [u8; 32],
    /// Power2Round's high bits of `t`: the compressed public key component.
    pub t1: Vec<Poly>,
}

pub struct Signature {
    /// `lambda` bytes.
    pub c_tilde: Vec<u8>,
    pub z: Vec<Poly>,
    pub h: Hint,
}

/// Replaces any of the seeds that keygen derives from `xi` with a chosen value; `None`
/// everywhere reproduces the normal derivation. Field names follow FIPS 204:
/// `(rho, rho_prime, cap_k) = H(xi || k || l, 1024)`.
#[derive(Clone, Default)]
pub struct KeygenOverrides {
    pub rho: Option<[u8; 32]>,
    pub cap_k: Option<[u8; 32]>,
    pub rho_prime: Option<[u8; 64]>,
}

/// The seeds keygen actually used, whether derived or overridden.
pub struct ResolvedSeeds {
    pub rho: [u8; 32],
    pub cap_k: [u8; 32],
    pub rho_prime: [u8; 64],
}

/// What keygen, sign and verify need of a parameter set: the derivation's validity
/// conditions, codec-size bounds, a modulus below 2^30 (so sums of two reduced coefficients
/// stay inside an `i32`), and an NTT table for `(256, q)`.
pub open spec fn dsa_ready(p: GenericDsaParams) -> bool {
    &&& dsa_params_valid(p)
    &&& codec_params_ok(p)
    &&& p.q < 0x4000_0000
    &&& p.tau <= 64
    &&& !no_root_under(p.q as int, p.q as int)
}

/// `H(xi || k || l, 1024)`: `rho`, `rho'` and `K` laid end to end.
pub open spec fn kg_seeds(xi: Seq<u8>, p: GenericDsaParams) -> Seq<u8> {
    shake256_output(xi + seq![p.k as u8, p.l as u8], 128)
}

pub open spec fn kg_rho(xi: Seq<u8>, p: GenericDsaParams, ov: KeygenOverrides) -> Seq<u8> {
    match ov.rho {
        Some(r) => r@,
        None => kg_seeds(xi, p).subrange(0, 32),
    }
}

pub open spec fn kg_rho_prime(xi: Seq<u8>, p: GenericDsaParams, ov: KeygenOverrides) -> Seq<u8> {
    match ov.rho_prime {
        Some(r) => r@,
        None => kg_seeds(xi, p).subrange(32, 96),
    }
}

pub open spec fn kg_cap_k(xi: Seq<u8>, p: GenericDsaParams, ov: KeygenOverrides) -> Seq<u8> {
    match ov.cap_k {
        Some(r) => r@,
        None => kg_seeds(xi, p).subrange(96, 128),
    }
}

/// Whether keygen's sampling finishes within the XOF budget.
pub open spec fn keygen_ok(xi: Seq<u8>, p: GenericDsaParams, ov: KeygenOverrides) -> bool {
    &&& a_ok(kg_rho(xi, p, ov), p.k as int, p.l as int, p.q as int)
    &&& eta_ok(kg_rho_prime(xi, p, ov), 0, p.l as int, p.eta)
    &&& eta_ok(kg_rho_prime(xi, p, ov), p.l as int, p.k as int, p.eta)
}

pub open spec fn kg_s1(xi: Seq<u8>, p: GenericDsaParams, ov: KeygenOverrides) -> Seq<Seq<i32>> {
    eta_vec(kg_rho_prime(xi, p, ov), 0, p.l as int, p.eta)
}

pub open spec fn kg_s2(xi: Seq<u8>, p: GenericDsaParams, ov: KeygenOverrides) -> Seq<Seq<i32>> {
    eta_vec(kg_rho_prime(xi, p, ov), p.l as int, p.k as int, p.eta)
}

/// `t = A s1 + s2`.
pub open spec fn kg_t(xi: Seq<u8>, p: GenericDsaParams, ov: KeygenOverrides) -> Seq<Seq<i32>> {
    let a = a_mat(kg_rho(xi, p, ov), p.k as int, p.l as int, p.q as int);
    vadd(mat_vec(a, kg_s1(xi, p, ov), p.q as int), kg_s2(xi, p, ov), p.q as int)
}

/// pkEncode(rho, t1).
pub open spec fn pk_bytes_spec(rho: Seq<u8>, t1: Seq<Seq<i32>>, p: GenericDsaParams) -> Seq<u8> {
    rho + packed(flat_rows(t1), t1_bits_spec(p.q as int))
}

/// pkEncode bytes are `pk_bytes_spec` of the key's coefficient rows.
pub proof fn lemma_pk_bytes(b: Seq<u8>, rho: Seq<u8>, t1: Seq<Poly>, p: GenericDsaParams)
    requires
        pk_layout(b, rho, t1, p),
    ensures
        b == pk_bytes_spec(rho, coeff_rows(t1), p),
{
    lemma_flat_rows(t1);
    lemma_packing_unique(b.subrange(32, b.len() as int), flat_coeffs(t1), t1_bits_spec(p.q as int));
    assert(b =~= b.subrange(0, 32) + b.subrange(32, b.len() as int));
}

/// `tr = H(pk, 512)`.
pub open spec fn kg_tr(xi: Seq<u8>, p: GenericDsaParams, ov: KeygenOverrides) -> Seq<u8> {
    shake256_output(pk_bytes_spec(kg_rho(xi, p, ov), vp2r1(kg_t(xi, p, ov), p.q as int), p), 64)
}

/// Key shapes keygen produces: `l` and `k` polynomials, noise coefficients in `[-eta, eta]`
/// and `t0` coefficients in `(-4096, 4096]`.
pub open spec fn keys_shape_ok(sk: SigningKey, vk: VerifyingKey, p: GenericDsaParams) -> bool {
    &&& sk.s1.len() == p.l
    &&& sk.s2.len() == p.k
    &&& sk.t0.len() == p.k
    &&& vk.t1.len() == p.k
    &&& forall|t: int, i: int| 0 <= t < p.l && 0 <= i < N ==> -(p.eta as int) <= #[trigger] sk.s1@[t].coeffs@[i] <= p.eta
    &&& forall|t: int, i: int| 0 <= t < p.k && 0 <= i < N ==> -(p.eta as int) <= #[trigger] sk.s2@[t].coeffs@[i] <= p.eta
    &&& forall|t: int, i: int| 0 <= t < p.k && 0 <= i < N ==> -4096 < #[trigger] sk.t0@[t].coeffs@[i] <= 4096
}

/// Builds the table for `(256, q)`, which a ready parameter set guarantees.
fn ready_table(params: &GenericDsaParams) -> (t: NttTable)
    requires
        dsa_ready(*params),
    ensures
        table_for(t, params.q as int),
{
    match crate::ntt::build_table(params.q) {
        Ok(t) => t,
        Err(_) => {
            proof {
                assert(false);
            }
            NttTable { q: 2, zetas: [0i64; 256], zetas_inv: [0i64; 256], n_inv: 0 }
        },
    }
}

/// Law: keygen's seeds. Each override is used as given; otherwise the seed is its slice of
/// `H(xi || k || l, 1024)` (`rho` bytes 0..32, `rho'` bytes 32..96, `K` bytes 96..128), and
/// `s1`, `s2` are the bounded-noise samples of `rho'` (nonces `0..l` and `l..l+k`).
pub proof fn lemma_keygen_seeds(xi: Seq<u8>, p: GenericDsaParams, ov: KeygenOverrides)
    ensures
        ({
            let h = shake256_output(xi + seq![p.k as u8, p.l as u8], 128);
            let rp = match ov.rho_prime {
                Some(x) => x@,
                None => h.subrange(32, 96),
            };
            &&& kg_rho(xi, p, ov) == (match ov.rho {
                Some(x) => x@,
                None => h.subrange(0, 32),
            })
            &&& kg_rho_prime(xi, p, ov) == rp
            &&& kg_cap_k(xi, p, ov) == (match ov.cap_k {
                Some(x) => x@,
                None => h.subrange(96, 128),
            })
            &&& kg_s1(xi, p, ov) == eta_vec(rp, 0, p.l as int, p.eta)
            &&& kg_s2(xi, p, ov) == eta_vec(rp, p.l as int, p.k as int, p.eta)
        }),
{
}

/// FIPS 204 Algorithm 6 (ML-DSA.KeyGen_internal) with optional seed overrides. The only error
/// is sampling that runs past the XOF budget.
pub fn keygen_with_overrides(params: &GenericDsaParams, xi: [u8; 32], overrides: &KeygenOverrides) -> (r: Result<
    (SigningKey, VerifyingKey, ResolvedSeeds),
    PqcError,
>)
    requires
        dsa_ready(*params),
    ensures
        !keygen_ok(xi@, *params, *overrides) ==> r == Err::<(SigningKey, VerifyingKey, ResolvedSeeds), PqcError>(
            PqcError::XofBudgetExhausted,
        ),
        keygen_ok(xi@, *params, *overrides) ==> (r matches Ok((sk, vk, seeds)) && {
            let t = kg_t(xi@, *params, *overrides);
            &&& sk.rho@ == kg_rho(xi@, *params, *overrides)
            &&& sk.cap_k@ == kg_cap_k(xi@, *params, *overrides)
            &&& sk.tr@ == kg_tr(xi@, *params, *overrides)
            &&& coeff_rows(sk.s1@) == kg_s1(xi@, *params, *overrides)
            &&& coeff_rows(sk.s2@) == kg_s2(xi@, *params, *overrides)
            &&& coeff_rows(sk.t0@) == vp2r0(t, params.q as int)
            &&& vk.rho@ == kg_rho(xi@, *params, *overrides)
            &&& coeff_rows(vk.t1@) == vp2r1(t, params.q as int)
            &&& seeds.rho@ == kg_rho(xi@, *params, *overrides)
            &&& seeds.cap_k@ == kg_cap_k(xi@, *params, *overrides)
            &&& seeds.rho_prime@ == kg_rho_prime(xi@, *params, *overrides)
            &&& keys_shape_ok(sk, vk, *params)
        }),
        r matches Ok((sk, vk, seeds)) ==> {
            let h = shake256_output(xi@ + seq![params.k as u8, params.l as u8], 128);
            &&& seeds.rho@ == (match overrides.rho {
                Some(x) => x@,
                None => h.subrange(0, 32),
            })
            &&& seeds.rho_prime@ == (match overrides.rho_prime {
                Some(x) => x@,
                None => h.subrange(32, 96),
            })
            &&& seeds.cap_k@ == (match overrides.cap_k {
                Some(x) => x@,
                None => h.subrange(96, 128),
            })
            &&& sk.rho@ == seeds.rho@ && vk.rho@ == seeds.rho@ && sk.cap_k@ == seeds.cap_k@
            &&& coeff_rows(sk.s1@) == eta_vec(seeds.rho_prime@, 0, params.l as int, params.eta)
            &&& coeff_rows(sk.s2@) == eta_vec(seeds.rho_prime@, params.l as int, params.k as int, params.eta)
        },
{
    let table = ready_table(params);
    let k = params.k as usize;
    let l = params.l as usize;
    let mut input: Vec<u8> = Vec::new();
    append_bytes(&mut input, &xi);
    input.push(params.k as u8);
    input.push(params.l as u8);
    proof {
        assert(input@ =~= xi@ + seq![params.k as u8, params.l as u8]);
    }
    let seeds = crate::xof::shake256(input.as_slice(), 128);
    let rho_derived = take32(seeds.as_slice(), 0);
    let rho_prime_derived = take64(seeds.as_slice(), 32);
    let cap_k_derived = take32(seeds.as_slice(), 96);
    let rho = match overrides.rho {
        Some(r) => r,
        None => rho_derived,
    };
    let rho_prime = match overrides.rho_prime {
        Some(r) => r,
        None => rho_prime_derived,
    };
    let cap_k = match overrides.cap_k {
        Some(r) => r,
        None => cap_k_derived,
    };
    let a = match expand_a(&rho, k, l, params.q) {
        Ok(a) => a,
        Err(e) => return Err(e),
    };
    let s1 = match sample_eta_vec(&rho_prime, 0, l, params.eta) {
        Ok(v) => v,
        Err(e) => return Err(e),
    };
    let s2 = match sample_eta_vec(&rho_prime, l, k, params.eta) {
        Ok(v) => v,
        Err(e) => return Err(e),
    };
    proof {
        lemma_eta_vec_bounds(rho_prime@, l as int, k as int, params.eta);
        assert(params.eta < 0x4000_0000);
        let ev = eta_vec(rho_prime@, l as int, k as int, params.eta);
        assert(s2.len() == k) by {
            assert(coeff_rows(s2@).len() == s2@.len());
        }
        assert(forall|t: int, i: int| 0 <= t < k && 0 <= i < N ==> -(params.eta as int) <= #[trigger] ev[t][i] <= params.eta);
        assert forall|t: int, i: int| 0 <= t < s2.len() && 0 <= i < N implies -0x4000_0000 < #[trigger] s2@[t].coeffs@[i] < 0x4000_0000 by {
            assert(coeff_rows(s2@)[t] == s2@[t].coeffs@);
            assert(coeff_rows(s2@)[t] == eta_vec(rho_prime@, l as int, k as int, params.eta)[t]);
            assert(s2@[t].coeffs@[i] == eta_vec(rho_prime@, l as int, k as int, params.eta)[t][i]);
            assert(-(params.eta as int) <= ev[t][i] <= params.eta);
        }
    }
    let as1 = mat_vec_mul(&a, &s1, &table, params.q);
    proof {
        lemma_reduced_moderate(as1@, params.q as int);
    }
    let t = vec_add(&as1, &s2, params.q);
    let (t1, t0) = crate::dsa_rounding::power2round_vec(t.as_slice(), params.q);
    proof {
        assert forall|x: int| 0 <= x < t1.len() implies t1@[x].coeffs@ =~= vp2r1(coeff_rows(t@), params.q as int)[x]
            && t0@[x].coeffs@ =~= vp2r0(coeff_rows(t@), params.q as int)[x] by {
            assert forall|i: int| 0 <= i < N implies t1@[x].coeffs@[i] == vp2r1(coeff_rows(t@), params.q as int)[x][i]
                && t0@[x].coeffs@[i] == vp2r0(coeff_rows(t@), params.q as int)[x][i] by {
                assert((t1@[x].coeffs@[i] as int, t0@[x].coeffs@[i] as int) == power2round_spec(t@[x].coeffs@[i] as int, params.q as int));
            }
        }
        assert forall|x: int| 0 <= x < t1.len() implies #[trigger] coeff_rows(t1@)[x] == vp2r1(coeff_rows(t@), params.q as int)[x] by {
            assert(t1@[x].coeffs@ =~= vp2r1(coeff_rows(t@), params.q as int)[x]);
        }
        assert forall|x: int| 0 <= x < t0.len() implies #[trigger] coeff_rows(t0@)[x] == vp2r0(coeff_rows(t@), params.q as int)[x] by {
            assert(t0@[x].coeffs@ =~= vp2r0(coeff_rows(t@), params.q as int)[x]);
        }
        assert(coeff_rows(t1@) =~= vp2r1(coeff_rows(t@), params.q as int));
        assert(coeff_rows(t0@) =~= vp2r0(coeff_rows(t@), params.q as int));
    }
    let pk_bytes = encode_pk(&rho, t1.as_slice(), params);
    proof {
        lemma_flat_rows(t1@);
        lemma_packing_unique(pk_bytes@.subrange(32, pk_bytes@.len() as int), flat_coeffs(t1@), t1_bits_spec(params.q as int));
        assert(pk_bytes@ =~= pk_bytes@.subrange(0, 32) + pk_bytes@.subrange(32, pk_bytes@.len() as int));
    }
    let trv = crate::xof::shake256(pk_bytes.as_slice(), 64);
    let tr = take64(trv.as_slice(), 0);
    proof {
        assert(tr@ =~= trv@);
    }
    proof {
        lemma_eta_vec_bounds(rho_prime@, 0, l as int, params.eta);
        let e1 = eta_vec(rho_prime@, 0, l as int, params.eta);
        let e2 = eta_vec(rho_prime@, l as int, k as int, params.eta);
        assert(s1@.len() == coeff_rows(s1@).len());
        assert(s2@.len() == coeff_rows(s2@).len());
        assert forall|t: int, i: int| 0 <= t < l && 0 <= i < N implies -(params.eta as int) <= #[trigger] s1@[t].coeffs@[i] <= params.eta by {
            assert(coeff_rows(s1@)[t] == s1@[t].coeffs@);
            assert(s1@[t].coeffs@[i] == e1[t][i]);
        }
        assert forall|t: int, i: int| 0 <= t < k && 0 <= i < N implies -(params.eta as int) <= #[trigger] s2@[t].coeffs@[i] <= params.eta by {
            assert(coeff_rows(s2@)[t] == s2@[t].coeffs@);
            assert(s2@[t].coeffs@[i] == e2[t][i]);
        }
        assert forall|x: int, i: int| 0 <= x < k && 0 <= i < N implies -4096 < #[trigger] t0@[x].coeffs@[i] <= 4096 by {
            crate::dsa_rounding::lemma_power2round_reconstructs(t@[x].coeffs@[i] as int, params.q as int);
            assert((t1@[x].coeffs@[i] as int, t0@[x].coeffs@[i] as int) == power2round_spec(t@[x].coeffs@[i] as int, params.q as int));
        }
    }
    Ok((
        SigningKey { rho, cap_k, tr, s1, s2, t0 },
        VerifyingKey { rho, t1 },
        ResolvedSeeds { rho, cap_k, rho_prime },
    ))
}

/// Keygen with no overrides.
pub fn keygen(params: &GenericDsaParams, xi: [u8; 32]) -> (r: Result<(SigningKey, VerifyingKey), PqcError>)
    requires
        dsa_ready(*params),
    ensures
        ({
            let ov = KeygenOverrides { rho: None, cap_k: None, rho_prime: None };
            &&& !keygen_ok(xi@, *params, ov) ==> r == Err::<(SigningKey, VerifyingKey), PqcError>(PqcError::XofBudgetExhausted)
            &&& keygen_ok(xi@, *params, ov) ==> (r matches Ok((sk, vk)) && {
                let t = kg_t(xi@, *params, ov);
                &&& sk.rho@ == kg_rho(xi@, *params, ov)
                &&& sk.cap_k@ == kg_cap_k(xi@, *params, ov)
                &&& sk.tr@ == kg_tr(xi@, *params, ov)
                &&& coeff_rows(sk.s1@) == kg_s1(xi@, *params, ov)
                &&& coeff_rows(sk.s2@) == kg_s2(xi@, *params, ov)
                &&& coeff_rows(sk.t0@) == vp2r0(t, params.q as int)
                &&& vk.rho@ == kg_rho(xi@, *params, ov)
                &&& coeff_rows(vk.t1@) == vp2r1(t, params.q as int)
                &&& keys_shape_ok(sk, vk, *params)
            })
        }),
{
    let ov = KeygenOverrides { rho: None, cap_k: None, rho_prime: None };
    match keygen_with_overrides(params, xi, &ov) {
        Ok((sk, vk, _)) => Ok((sk, vk)),
        Err(e) => Err(e),
    }
}

/// Signing gives up after this many rejected candidates.
pub const MAX_SIGN_ATTEMPTS: u32 = 100_000;

/// `mu = H(tr || 0 || 0 || M, 512)`: the external ML-DSA wrapping with an empty context.
pub open spec fn sign_mu(tr: Seq<u8>, msg: Seq<u8>) -> Seq<u8> {
    shake256_output(tr + seq![0u8, 0u8] + msg, 64)
}

/// `rho'' = H(K || rnd || mu, 512)`.
pub open spec fn sign_rho_pp(cap_k: Seq<u8>, rnd: Seq<u8>, mu: Seq<u8>) -> Seq<u8> {
    shake256_output(cap_k + rnd + mu, 64)
}

/// Width of a `w1` coefficient: `w1` lies in `[0, (q - 1) / (2 gamma2))`.
pub open spec fn w1_bits(p: GenericDsaParams) -> nat {
    bit_length(((p.q - 1) / (2 * p.gamma2) - 1) as nat)
}

/// `w1Encode(w1)`.
pub open spec fn w1_bytes(w1: Seq<Seq<i32>>, p: GenericDsaParams) -> Seq<u8> {
    packed(flat_rows(w1), w1_bits(p))
}

/// The masking polynomial `idx` for counter `kappa`.
pub open spec fn mask_poly_spec(rho_pp: Seq<u8>, kappa: u16, idx: int, p: GenericDsaParams) -> Option<Seq<i32>> {
    mask_run(seed_nonce(rho_pp, mask_nonce(kappa, idx)), bit_length((2 * p.gamma1 - 1) as nat), p.gamma1 as int, 0, N as nat)
}

pub open spec fn mask_ok(rho_pp: Seq<u8>, kappa: u16, p: GenericDsaParams) -> bool {
    forall|idx: int| 0 <= idx < p.l ==> #[trigger] mask_poly_spec(rho_pp, kappa, idx, p) is Some
}

pub open spec fn mask_vec(rho_pp: Seq<u8>, kappa: u16, p: GenericDsaParams) -> Seq<Seq<i32>> {
    Seq::new(p.l as nat, |idx: int| mask_poly_spec(rho_pp, kappa, idx, p).unwrap())
}

/// The challenge polynomial for `c_tilde`.
pub open spec fn challenge(c_tilde: Seq<u8>, p: GenericDsaParams) -> Option<Seq<i32>> {
    crate::dsa_sample::challenge_run(c_tilde, p.tau as int, (N - p.tau) as nat, 8, Seq::new(N as nat, |k: int| 0i32))
}

/// The checks of one attempt once `y`, `w = A y`, `c_tilde` and `c` are known: `None` when the
/// candidate is rejected, else `(c_tilde, z, h)`.
pub open spec fn attempt_tail(
    p: GenericDsaParams,
    s1: Seq<Seq<i32>>,
    s2: Seq<Seq<i32>>,
    t0: Seq<Seq<i32>>,
    y: Seq<Seq<i32>>,
    w: Seq<Seq<i32>>,
    c_tilde: Seq<u8>,
    c: Seq<i32>,
) -> Option<(Seq<u8>, Seq<Seq<i32>>, Seq<Seq<bool>>)> {
    let q = p.q as int;
    let g2 = p.gamma2 as int;
    let beta = p.tau * p.eta;
    let z = vadd(y, scal(c, s1, q), q);
    if seq_norm(z, q, z.len() as int) >= p.gamma1 - beta {
        None
    } else {
        let wcs2 = vsub(w, scal(c, s2, q), q);
        let r0 = vlow(wcs2, g2, q);
        if seq_norm(r0, q, r0.len() as int) >= p.gamma2 - beta {
            None
        } else {
            let ct0 = scal(c, t0, q);
            if seq_norm(ct0, q, ct0.len() as int) >= p.gamma2 {
                None
            } else {
                let h = vmakehint(vneg(ct0, q), vadd(wcs2, ct0, q), g2, q);
                if hcount(h, h.len() as int) > p.omega {
                    None
                } else {
                    Some((c_tilde, vcent(z, q), h))
                }
            }
        }
    }
}

/// The commitment hash of one attempt: `c_tilde = H(mu || w1Encode(HighBits(A y)), lambda)`.
pub open spec fn attempt_c_tilde(p: GenericDsaParams, a: Seq<Seq<Seq<i32>>>, mu: Seq<u8>, y: Seq<Seq<i32>>) -> Seq<u8> {
    let w1 = vhigh(mat_vec(a, y, p.q as int), p.gamma2 as int, p.q as int);
    shake256_output(mu + w1_bytes(w1, p), p.lambda as nat)
}

/// One signing attempt with counter `kappa`: `None` when sampling runs past the XOF budget,
/// `Some(None)` when the candidate is rejected, `Some(Some((c_tilde, z, h)))` when accepted.
#[verifier::opaque]
pub open spec fn attempt(
    p: GenericDsaParams,
    a: Seq<Seq<Seq<i32>>>,
    s1: Seq<Seq<i32>>,
    s2: Seq<Seq<i32>>,
    t0: Seq<Seq<i32>>,
    mu: Seq<u8>,
    rho_pp: Seq<u8>,
    kappa: u16,
) -> Option<Option<(Seq<u8>, Seq<Seq<i32>>, Seq<Seq<bool>>)>> {
    if !mask_ok(rho_pp, kappa, p) {
        None
    } else {
        let y = mask_vec(rho_pp, kappa, p);
        let c_tilde = attempt_c_tilde(p, a, mu, y);
        match challenge(c_tilde, p) {
            None => None,
            Some(c) => Some(attempt_tail(p, s1, s2, t0, y, mat_vec(a, y, p.q as int), c_tilde, c)),
        }
    }
}

/// The counter after an attempt: `kappa + l` modulo 2^16.
pub open spec fn next_kappa(kappa: u16, l: u32) -> u16 {
    ((kappa + l % 0x1_0000) % 0x1_0000) as u16
}

/// Signing from attempt `tries` on with counter `kappa`.
pub open spec fn sign_run(
    p: GenericDsaParams,
    a: Seq<Seq<Seq<i32>>>,
    s1: Seq<Seq<i32>>,
    s2: Seq<Seq<i32>>,
    t0: Seq<Seq<i32>>,
    mu: Seq<u8>,
    rho_pp: Seq<u8>,
    tries: nat,
    kappa: u16,
) -> Result<(Seq<u8>, Seq<Seq<i32>>, Seq<Seq<bool>>), PqcError>
    decreases MAX_SIGN_ATTEMPTS - tries,
{
    if tries >= MAX_SIGN_ATTEMPTS {
        Err(PqcError::SignAttemptsExhausted { attempts: MAX_SIGN_ATTEMPTS })
    } else {
        match attempt(p, a, s1, s2, t0, mu, rho_pp, kappa) {
            None => Err(PqcError::XofBudgetExhausted),
            Some(None) => sign_run(p, a, s1, s2, t0, mu, rho_pp, tries + 1, next_kappa(kappa, p.l)),
            Some(Some(sig)) => Ok(sig),
        }
    }
}

/// The signing outcome for `sk` and `message` with randomness `rnd`, or `None` when the
/// matrix sampling runs past the XOF budget.
pub open spec fn sign_result(
    p: GenericDsaParams,
    rho: Seq<u8>,
    cap_k: Seq<u8>,
    tr: Seq<u8>,
    s1: Seq<Seq<i32>>,
    s2: Seq<Seq<i32>>,
    t0: Seq<Seq<i32>>,
    msg: Seq<u8>,
    rnd: Seq<u8>,
) -> Result<(Seq<u8>, Seq<Seq<i32>>, Seq<Seq<bool>>), PqcError> {
    if !a_ok(rho, p.k as int, p.l as int, p.q as int) {
        Err(PqcError::XofBudgetExhausted)
    } else {
        let mu = sign_mu(tr, msg);
        sign_run(p, a_mat(rho, p.k as int, p.l as int, p.q as int), s1, s2, t0, mu, sign_rho_pp(cap_k, rnd, mu), 0, 0)
    }
}

/// What encoding a produced signature needs: `lambda` bytes of `c_tilde`, at most `l` and `k`
/// polynomials, hint rows of 256 flags with at most `omega` set, and `z` coefficients well
/// inside `(-2^30, 2^30)`.
pub open spec fn sig_shape_ok(sig: Signature, p: GenericDsaParams) -> bool {
    &&& sig.c_tilde.len() == p.lambda
    &&& sig.z.len() <= p.l
    &&& sig.h.len() <= p.k
    &&& hint_count(sig.h@, sig.h.len() as int) <= p.omega
    &&& forall|t: int| 0 <= t < sig.h.len() ==> (#[trigger] sig.h@[t])@.len() == N
    &&& forall|t: int, i: int| 0 <= t < sig.z.len() && 0 <= i < N ==> -0x4000_0000 < #[trigger] sig.z@[t].coeffs@[i] < 0x4000_0000
}

/// A centered representative lies in `(-q/2, q/2]`.
proof fn lemma_centered_range(c: int, q: int)
    requires
        q > 0,
    ensures
        -(q / 2) <= centered_spec(c, q) <= q / 2,
{
    vstd::arithmetic::div_mod::lemma_mod_bound(c, q);
}

/// The centered representative lies in `[-q/2, q/2]` and agrees with `c` mod q.
pub proof fn lemma_centered_range_pub(c: int, q: int)
    requires
        q > 0,
    ensures
        -(q / 2) <= centered_spec(c, q) <= q / 2,
        centered_spec(c, q) % q == c % q,
{
    vstd::arithmetic::div_mod::lemma_mod_bound(c, q);
    vstd::arithmetic::div_mod::lemma_mod_twice(c, q);
    if c % q > q / 2 {
        vstd::arithmetic::div_mod::lemma_mod_sub_multiples_vanish(c % q, q);
    }
}

/// Everything one attempt needs, held together.
struct SignCtx<'a> {
    params: &'a GenericDsaParams,
    a: Vec<Vec<Poly>>,
    table: NttTable,
    s1: &'a Vec<Poly>,
    s2: &'a Vec<Poly>,
    t0: &'a Vec<Poly>,
    mu: Vec<u8>,
    rho_pp: Vec<u8>,
}

/// `w1Encode(w1)`: each coefficient in `bit_length(m - 1)` bits, `m = (q - 1) / (2 gamma2)`.
fn high_bits_hash_bytes(w1: &[Poly], params: &GenericDsaParams) -> (out: Vec<u8>)
    requires
        dsa_ready(*params),
        w1.len() <= 0xffff,
    ensures
        out@ == w1_bytes(coeff_rows(w1@), *params),
{
    let ghost p = *params;
    let q = params.q;
    let m = (q - 1) / (2 * params.gamma2);
    proof {
        let qq = p.q as int;
        let g = 2 * p.gamma2 as int;
        assert(g <= qq - 1);
        assert(m as int == (qq - 1) / g);
        assert((qq - 1) / g >= 1) by (nonlinear_arith)
            requires
                1 <= g <= qq - 1,
        ;
    }
    let out = encode_poly_vec(w1, crate::encode::bits_for_q(m));
    proof {
        lemma_flat_rows(w1@);
        lemma_packing_unique(out@, flat_coeffs(w1@), w1_bits(p));
    }
    out
}

/// The commitment part of one attempt: `y`, `w = A y`, `c_tilde` and `c`.
fn sign_commit(ctx: &SignCtx, kappa: u16) -> (r: Result<(Vec<Poly>, Vec<Poly>, Vec<u8>, Poly), PqcError>)
    requires
        dsa_ready(*ctx.params),
        table_for(ctx.table, ctx.params.q as int),
        ctx.a.len() == ctx.params.k,
    ensures
        !mask_ok(ctx.rho_pp@, kappa, *ctx.params) ==> r == Err::<(Vec<Poly>, Vec<Poly>, Vec<u8>, Poly), PqcError>(PqcError::XofBudgetExhausted),
        mask_ok(ctx.rho_pp@, kappa, *ctx.params) ==> {
            let y = mask_vec(ctx.rho_pp@, kappa, *ctx.params);
            let ct = attempt_c_tilde(*ctx.params, mat_rows(ctx.a@), ctx.mu@, y);
            &&& challenge(ct, *ctx.params) is None ==> r == Err::<(Vec<Poly>, Vec<Poly>, Vec<u8>, Poly), PqcError>(PqcError::XofBudgetExhausted)
            &&& challenge(ct, *ctx.params) matches Some(c) ==> (r matches Ok((yv, wv, ctv, cv)) && coeff_rows(yv@) == y
                && coeff_rows(wv@) == mat_vec(mat_rows(ctx.a@), y, ctx.params.q as int) && ctv@ == ct && cv.coeffs@ == c
                && ctv.len() == ctx.params.lambda && moderate(yv@) && wv.len() == ctx.params.k && yv.len() == ctx.params.l && (forall|t: int| 0 <= t < wv.len() ==> crate::poly::reduced_coeffs(#[trigger] wv@[t], ctx.params.q as int)))
        },
{
    let params = ctx.params;
    let q = params.q;
    let ghost p = *params;
    let y = match crate::dsa_sample::expand_mask(ctx.rho_pp.as_slice(), kappa, params.l, params.gamma1) {
        Ok(y) => y,
        Err(e) => {
            proof {
                let idx = choose|idx: int| 0 <= idx < p.l && !(#[trigger] mask_run(
                    seed_nonce(ctx.rho_pp@, mask_nonce(kappa, idx)),
                    bit_length((2 * p.gamma1 - 1) as nat),
                    p.gamma1 as int,
                    0,
                    N as nat,
                ) is Some);
                assert(!(mask_poly_spec(ctx.rho_pp@, kappa, idx, p) is Some));
            }
            return Err(e);
        },
    };
    proof {
        assert forall|idx: int| 0 <= idx < p.l implies #[trigger] mask_poly_spec(ctx.rho_pp@, kappa, idx, p) is Some by {
            assert(mask_run(seed_nonce(ctx.rho_pp@, mask_nonce(kappa, idx)), bit_length((2 * p.gamma1 - 1) as nat), p.gamma1 as int, 0, N as nat) == Some(y@[idx].coeffs@));
        }
        assert(coeff_rows(y@) =~= mask_vec(ctx.rho_pp@, kappa, p));
        assert(y@.len() == coeff_rows(y@).len());
        assert forall|t: int, i: int| 0 <= t < y.len() && 0 <= i < N implies -0x4000_0000 < #[trigger] y@[t].coeffs@[i] < 0x4000_0000 by {
            crate::dsa_sample::lemma_mask_run_shape(seed_nonce(ctx.rho_pp@, mask_nonce(kappa, t)), bit_length((2 * p.gamma1 - 1) as nat), p.gamma1 as int, 0, N as nat);
            assert(mask_run(seed_nonce(ctx.rho_pp@, mask_nonce(kappa, t)), bit_length((2 * p.gamma1 - 1) as nat), p.gamma1 as int, 0, N as nat) == Some(y@[t].coeffs@));
        }
    }
    let w = mat_vec_mul(&ctx.a, &y, &ctx.table, q);
    let w1 = crate::dsa_rounding::high_bits_vec(w.as_slice(), params.gamma2, q);
    proof {
        assert forall|x: int| 0 <= x < w1.len() implies #[trigger] coeff_rows(w1@)[x] == vhigh(coeff_rows(w@), p.gamma2 as int, p.q as int)[x] by {
            assert(w1@[x].coeffs@ =~= vhigh(coeff_rows(w@), p.gamma2 as int, p.q as int)[x]);
        }
        assert(coeff_rows(w1@) =~= vhigh(coeff_rows(w@), p.gamma2 as int, p.q as int));
    }
    let w1_enc = high_bits_hash_bytes(w1.as_slice(), params);
    let mut hin: Vec<u8> = Vec::new();
    append_bytes(&mut hin, ctx.mu.as_slice());
    append_bytes(&mut hin, w1_enc.as_slice());
    let c_tilde = crate::xof::shake256(hin.as_slice(), params.lambda as usize);
    let c = match crate::dsa_sample::sample_challenge(c_tilde.as_slice(), params.tau) {
        Ok(c) => c,
        Err(e) => return Err(e),
    };
    Ok((y, w, c_tilde, c))
}

/// The checks of one attempt: the signature when every bound holds, `None` when one fails.
#[verifier::rlimit(40)]
fn sign_checks(ctx: &SignCtx, y: &Vec<Poly>, w: &Vec<Poly>, c_tilde: Vec<u8>, c: &Poly) -> (r: Option<Signature>)
    requires
        dsa_ready(*ctx.params),
        table_for(ctx.table, ctx.params.q as int),
        w.len() == ctx.params.k,
        y.len() == ctx.params.l,
        c_tilde.len() == ctx.params.lambda,
        moderate(y@),
        forall|t: int| 0 <= t < w.len() ==> crate::poly::reduced_coeffs(#[trigger] w@[t], ctx.params.q as int),
    ensures
        r matches Some(sig) ==> sig_shape_ok(sig, *ctx.params),
        attempt_tail(*ctx.params, coeff_rows(ctx.s1@), coeff_rows(ctx.s2@), coeff_rows(ctx.t0@), coeff_rows(y@), coeff_rows(w@), c_tilde@, c.coeffs@) is None ==> r is None,
        attempt_tail(*ctx.params, coeff_rows(ctx.s1@), coeff_rows(ctx.s2@), coeff_rows(ctx.t0@), coeff_rows(y@), coeff_rows(w@), c_tilde@, c.coeffs@) matches Some((ct, z, h))
            ==> (r matches Some(sig) && sig.c_tilde@ == ct && coeff_rows(sig.z@) == z && hint_rows(sig.h@) == h),
{
    let params = ctx.params;
    let q = params.q;
    let ghost p = *params;
    let cs1 = scalar_vec_mul(c, ctx.s1, &ctx.table);
    proof {
        lemma_reduced_moderate(cs1@, p.q as int);
    }
    let z = vec_add(y, &cs1, q);
    let beta = (params.tau * params.eta) as i32;
    let zn = crate::dsa_rounding::infinity_norm_centered_vec(z.as_slice(), q);
    proof {
        lemma_norm_rows(z@, p.q as int, z.len() as int);
    }
    if zn >= params.gamma1 - beta {
        return None;
    }
    let cs2 = scalar_vec_mul(c, ctx.s2, &ctx.table);
    proof {
        lemma_reduced_moderate(cs2@, p.q as int);
        lemma_reduced_moderate(w@, p.q as int);
    }
    let w_cs2 = vec_sub(w, &cs2, q);
    let r0 = crate::dsa_rounding::low_bits_vec(w_cs2.as_slice(), params.gamma2, q);
    proof {
        assert forall|x: int| 0 <= x < r0.len() implies #[trigger] coeff_rows(r0@)[x] == vlow(coeff_rows(w_cs2@), p.gamma2 as int, p.q as int)[x] by {
            assert(r0@[x].coeffs@ =~= vlow(coeff_rows(w_cs2@), p.gamma2 as int, p.q as int)[x]);
        }
        assert(coeff_rows(r0@) =~= vlow(coeff_rows(w_cs2@), p.gamma2 as int, p.q as int));
    }
    let rn = crate::dsa_rounding::infinity_norm_centered_vec(r0.as_slice(), q);
    proof {
        lemma_norm_rows(r0@, p.q as int, r0.len() as int);
    }
    if rn >= params.gamma2 - beta {
        return None;
    }
    sign_finish(ctx, &z, &w_cs2, c_tilde, c)
}

/// The last checks of an attempt: `c t0` small, and the hint light enough.
#[verifier::rlimit(40)]
fn sign_finish(ctx: &SignCtx, z: &Vec<Poly>, w_cs2: &Vec<Poly>, c_tilde: Vec<u8>, c: &Poly) -> (r: Option<Signature>)
    requires
        dsa_ready(*ctx.params),
        table_for(ctx.table, ctx.params.q as int),
        w_cs2.len() <= ctx.params.k,
        z.len() <= ctx.params.l,
        c_tilde.len() == ctx.params.lambda,
        forall|t: int| 0 <= t < w_cs2.len() ==> crate::poly::reduced_coeffs(#[trigger] w_cs2@[t], ctx.params.q as int),
    ensures
        r matches Some(sig) ==> sig_shape_ok(sig, *ctx.params),
        ({
            let p = *ctx.params;
            let q = p.q as int;
            let ct0 = scal(c.coeffs@, coeff_rows(ctx.t0@), q);
            let h = vmakehint(vneg(ct0, q), vadd(coeff_rows(w_cs2@), ct0, q), p.gamma2 as int, q);
            let ok = seq_norm(ct0, q, ct0.len() as int) < p.gamma2 && hcount(h, h.len() as int) <= p.omega;
            &&& !ok ==> r is None
            &&& ok ==> (r matches Some(sig) && sig.c_tilde@ == c_tilde@ && coeff_rows(sig.z@) == vcent(coeff_rows(z@), q)
                && hint_rows(sig.h@) == h)
        }),
{
    let params = ctx.params;
    let q = params.q;
    let ghost p = *params;
    let ct0 = scalar_vec_mul(c, ctx.t0, &ctx.table);
    let tn = crate::dsa_rounding::infinity_norm_centered_vec(ct0.as_slice(), q);
    proof {
        lemma_norm_rows(ct0@, p.q as int, ct0.len() as int);
    }
    if tn >= params.gamma2 {
        return None;
    }
    proof {
        lemma_reduced_moderate(ct0@, p.q as int);
        lemma_reduced_moderate(w_cs2@, p.q as int);
    }
    let neg_ct0 = vec_neg(&ct0, q);
    let w_cs2_ct0 = vec_add(w_cs2, &ct0, q);
    proof {
        assert forall|t: int, i: int| 0 <= t < neg_ct0.len() && t < w_cs2_ct0.len() && 0 <= i < N implies i32::MIN
            <= #[trigger] w_cs2_ct0@[t].coeffs@[i] + #[trigger] neg_ct0@[t].coeffs@[i] <= i32::MAX by {
            assert(crate::poly::reduced_coeffs(w_cs2_ct0@[t], p.q as int));
            assert(crate::poly::reduced_coeffs(neg_ct0@[t], p.q as int));
        }
    }
    let h = crate::dsa_rounding::make_hint_vec(neg_ct0.as_slice(), w_cs2_ct0.as_slice(), params.gamma2, q);
    proof {
        assert forall|x: int| 0 <= x < h.len() implies #[trigger] hint_rows(h@)[x] == vmakehint(coeff_rows(neg_ct0@), coeff_rows(w_cs2_ct0@), p.gamma2 as int, p.q as int)[x] by {
            assert(h@[x]@ =~= vmakehint(coeff_rows(neg_ct0@), coeff_rows(w_cs2_ct0@), p.gamma2 as int, p.q as int)[x]);
        }
        assert(hint_rows(h@) =~= vmakehint(coeff_rows(neg_ct0@), coeff_rows(w_cs2_ct0@), p.gamma2 as int, p.q as int));
    }
    let hw = crate::dsa_rounding::hint_weight(&h);
    proof {
        lemma_hcount_rows(h@, h.len() as int);
    }
    if hw > params.omega {
        return None;
    }
    let zc = crate::dsa_rounding::to_centered_vec(z.as_slice(), q);
    proof {
        assert forall|x: int| 0 <= x < zc.len() implies #[trigger] coeff_rows(zc@)[x] == vcent(coeff_rows(z@), p.q as int)[x] by {
            assert(zc@[x].coeffs@ =~= vcent(coeff_rows(z@), p.q as int)[x]);
        }
        assert(coeff_rows(zc@) =~= vcent(coeff_rows(z@), p.q as int));
        assert forall|t: int, i: int| 0 <= t < zc.len() && 0 <= i < N implies -0x4000_0000 < #[trigger] zc@[t].coeffs@[i] < 0x4000_0000 by {
            lemma_centered_range(z@[t].coeffs@[i] as int, p.q as int);
        }
    }
    Some(Signature { c_tilde, z: zc, h })
}

/// One signing attempt with counter `kappa`.
fn sign_attempt(ctx: &SignCtx, kappa: u16) -> (r: Result<Option<Signature>, PqcError>)
    requires
        dsa_ready(*ctx.params),
        table_for(ctx.table, ctx.params.q as int),
        ctx.a.len() == ctx.params.k,
    ensures
        r matches Ok(Some(sig)) ==> sig_shape_ok(sig, *ctx.params),
        match attempt(*ctx.params, mat_rows(ctx.a@), coeff_rows(ctx.s1@), coeff_rows(ctx.s2@), coeff_rows(ctx.t0@), ctx.mu@, ctx.rho_pp@, kappa) {
            None => r == Err::<Option<Signature>, PqcError>(PqcError::XofBudgetExhausted),
            Some(None) => r is Ok && r->Ok_0 is None,
            Some(Some((ct, z, h))) => r matches Ok(Some(sig)) && sig.c_tilde@ == ct && coeff_rows(sig.z@) == z && hint_rows(sig.h@) == h,
        },
{
    let ghost p = *ctx.params;
    proof {
        reveal(attempt);
    }
    let (y, w, c_tilde, c) = match sign_commit(ctx, kappa) {
        Ok(x) => x,
        Err(e) => return Err(e),
    };
    proof {
        let yy = mask_vec(ctx.rho_pp@, kappa, p);
        assert(mask_ok(ctx.rho_pp@, kappa, p));
        assert(challenge(c_tilde@, p) == Some(c.coeffs@));
        assert(attempt(p, mat_rows(ctx.a@), coeff_rows(ctx.s1@), coeff_rows(ctx.s2@), coeff_rows(ctx.t0@), ctx.mu@, ctx.rho_pp@, kappa)
            == Some(attempt_tail(p, coeff_rows(ctx.s1@), coeff_rows(ctx.s2@), coeff_rows(ctx.t0@), coeff_rows(y@), coeff_rows(w@), c_tilde@, c.coeffs@)));
    }
    Ok(sign_checks(ctx, &y, &w, c_tilde, &c))
}

/// `r` is the signature that `outcome` describes, or the same error.
pub open spec fn signed_as(
    r: Result<Signature, PqcError>,
    outcome: Result<(Seq<u8>, Seq<Seq<i32>>, Seq<Seq<bool>>), PqcError>,
) -> bool {
    match outcome {
        Ok((ct, z, h)) => r matches Ok(sig) && sig.c_tilde@ == ct && coeff_rows(sig.z@) == z && hint_rows(sig.h@) == h,
        Err(e) => r == Err::<Signature, PqcError>(e),
    }
}

/// FIPS 204 Algorithm 7 (ML-DSA.Sign) with an explicit `rnd` and an empty context string:
/// rejection sampling over counters `kappa = 0, l, 2l, ...` for at most
/// `MAX_SIGN_ATTEMPTS` candidates.
pub fn sign_with_rnd(params: &GenericDsaParams, sk: &SigningKey, message: &[u8], rnd: [u8; 32]) -> (r: Result<Signature, PqcError>)
    requires
        dsa_ready(*params),
    ensures
        r matches Ok(sig) ==> sig_shape_ok(sig, *params),
        signed_as(r, sign_result(*params, sk.rho@, sk.cap_k@, sk.tr@, coeff_rows(sk.s1@), coeff_rows(sk.s2@), coeff_rows(sk.t0@), message@, rnd@)),
{
    let ghost p = *params;
    let ghost s1r = coeff_rows(sk.s1@);
    let ghost s2r = coeff_rows(sk.s2@);
    let ghost t0r = coeff_rows(sk.t0@);
    let ghost target = sign_result(p, sk.rho@, sk.cap_k@, sk.tr@, s1r, s2r, t0r, message@, rnd@);
    let table = ready_table(params);
    let a = match expand_a(&sk.rho, params.k as usize, params.l as usize, params.q) {
        Ok(a) => a,
        Err(e) => return Err(e),
    };
    proof {
        assert(a@.len() == mat_rows(a@).len());
    }
    let mut mu_in: Vec<u8> = Vec::new();
    append_bytes(&mut mu_in, &sk.tr);
    mu_in.push(0u8);
    mu_in.push(0u8);
    append_bytes(&mut mu_in, message);
    proof {
        assert(mu_in@ =~= sk.tr@ + seq![0u8, 0u8] + message@);
    }
    let mu = crate::xof::shake256(mu_in.as_slice(), 64);
    let mut rho_in: Vec<u8> = Vec::new();
    append_bytes(&mut rho_in, &sk.cap_k);
    append_bytes(&mut rho_in, &rnd);
    append_bytes(&mut rho_in, mu.as_slice());
    let rho_pp = crate::xof::shake256(rho_in.as_slice(), 64);
    let ctx = SignCtx { params, a, table, s1: &sk.s1, s2: &sk.s2, t0: &sk.t0, mu, rho_pp };
    proof {
        assert(ctx.mu@ == sign_mu(sk.tr@, message@));
        assert(ctx.rho_pp@ == sign_rho_pp(sk.cap_k@, rnd@, ctx.mu@));
        assert(target == sign_run(p, mat_rows(ctx.a@), s1r, s2r, t0r, ctx.mu@, ctx.rho_pp@, 0, 0));
    }
    let step: u32 = params.l % 0x1_0000;
    let mut kappa: u16 = 0;
    let mut tries: u32 = 0;
    while tries < MAX_SIGN_ATTEMPTS
        invariant
            dsa_ready(*ctx.params),
            *ctx.params == p,
            table_for(ctx.table, p.q as int),
            ctx.a.len() == p.k,
            s1r == coeff_rows(ctx.s1@),
            s2r == coeff_rows(ctx.s2@),
            t0r == coeff_rows(ctx.t0@),
            step == p.l % 0x1_0000,
            *params == p,
            s1r == coeff_rows(sk.s1@),
            s2r == coeff_rows(sk.s2@),
            t0r == coeff_rows(sk.t0@),
            target == sign_result(p, sk.rho@, sk.cap_k@, sk.tr@, s1r, s2r, t0r, message@, rnd@),
            tries <= MAX_SIGN_ATTEMPTS,
            sign_run(p, mat_rows(ctx.a@), s1r, s2r, t0r, ctx.mu@, ctx.rho_pp@, tries as nat, kappa) == target,
        decreases MAX_SIGN_ATTEMPTS - tries,
    {
        let res = sign_attempt(&ctx, kappa);
        proof {
            let at = attempt(p, mat_rows(ctx.a@), s1r, s2r, t0r, ctx.mu@, ctx.rho_pp@, kappa);
            assert(sign_run(p, mat_rows(ctx.a@), s1r, s2r, t0r, ctx.mu@, ctx.rho_pp@, tries as nat, kappa) == match at {
                None => Err(PqcError::XofBudgetExhausted),
                Some(None) => sign_run(p, mat_rows(ctx.a@), s1r, s2r, t0r, ctx.mu@, ctx.rho_pp@, tries as nat + 1, next_kappa(kappa, p.l)),
                Some(Some(sig)) => Ok(sig),
            });
        }
        match res {
            Err(e) => return Err(e),
            Ok(Some(sig)) => return Ok(sig),
            Ok(None) => {},
        }
        let next: u32 = (kappa as u32 + step) % 0x1_0000;
        kappa = next as u16;
        tries = tries + 1;
    }
    Err(PqcError::SignAttemptsExhausted { attempts: MAX_SIGN_ATTEMPTS })
}

/// Signs `message` (FIPS 204 Algorithm 2, empty context). With `deterministic` the
/// randomness `rnd` is 32 zero bytes; otherwise it is 32 bytes from the operating system, and
/// the result is that of some such `rnd` (or `RandomSourceFailed`).
pub fn sign(params: &GenericDsaParams, sk: &SigningKey, message: &[u8], deterministic: bool) -> (r: Result<Signature, PqcError>)
    requires
        dsa_ready(*params),
    ensures
        r matches Ok(sig) ==> sig_shape_ok(sig, *params),
        deterministic ==> signed_as(
            r,
            sign_result(*params, sk.rho@, sk.cap_k@, sk.tr@, coeff_rows(sk.s1@), coeff_rows(sk.s2@), coeff_rows(sk.t0@), message@, Seq::new(32, |i: int| 0u8)),
        ),
        !deterministic ==> r == Err::<Signature, PqcError>(PqcError::RandomSourceFailed) || exists|rnd: Seq<u8>| rnd.len() == 32 && #[trigger] signed_as(
            r,
            sign_result(*params, sk.rho@, sk.cap_k@, sk.tr@, coeff_rows(sk.s1@), coeff_rows(sk.s2@), coeff_rows(sk.t0@), message@, rnd),
        ),
{
    let rnd: [u8; 32] = if deterministic {
        let z = [0u8; 32];
        proof {
            assert(z@ =~= Seq::new(32, |i: int| 0u8));
        }
        z
    } else {
        match crate::xof::os_random_bytes(32) {
            Some(v) => take32(v.as_slice(), 0),
            None => return Err(PqcError::RandomSourceFailed),
        }
    };
    let r = sign_with_rnd(params, sk, message, rnd);
    proof {
        assert(rnd@.len() == 32);
    }
    r
}

/// Shifts each coefficient of `t1` left by `d = 13` bits, in 32-bit arithmetic.
pub open spec fn shift_t1(t1: Seq<Seq<i32>>) -> Seq<Seq<i32>> {
    Seq::new(t1.len(), |t: int| Seq::new(N as nat, |i: int| (t1[t][i] * 8192) as i32))
}

/// Every hint row has 256 flags.
pub open spec fn rows_full(h: Seq<Seq<bool>>) -> bool {
    forall|t: int| 0 <= t < h.len() ==> (#[trigger] h[t]).len() == N
}

/// The verification outcome (FIPS 204 Algorithm 8, empty context): `Ok(false)` for a signature
/// or key of the wrong shape, with `z` too large or with too many hints, `Ok(c_tilde' == c_tilde)`
/// otherwise, and the XOF-budget error when sampling `A` or `c` runs past it.
pub open spec fn verify_result(
    p: GenericDsaParams,
    rho: Seq<u8>,
    t1: Seq<Seq<i32>>,
    msg: Seq<u8>,
    c_tilde: Seq<u8>,
    z: Seq<Seq<i32>>,
    h: Seq<Seq<bool>>,
) -> Result<bool, PqcError> {
    let q = p.q as int;
    let beta = p.tau * p.eta;
    if z.len() != p.l || h.len() != p.k || c_tilde.len() != p.lambda || t1.len() != p.k || !rows_full(h) {
        Ok(false)
    } else if seq_norm(z, q, z.len() as int) >= p.gamma1 - beta {
        Ok(false)
    } else if hcount(h, h.len() as int) > p.omega {
        Ok(false)
    } else if !a_ok(rho, p.k as int, p.l as int, q) {
        Err(PqcError::XofBudgetExhausted)
    } else {
        match challenge(c_tilde, p) {
            None => Err(PqcError::XofBudgetExhausted),
            Some(c) => {
                let mu = sign_mu(shake256_output(pk_bytes_spec(rho, t1, p), 64), msg);
                let az = mat_vec(a_mat(rho, p.k as int, p.l as int, q), z, q);
                let w = vsub(az, scal(c, shift_t1(t1), q), q);
                let w1 = vusehint(h, w, p.gamma2 as int, q);
                Ok(shake256_output(mu + w1_bytes(w1, p), p.lambda as nat) == c_tilde)
            },
        }
    }
}

/// `t1 * 2^13` for each polynomial, wrapping in 32 bits.
fn shift_t1_vec(t1: &Vec<Poly>) -> (out: Vec<Poly>)
    ensures
        coeff_rows(out@) == shift_t1(coeff_rows(t1@)),
{
    let mut out: Vec<Poly> = Vec::new();
    let mut t: usize = 0;
    while t < t1.len()
        invariant
            t <= t1.len(),
            out.len() == t,
            forall|x: int| 0 <= x < t ==> #[trigger] out@[x].coeffs@ == shift_t1(coeff_rows(t1@))[x],
        decreases t1.len() - t,
    {
        let mut p = Poly::zero();
        let mut i: usize = 0;
        while i < N
            invariant
                t < t1.len(),
                i <= N,
                forall|j: int| 0 <= j < i ==> #[trigger] p.coeffs@[j] == (t1@[t as int].coeffs@[j] * 8192) as i32,
            decreases N - i,
        {
            let wide: i64 = (t1[t].coeffs[i] as i64) * 8192;
            p.coeffs[i] = wide as i32;
            i = i + 1;
        }
        proof {
            assert(p.coeffs@ =~= shift_t1(coeff_rows(t1@))[t as int]);
        }
        out.push(p);
        t = t + 1;
    }
    proof {
        assert(coeff_rows(out@) =~= shift_t1(coeff_rows(t1@)));
    }
    out
}

/// Whether every hint row has 256 flags.
fn hint_rows_full(h: &Hint) -> (r: bool)
    ensures
        r == rows_full(hint_rows(h@)),
{
    let mut t: usize = 0;
    while t < h.len()
        invariant
            t <= h.len(),
            forall|x: int| 0 <= x < t ==> (#[trigger] h@[x])@.len() == N,
        decreases h.len() - t,
    {
        if h[t].len() != N {
            proof {
                assert(hint_rows(h@)[t as int].len() != N);
            }
            return false;
        }
        t = t + 1;
    }
    proof {
        assert forall|x: int| 0 <= x < hint_rows(h@).len() implies (#[trigger] hint_rows(h@)[x]).len() == N by {
            assert(h@[x]@.len() == N);
        }
    }
    true
}

/// FIPS 204 Algorithm 3 (ML-DSA.Verify) with an empty context string.
pub fn verify(params: &GenericDsaParams, vk: &VerifyingKey, message: &[u8], sig: &Signature) -> (r: Result<bool, PqcError>)
    requires
        dsa_ready(*params),
    ensures
        r == verify_result(*params, vk.rho@, coeff_rows(vk.t1@), message@, sig.c_tilde@, coeff_rows(sig.z@), hint_rows(sig.h@)),
{
    let ghost p = *params;
    let q = params.q;
    if sig.z.len() != params.l as usize || sig.h.len() != params.k as usize || sig.c_tilde.len() != params.lambda as usize
        || vk.t1.len() != params.k as usize || !hint_rows_full(&sig.h) {
        return Ok(false);
    }
    proof {
        assert forall|t: int| 0 <= t < sig.h.len() implies #[trigger] sig.h@[t]@.len() <= N by {
            assert(hint_rows(sig.h@)[t].len() == N);
        }
    }
    let beta = (params.tau * params.eta) as i32;
    let zn = crate::dsa_rounding::infinity_norm_centered_vec(sig.z.as_slice(), q);
    proof {
        lemma_norm_rows(sig.z@, p.q as int, sig.z.len() as int);
    }
    if zn >= params.gamma1 - beta {
        return Ok(false);
    }
    let hw = crate::dsa_rounding::hint_weight(&sig.h);
    proof {
        lemma_hcount_rows(sig.h@, sig.h.len() as int);
    }
    if hw > params.omega {
        return Ok(false);
    }
    let table = ready_table(params);
    let a = match expand_a(&vk.rho, params.k as usize, params.l as usize, q) {
        Ok(a) => a,
        Err(e) => return Err(e),
    };
    let pk_bytes = encode_pk(&vk.rho, vk.t1.as_slice(), params);
    proof {
        lemma_flat_rows(vk.t1@);
        lemma_packing_unique(pk_bytes@.subrange(32, pk_bytes@.len() as int), flat_coeffs(vk.t1@), t1_bits_spec(p.q as int));
        assert(pk_bytes@ =~= pk_bytes@.subrange(0, 32) + pk_bytes@.subrange(32, pk_bytes@.len() as int));
        assert(pk_bytes@ == pk_bytes_spec(vk.rho@, coeff_rows(vk.t1@), p));
    }
    let tr = crate::xof::shake256(pk_bytes.as_slice(), 64);
    let mut mu_in: Vec<u8> = Vec::new();
    append_bytes(&mut mu_in, tr.as_slice());
    mu_in.push(0u8);
    mu_in.push(0u8);
    append_bytes(&mut mu_in, message);
    proof {
        assert(mu_in@ =~= tr@ + seq![0u8, 0u8] + message@);
    }
    let mu = crate::xof::shake256(mu_in.as_slice(), 64);
    let c = match crate::dsa_sample::sample_challenge(sig.c_tilde.as_slice(), params.tau) {
        Ok(c) => c,
        Err(e) => return Err(e),
    };
    let az = mat_vec_mul(&a, &sig.z, &table, q);
    let t1s = shift_t1_vec(&vk.t1);
    let ct1 = scalar_vec_mul(&c, &t1s, &table);
    proof {
        lemma_reduced_moderate(az@, p.q as int);
        lemma_reduced_moderate(ct1@, p.q as int);
    }
    let w = vec_sub(&az, &ct1, q);
    let w1 = crate::dsa_rounding::use_hint_vec(&sig.h, w.as_slice(), params.gamma2, q);
    proof {
        assert forall|x: int| 0 <= x < w1.len() implies #[trigger] coeff_rows(w1@)[x] == vusehint(hint_rows(sig.h@), coeff_rows(w@), p.gamma2 as int, p.q as int)[x] by {
            assert(w1@[x].coeffs@ =~= vusehint(hint_rows(sig.h@), coeff_rows(w@), p.gamma2 as int, p.q as int)[x]);
        }
        assert(coeff_rows(w1@) =~= vusehint(hint_rows(sig.h@), coeff_rows(w@), p.gamma2 as int, p.q as int));
    }
    let w1_enc = high_bits_hash_bytes(w1.as_slice(), params);
    let mut hin: Vec<u8> = Vec::new();
    append_bytes(&mut hin, mu.as_slice());
    append_bytes(&mut hin, w1_enc.as_slice());
    let check = crate::xof::shake256(hin.as_slice(), params.lambda as usize);
    Ok(crate::bytes::bytes_eq(check.as_slice(), sig.c_tilde.as_slice()))
}

/// Whether keygen, sign and verify can run on a parameter set: the conditions of
/// `dsa_params_valid`, encodings of moderate size, `q < 2^30`, `tau <= 64`, and an NTT table
/// for `(256, q)`.
pub fn check_ready(params: &GenericDsaParams) -> (r: bool)
    ensures
        r == dsa_ready(*params),
{
    if !crate::dsa_params::check_params_valid(params) {
        return false;
    }
    if !(1 <= params.q && params.q < 0x7fff_ffff && 1 <= params.eta && params.eta <= 0x3fff_ffff && 1 <= params.gamma1
        && params.gamma1 <= 0x3fff_ffff && params.k <= 0xffff && params.l <= 0xffff && params.omega <= 0x3fff_ffff
        && params.lambda <= 0x3fff_ffff) {
        return false;
    }
    if params.q >= 0x4000_0000 || params.tau > 64 {
        return false;
    }
    crate::ntt::build_table(params.q).is_ok()
}

} // verus!
