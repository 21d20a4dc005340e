//! The signature scheme's round trip: what signing produces, verification accepts. The bound
//! `|c s2| <= tau * eta` it rests on comes from the transform's product being the schoolbook
//! negacyclic product.
use crate::custom_kem_ntt::{bit_rev, inv_ntt_spec, ints32, is_negacyclic_root, spec_n_inv};
use crate::dilithium::{shift_t1, mat_vec, padd, pmul, pmul_a, psub, ring_mul256, row_acc, scal, vadd, vcent, vp2r0, vp2r1, vsub, zero_poly};
use crate::dilithium::{
    a_entry, a_mat, a_ok, attempt, attempt_c_tilde, attempt_tail, challenge, dsa_ready, hcount, hint_rows, mask_ok, mask_poly_spec, mask_vec, next_kappa,
    pk_bytes_spec, seq_norm, sig_shape_ok, sign_mu, sign_result, sign_rho_pp, sign_run, signed_as, verify_result, vhigh, vlow, vmakehint, vneg, vusehint,
    Signature, MAX_SIGN_ATTEMPTS,
};
use crate::pke::coeff_rows;
use crate::xof::shake256_output;
use crate::dsa_sample::{lemma_mask_run_shape, mask_nonce, seed_nonce};
use crate::dsa_params::GenericDsaParams;
use crate::dsa_rounding::{
    centered_abs, centered_spec, decompose_spec, lemma_decompose_reconstructs, lemma_high_bits_stable, lemma_use_hint_recovers, max_centered_abs,
    power2round_spec, rounding_params_ok, use_hint_spec,
};
use crate::dsa_sample::{candidate_bytes, challenge_run, first_small, le_value, seed_two, uniform_run, xof_bit};
use crate::encode::bit_length;
use crate::error::PqcError;
use crate::xof::{xof_byte, XofKind, XOF_BUDGET};
use crate::dsa_params::is_prime_spec;
use crate::ntt::{dsa_root, dsa_zetas, dsa_zetas_inv, no_root_under};
use crate::ntt_laws::{lemma_degree_below_modulus, lemma_root_tables_pair};
use crate::poly::N;
use crate::conv_laws::{isum, lemma_isum_ext, lemma_isum_scale, nci, rot};
use crate::custom_kem_ntt::ntt_spec;
use crate::ntt_eval::{cst, lemma_ntt_evaluates, lemma_peval_nci, lemma_point_root, lemma_root_table_squares, peval, squares_ok};
use crate::prime_field::lemma_fermat_inverse;
use crate::ring_laws::{
    lemma_cong_add, lemma_cong_mul, lemma_cong_sub, lemma_inv_ntt_cong, lemma_ntt_of_rmul, lemma_rmul_assoc, lemma_rmul_comm, lemma_rmul_cong, lemma_rmul_lin, lemma_rmul_ssum, lemma_ssum_add,
    lemma_ssum_cong, lemma_ssum_ext, eqm, lemma_eqm_reduced_eq, lemma_eqm_sym, lemma_eqm_trans, lemma_inv_ntt_reduced, lemma_lin_cong, lemma_ntt_of_inv_ntt,
    lemma_ntt_reduced, lemma_rmul_reduced, lemma_ssum_len, lin, reduced, ring_table_ok, rmul, ssum, vzero,
};
use vstd::arithmetic::power::pow;
use vstd::arithmetic::power2::pow2;
use vstd::prelude::*;

verus! {

/// What the ring laws need of a modulus for the degree-256 transform.
pub open spec fn dsa_modulus_ok(q: int) -> bool {
    &&& is_prime_spec(q)
    &&& q < 0x4000_0000
    &&& (q - 1) % 512 == 0
    &&& !no_root_under(q, q)
}

/// Some `y` below `z` is a root, so a smallest one is.
proof fn lemma_smallest_root_exists(q: int, z: int)
    requires
        !no_root_under(q, z),
    ensures
        exists|z0: int| 2 <= z0 < z && is_negacyclic_root(z0, q, N as int) && no_root_under(q, z0),
    decreases z,
{
    if no_root_under(q, z - 1) {
        let g = choose|g: int| 2 <= g < z && is_negacyclic_root(g, q, N as int);
        assert(g == z - 1);
        assert(2 <= z - 1 < z && is_negacyclic_root(z - 1, q, N as int) && no_root_under(q, z - 1));
    } else {
        lemma_smallest_root_exists(q, z - 1);
        let z0 = choose|z0: int| 2 <= z0 < z - 1 && is_negacyclic_root(z0, q, N as int) && no_root_under(q, z0);
        assert(2 <= z0 < z && is_negacyclic_root(z0, q, N as int) && no_root_under(q, z0));
    }
}

/// The degree-256 tables of a usable modulus satisfy what the ring laws need.
pub proof fn lemma_dsa_ring_table(q: int)
    requires
        dsa_modulus_ok(q),
    ensures
        ring_table_ok(dsa_zetas(q), dsa_zetas_inv(q), spec_n_inv(N as int, q), q, 8),
        forall|a: Seq<int>, b: Seq<int>|
            #[trigger] ring_mul256(a, b, q) == rmul(a, b, dsa_zetas(q), dsa_zetas_inv(q), spec_n_inv(N as int, q), q),
{
    lemma_smallest_root_exists(q, q);
    let zeta = dsa_root(q);
    assert(2 <= zeta < q && is_negacyclic_root(zeta, q, N as int) && no_root_under(q, zeta));
    vstd::arithmetic::power2::lemma2_to64();
    assert(pow2(8) == 256);
    let zs = dsa_zetas(q);
    let zi = dsa_zetas_inv(q);
    assert forall|i: int| 0 <= i < pow2(8) implies #[trigger] zs[i] == pow(zeta, bit_rev(i as nat, 8)) % q by {
        vstd::arithmetic::div_mod::lemma_mod_bound(pow(zeta, bit_rev(i as nat, 8)), q);
    }
    assert forall|i: int| 0 <= i < pow2(8) implies #[trigger] zi[i] == (q - zs[i]) % q by {
        assert(0 <= zs[i] < q);
        vstd::arithmetic::div_mod::lemma_mod_bound(q - zs[i], q);
    }
    lemma_root_tables_pair(zs, zi, zeta, q, 8);
    lemma_degree_below_modulus(256, q);
    lemma_fermat_inverse(q, 256);
    vstd::arithmetic::div_mod::lemma_mul_mod_noop_right(256, pow(256, (q - 2) as nat), q);
}

/// The degree-256 ring product of the modulus's tables.
pub open spec fn dmul(q: int, a: Seq<int>, b: Seq<int>) -> Seq<int> {
    rmul(a, b, dsa_zetas(q), dsa_zetas_inv(q), spec_n_inv(N as int, q), q)
}

/// The normal-domain polynomial of an NTT-domain one.
pub open spec fn from_ntt(q: int, a_hat: Seq<i32>) -> Seq<int> {
    inv_ntt_spec(ints32(a_hat), dsa_zetas_inv(q), spec_n_inv(N as int, q), q)
}

/// `pmul` is the ring product.
proof fn lemma_pmul_view(c: Seq<i32>, v: Seq<i32>, q: int)
    requires
        dsa_modulus_ok(q),
        c.len() == N,
        v.len() == N,
    ensures
        ints32(pmul(c, v, q)) == dmul(q, ints32(c), ints32(v)),
        reduced(dmul(q, ints32(c), ints32(v)), q),
        dmul(q, ints32(c), ints32(v)).len() == N,
{
    lemma_dsa_ring_table(q);
    lemma_rmul_reduced(ints32(c), ints32(v), dsa_zetas(q), dsa_zetas_inv(q), spec_n_inv(N as int, q), q, 8);
    assert(ints32(pmul(c, v, q)) =~= dmul(q, ints32(c), ints32(v)));
}

/// `pmul_a` of a reduced NTT-domain `a_hat` is the ring product with its normal-domain
/// polynomial.
proof fn lemma_pmul_a_view(a_hat: Seq<i32>, v: Seq<i32>, q: int)
    requires
        dsa_modulus_ok(q),
        a_hat.len() == N,
        v.len() == N,
        forall|i: int| 0 <= i < N ==> 0 <= #[trigger] a_hat[i] < q,
    ensures
        ints32(pmul_a(a_hat, v, q)) == dmul(q, from_ntt(q, a_hat), ints32(v)),
        reduced(dmul(q, from_ntt(q, a_hat), ints32(v)), q),
        dmul(q, from_ntt(q, a_hat), ints32(v)).len() == N,
        from_ntt(q, a_hat).len() == N,
{
    lemma_dsa_ring_table(q);
    let zs = dsa_zetas(q);
    let zi = dsa_zetas_inv(q);
    let ni = spec_n_inv(N as int, q);
    let ah = ints32(a_hat);
    lemma_ntt_of_inv_ntt(ah, zs, zi, ni, q, 8);
    lemma_inv_ntt_reduced(ah, zi, ni, q);
    lemma_ntt_reduced(from_ntt(q, a_hat), zs, q, 8);
    assert(reduced(ah, q));
    lemma_eqm_reduced_eq(crate::custom_kem_ntt::ntt_spec(from_ntt(q, a_hat), zs, q), ah, q);
    lemma_rmul_reduced(from_ntt(q, a_hat), ints32(v), zs, zi, ni, q, 8);
    assert(ints32(pmul_a(a_hat, v, q)) =~= dmul(q, from_ntt(q, a_hat), ints32(v)));
}

/// `padd` as integers: the entrywise sum, reduced.
proof fn lemma_padd_view(a: Seq<i32>, b: Seq<i32>, q: int)
    requires
        2 <= q < 0x4000_0000,
        a.len() == N,
        b.len() == N,
    ensures
        eqm(ints32(padd(a, b, q)), lin(1, ints32(a), 1, ints32(b)), q),
        reduced(ints32(padd(a, b, q)), q),
        padd(a, b, q).len() == N,
{
    let x = ints32(padd(a, b, q));
    assert forall|i: int| 0 <= i < N implies #[trigger] x[i] % q == lin(1, ints32(a), 1, ints32(b))[i] % q && 0 <= x[i] < q by {
        let v = a[i] + b[i];
        vstd::arithmetic::div_mod::lemma_mod_bound(v as int, q);
        vstd::arithmetic::div_mod::lemma_mod_twice(v as int, q);
    }
}

/// `psub` as integers: the entrywise difference, reduced.
proof fn lemma_psub_view(a: Seq<i32>, b: Seq<i32>, q: int)
    requires
        2 <= q < 0x4000_0000,
        a.len() == N,
        b.len() == N,
    ensures
        eqm(ints32(psub(a, b, q)), lin(1, ints32(a), -1, ints32(b)), q),
        reduced(ints32(psub(a, b, q)), q),
        psub(a, b, q).len() == N,
{
    let x = ints32(psub(a, b, q));
    assert forall|i: int| 0 <= i < N implies #[trigger] x[i] % q == lin(1, ints32(a), -1, ints32(b))[i] % q && 0 <= x[i] < q by {
        let v = a[i] - b[i];
        vstd::arithmetic::div_mod::lemma_mod_bound(v as int, q);
        vstd::arithmetic::div_mod::lemma_mod_twice(v as int, q);
    }
}

/// Rows of `N` coefficients, with entries of the first `m` reduced when `red`.
pub open spec fn rows_ok(v: Seq<Seq<i32>>, m: int, q: int, red: bool) -> bool {
    &&& v.len() >= m
    &&& forall|j: int| 0 <= j < m ==> (#[trigger] v[j]).len() == N
    &&& red ==> forall|j: int, i: int| 0 <= j < m && 0 <= i < N ==> 0 <= #[trigger] v[j][i] < q
}

/// `row_acc` as integers: the sum of the ring products, mod q.
proof fn lemma_row_acc_view(row: Seq<Seq<i32>>, v: Seq<Seq<i32>>, m: int, q: int)
    requires
        dsa_modulus_ok(q),
        0 <= m,
        rows_ok(row, m, q, true),
        rows_ok(v, m, q, false),
    ensures
        eqm(ints32(row_acc(row, v, m, q)), ssum(|s: int| dmul(q, from_ntt(q, row[s]), ints32(v[s])), m as nat, N as nat), q),
        row_acc(row, v, m, q).len() == N,
        reduced(ints32(row_acc(row, v, m, q)), q),
    decreases m,
{
    let n = N as nat;
    let f = |s: int| dmul(q, from_ntt(q, row[s]), ints32(v[s]));
    lemma_ssum_len(f, m as nat, n);
    if m == 0 {
        assert(ints32(row_acc(row, v, 0, q)) =~= vzero(n));
    } else {
        lemma_row_acc_view(row, v, m - 1, q);
        lemma_ssum_len(f, (m - 1) as nat, n);
        let d0 = row_acc(row, v, m - 1, q);
        let pm = pmul_a(row[m - 1], v[m - 1], q);
        lemma_pmul_a_view(row[m - 1], v[m - 1], q);
        lemma_padd_view(d0, pm, q);
        assert(eqm(ints32(pm), f(m - 1), q));
        lemma_lin_cong(ints32(d0), ssum(f, (m - 1) as nat, n), ints32(pm), f(m - 1), 1, 1, q);
        lemma_eqm_trans(ints32(row_acc(row, v, m, q)), lin(1, ints32(d0), 1, ints32(pm)), ssum(f, m as nat, n), q);
    }
}

proof fn lemma_dmul_comm(q: int, a: Seq<int>, b: Seq<int>)
    requires
        dsa_modulus_ok(q),
        a.len() == N,
        b.len() == N,
    ensures
        dmul(q, a, b) == dmul(q, b, a),
        dmul(q, a, b).len() == N,
        reduced(dmul(q, a, b), q),
{
    lemma_dsa_ring_table(q);
    lemma_rmul_comm(a, b, dsa_zetas(q), dsa_zetas_inv(q), spec_n_inv(N as int, q), q, 8);
    lemma_rmul_reduced(a, b, dsa_zetas(q), dsa_zetas_inv(q), spec_n_inv(N as int, q), q, 8);
}

proof fn lemma_dmul_assoc(q: int, a: Seq<int>, b: Seq<int>, c: Seq<int>)
    requires
        dsa_modulus_ok(q),
        a.len() == N,
        b.len() == N,
        c.len() == N,
    ensures
        dmul(q, dmul(q, a, b), c) == dmul(q, a, dmul(q, b, c)),
{
    lemma_dsa_ring_table(q);
    lemma_rmul_assoc(a, b, c, dsa_zetas(q), dsa_zetas_inv(q), spec_n_inv(N as int, q), q, 8);
}

proof fn lemma_dmul_lin(q: int, a: Seq<int>, b: Seq<int>, c: Seq<int>, c1: int, c2: int)
    requires
        dsa_modulus_ok(q),
        a.len() == N,
        b.len() == N,
        c.len() == N,
    ensures
        eqm(dmul(q, a, lin(c1, b, c2, c)), lin(c1, dmul(q, a, b), c2, dmul(q, a, c)), q),
{
    lemma_dsa_ring_table(q);
    lemma_rmul_lin(a, b, c, c1, c2, dsa_zetas(q), dsa_zetas_inv(q), spec_n_inv(N as int, q), q, 8);
}

proof fn lemma_dmul_cong(q: int, a: Seq<int>, a2: Seq<int>, b: Seq<int>)
    requires
        dsa_modulus_ok(q),
        a.len() == N,
        b.len() == N,
        eqm(a2, a, q),
    ensures
        dmul(q, a2, b) == dmul(q, a, b),
        dmul(q, b, a2) == dmul(q, b, a),
{
    lemma_dsa_ring_table(q);
    lemma_rmul_cong(a, a2, b, dsa_zetas(q), dsa_zetas_inv(q), spec_n_inv(N as int, q), q, 8);
}

proof fn lemma_dmul_ssum(q: int, x: Seq<int>, f: spec_fn(int) -> Seq<int>, m: nat)
    requires
        dsa_modulus_ok(q),
        x.len() == N,
        forall|j: int| 0 <= j < m ==> (#[trigger] f(j)).len() == N,
    ensures
        eqm(dmul(q, x, ssum(f, m, N as nat)), ssum(|j: int| dmul(q, x, f(j)), m, N as nat), q),
{
    lemma_dsa_ring_table(q);
    let (zs, zi, ni) = (dsa_zetas(q), dsa_zetas_inv(q), spec_n_inv(N as int, q));
    lemma_rmul_ssum(x, f, m, zs, zi, ni, q, 8);
    lemma_ssum_ext(|j: int| rmul(x, f(j), zs, zi, ni, q), |j: int| dmul(q, x, f(j)), m, N as nat);
}

/// A row of `A v`: the sum of the ring products of the row's entries with `v`.
proof fn lemma_mat_row_view(a: Seq<Seq<Seq<i32>>>, v: Seq<Seq<i32>>, r: int, l: int, q: int)
    requires
        dsa_modulus_ok(q),
        0 <= r < a.len(),
        a[r].len() == l,
        v.len() == l,
        rows_ok(a[r], l, q, true),
        rows_ok(v, l, q, false),
    ensures
        eqm(ints32(mat_vec(a, v, q)[r]), ssum(|s: int| dmul(q, from_ntt(q, a[r][s]), ints32(v[s])), l as nat, N as nat), q),
        mat_vec(a, v, q)[r].len() == N,
        reduced(ints32(mat_vec(a, v, q)[r]), q),
{
    lemma_row_acc_view(a[r], v, l, q);
}

/// `sum_s A_s (c v_s) = c (sum_s A_s v_s)`, mod q.
proof fn lemma_row_times_c(q: int, a_row: Seq<Seq<i32>>, v: Seq<Seq<i32>>, c: Seq<int>, l: nat)
    requires
        dsa_modulus_ok(q),
        c.len() == N,
        rows_ok(a_row, l as int, q, true),
        rows_ok(v, l as int, q, false),
    ensures
        eqm(
            ssum(|s: int| dmul(q, from_ntt(q, a_row[s]), dmul(q, c, ints32(v[s]))), l, N as nat),
            dmul(q, c, ssum(|s: int| dmul(q, from_ntt(q, a_row[s]), ints32(v[s])), l, N as nat)),
            q,
        ),
{
    let n = N as nat;
    let f = |s: int| dmul(q, from_ntt(q, a_row[s]), ints32(v[s]));
    assert forall|s: int| 0 <= s < l implies (#[trigger] f(s)).len() == n by {
        lemma_inv_ntt_reduced(ints32(a_row[s]), dsa_zetas_inv(q), spec_n_inv(N as int, q), q);
        lemma_dmul_comm(q, from_ntt(q, a_row[s]), ints32(v[s]));
    }
    lemma_dmul_ssum(q, c, f, l);
    assert forall|s: int| 0 <= s < l implies #[trigger] dmul(q, from_ntt(q, a_row[s]), dmul(q, c, ints32(v[s]))) == dmul(q, c, f(s)) by {
        let a = from_ntt(q, a_row[s]);
        let vs = ints32(v[s]);
        lemma_inv_ntt_reduced(ints32(a_row[s]), dsa_zetas_inv(q), spec_n_inv(N as int, q), q);
        lemma_dmul_comm(q, c, vs);
        lemma_dmul_comm(q, a, c);
        lemma_dmul_assoc(q, a, c, vs);
        lemma_dmul_assoc(q, c, a, vs);
    }
    lemma_ssum_ext(
        |s: int| dmul(q, from_ntt(q, a_row[s]), dmul(q, c, ints32(v[s]))),
        |j: int| dmul(q, c, f(j)),
        l,
        n,
    );
    lemma_eqm_sym(dmul(q, c, ssum(f, l, n)), ssum(|j: int| dmul(q, c, f(j)), l, n), q);
}

/// `t1 * 2^13` is `t - t0`, mod q, for `(t1, t0) = Power2Round(t)`.
proof fn lemma_shift_t1_row(t: Seq<Seq<i32>>, r: int, q: int)
    requires
        2 <= q < 0x4000_0000,
        0 <= r < t.len(),
        t[r].len() == N,
        forall|i: int| 0 <= i < N ==> 0 <= #[trigger] t[r][i] < q,
    ensures
        eqm(ints32(shift_t1(vp2r1(t, q))[r]), lin(1, ints32(t[r]), -1, ints32(vp2r0(t, q)[r])), q),
        ints32(vp2r0(t, q)[r]).len() == N,
{
    let sh = ints32(shift_t1(vp2r1(t, q))[r]);
    let target = lin(1, ints32(t[r]), -1, ints32(vp2r0(t, q)[r]));
    assert forall|i: int| 0 <= i < N implies #[trigger] sh[i] % q == target[i] % q by {
        let x = t[r][i] as int;
        crate::dsa_rounding::lemma_power2round_reconstructs(x, q);
        let (r1, r0) = power2round_spec(x, q);
        vstd::arithmetic::div_mod::lemma_small_mod(x as nat, q as nat);
        assert(r1 * 8192 == x - r0) by {
            crate::dsa_rounding::lemma_mod_pm_facts_pub(x, 8192);
        }
        assert(0 <= r1 * 8192 < 0x8000_0000);
        assert(vp2r1(t, q)[r][i] == r1 as i32);
        assert(sh[i] == r1 * 8192);
        assert(vp2r0(t, q)[r][i] == r0 as i32);
    }
}

/// The matrix, secret and mask shapes signing works with.
pub open spec fn sign_shapes(
    q: int,
    a: Seq<Seq<Seq<i32>>>,
    y: Seq<Seq<i32>>,
    s1: Seq<Seq<i32>>,
    s2: Seq<Seq<i32>>,
    c: Seq<i32>,
    k: int,
    l: int,
) -> bool {
    &&& a.len() == k
    &&& forall|r: int| 0 <= r < k ==> (#[trigger] a[r]).len() == l && rows_ok(a[r], l, q, true)
    &&& y.len() == l && rows_ok(y, l, q, false)
    &&& s1.len() == l && rows_ok(s1, l, q, false)
    &&& s2.len() == k && rows_ok(s2, k, q, false)
    &&& c.len() == N
}

/// `z` as verification reads it agrees with `y + c s1` mod q.
proof fn lemma_z_view(q: int, y: Seq<Seq<i32>>, s1: Seq<Seq<i32>>, c: Seq<i32>, l: int, s: int)
    requires
        dsa_modulus_ok(q),
        y.len() == l && rows_ok(y, l, q, false),
        s1.len() == l && rows_ok(s1, l, q, false),
        c.len() == N,
        0 <= s < l,
    ensures
        eqm(
            ints32(vcent(vadd(y, scal(c, s1, q), q), q)[s]),
            lin(1, ints32(y[s]), 1, dmul(q, ints32(c), ints32(s1[s]))),
            q,
        ),
        ints32(vcent(vadd(y, scal(c, s1, q), q), q)[s]).len() == N,
{
    let zz = vadd(y, scal(c, s1, q), q);
    lemma_pmul_view(c, s1[s], q);
    lemma_padd_view(y[s], pmul(c, s1[s], q), q);
    let zc = ints32(vcent(zz, q)[s]);
    assert forall|i: int| 0 <= i < N implies #[trigger] zc[i] % q == ints32(zz[s])[i] % q by {
        let x = zz[s][i] as int;
        crate::dilithium::lemma_centered_range_pub(x, q);
        vstd::arithmetic::div_mod::lemma_mod_bound(x, q);
        if x % q > q / 2 {
            vstd::arithmetic::div_mod::lemma_mod_sub_multiples_vanish(x % q, q);
        }
        vstd::arithmetic::div_mod::lemma_mod_twice(x, q);
    }
    assert(eqm(ints32(pmul(c, s1[s], q)), dmul(q, ints32(c), ints32(s1[s])), q));
    assert(eqm(ints32(y[s]), ints32(y[s]), q));
    lemma_lin_cong(ints32(y[s]), ints32(y[s]), ints32(pmul(c, s1[s], q)), dmul(q, ints32(c), ints32(s1[s])), 1, 1, q);
    lemma_eqm_trans(zc, ints32(zz[s]), lin(1, ints32(y[s]), 1, ints32(pmul(c, s1[s], q))), q);
    lemma_eqm_trans(zc, lin(1, ints32(y[s]), 1, ints32(pmul(c, s1[s], q))), lin(1, ints32(y[s]), 1, dmul(q, ints32(c), ints32(s1[s]))), q);
}

/// `A z'` for `z' = centred(y + c s1)` is `A y + c (A s1)`, row `r`, mod q.
proof fn lemma_az_row(
    q: int,
    a: Seq<Seq<Seq<i32>>>,
    y: Seq<Seq<i32>>,
    s1: Seq<Seq<i32>>,
    s2: Seq<Seq<i32>>,
    c: Seq<i32>,
    k: int,
    l: int,
    r: int,
)
    requires
        dsa_modulus_ok(q),
        sign_shapes(q, a, y, s1, s2, c, k, l),
        0 <= r < k,
    ensures
        eqm(
            ints32(mat_vec(a, vcent(vadd(y, scal(c, s1, q), q), q), q)[r]),
            lin(
                1,
                ints32(mat_vec(a, y, q)[r]),
                1,
                dmul(q, ints32(c), ssum(|s: int| dmul(q, from_ntt(q, a[r][s]), ints32(s1[s])), l as nat, N as nat)),
            ),
            q,
        ),
{
    let n = N as nat;
    let zp = vcent(vadd(y, scal(c, s1, q), q), q);
    let cc = ints32(c);
    let ar = |s: int| from_ntt(q, a[r][s]);
    // rows of z'
    assert forall|s: int| 0 <= s < l implies (#[trigger] zp[s]).len() == N by {
        lemma_z_view(q, y, s1, c, l, s);
    }
    assert(zp.len() == l);
    lemma_mat_row_view(a, zp, r, l, q);
    lemma_mat_row_view(a, y, r, l, q);
    let fz = |s: int| dmul(q, ar(s), ints32(zp[s]));
    let fy = |s: int| dmul(q, ar(s), ints32(y[s]));
    let fc = |s: int| dmul(q, ar(s), dmul(q, cc, ints32(s1[s])));
    assert forall|s: int| 0 <= s < l implies eqm(#[trigger] fz(s), lin(1, fy(s), 1, fc(s)), q) && fz(s).len() == N by {
        lemma_z_view(q, y, s1, c, l, s);
        lemma_inv_ntt_reduced(ints32(a[r][s]), dsa_zetas_inv(q), spec_n_inv(N as int, q), q);
        lemma_pmul_view(c, s1[s], q);
        let lz = lin(1, ints32(y[s]), 1, dmul(q, cc, ints32(s1[s])));
        lemma_dmul_cong(q, lz, ints32(zp[s]), ar(s));
        lemma_dmul_lin(q, ar(s), ints32(y[s]), dmul(q, cc, ints32(s1[s])), 1, 1);
        lemma_dmul_comm(q, ar(s), ints32(zp[s]));
    }
    lemma_ssum_cong(fz, |s: int| lin(1, fy(s), 1, fc(s)), l as nat, n, q);
    assert forall|s: int| 0 <= s < l implies (#[trigger] fy(s)).len() == N by {
        lemma_inv_ntt_reduced(ints32(a[r][s]), dsa_zetas_inv(q), spec_n_inv(N as int, q), q);
        lemma_dmul_comm(q, ar(s), ints32(y[s]));
    }
    lemma_ssum_add(fy, fc, l as nat, n);
    lemma_row_times_c(q, a[r], s1, cc, l as nat);
    lemma_ssum_ext(fc, |s: int| dmul(q, from_ntt(q, a[r][s]), dmul(q, cc, ints32(s1[s]))), l as nat, n);
    lemma_ssum_ext(fz, |s: int| dmul(q, from_ntt(q, a[r][s]), ints32(zp[s])), l as nat, n);
    lemma_ssum_ext(fy, |s: int| dmul(q, from_ntt(q, a[r][s]), ints32(y[s])), l as nat, n);
    let sy = ssum(fy, l as nat, n);
    let sc = ssum(fc, l as nat, n);
    let cas = dmul(q, cc, ssum(|s: int| dmul(q, from_ntt(q, a[r][s]), ints32(s1[s])), l as nat, n));
    lemma_ssum_len(fy, l as nat, n);
    lemma_ssum_len(fc, l as nat, n);
    lemma_eqm_sym(ints32(mat_vec(a, y, q)[r]), sy, q);
    lemma_lin_cong(sy, ints32(mat_vec(a, y, q)[r]), sc, cas, 1, 1, q);
    lemma_eqm_trans(ints32(mat_vec(a, zp, q)[r]), ssum(fz, l as nat, n), lin(1, sy, 1, sc), q);
    lemma_eqm_trans(ints32(mat_vec(a, zp, q)[r]), lin(1, sy, 1, sc), lin(1, ints32(mat_vec(a, y, q)[r]), 1, cas), q);
}

proof fn lemma_row_combine(lhs: int, mz: int, dsh: int, w: int, x: int, pp: int, qq: int, rhs: int, q: int)
    requires
        q > 0,
        lhs % q == (mz - dsh) % q,
        mz % q == (w + x) % q,
        dsh % q == ((x + pp) - qq) % q,
        rhs % q == ((w - pp) + qq) % q,
    ensures
        lhs % q == rhs % q,
{
    lemma_cong_sub(mz, w + x, dsh, (x + pp) - qq, q);
    assert((w + x) - ((x + pp) - qq) == (w - pp) + qq);
}

/// What verification recomputes, `A z' - c t1 2^13`, is `(w - c s2) + c t0` for
/// `z' = centred(y + c s1)`, `w = A y`, `t = A s1 + s2` and `(t1, t0) = Power2Round(t)`.
pub proof fn lemma_verify_w_row(
    q: int,
    a: Seq<Seq<Seq<i32>>>,
    y: Seq<Seq<i32>>,
    s1: Seq<Seq<i32>>,
    s2: Seq<Seq<i32>>,
    c: Seq<i32>,
    k: int,
    l: int,
    r: int,
)
    requires
        dsa_modulus_ok(q),
        sign_shapes(q, a, y, s1, s2, c, k, l),
        0 <= r < k,
    ensures
        ({
            let t = vadd(mat_vec(a, s1, q), s2, q);
            let zz = vadd(y, scal(c, s1, q), q);
            vsub(mat_vec(a, vcent(zz, q), q), scal(c, shift_t1(vp2r1(t, q)), q), q)[r] == padd(
                psub(mat_vec(a, y, q)[r], pmul(c, s2[r], q), q),
                pmul(c, vp2r0(t, q)[r], q),
                q,
            )
        }),
{
    let n = N as nat;
    let cc = ints32(c);
    let t = vadd(mat_vec(a, s1, q), s2, q);
    let zz = vadd(y, scal(c, s1, q), q);
    let zp = vcent(zz, q);
    let t1 = vp2r1(t, q);
    let t0 = vp2r0(t, q);
    let sh = shift_t1(t1);
    let w = mat_vec(a, y, q);
    // t's row
    lemma_mat_row_view(a, s1, r, l, q);
    let m1 = mat_vec(a, s1, q)[r];
    lemma_padd_view(m1, s2[r], q);
    let as1 = ssum(|s: int| dmul(q, from_ntt(q, a[r][s]), ints32(s1[s])), l as nat, n);
    assert(t[r] == padd(m1, s2[r], q));
    lemma_shift_t1_row(t, r, q);
    // c * (t1 2^13) = c A s1 + c s2 - c t0
    let s2r = ints32(s2[r]);
    let t0r = ints32(t0[r]);
    let lt = lin(1, lin(1, as1, 1, s2r), -1, t0r);
    lemma_ssum_len(|s: int| dmul(q, from_ntt(q, a[r][s]), ints32(s1[s])), l as nat, n);
    assert(eqm(ints32(sh[r]), lt, q)) by {
        assert(eqm(ints32(t[r]), lin(1, as1, 1, s2r), q)) by {
            assert(eqm(s2r, s2r, q));
            lemma_lin_cong(ints32(m1), as1, s2r, s2r, 1, 1, q);
            lemma_eqm_trans(ints32(t[r]), lin(1, ints32(m1), 1, s2r), lin(1, as1, 1, s2r), q);
        }
        assert(eqm(t0r, t0r, q));
        lemma_lin_cong(ints32(t[r]), lin(1, as1, 1, s2r), t0r, t0r, 1, -1, q);
        lemma_eqm_trans(ints32(sh[r]), lin(1, ints32(t[r]), -1, t0r), lt, q);
    }
    assert(sh[r].len() == N);
    lemma_pmul_view(c, sh[r], q);
    lemma_dmul_cong(q, lt, ints32(sh[r]), cc);
    lemma_dmul_lin(q, cc, lin(1, as1, 1, s2r), t0r, 1, -1);
    lemma_dmul_lin(q, cc, as1, s2r, 1, 1);
    let dsh = ints32(pmul(c, sh[r], q));
    let x = dmul(q, cc, as1);
    let pp = dmul(q, cc, s2r);
    let qq = dmul(q, cc, t0r);
    lemma_dmul_comm(q, cc, lin(1, as1, 1, s2r));
    // A z'
    lemma_az_row(q, a, y, s1, s2, c, k, l, r);
    assert forall|s: int| 0 <= s < l implies (#[trigger] zp[s]).len() == N by {
        lemma_z_view(q, y, s1, c, l, s);
    }
    lemma_mat_row_view(a, zp, r, l, q);
    let mz = mat_vec(a, zp, q)[r];
    lemma_psub_view(mz, pmul(c, sh[r], q), q);
    // the right-hand side
    lemma_mat_row_view(a, y, r, l, q);
    lemma_pmul_view(c, s2[r], q);
    lemma_pmul_view(c, t0[r], q);
    lemma_psub_view(w[r], pmul(c, s2[r], q), q);
    let ws = psub(w[r], pmul(c, s2[r], q), q);
    lemma_padd_view(ws, pmul(c, t0[r], q), q);
    let lhs = vsub(mat_vec(a, zp, q), scal(c, sh, q), q)[r];
    assert(lhs == psub(mz, pmul(c, sh[r], q), q));
    let rhs = padd(ws, pmul(c, t0[r], q), q);
    assert forall|i: int| 0 <= i < N implies #[trigger] ints32(lhs)[i] % q == ints32(rhs)[i] % q by {
        assert(ints32(lhs)[i] % q == lin(1, ints32(mz), -1, dsh)[i] % q);
        assert(ints32(mz)[i] % q == lin(1, ints32(w[r]), 1, x)[i] % q);
        assert(dsh[i] % q == lin(1, dmul(q, cc, lin(1, as1, 1, s2r)), -1, qq)[i] % q);
        assert(dmul(q, cc, lin(1, as1, 1, s2r))[i] % q == lin(1, x, 1, pp)[i] % q);
        lemma_cong_sub(dmul(q, cc, lin(1, as1, 1, s2r))[i], x[i] + pp[i], qq[i], qq[i], q);
        assert(ints32(rhs)[i] % q == lin(1, ints32(ws), 1, ints32(pmul(c, t0[r], q)))[i] % q);
        assert(ints32(ws)[i] % q == lin(1, ints32(w[r]), -1, ints32(pmul(c, s2[r], q)))[i] % q);
        lemma_cong_add(ints32(ws)[i], ints32(w[r])[i] - pp[i], qq[i], qq[i], q);
        lemma_row_combine(ints32(lhs)[i], ints32(mz)[i], dsh[i], ints32(w[r])[i], x[i], pp[i], qq[i], ints32(rhs)[i], q);
    }
    lemma_eqm_reduced_eq(ints32(lhs), ints32(rhs), q);
    assert(lhs =~= rhs) by {
        assert forall|i: int| 0 <= i < N implies lhs[i] == rhs[i] by {
            assert(ints32(lhs)[i] == ints32(rhs)[i]);
        }
    }
}


/// A finished uniform run has `need` coefficients in `[0, q)`.
proof fn lemma_uniform_run_shape(input: Seq<u8>, q: int, bits: nat, pos: nat, need: nat)
    requires
        1 <= q < 0x8000_0000,
    ensures
        uniform_run(input, q, bits, pos, need) matches Some(s) ==> s.len() == need && forall|i: int|
            0 <= i < s.len() ==> 0 <= #[trigger] s[i] < q,
    decreases XOF_BUDGET - pos, need,
{
    let w = candidate_bytes(bits);
    if need > 0 && w > 0 && pos + w <= XOF_BUDGET {
        lemma_uniform_run_shape(input, q, bits, pos + w, (need - 1) as nat);
        lemma_uniform_run_shape(input, q, bits, pos + w, need);
        vstd::arithmetic::power2::lemma_pow2_pos(bits);
        let cand = le_value(XofKind::Shake128, input, pos as int, w) % pow2(bits);
        if cand < q {
            if let Some(rest) = uniform_run(input, q, bits, pos + w, (need - 1) as nat) {
                let s = seq![cand as i32] + rest;
                assert forall|i: int| 0 <= i < s.len() implies 0 <= #[trigger] s[i] < q by {
                    if i > 0 {
                        assert(s[i] == rest[i - 1]);
                    }
                }
            }
        }
    }
}

/// The matrix of a finished expansion: `k` rows of `l` polynomials of `N` coefficients in
/// `[0, q)`.
proof fn lemma_a_mat_shape(rho: Seq<u8>, k: int, l: int, q: int)
    requires
        a_ok(rho, k, l, q),
        0 <= k,
        0 <= l,
        1 <= q < 0x8000_0000,
    ensures
        a_mat(rho, k, l, q).len() == k,
        forall|r: int| 0 <= r < k ==> (#[trigger] a_mat(rho, k, l, q)[r]).len() == l && rows_ok(a_mat(rho, k, l, q)[r], l, q, true),
{
    let a = a_mat(rho, k, l, q);
    assert forall|r: int| 0 <= r < k implies (#[trigger] a[r]).len() == l && rows_ok(a[r], l, q, true) by {
        assert forall|s: int| 0 <= s < l implies (#[trigger] a[r][s]).len() == N && forall|i: int| 0 <= i < N ==> 0 <= #[trigger] a[r][s][i] < q by {
            assert(a_entry(rho, r, s, q) is Some);
            lemma_uniform_run_shape(seed_two(rho, s as u8, r as u8), q, bit_length((q - 1) as nat), 0, N as nat);
        }
    }
}

/// A position `first_small` finds holds a byte of at most `i`.
proof fn lemma_first_small(input: Seq<u8>, i: int, pos: nat)
    ensures
        first_small(input, i, pos) matches Some(p) ==> xof_byte(XofKind::Shake256, input, p as int) as int <= i,
    decreases XOF_BUDGET - pos,
{
    if pos + 1 <= XOF_BUDGET && xof_byte(XofKind::Shake256, input, pos as int) as int > i {
        lemma_first_small(input, i, pos + 1);
    }
}

/// SampleInBall keeps the polynomial's `N` coefficients.
proof fn lemma_challenge_run_len(input: Seq<u8>, tau: int, i: nat, pos: nat, c: Seq<i32>)
    requires
        c.len() == N,
    ensures
        challenge_run(input, tau, i, pos, c) matches Some(s) ==> s.len() == N,
    decreases N - i,
{
    if i < N {
        lemma_first_small(input, i as int, pos);
        if let Some(p) = first_small(input, i as int, pos) {
            let j = xof_byte(XofKind::Shake256, input, p as int) as int;
            let sign: i32 = if xof_bit(XofKind::Shake256, input, i - (N - tau)) {
                -1i32
            } else {
                1i32
            };
            lemma_challenge_run_len(input, tau, i + 1, p + 1, c.update(i as int, c[j]).update(j, sign));
        }
    }
}

/// A signature signing returns came from an accepted attempt at some counter.
proof fn lemma_sign_run_found(
    p: GenericDsaParams,
    a: Seq<Seq<Seq<i32>>>,
    s1: Seq<Seq<i32>>,
    s2: Seq<Seq<i32>>,
    t0: Seq<Seq<i32>>,
    mu: Seq<u8>,
    rho_pp: Seq<u8>,
    tries: nat,
    kappa: u16,
    sig: (Seq<u8>, Seq<Seq<i32>>, Seq<Seq<bool>>),
)
    requires
        sign_run(p, a, s1, s2, t0, mu, rho_pp, tries, kappa) == Ok::<(Seq<u8>, Seq<Seq<i32>>, Seq<Seq<bool>>), PqcError>(sig),
    ensures
        exists|k2: u16| #[trigger] attempt(p, a, s1, s2, t0, mu, rho_pp, k2) == Some(Some(sig)),
    decreases MAX_SIGN_ATTEMPTS - tries,
{
    if tries < MAX_SIGN_ATTEMPTS {
        match attempt(p, a, s1, s2, t0, mu, rho_pp, kappa) {
            None => {},
            Some(None) => {
                lemma_sign_run_found(p, a, s1, s2, t0, mu, rho_pp, tries + 1, next_kappa(kappa, p.l), sig);
            },
            Some(Some(x)) => {
                assert(attempt(p, a, s1, s2, t0, mu, rho_pp, kappa) == Some(Some(sig)));
            },
        }
    }
}

/// A coefficient's centred size is at most the row maximum.
proof fn lemma_max_centered_abs_ge(s: Seq<i32>, q: int, n: int, i: int)
    requires
        0 <= i < n,
    ensures
        centered_abs(s[i] as int, q) <= max_centered_abs(s, q, n),
    decreases n,
{
    if i < n - 1 {
        lemma_max_centered_abs_ge(s, q, n - 1, i);
    }
}

/// A coefficient's centred size is at most the vector norm.
proof fn lemma_seq_norm_ge(v: Seq<Seq<i32>>, q: int, n: int, t: int, i: int)
    requires
        0 <= t < n,
        0 <= i < N,
    ensures
        centered_abs(v[t][i] as int, q) <= seq_norm(v, q, n),
    decreases n,
{
    if t < n - 1 {
        lemma_seq_norm_ge(v, q, n - 1, t, i);
    } else {
        lemma_max_centered_abs_ge(v[t], q, N as int, i);
    }
}

/// The centred representative has the same centred size, and that size is its absolute value.
proof fn lemma_centered_size(x: int, q: int)
    requires
        q > 0,
    ensures
        centered_abs(centered_spec(x, q), q) == centered_abs(x, q),
        centered_spec(x, q) >= 0 ==> centered_spec(x, q) == centered_abs(x, q),
        centered_spec(x, q) < 0 ==> -centered_spec(x, q) == centered_abs(x, q),
{
    crate::dilithium::lemma_centered_range_pub(x, q);
    vstd::arithmetic::div_mod::lemma_mod_bound(x, q);
    vstd::arithmetic::div_mod::lemma_mod_bound(centered_spec(x, q), q);
}

/// Centring each coefficient leaves a row's maximum unchanged.
proof fn lemma_max_centered_abs_cent(s: Seq<i32>, q: int, n: int)
    requires
        2 <= q < 0x4000_0000,
        n <= N,
    ensures
        max_centered_abs(Seq::new(N as nat, |i: int| centered_spec(s[i] as int, q) as i32), q, n) == max_centered_abs(s, q, n),
    decreases n,
{
    if n > 0 {
        lemma_max_centered_abs_cent(s, q, n - 1);
        let x = s[n - 1] as int;
        crate::dilithium::lemma_centered_range_pub(x, q);
        lemma_centered_size(x, q);
        assert((centered_spec(x, q) as i32) as int == centered_spec(x, q));
    }
}

/// Centring leaves the vector norm unchanged.
proof fn lemma_seq_norm_vcent(v: Seq<Seq<i32>>, q: int, n: int)
    requires
        2 <= q < 0x4000_0000,
        n <= v.len(),
    ensures
        seq_norm(vcent(v, q), q, n) == seq_norm(v, q, n),
    decreases n,
{
    if n > 0 {
        lemma_seq_norm_vcent(v, q, n - 1);
        lemma_max_centered_abs_cent(v[n - 1], q, N as int);
        assert(vcent(v, q)[n - 1] == Seq::new(N as nat, |i: int| centered_spec(v[n - 1][i] as int, q) as i32));
    }
}


/// The centred size of `-v` is that of `v`.
proof fn lemma_centered_abs_neg(v: int, q: int)
    requires
        q > 0,
    ensures
        centered_abs((0 - v) % q, q) == centered_abs(v, q),
{
    let r = v % q;
    vstd::arithmetic::div_mod::lemma_mod_bound(v, q);
    vstd::arithmetic::div_mod::lemma_sub_mod_noop(0, v, q);
    vstd::arithmetic::div_mod::lemma_small_mod(0, q as nat);
    assert((0 - v) % q == (0 - r) % q);
    if r == 0 {
        vstd::arithmetic::div_mod::lemma_small_mod(0, q as nat);
    } else {
        vstd::arithmetic::div_mod::lemma_mod_add_multiples_vanish(0 - r, q);
        vstd::arithmetic::div_mod::lemma_small_mod((q - r) as nat, q as nat);
    }
    vstd::arithmetic::div_mod::lemma_mod_bound(0 - v, q);
    vstd::arithmetic::div_mod::lemma_mod_twice(0 - v, q);
}

/// A value within `(-q/2, q/2)` has its absolute value as centred size.
proof fn lemma_small_centered_abs(x: int, q: int)
    requires
        q > 0,
        -q < 2 * x < q,
    ensures
        x >= 0 ==> centered_abs(x, q) == x,
        x < 0 ==> centered_abs(x, q) == -x,
{
    if x >= 0 {
        vstd::arithmetic::div_mod::lemma_small_mod(x as nat, q as nat);
    } else {
        vstd::arithmetic::div_mod::lemma_mod_add_multiples_vanish(x, q);
        vstd::arithmetic::div_mod::lemma_small_mod((x + q) as nat, q as nat);
    }
}

/// One coefficient of the hint round trip. Signing hints `h = MakeHint(-v, r)` for
/// `r = (w - u) + v` and verification recomputes `UseHint(h, r)`: that is `HighBits(w)` when the
/// centred sizes of `u` and `v` stay within `beta` and `gamma2` and the low bits of `w - u`
/// within `gamma2 - beta`.
proof fn lemma_hint_coeff(w: int, u: int, v: int, g2: int, beta: int, q: int)
    requires
        rounding_params_ok(g2, q),
        (q - 1) % (2 * g2) == 0,
        0 <= beta < g2,
        centered_abs(u, q) <= beta,
        centered_abs(decompose_spec((w - u) % q, g2, q).1, q) < g2 - beta,
        centered_abs(v, q) < g2,
    ensures
        ({
            let wc = (w - u) % q;
            let rr = (wc + v) % q;
            let nz = (0 - v) % q;
            use_hint_spec(decompose_spec(rr, g2, q).0 != decompose_spec(rr + nz, g2, q).0, rr, g2, q) == decompose_spec(w, g2, q).0
        }),
{
    let wc = (w - u) % q;
    let rr = (wc + v) % q;
    let nz = (0 - v) % q;
    // the hint undoes `-v`
    lemma_centered_abs_neg(v, q);
    lemma_centered_size(nz, q);
    let z = centered_spec(nz, q);
    lemma_use_hint_recovers(z, rr, g2, q);
    crate::dilithium::lemma_centered_range_pub(nz, q);
    vstd::arithmetic::div_mod::lemma_mod_twice(0 - v, q);
    lemma_cong_add(rr, rr, z, nz, q);
    assert(decompose_spec(rr + z, g2, q) == decompose_spec(rr + nz, g2, q));
    // `r - v` is `w - u`
    vstd::arithmetic::div_mod::lemma_mod_twice(wc + v, q);
    lemma_cong_add(rr, wc + v, nz, 0 - v, q);
    vstd::arithmetic::div_mod::lemma_mod_twice(w - u, q);
    assert(decompose_spec(rr + nz, g2, q) == decompose_spec(wc, g2, q));
    // adding `u` back leaves the high bits of `w - u`
    let d1 = decompose_spec(wc, g2, q).1;
    lemma_decompose_reconstructs(wc, g2, q);
    lemma_small_centered_abs(d1, q);
    lemma_centered_size(u, q);
    let s = centered_spec(u, q);
    lemma_high_bits_stable(wc, s, g2, beta, q);
    crate::dilithium::lemma_centered_range_pub(u, q);
    lemma_cong_add(wc, w - u, s, u, q);
    assert(decompose_spec(wc + s, g2, q) == decompose_spec(w, g2, q));
}


/// `2 gamma2` divides `q - 1 > 0`, so it is at most `q - 1`.
proof fn lemma_rounding_ok(p: GenericDsaParams)
    requires
        dsa_ready(p),
    ensures
        rounding_params_ok(p.gamma2 as int, p.q as int),
        0 <= p.tau * p.eta < p.gamma2,
{
    let g = 2 * p.gamma2 as int;
    let m = p.q - 1;
    vstd::arithmetic::div_mod::lemma_fundamental_div_mod(m as int, g);
    let d = (m as int) / g;
    assert(m == g * d);
    assert(g <= m) by (nonlinear_arith)
        requires
            m == g * d,
            g > 0,
            m > 0,
    ;
    assert(p.tau * p.eta >= 0) by (nonlinear_arith)
        requires
            p.tau >= 1,
            p.eta >= 1,
    ;
}

/// The hint round trip over vectors: with `r = (w - c s2) + c t0`, signing's hint
/// `MakeHint(-c t0, r)` makes UseHint on `r` give back `HighBits(w)`, when `c s2`, the low
/// bits of `w - c s2` and `c t0` pass signing's bounds.
proof fn lemma_hint_rows(p: GenericDsaParams, w: Seq<Seq<i32>>, cs2: Seq<Seq<i32>>, ct0: Seq<Seq<i32>>)
    requires
        dsa_ready(p),
        w.len() == p.k,
        cs2.len() == p.k,
        ct0.len() == p.k,
        seq_norm(cs2, p.q as int, p.k as int) <= p.tau * p.eta,
        seq_norm(vlow(vsub(w, cs2, p.q as int), p.gamma2 as int, p.q as int), p.q as int, p.k as int) < p.gamma2 - p.tau * p.eta,
        seq_norm(ct0, p.q as int, p.k as int) < p.gamma2,
    ensures
        ({
            let q = p.q as int;
            let g2 = p.gamma2 as int;
            let rr = vadd(vsub(w, cs2, q), ct0, q);
            vusehint(vmakehint(vneg(ct0, q), rr, g2, q), rr, g2, q) == vhigh(w, g2, q)
        }),
{
    let q = p.q as int;
    let g2 = p.gamma2 as int;
    let k = p.k as int;
    let beta = p.tau * p.eta;
    let wcs2 = vsub(w, cs2, q);
    let rr = vadd(wcs2, ct0, q);
    let nz = vneg(ct0, q);
    let h = vmakehint(nz, rr, g2, q);
    let lhs = vusehint(h, rr, g2, q);
    let rhs = vhigh(w, g2, q);
    lemma_rounding_ok(p);
    assert forall|t: int| 0 <= t < k implies #[trigger] lhs[t] == rhs[t] by {
        assert forall|i: int| 0 <= i < N implies #[trigger] lhs[t][i] == rhs[t][i] by {
            let wi = w[t][i] as int;
            let ui = cs2[t][i] as int;
            let vi = ct0[t][i] as int;
            lemma_seq_norm_ge(cs2, q, k, t, i);
            lemma_seq_norm_ge(ct0, q, k, t, i);
            lemma_seq_norm_ge(vlow(wcs2, g2, q), q, k, t, i);
            vstd::arithmetic::div_mod::lemma_mod_bound(wi - ui, q);
            assert(wcs2[t][i] as int == (wi - ui) % q);
            lemma_decompose_reconstructs((wi - ui) % q, g2, q);
            vstd::arithmetic::div_mod::lemma_mod_bound(((wi - ui) % q) + vi, q);
            vstd::arithmetic::div_mod::lemma_mod_bound(0 - vi, q);
            assert(rr[t][i] as int == (((wi - ui) % q) + vi) % q);
            assert(nz[t][i] as int == (0 - vi) % q);
            lemma_hint_coeff(wi, ui, vi, g2, beta, q);
        }
        assert(lhs[t] =~= rhs[t]);
    }
    assert(lhs =~= rhs);
}


/// The public `t = A s1 + s2` of a key with matrix seed `rho`.
pub open spec fn key_t(p: GenericDsaParams, rho: Seq<u8>, s1: Seq<Seq<i32>>, s2: Seq<Seq<i32>>) -> Seq<Seq<i32>> {
    let q = p.q as int;
    vadd(mat_vec(a_mat(rho, p.k as int, p.l as int, q), s1, q), s2, q)
}

/// Every challenge polynomial's product with `s2` has centred coefficients of at most
/// `beta = tau * eta`.
pub open spec fn small_products(p: GenericDsaParams, s2: Seq<Seq<i32>>) -> bool {
    forall|ct: Seq<u8>|
        (#[trigger] challenge(ct, p)) matches Some(c) ==> seq_norm(scal(c, s2, p.q as int), p.q as int, p.k as int) <= p.tau * p.eta
}

/// Signing then verifying succeeds: for a key with `s2` coefficients in `[-eta, eta]`,
/// `t = A s1 + s2`, `(t1, t0) = Power2Round(t)` and `tr = H(pkEncode(rho, t1), 512)`, a
/// signature that signing returns for a message passes verification of that message under
/// `(rho, t1)`.
pub proof fn lemma_sign_then_verify(
    p: GenericDsaParams,
    rho: Seq<u8>,
    cap_k: Seq<u8>,
    s1: Seq<Seq<i32>>,
    s2: Seq<Seq<i32>>,
    msg: Seq<u8>,
    rnd: Seq<u8>,
    sig: Signature,
)
    requires
        dsa_ready(p),
        s1.len() == p.l,
        s2.len() == p.k,
        forall|j: int| 0 <= j < p.l ==> (#[trigger] s1[j]).len() == N,
        forall|j: int| 0 <= j < p.k ==> (#[trigger] s2[j]).len() == N,
        forall|j: int, i: int| 0 <= j < p.k && 0 <= i < N ==> -(p.eta as int) <= #[trigger] s2[j][i] <= p.eta,
        sig_shape_ok(sig, p),
        ({
            let t = key_t(p, rho, s1, s2);
            let t1 = vp2r1(t, p.q as int);
            let tr = shake256_output(pk_bytes_spec(rho, t1, p), 64);
            signed_as(Ok(sig), sign_result(p, rho, cap_k, tr, s1, s2, vp2r0(t, p.q as int), msg, rnd))
        }),
    ensures
        verify_result(p, rho, vp2r1(key_t(p, rho, s1, s2), p.q as int), msg, sig.c_tilde@, coeff_rows(sig.z@), hint_rows(sig.h@))
            == Ok::<bool, PqcError>(true),
{
    let q = p.q as int;
    let k = p.k as int;
    let l = p.l as int;
    let g2 = p.gamma2 as int;
    let beta = p.tau * p.eta;
    lemma_small_products(p, s2);
    let a = a_mat(rho, k, l, q);
    let t = key_t(p, rho, s1, s2);
    let t1 = vp2r1(t, q);
    let t0 = vp2r0(t, q);
    let tr = shake256_output(pk_bytes_spec(rho, t1, p), 64);
    let res = (sig.c_tilde@, coeff_rows(sig.z@), hint_rows(sig.h@));
    // the accepted attempt
    assert(sign_result(p, rho, cap_k, tr, s1, s2, t0, msg, rnd) == Ok::<(Seq<u8>, Seq<Seq<i32>>, Seq<Seq<bool>>), PqcError>(res));
    assert(a_ok(rho, k, l, q));
    let mu = sign_mu(tr, msg);
    let rpp = sign_rho_pp(cap_k, rnd, mu);
    lemma_sign_run_found(p, a, s1, s2, t0, mu, rpp, 0, 0, res);
    let kappa = choose|k2: u16| #[trigger] attempt(p, a, s1, s2, t0, mu, rpp, k2) == Some(Some(res));
    reveal(attempt);
    assert(mask_ok(rpp, kappa, p));
    let y = mask_vec(rpp, kappa, p);
    let ct = attempt_c_tilde(p, a, mu, y);
    assert(challenge(ct, p) is Some);
    let c = challenge(ct, p)->Some_0;
    let w = mat_vec(a, y, q);
    assert(attempt_tail(p, s1, s2, t0, y, w, ct, c) == Some(res));
    // shapes
    lemma_a_mat_shape(rho, k, l, q);
    assert forall|j: int| 0 <= j < l implies (#[trigger] y[j]).len() == N by {
        assert(mask_poly_spec(rpp, kappa, j, p) is Some);
        lemma_mask_run_shape(seed_nonce(rpp, mask_nonce(kappa, j)), bit_length((2 * p.gamma1 - 1) as nat), p.gamma1 as int, 0, N as nat);
    }
    lemma_challenge_run_len(ct, p.tau as int, (N - p.tau) as nat, 8, Seq::new(N as nat, |i: int| 0i32));
    assert(sign_shapes(q, a, y, s1, s2, c, k, l));
    // what signing checked
    let zz = vadd(y, scal(c, s1, q), q);
    let cs2 = scal(c, s2, q);
    let wcs2 = vsub(w, cs2, q);
    let ct0 = scal(c, t0, q);
    let rr = vadd(wcs2, ct0, q);
    let h = vmakehint(vneg(ct0, q), rr, g2, q);
    assert(res == (ct, vcent(zz, q), h));
    assert(seq_norm(zz, q, l) < p.gamma1 - beta);
    lemma_seq_norm_vcent(zz, q, l);
    assert(hcount(h, k) <= p.omega);
    // verification recomputes `r`, and the hint gives back `HighBits(A y)`
    let zs = vcent(zz, q);
    let wp = vsub(mat_vec(a, zs, q), scal(c, shift_t1(t1), q), q);
    assert forall|r: int| 0 <= r < k implies #[trigger] wp[r] == rr[r] by {
        lemma_verify_w_row(q, a, y, s1, s2, c, k, l, r);
    }
    assert(wp =~= rr);
    assert(seq_norm(cs2, q, k) <= beta);
    lemma_hint_rows(p, w, cs2, ct0);
    assert(vusehint(h, wp, g2, q) == vhigh(w, g2, q));
}


/// The degree-256 table of a usable modulus squares as the evaluation blocks need.
proof fn lemma_dsa_squares(q: int)
    requires
        dsa_modulus_ok(q),
    ensures
        squares_ok(dsa_zetas(q), 8, q),
{
    lemma_smallest_root_exists(q, q);
    let zeta = dsa_root(q);
    assert(2 <= zeta < q && is_negacyclic_root(zeta, q, N as int) && no_root_under(q, zeta));
    vstd::arithmetic::power2::lemma2_to64();
    assert(pow2(8) == 256);
    let zs = dsa_zetas(q);
    assert forall|i: int| 0 <= i < pow2(8) implies #[trigger] zs[i] == pow(zeta, bit_rev(i as nat, 8)) % q by {
        vstd::arithmetic::div_mod::lemma_mod_bound(pow(zeta, bit_rev(i as nat, 8)), q);
    }
    lemma_root_table_squares(zs, zeta, q, 8);
}

/// The transform's ring product is the schoolbook negacyclic product, reduced mod q.
pub proof fn lemma_dmul_is_nci(q: int, a: Seq<int>, b: Seq<int>)
    requires
        dsa_modulus_ok(q),
        a.len() == N,
        b.len() == N,
    ensures
        forall|i: int| 0 <= i < N ==> #[trigger] dmul(q, a, b)[i] == nci(a, b)[i] % q,
{
    lemma_dsa_ring_table(q);
    lemma_dsa_squares(q);
    vstd::arithmetic::power2::lemma2_to64();
    let zs = dsa_zetas(q);
    let zi = dsa_zetas_inv(q);
    let ni = spec_n_inv(N as int, q);
    let c = nci(a, b);
    let r = dmul(q, a, b);
    lemma_rmul_reduced(a, b, zs, zi, ni, q, 8);
    lemma_ntt_of_rmul(a, b, zs, zi, ni, q, 8);
    lemma_ntt_evaluates(a, zs, q, 8);
    lemma_ntt_evaluates(b, zs, q, 8);
    lemma_ntt_evaluates(c, zs, q, 8);
    lemma_ntt_reduced(c, zs, q, 8);
    lemma_ntt_reduced(r, zs, q, 8);
    let nc = ntt_spec(c, zs, q);
    let nr = ntt_spec(r, zs, q);
    assert forall|i: int| 0 <= i < N implies #[trigger] nc[i] % q == nr[i] % q by {
        let pt = cst(zs, 8, -1, i);
        vstd::arithmetic::power::lemma_pow1(pt);
        lemma_point_root(zs, 8, q, -1, i, pt);
        lemma_peval_nci(a, b, pt, q);
        let pa = peval(a, 0, 256, pt);
        let pb = peval(b, 0, 256, pt);
        let na = ntt_spec(a, zs, q)[i];
        let nb = ntt_spec(b, zs, q)[i];
        lemma_cong_mul(pa, na, pb, nb, q);
        vstd::arithmetic::div_mod::lemma_mod_twice(na * nb, q);
    }
    assert(eqm(nc, nr, q));
    lemma_inv_ntt_cong(nc, nr, zi, ni, q, 8);
    crate::ntt_laws::lemma_inv_ntt_of_ntt(c, zs, zi, ni, q, 8);
    crate::ntt_laws::lemma_inv_ntt_of_ntt(r, zs, zi, ni, q, 8);
    assert forall|i: int| 0 <= i < N implies #[trigger] dmul(q, a, b)[i] == nci(a, b)[i] % q by {
        let f = 256 * ni;
        assert(f % q == 1);
        vstd::arithmetic::div_mod::lemma_mul_mod_noop_right(c[i], f, q);
        vstd::arithmetic::div_mod::lemma_mul_mod_noop_right(r[i], f, q);
        assert(c[i] * 256 * ni == c[i] * f) by (nonlinear_arith)
            requires
                f == 256 * ni,
        ;
        assert(r[i] * 256 * ni == r[i] * f) by (nonlinear_arith)
            requires
                f == 256 * ni,
        ;
        vstd::arithmetic::div_mod::lemma_small_mod(r[i] as nat, q as nat);
    }
}


/// `|v|`.
pub open spec fn iabs(v: int) -> int {
    if v < 0 {
        -v
    } else {
        v
    }
}

/// The sum of the absolute values of the `N` coefficients.
pub open spec fn l1(c: Seq<i32>) -> int {
    isum(|j: int| iabs(c[j] as int), N as int)
}

/// Changing one term of a sum changes the sum by the difference.
proof fn lemma_isum_point(f: spec_fn(int) -> int, g: spec_fn(int) -> int, p: int, m: int)
    requires
        forall|i: int| 0 <= i < m && i != p ==> #[trigger] f(i) == g(i),
    ensures
        isum(g, m) == isum(f, m) + (if 0 <= p < m {
            g(p) - f(p)
        } else {
            0
        }),
    decreases m,
{
    if m > 0 {
        lemma_isum_point(f, g, p, m - 1);
    }
}

/// Updating one coefficient changes the absolute sum by the change in that coefficient's size.
proof fn lemma_l1_update(c: Seq<i32>, p: int, v: i32)
    requires
        c.len() == N,
        0 <= p < N,
    ensures
        l1(c.update(p, v)) == l1(c) - iabs(c[p] as int) + iabs(v as int),
{
    let f = |j: int| iabs(c[j] as int);
    let c2 = c.update(p, v);
    let g = |j: int| iabs(c2[j] as int);
    assert forall|i: int| 0 <= i < N && i != p implies #[trigger] f(i) == g(i) by {
        assert(c2[i] == c[i]);
    }
    lemma_isum_point(f, g, p, N as int);
}

/// A sum bounded termwise in size is bounded by the sum of the bounds.
proof fn lemma_isum_abs_bound(f: spec_fn(int) -> int, g: spec_fn(int) -> int, m: int)
    requires
        forall|j: int| 0 <= j < m ==> -#[trigger] g(j) <= f(j) <= g(j),
    ensures
        -isum(g, m) <= isum(f, m) <= isum(g, m),
    decreases m,
{
    if m > 0 {
        lemma_isum_abs_bound(f, g, m - 1);
    }
}

/// SampleInBall's coefficients lie in `{-1, 0, 1}`, with at most `tau` of them nonzero.
proof fn lemma_challenge_shape(input: Seq<u8>, tau: int, i: nat, pos: nat, c: Seq<i32>)
    requires
        c.len() == N,
        0 <= tau <= N,
        N - tau <= i <= N,
        forall|m: int| 0 <= m < N ==> -1 <= #[trigger] c[m] <= 1,
        forall|m: int| i <= m < N ==> #[trigger] c[m] == 0,
        l1(c) <= i - (N - tau),
    ensures
        challenge_run(input, tau, i, pos, c) matches Some(s) ==> s.len() == N && l1(s) <= tau && forall|m: int|
            0 <= m < N ==> -1 <= #[trigger] s[m] <= 1,
    decreases N - i,
{
    if i < N {
        lemma_first_small(input, i as int, pos);
        if let Some(p) = first_small(input, i as int, pos) {
            let j = xof_byte(XofKind::Shake256, input, p as int) as int;
            let sign: i32 = if xof_bit(XofKind::Shake256, input, i - (N - tau)) {
                -1i32
            } else {
                1i32
            };
            let c1 = c.update(i as int, c[j]);
            let c2 = c1.update(j, sign);
            lemma_l1_update(c, i as int, c[j]);
            lemma_l1_update(c1, j, sign);
            assert(c[i as int] == 0);
            if j == i {
                assert(c1[j] == c[j]);
            } else {
                assert(c1[j] == c[j]);
            }
            assert forall|m: int| 0 <= m < N implies -1 <= #[trigger] c2[m] <= 1 by {}
            assert forall|m: int| i + 1 <= m < N implies #[trigger] c2[m] == 0 by {}
            lemma_challenge_shape(input, tau, i + 1, p + 1, c2);
        }
    } else {
        assert(l1(c) <= tau);
    }
}

/// A negacyclic product with a polynomial of coefficients in `{-1, 0, 1}` has coefficients no
/// larger than `eta` times its absolute sum, for `v` with coefficients in `[-eta, eta]`.
proof fn lemma_nci_bound(c: Seq<i32>, v: Seq<i32>, eta: int, i: int)
    requires
        c.len() == N,
        v.len() == N,
        0 <= i < N,
        eta >= 0,
        forall|m: int| 0 <= m < N ==> -1 <= #[trigger] c[m] <= 1,
        forall|m: int| 0 <= m < N ==> -eta <= #[trigger] v[m] <= eta,
    ensures
        iabs(nci(ints32(c), ints32(v))[i]) <= eta * l1(c),
{
    let ci = ints32(c);
    let vi = ints32(v);
    let f = |j: int| ci[j] * rot(vi, j)[i];
    let g = |j: int| eta * iabs(c[j] as int);
    assert forall|j: int| 0 <= j < N implies -#[trigger] g(j) <= f(j) <= g(j) by {
        let r = rot(vi, j)[i];
        assert(-eta <= r <= eta);
        let x = c[j] as int;
        assert(-(eta * iabs(x)) <= x * r <= eta * iabs(x)) by (nonlinear_arith)
            requires
                -1 <= x <= 1,
                -eta <= r <= eta,
        ;
    }
    lemma_isum_abs_bound(f, g, N as int);
    let fa = |j: int| iabs(c[j] as int);
    lemma_isum_scale(fa, eta, N as int);
    lemma_isum_ext(|j: int| eta * fa(j), g, N as int);
    assert(l1(c) == isum(fa, N as int));
    lemma_isum_ext(|j: int| ci[j] * rot(vi, j)[i], f, N as int);
    assert(nci(ci, vi)[i] == isum(f, N as int));
}

/// The centred size of `x` is at most `|x|`, and that of `x mod q` is that of `x`.
proof fn lemma_centered_abs_le(x: int, q: int)
    requires
        q > 0,
    ensures
        centered_abs(x, q) <= iabs(x),
        centered_abs(x % q, q) == centered_abs(x, q),
{
    vstd::arithmetic::div_mod::lemma_fundamental_div_mod(x, q);
    vstd::arithmetic::div_mod::lemma_mod_bound(x, q);
    vstd::arithmetic::div_mod::lemma_mod_twice(x, q);
    let d = x / q;
    let r = x % q;
    if x >= 0 {
        assert(d >= 0) by (nonlinear_arith)
            requires
                x == q * d + r,
                0 <= r < q,
                x >= 0,
        ;
        assert(r <= x) by (nonlinear_arith)
            requires
                x == q * d + r,
                d >= 0,
                q > 0,
        ;
    } else {
        assert(d <= -1) by (nonlinear_arith)
            requires
                x == q * d + r,
                0 <= r < q,
                x < 0,
        ;
        assert(q - r <= -x) by (nonlinear_arith)
            requires
                x == q * d + r,
                d <= -1,
                q > 0,
        ;
    }
}

/// A vector whose coefficients all have centred size at most `b` has norm at most `b`.
proof fn lemma_seq_norm_le(v: Seq<Seq<i32>>, q: int, n: int, b: int)
    requires
        b >= 0,
        forall|t: int, i: int| 0 <= t < n && 0 <= i < N ==> centered_abs(#[trigger] v[t][i] as int, q) <= b,
    ensures
        seq_norm(v, q, n) <= b,
    decreases n,
{
    if n > 0 {
        lemma_seq_norm_le(v, q, n - 1, b);
        lemma_max_centered_abs_le(v[n - 1], q, N as int, b);
    }
}

proof fn lemma_max_centered_abs_le(s: Seq<i32>, q: int, n: int, b: int)
    requires
        b >= 0,
        n <= N,
        forall|i: int| 0 <= i < n ==> centered_abs(#[trigger] s[i] as int, q) <= b,
    ensures
        max_centered_abs(s, q, n) <= b,
    decreases n,
{
    if n > 0 {
        lemma_max_centered_abs_le(s, q, n - 1, b);
    }
}

/// Every challenge polynomial's product with an `s2` of coefficients in `[-eta, eta]` stays
/// within `beta = tau * eta`.
pub proof fn lemma_small_products(p: GenericDsaParams, s2: Seq<Seq<i32>>)
    requires
        dsa_ready(p),
        s2.len() == p.k,
        forall|j: int| 0 <= j < p.k ==> (#[trigger] s2[j]).len() == N,
        forall|j: int, i: int| 0 <= j < p.k && 0 <= i < N ==> -(p.eta as int) <= #[trigger] s2[j][i] <= p.eta,
    ensures
        small_products(p, s2),
{
    let q = p.q as int;
    let eta = p.eta as int;
    let tau = p.tau as int;
    assert forall|ct: Seq<u8>| (#[trigger] challenge(ct, p)) is Some implies seq_norm(scal(challenge(ct, p)->Some_0, s2, q), q, p.k as int)
        <= p.tau * p.eta by {
        let c = challenge(ct, p)->Some_0;
        let z0 = Seq::new(N as nat, |k: int| 0i32);
        assert(l1(z0) == 0) by {
            lemma_isum_ext(|j: int| iabs(z0[j] as int), |j: int| 0, N as int);
            lemma_isum_zero_pub(N as int);
        }
        lemma_challenge_shape(ct, tau, (N - tau) as nat, 8, z0);
        lemma_dsa_ring_table(q);
        let v = scal(c, s2, q);
        assert(eta * l1(c) <= tau * eta) by (nonlinear_arith)
            requires
                l1(c) <= tau,
                eta >= 0,
        ;
        assert forall|t: int, i: int| 0 <= t < p.k && 0 <= i < N implies centered_abs(#[trigger] v[t][i] as int, q) <= tau * eta by {
            lemma_dmul_is_nci(q, ints32(c), ints32(s2[t]));
            lemma_nci_bound(c, s2[t], eta, i);
            let x = nci(ints32(c), ints32(s2[t]))[i];
            lemma_centered_abs_le(x, q);
            vstd::arithmetic::div_mod::lemma_mod_bound(x, q);
            let d = dmul(q, ints32(c), ints32(s2[t]));
            assert(ring_mul256(ints32(c), ints32(s2[t]), q) == d);
            assert(v[t] == pmul(c, s2[t], q));
            assert(v[t][i] == d[i] as i32);
            assert(d[i] == x % q);
            assert(v[t][i] as int == x % q);
        }
        assert(tau * eta >= 0) by (nonlinear_arith)
            requires
                tau >= 0,
                eta >= 0,
        ;
        lemma_seq_norm_le(v, q, p.k as int, tau * eta);
    }
}

proof fn lemma_isum_zero_pub(m: int)
    ensures
        isum(|j: int| 0, m) == 0,
    decreases m,
{
    if m > 0 {
        lemma_isum_zero_pub(m - 1);
    }
}

} // verus!
