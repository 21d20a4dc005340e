//! The custom KEM's round trip: decryption recovers the message whenever the noise that
//! encryption leaves on top of it (centred mod q) stays below a quarter of q.
use crate::custom_kem_ntt::{
    first_root_base, ints32, is_negacyclic_root, log2_of, no_root_below, ring_mul, root_candidate, spec_n_inv,
    spec_zetas, spec_zetas_inv, ROOT_SEARCH_LIMIT,
};
use crate::custom_kem_params::GenericCustomKemParams;
use crate::custom_kem_pke::{
    compress_rows, compress_seq, decrypt_u, decrypt_v, lemma_widths, add_mod, derived_seed, dot_rows, encrypt_ok, encrypt_u, encrypt_v, keygen_ok, keygen_t, kem_params_ok, lemma_noise_bound,
    matrix_col, matrix_entry, matrix_ok, matrix_row, min_len, msg_poly, mul_ring, noise, noise_vec, sub_mod,
};
use crate::dsa_sample::{seed_two, uniform_run};
use crate::encode::{
    bytes_for_bits, coeff_stream_bit, decoded_field, stream_bit, stream_value, word_bit, bit_length, compress_spec, decode_fields, decompress_spec, fits_bits, is_packing_of, lemma_byte_encode_decode_roundtrip,
};
use crate::dsa_params::is_prime_spec;
use crate::custom_kem_ntt::ntt_spec;
use crate::ntt_eval::{cst, gnci, lemma_gpeval_nci, lemma_ntt_evaluates, lemma_point_root, lemma_root_table_squares, peval, squares_ok};
use crate::ntt_laws::{lemma_degree_below_modulus, lemma_root_tables_pair};
use crate::prime_field::lemma_fermat_inverse;
use crate::ring_laws::{
    lemma_cong_add, lemma_cong_mul, lemma_cong_sub, lemma_inv_ntt_cong, lemma_ntt_of_rmul, lemma_ntt_reduced, eqm, lemma_eqm_sym, lemma_eqm_trans, lemma_lin_cong, lemma_rmul_assoc, lemma_rmul_comm, lemma_rmul_cong, lemma_rmul_lin,
    lemma_rmul_reduced, lemma_rmul_ssum, lemma_ssum_add, lemma_ssum_cong, lemma_ssum_ext, lemma_ssum_len, lemma_ssum_swap, lin,
    reduced, ring_table_ok, rmul, ssum, vzero,
};
use vstd::arithmetic::power::pow;
use vstd::arithmetic::power2::pow2;
use vstd::prelude::*;

verus! {

/// Some base below `h` yields a root, so a first one does.
proof fn lemma_first_root(q: int, n: int, h: int)
    requires
        !no_root_below(q, n, h),
    ensures
        exists|h0: int| 2 <= h0 < h && is_negacyclic_root(root_candidate(h0, q, n), q, n) && no_root_below(q, n, h0),
    decreases h,
{
    if no_root_below(q, n, h - 1) {
        let g = choose|g: int| 2 <= g < h && is_negacyclic_root(root_candidate(g, q, n), q, n);
        assert(g == h - 1);
        assert(2 <= h - 1 < h && is_negacyclic_root(root_candidate(h - 1, q, n), q, n) && no_root_below(q, n, h - 1));
    } else {
        lemma_first_root(q, n, h - 1);
        let h0 = choose|h0: int|
            2 <= h0 < h - 1 && is_negacyclic_root(root_candidate(h0, q, n), q, n) && no_root_below(q, n, h0);
        assert(2 <= h0 < h && is_negacyclic_root(root_candidate(h0, q, n), q, n) && no_root_below(q, n, h0));
    }
}

/// The exponent of the degree.
pub open spec fn kem_log_n(p: GenericCustomKemParams) -> nat {
    log2_of(p.n as int)
}

/// For a usable parameter set the spec tables of `(n, q)` satisfy what the ring laws need.
pub proof fn lemma_kem_ring_table(p: GenericCustomKemParams)
    requires
        kem_params_ok(p),
    ensures
        ring_table_ok(
            spec_zetas(p.n as int, p.q as int),
            spec_zetas_inv(p.n as int, p.q as int),
            spec_n_inv(p.n as int, p.q as int),
            p.q as int,
            kem_log_n(p),
        ),
        pow2(kem_log_n(p)) == p.n,
        forall|a: Seq<int>, b: Seq<int>|
            #[trigger] ring_mul(a, b, p.n as int, p.q as int) == rmul(
                a,
                b,
                spec_zetas(p.n as int, p.q as int),
                spec_zetas_inv(p.n as int, p.q as int),
                spec_n_inv(p.n as int, p.q as int),
                p.q as int,
            ),
{
    let n = p.n as int;
    let q = p.q as int;
    assert(vstd::arithmetic::power2::is_pow2(n));
    vstd::arithmetic::power2::is_pow2_equiv(n);
    let i0 = choose|i: nat| pow(2, i) == n;
    vstd::arithmetic::power2::lemma_pow2(i0);
    assert(pow2(i0) == n);
    let k = log2_of(n);
    assert(pow2(k) == n);
    if k == 0 {
        vstd::arithmetic::power2::lemma2_to64();
        assert(false);
    }
    lemma_first_root(q, n, ROOT_SEARCH_LIMIT as int);
    let h = first_root_base(q, n);
    assert(2 <= h < ROOT_SEARCH_LIMIT && is_negacyclic_root(root_candidate(h, q, n), q, n) && no_root_below(q, n, h));
    let zeta = root_candidate(h, q, n);
    let zs = spec_zetas(n, q);
    let zi = spec_zetas_inv(n, q);
    assert forall|i: int| 0 <= i < pow2(k) implies #[trigger] zs[i] == pow(zeta, crate::custom_kem_ntt::bit_rev(i as nat, k)) % q by {
        let v = pow(zeta, crate::custom_kem_ntt::bit_rev(i as nat, k)) % q;
        vstd::arithmetic::div_mod::lemma_mod_bound(pow(zeta, crate::custom_kem_ntt::bit_rev(i as nat, k)), q);
        assert(0 <= v < q);
    }
    assert forall|i: int| 0 <= i < pow2(k) implies #[trigger] zi[i] == (q - zs[i]) % q by {
        assert(0 <= zs[i] < q);
        vstd::arithmetic::div_mod::lemma_mod_bound(q - zs[i], q);
    }
    lemma_root_tables_pair(zs, zi, zeta, q, k);
    lemma_degree_below_modulus(n, q);
    lemma_fermat_inverse(q, n);
    vstd::arithmetic::div_mod::lemma_mul_mod_noop_right(n, pow(n, (q - 2) as nat), q);
}

/// The ring product of the parameter set's tables.
pub open spec fn rm(p: GenericCustomKemParams, a: Seq<int>, b: Seq<int>) -> Seq<int> {
    rmul(
        a,
        b,
        spec_zetas(p.n as int, p.q as int),
        spec_zetas_inv(p.n as int, p.q as int),
        spec_n_inv(p.n as int, p.q as int),
        p.q as int,
    )
}

/// The product of two `n`-coefficient polynomials as the library computes it.
proof fn lemma_mul_ring_view(p: GenericCustomKemParams, a: Seq<i32>, b: Seq<i32>)
    requires
        kem_params_ok(p),
        a.len() == p.n,
        b.len() == p.n,
    ensures
        ints32(mul_ring(a, b, p.n as int, p.q as int)) == rm(p, ints32(a), ints32(b)),
        reduced(rm(p, ints32(a), ints32(b)), p.q as int),
        rm(p, ints32(a), ints32(b)).len() == p.n,
{
    lemma_kem_ring_table(p);
    let k = kem_log_n(p);
    lemma_rmul_reduced(
        ints32(a),
        ints32(b),
        spec_zetas(p.n as int, p.q as int),
        spec_zetas_inv(p.n as int, p.q as int),
        spec_n_inv(p.n as int, p.q as int),
        p.q as int,
        k,
    );
    let r = rm(p, ints32(a), ints32(b));
    assert(ring_mul(ints32(a), ints32(b), p.n as int, p.q as int) == r);
    assert(ints32(mul_ring(a, b, p.n as int, p.q as int)) =~= r);
}

/// `add_mod` as integers: the entrywise sum, reduced.
proof fn lemma_add_mod_view(a: Seq<i32>, b: Seq<i32>, q: int)
    requires
        2 <= q < 0x8000_0000,
        a.len() == b.len(),
    ensures
        eqm(ints32(add_mod(a, b, q)), lin(1, ints32(a), 1, ints32(b)), q),
        reduced(ints32(add_mod(a, b, q)), q),
        add_mod(a, b, q).len() == a.len(),
{
    let x = ints32(add_mod(a, b, q));
    assert forall|i: int| 0 <= i < a.len() implies #[trigger] x[i] % q == lin(1, ints32(a), 1, ints32(b))[i] % q && 0 <= x[i] < q by {
        let v = a[i] + b[i];
        vstd::arithmetic::div_mod::lemma_mod_bound(v as int, q);
        assert(x[i] == v % q);
        vstd::arithmetic::div_mod::lemma_mod_twice(v as int, q);
    }
}

/// `sub_mod` as integers: the entrywise difference, reduced.
proof fn lemma_sub_mod_view(a: Seq<i32>, b: Seq<i32>, q: int)
    requires
        2 <= q < 0x8000_0000,
        a.len() == b.len(),
    ensures
        eqm(ints32(sub_mod(a, b, q)), lin(1, ints32(a), -1, ints32(b)), q),
        reduced(ints32(sub_mod(a, b, q)), q),
        sub_mod(a, b, q).len() == a.len(),
{
    let x = ints32(sub_mod(a, b, q));
    assert forall|i: int| 0 <= i < a.len() implies #[trigger] x[i] % q == lin(1, ints32(a), -1, ints32(b))[i] % q && 0 <= x[i] < q by {
        let v = a[i] - b[i];
        vstd::arithmetic::div_mod::lemma_mod_bound(v as int, q);
        assert(x[i] == v % q);
        vstd::arithmetic::div_mod::lemma_mod_twice(v as int, q);
    }
}

/// Rows of `n` coefficients each.
pub open spec fn rows_n(v: Seq<Seq<i32>>, m: int, n: int) -> bool {
    v.len() >= m && forall|j: int| 0 <= j < m ==> (#[trigger] v[j]).len() == n
}

/// `dot_rows` as integers: the sum of the ring products, mod q.
proof fn lemma_dot_rows_view(p: GenericCustomKemParams, a: Seq<Seq<i32>>, b: Seq<Seq<i32>>, m: nat)
    requires
        kem_params_ok(p),
        rows_n(a, m as int, p.n as int),
        rows_n(b, m as int, p.n as int),
    ensures
        eqm(
            ints32(dot_rows(a, b, m, p.n as int, p.q as int)),
            ssum(|j: int| rm(p, ints32(a[j]), ints32(b[j])), m, p.n as nat),
            p.q as int,
        ),
        dot_rows(a, b, m, p.n as int, p.q as int).len() == p.n,
    decreases m,
{
    let n = p.n as nat;
    let q = p.q as int;
    let f = |j: int| rm(p, ints32(a[j]), ints32(b[j]));
    lemma_ssum_len(f, m, n);
    if m == 0 {
        assert(ints32(dot_rows(a, b, 0, n as int, q)) =~= vzero(n));
    } else {
        let m0 = (m - 1) as nat;
        lemma_dot_rows_view(p, a, b, m0);
        lemma_ssum_len(f, m0, n);
        let d0 = dot_rows(a, b, m0, n as int, q);
        let mr = mul_ring(a[m0 as int], b[m0 as int], n as int, q);
        lemma_mul_ring_view(p, a[m0 as int], b[m0 as int]);
        lemma_add_mod_view(d0, mr, q);
        assert(eqm(ints32(mr), f(m0 as int), q));
        lemma_lin_cong(ints32(d0), ssum(f, m0, n), ints32(mr), f(m0 as int), 1, 1, q);
        lemma_eqm_trans(
            ints32(dot_rows(a, b, m, n as int, q)),
            lin(1, ints32(d0), 1, ints32(mr)),
            ssum(f, m, n),
            q,
        );
    }
}

/// A finished uniform run has exactly the requested length.
proof fn lemma_uniform_run_len(input: Seq<u8>, q: int, bits: nat, pos: nat, need: nat)
    ensures
        uniform_run(input, q, bits, pos, need) matches Some(s) ==> s.len() == need,
    decreases crate::xof::XOF_BUDGET - pos, need,
{
    let w = crate::dsa_sample::candidate_bytes(bits);
    if need > 0 && w > 0 && pos + w <= crate::xof::XOF_BUDGET {
        lemma_uniform_run_len(input, q, bits, pos + w, (need - 1) as nat);
        lemma_uniform_run_len(input, q, bits, pos + w, need);
    }
}

/// Matrix entry `(i, j)` sampled from `rho`, as integers.
pub open spec fn mat(p: GenericCustomKemParams, rho: Seq<u8>, i: int, j: int) -> Seq<int> {
    ints32(matrix_entry(rho, i, j, p).unwrap())
}

proof fn lemma_mat_len(p: GenericCustomKemParams, rho: Seq<u8>)
    requires
        matrix_ok(rho, p),
    ensures
        forall|i: int, j: int| 0 <= i < p.k && 0 <= j < p.k ==> (#[trigger] matrix_entry(rho, i, j, p)).unwrap().len() == p.n,
{
    assert forall|i: int, j: int| 0 <= i < p.k && 0 <= j < p.k implies (#[trigger] matrix_entry(rho, i, j, p)).unwrap().len() == p.n by {
        lemma_uniform_run_len(seed_two(rho, i as u8, j as u8), p.q as int, bit_length((p.q - 1) as nat), 0, p.n as nat);
        assert(matrix_entry(rho, i, j, p) is Some);
    }
}

/// `x` compressed to `d` bits and decompressed again, as integers.
pub open spec fn recomp(x: Seq<i32>, d: nat, q: int) -> Seq<int> {
    Seq::new(x.len(), |c: int| decompress_spec(compress_spec(x[c] as int, d, q), d, q))
}

/// The keygen secret `s`.
pub open spec fn kg_s(p: GenericCustomKemParams, seed: Seq<u8>) -> Seq<Seq<i32>> {
    noise_vec(derived_seed(seed, 1), 0, p.k as int, p.eta1, p)
}

/// The keygen error `e`.
pub open spec fn kg_e(p: GenericCustomKemParams, seed: Seq<u8>) -> Seq<Seq<i32>> {
    noise_vec(derived_seed(seed, 1), p.k as int, p.k as int, p.eta1, p)
}

/// The encryption randomness `r`.
pub open spec fn enc_r(p: GenericCustomKemParams, coins: Seq<u8>) -> Seq<Seq<i32>> {
    noise_vec(coins, 0, p.k as int, p.eta1, p)
}

/// The encryption error `e1`.
pub open spec fn enc_e1(p: GenericCustomKemParams, coins: Seq<u8>) -> Seq<Seq<i32>> {
    noise_vec(coins, p.k as int, p.k as int, p.eta2, p)
}

/// The encryption error `e2`.
pub open spec fn enc_e2(p: GenericCustomKemParams, coins: Seq<u8>) -> Seq<i32> {
    noise(coins, 2 * p.k, p.eta2, p).unwrap()
}

/// The noise that decryption finds on top of the message polynomial:
/// `(v' - v) + e.r + e2 - s.e1 - s.(u' - u)`, where `u'` and `v'` are `u` and `v` after
/// compression and decompression, and products are in the ring.
pub open spec fn kem_noise(p: GenericCustomKemParams, seed: Seq<u8>, coins: Seq<u8>, m: Seq<u8>) -> Seq<int> {
    let n = p.n as nat;
    let k = p.k as nat;
    let q = p.q as int;
    let rho = derived_seed(seed, 0);
    let s = kg_s(p, seed);
    let e = kg_e(p, seed);
    let r = enc_r(p, coins);
    let e1 = enc_e1(p, coins);
    let u = encrypt_u(p, rho, coins);
    let v = encrypt_v(p, keygen_t(p, seed), m, coins);
    let dv = lin(1, recomp(v, p.dv as nat, q), -1, ints32(v));
    let er = ssum(|i: int| rm(p, ints32(e[i]), ints32(r[i])), k, n);
    let se1 = ssum(|j: int| rm(p, ints32(s[j]), ints32(e1[j])), k, n);
    let sdu = ssum(|j: int| rm(p, ints32(s[j]), lin(1, recomp(u[j], p.du as nat, q), -1, ints32(u[j]))), k, n);
    lin(1, lin(1, lin(1, dv, 1, er), 1, ints32(enc_e2(p, coins))), -1, lin(1, se1, 1, sdu))
}

/// The lengths of everything keygen and encryption sample.
proof fn lemma_shapes(p: GenericCustomKemParams, seed: Seq<u8>, coins: Seq<u8>)
    requires
        kem_params_ok(p),
        keygen_ok(p, seed),
        encrypt_ok(p, derived_seed(seed, 0), coins),
    ensures
        rows_n(kg_s(p, seed), p.k as int, p.n as int),
        rows_n(kg_e(p, seed), p.k as int, p.n as int),
        rows_n(enc_r(p, coins), p.k as int, p.n as int),
        rows_n(enc_e1(p, coins), p.k as int, p.n as int),
        enc_e2(p, coins).len() == p.n,
        forall|i: int, j: int| 0 <= i < p.k && 0 <= j < p.k ==> (#[trigger] mat(p, derived_seed(seed, 0), i, j)).len() == p.n,
        forall|i: int| 0 <= i < p.k ==> rows_n(#[trigger] matrix_row(derived_seed(seed, 0), i, p), p.k as int, p.n as int),
        forall|i: int| 0 <= i < p.k ==> rows_n(#[trigger] matrix_col(derived_seed(seed, 0), i, p), p.k as int, p.n as int),
{
    let sigma = derived_seed(seed, 1);
    let rho = derived_seed(seed, 0);
    assert(crate::custom_kem_pke::noise_ok(sigma, 0, p.k as int, p.eta1, p)) by {
        assert forall|i: int| 0 <= i < p.k implies #[trigger] noise(sigma, 0 + i, p.eta1, p) is Some by {
            assert(noise(sigma, 0 + i, p.eta1, p) is Some);
        }
    }
    assert(crate::custom_kem_pke::noise_ok(sigma, p.k as int, p.k as int, p.eta1, p)) by {
        assert forall|i: int| 0 <= i < p.k implies #[trigger] noise(sigma, p.k + i, p.eta1, p) is Some by {
            assert(noise(sigma, 0 + (p.k + i), p.eta1, p) is Some);
        }
    }
    lemma_noise_bound(sigma, 0, p.k as int, p.eta1, p);
    lemma_noise_bound(sigma, p.k as int, p.k as int, p.eta1, p);
    lemma_noise_bound(coins, 0, p.k as int, p.eta1, p);
    lemma_noise_bound(coins, p.k as int, p.k as int, p.eta2, p);
    crate::dsa_sample::lemma_byte_eta_run_shape(crate::dsa_sample::seed_nonce(coins, (2 * p.k) as u16), p.eta2 as int, 0, p.n as nat);
    lemma_mat_len(p, rho);
}

/// Row `i` of `t = A s + e` is `sum_j A_ij s_j + e_i`, mod q.
proof fn lemma_t_row(p: GenericCustomKemParams, seed: Seq<u8>, coins: Seq<u8>, i: int)
    requires
        kem_params_ok(p),
        keygen_ok(p, seed),
        encrypt_ok(p, derived_seed(seed, 0), coins),
        0 <= i < p.k,
    ensures
        eqm(
            ints32(keygen_t(p, seed)[i]),
            lin(
                1,
                ssum(|j: int| rm(p, mat(p, derived_seed(seed, 0), i, j), ints32(kg_s(p, seed)[j])), p.k as nat, p.n as nat),
                1,
                ints32(kg_e(p, seed)[i]),
            ),
            p.q as int,
        ),
        keygen_t(p, seed)[i].len() == p.n,
{
    let rho = derived_seed(seed, 0);
    let sv = kg_s(p, seed);
    let q = p.q as int;
    let n = p.n as nat;
    let k = p.k as nat;
    lemma_shapes(p, seed, coins);
    let row = matrix_row(rho, i, p);
    lemma_dot_rows_view(p, row, sv, k);
    let d = dot_rows(row, sv, k, n as int, q);
    lemma_add_mod_view(d, kg_e(p, seed)[i], q);
    let f1 = |j: int| rm(p, ints32(row[j]), ints32(sv[j]));
    let f2 = |j: int| rm(p, mat(p, rho, i, j), ints32(sv[j]));
    lemma_ssum_ext(f1, f2, k, n);
    lemma_ssum_len(f2, k, n);
    let ee = ints32(kg_e(p, seed)[i]);
    assert(eqm(ee, ee, q));
    lemma_lin_cong(ints32(d), ssum(f2, k, n), ee, ee, 1, 1, q);
    lemma_eqm_trans(ints32(keygen_t(p, seed)[i]), lin(1, ints32(d), 1, ee), lin(1, ssum(f2, k, n), 1, ee), q);
}

/// Row `j` of `u = A^T r + e1` is `sum_i A_ij r_i + e1_j`, mod q.
proof fn lemma_u_row(p: GenericCustomKemParams, seed: Seq<u8>, coins: Seq<u8>, j: int)
    requires
        kem_params_ok(p),
        keygen_ok(p, seed),
        encrypt_ok(p, derived_seed(seed, 0), coins),
        0 <= j < p.k,
    ensures
        eqm(
            ints32(encrypt_u(p, derived_seed(seed, 0), coins)[j]),
            lin(
                1,
                ssum(|i: int| rm(p, mat(p, derived_seed(seed, 0), i, j), ints32(enc_r(p, coins)[i])), p.k as nat, p.n as nat),
                1,
                ints32(enc_e1(p, coins)[j]),
            ),
            p.q as int,
        ),
        encrypt_u(p, derived_seed(seed, 0), coins)[j].len() == p.n,
{
    let rho = derived_seed(seed, 0);
    let rv = enc_r(p, coins);
    let q = p.q as int;
    let n = p.n as nat;
    let k = p.k as nat;
    lemma_shapes(p, seed, coins);
    let col = matrix_col(rho, j, p);
    lemma_dot_rows_view(p, col, rv, k);
    let d = dot_rows(col, rv, k, n as int, q);
    lemma_add_mod_view(d, enc_e1(p, coins)[j], q);
    let f1 = |i: int| rm(p, ints32(col[i]), ints32(rv[i]));
    let f2 = |i: int| rm(p, mat(p, rho, i, j), ints32(rv[i]));
    lemma_ssum_ext(f1, f2, k, n);
    lemma_ssum_len(f2, k, n);
    let ee = ints32(enc_e1(p, coins)[j]);
    assert(eqm(ee, ee, q));
    lemma_lin_cong(ints32(d), ssum(f2, k, n), ee, ee, 1, 1, q);
    lemma_eqm_trans(ints32(encrypt_u(p, rho, coins)[j]), lin(1, ints32(d), 1, ee), lin(1, ssum(f2, k, n), 1, ee), q);
}

proof fn lemma_rm_comm(p: GenericCustomKemParams, a: Seq<int>, b: Seq<int>)
    requires
        kem_params_ok(p),
        a.len() == p.n,
        b.len() == p.n,
    ensures
        rm(p, a, b) == rm(p, b, a),
        rm(p, a, b).len() == p.n,
{
    lemma_kem_ring_table(p);
    let (zs, zi, ni, q) = (spec_zetas(p.n as int, p.q as int), spec_zetas_inv(p.n as int, p.q as int), spec_n_inv(p.n as int, p.q as int), p.q as int);
    lemma_rmul_comm(a, b, zs, zi, ni, q, kem_log_n(p));
    lemma_rmul_reduced(a, b, zs, zi, ni, q, kem_log_n(p));
}

proof fn lemma_rm_assoc(p: GenericCustomKemParams, a: Seq<int>, b: Seq<int>, c: Seq<int>)
    requires
        kem_params_ok(p),
        a.len() == p.n,
        b.len() == p.n,
        c.len() == p.n,
    ensures
        rm(p, rm(p, a, b), c) == rm(p, a, rm(p, b, c)),
{
    lemma_kem_ring_table(p);
    let (zs, zi, ni, q) = (spec_zetas(p.n as int, p.q as int), spec_zetas_inv(p.n as int, p.q as int), spec_n_inv(p.n as int, p.q as int), p.q as int);
    lemma_rmul_assoc(a, b, c, zs, zi, ni, q, kem_log_n(p));
}

proof fn lemma_rm_lin(p: GenericCustomKemParams, a: Seq<int>, b: Seq<int>, c: Seq<int>, c1: int, c2: int)
    requires
        kem_params_ok(p),
        a.len() == p.n,
        b.len() == p.n,
        c.len() == p.n,
    ensures
        eqm(rm(p, a, lin(c1, b, c2, c)), lin(c1, rm(p, a, b), c2, rm(p, a, c)), p.q as int),
{
    lemma_kem_ring_table(p);
    let (zs, zi, ni, q) = (spec_zetas(p.n as int, p.q as int), spec_zetas_inv(p.n as int, p.q as int), spec_n_inv(p.n as int, p.q as int), p.q as int);
    lemma_rmul_lin(a, b, c, c1, c2, zs, zi, ni, q, kem_log_n(p));
}

proof fn lemma_rm_cong(p: GenericCustomKemParams, a: Seq<int>, a2: Seq<int>, b: Seq<int>)
    requires
        kem_params_ok(p),
        a.len() == p.n,
        b.len() == p.n,
        eqm(a2, a, p.q as int),
    ensures
        rm(p, a2, b) == rm(p, a, b),
        rm(p, b, a2) == rm(p, b, a),
{
    lemma_kem_ring_table(p);
    let (zs, zi, ni, q) = (spec_zetas(p.n as int, p.q as int), spec_zetas_inv(p.n as int, p.q as int), spec_n_inv(p.n as int, p.q as int), p.q as int);
    lemma_rmul_cong(a, a2, b, zs, zi, ni, q, kem_log_n(p));
}

proof fn lemma_rm_ssum(p: GenericCustomKemParams, x: Seq<int>, f: spec_fn(int) -> Seq<int>, m: nat)
    requires
        kem_params_ok(p),
        x.len() == p.n,
        forall|j: int| 0 <= j < m ==> (#[trigger] f(j)).len() == p.n,
    ensures
        eqm(rm(p, x, ssum(f, m, p.n as nat)), ssum(|j: int| rm(p, x, f(j)), m, p.n as nat), p.q as int),
{
    lemma_kem_ring_table(p);
    let (zs, zi, ni, q) = (spec_zetas(p.n as int, p.q as int), spec_zetas_inv(p.n as int, p.q as int), spec_n_inv(p.n as int, p.q as int), p.q as int);
    lemma_rmul_ssum(x, f, m, zs, zi, ni, q, kem_log_n(p));
    lemma_ssum_ext(|j: int| rmul(x, f(j), zs, zi, ni, q), |j: int| rm(p, x, f(j)), m, p.n as nat);
}

/// The cross term `r_i (A_ij s_j)`.
pub open spec fn cross(p: GenericCustomKemParams, seed: Seq<u8>, coins: Seq<u8>, i: int, j: int) -> Seq<int> {
    rm(p, ints32(enc_r(p, coins)[i]), rm(p, mat(p, derived_seed(seed, 0), i, j), ints32(kg_s(p, seed)[j])))
}

/// `e . r`.
pub open spec fn e_dot_r(p: GenericCustomKemParams, seed: Seq<u8>, coins: Seq<u8>) -> Seq<int> {
    ssum(|i: int| rm(p, ints32(kg_e(p, seed)[i]), ints32(enc_r(p, coins)[i])), p.k as nat, p.n as nat)
}

/// `t . r = sum_i sum_j r_i (A_ij s_j) + e . r`, mod q.
proof fn lemma_t_dot_r(p: GenericCustomKemParams, seed: Seq<u8>, coins: Seq<u8>)
    requires
        kem_params_ok(p),
        keygen_ok(p, seed),
        encrypt_ok(p, derived_seed(seed, 0), coins),
    ensures
        eqm(
            ints32(dot_rows(keygen_t(p, seed), enc_r(p, coins), p.k as nat, p.n as int, p.q as int)),
            lin(
                1,
                ssum(|i: int| ssum(|j: int| cross(p, seed, coins, i, j), p.k as nat, p.n as nat), p.k as nat, p.n as nat),
                1,
                e_dot_r(p, seed, coins),
            ),
            p.q as int,
        ),
        dot_rows(keygen_t(p, seed), enc_r(p, coins), p.k as nat, p.n as int, p.q as int).len() == p.n,
{
    let n = p.n as nat;
    let k = p.k as nat;
    let q = p.q as int;
    let rho = derived_seed(seed, 0);
    let t = keygen_t(p, seed);
    let rv = enc_r(p, coins);
    let sv = kg_s(p, seed);
    let ev = kg_e(p, seed);
    lemma_shapes(p, seed, coins);
    assert forall|i: int| 0 <= i < k implies (#[trigger] t[i]).len() == n by {
        lemma_t_row(p, seed, coins, i);
    }
    lemma_dot_rows_view(p, t, rv, k);
    let term = |i: int| rm(p, ints32(t[i]), ints32(rv[i]));
    let rows = |i: int| ssum(|j: int| cross(p, seed, coins, i, j), k, n);
    let ers = |i: int| rm(p, ints32(ev[i]), ints32(rv[i]));
    let goal = |i: int| lin(1, rows(i), 1, ers(i));
    assert forall|i: int| 0 <= i < k implies eqm(#[trigger] term(i), goal(i), q) && term(i).len() == n by {
        lemma_t_row(p, seed, coins, i);
        let si = ssum(|j: int| rm(p, mat(p, rho, i, j), ints32(sv[j])), k, n);
        lemma_ssum_len(|j: int| rm(p, mat(p, rho, i, j), ints32(sv[j])), k, n);
        let li = lin(1, si, 1, ints32(ev[i]));
        let ri = ints32(rv[i]);
        lemma_rm_cong(p, li, ints32(t[i]), ri);
        lemma_rm_comm(p, li, ri);
        lemma_rm_lin(p, ri, si, ints32(ev[i]), 1, 1);
        assert forall|j: int| 0 <= j < k implies (#[trigger] rm(p, mat(p, rho, i, j), ints32(sv[j]))).len() == n by {
            lemma_rm_comm(p, mat(p, rho, i, j), ints32(sv[j]));
        }
        lemma_rm_ssum(p, ri, |j: int| rm(p, mat(p, rho, i, j), ints32(sv[j])), k);
        lemma_ssum_ext(
            |j: int| rm(p, ri, (|j: int| rm(p, mat(p, rho, i, j), ints32(sv[j])))(j)),
            |j: int| cross(p, seed, coins, i, j),
            k,
            n,
        );
        lemma_rm_comm(p, ri, ints32(ev[i]));
        lemma_rm_comm(p, ri, si);
        let re = rm(p, ri, ints32(ev[i]));
        assert(eqm(re, re, q));
        lemma_lin_cong(rm(p, ri, si), rows(i), re, re, 1, 1, q);
        lemma_eqm_trans(rm(p, ri, li), lin(1, rm(p, ri, si), 1, re), goal(i), q);
    }
    lemma_ssum_cong(term, goal, k, n, q);
    assert forall|i: int| 0 <= i < k implies (#[trigger] rows(i)).len() == n by {
        lemma_ssum_len(|j: int| cross(p, seed, coins, i, j), k, n);
    }
    lemma_ssum_add(rows, ers, k, n);
    lemma_ssum_ext(goal, |i: int| lin(1, rows(i), 1, ers(i)), k, n);
    lemma_ssum_ext(rows, |i: int| ssum(|j: int| cross(p, seed, coins, i, j), k, n), k, n);
    lemma_ssum_ext(ers, |i: int| rm(p, ints32(kg_e(p, seed)[i]), ints32(enc_r(p, coins)[i])), k, n);
    lemma_eqm_trans(
        ints32(dot_rows(t, rv, k, n as int, q)),
        ssum(|j: int| rm(p, ints32(t[j]), ints32(rv[j])), k, n),
        ssum(goal, k, n),
        q,
    );
}

/// The cross term `s_j (A_ij r_i)`.
pub open spec fn cross_t(p: GenericCustomKemParams, seed: Seq<u8>, coins: Seq<u8>, i: int, j: int) -> Seq<int> {
    rm(p, ints32(kg_s(p, seed)[j]), rm(p, mat(p, derived_seed(seed, 0), i, j), ints32(enc_r(p, coins)[i])))
}

/// `u` after compression and decompression, minus `u`, row `j`.
pub open spec fn u_err(p: GenericCustomKemParams, seed: Seq<u8>, coins: Seq<u8>, j: int) -> Seq<int> {
    let u = encrypt_u(p, derived_seed(seed, 0), coins);
    lin(1, recomp(u[j], p.du as nat, p.q as int), -1, ints32(u[j]))
}

/// `s . e1 + s . (u' - u)`.
pub open spec fn s_terms(p: GenericCustomKemParams, seed: Seq<u8>, coins: Seq<u8>) -> Seq<int> {
    let s = kg_s(p, seed);
    let e1 = enc_e1(p, coins);
    let n = p.n as nat;
    let k = p.k as nat;
    lin(
        1,
        ssum(|j: int| rm(p, ints32(s[j]), ints32(e1[j])), k, n),
        1,
        ssum(|j: int| rm(p, ints32(s[j]), u_err(p, seed, coins, j)), k, n),
    )
}

/// Column sum `sum_i s_j (A_ij r_i)`.
pub open spec fn cross_col(p: GenericCustomKemParams, seed: Seq<u8>, coins: Seq<u8>, j: int) -> Seq<int> {
    ssum(|i: int| cross_t(p, seed, coins, i, j), p.k as nat, p.n as nat)
}

/// `s_j e1_j + s_j (u'_j - u_j)`.
pub open spec fn s_term(p: GenericCustomKemParams, seed: Seq<u8>, coins: Seq<u8>, j: int) -> Seq<int> {
    let sj = ints32(kg_s(p, seed)[j]);
    lin(1, rm(p, sj, ints32(enc_e1(p, coins)[j])), 1, rm(p, sj, u_err(p, seed, coins, j)))
}

/// One term of `s . u'`.
proof fn lemma_s_dot_u_term(p: GenericCustomKemParams, seed: Seq<u8>, coins: Seq<u8>, ur: Seq<Seq<i32>>, j: int)
    requires
        kem_params_ok(p),
        keygen_ok(p, seed),
        encrypt_ok(p, derived_seed(seed, 0), coins),
        0 <= j < p.k,
        ints32(ur[j]) == recomp(encrypt_u(p, derived_seed(seed, 0), coins)[j], p.du as nat, p.q as int),
    ensures
        eqm(
            rm(p, ints32(kg_s(p, seed)[j]), ints32(ur[j])),
            lin(1, cross_col(p, seed, coins, j), 1, s_term(p, seed, coins, j)),
            p.q as int,
        ),
        rm(p, ints32(kg_s(p, seed)[j]), ints32(ur[j])).len() == p.n,
        cross_col(p, seed, coins, j).len() == p.n,
        s_term(p, seed, coins, j).len() == p.n,
        ur[j].len() == p.n,
{
    let n = p.n as nat;
    let k = p.k as nat;
    let q = p.q as int;
    let rho = derived_seed(seed, 0);
    let u = encrypt_u(p, rho, coins);
    let rv = enc_r(p, coins);
    let sv = kg_s(p, seed);
    let e1 = enc_e1(p, coins);
    lemma_shapes(p, seed, coins);
    lemma_u_row(p, seed, coins, j);
    let uj = ints32(u[j]);
    let xj = ints32(ur[j]);
    assert(xj.len() == n);
    let dj = u_err(p, seed, coins, j);
    let sj = ints32(sv[j]);
    assert(xj =~= lin(1, uj, 1, dj));
    lemma_rm_lin(p, sj, uj, dj, 1, 1);
    let f = |i: int| rm(p, mat(p, rho, i, j), ints32(rv[i]));
    let qj = ssum(f, k, n);
    lemma_ssum_len(f, k, n);
    let mj = lin(1, qj, 1, ints32(e1[j]));
    lemma_rm_cong(p, mj, uj, sj);
    lemma_rm_lin(p, sj, qj, ints32(e1[j]), 1, 1);
    assert forall|i: int| 0 <= i < k implies (#[trigger] f(i)).len() == n by {
        lemma_rm_comm(p, mat(p, rho, i, j), ints32(rv[i]));
    }
    lemma_rm_ssum(p, sj, f, k);
    lemma_ssum_ext(|i: int| rm(p, sj, f(i)), |i: int| cross_t(p, seed, coins, i, j), k, n);
    lemma_rm_comm(p, sj, qj);
    lemma_rm_comm(p, sj, ints32(e1[j]));
    lemma_rm_comm(p, sj, uj);
    lemma_rm_comm(p, sj, dj);
    let cc = cross_col(p, seed, coins, j);
    lemma_ssum_len(|i: int| cross_t(p, seed, coins, i, j), k, n);
    let a = rm(p, sj, qj);
    let b = rm(p, sj, ints32(e1[j]));
    let c = rm(p, sj, dj);
    assert(eqm(c, c, q));
    assert(eqm(b, b, q));
    lemma_lin_cong(a, cc, b, b, 1, 1, q);
    lemma_eqm_trans(rm(p, sj, uj), lin(1, a, 1, b), lin(1, cc, 1, b), q);
    lemma_lin_cong(rm(p, sj, uj), lin(1, cc, 1, b), c, c, 1, 1, q);
    assert(lin(1, lin(1, cc, 1, b), 1, c) =~= lin(1, cc, 1, s_term(p, seed, coins, j)));
    lemma_eqm_trans(rm(p, sj, xj), lin(1, rm(p, sj, uj), 1, c), lin(1, lin(1, cc, 1, b), 1, c), q);
}

/// `s . u' = sum_j sum_i s_j (A_ij r_i) + s . e1 + s . (u' - u)`, mod q, where `u'` is `u`
/// compressed and decompressed.
proof fn lemma_s_dot_u(p: GenericCustomKemParams, seed: Seq<u8>, coins: Seq<u8>, ur: Seq<Seq<i32>>)
    requires
        kem_params_ok(p),
        keygen_ok(p, seed),
        encrypt_ok(p, derived_seed(seed, 0), coins),
        ur.len() == p.k,
        forall|j: int| 0 <= j < p.k ==> ints32(#[trigger] ur[j]) == recomp(encrypt_u(p, derived_seed(seed, 0), coins)[j], p.du as nat, p.q as int),
    ensures
        eqm(
            ints32(dot_rows(kg_s(p, seed), ur, p.k as nat, p.n as int, p.q as int)),
            lin(
                1,
                ssum(|j: int| cross_col(p, seed, coins, j), p.k as nat, p.n as nat),
                1,
                ssum(|j: int| s_term(p, seed, coins, j), p.k as nat, p.n as nat),
            ),
            p.q as int,
        ),
        dot_rows(kg_s(p, seed), ur, p.k as nat, p.n as int, p.q as int).len() == p.n,
{
    let n = p.n as nat;
    let k = p.k as nat;
    let q = p.q as int;
    let sv = kg_s(p, seed);
    lemma_shapes(p, seed, coins);
    let term = |j: int| rm(p, ints32(sv[j]), ints32(ur[j]));
    let cols = |j: int| cross_col(p, seed, coins, j);
    let rest = |j: int| s_term(p, seed, coins, j);
    let goal = |j: int| lin(1, cols(j), 1, rest(j));
    assert forall|j: int| 0 <= j < k implies eqm(#[trigger] term(j), goal(j), q) && term(j).len() == n by {
        lemma_s_dot_u_term(p, seed, coins, ur, j);
    }
    assert forall|j: int| 0 <= j < k implies (#[trigger] ur[j]).len() == n by {
        lemma_s_dot_u_term(p, seed, coins, ur, j);
    }
    assert forall|j: int| 0 <= j < k implies (#[trigger] cols(j)).len() == n by {
        lemma_s_dot_u_term(p, seed, coins, ur, j);
    }
    assert(rows_n(ur, k as int, n as int));
    lemma_dot_rows_view(p, sv, ur, k);
    lemma_ssum_cong(term, goal, k, n, q);
    lemma_ssum_add(cols, rest, k, n);
    lemma_ssum_ext(goal, |j: int| lin(1, cols(j), 1, rest(j)), k, n);
    lemma_ssum_ext(|j: int| rm(p, ints32(sv[j]), ints32(ur[j])), term, k, n);
    lemma_eqm_trans(ints32(dot_rows(sv, ur, k, n as int, q)), ssum(term, k, n), ssum(goal, k, n), q);
}

/// The two cross terms are the same ring element.
proof fn lemma_cross_same(p: GenericCustomKemParams, seed: Seq<u8>, coins: Seq<u8>, i: int, j: int)
    requires
        kem_params_ok(p),
        keygen_ok(p, seed),
        encrypt_ok(p, derived_seed(seed, 0), coins),
        0 <= i < p.k,
        0 <= j < p.k,
    ensures
        cross(p, seed, coins, i, j) == cross_t(p, seed, coins, i, j),
        cross(p, seed, coins, i, j).len() == p.n,
{
    lemma_shapes(p, seed, coins);
    let a = mat(p, derived_seed(seed, 0), i, j);
    let r = ints32(enc_r(p, coins)[i]);
    let sv = ints32(kg_s(p, seed)[j]);
    lemma_rm_comm(p, a, sv);
    lemma_rm_comm(p, a, r);
    lemma_rm_comm(p, r, rm(p, a, sv));
    lemma_rm_assoc(p, a, sv, r);
    lemma_rm_comm(p, sv, rm(p, a, r));
    lemma_rm_assoc(p, a, r, sv);
    lemma_rm_comm(p, sv, r);
}

/// The double sum of cross terms, in either order.
proof fn lemma_cross_swap(p: GenericCustomKemParams, seed: Seq<u8>, coins: Seq<u8>)
    requires
        kem_params_ok(p),
        keygen_ok(p, seed),
        encrypt_ok(p, derived_seed(seed, 0), coins),
    ensures
        ssum(|i: int| ssum(|j: int| cross(p, seed, coins, i, j), p.k as nat, p.n as nat), p.k as nat, p.n as nat)
            == ssum(|j: int| cross_col(p, seed, coins, j), p.k as nat, p.n as nat),
{
    let n = p.n as nat;
    let k = p.k as nat;
    let t = |i: int, j: int| cross(p, seed, coins, i, j);
    assert forall|i: int, j: int| 0 <= i < k && 0 <= j < k implies (#[trigger] t(i, j)).len() == n by {
        lemma_cross_same(p, seed, coins, i, j);
    }
    lemma_ssum_swap(t, k, k, n);
    let rs1 = |i: int| ssum(|j: int| t(i, j), k, n);
    let rs2 = |i: int| ssum(|j: int| cross(p, seed, coins, i, j), k, n);
    assert forall|i: int| 0 <= i < k implies #[trigger] rs1(i) == rs2(i) by {
        assert((|j: int| t(i, j)) =~= (|j: int| cross(p, seed, coins, i, j)));
    }
    lemma_ssum_ext(rs1, rs2, k, n);
    assert(rs1 =~= (|i: int| ssum(|j: int| t(i, j), k, n)));
    assert(rs2 =~= (|i: int| ssum(|j: int| cross(p, seed, coins, i, j), k, n)));
    let colsum = |j: int| ssum(|i: int| t(i, j), k, n);
    assert forall|j: int| 0 <= j < k implies #[trigger] colsum(j) == cross_col(p, seed, coins, j) by {
        assert forall|i: int| 0 <= i < k implies #[trigger] t(i, j) == cross_t(p, seed, coins, i, j) by {
            lemma_cross_same(p, seed, coins, i, j);
        }
        lemma_ssum_ext(|i: int| t(i, j), |i: int| cross_t(p, seed, coins, i, j), k, n);
    }
    lemma_ssum_ext(colsum, |j: int| cross_col(p, seed, coins, j), k, n);
    lemma_ssum_ext(|j: int| ssum(|i: int| t(i, j), k, n), colsum, k, n);
}

/// The bookkeeping behind the noise identity, on single coefficients mod q.
pub(crate) proof fn lemma_combine(
    mu: int,
    vr: int,
    sx: int,
    cc: int,
    st: int,
    vv: int,
    aa: int,
    msg: int,
    tr: int,
    e2: int,
    ss: int,
    er: int,
    se1: int,
    sdu: int,
    q: int,
)
    requires
        q > 0,
        mu % q == (vr - sx) % q,
        sx % q == (cc + st) % q,
        vv % q == (aa + msg) % q,
        aa % q == (tr + e2) % q,
        tr % q == (ss + er) % q,
        ss == cc,
        st == se1 + sdu,
    ensures
        mu % q == (msg + ((((vr - vv) + er) + e2) - (se1 + sdu))) % q,
{
    lemma_cong_add(aa, tr + e2, msg, msg, q);
    lemma_cong_add(tr, ss + er, e2 + msg, e2 + msg, q);
    assert((tr + e2) + msg == tr + (e2 + msg));
    assert((ss + er) + (e2 + msg) == ss + er + e2 + msg);
    let w = ss + er + e2 + msg;
    assert(vv % q == w % q);
    let pp = msg + vr + er + e2 - se1 - sdu;
    lemma_cong_sub(pp, pp, vv, w, q);
    assert(msg + ((((vr - vv) + er) + e2) - (se1 + sdu)) == pp - vv);
    lemma_cong_sub(vr, vr, sx, cc + st, q);
    assert(pp - w == vr - (cc + st));
}

/// Decryption's `v' - s . u'` is the message polynomial plus `kem_noise`, mod q, where `u'`
/// and `v'` are the ciphertext parts compressed and decompressed.
pub proof fn lemma_decrypt_noise(
    p: GenericCustomKemParams,
    seed: Seq<u8>,
    coins: Seq<u8>,
    m: Seq<u8>,
    ur: Seq<Seq<i32>>,
    vr: Seq<i32>,
)
    requires
        kem_params_ok(p),
        keygen_ok(p, seed),
        encrypt_ok(p, derived_seed(seed, 0), coins),
        ur.len() == p.k,
        forall|j: int| 0 <= j < p.k ==> ints32(#[trigger] ur[j]) == recomp(encrypt_u(p, derived_seed(seed, 0), coins)[j], p.du as nat, p.q as int),
        ints32(vr) == recomp(encrypt_v(p, keygen_t(p, seed), m, coins), p.dv as nat, p.q as int),
    ensures
        eqm(
            ints32(sub_mod(vr, dot_rows(kg_s(p, seed), ur, p.k as nat, p.n as int, p.q as int), p.q as int)),
            lin(1, ints32(msg_poly(m, p.n as int, p.q as int)), 1, kem_noise(p, seed, coins, m)),
            p.q as int,
        ),
        sub_mod(vr, dot_rows(kg_s(p, seed), ur, p.k as nat, p.n as int, p.q as int), p.q as int).len() == p.n,
{
    let n = p.n as nat;
    let k = p.k as nat;
    let q = p.q as int;
    let rho = derived_seed(seed, 0);
    let t = keygen_t(p, seed);
    let rv = enc_r(p, coins);
    let sv = kg_s(p, seed);
    let e2 = enc_e2(p, coins);
    let v = encrypt_v(p, t, m, coins);
    let mp = msg_poly(m, n as int, q);
    lemma_shapes(p, seed, coins);
    assert(min_len(t.len() as int, k as int) == k);
    lemma_t_dot_r(p, seed, coins);
    let trd = dot_rows(t, rv, k, n as int, q);
    let aa = add_mod(trd, e2, q);
    lemma_add_mod_view(trd, e2, q);
    lemma_add_mod_view(aa, mp, q);
    assert(v == add_mod(aa, mp, q));
    lemma_s_dot_u(p, seed, coins, ur);
    let sxd = dot_rows(sv, ur, k, n as int, q);
    assert(trd.len() == n);
    assert(e2.len() == n);
    assert(aa.len() == n);
    assert(mp.len() == n);
    assert(v.len() == n);
    assert(recomp(v, p.dv as nat, q).len() == n);
    assert(ints32(vr).len() == n);
    assert(vr.len() == n);
    lemma_sub_mod_view(vr, sxd, q);
    let mu = ints32(sub_mod(vr, sxd, q));
    // the s-side sum splits into s . e1 and s . (u' - u)
    let se = |j: int| rm(p, ints32(sv[j]), ints32(enc_e1(p, coins)[j]));
    let sd = |j: int| rm(p, ints32(sv[j]), u_err(p, seed, coins, j));
    assert forall|j: int| 0 <= j < k implies (#[trigger] se(j)).len() == n by {
        lemma_rm_comm(p, ints32(sv[j]), ints32(enc_e1(p, coins)[j]));
    }
    lemma_ssum_add(se, sd, k, n);
    lemma_ssum_ext(|j: int| s_term(p, seed, coins, j), |j: int| lin(1, se(j), 1, sd(j)), k, n);
    let st = ssum(|j: int| s_term(p, seed, coins, j), k, n);
    let se1 = ssum(se, k, n);
    let sdu = ssum(sd, k, n);
    assert(st == lin(1, se1, 1, sdu));
    lemma_cross_swap(p, seed, coins);
    let cc = ssum(|j: int| cross_col(p, seed, coins, j), k, n);
    let er = e_dot_r(p, seed, coins);
    let nz = kem_noise(p, seed, coins, m);
    let u = encrypt_u(p, rho, coins);
    assert(se1 == ssum(|j: int| rm(p, ints32(sv[j]), ints32(enc_e1(p, coins)[j])), k, n));
    lemma_ssum_ext(
        sd,
        |j: int| rm(p, ints32(sv[j]), lin(1, recomp(u[j], p.du as nat, q), -1, ints32(u[j]))),
        k,
        n,
    );
    let tr = ints32(trd);
    let sx = ints32(sxd);
    let vv = ints32(v);
    let av = ints32(aa);
    lemma_ssum_len(|j: int| cross_col(p, seed, coins, j), k, n);
    lemma_ssum_len(se, k, n);
    lemma_ssum_len(sd, k, n);
    lemma_ssum_len(|i: int| rm(p, ints32(kg_e(p, seed)[i]), ints32(enc_r(p, coins)[i])), k, n);
    let target = lin(1, ints32(mp), 1, nz);
    assert forall|c: int| 0 <= c < n implies #[trigger] mu[c] % q == target[c] % q by {
        assert(mu[c] % q == lin(1, ints32(vr), -1, sx)[c] % q);
        assert(sx[c] % q == lin(1, cc, 1, st)[c] % q);
        assert(vv[c] % q == lin(1, av, 1, ints32(mp))[c] % q);
        assert(av[c] % q == lin(1, tr, 1, ints32(e2))[c] % q);
        assert(tr[c] % q == lin(
            1,
            ssum(|i: int| ssum(|j: int| cross(p, seed, coins, i, j), k, n), k, n),
            1,
            er,
        )[c] % q);
        lemma_combine(
            mu[c],
            ints32(vr)[c],
            sx[c],
            cc[c],
            st[c],
            vv[c],
            av[c],
            ints32(mp)[c],
            tr[c],
            ints32(e2)[c],
            cc[c],
            er[c],
            se1[c],
            sdu[c],
            q,
        );
    }
}

pub(crate) proof fn lemma_compress_fits(x: int, d: nat, q: int)
    requires
        1 <= d <= 30,
        q >= 1,
    ensures
        0 <= compress_spec(x, d, q) < pow2(d),
        pow2(d) <= 0x4000_0000,
{
    vstd::arithmetic::power2::lemma_pow2_pos(d);
    vstd::arithmetic::div_mod::lemma_mod_bound(((x % q) * pow2(d) + q / 2) / q, pow2(d) as int);
    if d < 30 {
        vstd::arithmetic::power2::lemma_pow2_strictly_increases(d, 30);
    }
    vstd::arithmetic::power2::lemma2_to64();
}

pub(crate) proof fn lemma_decompress_range(y: int, d: nat, q: int)
    requires
        2 <= q < 0x8000_0000,
    ensures
        0 <= decompress_spec(y, d, q) < q,
{
    vstd::arithmetic::div_mod::lemma_mod_bound((y * q + pow2((d - 1) as nat)) / (pow2(d) as int), q);
}

/// Decryption reads back `u` and `v` compressed and decompressed.
proof fn lemma_ct_parts(p: GenericCustomKemParams, seed: Seq<u8>, coins: Seq<u8>, m: Seq<u8>, ct: Seq<u8>)
    requires
        kem_params_ok(p),
        keygen_ok(p, seed),
        encrypt_ok(p, derived_seed(seed, 0), coins),
        ct.len() >= crate::custom_kem::u_len(p),
        is_packing_of(
            ct.subrange(0, crate::custom_kem::u_len(p)),
            compress_rows(encrypt_u(p, derived_seed(seed, 0), coins), p.n as int, p.du as nat, p.q as int),
            p.du as nat,
        ),
        is_packing_of(
            ct.subrange(crate::custom_kem::u_len(p), ct.len() as int),
            compress_seq(encrypt_v(p, keygen_t(p, seed), m, coins), p.dv as nat, p.q as int),
            p.dv as nat,
        ),
    ensures
        decrypt_u(p, ct.subrange(0, crate::custom_kem::u_len(p))).len() == p.k,
        forall|j: int|
            0 <= j < p.k ==> ints32(#[trigger] decrypt_u(p, ct.subrange(0, crate::custom_kem::u_len(p)))[j]) == recomp(
                encrypt_u(p, derived_seed(seed, 0), coins)[j],
                p.du as nat,
                p.q as int,
            ),
        ints32(decrypt_v(p, ct.subrange(crate::custom_kem::u_len(p), ct.len() as int))) == recomp(
            encrypt_v(p, keygen_t(p, seed), m, coins),
            p.dv as nat,
            p.q as int,
        ),
{
    let n = p.n as int;
    let k = p.k as int;
    let q = p.q as int;
    let rho = derived_seed(seed, 0);
    let u = encrypt_u(p, rho, coins);
    let v = encrypt_v(p, keygen_t(p, seed), m, coins);
    let ub = ct.subrange(0, crate::custom_kem::u_len(p));
    let vb = ct.subrange(crate::custom_kem::u_len(p), ct.len() as int);
    lemma_widths(p);
    lemma_shapes(p, seed, coins);
    let cu = compress_rows(u, n, p.du as nat, q);
    let cv = compress_seq(v, p.dv as nat, q);
    lemma_decrypt_noise_len(p, seed, coins, m);
    assert(cv.len() == n);
    assert forall|j: int| 0 <= j < cu.len() implies 0 <= #[trigger] cu[j] && cu[j] < pow2(p.du as nat) by {
        lemma_compress_fits(u[j / n][j % n] as int, p.du as nat, q);
    }
    assert(fits_bits(cu, p.du as nat));
    lemma_byte_encode_decode_roundtrip(ub, cu, p.du as nat);
    assert(cu.len() == k * n);
    assert forall|j: int| 0 <= j < cv.len() implies 0 <= #[trigger] cv[j] && cv[j] < pow2(p.dv as nat) by {
        lemma_compress_fits(v[j] as int, p.dv as nat, q);
    }
    lemma_byte_encode_decode_roundtrip(vb, cv, p.dv as nat);
    let du_rows = decrypt_u(p, ub);
    assert forall|j: int| 0 <= j < k implies ints32(#[trigger] du_rows[j]) == recomp(u[j], p.du as nat, q) by {
        lemma_u_row(p, seed, coins, j);
        assert forall|i: int| 0 <= i < n implies ints32(du_rows[j])[i] == recomp(u[j], p.du as nat, q)[i] by {
            let idx = j * n + i;
            assert(0 <= idx < k * n) by (nonlinear_arith)
                requires
                    idx == j * n + i,
                    0 <= j < k,
                    0 <= i < n,
            ;
            vstd::arithmetic::div_mod::lemma_fundamental_div_mod_converse(idx, n, j, i);
            lemma_compress_fits(u[j][i] as int, p.du as nat, q);
            lemma_decompress_range(compress_spec(u[j][i] as int, p.du as nat, q), p.du as nat, q);
            assert(decode_fields(ub, p.du as nat, (p.k * p.n) as nat)[idx] == cu[idx]);
        }
        assert(ints32(du_rows[j]) =~= recomp(u[j], p.du as nat, q));
    }
    let dvs = decrypt_v(p, vb);
    assert forall|i: int| 0 <= i < n implies ints32(dvs)[i] == recomp(v, p.dv as nat, q)[i] by {
        lemma_compress_fits(v[i] as int, p.dv as nat, q);
        lemma_decompress_range(compress_spec(v[i] as int, p.dv as nat, q), p.dv as nat, q);
        assert(decode_fields(vb, p.dv as nat, p.n as nat)[i] == cv[i]);
    }
    assert(v.len() == n) by {
        lemma_decrypt_noise_len(p, seed, coins, m);
    }
    assert(ints32(dvs) =~= recomp(v, p.dv as nat, q));
}

proof fn lemma_decrypt_noise_len(p: GenericCustomKemParams, seed: Seq<u8>, coins: Seq<u8>, m: Seq<u8>)
    requires
        kem_params_ok(p),
        keygen_ok(p, seed),
        encrypt_ok(p, derived_seed(seed, 0), coins),
    ensures
        encrypt_v(p, keygen_t(p, seed), m, coins).len() == p.n,
{
    let n = p.n as nat;
    let k = p.k as nat;
    let q = p.q as int;
    let t = keygen_t(p, seed);
    let rv = enc_r(p, coins);
    lemma_shapes(p, seed, coins);
    lemma_t_dot_r(p, seed, coins);
    assert(min_len(t.len() as int, k as int) == k);
    let trd = dot_rows(t, rv, k, n as int, q);
    lemma_add_mod_view(trd, enc_e2(p, coins), q);
    lemma_add_mod_view(add_mod(trd, enc_e2(p, coins), q), msg_poly(m, n as int, q), q);
}

/// `x` is within about a quarter of q of a multiple of q: its residue `r` has
/// `4 r + 2 <= q` or `4 (q - r) + 1 <= q`, the widest band in which rounding to one bit
/// recovers either message bit.
pub open spec fn small_noise(x: int, q: int) -> bool {
    let r = x % q;
    4 * r + 2 <= q || 4 * (q - r) + 1 <= q
}

/// Rounding to one bit recovers `b` from `Decompress_1(b)` plus small noise.
pub(crate) proof fn lemma_round_bit(x: int, b: int, nz: int, q: int)
    requires
        q >= 5,
        q % 2 == 1,
        0 <= x < q,
        b == 0 || b == 1,
        x % q == (decompress_spec(b, 1, q) + nz) % q,
        small_noise(nz, q),
    ensures
        compress_spec(x, 1, q) == b,
{
    vstd::arithmetic::power2::lemma2_to64();
    let h = q / 2;
    vstd::arithmetic::div_mod::lemma_fundamental_div_mod(q, 2);
    assert(q == 2 * h + 1);
    let d = if b == 0 { 0 } else { h + 1 };
    assert(decompress_spec(b, 1, q) == d) by {
        assert(pow2(0) == 1 && pow2(1) == 2);
        if b == 0 {
            assert((b * q + 1) / 2 == 0);
            vstd::arithmetic::div_mod::lemma_small_mod(0, q as nat);
        } else {
            assert(b * q + 1 == 2 * (h + 1));
            assert((b * q + 1) / 2 == h + 1);
            vstd::arithmetic::div_mod::lemma_small_mod((h + 1) as nat, q as nat);
        }
    }
    let r = nz % q;
    vstd::arithmetic::div_mod::lemma_mod_bound(nz, q);
    vstd::arithmetic::div_mod::lemma_add_mod_noop(d, nz, q);
    vstd::arithmetic::div_mod::lemma_small_mod(d as nat, q as nat);
    vstd::arithmetic::div_mod::lemma_small_mod(x as nat, q as nat);
    // x is (d + r) reduced once
    let xx = if d + r < q { d + r } else { d + r - q };
    assert(x == xx) by {
        if d + r < q {
            vstd::arithmetic::div_mod::lemma_small_mod((d + r) as nat, q as nat);
        } else {
            vstd::arithmetic::div_mod::lemma_fundamental_div_mod_converse(d + r, q, 1, d + r - q);
        }
    }
    let y = x * 2 + h;
    assert(compress_spec(x, 1, q) == (y / q) % 2);
    let j: int = if b == 0 {
        if 4 * r + 2 <= q { 0 } else { 2 }
    } else {
        1
    };
    assert(0 <= y - j * q < q);
    vstd::arithmetic::div_mod::lemma_fundamental_div_mod_converse(y, q, j, y - j * q);
    assert(y / q == j);
}

proof fn lemma_byte_from_bits(x: u8, y: u8)
    by (bit_vector)
    requires
        (x >> 0u8) & 1u8 == (y >> 0u8) & 1u8,
        (x >> 1u8) & 1u8 == (y >> 1u8) & 1u8,
        (x >> 2u8) & 1u8 == (y >> 2u8) & 1u8,
        (x >> 3u8) & 1u8 == (y >> 3u8) & 1u8,
        (x >> 4u8) & 1u8 == (y >> 4u8) & 1u8,
        (x >> 5u8) & 1u8 == (y >> 5u8) & 1u8,
        (x >> 6u8) & 1u8 == (y >> 6u8) & 1u8,
        (x >> 7u8) & 1u8 == (y >> 7u8) & 1u8,
    ensures
        x == y,
{
}

proof fn lemma_bit01(x: u8, t: u8)
    by (bit_vector)
    requires
        t < 8,
    ensures
        (x >> t) & 1u8 == 0u8 || (x >> t) & 1u8 == 1u8,
{
}

proof fn lemma_bit_at(a: Seq<u8>, b: Seq<u8>, j: int, t: u8)
    requires
        a.len() == b.len(),
        0 <= j < a.len(),
        t < 8,
        forall|i: int| 0 <= i < 8 * a.len() ==> #[trigger] stream_bit(a, i) == stream_bit(b, i),
    ensures
        (a[j] >> t) & 1u8 == (b[j] >> t) & 1u8,
{
    let i = 8 * j + t;
    vstd::arithmetic::div_mod::lemma_fundamental_div_mod_converse(i, 8, j, t as int);
    assert(stream_bit(a, i) == stream_bit(b, i));
    lemma_bit01(a[j], t);
    lemma_bit01(b[j], t);
}

/// Byte strings with the same bits are equal.
pub(crate) proof fn lemma_bytes_from_bits(a: Seq<u8>, b: Seq<u8>)
    requires
        a.len() == b.len(),
        forall|i: int| 0 <= i < 8 * a.len() ==> #[trigger] stream_bit(a, i) == stream_bit(b, i),
    ensures
        a == b,
{
    assert forall|j: int| 0 <= j < a.len() implies a[j] == b[j] by {
        lemma_bit_at(a, b, j, 0);
        lemma_bit_at(a, b, j, 1);
        lemma_bit_at(a, b, j, 2);
        lemma_bit_at(a, b, j, 3);
        lemma_bit_at(a, b, j, 4);
        lemma_bit_at(a, b, j, 5);
        lemma_bit_at(a, b, j, 6);
        lemma_bit_at(a, b, j, 7);
        lemma_byte_from_bits(a[j], b[j]);
    }
    assert(a =~= b);
}

pub(crate) proof fn lemma_word_bit01(b: i32)
    requires
        b == 0 || b == 1,
    ensures
        word_bit(b as u32, 0) == (b == 1),
{
    assert((0u32 >> 0u32) & 1u32 == 0u32) by (bit_vector);
    assert((1u32 >> 0u32) & 1u32 == 1u32) by (bit_vector);
}

/// A usable degree is a multiple of 8.
proof fn lemma_degree_bytes(p: GenericCustomKemParams)
    requires
        kem_params_ok(p),
    ensures
        p.n % 8 == 0,
        crate::custom_kem::msg_len(p) * 8 == p.n,
        bytes_for_bits(p.n as int) == crate::custom_kem::msg_len(p),
{
    lemma_kem_ring_table(p);
    let k = kem_log_n(p);
    vstd::arithmetic::power2::lemma2_to64();
    if k < 5 {
        vstd::arithmetic::power2::lemma_pow2_strictly_increases(k, 5);
    }
    vstd::arithmetic::power2::lemma_pow2_adds(3, (k - 3) as nat);
    vstd::arithmetic::div_mod::lemma_mod_multiples_basic(pow2((k - 3) as nat) as int, 8);
    assert(8 * pow2((k - 3) as nat) == pow2((k - 3) as nat) * 8) by (nonlinear_arith);
}

/// When every coefficient of the noise is small, rounding `mu = Decompress_1(m) + noise` bit by
/// bit and packing the bits gives back `m`.
proof fn lemma_message_recovered(
    p: GenericCustomKemParams,
    m: Seq<u8>,
    mu: Seq<i32>,
    nz: Seq<int>,
    m2: Seq<u8>,
)
    requires
        kem_params_ok(p),
        m.len() == crate::custom_kem::msg_len(p),
        mu.len() == p.n,
        reduced(ints32(mu), p.q as int),
        eqm(ints32(mu), lin(1, ints32(msg_poly(m, p.n as int, p.q as int)), 1, nz), p.q as int),
        forall|c: int| 0 <= c < p.n ==> small_noise(#[trigger] nz[c], p.q as int),
        is_packing_of(m2, compress_seq(mu, 1, p.q as int), 1),
    ensures
        m2 == m,
{
    let n = p.n as int;
    let q = p.q as int;
    lemma_degree_bytes(p);
    lemma_widths(p);
    assert(q % 2 == 1) by {
        assert(crate::dsa_params::is_prime_spec(q));
        assert(q % 2 != 0);
    }
    vstd::arithmetic::power2::lemma2_to64();
    let fields = decode_fields(m, 1, n as nat);
    let cs = compress_seq(mu, 1, q);
    assert forall|c: int| 0 <= c < n implies #[trigger] cs[c] == fields[c] && (fields[c] == 0 || fields[c] == 1)
        && (fields[c] == 1 <==> stream_bit(m, c)) by {
        assert(stream_value(m, c * 1, 1) == stream_value(m, c, 0) + if stream_bit(m, c) { pow2(0) } else { 0 });
        assert(fields[c] == decoded_field(m, 1, c));
        let b = fields[c] as int;
        assert(b == 0 || b == 1);
        let dm = decompress_spec(b, 1, q);
        assert(ints32(msg_poly(m, n, q))[c] == dm) by {
            vstd::arithmetic::div_mod::lemma_mod_bound((b * q + pow2(0)) / (pow2(1) as int), q);
        }
        assert(ints32(mu)[c] % q == lin(1, ints32(msg_poly(m, n, q)), 1, nz)[c] % q);
        lemma_round_bit(mu[c] as int, b, nz[c], q);
    }
    assert forall|i: int| 0 <= i < 8 * m.len() implies #[trigger] stream_bit(m2, i) == stream_bit(m, i) by {
        assert(stream_bit(m2, i) == coeff_stream_bit(cs, 1, i));
        assert(i / 1 == i && i % 1 == 0);
        lemma_word_bit01(cs[i]);
    }
    lemma_bytes_from_bits(m2, m);
}

/// Law (round trip of the custom KEM): for a key pair generated from `seed`, an encapsulation
/// of the message `m` with `coins` to its public key, and a decapsulation of that ciphertext
/// with its secret key, the decapsulated message is `m` and the two shared secrets agree,
/// whenever every coefficient of `kem_noise` is small. (Where the noise reaches a quarter of q
/// decryption may flip a message bit; that is the KEM's decryption failure.)
pub proof fn lemma_kem_roundtrip(
    p: GenericCustomKemParams,
    seed: Seq<u8>,
    kp: crate::custom_kem::KeyPair,
    m: Seq<u8>,
    coins: Seq<u8>,
    ct: Seq<u8>,
    ss: Seq<u8>,
    m2: Seq<u8>,
    ss2: Seq<u8>,
)
    requires
        kem_params_ok(p),
        keygen_ok(p, seed),
        crate::custom_kem::keypair_from_seed(kp, p, seed),
        m.len() == crate::custom_kem::msg_len(p),
        encrypt_ok(p, kp.pk_bytes@.subrange(0, 32), coins),
        crate::custom_kem::encapsulation_from(
            ct,
            ss,
            p,
            kp.pk_bytes@.subrange(0, 32),
            crate::custom_kem::pk_t(p, kp.pk_bytes@),
            m,
            coins,
        ),
        crate::custom_kem::decapsulated(p, crate::custom_kem::sk_s(p, kp.sk_bytes@), ct, m2),
        ss2 == crate::custom_kem::kdf_spec(m2, ct),
        forall|c: int| 0 <= c < p.n ==> small_noise(#[trigger] kem_noise(p, seed, coins, m)[c], p.q as int),
    ensures
        m2 == m,
        ss2 == ss,
{
    let n = p.n as int;
    let k = p.k as int;
    let q = p.q as int;
    let rho = derived_seed(seed, 0);
    let t = keygen_t(p, seed);
    let sv = kg_s(p, seed);
    lemma_widths(p);
    lemma_shapes(p, seed, coins);
    // the public key decodes to (rho, t) and the secret key to s
    assert forall|i: int| 0 <= i < k implies (#[trigger] t[i]).len() == n by {
        lemma_t_row(p, seed, coins, i);
    }
    assert forall|a: int, i: int| 0 <= a < t.len() && 0 <= i < p.n implies 0 <= #[trigger] t[a][i] < p.q by {
        let d = dot_rows(matrix_row(rho, a, p), sv, k as nat, n, q);
        lemma_dot_rows_view(p, matrix_row(rho, a, p), sv, k as nat);
        lemma_add_mod_view(d, kg_e(p, seed)[a], q);
        assert(ints32(t[a])[i] == t[a][i]);
    }
    crate::custom_kem_encode::lemma_kem_pk_roundtrip(kp.pk_bytes@, rho, t, p);
    assert(crate::custom_kem::pk_t(p, kp.pk_bytes@) == t);
    let sigma = derived_seed(seed, 1);
    assert(crate::custom_kem_pke::noise_ok(sigma, 0, k, p.eta1, p)) by {
        assert forall|i: int| 0 <= i < k implies #[trigger] noise(sigma, 0 + i, p.eta1, p) is Some by {
            assert(noise(sigma, 0 + i, p.eta1, p) is Some);
        }
    }
    lemma_noise_bound(sigma, 0, k, p.eta1, p);
    crate::custom_kem_encode::lemma_kem_sk_roundtrip(kp.sk_bytes@, sv, p);
    assert(crate::custom_kem::sk_s(p, kp.sk_bytes@) == sv);
    // the ciphertext decodes to u and v compressed and decompressed
    let cu = ct.subrange(0, crate::custom_kem::u_len(p));
    let cv = ct.subrange(crate::custom_kem::u_len(p), ct.len() as int);
    lemma_ct_parts(p, seed, coins, m, ct);
    let ur = decrypt_u(p, cu);
    let vr = decrypt_v(p, cv);
    lemma_decrypt_noise(p, seed, coins, m, ur, vr);
    assert(min_len(sv.len() as int, k) == k);
    let mu = crate::custom_kem_pke::decrypt_mu(p, sv, cu, cv);
    assert(mu == sub_mod(vr, dot_rows(sv, ur, k as nat, n, q), q));
    lemma_s_dot_u(p, seed, coins, ur);
    assert(vr.len() == n) by {
        lemma_decrypt_noise_len(p, seed, coins, m);
        assert(ints32(vr).len() == recomp(encrypt_v(p, t, m, coins), p.dv as nat, q).len());
    }
    lemma_sub_mod_view(vr, dot_rows(sv, ur, k as nat, n, q), q);
    lemma_message_recovered(p, m, mu, kem_noise(p, seed, coins, m), m2);
}


/// The parameter set's twiddle table squares as the evaluation blocks of the transform need.
proof fn lemma_kem_squares(p: GenericCustomKemParams)
    requires
        kem_params_ok(p),
    ensures
        squares_ok(spec_zetas(p.n as int, p.q as int), kem_log_n(p), p.q as int),
        pow2(kem_log_n(p)) == p.n,
        kem_log_n(p) >= 1,
{
    lemma_kem_ring_table(p);
    let n = p.n as int;
    let q = p.q as int;
    let k = kem_log_n(p);
    if k == 0 {
        vstd::arithmetic::power2::lemma2_to64();
    }
    lemma_first_root(q, n, ROOT_SEARCH_LIMIT as int);
    let h = first_root_base(q, n);
    let zeta = root_candidate(h, q, n);
    let zs = spec_zetas(n, q);
    assert forall|i: int| 0 <= i < pow2(k) implies #[trigger] zs[i] == pow(zeta, crate::custom_kem_ntt::bit_rev(i as nat, k)) % q by {
        vstd::arithmetic::div_mod::lemma_mod_bound(pow(zeta, crate::custom_kem_ntt::bit_rev(i as nat, k)), q);
    }
    lemma_root_table_squares(zs, zeta, q, k);
}

/// Law: the transform's product for a usable parameter set is the schoolbook product in
/// `Z[x]/(x^n + 1)`, reduced mod q.
pub proof fn lemma_kem_mul_is_schoolbook(p: GenericCustomKemParams, a: Seq<int>, b: Seq<int>)
    requires
        kem_params_ok(p),
        a.len() == p.n,
        b.len() == p.n,
    ensures
        forall|i: int| 0 <= i < p.n ==> #[trigger] ring_mul(a, b, p.n as int, p.q as int)[i] == gnci(a, b, p.n as int)[i] % (p.q as int),
{
    lemma_kem_ring_table(p);
    lemma_kem_squares(p);
    let n = p.n as int;
    let q = p.q as int;
    let k = kem_log_n(p);
    let zs = spec_zetas(n, q);
    let zi = spec_zetas_inv(n, q);
    let ni = spec_n_inv(n, q);
    let c = gnci(a, b, n);
    let r = rm(p, a, b);
    assert(ring_mul(a, b, n, q) == r);
    lemma_rmul_reduced(a, b, zs, zi, ni, q, k);
    lemma_ntt_of_rmul(a, b, zs, zi, ni, q, k);
    lemma_ntt_evaluates(a, zs, q, k);
    lemma_ntt_evaluates(b, zs, q, k);
    lemma_ntt_evaluates(c, zs, q, k);
    lemma_ntt_reduced(c, zs, q, k);
    lemma_ntt_reduced(r, zs, q, k);
    let nc = ntt_spec(c, zs, q);
    let nr = ntt_spec(r, zs, q);
    assert forall|i: int| 0 <= i < n implies #[trigger] nc[i] % q == nr[i] % q by {
        let pt = cst(zs, k, -1, i);
        vstd::arithmetic::power::lemma_pow1(pt);
        vstd::arithmetic::power2::lemma2_to64();
        lemma_point_root(zs, k, q, -1, i, pt);
        lemma_gpeval_nci(a, b, n, pt, q);
        let pa = peval(a, 0, n, pt);
        let pb = peval(b, 0, n, pt);
        let na = ntt_spec(a, zs, q)[i];
        let nb = ntt_spec(b, zs, q)[i];
        lemma_cong_mul(pa, na, pb, nb, q);
        vstd::arithmetic::div_mod::lemma_mod_twice(na * nb, q);
    }
    assert(eqm(nc, nr, q));
    lemma_inv_ntt_cong(nc, nr, zi, ni, q, k);
    crate::ntt_laws::lemma_inv_ntt_of_ntt(c, zs, zi, ni, q, k);
    crate::ntt_laws::lemma_inv_ntt_of_ntt(r, zs, zi, ni, q, k);
    assert forall|i: int| 0 <= i < n implies #[trigger] ring_mul(a, b, n, q)[i] == gnci(a, b, n)[i] % q by {
        let f = n * ni;
        assert(f % q == 1);
        vstd::arithmetic::div_mod::lemma_mul_mod_noop_right(c[i], f, q);
        vstd::arithmetic::div_mod::lemma_mul_mod_noop_right(r[i], f, q);
        assert(c[i] * n * ni == c[i] * f) by (nonlinear_arith)
            requires
                f == n * ni,
        ;
        assert(r[i] * n * ni == r[i] * f) by (nonlinear_arith)
            requires
                f == n * ni,
        ;
        vstd::arithmetic::div_mod::lemma_small_mod(r[i] as nat, q as nat);
    }
}

} // verus!
