//! The fixed-degree KEM's round trip: decryption recovers the message whenever the noise that
//! encryption leaves on top of it (centred mod q) stays below a quarter of q.
use crate::conv_laws::{lemma_negacyclic_is_nci, lemma_nmul_assoc, lemma_nmul_basics, lemma_nmul_comm, lemma_nmul_cong, lemma_nmul_lin, lemma_nmul_ssum, nci, nmul};
use crate::custom_kem_ntt::ints32;
use crate::custom_kem_pke::derived_seed;
use crate::encode::is_packing_of;
use crate::kem_laws::{lemma_combine, lemma_bytes_from_bits, lemma_compress_fits, lemma_decompress_range, lemma_round_bit, lemma_word_bit01, recomp, small_noise};
use crate::params::{kem_knobs_ok, GenericKemParams, Q};
use crate::pke::{
    coeff_rows, decrypt_mu_coeff, decrypt_u_rows, encrypt_u_coeff, encrypt_u_flat, encrypt_v_coeff, encrypt_v_comp, entry,
    keygen_t_coeff, matrix_col, matrix_ok, matrix_row, msg_coeff, noise_row, noise_rows, seq_dot_sum,
};
use crate::poly::N;
use crate::ring_laws::{
    eqm, lemma_cong_add, lemma_cong_sub, lemma_eqm_sym, lemma_eqm_trans, lemma_lin_cong, lemma_ssum_add, lemma_ssum_cong,
    lemma_ssum_ext, lemma_ssum_len, lemma_ssum_swap, lin, reduced, ssum, vzero,
};
use vstd::prelude::*;

verus! {

/// The dot product's coefficient `c` is coefficient `c` of the sum of the products.
proof fn lemma_seq_dot_sum_nci(a: Seq<Seq<i32>>, b: Seq<Seq<i32>>, m: int, c: int)
    requires
        0 <= m,
        m <= a.len(),
        m <= b.len(),
        forall|j: int| 0 <= j < m ==> (#[trigger] a[j]).len() == N && b[j].len() == N,
        0 <= c < N,
    ensures
        seq_dot_sum(a, b, m, c) == ssum(|j: int| nci(ints32(a[j]), ints32(b[j])), m as nat, N as nat)[c],
    decreases m,
{
    let f = |j: int| nci(ints32(a[j]), ints32(b[j]));
    lemma_ssum_len(f, m as nat, N as nat);
    if m > 0 {
        lemma_seq_dot_sum_nci(a, b, m - 1, c);
        lemma_ssum_len(f, (m - 1) as nat, N as nat);
        let j = m - 1;
        assert(ssum(f, m as nat, N as nat) == lin(1, ssum(f, (m - 1) as nat, N as nat), 1, f(j)));
        lemma_negacyclic_is_nci(a[j], b[j], c);
        assert(Seq::new(N as nat, |i: int| a[j][i] as int) =~= ints32(a[j]));
        assert(Seq::new(N as nat, |i: int| b[j][i] as int) =~= ints32(b[j]));
    }
}

/// Matrix entry `(i, j)` sampled from `rho`, as integers.
pub open spec fn g_mat(rho: Seq<u8>, i: int, j: int) -> Seq<int> {
    ints32(entry(rho, i, j).unwrap())
}

/// Noise polynomial `nonce`, as integers.
pub open spec fn g_noise(seed: Seq<u8>, nonce: int, eta: u32) -> Seq<int> {
    ints32(noise_row(seed, nonce, eta))
}

/// Row `i` of `t = A s + e`, as integers.
pub open spec fn g_t(p: GenericKemParams, seed: Seq<u8>, i: int) -> Seq<int> {
    Seq::new(N as nat, |c: int| keygen_t_coeff(p, seed, i, c))
}

/// Row `i` of `u = A^T r + e1`, as integers.
pub open spec fn g_u(p: GenericKemParams, rho: Seq<u8>, coins: Seq<u8>, i: int) -> Seq<int> {
    Seq::new(N as nat, |c: int| encrypt_u_coeff(p, rho, coins, i, c))
}

/// `v = t . r + e2 + mu`, as integers.
pub open spec fn g_v(p: GenericKemParams, t: Seq<Seq<i32>>, m: Seq<u8>, coins: Seq<u8>) -> Seq<int> {
    Seq::new(N as nat, |c: int| encrypt_v_coeff(p, t, m, coins, c))
}

/// `x` compressed to `d` bits and decompressed again, for integer entries.
pub open spec fn recomp_int(x: Seq<int>, d: nat) -> Seq<int> {
    Seq::new(x.len(), |c: int| crate::encode::decompress_spec(crate::encode::compress_spec(x[c], d, Q as int), d, Q as int))
}

/// The noise that decryption finds on top of the message polynomial:
/// `(v' - v) + e.r + e2 - s.e1 - s.(u' - u)`, where `u'` and `v'` are `u` and `v` after
/// compression and decompression, and products are in Z_q[x]/(x^N + 1).
#[verifier::opaque]
pub open spec fn pke_noise(p: GenericKemParams, seed: Seq<u8>, t: Seq<Seq<i32>>, coins: Seq<u8>, m: Seq<u8>) -> Seq<int> {
    let n = N as nat;
    let k = p.k as nat;
    let q = Q as int;
    let sigma = derived_seed(seed, 1);
    let rho = derived_seed(seed, 0);
    let v = g_v(p, t, m, coins);
    let dv = lin(1, recomp_int(v, p.dv as nat), -1, v);
    let er = ssum(|i: int| nmul(g_noise(sigma, p.k + i, p.eta1), g_noise(coins, i, p.eta1), q), k, n);
    let se1 = ssum(|j: int| nmul(g_noise(sigma, j, p.eta1), g_noise(coins, p.k + j, p.eta2), q), k, n);
    let sdu = ssum(
        |j: int|
            nmul(
                g_noise(sigma, j, p.eta1),
                lin(1, recomp_int(g_u(p, rho, coins, j), p.du as nat), -1, g_u(p, rho, coins, j)),
                q,
            ),
        k,
        n,
    );
    lin(1, lin(1, lin(1, dv, 1, er), 1, g_noise(coins, 2 * p.k, p.eta2)), -1, lin(1, se1, 1, sdu))
}

/// Matrix entries sampled from `rho` have `N` coefficients.
proof fn lemma_g_mat_len(p: GenericKemParams, rho: Seq<u8>)
    requires
        matrix_ok(rho, p.k as int),
    ensures
        forall|i: int, j: int| 0 <= i < p.k && 0 <= j < p.k ==> (#[trigger] g_mat(rho, i, j)).len() == N,
        forall|i: int, j: int| 0 <= i < p.k && 0 <= j < p.k ==> (#[trigger] entry(rho, i, j)).unwrap().len() == N,
{
    assert forall|i: int, j: int| 0 <= i < p.k && 0 <= j < p.k implies (#[trigger] entry(rho, i, j)).unwrap().len() == N by {
        crate::pke::lemma_uniform12_reduced(crate::sample::seed_ij(rho, i as u8, j as u8), 0, N as nat);
        assert(entry(rho, i, j) is Some);
    }
    assert forall|i: int, j: int| 0 <= i < p.k && 0 <= j < p.k implies (#[trigger] g_mat(rho, i, j)).len() == N by {
        assert(entry(rho, i, j).unwrap().len() == N);
    }
}

/// `(d % q + e) % q = d + e (mod q)` for a coefficient of `ssum(nci)` and its reduced twin.
proof fn lemma_row_coeff(sd: int, sdm: int, e: int, x: int, q: int)
    requires
        q > 0,
        sd % q == sdm % q,
        x == (sd % q + e) % q,
    ensures
        x % q == (1 * sdm + 1 * e) % q,
{
    vstd::arithmetic::div_mod::lemma_mod_twice(sd, q);
    vstd::arithmetic::div_mod::lemma_mod_twice(sd % q + e, q);
    lemma_cong_add(sd % q, sdm, e, e, q);
}

/// A sum of unreduced products agrees mod q with the sum of reduced products.
proof fn lemma_ssum_nci_nmul(f: spec_fn(int) -> Seq<int>, g: spec_fn(int) -> Seq<int>, m: nat)
    requires
        forall|j: int| 0 <= j < m ==> (#[trigger] f(j)).len() == N && g(j).len() == N,
    ensures
        eqm(
            ssum(|j: int| nci(f(j), g(j)), m, N as nat),
            ssum(|j: int| nmul(f(j), g(j), Q as int), m, N as nat),
            Q as int,
        ),
{
    let q = Q as int;
    let fa = |j: int| nci(f(j), g(j));
    let fb = |j: int| nmul(f(j), g(j), q);
    assert forall|j: int| 0 <= j < m implies eqm(#[trigger] fa(j), fb(j), q) && fa(j).len() == N by {
        lemma_nmul_basics(f(j), g(j), q);
        lemma_eqm_sym(nmul(f(j), g(j), q), nci(f(j), g(j)), q);
    }
    lemma_ssum_cong(fa, fb, m, N as nat, q);
}

/// Row `i` of `t = A s + e` is `sum_j A_ij s_j + e_i`, mod q.
proof fn lemma_g_t_row(p: GenericKemParams, seed: Seq<u8>, i: int)
    requires
        kem_knobs_ok(p),
        matrix_ok(derived_seed(seed, 0), p.k as int),
        0 <= i < p.k,
    ensures
        eqm(
            g_t(p, seed, i),
            lin(
                1,
                ssum(|j: int| nmul(g_mat(derived_seed(seed, 0), i, j), g_noise(derived_seed(seed, 1), j, p.eta1), Q as int), p.k as nat, N as nat),
                1,
                g_noise(derived_seed(seed, 1), p.k + i, p.eta1),
            ),
            Q as int,
        ),
{
    let rho = derived_seed(seed, 0);
    let sigma = derived_seed(seed, 1);
    let k = p.k as nat;
    let q = Q as int;
    lemma_g_mat_len(p, rho);
    let row = matrix_row(rho, i, p.k as int);
    let srows = noise_rows(sigma, 0, p.k as int, p.eta1);
    let fa = |j: int| g_mat(rho, i, j);
    let fs = |j: int| g_noise(sigma, j, p.eta1);
    lemma_ssum_nci_nmul(fa, fs, k);
    let sn = ssum(|j: int| nci(fa(j), fs(j)), k, N as nat);
    let sm = ssum(|j: int| nmul(fa(j), fs(j), q), k, N as nat);
    lemma_ssum_ext(|j: int| nmul(fa(j), fs(j), q), |j: int| nmul(g_mat(rho, i, j), g_noise(sigma, j, p.eta1), q), k, N as nat);
    lemma_ssum_len(|j: int| nci(fa(j), fs(j)), k, N as nat);
    lemma_ssum_len(|j: int| nmul(fa(j), fs(j), q), k, N as nat);
    let e = g_noise(sigma, p.k + i, p.eta1);
    assert forall|c: int| 0 <= c < N implies #[trigger] g_t(p, seed, i)[c] % q == lin(1, sm, 1, e)[c] % q by {
        lemma_seq_dot_sum_nci(row, srows, p.k as int, c);
        lemma_ssum_ext(
            |j: int| nci(ints32(row[j]), ints32(srows[j])),
            |j: int| nci(fa(j), fs(j)),
            k,
            N as nat,
        );
        assert(sn[c] % q == sm[c] % q);
        lemma_row_coeff(sn[c], sm[c], e[c], g_t(p, seed, i)[c], q);
    }
}

/// Row `j` of `u = A^T r + e1` is `sum_i A_ij r_i + e1_j`, mod q.
proof fn lemma_g_u_row(p: GenericKemParams, rho: Seq<u8>, coins: Seq<u8>, j: int)
    requires
        kem_knobs_ok(p),
        matrix_ok(rho, p.k as int),
        0 <= j < p.k,
    ensures
        eqm(
            g_u(p, rho, coins, j),
            lin(
                1,
                ssum(|i: int| nmul(g_mat(rho, i, j), g_noise(coins, i, p.eta1), Q as int), p.k as nat, N as nat),
                1,
                g_noise(coins, p.k + j, p.eta2),
            ),
            Q as int,
        ),
{
    let k = p.k as nat;
    let q = Q as int;
    lemma_g_mat_len(p, rho);
    let col = matrix_col(rho, j, p.k as int);
    let rrows = noise_rows(coins, 0, p.k as int, p.eta1);
    let fa = |i: int| g_mat(rho, i, j);
    let fr = |i: int| g_noise(coins, i, p.eta1);
    lemma_ssum_nci_nmul(fa, fr, k);
    let sn = ssum(|i: int| nci(fa(i), fr(i)), k, N as nat);
    let sm = ssum(|i: int| nmul(fa(i), fr(i), q), k, N as nat);
    lemma_ssum_ext(|i: int| nmul(fa(i), fr(i), q), |i: int| nmul(g_mat(rho, i, j), g_noise(coins, i, p.eta1), q), k, N as nat);
    lemma_ssum_len(|i: int| nci(fa(i), fr(i)), k, N as nat);
    lemma_ssum_len(|i: int| nmul(fa(i), fr(i), q), k, N as nat);
    let e = g_noise(coins, p.k + j, p.eta2);
    assert forall|c: int| 0 <= c < N implies #[trigger] g_u(p, rho, coins, j)[c] % q == lin(1, sm, 1, e)[c] % q by {
        lemma_seq_dot_sum_nci(col, rrows, p.k as int, c);
        lemma_ssum_ext(
            |i: int| nci(ints32(col[i]), ints32(rrows[i])),
            |i: int| nci(fa(i), fr(i)),
            k,
            N as nat,
        );
        assert(sn[c] % q == sm[c] % q);
        lemma_row_coeff(sn[c], sm[c], e[c], g_u(p, rho, coins, j)[c], q);
    }
}

/// The cross term `r_i (A_ij s_j)`.
pub open spec fn g_cross(p: GenericKemParams, seed: Seq<u8>, coins: Seq<u8>, i: int, j: int) -> Seq<int> {
    nmul(
        g_noise(coins, i, p.eta1),
        nmul(g_mat(derived_seed(seed, 0), i, j), g_noise(derived_seed(seed, 1), j, p.eta1), Q as int),
        Q as int,
    )
}

/// The cross term `s_j (A_ij r_i)`.
pub open spec fn g_cross_t(p: GenericKemParams, seed: Seq<u8>, coins: Seq<u8>, i: int, j: int) -> Seq<int> {
    nmul(
        g_noise(derived_seed(seed, 1), j, p.eta1),
        nmul(g_mat(derived_seed(seed, 0), i, j), g_noise(coins, i, p.eta1), Q as int),
        Q as int,
    )
}

/// `e . r`.
pub open spec fn g_er(p: GenericKemParams, seed: Seq<u8>, coins: Seq<u8>) -> Seq<int> {
    ssum(|i: int| nmul(g_noise(derived_seed(seed, 1), p.k + i, p.eta1), g_noise(coins, i, p.eta1), Q as int), p.k as nat, N as nat)
}

/// `t . r = sum_i sum_j r_i (A_ij s_j) + e . r`, mod q.
proof fn lemma_g_t_dot_r(p: GenericKemParams, seed: Seq<u8>, coins: Seq<u8>)
    requires
        kem_knobs_ok(p),
        matrix_ok(derived_seed(seed, 0), p.k as int),
    ensures
        eqm(
            ssum(|i: int| nmul(g_t(p, seed, i), g_noise(coins, i, p.eta1), Q as int), p.k as nat, N as nat),
            lin(
                1,
                ssum(|i: int| ssum(|j: int| g_cross(p, seed, coins, i, j), p.k as nat, N as nat), p.k as nat, N as nat),
                1,
                g_er(p, seed, coins),
            ),
            Q as int,
        ),
{
    let n = N as nat;
    let k = p.k as nat;
    let q = Q as int;
    let rho = derived_seed(seed, 0);
    let sigma = derived_seed(seed, 1);
    lemma_g_mat_len(p, rho);
    let term = |i: int| nmul(g_t(p, seed, i), g_noise(coins, i, p.eta1), q);
    let rows = |i: int| ssum(|j: int| g_cross(p, seed, coins, i, j), k, n);
    let ers = |i: int| nmul(g_noise(sigma, p.k + i, p.eta1), g_noise(coins, i, p.eta1), q);
    let goal = |i: int| lin(1, rows(i), 1, ers(i));
    assert forall|i: int| 0 <= i < k implies eqm(#[trigger] term(i), goal(i), q) && term(i).len() == n by {
        lemma_g_t_row(p, seed, i);
        let f = |j: int| nmul(g_mat(rho, i, j), g_noise(sigma, j, p.eta1), q);
        let si = ssum(f, k, n);
        lemma_ssum_len(f, k, n);
        let ei = g_noise(sigma, p.k + i, p.eta1);
        let li = lin(1, si, 1, ei);
        let ri = g_noise(coins, i, p.eta1);
        lemma_nmul_basics(g_t(p, seed, i), ri, q);
        lemma_nmul_cong(li, g_t(p, seed, i), ri, q);
        lemma_nmul_comm(li, ri, q);
        lemma_nmul_lin(ri, si, ei, 1, 1, q);
        assert forall|j: int| 0 <= j < k implies (#[trigger] f(j)).len() == n by {
            lemma_nmul_basics(g_mat(rho, i, j), g_noise(sigma, j, p.eta1), q);
        }
        lemma_nmul_ssum(ri, f, k, q);
        lemma_ssum_ext(|j: int| nmul(ri, f(j), q), |j: int| g_cross(p, seed, coins, i, j), k, n);
        lemma_nmul_comm(ri, ei, q);
        lemma_nmul_basics(ri, ei, q);
        lemma_nmul_basics(ri, si, q);
        let re = nmul(ri, ei, q);
        assert(eqm(re, re, q));
        lemma_ssum_len(|j: int| g_cross(p, seed, coins, i, j), k, n);
        lemma_lin_cong(nmul(ri, si, q), rows(i), re, re, 1, 1, q);
        lemma_eqm_trans(nmul(ri, li, q), lin(1, nmul(ri, si, q), 1, re), goal(i), q);
    }
    lemma_ssum_cong(term, goal, k, n, q);
    assert forall|i: int| 0 <= i < k implies (#[trigger] rows(i)).len() == n by {
        lemma_ssum_len(|j: int| g_cross(p, seed, coins, i, j), k, n);
    }
    lemma_ssum_add(rows, ers, k, n);
    lemma_ssum_ext(goal, |i: int| lin(1, rows(i), 1, ers(i)), k, n);
    lemma_ssum_ext(rows, |i: int| ssum(|j: int| g_cross(p, seed, coins, i, j), k, n), k, n);
    lemma_ssum_ext(term, |i: int| nmul(g_t(p, seed, i), g_noise(coins, i, p.eta1), q), k, n);
}

/// Column sum `sum_i s_j (A_ij r_i)`.
pub open spec fn g_cross_col(p: GenericKemParams, seed: Seq<u8>, coins: Seq<u8>, j: int) -> Seq<int> {
    ssum(|i: int| g_cross_t(p, seed, coins, i, j), p.k as nat, N as nat)
}

/// `u` after compression and decompression, minus `u`, row `j`.
pub open spec fn g_u_err(p: GenericKemParams, seed: Seq<u8>, coins: Seq<u8>, j: int) -> Seq<int> {
    let u = g_u(p, derived_seed(seed, 0), coins, j);
    lin(1, recomp_int(u, p.du as nat), -1, u)
}

/// `s_j e1_j + s_j (u'_j - u_j)`.
pub open spec fn g_s_term(p: GenericKemParams, seed: Seq<u8>, coins: Seq<u8>, j: int) -> Seq<int> {
    let sj = g_noise(derived_seed(seed, 1), j, p.eta1);
    lin(1, nmul(sj, g_noise(coins, p.k + j, p.eta2), Q as int), 1, nmul(sj, g_u_err(p, seed, coins, j), Q as int))
}

/// One term of `s . u'`.
proof fn lemma_g_s_dot_u_term(p: GenericKemParams, seed: Seq<u8>, coins: Seq<u8>, j: int)
    requires
        kem_knobs_ok(p),
        matrix_ok(derived_seed(seed, 0), p.k as int),
        0 <= j < p.k,
    ensures
        eqm(
            nmul(g_noise(derived_seed(seed, 1), j, p.eta1), recomp_int(g_u(p, derived_seed(seed, 0), coins, j), p.du as nat), Q as int),
            lin(1, g_cross_col(p, seed, coins, j), 1, g_s_term(p, seed, coins, j)),
            Q as int,
        ),
        g_cross_col(p, seed, coins, j).len() == N,
        g_s_term(p, seed, coins, j).len() == N,
{
    let n = N as nat;
    let k = p.k as nat;
    let q = Q as int;
    let rho = derived_seed(seed, 0);
    let sigma = derived_seed(seed, 1);
    lemma_g_mat_len(p, rho);
    lemma_g_u_row(p, rho, coins, j);
    let uj = g_u(p, rho, coins, j);
    let xj = recomp_int(uj, p.du as nat);
    let dj = g_u_err(p, seed, coins, j);
    let sj = g_noise(sigma, j, p.eta1);
    let e1 = g_noise(coins, p.k + j, p.eta2);
    assert(xj =~= lin(1, uj, 1, dj));
    lemma_nmul_lin(sj, uj, dj, 1, 1, q);
    let f = |i: int| nmul(g_mat(rho, i, j), g_noise(coins, i, p.eta1), q);
    let qj = ssum(f, k, n);
    lemma_ssum_len(f, k, n);
    let mj = lin(1, qj, 1, e1);
    lemma_nmul_cong(mj, uj, sj, q);
    lemma_nmul_lin(sj, qj, e1, 1, 1, q);
    assert forall|i: int| 0 <= i < k implies (#[trigger] f(i)).len() == n by {
        lemma_nmul_basics(g_mat(rho, i, j), g_noise(coins, i, p.eta1), q);
    }
    lemma_nmul_ssum(sj, f, k, q);
    lemma_ssum_ext(|i: int| nmul(sj, f(i), q), |i: int| g_cross_t(p, seed, coins, i, j), k, n);
    lemma_nmul_basics(sj, qj, q);
    lemma_nmul_basics(sj, e1, q);
    lemma_nmul_basics(sj, uj, q);
    lemma_nmul_basics(sj, dj, q);
    let cc = g_cross_col(p, seed, coins, j);
    lemma_ssum_len(|i: int| g_cross_t(p, seed, coins, i, j), k, n);
    let a = nmul(sj, qj, q);
    let b = nmul(sj, e1, q);
    let c = nmul(sj, dj, q);
    assert(eqm(c, c, q));
    assert(eqm(b, b, q));
    lemma_lin_cong(a, cc, b, b, 1, 1, q);
    lemma_eqm_trans(nmul(sj, uj, q), lin(1, a, 1, b), lin(1, cc, 1, b), q);
    lemma_lin_cong(nmul(sj, uj, q), lin(1, cc, 1, b), c, c, 1, 1, q);
    assert(lin(1, lin(1, cc, 1, b), 1, c) =~= lin(1, cc, 1, g_s_term(p, seed, coins, j)));
    lemma_eqm_trans(nmul(sj, xj, q), lin(1, nmul(sj, uj, q), 1, c), lin(1, lin(1, cc, 1, b), 1, c), q);
}

proof fn lemma_g_cross_same(p: GenericKemParams, seed: Seq<u8>, coins: Seq<u8>, i: int, j: int)
    requires
        kem_knobs_ok(p),
        matrix_ok(derived_seed(seed, 0), p.k as int),
        0 <= i < p.k,
        0 <= j < p.k,
    ensures
        g_cross(p, seed, coins, i, j) == g_cross_t(p, seed, coins, i, j),
        g_cross(p, seed, coins, i, j).len() == N,
{
    let q = Q as int;
    lemma_g_mat_len(p, derived_seed(seed, 0));
    let a = g_mat(derived_seed(seed, 0), i, j);
    let r = g_noise(coins, i, p.eta1);
    let sv = g_noise(derived_seed(seed, 1), j, p.eta1);
    lemma_nmul_basics(a, sv, q);
    lemma_nmul_basics(a, r, q);
    lemma_nmul_basics(r, nmul(a, sv, q), q);
    lemma_nmul_comm(r, nmul(a, sv, q), q);
    lemma_nmul_assoc(a, sv, r, q);
    lemma_nmul_comm(sv, nmul(a, r, q), q);
    lemma_nmul_assoc(a, r, sv, q);
    lemma_nmul_comm(sv, r, q);
}

proof fn lemma_g_cross_swap(p: GenericKemParams, seed: Seq<u8>, coins: Seq<u8>)
    requires
        kem_knobs_ok(p),
        matrix_ok(derived_seed(seed, 0), p.k as int),
    ensures
        ssum(|i: int| ssum(|j: int| g_cross(p, seed, coins, i, j), p.k as nat, N as nat), p.k as nat, N as nat)
            == ssum(|j: int| g_cross_col(p, seed, coins, j), p.k as nat, N as nat),
{
    let n = N as nat;
    let k = p.k as nat;
    let t = |i: int, j: int| g_cross(p, seed, coins, i, j);
    assert forall|i: int, j: int| 0 <= i < k && 0 <= j < k implies (#[trigger] t(i, j)).len() == n by {
        lemma_g_cross_same(p, seed, coins, i, j);
    }
    lemma_ssum_swap(t, k, k, n);
    let rs1 = |i: int| ssum(|j: int| t(i, j), k, n);
    let rs2 = |i: int| ssum(|j: int| g_cross(p, seed, coins, i, j), k, n);
    assert forall|i: int| 0 <= i < k implies #[trigger] rs1(i) == rs2(i) by {
        assert((|j: int| t(i, j)) =~= (|j: int| g_cross(p, seed, coins, i, j)));
    }
    lemma_ssum_ext(rs1, rs2, k, n);
    assert(rs1 =~= (|i: int| ssum(|j: int| t(i, j), k, n)));
    assert(rs2 =~= (|i: int| ssum(|j: int| g_cross(p, seed, coins, i, j), k, n)));
    let colsum = |j: int| ssum(|i: int| t(i, j), k, n);
    assert forall|j: int| 0 <= j < k implies #[trigger] colsum(j) == g_cross_col(p, seed, coins, j) by {
        assert forall|i: int| 0 <= i < k implies #[trigger] t(i, j) == g_cross_t(p, seed, coins, i, j) by {
            lemma_g_cross_same(p, seed, coins, i, j);
        }
        lemma_ssum_ext(|i: int| t(i, j), |i: int| g_cross_t(p, seed, coins, i, j), k, n);
    }
    lemma_ssum_ext(colsum, |j: int| g_cross_col(p, seed, coins, j), k, n);
    lemma_ssum_ext(|j: int| ssum(|i: int| t(i, j), k, n), colsum, k, n);
}

/// `s . u' = sum_j sum_i s_j (A_ij r_i) + s . e1 + s . (u' - u)`, mod q.
proof fn lemma_g_s_dot_u(p: GenericKemParams, seed: Seq<u8>, coins: Seq<u8>)
    requires
        kem_knobs_ok(p),
        matrix_ok(derived_seed(seed, 0), p.k as int),
    ensures
        eqm(
            ssum(
                |j: int| nmul(g_noise(derived_seed(seed, 1), j, p.eta1), recomp_int(g_u(p, derived_seed(seed, 0), coins, j), p.du as nat), Q as int),
                p.k as nat,
                N as nat,
            ),
            lin(
                1,
                ssum(|j: int| g_cross_col(p, seed, coins, j), p.k as nat, N as nat),
                1,
                ssum(|j: int| g_s_term(p, seed, coins, j), p.k as nat, N as nat),
            ),
            Q as int,
        ),
{
    let n = N as nat;
    let k = p.k as nat;
    let q = Q as int;
    let term = |j: int| nmul(g_noise(derived_seed(seed, 1), j, p.eta1), recomp_int(g_u(p, derived_seed(seed, 0), coins, j), p.du as nat), q);
    let cols = |j: int| g_cross_col(p, seed, coins, j);
    let rest = |j: int| g_s_term(p, seed, coins, j);
    let goal = |j: int| lin(1, cols(j), 1, rest(j));
    assert forall|j: int| 0 <= j < k implies eqm(#[trigger] term(j), goal(j), q) && term(j).len() == n by {
        lemma_g_s_dot_u_term(p, seed, coins, j);
        lemma_nmul_basics(g_noise(derived_seed(seed, 1), j, p.eta1), recomp_int(g_u(p, derived_seed(seed, 0), coins, j), p.du as nat), q);
    }
    assert forall|j: int| 0 <= j < k implies (#[trigger] cols(j)).len() == n by {
        lemma_g_s_dot_u_term(p, seed, coins, j);
    }
    lemma_ssum_cong(term, goal, k, n, q);
    lemma_ssum_add(cols, rest, k, n);
    lemma_ssum_ext(goal, |j: int| lin(1, cols(j), 1, rest(j)), k, n);
}

/// `s . u'` with reduced products.
pub open spec fn g_sx(p: GenericKemParams, seed: Seq<u8>, coins: Seq<u8>) -> Seq<int> {
    ssum(
        |j: int| nmul(g_noise(derived_seed(seed, 1), j, p.eta1), recomp_int(g_u(p, derived_seed(seed, 0), coins, j), p.du as nat), Q as int),
        p.k as nat,
        N as nat,
    )
}

/// `t . r` with reduced products.
pub open spec fn g_tr(p: GenericKemParams, seed: Seq<u8>, coins: Seq<u8>) -> Seq<int> {
    ssum(|i: int| nmul(g_t(p, seed, i), g_noise(coins, i, p.eta1), Q as int), p.k as nat, N as nat)
}

/// `s . e1`.
pub open spec fn g_se1(p: GenericKemParams, seed: Seq<u8>, coins: Seq<u8>) -> Seq<int> {
    ssum(|j: int| nmul(g_noise(derived_seed(seed, 1), j, p.eta1), g_noise(coins, p.k + j, p.eta2), Q as int), p.k as nat, N as nat)
}

/// `s . (u' - u)`.
pub open spec fn g_sdu(p: GenericKemParams, seed: Seq<u8>, coins: Seq<u8>) -> Seq<int> {
    let rho = derived_seed(seed, 0);
    ssum(
        |j: int|
            nmul(
                g_noise(derived_seed(seed, 1), j, p.eta1),
                lin(1, recomp_int(g_u(p, rho, coins, j), p.du as nat), -1, g_u(p, rho, coins, j)),
                Q as int,
            ),
        p.k as nat,
        N as nat,
    )
}

/// The ring identities behind decryption, on whole vectors.
proof fn lemma_g_sums(p: GenericKemParams, seed: Seq<u8>, coins: Seq<u8>)
    requires
        kem_knobs_ok(p),
        matrix_ok(derived_seed(seed, 0), p.k as int),
    ensures
        eqm(
            g_sx(p, seed, coins),
            lin(
                1,
                ssum(|j: int| g_cross_col(p, seed, coins, j), p.k as nat, N as nat),
                1,
                lin(1, g_se1(p, seed, coins), 1, g_sdu(p, seed, coins)),
            ),
            Q as int,
        ),
        eqm(
            g_tr(p, seed, coins),
            lin(1, ssum(|j: int| g_cross_col(p, seed, coins, j), p.k as nat, N as nat), 1, g_er(p, seed, coins)),
            Q as int,
        ),
        g_sx(p, seed, coins).len() == N,
        g_tr(p, seed, coins).len() == N,
        g_se1(p, seed, coins).len() == N,
        g_sdu(p, seed, coins).len() == N,
        g_er(p, seed, coins).len() == N,
        ssum(|j: int| g_cross_col(p, seed, coins, j), p.k as nat, N as nat).len() == N,
{
    let n = N as nat;
    let k = p.k as nat;
    let q = Q as int;
    let rho = derived_seed(seed, 0);
    let sigma = derived_seed(seed, 1);
    lemma_g_mat_len(p, rho);
    lemma_g_t_dot_r(p, seed, coins);
    lemma_g_s_dot_u(p, seed, coins);
    lemma_g_cross_swap(p, seed, coins);
    let se = |j: int| nmul(g_noise(sigma, j, p.eta1), g_noise(coins, p.k + j, p.eta2), q);
    let sd = |j: int| nmul(g_noise(sigma, j, p.eta1), g_u_err(p, seed, coins, j), q);
    assert forall|j: int| 0 <= j < k implies (#[trigger] se(j)).len() == n by {
        lemma_nmul_basics(g_noise(sigma, j, p.eta1), g_noise(coins, p.k + j, p.eta2), q);
    }
    lemma_ssum_add(se, sd, k, n);
    lemma_ssum_ext(|j: int| g_s_term(p, seed, coins, j), |j: int| lin(1, se(j), 1, sd(j)), k, n);
    lemma_ssum_ext(sd, |j: int| nmul(g_noise(sigma, j, p.eta1), lin(1, recomp_int(g_u(p, rho, coins, j), p.du as nat), -1, g_u(p, rho, coins, j)), q), k, n);
    lemma_ssum_ext(se, |j: int| nmul(g_noise(sigma, j, p.eta1), g_noise(coins, p.k + j, p.eta2), q), k, n);
    lemma_ssum_len(|j: int| g_cross_col(p, seed, coins, j), k, n);
    lemma_ssum_len(se, k, n);
    lemma_ssum_len(sd, k, n);
    lemma_ssum_len(|j: int| nmul(g_noise(sigma, j, p.eta1), recomp_int(g_u(p, rho, coins, j), p.du as nat), q), k, n);
    lemma_ssum_len(|i: int| nmul(g_t(p, seed, i), g_noise(coins, i, p.eta1), q), k, n);
    lemma_ssum_len(|i: int| nmul(g_noise(sigma, p.k + i, p.eta1), g_noise(coins, i, p.eta1), q), k, n);
}

/// A dot product of rows with integer views `fa`, `fb` agrees mod q with the sum of reduced
/// products.
proof fn lemma_dot_as_nmul(
    a: Seq<Seq<i32>>,
    b: Seq<Seq<i32>>,
    fa: spec_fn(int) -> Seq<int>,
    fb: spec_fn(int) -> Seq<int>,
    m: int,
    c: int,
)
    requires
        0 <= m,
        m <= a.len(),
        m <= b.len(),
        forall|j: int| 0 <= j < m ==> ints32(#[trigger] a[j]) == fa(j),
        forall|j: int| 0 <= j < m ==> ints32(#[trigger] b[j]) == fb(j),
        forall|j: int| 0 <= j < m ==> (#[trigger] fa(j)).len() == N && fb(j).len() == N,
        0 <= c < N,
    ensures
        seq_dot_sum(a, b, m, c) % (Q as int) == ssum(|j: int| nmul(fa(j), fb(j), Q as int), m as nat, N as nat)[c] % (Q as int),
{
    let n = N as nat;
    assert forall|j: int| 0 <= j < m implies (#[trigger] a[j]).len() == N && b[j].len() == N by {
        assert(ints32(a[j]).len() == N);
        assert(ints32(b[j]).len() == N);
    }
    lemma_seq_dot_sum_nci(a, b, m, c);
    lemma_ssum_ext(|j: int| nci(ints32(a[j]), ints32(b[j])), |j: int| nci(fa(j), fb(j)), m as nat, n);
    lemma_ssum_nci_nmul(fa, fb, m as nat);
    lemma_ssum_len(|j: int| nci(fa(j), fb(j)), m as nat, n);
}

/// The library's dot products agree mod q with the reduced-product sums.
proof fn lemma_g_dots(p: GenericKemParams, seed: Seq<u8>, coins: Seq<u8>, t: Seq<Seq<i32>>, cu: Seq<u8>, c: int)
    requires
        kem_knobs_ok(p),
        matrix_ok(derived_seed(seed, 0), p.k as int),
        t.len() == p.k,
        forall|i: int| 0 <= i < p.k ==> ints32(#[trigger] t[i]) == g_t(p, seed, i),
        forall|j: int| 0 <= j < p.k ==> ints32(#[trigger] decrypt_u_rows(p, cu)[j]) == recomp_int(g_u(p, derived_seed(seed, 0), coins, j), p.du as nat),
        0 <= c < N,
    ensures
        seq_dot_sum(noise_rows(derived_seed(seed, 1), 0, p.k as int, p.eta1), decrypt_u_rows(p, cu), p.k as int, c) % (Q as int)
            == g_sx(p, seed, coins)[c] % (Q as int),
        seq_dot_sum(t, noise_rows(coins, 0, p.k as int, p.eta1), p.k as int, c) % (Q as int) == g_tr(p, seed, coins)[c] % (Q as int),
{
    let k = p.k as int;
    let q = Q as int;
    let rho = derived_seed(seed, 0);
    let sigma = derived_seed(seed, 1);
    let fs = |j: int| g_noise(sigma, j, p.eta1);
    let fx = |j: int| recomp_int(g_u(p, rho, coins, j), p.du as nat);
    let ft = |i: int| g_t(p, seed, i);
    let fr = |i: int| g_noise(coins, i, p.eta1);
    lemma_dot_as_nmul(noise_rows(sigma, 0, k, p.eta1), decrypt_u_rows(p, cu), fs, fx, k, c);
    lemma_dot_as_nmul(t, noise_rows(coins, 0, k, p.eta1), ft, fr, k, c);
    lemma_ssum_ext(|j: int| nmul(fs(j), fx(j), q), |j: int| nmul(g_noise(sigma, j, p.eta1), recomp_int(g_u(p, rho, coins, j), p.du as nat), q), p.k as nat, N as nat);
    lemma_ssum_ext(|i: int| nmul(ft(i), fr(i), q), |i: int| nmul(g_t(p, seed, i), g_noise(coins, i, p.eta1), q), p.k as nat, N as nat);
}

/// Coefficient `c` of `pke_noise`, spelled out.
proof fn lemma_pke_noise_at(p: GenericKemParams, seed: Seq<u8>, t: Seq<Seq<i32>>, coins: Seq<u8>, m: Seq<u8>, c: int)
    requires
        kem_knobs_ok(p),
        matrix_ok(derived_seed(seed, 0), p.k as int),
        0 <= c < N,
    ensures
        pke_noise(p, seed, t, coins, m)[c] == (((recomp_int(g_v(p, t, m, coins), p.dv as nat)[c] - g_v(p, t, m, coins)[c])
            + g_er(p, seed, coins)[c]) + (noise_row(coins, 2 * p.k, p.eta2)[c] as int)) - (g_se1(p, seed, coins)[c] + g_sdu(
            p,
            seed,
            coins,
        )[c]),
{
    reveal(pke_noise);
    lemma_g_sums(p, seed, coins);
}

/// Decryption's coefficient `c` is `v'_c - (s . u')_c`, mod q.
proof fn lemma_g_mu_at(
    p: GenericKemParams,
    seed: Seq<u8>,
    coins: Seq<u8>,
    t: Seq<Seq<i32>>,
    cu: Seq<u8>,
    cv: Seq<u8>,
    c: int,
)
    requires
        kem_knobs_ok(p),
        matrix_ok(derived_seed(seed, 0), p.k as int),
        t.len() == p.k,
        forall|i: int| 0 <= i < p.k ==> ints32(#[trigger] t[i]) == g_t(p, seed, i),
        forall|j: int| 0 <= j < p.k ==> ints32(#[trigger] decrypt_u_rows(p, cu)[j]) == recomp_int(g_u(p, derived_seed(seed, 0), coins, j), p.du as nat),
        0 <= c < N,
    ensures
        decrypt_mu_coeff(p, noise_rows(derived_seed(seed, 1), 0, p.k as int, p.eta1), cu, cv, c) % (Q as int) == (
        crate::encode::decompress_spec(crate::encode::decode_fields(cv, p.dv as nat, N as nat)[c] as int, p.dv as nat, Q as int)
            - g_sx(p, seed, coins)[c]) % (Q as int),
{
    let q = Q as int;
    lemma_g_dots(p, seed, coins, t, cu, c);
    let vr = crate::encode::decompress_spec(crate::encode::decode_fields(cv, p.dv as nat, N as nat)[c] as int, p.dv as nat, q);
    let sdx = seq_dot_sum(noise_rows(derived_seed(seed, 1), 0, p.k as int, p.eta1), decrypt_u_rows(p, cu), p.k as int, c);
    lemma_cong_sub(vr, vr, sdx % q, g_sx(p, seed, coins)[c], q);
    vstd::arithmetic::div_mod::lemma_mod_twice(sdx, q);
    vstd::arithmetic::div_mod::lemma_mod_twice(vr - sdx % q, q);
}

/// Coefficient `c` of `v` is `(t . r)_c + e2_c + m_c`, mod q.
proof fn lemma_g_v_at(p: GenericKemParams, seed: Seq<u8>, coins: Seq<u8>, t: Seq<Seq<i32>>, m: Seq<u8>, cu: Seq<u8>, c: int)
    requires
        kem_knobs_ok(p),
        matrix_ok(derived_seed(seed, 0), p.k as int),
        t.len() == p.k,
        forall|i: int| 0 <= i < p.k ==> ints32(#[trigger] t[i]) == g_t(p, seed, i),
        forall|j: int| 0 <= j < p.k ==> ints32(#[trigger] decrypt_u_rows(p, cu)[j]) == recomp_int(g_u(p, derived_seed(seed, 0), coins, j), p.du as nat),
        0 <= c < N,
    ensures
        g_v(p, t, m, coins)[c] % (Q as int) == ((g_tr(p, seed, coins)[c] + (noise_row(coins, 2 * p.k, p.eta2)[c] as int))
            + msg_coeff(m, c)) % (Q as int),
{
    let q = Q as int;
    lemma_g_dots(p, seed, coins, t, cu, c);
    let sdt = seq_dot_sum(t, noise_rows(coins, 0, p.k as int, p.eta1), p.k as int, c);
    let e2c = noise_row(coins, 2 * p.k, p.eta2)[c] as int;
    let aa = (sdt % q + e2c) % q;
    assert(g_v(p, t, m, coins)[c] == (aa + msg_coeff(m, c)) % q);
    vstd::arithmetic::div_mod::lemma_mod_twice(aa + msg_coeff(m, c), q);
    vstd::arithmetic::div_mod::lemma_mod_twice(sdt % q + e2c, q);
    lemma_cong_add(sdt % q, g_tr(p, seed, coins)[c], e2c, e2c, q);
    lemma_cong_add(aa, g_tr(p, seed, coins)[c] + e2c, msg_coeff(m, c), msg_coeff(m, c), q);
}

/// Coefficient `c` of the decryption identity.
#[verifier::spinoff_prover]
proof fn lemma_g_decrypt_coeff(
    p: GenericKemParams,
    seed: Seq<u8>,
    coins: Seq<u8>,
    m: Seq<u8>,
    t: Seq<Seq<i32>>,
    cu: Seq<u8>,
    cv: Seq<u8>,
    c: int,
)
    requires
        kem_knobs_ok(p),
        matrix_ok(derived_seed(seed, 0), p.k as int),
        t.len() == p.k,
        forall|i: int| 0 <= i < p.k ==> ints32(#[trigger] t[i]) == g_t(p, seed, i),
        forall|j: int| 0 <= j < p.k ==> ints32(#[trigger] decrypt_u_rows(p, cu)[j]) == recomp_int(g_u(p, derived_seed(seed, 0), coins, j), p.du as nat),
        crate::encode::decompress_spec(crate::encode::decode_fields(cv, p.dv as nat, N as nat)[c] as int, p.dv as nat, Q as int)
            == recomp_int(g_v(p, t, m, coins), p.dv as nat)[c],
        0 <= c < N,
    ensures
        decrypt_mu_coeff(p, noise_rows(derived_seed(seed, 1), 0, p.k as int, p.eta1), cu, cv, c) % (Q as int) == (msg_coeff(m, c)
            + pke_noise(p, seed, t, coins, m)[c]) % (Q as int),
{
    let q = Q as int;
    lemma_g_sums(p, seed, coins);
    lemma_g_mu_at(p, seed, coins, t, cu, cv, c);
    lemma_g_v_at(p, seed, coins, t, m, cu, c);
    lemma_pke_noise_at(p, seed, t, coins, m, c);
    let cc = ssum(|j: int| g_cross_col(p, seed, coins, j), p.k as nat, N as nat);
    let se1 = g_se1(p, seed, coins);
    let sdu = g_sdu(p, seed, coins);
    let er = g_er(p, seed, coins);
    let sx = g_sx(p, seed, coins);
    let tr = g_tr(p, seed, coins);
    let mu = decrypt_mu_coeff(p, noise_rows(derived_seed(seed, 1), 0, p.k as int, p.eta1), cu, cv, c);
    let vr = recomp_int(g_v(p, t, m, coins), p.dv as nat)[c];
    let vv = g_v(p, t, m, coins)[c];
    let e2c = noise_row(coins, 2 * p.k, p.eta2)[c] as int;
    assert(sx[c] % q == lin(1, cc, 1, lin(1, se1, 1, sdu))[c] % q);
    assert(tr[c] % q == lin(1, cc, 1, er)[c] % q);
    lemma_combine(mu, vr, sx[c], cc[c], se1[c] + sdu[c], vv, tr[c] + e2c, msg_coeff(m, c), tr[c], e2c, cc[c], er[c], se1[c], sdu[c], q);
}

/// Decryption's coefficients of `v' - s . u'` are the message coefficients plus `pke_noise`,
/// mod q, where `u'` and `v'` are the ciphertext parts compressed and decompressed.
pub proof fn lemma_g_decrypt_noise(
    p: GenericKemParams,
    seed: Seq<u8>,
    coins: Seq<u8>,
    m: Seq<u8>,
    t: Seq<Seq<i32>>,
    cu: Seq<u8>,
    cv: Seq<u8>,
)
    requires
        kem_knobs_ok(p),
        matrix_ok(derived_seed(seed, 0), p.k as int),
        t.len() == p.k,
        forall|i: int| 0 <= i < p.k ==> ints32(#[trigger] t[i]) == g_t(p, seed, i),
        forall|j: int| 0 <= j < p.k ==> ints32(#[trigger] decrypt_u_rows(p, cu)[j]) == recomp_int(g_u(p, derived_seed(seed, 0), coins, j), p.du as nat),
        forall|c: int|
            0 <= c < N ==> crate::encode::decompress_spec(#[trigger] crate::encode::decode_fields(cv, p.dv as nat, N as nat)[c] as int, p.dv as nat, Q as int)
                == recomp_int(g_v(p, t, m, coins), p.dv as nat)[c],
    ensures
        forall|c: int|
            0 <= c < N ==> #[trigger] decrypt_mu_coeff(p, noise_rows(derived_seed(seed, 1), 0, p.k as int, p.eta1), cu, cv, c) % (Q as int)
                == (msg_coeff(m, c) + pke_noise(p, seed, t, coins, m)[c]) % (Q as int),
{
    assert forall|c: int| 0 <= c < N implies #[trigger] decrypt_mu_coeff(p, noise_rows(derived_seed(seed, 1), 0, p.k as int, p.eta1), cu, cv, c)
        % (Q as int) == (msg_coeff(m, c) + pke_noise(p, seed, t, coins, m)[c]) % (Q as int) by {
        assert(crate::encode::decompress_spec(crate::encode::decode_fields(cv, p.dv as nat, N as nat)[c] as int, p.dv as nat, Q as int)
            == recomp_int(g_v(p, t, m, coins), p.dv as nat)[c]);
        lemma_g_decrypt_coeff(p, seed, coins, m, t, cu, cv, c);
    }
}

/// Decryption reads back `u` and `v` compressed and decompressed.
proof fn lemma_g_ct_parts(p: GenericKemParams, rho: Seq<u8>, coins: Seq<u8>, t: Seq<Seq<i32>>, m: Seq<u8>, cu: Seq<u8>, cv: Seq<u8>)
    requires
        kem_knobs_ok(p),
        is_packing_of(cu, encrypt_u_flat(p, rho, coins), p.du as nat),
        is_packing_of(cv, encrypt_v_comp(p, t, m, coins), p.dv as nat),
    ensures
        forall|j: int| 0 <= j < p.k ==> ints32(#[trigger] decrypt_u_rows(p, cu)[j]) == recomp_int(g_u(p, rho, coins, j), p.du as nat),
        forall|c: int|
            0 <= c < N ==> crate::encode::decompress_spec(#[trigger] crate::encode::decode_fields(cv, p.dv as nat, N as nat)[c] as int, p.dv as nat, Q as int)
                == recomp_int(g_v(p, t, m, coins), p.dv as nat)[c],
{
    let n = N as int;
    let k = p.k as int;
    let q = Q as int;
    let fu = encrypt_u_flat(p, rho, coins);
    let fv = encrypt_v_comp(p, t, m, coins);
    assert forall|j: int| 0 <= j < fu.len() implies 0 <= #[trigger] fu[j] && fu[j] < vstd::arithmetic::power2::pow2(p.du as nat) by {
        lemma_compress_fits(encrypt_u_coeff(p, rho, coins, j / n, j % n), p.du as nat, q);
    }
    crate::encode::lemma_byte_encode_decode_roundtrip(cu, fu, p.du as nat);
    assert forall|j: int| 0 <= j < fv.len() implies 0 <= #[trigger] fv[j] && fv[j] < vstd::arithmetic::power2::pow2(p.dv as nat) by {
        lemma_compress_fits(encrypt_v_coeff(p, t, m, coins, j), p.dv as nat, q);
    }
    crate::encode::lemma_byte_encode_decode_roundtrip(cv, fv, p.dv as nat);
    let ur = decrypt_u_rows(p, cu);
    assert forall|j: int| 0 <= j < k implies ints32(#[trigger] ur[j]) == recomp_int(g_u(p, rho, coins, j), p.du as nat) by {
        assert forall|c: int| 0 <= c < n implies ints32(ur[j])[c] == recomp_int(g_u(p, rho, coins, j), p.du as nat)[c] by {
            let idx = j * n + c;
            assert(0 <= idx < k * n) by (nonlinear_arith)
                requires
                    idx == j * n + c,
                    0 <= j < k,
                    0 <= c < n,
            ;
            vstd::arithmetic::div_mod::lemma_fundamental_div_mod_converse(idx, n, j, c);
            let uc = encrypt_u_coeff(p, rho, coins, j, c);
            lemma_compress_fits(uc, p.du as nat, q);
            lemma_decompress_range(crate::encode::compress_spec(uc, p.du as nat, q), p.du as nat, q);
            assert(crate::encode::decode_fields(cu, p.du as nat, (p.k * N) as nat)[idx] == fu[idx]);
        }
        assert(ints32(ur[j]) =~= recomp_int(g_u(p, rho, coins, j), p.du as nat));
    }
    assert forall|c: int| 0 <= c < n implies crate::encode::decompress_spec(
        #[trigger] crate::encode::decode_fields(cv, p.dv as nat, N as nat)[c] as int,
        p.dv as nat,
        q,
    ) == recomp_int(g_v(p, t, m, coins), p.dv as nat)[c] by {
        lemma_compress_fits(encrypt_v_coeff(p, t, m, coins, c), p.dv as nat, q);
        assert(crate::encode::decode_fields(cv, p.dv as nat, N as nat)[c] == fv[c]);
    }
}

/// When every coefficient of the noise is small, rounding `Decompress_1(m) + noise` bit by bit
/// and packing the bits gives back the 32-byte message.
proof fn lemma_g_message_recovered(m: Seq<u8>, mu: spec_fn(int) -> int, nz: Seq<int>, m2: Seq<u8>)
    requires
        m.len() == 32,
        forall|c: int| 0 <= c < N ==> 0 <= #[trigger] mu(c) < Q,
        forall|c: int| 0 <= c < N ==> #[trigger] mu(c) % (Q as int) == (msg_coeff(m, c) + nz[c]) % (Q as int),
        forall|c: int| 0 <= c < N ==> small_noise(#[trigger] nz[c], Q as int),
        is_packing_of(m2, Seq::new(N as nat, |c: int| crate::encode::compress_spec(mu(c), 1, Q as int) as i32), 1),
    ensures
        m2 == m,
{
    let q = Q as int;
    vstd::arithmetic::power2::lemma2_to64();
    let fields = crate::encode::decode_fields(m, 1, N as nat);
    let cs = Seq::new(N as nat, |c: int| crate::encode::compress_spec(mu(c), 1, q) as i32);
    assert forall|c: int| 0 <= c < N implies #[trigger] cs[c] == fields[c] && (fields[c] == 0 || fields[c] == 1)
        && (fields[c] == 1 <==> crate::encode::stream_bit(m, c)) by {
        assert(crate::encode::stream_value(m, c * 1, 1) == crate::encode::stream_value(m, c, 0) + if crate::encode::stream_bit(m, c) {
            vstd::arithmetic::power2::pow2(0)
        } else {
            0
        });
        assert(fields[c] == crate::encode::decoded_field(m, 1, c));
        let b = fields[c] as int;
        assert(b == 0 || b == 1);
        lemma_round_bit(mu(c), b, nz[c], q);
    }
    assert forall|i: int| 0 <= i < 8 * m.len() implies #[trigger] crate::encode::stream_bit(m2, i) == crate::encode::stream_bit(m, i) by {
        assert(crate::encode::stream_bit(m2, i) == crate::encode::coeff_stream_bit(cs, 1, i));
        assert(i / 1 == i && i % 1 == 0);
        lemma_word_bit01(cs[i]);
    }
    lemma_bytes_from_bits(m2, m);
}

/// Law (round trip of the fixed-degree KEM): for keys generated from `seed`, an encapsulation
/// of the 32-byte message `m` with `coins` to the public key, and a decapsulation of that
/// ciphertext with the secret key, the decapsulated message is `m` and the two shared secrets
/// agree, whenever every coefficient of `pke_noise` is small. (Where the noise reaches a
/// quarter of q decryption may flip a message bit; that is the KEM's decryption failure.)
pub proof fn lemma_pke_kem_roundtrip(
    p: GenericKemParams,
    seed: Seq<u8>,
    pk: crate::pke::PublicKey,
    sk: crate::pke::SecretKey,
    m: Seq<u8>,
    coins: Seq<u8>,
    ct: crate::pke::Ciphertext,
    ss: Seq<u8>,
    m2: Seq<u8>,
    ss2: Seq<u8>,
)
    requires
        kem_knobs_ok(p),
        matrix_ok(derived_seed(seed, 0), p.k as int),
        crate::kem::keys_from_seed(p, seed, pk, sk),
        m.len() == 32,
        crate::kem::encryption_of(p, pk, m, coins, ct),
        ss == crate::kem::kem_kdf(m, ct.u_bytes@, ct.v_bytes@),
        is_packing_of(
            m2,
            Seq::new(
                N as nat,
                |c: int| crate::encode::compress_spec(decrypt_mu_coeff(p, coeff_rows(sk.s@), ct.u_bytes@, ct.v_bytes@, c), 1, Q as int) as i32,
            ),
            1,
        ),
        ss2 == crate::kem::kem_kdf(m2, ct.u_bytes@, ct.v_bytes@),
        forall|c: int| 0 <= c < N ==> small_noise(#[trigger] pke_noise(p, seed, coeff_rows(pk.t@), coins, m)[c], Q as int),
    ensures
        m2 == m,
        ss2 == ss,
{
    let q = Q as int;
    let t = coeff_rows(pk.t@);
    let rho = derived_seed(seed, 0);
    assert forall|i: int| 0 <= i < p.k implies ints32(#[trigger] t[i]) == g_t(p, seed, i) by {
        assert forall|c: int| 0 <= c < N implies ints32(t[i])[c] == g_t(p, seed, i)[c] by {
            assert(pk.t@[i].coeffs@[c] == keygen_t_coeff(p, seed, i, c));
        }
        assert(ints32(t[i]) =~= g_t(p, seed, i));
    }
    lemma_g_ct_parts(p, rho, coins, t, m, ct.u_bytes@, ct.v_bytes@);
    lemma_g_decrypt_noise(p, seed, coins, m, t, ct.u_bytes@, ct.v_bytes@);
    let srows = noise_rows(derived_seed(seed, 1), 0, p.k as int, p.eta1);
    assert(coeff_rows(sk.s@) == srows);
    let mu = |c: int| decrypt_mu_coeff(p, srows, ct.u_bytes@, ct.v_bytes@, c);
    assert forall|c: int| 0 <= c < N implies 0 <= #[trigger] mu(c) < Q by {
        vstd::arithmetic::div_mod::lemma_mod_bound(
            crate::encode::decompress_spec(crate::encode::decode_fields(ct.v_bytes@, p.dv as nat, N as nat)[c] as int, p.dv as nat, q)
                - seq_dot_sum(srows, decrypt_u_rows(p, ct.u_bytes@), p.k as int, c) % q,
            q,
        );
    }
    let nz = pke_noise(p, seed, t, coins, m);
    assert forall|c: int| 0 <= c < N implies #[trigger] mu(c) % q == (msg_coeff(m, c) + nz[c]) % q by {}
    assert(Seq::new(N as nat, |c: int| crate::encode::compress_spec(decrypt_mu_coeff(p, coeff_rows(sk.s@), ct.u_bytes@, ct.v_bytes@, c), 1, q) as i32)
        =~= Seq::new(N as nat, |c: int| crate::encode::compress_spec(mu(c), 1, q) as i32));
    lemma_g_message_recovered(m, mu, nz, m2);
}

} // verus!
