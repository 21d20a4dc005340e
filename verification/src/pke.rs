//! Kyber-like public-key encryption over the fixed ring `Z_3329[x]/(x^256 + 1)`: keygen /
//! encrypt / decrypt for runtime (k, eta1, eta2, du, dv), with schoolbook ring products,
//! centered-binomial noise and compression before transmission. Structurally faithful to
//! K-PKE, not byte-exact to it.
use crate::bytes::{append_bytes, flat_coeffs, flatten_polys, take32};
use crate::custom_kem_pke::derived_seed;
use crate::encode::{
    bits_for_q, byte_decode, byte_encode, compress, compress_spec, decode_fields, decompress, decompress_spec,
    is_packing_of,
};
use crate::error::PqcError;
use crate::params::{encrypt_knobs_ok, kem_knobs_ok, GenericKemParams, Q};
use crate::poly::{dot, dot_sum, lemma_reduced_mul_fits, mul_fits, reduced_coeffs, small_coeffs, Poly, N};
use crate::sample::{cbd, cbd_bytes_needed, cbd_coeff, prf, sample_uniform, seed_ij, uniform12_run};
use crate::xof::shake256_output;
use vstd::prelude::*;

verus! {

#[derive(Clone)]
pub struct PublicKey {
    pub t: Vec<Poly>,
    pub rho: [u8; 32],
}

#[derive(Clone)]
pub struct SecretKey {
    pub s: Vec<Poly>,
}

pub struct Ciphertext {
    pub u_bytes: Vec<u8>,
    pub v_bytes: Vec<u8>,
}

/// Matrix entry `(i, j)` sampled from `rho`.
pub open spec fn entry(rho: Seq<u8>, i: int, j: int) -> Option<Seq<i32>> {
    uniform12_run(seed_ij(rho, i as u8, j as u8), Q as int, 0, N as nat)
}

/// Every matrix entry sampled from `rho` finishes within the XOF budget.
pub open spec fn matrix_ok(rho: Seq<u8>, k: int) -> bool {
    forall|i: int, j: int| 0 <= i < k && 0 <= j < k ==> #[trigger] entry(rho, i, j) is Some
}

/// Noise polynomial `nonce`: centered binomial over `64 * eta` bytes of SHAKE256(seed || nonce),
/// reduced into `[0, q)`.
pub open spec fn noise_row(seed: Seq<u8>, nonce: int, eta: u32) -> Seq<i32> {
    let bytes = shake256_output(seed.push(nonce as u8), (2 * eta * N / 8) as nat);
    Seq::new(N as nat, |c: int| (cbd_coeff(bytes, eta as int, c) % (Q as int)) as i32)
}

/// Noise polynomials `first .. first + count`.
pub open spec fn noise_rows(seed: Seq<u8>, first: int, count: int, eta: u32) -> Seq<Seq<i32>> {
    Seq::new(count as nat, |t: int| noise_row(seed, first + t, eta))
}

/// Row `i` of the sampled matrix, as coefficient sequences.
pub open spec fn matrix_row(rho: Seq<u8>, i: int, k: int) -> Seq<Seq<i32>> {
    Seq::new(k as nat, |j: int| entry(rho, i, j).unwrap())
}

/// Column `i` of the sampled matrix, as coefficient sequences.
pub open spec fn matrix_col(rho: Seq<u8>, i: int, k: int) -> Seq<Seq<i32>> {
    Seq::new(k as nat, |j: int| entry(rho, j, i).unwrap())
}

/// Sum over `t < m` of the unreduced negacyclic coefficient `c` of `a[t] * b[t]`.
pub open spec fn seq_dot_sum(a: Seq<Seq<i32>>, b: Seq<Seq<i32>>, m: int, c: int) -> int
    decreases m,
{
    if m <= 0 {
        0
    } else {
        seq_dot_sum(a, b, m - 1, c) + crate::poly::negacyclic_coeff(a[m - 1], b[m - 1], c)
    }
}

/// The coefficient sequences of a vector of polynomials.
pub open spec fn coeff_rows(v: Seq<Poly>) -> Seq<Seq<i32>> {
    v.map_values(|p: Poly| p.coeffs@)
}

proof fn lemma_seq_dot_sum(a: Seq<Poly>, arows: Seq<Seq<i32>>, b: Seq<Poly>, brows: Seq<Seq<i32>>, m: int, c: int)
    requires
        0 <= m <= a.len(),
        m <= b.len(),
        m <= arows.len(),
        m <= brows.len(),
        forall|j: int| 0 <= j < m ==> #[trigger] a[j].coeffs@ == arows[j],
        forall|j: int| 0 <= j < m ==> #[trigger] b[j].coeffs@ == brows[j],
    ensures
        dot_sum(a, b, m, c) == seq_dot_sum(arows, brows, m, c),
    decreases m,
{
    if m > 0 {
        lemma_seq_dot_sum(a, arows, b, brows, m - 1, c);
        assert(a[m - 1].coeffs@ == arows[m - 1]);
        assert(b[m - 1].coeffs@ == brows[m - 1]);
    }
}

/// Every coefficient of every polynomial of `v` lies in `[0, q)`.
pub open spec fn all_reduced(v: Seq<Poly>) -> bool {
    forall|t: int| 0 <= t < v.len() ==> reduced_coeffs(#[trigger] v[t], Q as int)
}

proof fn lemma_reduced_small(v: Seq<Poly>)
    requires
        all_reduced(v),
    ensures
        forall|t: int| 0 <= t < v.len() ==> small_coeffs(#[trigger] v[t]),
{
    assert forall|t: int| 0 <= t < v.len() implies small_coeffs(#[trigger] v[t]) by {
        assert(reduced_coeffs(v[t], Q as int));
    }
}

fn derive32(seed: &[u8; 32], nonce: u8) -> (out: [u8; 32])
    ensures
        out@ == derived_seed(seed@, nonce),
{
    let v = prf(seed, nonce, 32);
    let out = take32(v.as_slice(), 0);
    proof {
        assert(out@ =~= v@);
    }
    out
}

/// Samples the `k x k` matrix from `rho`.
fn expand_a(rho: &[u8; 32], k: usize) -> (r: Result<Vec<Vec<Poly>>, PqcError>)
    ensures
        r is Ok <==> matrix_ok(rho@, k as int),
        r is Err ==> r == Err::<Vec<Vec<Poly>>, PqcError>(PqcError::XofBudgetExhausted),
        r matches Ok(a) ==> a.len() == k && forall|i: int|
            0 <= i < k ==> (#[trigger] a@[i]).len() == k && all_reduced(a@[i]@) && forall|j: int|
                0 <= j < k ==> entry(rho@, i, j) == Some(#[trigger] a@[i]@[j].coeffs@),
{
    let mut a: Vec<Vec<Poly>> = Vec::new();
    let mut i: usize = 0;
    while i < k
        invariant
            i <= k,
            a.len() == i,
            forall|x: int|
                0 <= x < i ==> (#[trigger] a@[x]).len() == k && all_reduced(a@[x]@) && forall|j: int|
                    0 <= j < k ==> entry(rho@, x, j) == Some(#[trigger] a@[x]@[j].coeffs@),
            forall|x: int, y: int| 0 <= x < i && 0 <= y < k ==> #[trigger] entry(rho@, x, y) is Some,
        decreases k - i,
    {
        let mut row: Vec<Poly> = Vec::new();
        let mut j: usize = 0;
        while j < k
            invariant
                i < k,
                j <= k,
                row.len() == j,
                all_reduced(row@),
                forall|y: int| 0 <= y < j ==> entry(rho@, i as int, y) == Some(#[trigger] row@[y].coeffs@),
            decreases k - j,
        {
            match sample_uniform(rho, i as u8, j as u8, Q) {
                Ok(p) => {
                    proof {
                        lemma_uniform12_reduced(seed_ij(rho@, i as u8, j as u8), 0, N as nat);
                    }
                    row.push(p);
                },
                Err(e) => {
                    proof {
                        assert(entry(rho@, i as int, j as int) is None);
                    }
                    return Err(e);
                },
            }
            j = j + 1;
        }
        proof {
            assert forall|y: int| 0 <= y < k implies #[trigger] entry(rho@, i as int, y) is Some by {
                assert(entry(rho@, i as int, y) == Some(row@[y].coeffs@));
            }
        }
        a.push(row);
        i = i + 1;
    }
    Ok(a)
}

/// Values the 12-bit sampler accepts are below `q` and there are exactly `need` of them.
pub(crate) proof fn lemma_uniform12_reduced(input: Seq<u8>, pos: nat, need: nat)
    ensures
        uniform12_run(input, Q as int, pos, need) matches Some(s) ==> s.len() == need && forall|x: int|
            0 <= x < s.len() ==> 0 <= #[trigger] s[x] < Q,
    decreases crate::xof::XOF_BUDGET - pos, need,
{
    if need > 0 && pos + 3 <= crate::xof::XOF_BUDGET {
        let (d1, d2) = crate::sample::candidates12(input, pos as int);
        let first: Seq<i32> = if d1 < Q { seq![d1 as i32] } else { Seq::empty() };
        let left = (need - first.len()) as nat;
        let second: Seq<i32> = if left > 0 && d2 < Q { seq![d2 as i32] } else { Seq::empty() };
        let rest_need = (left - second.len()) as nat;
        lemma_uniform12_reduced(input, pos + 3, rest_need);
        assert(d1 >= 0 && d2 >= 0);
        if let Some(rest) = uniform12_run(input, Q as int, pos + 3, rest_need) {
            let s = (first + second) + rest;
            assert forall|x: int| 0 <= x < s.len() implies 0 <= #[trigger] s[x] < Q by {
                if x < first.len() {
                    assert(s[x] == first[x]);
                } else if x < first.len() + second.len() {
                    assert(s[x] == second[x - first.len()]);
                } else {
                    assert(s[x] == rest[x - first.len() - second.len()]);
                }
            }
        }
    }
}

/// Samples noise polynomials `first .. first + count` from `seed` with parameter `eta`.
fn sample_noise(seed: &[u8; 32], first: usize, count: usize, eta: u32) -> (out: Vec<Poly>)
    requires
        first + count <= 0x1_0000,
        eta <= 0x3F_FFFF,
    ensures
        out.len() == count,
        all_reduced(out@),
        forall|t: int| 0 <= t < count ==> #[trigger] out@[t].coeffs@ == noise_row(seed@, first + t, eta),
{
    let mut out: Vec<Poly> = Vec::new();
    let mut i: usize = 0;
    while i < count
        invariant
            first + count <= 0x1_0000,
            eta <= 0x3F_FFFF,
            i <= count,
            out.len() == i,
            all_reduced(out@),
            forall|t: int| 0 <= t < i ==> #[trigger] out@[t].coeffs@ == noise_row(seed@, first + t, eta),
        decreases count - i,
    {
        let len = cbd_bytes_needed(eta);
        let bytes = prf(seed, (first + i) as u8, len);
        let p = cbd(bytes.as_slice(), eta, Q);
        proof {
            assert(seed@.push((first + i) as u8) == seed@.push(((first + i) as int) as u8));
            assert(p.coeffs@ =~= noise_row(seed@, first + i, eta));
        }
        out.push(p);
        i = i + 1;
    }
    out
}

/// The public `t = A s + e` coefficient `c` of row `i` for keygen on `seed`.
pub open spec fn keygen_t_coeff(p: GenericKemParams, seed: Seq<u8>, i: int, c: int) -> int {
    let sigma = derived_seed(seed, 1);
    (seq_dot_sum(matrix_row(derived_seed(seed, 0), i, p.k as int), noise_rows(sigma, 0, p.k as int, p.eta1), p.k as int, c)
        % (Q as int) + noise_row(sigma, p.k + i, p.eta1)[c]) % (Q as int)
}

/// Runs keygen on `seed`: `rho`, `sigma` from the seed, `A` from `rho`, `s` and `e` as noise
/// polynomials `0..k` and `k..2k` from `sigma`, and `t = A s + e`. The only error is a matrix
/// entry whose sampling ran past the XOF budget.
pub fn keygen(params: &GenericKemParams, seed: [u8; 32]) -> (r: Result<(PublicKey, SecretKey), PqcError>)
    requires
        kem_knobs_ok(*params),
    ensures
        r is Ok <==> matrix_ok(derived_seed(seed@, 0), params.k as int),
        r is Err ==> r == Err::<(PublicKey, SecretKey), PqcError>(PqcError::XofBudgetExhausted),
        r matches Ok((pk, sk)) ==> {
            &&& pk.rho@ == derived_seed(seed@, 0)
            &&& pk.t.len() == params.k && sk.s.len() == params.k
            &&& all_reduced(pk.t@) && all_reduced(sk.s@)
            &&& coeff_rows(sk.s@) == noise_rows(derived_seed(seed@, 1), 0, params.k as int, params.eta1)
            &&& forall|i: int, c: int|
                0 <= i < params.k && 0 <= c < N ==> #[trigger] pk.t@[i].coeffs@[c] == keygen_t_coeff(*params, seed@, i, c)
        },
{
    let k = params.k as usize;
    let rho = derive32(&seed, 0);
    let sigma = derive32(&seed, 1);
    let a = match expand_a(&rho, k) {
        Ok(a) => a,
        Err(e) => return Err(e),
    };
    let s = sample_noise(&sigma, 0, k, params.eta1);
    let e = sample_noise(&sigma, k, k, params.eta1);
    proof {
        lemma_reduced_small(s@);
    }
    let mut t: Vec<Poly> = Vec::new();
    let mut i: usize = 0;
    while i < k
        invariant
            kem_knobs_ok(*params),
            k == params.k,
            a.len() == k,
            forall|x: int|
                0 <= x < k ==> (#[trigger] a@[x]).len() == k && all_reduced(a@[x]@) && forall|j: int|
                    0 <= j < k ==> entry(rho@, x, j) == Some(#[trigger] a@[x]@[j].coeffs@),
            s.len() == k,
            all_reduced(s@),
            forall|x: int| 0 <= x < s.len() ==> small_coeffs(#[trigger] s@[x]),
            e.len() == k,
            all_reduced(e@),
            forall|x: int| 0 <= x < k ==> #[trigger] e@[x].coeffs@ == noise_row(sigma@, k + x, params.eta1),
            forall|x: int| 0 <= x < k ==> #[trigger] s@[x].coeffs@ == noise_row(sigma@, 0 + x, params.eta1),
            sigma@ == derived_seed(seed@, 1),
            i <= k,
            t.len() == i,
            all_reduced(t@),
            rho@ == derived_seed(seed@, 0),
            forall|x: int, c: int|
                0 <= x < i && 0 <= c < N ==> #[trigger] t@[x].coeffs@[c] == keygen_t_coeff(*params, seed@, x, c),
        decreases k - i,
    {
        proof {
            lemma_reduced_small(a@[i as int]@);
            assert forall|t: int| 0 <= t < a@[i as int].len() && t < s.len() implies mul_fits(#[trigger] a@[i as int]@[t].coeffs@, s@[t].coeffs@) by {
                lemma_reduced_mul_fits(s@[t], a@[i as int]@[t], Q as int);
            }
        }
        let d = dot(a[i].as_slice(), s.as_slice(), Q);
        proof {
            assert forall|c: int| 0 <= c < N implies i32::MIN <= #[trigger] d.coeffs@[c] + e@[i as int].coeffs@[c] <= i32::MAX by {
                assert(reduced_coeffs(e@[i as int], Q as int));
            }
        }
        let row = d.add(&e[i], Q);
        proof {
            assert forall|c: int| 0 <= c < N implies #[trigger] row.coeffs@[c] == keygen_t_coeff(*params, seed@, i as int, c) by {
                assert(e@[i as int].coeffs@ == noise_row(sigma@, k + i, params.eta1));
                assert forall|j: int| 0 <= j < k implies #[trigger] s@[j].coeffs@ == noise_rows(sigma@, 0, k as int, params.eta1)[j] by {
                    assert(s@[j].coeffs@ == noise_row(sigma@, 0 + j, params.eta1));
                }
                lemma_seq_dot_sum(a@[i as int]@, matrix_row(rho@, i as int, k as int), s@, noise_rows(sigma@, 0, k as int, params.eta1), k as int, c);
            }
        }
        t.push(row);
        i = i + 1;
    }
    proof {
        assert(coeff_rows(s@) =~= noise_rows(derived_seed(seed@, 1), 0, params.k as int, params.eta1));
        assert(rho@ == derived_seed(seed@, 0));
        assert(matrix_ok(derived_seed(seed@, 0), params.k as int));
    }
    Ok((PublicKey { t, rho }, SecretKey { s }))
}

/// The message polynomial: bit `c` of `m` decompressed from 1 bit.
pub open spec fn msg_coeff(m: Seq<u8>, c: int) -> int {
    decompress_spec(decode_fields(m, 1, N as nat)[c] as int, 1, Q as int)
}

/// Coefficient `c` of `u[i] = (A^T r + e1)[i]` for encryption with `rho` and `coins`.
pub open spec fn encrypt_u_coeff(p: GenericKemParams, rho: Seq<u8>, coins: Seq<u8>, i: int, c: int) -> int {
    (seq_dot_sum(matrix_col(rho, i, p.k as int), noise_rows(coins, 0, p.k as int, p.eta1), p.k as int, c) % (Q as int)
        + noise_row(coins, p.k + i, p.eta2)[c]) % (Q as int)
}

/// Coefficient `c` of `v = t . r + e2 + mu`.
pub open spec fn encrypt_v_coeff(p: GenericKemParams, t: Seq<Seq<i32>>, m: Seq<u8>, coins: Seq<u8>, c: int) -> int {
    let m_len = if t.len() <= p.k { t.len() as int } else { p.k as int };
    (((seq_dot_sum(t, noise_rows(coins, 0, p.k as int, p.eta1), m_len, c) % (Q as int) + noise_row(coins, 2 * p.k, p.eta2)[c])
        % (Q as int)) + msg_coeff(m, c)) % (Q as int)
}

/// The compressed `u`, row after row.
pub open spec fn encrypt_u_flat(p: GenericKemParams, rho: Seq<u8>, coins: Seq<u8>) -> Seq<i32> {
    Seq::new((p.k * N) as nat, |j: int| compress_spec(encrypt_u_coeff(p, rho, coins, j / N as int, j % N as int), p.du as nat, Q as int) as i32)
}

/// The compressed `v`.
pub open spec fn encrypt_v_comp(p: GenericKemParams, t: Seq<Seq<i32>>, m: Seq<u8>, coins: Seq<u8>) -> Seq<i32> {
    Seq::new(N as nat, |c: int| compress_spec(encrypt_v_coeff(p, t, m, coins, c), p.dv as nat, Q as int) as i32)
}

fn message_to_poly(m: &[u8; 32]) -> (out: Poly)
    ensures
        forall|c: int| 0 <= c < N ==> #[trigger] out.coeffs@[c] == msg_coeff(m@, c),
        reduced_coeffs(out, Q as int),
{
    let bits = byte_decode(m, 1, N);
    let mut out = Poly::zero();
    let mut i: usize = 0;
    while i < N
        invariant
            bits@ == decode_fields(m@, 1, N as nat),
            i <= N,
            forall|c: int| 0 <= c < i ==> #[trigger] out.coeffs@[c] == msg_coeff(m@, c),
            forall|c: int| 0 <= c < i ==> 0 <= #[trigger] out.coeffs@[c] < Q,
        decreases N - i,
    {
        proof {
            crate::dsa_encode::lemma_stream_value_bound(m@, i as int * 1, 1);
            vstd::arithmetic::power2::lemma2_to64();
        }
        out.coeffs[i] = decompress(bits[i], 1, Q);
        i = i + 1;
    }
    out
}

/// The message bits of `p`: coefficient `c` compressed to one bit, packed into 32 bytes.
fn poly_to_message(p: &Poly) -> (out: [u8; 32])
    ensures
        is_packing_of(out@, Seq::new(N as nat, |c: int| compress_spec(p.coeffs@[c] as int, 1, Q as int) as i32), 1),
{
    let mut bits: Vec<i32> = Vec::new();
    let mut i: usize = 0;
    while i < N
        invariant
            i <= N,
            bits.len() == i,
            forall|c: int| 0 <= c < i ==> #[trigger] bits@[c] == compress_spec(p.coeffs@[c] as int, 1, Q as int) as i32,
        decreases N - i,
    {
        bits.push(compress(p.coeffs[i], 1, Q));
        i = i + 1;
    }
    let packed = byte_encode(bits.as_slice(), 1);
    proof {
        assert(bits@ =~= Seq::new(N as nat, |c: int| compress_spec(p.coeffs@[c] as int, 1, Q as int) as i32));
        assert(packed@.subrange(0, 32) =~= packed@);
    }
    take32(packed.as_slice(), 0)
}

/// Encrypts the 32-byte message `m` to `pk` with the randomness `coins`.
pub fn encrypt(params: &GenericKemParams, pk: &PublicKey, m: &[u8; 32], coins: &[u8; 32]) -> (r: Result<Ciphertext, PqcError>)
    requires
        encrypt_knobs_ok(*params),
    ensures
        r is Ok <==> matrix_ok(pk.rho@, params.k as int),
        r is Err ==> r == Err::<Ciphertext, PqcError>(PqcError::XofBudgetExhausted),
        r matches Ok(ct) ==> is_packing_of(ct.u_bytes@, encrypt_u_flat(*params, pk.rho@, coins@), params.du as nat)
            && is_packing_of(ct.v_bytes@, encrypt_v_comp(*params, coeff_rows(pk.t@), m@, coins@), params.dv as nat),
{
    let k = params.k as usize;
    let a = match expand_a(&pk.rho, k) {
        Ok(a) => a,
        Err(e) => return Err(e),
    };
    let r = sample_noise(coins, 0, k, params.eta1);
    let e1 = sample_noise(coins, k, k, params.eta2);
    let e2v = sample_noise(coins, 2 * k, 1, params.eta2);
    proof {
        lemma_reduced_small(r@);
    }
    let mut u_flat: Vec<i32> = Vec::new();
    let mut i: usize = 0;
    while i < k
        invariant
            encrypt_knobs_ok(*params),
            k == params.k,
            a.len() == k,
            forall|x: int|
                0 <= x < k ==> (#[trigger] a@[x]).len() == k && all_reduced(a@[x]@) && forall|j: int|
                    0 <= j < k ==> entry(pk.rho@, x, j) == Some(#[trigger] a@[x]@[j].coeffs@),
            r.len() == k,
            all_reduced(r@),
            forall|x: int| 0 <= x < r.len() ==> small_coeffs(#[trigger] r@[x]),
            forall|x: int| 0 <= x < k ==> #[trigger] r@[x].coeffs@ == noise_row(coins@, 0 + x, params.eta1),
            e1.len() == k,
            all_reduced(e1@),
            forall|x: int| 0 <= x < k ==> #[trigger] e1@[x].coeffs@ == noise_row(coins@, k + x, params.eta2),
            i <= k,
            u_flat.len() == i * N,
            forall|j: int| 0 <= j < i * N ==> #[trigger] u_flat@[j] == encrypt_u_flat(*params, pk.rho@, coins@)[j],
        decreases k - i,
    {
        let mut column: Vec<Poly> = Vec::new();
        let mut j: usize = 0;
        while j < k
            invariant
                k == params.k,
                i < k,
                a.len() == k,
                forall|x: int|
                    0 <= x < k ==> (#[trigger] a@[x]).len() == k && all_reduced(a@[x]@) && forall|y: int|
                        0 <= y < k ==> entry(pk.rho@, x, y) == Some(#[trigger] a@[x]@[y].coeffs@),
                j <= k,
                column.len() == j,
                all_reduced(column@),
                forall|y: int| 0 <= y < j ==> #[trigger] column@[y].coeffs@ == matrix_col(pk.rho@, i as int, k as int)[y],
            decreases k - j,
        {
            proof {
                assert(all_reduced(a@[j as int]@));
                assert(reduced_coeffs(a@[j as int]@[i as int], Q as int));
                assert(entry(pk.rho@, j as int, i as int) == Some(a@[j as int]@[i as int].coeffs@));
            }
            column.push(a[j][i]);
            j = j + 1;
        }
        proof {
            lemma_reduced_small(column@);
        }
        proof {
            assert forall|t: int| 0 <= t < column.len() && t < r.len() implies mul_fits(#[trigger] column@[t].coeffs@, r@[t].coeffs@) by {
                lemma_reduced_mul_fits(column@[t], r@[t], Q as int);
            }
        }
        let d = dot(column.as_slice(), r.as_slice(), Q);
        proof {
            assert forall|c: int| 0 <= c < N implies i32::MIN <= #[trigger] d.coeffs@[c] + e1@[i as int].coeffs@[c] <= i32::MAX by {
                assert(reduced_coeffs(e1@[i as int], Q as int));
            }
        }
        let row = d.add(&e1[i], Q);
        proof {
            assert forall|x: int| 0 <= x < N implies #[trigger] row.coeffs@[x] == encrypt_u_coeff(*params, pk.rho@, coins@, i as int, x) by {
                assert forall|j: int| 0 <= j < k implies #[trigger] r@[j].coeffs@ == noise_rows(coins@, 0, k as int, params.eta1)[j] by {
                    assert(r@[j].coeffs@ == noise_row(coins@, 0 + j, params.eta1));
                }
                lemma_seq_dot_sum(column@, matrix_col(pk.rho@, i as int, k as int), r@, noise_rows(coins@, 0, k as int, params.eta1), k as int, x);
                assert(e1@[i as int].coeffs@ == noise_row(coins@, k + i, params.eta2));
            }
        }
        let mut c: usize = 0;
        while c < N
            invariant
                encrypt_knobs_ok(*params),
                k == params.k,
                i < k,
                c <= N,
                u_flat.len() == i * N + c,
                forall|x: int| 0 <= x < N ==> #[trigger] row.coeffs@[x] == encrypt_u_coeff(*params, pk.rho@, coins@, i as int, x),
                forall|j: int| 0 <= j < i * N + c ==> #[trigger] u_flat@[j] == encrypt_u_flat(*params, pk.rho@, coins@)[j],
            decreases N - c,
        {
            proof {
                crate::bytes::lemma_flat_index(i as int, c as int);
                assert(i * N + c < params.k * N) by (nonlinear_arith)
                    requires
                        i < params.k,
                        c < N,
                ;
            }
            u_flat.push(compress(row.coeffs[c], params.du, Q));
            c = c + 1;
        }
        proof {
            assert((i + 1) * N == i * N + N) by (nonlinear_arith);
        }
        i = i + 1;
    }
    proof {
        assert(u_flat@ =~= encrypt_u_flat(*params, pk.rho@, coins@));
    }
    let mu = message_to_poly(m);
    proof {
        assert forall|t: int| 0 <= t < pk.t.len() && t < r.len() implies mul_fits(#[trigger] pk.t@[t].coeffs@, r@[t].coeffs@) by {
            lemma_reduced_mul_fits(pk.t@[t], r@[t], Q as int);
        }
    }
    let td = dot(pk.t.as_slice(), r.as_slice(), Q);
    let ghost e2 = e2v@[0];
    proof {
        assert(reduced_coeffs(e2v@[0], Q as int));
    }
    let v1 = td.add(&e2v[0], Q);
    let v = v1.add(&mu, Q);
    let mut v_comp: Vec<i32> = Vec::new();
    let mut c: usize = 0;
    while c < N
        invariant
            encrypt_knobs_ok(*params),
            c <= N,
            v_comp.len() == c,
            forall|x: int| 0 <= x < c ==> #[trigger] v_comp@[x] == compress_spec(v.coeffs@[x] as int, params.dv as nat, Q as int) as i32,
        decreases N - c,
    {
        v_comp.push(compress(v.coeffs[c], params.dv, Q));
        c = c + 1;
    }
    proof {
        let m_len = if pk.t.len() <= params.k { pk.t.len() as int } else { params.k as int };
        assert forall|x: int| 0 <= x < N implies #[trigger] v.coeffs@[x] == encrypt_v_coeff(*params, coeff_rows(pk.t@), m@, coins@, x) by {
            assert forall|j: int| 0 <= j < m_len implies #[trigger] pk.t@[j].coeffs@ == coeff_rows(pk.t@)[j] by {}
            assert forall|j: int| 0 <= j < m_len implies #[trigger] r@[j].coeffs@ == noise_rows(coins@, 0, k as int, params.eta1)[j] by {
                assert(r@[j].coeffs@ == noise_row(coins@, 0 + j, params.eta1));
            }
            lemma_seq_dot_sum(pk.t@, coeff_rows(pk.t@), r@, noise_rows(coins@, 0, k as int, params.eta1), m_len, x);
            assert(e2v@[0].coeffs@ == noise_row(coins@, 2 * k + 0, params.eta2));
        }
        assert(v_comp@ =~= encrypt_v_comp(*params, coeff_rows(pk.t@), m@, coins@));
        assert(params.dv * v_comp.len() <= 30 * N);
        assert(params.du * u_flat.len() <= 30 * (0xFFF * N)) by (nonlinear_arith)
            requires
                params.du <= 30,
                u_flat.len() == params.k * N,
                params.k <= 0xFFF,
        ;
    }
    Ok(Ciphertext { u_bytes: byte_encode(u_flat.as_slice(), params.du), v_bytes: byte_encode(v_comp.as_slice(), params.dv) })
}

/// Row `t` of `u` as decrypt reads it: fields `t * N ..` of `du` bits, each decompressed.
pub open spec fn decrypt_u_rows(p: GenericKemParams, u_bytes: Seq<u8>) -> Seq<Seq<i32>> {
    let vals = decode_fields(u_bytes, p.du as nat, (p.k * N) as nat);
    Seq::new(p.k as nat, |t: int| Seq::new(N as nat, |c: int| decompress_spec(vals[t * N + c] as int, p.du as nat, Q as int) as i32))
}

/// Coefficient `c` of the recovered `v - s . u`.
pub open spec fn decrypt_mu_coeff(p: GenericKemParams, s: Seq<Seq<i32>>, ct_u: Seq<u8>, ct_v: Seq<u8>, c: int) -> int {
    let m_len = if s.len() <= p.k { s.len() as int } else { p.k as int };
    let v = decompress_spec(decode_fields(ct_v, p.dv as nat, N as nat)[c] as int, p.dv as nat, Q as int);
    (v - seq_dot_sum(s, decrypt_u_rows(p, ct_u), m_len, c) % (Q as int)) % (Q as int)
}

/// Decrypts `ct` with `sk`: the message is `v - s . u` rounded to one bit per coefficient.
pub fn decrypt(params: &GenericKemParams, sk: &SecretKey, ct: &Ciphertext) -> (out: [u8; 32])
    requires
        kem_knobs_ok(*params),
        forall|t: int| 0 <= t < sk.s.len() ==> small_coeffs(#[trigger] sk.s@[t]),
        params.du * (params.k * N) <= 8 * ct.u_bytes.len(),
        8 * ct.u_bytes.len() <= usize::MAX,
        params.dv * N <= 8 * ct.v_bytes.len(),
        8 * ct.v_bytes.len() <= usize::MAX,
    ensures
        is_packing_of(
            out@,
            Seq::new(N as nat, |c: int| compress_spec(decrypt_mu_coeff(*params, coeff_rows(sk.s@), ct.u_bytes@, ct.v_bytes@, c), 1, Q as int) as i32),
            1,
        ),
{
    let k = params.k as usize;
    proof {
        assert(k * N <= 0xFFF * N) by (nonlinear_arith)
            requires
                k <= 0xFFF,
        ;
    }
    let u_vals = byte_decode(ct.u_bytes.as_slice(), params.du, k * N);
    let ghost u_rows = decrypt_u_rows(*params, ct.u_bytes@);
    let mut u: Vec<Poly> = Vec::new();
    let mut t: usize = 0;
    while t < k
        invariant
            kem_knobs_ok(*params),
            k == params.k,
            k * N <= 0xFFF * N,
            u_vals@ == decode_fields(ct.u_bytes@, params.du as nat, (k * N) as nat),
            u_rows == decrypt_u_rows(*params, ct.u_bytes@),
            t <= k,
            u.len() == t,
            all_reduced(u@),
            forall|x: int| 0 <= x < t ==> #[trigger] u@[x].coeffs@ == u_rows[x],
        decreases k - t,
    {
        let mut p = Poly::zero();
        let mut c: usize = 0;
        proof {
            assert((t + 1) * N <= k * N) by (nonlinear_arith)
                requires
                    t < k,
            ;
            assert((t + 1) * N == t * N + N) by (nonlinear_arith);
        }
        while c < N
            invariant
                kem_knobs_ok(*params),
                k == params.k,
                t < k,
                t * N + N <= k * N,
                k * N <= 0xFFF * N,
                u_vals@ == decode_fields(ct.u_bytes@, params.du as nat, (k * N) as nat),
                u_rows == decrypt_u_rows(*params, ct.u_bytes@),
                c <= N,
                forall|x: int| 0 <= x < c ==> #[trigger] p.coeffs@[x] == u_rows[t as int][x],
                forall|x: int| 0 <= x < c ==> 0 <= #[trigger] p.coeffs@[x] < Q,
            decreases N - c,
        {
            proof {
                crate::dsa_encode::lemma_stream_value_bound(ct.u_bytes@, (t * N + c) * params.du, params.du as nat);
                vstd::arithmetic::power2::lemma2_to64();
                if params.du < 31 {
                    vstd::arithmetic::power2::lemma_pow2_strictly_increases(params.du as nat, 31);
                }
            }
            p.coeffs[c] = decompress(u_vals[t * N + c], params.du, Q);
            c = c + 1;
        }
        proof {
            assert(p.coeffs@ =~= u_rows[t as int]);
        }
        u.push(p);
        t = t + 1;
    }
    let v_vals = byte_decode(ct.v_bytes.as_slice(), params.dv, N);
    let mut v = Poly::zero();
    let mut c: usize = 0;
    while c < N
        invariant
            kem_knobs_ok(*params),
            v_vals@ == decode_fields(ct.v_bytes@, params.dv as nat, N as nat),
            c <= N,
            forall|x: int| 0 <= x < c ==> #[trigger] v.coeffs@[x] == decompress_spec(v_vals@[x] as int, params.dv as nat, Q as int),
            forall|x: int| 0 <= x < c ==> 0 <= #[trigger] v.coeffs@[x] < Q,
        decreases N - c,
    {
        proof {
            crate::dsa_encode::lemma_stream_value_bound(ct.v_bytes@, c * params.dv, params.dv as nat);
            vstd::arithmetic::power2::lemma2_to64();
            if params.dv < 31 {
                vstd::arithmetic::power2::lemma_pow2_strictly_increases(params.dv as nat, 31);
            }
        }
        v.coeffs[c] = decompress(v_vals[c], params.dv, Q);
        c = c + 1;
    }
    proof {
        lemma_reduced_small(u@);
    }
    proof {
        assert forall|t: int| 0 <= t < sk.s.len() && t < u.len() implies mul_fits(#[trigger] sk.s@[t].coeffs@, u@[t].coeffs@) by {
            lemma_reduced_mul_fits(sk.s@[t], u@[t], Q as int);
        }
    }
    let su = dot(sk.s.as_slice(), u.as_slice(), Q);
    let mu = v.sub(&su, Q);
    proof {
        let m_len = if sk.s.len() <= params.k { sk.s.len() as int } else { params.k as int };
        assert forall|x: int| 0 <= x < N implies #[trigger] mu.coeffs@[x] == decrypt_mu_coeff(*params, coeff_rows(sk.s@), ct.u_bytes@, ct.v_bytes@, x) by {
            assert forall|j: int| 0 <= j < m_len implies #[trigger] u@[j].coeffs@ == decrypt_u_rows(*params, ct.u_bytes@)[j] by {}
            lemma_seq_dot_sum(sk.s@, coeff_rows(sk.s@), u@, decrypt_u_rows(*params, ct.u_bytes@), m_len, x);
        }
    }
    let out = poly_to_message(&mu);
    proof {
        assert(Seq::new(N as nat, |c: int| compress_spec(mu.coeffs@[c] as int, 1, Q as int) as i32) =~= Seq::new(
            N as nat,
            |c: int| compress_spec(decrypt_mu_coeff(*params, coeff_rows(sk.s@), ct.u_bytes@, ct.v_bytes@, c), 1, Q as int) as i32,
        ));
    }
    out
}

/// Coefficients below the fixed modulus take 12 bits.
proof fn lemma_q_bits()
    ensures
        crate::encode::bit_length((Q - 1) as nat) == 12,
{
    reveal_with_fuel(crate::encode::bit_length, 13);
}

/// The public key as bytes: all `t` coefficients at 12 bits each, then `rho`.
pub fn encode_pk_bytes(pk: &PublicKey) -> (out: Vec<u8>)
    requires
        pk.t.len() <= 0xFFFF,
    ensures
        out@.len() >= 32,
        is_packing_of(out@.subrange(0, out@.len() - 32), flat_coeffs(pk.t@), 12),
        out@.subrange(out@.len() - 32, out@.len() as int) == pk.rho@,
{
    let qbits = bits_for_q(Q);
    proof {
        lemma_q_bits();
        assert(pk.t.len() * N <= 0xFFFF * N) by (nonlinear_arith)
            requires
                pk.t.len() <= 0xFFFF,
        ;
    }
    let coeffs = flatten_polys(pk.t.as_slice(), None);
    let mut bytes = byte_encode(coeffs.as_slice(), qbits);
    let ghost packed = bytes@;
    append_bytes(&mut bytes, &pk.rho);
    proof {
        assert(bytes@.subrange(0, bytes@.len() - 32) =~= packed);
        assert(bytes@.subrange(bytes@.len() - 32, bytes@.len() as int) =~= pk.rho@);
    }
    bytes
}

/// The secret key as bytes: all `s` coefficients at 12 bits each.
pub fn encode_sk_bytes(sk: &SecretKey) -> (out: Vec<u8>)
    requires
        sk.s.len() <= 0xFFFF,
    ensures
        is_packing_of(out@, flat_coeffs(sk.s@), 12),
{
    let qbits = bits_for_q(Q);
    proof {
        lemma_q_bits();
        assert(sk.s.len() * N <= 0xFFFF * N) by (nonlinear_arith)
            requires
                sk.s.len() <= 0xFFFF,
        ;
    }
    let coeffs = flatten_polys(sk.s.as_slice(), None);
    byte_encode(coeffs.as_slice(), qbits)
}

} // verus!
