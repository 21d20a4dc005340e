//! Kyber-like public-key encryption for the runtime-degree KEM: keygen / encrypt / decrypt over
//! a runtime-chosen (k, n, q, eta1, eta2, du, dv), with `Vec<i32>` polynomials and NTT
//! multiplication. Structurally faithful to K-PKE (matrix-vector shape, bounded noise,
//! compression before transmission), not byte-exact to any standard.
use crate::bytes::take32;
use crate::custom_kem_encode::{concat_rows, kem_codec_ok, rows_view, vrows_of};
use crate::custom_kem_ntt::{build_table, ints32, no_root_below, ntt_mul, ring_mul, table_is_spec, table_wf, NttTable, ROOT_SEARCH_LIMIT};
use crate::custom_kem_params::GenericCustomKemParams;
use crate::custom_kem_sample::{sample_eta_vec, sample_uniform_vec};
use crate::dsa_sample::{byte_eta_run, seed_nonce, seed_two, uniform_run};
use crate::encode::{
    bit_length, byte_decode, byte_encode, compress, compress_spec, decode_fields, decompress,
    decompress_spec, is_packing_of, stream_bit,
};
use crate::error::PqcError;
use crate::sample::prf;
use crate::xof::shake256_output;
use vstd::arithmetic::power2::pow2;
use vstd::prelude::*;

verus! {

#[derive(Clone)]
pub struct PublicKey {
    pub t: Vec<Vec<i32>>,
    pub rho: [u8; 32],
}

#[derive(Clone)]
pub struct SecretKey {
    pub s: Vec<Vec<i32>>,
}

pub struct Ciphertext {
    pub u_bytes: Vec<u8>,
    pub v_bytes: Vec<u8>,
}

/// What the engine needs of a parameter set: the key codecs' conditions, an NTT table for
/// `(n, q)`, compression widths in `[1, bit_length(q - 1) - 1]`, and noise bounds that keep
/// every intermediate inside an `i32`.
pub open spec fn kem_params_ok(p: GenericCustomKemParams) -> bool {
    &&& kem_codec_ok(p)
    &&& !no_root_below(p.q as int, p.n as int, ROOT_SEARCH_LIMIT as int)
    &&& 1 <= p.du < bit_length((p.q - 1) as nat)
    &&& 1 <= p.dv < bit_length((p.q - 1) as nat)
    &&& p.eta2 < 0x4000_0000
}

/// Coefficient-wise `(a + b) mod q` over the common length.
pub open spec fn add_mod(a: Seq<i32>, b: Seq<i32>, q: int) -> Seq<i32> {
    Seq::new(if a.len() <= b.len() { a.len() } else { b.len() }, |i: int| ((a[i] + b[i]) % q) as i32)
}

/// Coefficient-wise `(a - b) mod q` over the common length.
pub open spec fn sub_mod(a: Seq<i32>, b: Seq<i32>, q: int) -> Seq<i32> {
    Seq::new(if a.len() <= b.len() { a.len() } else { b.len() }, |i: int| ((a[i] - b[i]) % q) as i32)
}

/// The NTT product of two `n`-coefficient polynomials, as `i32` coefficients.
pub open spec fn mul_ring(a: Seq<i32>, b: Seq<i32>, n: int, q: int) -> Seq<i32> {
    Seq::new(n as nat, |i: int| ring_mul(ints32(a), ints32(b), n, q)[i] as i32)
}

/// `sum_{j < m} a[j] * b[j]` in the ring, accumulated from zero left to right.
pub open spec fn dot_rows(a: Seq<Seq<i32>>, b: Seq<Seq<i32>>, m: nat, n: int, q: int) -> Seq<i32>
    decreases m,
{
    if m == 0 {
        Seq::new(n as nat, |i: int| 0i32)
    } else {
        add_mod(dot_rows(a, b, (m - 1) as nat, n, q), mul_ring(a[m - 1], b[m - 1], n, q), q)
    }
}

/// The shorter of two lengths.
pub open spec fn min_len(a: int, b: int) -> nat {
    (if a <= b { a } else { b }) as nat
}

/// Matrix entry `(i, j)` sampled from `rho`.
pub open spec fn matrix_entry(rho: Seq<u8>, i: int, j: int, p: GenericCustomKemParams) -> Option<Seq<i32>> {
    uniform_run(seed_two(rho, i as u8, j as u8), p.q as int, bit_length((p.q - 1) as nat), 0, p.n as nat)
}

/// Noise polynomial `nonce` sampled from `seed`.
pub open spec fn noise(seed: Seq<u8>, nonce: int, eta: u32, p: GenericCustomKemParams) -> Option<Seq<i32>> {
    byte_eta_run(seed_nonce(seed, nonce as u16), eta as int, 0, p.n as nat)
}

/// Every matrix entry sampled from `rho` finishes within the XOF budget.
pub open spec fn matrix_ok(rho: Seq<u8>, p: GenericCustomKemParams) -> bool {
    forall|i: int, j: int| 0 <= i < p.k && 0 <= j < p.k ==> #[trigger] matrix_entry(rho, i, j, p) is Some
}

/// Noise polynomials `first .. first + count` from `seed` all finish within the budget.
pub open spec fn noise_ok(seed: Seq<u8>, first: int, count: int, eta: u32, p: GenericCustomKemParams) -> bool {
    forall|i: int| 0 <= i < count ==> #[trigger] noise(seed, first + i, eta, p) is Some
}

/// Row `i` of the sampled matrix.
pub open spec fn matrix_row(rho: Seq<u8>, i: int, p: GenericCustomKemParams) -> Seq<Seq<i32>> {
    Seq::new(p.k as nat, |j: int| matrix_entry(rho, i, j, p).unwrap())
}

/// Column `i` of the sampled matrix.
pub open spec fn matrix_col(rho: Seq<u8>, i: int, p: GenericCustomKemParams) -> Seq<Seq<i32>> {
    Seq::new(p.k as nat, |j: int| matrix_entry(rho, j, i, p).unwrap())
}

/// Noise polynomials `first .. first + count` from `seed`.
pub open spec fn noise_vec(seed: Seq<u8>, first: int, count: int, eta: u32, p: GenericCustomKemParams) -> Seq<Seq<i32>> {
    Seq::new(count as nat, |i: int| noise(seed, first + i, eta, p).unwrap())
}

/// Finished noise polynomials have `n` coefficients in `[-eta, eta]`.
pub proof fn lemma_noise_bound(seed: Seq<u8>, first: int, count: int, eta: u32, p: GenericCustomKemParams)
    requires
        noise_ok(seed, first, count, eta, p),
        eta < 0x4000_0000,
    ensures
        forall|t: int| 0 <= t < count ==> (#[trigger] noise_vec(seed, first, count, eta, p)[t]).len() == p.n,
        forall|t: int, i: int|
            0 <= t < count && 0 <= i < p.n ==> -(eta as int) <= #[trigger] noise_vec(seed, first, count, eta, p)[t][i] <= eta,
{
    assert forall|t: int| 0 <= t < count implies (#[trigger] noise_vec(seed, first, count, eta, p)[t]).len() == p.n by {
        crate::dsa_sample::lemma_byte_eta_run_shape(seed_nonce(seed, (first + t) as u16), eta as int, 0, p.n as nat);
        assert(noise(seed, first + t, eta, p) is Some);
    }
    assert forall|t: int, i: int| 0 <= t < count && 0 <= i < p.n implies -(eta as int) <= #[trigger] noise_vec(
        seed,
        first,
        count,
        eta,
        p,
    )[t][i] <= eta by {
        crate::dsa_sample::lemma_byte_eta_run_shape(seed_nonce(seed, (first + t) as u16), eta as int, 0, p.n as nat);
        assert(noise(seed, first + t, eta, p) is Some);
    }
}

/// The 32-byte seeds `rho = SHAKE256(seed || 0)` and `sigma = SHAKE256(seed || 1)`.
pub open spec fn derived_seed(seed: Seq<u8>, nonce: u8) -> Seq<u8> {
    shake256_output(seed.push(nonce), 32)
}

/// Whether keygen on `seed` finishes within the sampling budget.
pub open spec fn keygen_ok(p: GenericCustomKemParams, seed: Seq<u8>) -> bool {
    &&& matrix_ok(derived_seed(seed, 0), p)
    &&& noise_ok(derived_seed(seed, 1), 0, 2 * p.k, p.eta1, p)
}

/// The public `t = A s + e` of keygen on `seed`.
pub open spec fn keygen_t(p: GenericCustomKemParams, seed: Seq<u8>) -> Seq<Seq<i32>> {
    let rho = derived_seed(seed, 0);
    let sigma = derived_seed(seed, 1);
    let s = noise_vec(sigma, 0, p.k as int, p.eta1, p);
    let e = noise_vec(sigma, p.k as int, p.k as int, p.eta1, p);
    Seq::new(
        p.k as nat,
        |i: int| add_mod(dot_rows(matrix_row(rho, i, p), s, p.k as nat, p.n as int, p.q as int), e[i], p.q as int),
    )
}

fn derive32(seed: &[u8; 32], nonce: u8) -> (out: [u8; 32])
    ensures
        out@ == derived_seed(seed@, nonce),
{
    let v = prf(seed, nonce, 32);
    let out = take32(v.as_slice(), 0);
    proof {
        assert(out@ =~= v@);
    }
    out
}

/// Samples the `k x k` matrix from `rho`.
fn expand_a(rho: &[u8; 32], params: &GenericCustomKemParams) -> (r: Result<Vec<Vec<Vec<i32>>>, PqcError>)
    requires
        kem_params_ok(*params),
    ensures
        r is Ok <==> matrix_ok(rho@, *params),
        r is Err ==> r == Err::<Vec<Vec<Vec<i32>>>, PqcError>(PqcError::XofBudgetExhausted),
        r matches Ok(a) ==> a.len() == params.k && forall|i: int|
            0 <= i < params.k ==> (#[trigger] a@[i]).len() == params.k && rows_view(a@[i]@) == matrix_row(rho@, i, *params)
                && vrows_of(a@[i]@, params.n as int),
{
    let k = params.k as usize;
    let mut a: Vec<Vec<Vec<i32>>> = Vec::new();
    let mut i: usize = 0;
    while i < k
        invariant
            kem_params_ok(*params),
            k == params.k,
            i <= k,
            a.len() == i,
            forall|x: int| 0 <= x < i ==> (#[trigger] a@[x]).len() == k && rows_view(a@[x]@) == matrix_row(rho@, x, *params)
                && vrows_of(a@[x]@, params.n as int),
            forall|x: int, y: int| 0 <= x < i && 0 <= y < k ==> #[trigger] matrix_entry(rho@, x, y, *params) is Some,
        decreases k - i,
    {
        let mut row: Vec<Vec<i32>> = Vec::new();
        let mut j: usize = 0;
        while j < k
            invariant
                kem_params_ok(*params),
                k == params.k,
                i < k,
                j <= k,
                row.len() == j,
                forall|y: int| 0 <= y < j ==> matrix_entry(rho@, i as int, y, *params) == Some(#[trigger] row@[y]@),
                vrows_of(row@, params.n as int),
            decreases k - j,
        {
            match sample_uniform_vec(rho, i as u8, j as u8, params.q, params.n) {
                Ok(v) => {
                    row.push(v);
                },
                Err(e) => {
                    proof {
                        assert(matrix_entry(rho@, i as int, j as int, *params) is None);
                    }
                    return Err(e);
                },
            }
            j = j + 1;
        }
        proof {
            assert(rows_view(row@) =~= matrix_row(rho@, i as int, *params));
            assert forall|y: int| 0 <= y < k implies #[trigger] matrix_entry(rho@, i as int, y, *params) is Some by {
                assert(matrix_entry(rho@, i as int, y, *params) == Some(row@[y]@));
            }
        }
        a.push(row);
        i = i + 1;
    }
    Ok(a)
}

/// Samples noise polynomials `first .. first + count` from `seed`.
fn sample_noise(seed: &[u8; 32], first: usize, count: usize, eta: u32, params: &GenericCustomKemParams) -> (r: Result<Vec<Vec<i32>>, PqcError>)
    requires
        kem_params_ok(*params),
        first + count <= 0x1_0000,
        eta < 0x4000_0000,
    ensures
        r is Ok <==> noise_ok(seed@, first as int, count as int, eta, *params),
        r is Err ==> r == Err::<Vec<Vec<i32>>, PqcError>(PqcError::XofBudgetExhausted),
        r matches Ok(v) ==> v.len() == count && vrows_of(v@, params.n as int) && rows_view(v@) == noise_vec(
            seed@,
            first as int,
            count as int,
            eta,
            *params,
        ),
{
    let mut out: Vec<Vec<i32>> = Vec::new();
    let mut i: usize = 0;
    while i < count
        invariant
            first + count <= 0x1_0000,
            eta < 0x4000_0000,
            i <= count,
            out.len() == i,
            forall|x: int| 0 <= x < i ==> (#[trigger] out@[x]).len() == params.n,
            forall|x: int| 0 <= x < i ==> noise(seed@, first + x, eta, *params) == Some(#[trigger] out@[x]@),
        decreases count - i,
    {
        match sample_eta_vec(seed, (first + i) as u16, eta, params.n) {
            Ok(v) => {
                out.push(v);
            },
            Err(e) => {
                proof {
                    assert(noise(seed@, first + i, eta, *params) is None);
                }
                return Err(e);
            },
        }
        i = i + 1;
    }
    proof {
        assert(rows_view(out@) =~= noise_vec(seed@, first as int, count as int, eta, *params));
        assert forall|x: int| 0 <= x < count implies #[trigger] noise(seed@, first as int + x, eta, *params) is Some by {
            assert(noise(seed@, first + x, eta, *params) == Some(out@[x]@));
        }
    }
    Ok(out)
}

/// Coefficient-wise `(a + b) mod q` over the common length.
fn vec_add(a: &Vec<i32>, b: &Vec<i32>, q: i32) -> (out: Vec<i32>)
    requires
        q > 0,
    ensures
        out@ == add_mod(a@, b@, q as int),
{
    let len = if a.len() <= b.len() {
        a.len()
    } else {
        b.len()
    };
    let mut out: Vec<i32> = Vec::new();
    let mut i: usize = 0;
    while i < len
        invariant
            q > 0,
            len <= a.len(),
            len <= b.len(),
            i <= len,
            out.len() == i,
            forall|x: int| 0 <= x < i ==> #[trigger] out@[x] == ((a@[x] + b@[x]) % (q as int)) as i32,
        decreases len - i,
    {
        let s = crate::arith::rem_euclid_i64(a[i] as i64 + b[i] as i64, q as i64);
        out.push(s as i32);
        i = i + 1;
    }
    proof {
        assert(out@ =~= add_mod(a@, b@, q as int));
    }
    out
}

/// Coefficient-wise `(a - b) mod q` over the common length.
fn vec_sub(a: &Vec<i32>, b: &Vec<i32>, q: i32) -> (out: Vec<i32>)
    requires
        q > 0,
    ensures
        out@ == sub_mod(a@, b@, q as int),
{
    let len = if a.len() <= b.len() {
        a.len()
    } else {
        b.len()
    };
    let mut out: Vec<i32> = Vec::new();
    let mut i: usize = 0;
    while i < len
        invariant
            q > 0,
            len <= a.len(),
            len <= b.len(),
            i <= len,
            out.len() == i,
            forall|x: int| 0 <= x < i ==> #[trigger] out@[x] == ((a@[x] - b@[x]) % (q as int)) as i32,
        decreases len - i,
    {
        let s = crate::arith::rem_euclid_i64(a[i] as i64 - b[i] as i64, q as i64);
        out.push(s as i32);
        i = i + 1;
    }
    proof {
        assert(out@ =~= sub_mod(a@, b@, q as int));
    }
    out
}

/// Dot product of two vectors of polynomials (over their common length), via NTT products.
fn poly_vec_dot(a: &Vec<Vec<i32>>, b: &Vec<Vec<i32>>, table: &NttTable, q: i32) -> (out: Vec<i32>)
    requires
        table_wf(*table),
        table_is_spec(*table),
        table.q == q,
        vrows_of(a@, table.n as int),
        vrows_of(b@, table.n as int),
    ensures
        out@ == dot_rows(rows_view(a@), rows_view(b@), min_len(a.len() as int, b.len() as int), table.n as int, q as int),
        out.len() == table.n,
{
    let m = if a.len() <= b.len() {
        a.len()
    } else {
        b.len()
    };
    let mut acc: Vec<i32> = Vec::new();
    let mut z: usize = 0;
    while z < table.n
        invariant
            z <= table.n,
            acc.len() == z,
            forall|x: int| 0 <= x < z ==> #[trigger] acc@[x] == 0i32,
        decreases table.n - z,
    {
        acc.push(0);
        z = z + 1;
    }
    proof {
        assert(acc@ =~= dot_rows(rows_view(a@), rows_view(b@), 0, table.n as int, q as int));
    }
    let mut j: usize = 0;
    while j < m
        invariant
            table_wf(*table),
            table_is_spec(*table),
            table.q == q,
            vrows_of(a@, table.n as int),
            vrows_of(b@, table.n as int),
            m <= a.len(),
            m <= b.len(),
            j <= m,
            acc.len() == table.n,
            acc@ == dot_rows(rows_view(a@), rows_view(b@), j as nat, table.n as int, q as int),
        decreases m - j,
    {
        let prod = ntt_mul(a[j].as_slice(), b[j].as_slice(), table);
        proof {
            assert(prod@ =~= mul_ring(a@[j as int]@, b@[j as int]@, table.n as int, q as int)) by {
                assert(prod.len() == table.n) by {
                    assert(ints32(prod@).len() == prod.len());
                }
                assert forall|x: int| 0 <= x < table.n implies prod@[x] == mul_ring(a@[j as int]@, b@[j as int]@, table.n as int, q as int)[x] by {
                    assert(ints32(prod@)[x] == prod@[x] as int);
                }
            }
        }
        acc = vec_add(&acc, &prod, q);
        j = j + 1;
    }
    acc
}

/// Runs keygen on `seed`: `rho`, `sigma` from the seed, `A` from `rho`, `s` and `e` as noise
/// polynomials `0..k` and `k..2k` from `sigma`, and `t = A s + e`.
pub fn keygen(params: &GenericCustomKemParams, seed: [u8; 32]) -> (r: Result<(PublicKey, SecretKey), PqcError>)
    requires
        kem_params_ok(*params),
    ensures
        !keygen_ok(*params, seed@) ==> r == Err::<(PublicKey, SecretKey), PqcError>(PqcError::XofBudgetExhausted),
        keygen_ok(*params, seed@) ==> (r matches Ok((pk, sk)) && pk.rho@ == derived_seed(seed@, 0)
            && rows_view(pk.t@) == keygen_t(*params, seed@) && rows_view(sk.s@) == noise_vec(
            derived_seed(seed@, 1),
            0,
            params.k as int,
            params.eta1,
            *params,
        ) && pk.t.len() == params.k && vrows_of(pk.t@, params.n as int) && sk.s.len() == params.k
            && vrows_of(sk.s@, params.n as int)),
{
    let table = match build_table(params.n, params.q) {
        Ok(t) => t,
        Err(_) => {
            proof {
                assert(false);
            }
            return Err(PqcError::XofBudgetExhausted);
        },
    };
    let k = params.k as usize;
    let rho = derive32(&seed, 0);
    let sigma = derive32(&seed, 1);
    let a = match expand_a(&rho, params) {
        Ok(a) => a,
        Err(e) => {
            proof {
                assert(!matrix_ok(rho@, *params));
                assert(rho@ == derived_seed(seed@, 0));
            }
            return Err(e);
        },
    };
    let s = match sample_noise(&sigma, 0, k, params.eta1, params) {
        Ok(v) => v,
        Err(e) => {
            proof {
                let x = choose|x: int| 0 <= x < k && !(#[trigger] noise(sigma@, 0 + x, params.eta1, *params) is Some);
                assert(noise(sigma@, 0 + x, params.eta1, *params) is None);
                assert(!noise_ok(sigma@, 0, 2 * params.k, params.eta1, *params));
                assert(sigma@ == derived_seed(seed@, 1));
            }
            return Err(e);
        },
    };
    let e = match sample_noise(&sigma, k, k, params.eta1, params) {
        Ok(v) => v,
        Err(e) => {
            proof {
                let x = choose|x: int| 0 <= x < k && !(#[trigger] noise(sigma@, k + x, params.eta1, *params) is Some);
                assert(noise(sigma@, (k + x) as int, params.eta1, *params) is None);
                assert(noise(sigma@, 0 + (k + x), params.eta1, *params) is None);
                assert(!noise_ok(sigma@, 0, 2 * params.k, params.eta1, *params));
                assert(sigma@ == derived_seed(seed@, 1));
            }
            return Err(e);
        },
    };
    proof {
        assert forall|x: int| 0 <= x < 2 * params.k implies #[trigger] noise(sigma@, 0 + x, params.eta1, *params) is Some by {
            if x < k {
                assert(noise(sigma@, 0 + x, params.eta1, *params) is Some);
            } else {
                assert(noise(sigma@, k + (x - k), params.eta1, *params) is Some);
            }
        }
    }
    let mut t: Vec<Vec<i32>> = Vec::new();
    let mut i: usize = 0;
    while i < k
        invariant
            kem_params_ok(*params),
            table_wf(table),
            table_is_spec(table),
            table.n == params.n,
            table.q == params.q,
            k == params.k,
            a.len() == k,
            forall|x: int| 0 <= x < k ==> (#[trigger] a@[x]).len() == k && rows_view(a@[x]@) == matrix_row(rho@, x, *params)
                && vrows_of(a@[x]@, params.n as int),
            s.len() == k,
            vrows_of(s@, params.n as int),
            rows_view(s@) == noise_vec(sigma@, 0, k as int, params.eta1, *params),
            e.len() == k,
            vrows_of(e@, params.n as int),
            rows_view(e@) == noise_vec(sigma@, k as int, k as int, params.eta1, *params),
            i <= k,
            t.len() == i,
            vrows_of(t@, params.n as int),
            forall|x: int| 0 <= x < i ==> #[trigger] t@[x]@ == add_mod(
                dot_rows(matrix_row(rho@, x, *params), rows_view(s@), params.k as nat, params.n as int, params.q as int),
                rows_view(e@)[x],
                params.q as int,
            ),
        decreases k - i,
    {
        let d = poly_vec_dot(&a[i], &s, &table, params.q);
        let row = vec_add(&d, &e[i], params.q);
        proof {
            assert(rows_view(a@[i as int]@) == matrix_row(rho@, i as int, *params));
            assert(rows_view(e@)[i as int] == e@[i as int]@);
        }
        t.push(row);
        i = i + 1;
    }
    proof {
        assert(rows_view(t@) =~= keygen_t(*params, seed@));
    }
    Ok((PublicKey { t, rho }, SecretKey { s }))
}

/// The message polynomial: bit `i` of `m` (least significant first) decompressed from 1 bit.
pub open spec fn msg_poly(m: Seq<u8>, n: int, q: int) -> Seq<i32> {
    Seq::new(n as nat, |i: int| decompress_spec(decode_fields(m, 1, n as nat)[i] as int, 1, q) as i32)
}

/// Coefficients `c` of `p` compressed to `d` bits.
pub open spec fn compress_seq(p: Seq<i32>, d: nat, q: int) -> Seq<i32> {
    Seq::new(p.len(), |i: int| compress_spec(p[i] as int, d, q) as i32)
}

/// The rows of `u` laid end to end, each coefficient compressed to `d` bits.
pub open spec fn compress_rows(u: Seq<Seq<i32>>, n: int, d: nat, q: int) -> Seq<i32> {
    Seq::new((u.len() * n) as nat, |j: int| compress_spec(u[j / n][j % n] as int, d, q) as i32)
}

/// Whether encryption with `rho` and `coins` finishes within the sampling budget.
pub open spec fn encrypt_ok(p: GenericCustomKemParams, rho: Seq<u8>, coins: Seq<u8>) -> bool {
    &&& matrix_ok(rho, p)
    &&& noise_ok(coins, 0, p.k as int, p.eta1, p)
    &&& noise_ok(coins, p.k as int, p.k as int, p.eta2, p)
    &&& noise(coins, 2 * p.k, p.eta2, p) is Some
}

/// `u = A^T r + e1`.
pub open spec fn encrypt_u(p: GenericCustomKemParams, rho: Seq<u8>, coins: Seq<u8>) -> Seq<Seq<i32>> {
    let r = noise_vec(coins, 0, p.k as int, p.eta1, p);
    let e1 = noise_vec(coins, p.k as int, p.k as int, p.eta2, p);
    Seq::new(
        p.k as nat,
        |i: int| add_mod(dot_rows(matrix_col(rho, i, p), r, p.k as nat, p.n as int, p.q as int), e1[i], p.q as int),
    )
}

/// `v = t . r + e2 + mu`.
pub open spec fn encrypt_v(p: GenericCustomKemParams, t: Seq<Seq<i32>>, m: Seq<u8>, coins: Seq<u8>) -> Seq<i32> {
    let r = noise_vec(coins, 0, p.k as int, p.eta1, p);
    let e2 = noise(coins, 2 * p.k, p.eta2, p).unwrap();
    add_mod(
        add_mod(dot_rows(t, r, min_len(t.len() as int, p.k as int), p.n as int, p.q as int), e2, p.q as int),
        msg_poly(m, p.n as int, p.q as int),
        p.q as int,
    )
}

fn message_to_poly(m: &[u8], n: usize, q: i32) -> (out: Vec<i32>)
    requires
        q > 0,
        n <= 8 * m.len(),
        8 * m.len() <= usize::MAX,
    ensures
        out@ == msg_poly(m@, n as int, q as int),
{
    let bits = byte_decode(m, 1, n);
    let mut out: Vec<i32> = Vec::new();
    let mut i: usize = 0;
    while i < n
        invariant
            q > 0,
            bits@ == decode_fields(m@, 1, n as nat),
            i <= n,
            out.len() == i,
            forall|x: int| 0 <= x < i ==> #[trigger] out@[x] == decompress_spec(bits@[x] as int, 1, q as int) as i32,
        decreases n - i,
    {
        proof {
            crate::dsa_encode::lemma_stream_value_bound(m@, i as int * 1, 1);
            vstd::arithmetic::power2::lemma2_to64();
        }
        out.push(decompress(bits[i], 1, q));
        i = i + 1;
    }
    proof {
        assert(out@ =~= msg_poly(m@, n as int, q as int));
    }
    out
}

fn compress_vec(p: &Vec<i32>, d: u32, q: i32) -> (out: Vec<i32>)
    requires
        q > 0,
        d <= 30,
    ensures
        out@ == compress_seq(p@, d as nat, q as int),
{
    let mut out: Vec<i32> = Vec::new();
    let mut i: usize = 0;
    while i < p.len()
        invariant
            q > 0,
            d <= 30,
            i <= p.len(),
            out.len() == i,
            forall|x: int| 0 <= x < i ==> #[trigger] out@[x] == compress_spec(p@[x] as int, d as nat, q as int) as i32,
        decreases p.len() - i,
    {
        out.push(compress(p[i], d, q));
        i = i + 1;
    }
    proof {
        assert(out@ =~= compress_seq(p@, d as nat, q as int));
    }
    out
}

/// The message bits of `p`: coefficient `i` compressed to one bit, packed least significant
/// bit first.
fn poly_to_message(p: &Vec<i32>, q: i32) -> (out: Vec<u8>)
    requires
        q > 0,
        p.len() <= 0x1000_0000,
    ensures
        is_packing_of(out@, compress_seq(p@, 1, q as int), 1),
{
    let bits = compress_vec(p, 1, q);
    byte_encode(bits.as_slice(), 1)
}

pub proof fn lemma_widths(p: GenericCustomKemParams)
    requires
        kem_params_ok(p),
    ensures
        1 <= p.du <= 30,
        1 <= p.dv <= 30,
        5 <= p.q,
        32 <= p.n <= 1024,
        p.k * p.n <= 0x40_0000,
{
    vstd::arithmetic::power2::lemma2_to64();
    crate::encode::lemma_bit_length_le((p.q - 1) as nat, 31);
    assert(p.k * p.n <= 0xFFF * 1024) by (nonlinear_arith)
        requires
            p.k <= 0xFFF,
            p.n <= 1024,
    ;
}

/// Encrypts `m` (at least `n` bits) to `pk` with the randomness `coins`.
pub fn encrypt(params: &GenericCustomKemParams, pk: &PublicKey, m: &[u8], coins: &[u8; 32]) -> (r: Result<Ciphertext, PqcError>)
    requires
        kem_params_ok(*params),
        vrows_of(pk.t@, params.n as int),
        params.n <= 8 * m.len(),
        8 * m.len() <= usize::MAX,
    ensures
        !encrypt_ok(*params, pk.rho@, coins@) ==> r == Err::<Ciphertext, PqcError>(PqcError::XofBudgetExhausted),
        encrypt_ok(*params, pk.rho@, coins@) ==> (r matches Ok(ct) && is_packing_of(
            ct.u_bytes@,
            compress_rows(encrypt_u(*params, pk.rho@, coins@), params.n as int, params.du as nat, params.q as int),
            params.du as nat,
        ) && is_packing_of(
            ct.v_bytes@,
            compress_seq(encrypt_v(*params, rows_view(pk.t@), m@, coins@), params.dv as nat, params.q as int),
            params.dv as nat,
        )),
{
    let table = match build_table(params.n, params.q) {
        Ok(t) => t,
        Err(_) => {
            proof {
                assert(false);
            }
            return Err(PqcError::XofBudgetExhausted);
        },
    };
    proof {
        lemma_widths(*params);
    }
    let k = params.k as usize;
    let n = params.n;
    let a = match expand_a(&pk.rho, params) {
        Ok(a) => a,
        Err(e) => return Err(e),
    };
    let rv = match sample_noise(coins, 0, k, params.eta1, params) {
        Ok(v) => v,
        Err(e) => return Err(e),
    };
    let e1 = match sample_noise(coins, k, k, params.eta2, params) {
        Ok(v) => v,
        Err(e) => return Err(e),
    };
    let e2 = match sample_eta_vec(coins, (2 * k) as u16, params.eta2, n) {
        Ok(v) => v,
        Err(e) => return Err(e),
    };
    let mut u_flat: Vec<i32> = Vec::new();
    let ghost u_rows: Seq<Seq<i32>> = encrypt_u(*params, pk.rho@, coins@);
    let mut i: usize = 0;
    while i < k
        invariant
            kem_params_ok(*params),
            table_wf(table),
            table_is_spec(table),
            table.n == params.n,
            table.q == params.q,
            k == params.k,
            n == params.n,
            a.len() == k,
            forall|x: int| 0 <= x < k ==> (#[trigger] a@[x]).len() == k && rows_view(a@[x]@) == matrix_row(pk.rho@, x, *params)
                && vrows_of(a@[x]@, params.n as int),
            rv.len() == k,
            vrows_of(rv@, params.n as int),
            rows_view(rv@) == noise_vec(coins@, 0, k as int, params.eta1, *params),
            e1.len() == k,
            vrows_of(e1@, params.n as int),
            rows_view(e1@) == noise_vec(coins@, k as int, k as int, params.eta2, *params),
            u_rows == encrypt_u(*params, pk.rho@, coins@),
            1 <= params.du <= 30,
            k * n <= 0x40_0000,
            i <= k,
            u_flat.len() == i * n,
            forall|j: int| 0 <= j < i * n ==> #[trigger] u_flat@[j] == compress_spec(u_rows[j / n as int][j % n as int] as int, params.du as nat, params.q as int) as i32,
        decreases k - i,
    {
        let mut column: Vec<Vec<i32>> = Vec::new();
        let mut j: usize = 0;
        while j < k
            invariant
                k == params.k,
                i < k,
                a.len() == k,
                forall|x: int| 0 <= x < k ==> (#[trigger] a@[x]).len() == k && rows_view(a@[x]@) == matrix_row(pk.rho@, x, *params)
                    && vrows_of(a@[x]@, params.n as int),
                j <= k,
                column.len() == j,
                vrows_of(column@, params.n as int),
                forall|y: int| 0 <= y < j ==> #[trigger] column@[y]@ == matrix_col(pk.rho@, i as int, *params)[y],
            decreases k - j,
        {
            proof {
                assert(rows_view(a@[j as int]@)[i as int] == matrix_row(pk.rho@, j as int, *params)[i as int]);
            }
            column.push(a[j][i].clone());
            j = j + 1;
        }
        proof {
            assert(rows_view(column@) =~= matrix_col(pk.rho@, i as int, *params));
        }
        let d = poly_vec_dot(&column, &rv, &table, params.q);
        let row = vec_add(&d, &e1[i], params.q);
        proof {
            assert(rows_view(e1@)[i as int] == e1@[i as int]@);
            assert(row@ == u_rows[i as int]);
        }
        let cr = compress_vec(&row, params.du, params.q);
        let mut x: usize = 0;
        while x < n
            invariant
                n == params.n,
                cr.len() == n,
                row@ == u_rows[i as int],
                cr@ == compress_seq(row@, params.du as nat, params.q as int),
                i < k,
                n >= 1,
                x <= n,
                u_flat.len() == i * n + x,
                forall|j: int| 0 <= j < i * n + x ==> #[trigger] u_flat@[j] == compress_spec(u_rows[j / n as int][j % n as int] as int, params.du as nat, params.q as int) as i32,
            decreases n - x,
        {
            proof {
                vstd::arithmetic::div_mod::lemma_fundamental_div_mod_converse(i * n + x, n as int, i as int, x as int);
            }
            u_flat.push(cr[x]);
            x = x + 1;
        }
        proof {
            assert((i + 1) * n == i * n + n) by (nonlinear_arith);
        }
        i = i + 1;
    }
    let mu = message_to_poly(m, n, params.q);
    let td = poly_vec_dot(&pk.t, &rv, &table, params.q);
    let v1 = vec_add(&td, &e2, params.q);
    let v = vec_add(&v1, &mu, params.q);
    let v_comp = compress_vec(&v, params.dv, params.q);
    proof {
        assert(u_flat@ =~= compress_rows(u_rows, n as int, params.du as nat, params.q as int));
    }
    proof {
        assert(params.du * u_flat.len() <= 30 * 0x40_0000) by (nonlinear_arith)
            requires
                params.du <= 30,
                u_flat.len() == k * n,
                k * n <= 0x40_0000,
        ;
        assert(params.dv * v_comp.len() <= 30 * 1024) by (nonlinear_arith)
            requires
                params.dv <= 30,
                v_comp.len() <= 1024,
        ;
    }
    Ok(Ciphertext { u_bytes: byte_encode(u_flat.as_slice(), params.du), v_bytes: byte_encode(v_comp.as_slice(), params.dv) })
}

/// `u` as decrypt reads it: `k` rows of `n` fields of `du` bits, each decompressed.
pub open spec fn decrypt_u(p: GenericCustomKemParams, u_bytes: Seq<u8>) -> Seq<Seq<i32>> {
    let vals = decode_fields(u_bytes, p.du as nat, (p.k * p.n) as nat);
    Seq::new(
        p.k as nat,
        |t: int| Seq::new(p.n as nat, |i: int| decompress_spec(vals[t * p.n + i] as int, p.du as nat, p.q as int) as i32),
    )
}

/// `v` as decrypt reads it: `n` fields of `dv` bits, each decompressed.
pub open spec fn decrypt_v(p: GenericCustomKemParams, v_bytes: Seq<u8>) -> Seq<i32> {
    let vals = decode_fields(v_bytes, p.dv as nat, p.n as nat);
    Seq::new(p.n as nat, |i: int| decompress_spec(vals[i] as int, p.dv as nat, p.q as int) as i32)
}

/// The recovered message polynomial `v - s . u`.
pub open spec fn decrypt_mu(p: GenericCustomKemParams, s: Seq<Seq<i32>>, ct_u: Seq<u8>, ct_v: Seq<u8>) -> Seq<i32> {
    sub_mod(
        decrypt_v(p, ct_v),
        dot_rows(s, decrypt_u(p, ct_u), min_len(s.len() as int, p.k as int), p.n as int, p.q as int),
        p.q as int,
    )
}

/// Decrypts `ct` with `sk`: the message is `v - s . u` rounded to one bit per coefficient.
pub fn decrypt(params: &GenericCustomKemParams, sk: &SecretKey, ct: &Ciphertext) -> (out: Vec<u8>)
    requires
        kem_params_ok(*params),
        vrows_of(sk.s@, params.n as int),
        params.du * (params.k * params.n) <= 8 * ct.u_bytes.len(),
        8 * ct.u_bytes.len() <= usize::MAX,
        params.dv * params.n <= 8 * ct.v_bytes.len(),
        8 * ct.v_bytes.len() <= usize::MAX,
    ensures
        is_packing_of(
            out@,
            compress_seq(decrypt_mu(*params, rows_view(sk.s@), ct.u_bytes@, ct.v_bytes@), 1, params.q as int),
            1,
        ),
{
    proof {
        lemma_widths(*params);
    }
    let table = match build_table(params.n, params.q) {
        Ok(t) => t,
        Err(_) => {
            proof {
                assert(false);
            }
            return Vec::new();
        },
    };
    let k = params.k as usize;
    let n = params.n;
    let u_vals = byte_decode(ct.u_bytes.as_slice(), params.du, k * n);
    let ghost u_rows = decrypt_u(*params, ct.u_bytes@);
    let mut u: Vec<Vec<i32>> = Vec::new();
    let mut t: usize = 0;
    while t < k
        invariant
            kem_params_ok(*params),
            1 <= params.du <= 30,
            k == params.k,
            n == params.n,
            k * n <= 0x40_0000,
            u_vals@ == decode_fields(ct.u_bytes@, params.du as nat, (k * n) as nat),
            u_rows == decrypt_u(*params, ct.u_bytes@),
            t <= k,
            u.len() == t,
            vrows_of(u@, n as int),
            forall|x: int| 0 <= x < t ==> #[trigger] u@[x]@ == u_rows[x],
        decreases k - t,
    {
        let mut row: Vec<i32> = Vec::new();
        let mut i: usize = 0;
        proof {
            assert((t + 1) * n <= k * n) by (nonlinear_arith)
                requires
                    t < k,
            ;
            assert((t + 1) * n == t * n + n) by (nonlinear_arith);
        }
        while i < n
            invariant
                1 <= params.du <= 30,
                params.q >= 5,
                k == params.k,
                n == params.n,
                t < k,
                t * n + n <= k * n,
                k * n <= 0x40_0000,
                u_vals@ == decode_fields(ct.u_bytes@, params.du as nat, (k * n) as nat),
                i <= n,
                row.len() == i,
                forall|x: int| 0 <= x < i ==> #[trigger] row@[x] == u_rows[t as int][x],
                u_rows == decrypt_u(*params, ct.u_bytes@),
            decreases n - i,
        {
            proof {
                crate::dsa_encode::lemma_stream_value_bound(ct.u_bytes@, (t * n + i) * params.du, params.du as nat);
                vstd::arithmetic::power2::lemma2_to64();
                if params.du < 31 {
                    vstd::arithmetic::power2::lemma_pow2_strictly_increases(params.du as nat, 31);
                }
            }
            let c = decompress(u_vals[t * n + i], params.du, params.q);
            row.push(c);
            i = i + 1;
        }
        proof {
            assert(row@ =~= u_rows[t as int]);
        }
        u.push(row);
        t = t + 1;
    }
    proof {
        assert(rows_view(u@) =~= u_rows);
    }
    let v_vals = byte_decode(ct.v_bytes.as_slice(), params.dv, n);
    let mut v: Vec<i32> = Vec::new();
    let mut i: usize = 0;
    while i < n
        invariant
            1 <= params.dv <= 30,
            params.q >= 5,
            n == params.n,
            v_vals@ == decode_fields(ct.v_bytes@, params.dv as nat, n as nat),
            i <= n,
            v.len() == i,
            forall|x: int| 0 <= x < i ==> #[trigger] v@[x] == decrypt_v(*params, ct.v_bytes@)[x],
        decreases n - i,
    {
        proof {
            crate::dsa_encode::lemma_stream_value_bound(ct.v_bytes@, i * params.dv, params.dv as nat);
            vstd::arithmetic::power2::lemma2_to64();
            if params.dv < 31 {
                vstd::arithmetic::power2::lemma_pow2_strictly_increases(params.dv as nat, 31);
            }
        }
        v.push(decompress(v_vals[i], params.dv, params.q));
        i = i + 1;
    }
    proof {
        assert(v@ =~= decrypt_v(*params, ct.v_bytes@));
    }
    let su = poly_vec_dot(&sk.s, &u, &table, params.q);
    let mu = vec_sub(&v, &su, params.q);
    poly_to_message(&mu, params.q)
}

/// Whether keygen, encapsulation and decapsulation can run on a parameter set; for sets read
/// back from storage rather than built by `build_params`.
pub fn check_kem_ready(p: &GenericCustomKemParams) -> (r: bool)
    ensures
        r == kem_params_ok(*p),
{
    if crate::custom_kem_params::validate_n(p.n).is_err() {
        return false;
    }
    if crate::custom_kem_params::validate_q(p.q, p.n).is_err() {
        return false;
    }
    if !(1 <= p.k && p.k <= 0xFFF && p.eta1 < 0x4000_0000 && p.eta2 < 0x4000_0000) {
        return false;
    }
    proof {
        reveal(vstd::arithmetic::power2::is_pow2);
    }
    if build_table(p.n, p.q).is_err() {
        return false;
    }
    let qb = crate::encode::bits_for_q(p.q);
    1 <= p.du && p.du < qb && 1 <= p.dv && p.dv < qb
}

} // verus!
