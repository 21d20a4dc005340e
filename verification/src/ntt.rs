//! NTT over Z_q[x]/(x^256 + 1) for any prime q with q = 1 (mod 512): the full radix-2 split into
//! 256 linear factors, so that multiplication in the NTT domain is plain pointwise
//! multiplication. The transforms are those of `custom_kem_ntt` at the fixed degree.
use crate::custom_kem_ntt::{
    bit_rev, inv_ntt_core, ints, ints32, inv_ntt_spec, is_negacyclic_root, ntt_core, ntt_input_ok, ntt_spec, pointwise,
    spec_n_inv,
};
use crate::modpow::mod_pow;
use crate::error::PqcError;
use crate::poly::{Poly, N};
use vstd::arithmetic::power::pow;
use vstd::arithmetic::power2::pow2;
use vstd::prelude::*;

verus! {

/// The fixed degree 256 is a power of two.
proof fn lemma_degree_is_pow2()
    ensures
        vstd::arithmetic::power2::is_pow2(N as int),
{
    reveal_with_fuel(vstd::arithmetic::power2::is_pow2, 10);
}

pub struct NttTable {
    pub q: i64,
    pub zetas: [i64; 256],
    /// zetas_inv[i] = -zetas[i] mod q: negating the forward twiddles gives the inverse
    /// Gentleman-Sande ones without a second root-of-unity computation.
    pub zetas_inv: [i64; 256],
    pub n_inv: i64,
}

/// What the transforms need of a table: a modulus in `[2, 2^31)` and entries reduced mod it.
pub open spec fn table256_wf(t: NttTable) -> bool {
    &&& 2 <= t.q < 0x8000_0000
    &&& forall|i: int| 0 <= i < N ==> 0 <= #[trigger] t.zetas@[i] < t.q
    &&& forall|i: int| 0 <= i < N ==> 0 <= #[trigger] t.zetas_inv@[i] < t.q
    &&& 0 <= t.n_inv < t.q
}

/// `t` is the table for modulus `q` and root `zeta`: twiddles `zeta^bitrev_8(i)`, their
/// negations, and `256^(q-2) = 256^-1 (mod q)`.
pub open spec fn table256_from_root(t: NttTable, q: int, zeta: int) -> bool {
    &&& t.q == q
    &&& forall|i: int| 0 <= i < N ==> #[trigger] t.zetas@[i] == pow(zeta, bit_rev(i as nat, 8)) % q
    &&& forall|i: int| 0 <= i < N ==> #[trigger] t.zetas_inv@[i] == (q - t.zetas@[i]) % q
    &&& t.n_inv == pow(N as int, (q - 2) as nat) % q
}

/// No `y` in `[2, z)` is a negacyclic 512th root of unity mod `q`.
pub open spec fn no_root_under(q: int, z: int) -> bool {
    forall|y: int| 2 <= y < z ==> !#[trigger] is_negacyclic_root(y, q, N as int)
}

/// The smallest negacyclic 512th root of unity mod `q` (for `q = 8380417` this is FIPS 204's
/// `zeta = 1753`).
pub open spec fn dsa_root(q: int) -> int {
    choose|z: int| 2 <= z < q && is_negacyclic_root(z, q, N as int) && no_root_under(q, z)
}

/// The forward twiddles for modulus `q`: `dsa_root(q)^bitrev_8(i) mod q`.
pub open spec fn dsa_zetas(q: int) -> Seq<i64> {
    Seq::new(N as nat, |i: int| (pow(dsa_root(q), bit_rev(i as nat, 8)) % q) as i64)
}

/// The inverse twiddles: the negated forward ones.
pub open spec fn dsa_zetas_inv(q: int) -> Seq<i64> {
    Seq::new(N as nat, |i: int| ((q - dsa_zetas(q)[i]) % q) as i64)
}

/// Two smallest roots are the same root.
proof fn lemma_smallest_root_unique(q: int, a: int, b: int)
    requires
        2 <= a < q,
        is_negacyclic_root(a, q, N as int),
        no_root_under(q, a),
        2 <= b < q,
        is_negacyclic_root(b, q, N as int),
        no_root_under(q, b),
    ensures
        a == b,
{
    if a < b {
        assert(!is_negacyclic_root(a, q, N as int));
    } else if b < a {
        assert(!is_negacyclic_root(b, q, N as int));
    }
}

/// The smallest `z` in `[2, q)` with `z^256 = -1 (mod q)`.
fn smallest_root(q: i64) -> (r: Option<i64>)
    requires
        2 <= q < 0x8000_0000,
    ensures
        match r {
            Some(z) => 2 <= z < q && is_negacyclic_root(z as int, q as int, N as int) && no_root_under(q as int, z as int),
            None => no_root_under(q as int, q as int),
        },
{
    let mut z: i64 = 2;
    while z < q
        invariant
            2 <= q < 0x8000_0000,
            2 <= z <= q || z == 2,
            no_root_under(q as int, z as int),
        decreases q - z,
    {
        if mod_pow(z, 256, q) == q - 1 {
            return Some(z);
        }
        proof {
            assert(!is_negacyclic_root(z as int, q as int, N as int));
            assert forall|y: int| 2 <= y < z + 1 implies !#[trigger] is_negacyclic_root(y, q as int, N as int) by {
                if y < z {
                } else {
                    assert(y == z);
                }
            }
        }
        z = z + 1;
    }
    proof {
        assert forall|y: int| 2 <= y < q implies !#[trigger] is_negacyclic_root(y, q as int, N as int) by {
            assert(y < z);
        }
    }
    None
}

/// Builds the twiddle table for `Z_q[x]/(x^256 + 1)` from the smallest negacyclic 512th root
/// of unity mod `q`.
pub fn build_table(q: i32) -> (r: Result<NttTable, PqcError>)
    ensures
        (q < 2 || (q - 1) % 512 != 0) ==> r == Err::<NttTable, PqcError>(
            PqcError::NoElementOfOrder { q: q as i64, two_n: 512 },
        ),
        q >= 2 && (q - 1) % 512 == 0 ==> {
            &&& (r is Err <==> no_root_under(q as int, q as int))
            &&& r is Err ==> r == Err::<NttTable, PqcError>(
                PqcError::NoPrimitiveRoot { q: q as i64, two_n: 512 },
            )
        },
        r matches Ok(t) ==> t.q == q && t.zetas@ == dsa_zetas(q as int) && t.zetas_inv@ == dsa_zetas_inv(q as int)
            && t.n_inv == spec_n_inv(N as int, q as int),
        r matches Ok(t) ==> table256_wf(t) && 2 <= dsa_root(q as int) < q && is_negacyclic_root(
            dsa_root(q as int),
            q as int,
            N as int,
        ) && no_root_under(q as int, dsa_root(q as int)) && table256_from_root(t, q as int, dsa_root(q as int)),
{
    let qq = q as i64;
    if qq < 2 || (qq - 1) % 512 != 0 {
        return Err(PqcError::NoElementOfOrder { q: qq, two_n: 512 });
    }
    let zeta = match smallest_root(qq) {
        Some(z) => z,
        None => return Err(PqcError::NoPrimitiveRoot { q: qq, two_n: 512 }),
    };
    proof {
        let d = dsa_root(q as int);
        assert(2 <= d < q && is_negacyclic_root(d, q as int, N as int) && no_root_under(q as int, d));
        lemma_smallest_root_unique(q as int, zeta as int, d);
        vstd::arithmetic::power2::lemma2_to64();
    }
    let mut zetas = [0i64; 256];
    let mut zetas_inv = [0i64; 256];
    let mut i: usize = 0;
    while i < N
        invariant
            2 <= qq < 0x8000_0000,
            qq == q,
            zeta == dsa_root(q as int),
            pow2(8) == 256,
            i <= N,
            forall|x: int| 0 <= x < i ==> #[trigger] zetas@[x] == dsa_zetas(q as int)[x],
            forall|x: int| 0 <= x < i ==> 0 <= #[trigger] zetas@[x] < qq,
            forall|x: int| 0 <= x < i ==> #[trigger] zetas_inv@[x] == dsa_zetas_inv(q as int)[x],
            forall|x: int| 0 <= x < i ==> 0 <= #[trigger] zetas_inv@[x] < qq,
        decreases N - i,
    {
        let b = crate::custom_kem_ntt::bit_reverse(i, 8);
        let e = b as i64;
        let z = mod_pow(zeta, e, qq);
        proof {
            assert(z == dsa_zetas(q as int)[i as int]);
        }
        zetas[i] = z;
        zetas_inv[i] = (qq - z) % qq;
        proof {
            assert(zetas_inv@[i as int] == dsa_zetas_inv(q as int)[i as int]);
        }
        i = i + 1;
    }
    let n_inv = mod_pow(256, qq - 2, qq);
    let t = NttTable { q: qq, zetas, zetas_inv, n_inv };
    proof {
        assert(t.zetas@ =~= dsa_zetas(q as int));
        assert(t.zetas_inv@ =~= dsa_zetas_inv(q as int));
        assert(table256_from_root(t, q as int, zeta as int));
    }
    Ok(t)
}

/// In-place forward NTT (decimation-in-time, Cooley-Tukey).
pub fn ntt(a: &mut [i64; 256], table: &NttTable)
    requires
        table256_wf(*table),
        ntt_input_ok(old(a)@),
    ensures
        ints(final(a)@) == ntt_spec(ints(old(a)@), table.zetas@, table.q as int),
        forall|i: int| 0 <= i < N ==> 0 <= #[trigger] final(a)@[i] < table.q,
{
    proof {
        lemma_degree_is_pow2();
    }
    ntt_core(a, &table.zetas, table.q);
}

/// In-place inverse NTT (decimation-in-frequency, Gentleman-Sande), including the final
/// scaling by `1/256`.
pub fn inv_ntt(a: &mut [i64; 256], table: &NttTable)
    requires
        table256_wf(*table),
        ntt_input_ok(old(a)@),
    ensures
        ints(final(a)@) == inv_ntt_spec(ints(old(a)@), table.zetas_inv@, table.n_inv as int, table.q as int),
        forall|i: int| 0 <= i < N ==> 0 <= #[trigger] final(a)@[i] < table.q,
{
    proof {
        lemma_degree_is_pow2();
    }
    inv_ntt_core(a, &table.zetas_inv, table.n_inv, table.q);
}

fn to_i64_array(p: &Poly) -> (out: [i64; 256])
    ensures
        ints(out@) == ints32(p.coeffs@),
        ntt_input_ok(out@),
{
    let mut out = [0i64; 256];
    let mut i: usize = 0;
    while i < N
        invariant
            i <= N,
            forall|x: int| 0 <= x < i ==> #[trigger] out@[x] == p.coeffs@[x] as i64,
        decreases N - i,
    {
        out[i] = p.coeffs[i] as i64;
        i = i + 1;
    }
    proof {
        assert(ints(out@) =~= ints32(p.coeffs@));
    }
    out
}

/// Multiplies entrywise mod q and transforms back; both inputs are NTT-domain values with
/// entries below `2^31` in magnitude.
fn pointwise_inverse(x: &[i64; 256], y: &[i64; 256], table: &NttTable) -> (out: Poly)
    requires
        table256_wf(*table),
        ntt_input_ok(x@),
        ntt_input_ok(y@),
    ensures
        ints32(out.coeffs@) == inv_ntt_spec(
            pointwise(ints(x@), ints(y@), table.q as int),
            table.zetas_inv@,
            table.n_inv as int,
            table.q as int,
        ),
        crate::poly::reduced_coeffs(out, table.q as int),
{
    let mut cv = [0i64; 256];
    let mut i: usize = 0;
    while i < N
        invariant
            table256_wf(*table),
            ntt_input_ok(x@),
            ntt_input_ok(y@),
            i <= N,
            forall|t: int| 0 <= t < i ==> #[trigger] cv@[t] as int == (x@[t] * y@[t]) % (table.q as int),
            forall|t: int| 0 <= t < i ==> 0 <= #[trigger] cv@[t] < table.q,
        decreases N - i,
    {
        proof {
            assert(-0x8000_0000 <= x@[i as int] < 0x8000_0000);
            assert(-0x8000_0000 <= y@[i as int] < 0x8000_0000);
            assert(-0x4000_0000_0000_0000 <= x@[i as int] * y@[i as int] <= 0x4000_0000_0000_0000)
                by (nonlinear_arith)
                requires
                    -0x8000_0000 <= x@[i as int] < 0x8000_0000,
                    -0x8000_0000 <= y@[i as int] < 0x8000_0000,
            ;
        }
        cv[i] = crate::arith::rem_euclid_i64(x[i] * y[i], table.q);
        i = i + 1;
    }
    proof {
        assert(ints(cv@) =~= pointwise(ints(x@), ints(y@), table.q as int));
    }
    inv_ntt(&mut cv, table);
    let mut out = Poly::zero();
    let mut j: usize = 0;
    while j < N
        invariant
            table256_wf(*table),
            j <= N,
            forall|t: int| 0 <= t < N ==> 0 <= #[trigger] cv@[t] < table.q,
            forall|t: int| 0 <= t < j ==> #[trigger] out.coeffs@[t] as int == cv@[t] as int,
            forall|t: int| 0 <= t < j ==> 0 <= #[trigger] out.coeffs@[t] < table.q,
        decreases N - j,
    {
        out.coeffs[j] = cv[j] as i32;
        j = j + 1;
    }
    proof {
        assert(ints32(out.coeffs@) =~= ints(cv@));
    }
    out
}

/// NTT-domain product of two normal-domain polynomials.
pub open spec fn ntt_mul256_spec(a: Seq<int>, b: Seq<int>, t: NttTable) -> Seq<int> {
    inv_ntt_spec(
        pointwise(ntt_spec(a, t.zetas@, t.q as int), ntt_spec(b, t.zetas@, t.q as int), t.q as int),
        t.zetas_inv@,
        t.n_inv as int,
        t.q as int,
    )
}

/// Negacyclic polynomial multiplication via the NTT, in place of `Poly::mul` on the signature
/// path: transform both, multiply pointwise, transform back.
pub fn ntt_mul(a: &Poly, b: &Poly, table: &NttTable) -> (out: Poly)
    requires
        table256_wf(*table),
    ensures
        ints32(out.coeffs@) == ntt_mul256_spec(ints32(a.coeffs@), ints32(b.coeffs@), *table),
        crate::poly::reduced_coeffs(out, table.q as int),
{
    let mut av = to_i64_array(a);
    let mut bv = to_i64_array(b);
    ntt(&mut av, table);
    ntt(&mut bv, table);
    proof {
        assert(ntt_input_ok(av@));
        assert(ntt_input_ok(bv@));
    }
    pointwise_inverse(&av, &bv, table)
}

/// Product of an NTT-domain matrix entry `a_hat` (ExpandA's output is already in the NTT
/// domain) with a normal-domain `v`: only `v` is transformed.
pub open spec fn ntt_mul_a_spec(a_hat: Seq<int>, v: Seq<int>, t: NttTable) -> Seq<int> {
    inv_ntt_spec(
        pointwise(a_hat, ntt_spec(v, t.zetas@, t.q as int), t.q as int),
        t.zetas_inv@,
        t.n_inv as int,
        t.q as int,
    )
}

/// Multiplies the NTT-domain `a_hat` by the normal-domain `v`, returning a normal-domain result.
pub fn ntt_mul_a(a_hat: &Poly, v: &Poly, table: &NttTable) -> (out: Poly)
    requires
        table256_wf(*table),
    ensures
        ints32(out.coeffs@) == ntt_mul_a_spec(ints32(a_hat.coeffs@), ints32(v.coeffs@), *table),
        crate::poly::reduced_coeffs(out, table.q as int),
{
    let av = to_i64_array(a_hat);
    let mut vv = to_i64_array(v);
    ntt(&mut vv, table);
    proof {
        assert(ntt_input_ok(vv@));
    }
    pointwise_inverse(&av, &vv, table)
}

} // verus!
