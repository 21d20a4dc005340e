//! XOF-backed sampling for the runtime-degree KEM: the same samplers as the signature path,
//! producing `n` coefficients instead of a fixed-size polynomial.
use crate::dsa_sample::{byte_eta_coeffs, byte_eta_run, seed_nonce, seed_two, uniform_coeffs, uniform_run};
use crate::encode::bit_length;
use crate::error::PqcError;
use vstd::prelude::*;

verus! {

/// `n` coefficients uniform in [0, q) from SHAKE128(seed || i || j), by the same rejection
/// sampling as `dsa_sample::sample_uniform_wide`.
pub fn sample_uniform_vec(seed: &[u8; 32], i: u8, j: u8, q: i32, n: usize) -> (r: Result<Vec<i32>, PqcError>)
    requires
        q >= 1,
    ensures
        uniform_run(seed_two(seed@, i, j), q as int, bit_length((q - 1) as nat), 0, n as nat) is None
            ==> r == Err::<Vec<i32>, PqcError>(PqcError::XofBudgetExhausted),
        uniform_run(seed_two(seed@, i, j), q as int, bit_length((q - 1) as nat), 0, n as nat) matches Some(
            s,
        ) ==> r matches Ok(v) && v@ == s,
        r matches Ok(v) ==> v.len() == n,
{
    let mut input: Vec<u8> = Vec::new();
    crate::bytes::append_bytes(&mut input, seed);
    input.push(i);
    input.push(j);
    proof {
        assert(input@ =~= seed_two(seed@, i, j));
    }
    uniform_coeffs(input, q, n)
}

/// `n` coefficients in [-eta, eta] from SHAKE256(seed || nonce), one candidate byte each:
/// bytes `v <= 2*eta` become `eta - v`.
pub fn sample_eta_vec(seed: &[u8; 32], nonce: u16, eta: u32, n: usize) -> (r: Result<Vec<i32>, PqcError>)
    requires
        eta < 0x4000_0000,
    ensures
        byte_eta_run(seed_nonce(seed@, nonce), eta as int, 0, n as nat) is None ==> r == Err::<
            Vec<i32>,
            PqcError,
        >(PqcError::XofBudgetExhausted),
        byte_eta_run(seed_nonce(seed@, nonce), eta as int, 0, n as nat) matches Some(s) ==> r matches Ok(
            v,
        ) && v@ == s,
        r matches Ok(v) ==> v.len() == n,
{
    let mut input: Vec<u8> = Vec::new();
    crate::bytes::append_bytes(&mut input, seed);
    input.push((nonce % 256) as u8);
    input.push((nonce / 256) as u8);
    proof {
        assert(input@ =~= seed_nonce(seed@, nonce));
    }
    byte_eta_coeffs(input, eta, n)
}

} // verus!
