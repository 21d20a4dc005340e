//! Post-quantum lattice cryptography engines (ML-KEM / ML-DSA shaped), verified with Verus.
use vstd::prelude::*;

pub mod arith;
pub mod bytes;
pub mod cli;
pub mod contracts;
pub mod conv_laws;
pub mod custom_kem;
pub mod custom_kem_encode;
pub mod custom_kem_ntt;
pub mod custom_kem_params;
pub mod custom_kem_pke;
pub mod custom_kem_sample;
pub mod dilithium;
pub mod dsa;
pub mod dsa_encode;
pub mod dsa_laws;
pub mod dsa_params;
pub mod dsa_sample;
pub mod dsa_rounding;
pub mod error;
pub mod kem;
pub mod kem_laws;
pub mod ml_dsa_libcrux;
pub mod ml_dsa_rustcrypto;
pub mod ml_kem_libcrux;
pub mod ml_kem_rustcrypto;
pub mod modpow;
pub mod ntt;
pub mod ntt_eval;
pub mod ntt_laws;
pub mod encode;
pub mod params;
pub mod pke;
pub mod pke_laws;
pub mod poly;
pub mod prime_field;
pub mod reference;
pub mod ring_laws;
pub mod sample;
pub mod xof;

verus! {
}
