//! Parameter knobs of the fixed-degree KEM: n and q are fixed; k, eta1, eta2, du, dv are free.
use vstd::prelude::*;

verus! {

/// The fixed modulus of the fixed-degree KEM.
pub const Q: i32 = 3329;

#[derive(Clone, Copy, Debug)]
pub struct GenericKemParams {
    pub k: u32,
    pub eta1: u32,
    pub eta2: u32,
    pub du: u32,
    pub dv: u32,
}

/// What encryption needs of the knobs: at most 4095 polynomials per vector, noise parameters
/// below 2^22, and compression widths of at most 30 bits.
pub open spec fn encrypt_knobs_ok(p: GenericKemParams) -> bool {
    &&& 1 <= p.k <= 0xFFF
    &&& p.eta1 <= 0x3F_FFFF
    &&& p.eta2 <= 0x3F_FFFF
    &&& p.du <= 30
    &&& p.dv <= 30
}

/// What the fixed-degree engine needs of its knobs: those of encryption, with compression
/// widths of at least one bit (decompression scales by `2^-d`).
pub open spec fn kem_knobs_ok(p: GenericKemParams) -> bool {
    &&& encrypt_knobs_ok(p)
    &&& 1 <= p.du
    &&& 1 <= p.dv
}

/// Whether the fixed-degree engine can run on these knobs.
pub fn check_kem_knobs(p: &GenericKemParams) -> (r: bool)
    ensures
        r == kem_knobs_ok(*p),
{
    1 <= p.k && p.k <= 0xFFF && p.eta1 <= 0x3F_FFFF && p.eta2 <= 0x3F_FFFF && 1 <= p.du && p.du <= 30 && 1 <= p.dv && p.dv <= 30
}

} // verus!
