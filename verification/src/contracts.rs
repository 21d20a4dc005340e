//! The parameter-set and benchmark records exchanged as JSON by the command-line front end.
//! The front end holds serializable copies of these types; the library holds the plain ones.
use vstd::prelude::*;

verus! {

#[derive(Clone, Copy, Debug, PartialEq, Eq, Structural)]
pub enum Scheme {
    MlKem,
    MlDsa,
}

#[derive(Clone, Copy, Debug, PartialEq, Eq, Structural)]
pub enum Engine {
    Generic,
    Reference,
}

#[derive(Clone, Copy, Debug, PartialEq, Eq, Structural)]
pub enum KatResult {
    Pass,
    Fail,
    Na,
}

#[derive(Clone, Copy, Debug, PartialEq, Eq, Structural)]
pub struct KemKnobs {
    pub k: u32,
    pub eta1: u32,
    pub eta2: u32,
    pub du: u32,
    pub dv: u32,
}

#[derive(Clone, Copy, Debug, PartialEq, Eq, Structural)]
pub struct DsaKnobs {
    pub k: u32,
    pub l: u32,
    pub eta: u32,
    pub gamma1: u32,
    pub gamma2: u32,
    pub tau: u32,
    pub omega: u32,
}

#[derive(Clone, Debug)]
pub struct ParameterSet {
    pub scheme: Scheme,
    pub name: Option<String>,
    pub is_standard: bool,
    pub n: u32,
    pub q: u32,
    pub kem: Option<KemKnobs>,
    pub dsa: Option<DsaKnobs>,
}

#[derive(Clone, Copy, Debug, PartialEq, Eq, Structural)]
pub struct Sizes {
    pub pk: u32,
    pub sk: u32,
    pub ct: Option<u32>,
    pub sig: Option<u32>,
}

#[derive(Clone, Copy, Debug, PartialEq, Eq, Structural)]
pub struct Validity {
    pub roundtrip: bool,
    pub kat: KatResult,
}

} // verus!
