//! The three standardized ML-KEM parameter sets as benchmark records, and the choice of one
//! by name.
use crate::bytes::str_eq;
use crate::contracts::{KemKnobs, ParameterSet, Scheme};
use crate::error::PqcError;
use vstd::prelude::*;

verus! {

/// The record for a standardized ML-KEM set: `n = 256`, `q = 3329`, and the given knobs.
pub open spec fn standard_kem_set(ps: ParameterSet, name: Seq<char>, k: u32, eta1: u32, du: u32, dv: u32) -> bool {
    &&& ps.scheme == Scheme::MlKem
    &&& ps.name matches Some(s) && s@ == name
    &&& ps.is_standard
    &&& ps.n == 256
    &&& ps.q == 3329
    &&& ps.kem == Some(KemKnobs { k, eta1, eta2: 2, du, dv })
    &&& ps.dsa is None
}

fn kem_set(name: &str, k: u32, eta1: u32, du: u32, dv: u32) -> (ps: ParameterSet)
    ensures
        standard_kem_set(ps, name@, k, eta1, du, dv),
{
    ParameterSet {
        scheme: Scheme::MlKem,
        name: Some(name.to_owned()),
        is_standard: true,
        n: 256,
        q: 3329,
        kem: Some(KemKnobs { k, eta1, eta2: 2, du, dv }),
        dsa: None,
    }
}

pub fn param_set_512() -> (ps: ParameterSet)
    ensures
        standard_kem_set(ps, "ML-KEM-512"@, 2, 3, 10, 4),
{
    kem_set("ML-KEM-512", 2, 3, 10, 4)
}

pub fn param_set_768() -> (ps: ParameterSet)
    ensures
        standard_kem_set(ps, "ML-KEM-768"@, 3, 2, 10, 4),
{
    kem_set("ML-KEM-768", 3, 2, 10, 4)
}

pub fn param_set_1024() -> (ps: ParameterSet)
    ensures
        standard_kem_set(ps, "ML-KEM-1024"@, 4, 2, 11, 5),
{
    kem_set("ML-KEM-1024", 4, 2, 11, 5)
}

/// Which of the three sets a reference benchmark named `set` runs.
pub fn reference_set(set: &str) -> (r: Result<ParameterSet, PqcError>)
    ensures
        set@ == "ml-kem-512"@ ==> (r matches Ok(ps) && standard_kem_set(ps, "ML-KEM-512"@, 2, 3, 10, 4)),
        set@ == "ml-kem-768"@ ==> (r matches Ok(ps) && standard_kem_set(ps, "ML-KEM-768"@, 3, 2, 10, 4)),
        set@ == "ml-kem-1024"@ ==> (r matches Ok(ps) && standard_kem_set(ps, "ML-KEM-1024"@, 4, 2, 11, 5)),
        set@ != "ml-kem-512"@ && set@ != "ml-kem-768"@ && set@ != "ml-kem-1024"@ ==> (r matches Err(
            PqcError::UnknownReferenceSet { given },
        ) && given@ == set@),
{
    proof {
        reveal_strlit("ml-kem-512");
        reveal_strlit("ml-kem-768");
        reveal_strlit("ml-kem-1024");
        assert("ml-kem-512"@[7] != "ml-kem-768"@[7]);
        assert("ml-kem-512"@.len() != "ml-kem-1024"@.len());
        assert("ml-kem-768"@.len() != "ml-kem-1024"@.len());
    }
    if str_eq(set, "ml-kem-512") {
        Ok(param_set_512())
    } else if str_eq(set, "ml-kem-768") {
        Ok(param_set_768())
    } else if str_eq(set, "ml-kem-1024") {
        Ok(param_set_1024())
    } else {
        Err(PqcError::UnknownReferenceSet { given: set.to_owned() })
    }
}

} // verus!
