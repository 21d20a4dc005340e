//! What the command-line front end computes: the backend names, hex arguments and output,
//! and the conversions between engine parameters and their stored records.
use crate::contracts::{DsaKnobs, KemKnobs, ParameterSet, Scheme};
use crate::custom_kem_params::GenericCustomKemParams;
use crate::dsa_params::GenericDsaParams;
use crate::params::GenericKemParams;
use crate::error::{Family, PqcError};
use vstd::prelude::*;
use vstd::string::StringSliceAdditionalSpecFns;

verus! {

/// The outside implementation a standardized operation runs on.
#[derive(Clone, Copy, Debug, PartialEq, Eq, Structural)]
pub enum Engine {
    Rustcrypto,
    Libcrux,
}

impl Engine {
    pub fn as_str(self) -> (s: &'static str)
        ensures
            self == Engine::Rustcrypto ==> s@ == "rustcrypto"@,
            self == Engine::Libcrux ==> s@ == "libcrux"@,
    {
        match self {
            Engine::Rustcrypto => "rustcrypto",
            Engine::Libcrux => "libcrux",
        }
    }
}

/// The record stored for a custom DSA parameter set.
pub fn parameter_set_from_generic(params: &GenericDsaParams) -> (ps: ParameterSet)
    ensures
        ps.scheme == Scheme::MlDsa,
        ps.name is None,
        !ps.is_standard,
        ps.n == 256,
        ps.q == params.q as u32,
        ps.kem is None,
        ps.dsa == Some(
            DsaKnobs {
                k: params.k,
                l: params.l,
                eta: params.eta,
                gamma1: params.gamma1 as u32,
                gamma2: params.gamma2 as u32,
                tau: params.tau,
                omega: params.omega,
            },
        ),
{
    ParameterSet {
        scheme: Scheme::MlDsa,
        name: None,
        is_standard: false,
        n: 256,
        q: params.q as u32,
        kem: None,
        dsa: Some(
            DsaKnobs {
                k: params.k,
                l: params.l,
                eta: params.eta,
                gamma1: params.gamma1 as u32,
                gamma2: params.gamma2 as u32,
                tau: params.tau,
                omega: params.omega,
            },
        ),
    }
}

/// The record stored for a custom KEM parameter set.
pub fn kem_parameter_set_from_generic(params: &GenericCustomKemParams) -> (ps: ParameterSet)
    ensures
        ps.scheme == Scheme::MlKem,
        ps.name is None,
        !ps.is_standard,
        ps.n == params.n as u32,
        ps.q == params.q as u32,
        ps.kem == Some(KemKnobs { k: params.k, eta1: params.eta1, eta2: params.eta2, du: params.du, dv: params.dv }),
        ps.dsa is None,
{
    ParameterSet {
        scheme: Scheme::MlKem,
        name: None,
        is_standard: false,
        n: params.n as u32,
        q: params.q as u32,
        kem: Some(KemKnobs { k: params.k, eta1: params.eta1, eta2: params.eta2, du: params.du, dv: params.dv }),
        dsa: None,
    }
}

/// The signature-hash length a custom DSA set gets when none is chosen: `tau` clamped to
/// `[16, 64]`.
pub open spec fn default_lambda(tau: u32) -> u32 {
    if tau < 16 {
        16
    } else if tau > 64 {
        64
    } else {
        tau
    }
}

/// The DSA parameters a stored record describes, checked again: the record must be for ML-DSA,
/// over degree 256, with DSA knobs and a valid `q`.
pub open spec fn dsa_params_from_set_spec(ps: ParameterSet) -> Result<GenericDsaParams, PqcError> {
    if ps.scheme != Scheme::MlDsa {
        Err(PqcError::ParamsWrongScheme { expected: Family::MlDsa })
    } else if ps.n != 256 {
        Err(PqcError::ParamsWrongDegree { n: ps.n })
    } else {
        match ps.dsa {
            None => Err(PqcError::ParamsMissingKnobs { family: Family::MlDsa }),
            Some(d) => match crate::dsa_params::validate_q_spec(ps.q as i32) {
                Err(e) => Err(e),
                Ok(_) => Ok(
                    GenericDsaParams {
                        k: d.k,
                        l: d.l,
                        q: ps.q as i32,
                        eta: d.eta,
                        gamma1: d.gamma1 as i32,
                        gamma2: d.gamma2 as i32,
                        tau: d.tau,
                        omega: d.omega,
                        lambda: default_lambda(d.tau),
                    },
                ),
            },
        }
    }
}

pub fn dsa_params_from_set(ps: &ParameterSet) -> (r: Result<GenericDsaParams, PqcError>)
    ensures
        r == dsa_params_from_set_spec(*ps),
{
    if ps.scheme != Scheme::MlDsa {
        return Err(PqcError::ParamsWrongScheme { expected: Family::MlDsa });
    }
    if ps.n != 256 {
        return Err(PqcError::ParamsWrongDegree { n: ps.n });
    }
    let d = match ps.dsa {
        None => return Err(PqcError::ParamsMissingKnobs { family: Family::MlDsa }),
        Some(d) => d,
    };
    let q = ps.q as i32;
    match crate::dsa_params::validate_q(q) {
        Err(e) => return Err(e),
        Ok(_) => {},
    }
    let lambda = if d.tau < 16 {
        16
    } else if d.tau > 64 {
        64
    } else {
        d.tau
    };
    Ok(
        GenericDsaParams {
            k: d.k,
            l: d.l,
            q,
            eta: d.eta,
            gamma1: d.gamma1 as i32,
            gamma2: d.gamma2 as i32,
            tau: d.tau,
            omega: d.omega,
            lambda,
        },
    )
}

/// The KEM parameters a stored record describes, checked again: the record must be for ML-KEM,
/// with KEM knobs, a valid degree and a valid `q` for it.
pub open spec fn kem_params_from_set_spec(ps: ParameterSet) -> Result<GenericCustomKemParams, PqcError> {
    if ps.scheme != Scheme::MlKem {
        Err(PqcError::ParamsWrongScheme { expected: Family::MlKem })
    } else {
        match ps.kem {
            None => Err(PqcError::ParamsMissingKnobs { family: Family::MlKem }),
            Some(kn) => match crate::custom_kem_params::validate_n_spec(ps.n as usize) {
                Err(e) => Err(e),
                Ok(_) => match crate::custom_kem_params::validate_q_spec(ps.q as i32, ps.n as usize) {
                    Err(e) => Err(e),
                    Ok(_) => Ok(
                        GenericCustomKemParams {
                            k: kn.k,
                            n: ps.n as usize,
                            q: ps.q as i32,
                            eta1: kn.eta1,
                            eta2: kn.eta2,
                            du: kn.du,
                            dv: kn.dv,
                        },
                    ),
                },
            },
        }
    }
}

pub fn kem_params_from_set(ps: &ParameterSet) -> (r: Result<GenericCustomKemParams, PqcError>)
    ensures
        r == kem_params_from_set_spec(*ps),
{
    if ps.scheme != Scheme::MlKem {
        return Err(PqcError::ParamsWrongScheme { expected: Family::MlKem });
    }
    let kn = match ps.kem {
        None => return Err(PqcError::ParamsMissingKnobs { family: Family::MlKem }),
        Some(kn) => kn,
    };
    let n = ps.n as usize;
    let q = ps.q as i32;
    match crate::custom_kem_params::validate_n(n) {
        Err(e) => return Err(e),
        Ok(_) => {},
    }
    match crate::custom_kem_params::validate_q(q, n) {
        Err(e) => return Err(e),
        Ok(_) => {},
    }
    Ok(GenericCustomKemParams { k: kn.k, n, q, eta1: kn.eta1, eta2: kn.eta2, du: kn.du, dv: kn.dv })
}

/// The fixed-degree KEM knobs a benchmark record carries.
pub fn bench_kem_params(ps: &ParameterSet) -> (r: Result<GenericKemParams, PqcError>)
    ensures
        ps.kem is None ==> r == Err::<GenericKemParams, PqcError>(PqcError::ParamsMissingKnobs { family: Family::MlKem }),
        ps.kem matches Some(kn) ==> r == Ok::<GenericKemParams, PqcError>(
            GenericKemParams { k: kn.k, eta1: kn.eta1, eta2: kn.eta2, du: kn.du, dv: kn.dv },
        ),
{
    match ps.kem {
        None => Err(PqcError::ParamsMissingKnobs { family: Family::MlKem }),
        Some(kn) => Ok(GenericKemParams { k: kn.k, eta1: kn.eta1, eta2: kn.eta2, du: kn.du, dv: kn.dv }),
    }
}

/// The runtime-degree KEM parameters a benchmark record carries, taken as they stand.
pub fn bench_custom_kem_params(ps: &ParameterSet) -> (r: Result<GenericCustomKemParams, PqcError>)
    ensures
        ps.kem is None ==> r == Err::<GenericCustomKemParams, PqcError>(PqcError::ParamsMissingKnobs { family: Family::MlKem }),
        ps.kem matches Some(kn) ==> r == Ok::<GenericCustomKemParams, PqcError>(
            GenericCustomKemParams {
                k: kn.k,
                n: ps.n as usize,
                q: ps.q as i32,
                eta1: kn.eta1,
                eta2: kn.eta2,
                du: kn.du,
                dv: kn.dv,
            },
        ),
{
    match ps.kem {
        None => Err(PqcError::ParamsMissingKnobs { family: Family::MlKem }),
        Some(kn) => Ok(
            GenericCustomKemParams { k: kn.k, n: ps.n as usize, q: ps.q as i32, eta1: kn.eta1, eta2: kn.eta2, du: kn.du, dv: kn.dv },
        ),
    }
}

/// The DSA parameters a benchmark record carries, taken as they stand (with the default
/// signature-hash length).
pub fn bench_dsa_params(ps: &ParameterSet) -> (r: Result<GenericDsaParams, PqcError>)
    ensures
        ps.dsa is None ==> r == Err::<GenericDsaParams, PqcError>(PqcError::ParamsMissingKnobs { family: Family::MlDsa }),
        ps.dsa matches Some(d) ==> r == Ok::<GenericDsaParams, PqcError>(
            GenericDsaParams {
                k: d.k,
                l: d.l,
                q: ps.q as i32,
                eta: d.eta,
                gamma1: d.gamma1 as i32,
                gamma2: d.gamma2 as i32,
                tau: d.tau,
                omega: d.omega,
                lambda: default_lambda(d.tau),
            },
        ),
{
    match ps.dsa {
        None => Err(PqcError::ParamsMissingKnobs { family: Family::MlDsa }),
        Some(d) => {
            let lambda = if d.tau < 16 {
                16
            } else if d.tau > 64 {
                64
            } else {
                d.tau
            };
            Ok(
                GenericDsaParams {
                    k: d.k,
                    l: d.l,
                    q: ps.q as i32,
                    eta: d.eta,
                    gamma1: d.gamma1 as i32,
                    gamma2: d.gamma2 as i32,
                    tau: d.tau,
                    omega: d.omega,
                    lambda,
                },
            )
        },
    }
}

/// The value of an ASCII hex digit.
pub open spec fn hex_digit(c: u8) -> Option<u8> {
    if 48 <= c <= 57 {
        Some((c - 48) as u8)
    } else if 97 <= c <= 102 {
        Some((c - 87) as u8)
    } else if 65 <= c <= 70 {
        Some((c - 55) as u8)
    } else {
        None
    }
}

/// A two-character base-16 number as `u8::from_str_radix` reads it: two digits, or a `+`
/// sign and one digit.
pub open spec fn hex_pair(a: u8, b: u8) -> Option<u8> {
    if a == 43 {
        hex_digit(b)
    } else {
        match (hex_digit(a), hex_digit(b)) {
            (Some(x), Some(y)) => Some((16 * x + y) as u8),
            _ => None,
        }
    }
}

fn hex_digit_exec(c: u8) -> (r: Option<u8>)
    ensures
        r == hex_digit(c),
{
    if 48 <= c && c <= 57 {
        Some(c - 48)
    } else if 97 <= c && c <= 102 {
        Some(c - 87)
    } else if 65 <= c && c <= 70 {
        Some(c - 55)
    } else {
        None
    }
}

fn hex_pair_exec(a: u8, b: u8) -> (r: Option<u8>)
    ensures
        r == hex_pair(a, b),
{
    if a == 43 {
        return hex_digit_exec(b);
    }
    match (hex_digit_exec(a), hex_digit_exec(b)) {
        (Some(x), Some(y)) => Some(16 * x + y),
        _ => None,
    }
}

/// Parses 64 hex characters into 32 bytes. `field` names the argument in the error.
pub fn parse_hex32(s: &str, field: &str) -> (r: Result<[u8; 32], PqcError>)
    requires
        s.spec_bytes().len() == 64 ==> forall|j: int|
            0 <= j <= 64 && j % 2 == 0 ==> #[trigger] vstd::utf8::is_char_boundary(s.spec_bytes(), j),
    ensures
        s.spec_bytes().len() != 64 ==> (r matches Err(PqcError::HexWrongLength { field: f, len }) && f@ == field@ && len
            == s.spec_bytes().len()),
        s.spec_bytes().len() == 64 ==> {
            let b = s.spec_bytes();
            &&& (exists|i: int| 0 <= i < 32 && #[trigger] hex_pair(b[2 * i], b[2 * i + 1]) is None) ==> (r matches Err(
                PqcError::HexInvalid { field: f },
            ) && f@ == field@)
            &&& (forall|i: int| 0 <= i < 32 ==> #[trigger] hex_pair(b[2 * i], b[2 * i + 1]) is Some) ==> (r matches Ok(out)
                && forall|i: int| 0 <= i < 32 ==> Some(#[trigger] out@[i]) == hex_pair(b[2 * i], b[2 * i + 1]))
        },
{
    let bytes = s.as_bytes();
    if bytes.len() != 64 {
        return Err(PqcError::HexWrongLength { field: field.to_owned(), len: bytes.len() });
    }
    let mut out = [0u8; 32];
    let mut i: usize = 0;
    while i < 32
        invariant
            i <= 32,
            bytes@ == s.spec_bytes(),
            bytes.len() == 64,
            forall|j: int| 0 <= j < i ==> Some(#[trigger] out@[j]) == hex_pair(bytes@[2 * j], bytes@[2 * j + 1]),
        decreases 32 - i,
    {
        match hex_pair_exec(bytes[2 * i], bytes[2 * i + 1]) {
            Some(v) => {
                out[i] = v;
            },
            None => {
                return Err(PqcError::HexInvalid { field: field.to_owned() });
            },
        }
        i = i + 1;
    }
    proof {
        let b = s.spec_bytes();
        assert forall|i: int| 0 <= i < 32 implies #[trigger] hex_pair(b[2 * i], b[2 * i + 1]) is Some by {
            assert(Some(out@[i]) == hex_pair(bytes@[2 * i], bytes@[2 * i + 1]));
        }
    }
    Ok(out)
}

/// Parses 128 hex characters into 64 bytes, two characters per byte, most significant digit
/// first. `field` names the argument in the error.
pub fn parse_hex64(s: &str, field: &str) -> (r: Result<[u8; 64], PqcError>)
    ensures
        s.spec_bytes().len() != 128 ==> (r matches Err(PqcError::HexWrongLength { field: f, len }) && f@ == field@ && len
            == s.spec_bytes().len()),
        s.spec_bytes().len() == 128 ==> {
            let b = s.spec_bytes();
            &&& (exists|i: int| 0 <= i < 64 && #[trigger] hex_pair(b[2 * i], b[2 * i + 1]) is None) ==> (r matches Err(
                PqcError::HexInvalid { field: f },
            ) && f@ == field@)
            &&& (forall|i: int| 0 <= i < 64 ==> #[trigger] hex_pair(b[2 * i], b[2 * i + 1]) is Some) ==> (r matches Ok(out)
                && forall|i: int| 0 <= i < 64 ==> Some(#[trigger] out@[i]) == hex_pair(b[2 * i], b[2 * i + 1]))
        },
{
    let bytes = s.as_bytes();
    if bytes.len() != 128 {
        return Err(PqcError::HexWrongLength { field: field.to_owned(), len: bytes.len() });
    }
    let mut out = [0u8; 64];
    let mut i: usize = 0;
    while i < 64
        invariant
            i <= 64,
            bytes@ == s.spec_bytes(),
            bytes.len() == 128,
            forall|j: int| 0 <= j < i ==> Some(#[trigger] out@[j]) == hex_pair(bytes@[2 * j], bytes@[2 * j + 1]),
        decreases 64 - i,
    {
        match hex_pair_exec(bytes[2 * i], bytes[2 * i + 1]) {
            Some(v) => {
                out[i] = v;
            },
            None => {
                return Err(PqcError::HexInvalid { field: field.to_owned() });
            },
        }
        i = i + 1;
    }
    proof {
        let b = s.spec_bytes();
        assert forall|i: int| 0 <= i < 64 implies #[trigger] hex_pair(b[2 * i], b[2 * i + 1]) is Some by {
            assert(Some(out@[i]) == hex_pair(bytes@[2 * i], bytes@[2 * i + 1]));
        }
    }
    Ok(out)
}

/// The lowercase hex digit for `v < 16`.
pub open spec fn hex_char(v: int) -> char {
    if v < 10 {
        (48 + v) as char
    } else {
        (87 + v) as char
    }
}

/// Lowercase hex, two characters per byte, most significant digit first.
pub open spec fn hex_string(b: Seq<u8>) -> Seq<char> {
    Seq::new(2 * b.len(), |j: int| if j % 2 == 0 { hex_char(b[j / 2] as int / 16) } else { hex_char(b[j / 2] as int % 16) })
}

/// Calls `String::from_utf8` on bytes that are all ASCII, which the standard library documents
/// as valid UTF-8 whose characters are the bytes themselves.
#[verifier::external_body]
fn ascii_string(bytes: Vec<u8>) -> (s: String)
    requires
        forall|i: int| 0 <= i < bytes.len() ==> bytes@[i] < 128,
    ensures
        s@ == Seq::new(bytes.len() as nat, |i: int| bytes@[i] as char),
{
    match String::from_utf8(bytes) {
        Ok(s) => s,
        Err(_) => String::new(),
    }
}

fn hex_byte(v: u8) -> (c: u8)
    requires
        v < 16,
    ensures
        c as char == hex_char(v as int),
        c < 128,
{
    if v < 10 {
        48 + v
    } else {
        87 + v
    }
}

/// Lowercase hex of `bytes`.
pub fn hex_encode(bytes: &[u8]) -> (s: String)
    requires
        bytes.len() <= usize::MAX / 2,
    ensures
        s@ == hex_string(bytes@),
{
    let mut out: Vec<u8> = Vec::new();
    let mut i: usize = 0;
    while i < bytes.len()
        invariant
            i <= bytes.len(),
            bytes.len() <= usize::MAX / 2,
            out.len() == 2 * i,
            forall|j: int| 0 <= j < out.len() ==> out@[j] < 128,
            forall|j: int| 0 <= j < out.len() ==> #[trigger] out@[j] as char == hex_string(bytes@)[j],
        decreases bytes.len() - i,
    {
        let b = bytes[i];
        out.push(hex_byte(b / 16));
        out.push(hex_byte(b % 16));
        i = i + 1;
    }
    let ghost v = out@;
    let s = ascii_string(out);
    proof {
        assert(s@ =~= hex_string(bytes@));
    }
    s
}

} // verus!
