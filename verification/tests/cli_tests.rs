use pqc_engines::cli::{
    dsa_params_from_set, hex_encode, kem_params_from_set, kem_parameter_set_from_generic, parameter_set_from_generic,
    parse_hex32, parse_hex64, Engine,
};
use pqc_engines::contracts::{KemKnobs, Scheme};
use pqc_engines::dsa_params::{build_params, DsaParamOverrides};
use pqc_engines::error::{Family, PqcError};
use pqc_engines::reference::{param_set_1024, param_set_512, param_set_768, reference_set};

#[test]
fn engine_names() {
    assert_eq!(Engine::Rustcrypto.as_str(), "rustcrypto");
    assert_eq!(Engine::Libcrux.as_str(), "libcrux");
}

#[test]
fn hex_encode_is_lowercase_two_digits_per_byte() {
    assert_eq!(hex_encode(&[0x00, 0x0f, 0xa0, 0xff]), "000fa0ff");
    assert_eq!(hex_encode(&[]), "");
}

#[test]
fn parse_hex32_reads_back_hex_encode() {
    let bytes: Vec<u8> = (0u8..32).map(|i| i.wrapping_mul(37)).collect();
    let s = hex_encode(&bytes);
    assert_eq!(parse_hex32(&s, "seed").unwrap().to_vec(), bytes);
    assert_eq!(parse_hex32(&s.to_uppercase(), "seed").unwrap().to_vec(), bytes);
}

#[test]
fn parse_hex32_refuses_bad_input() {
    assert_eq!(parse_hex32("abcd", "rho"), Err(PqcError::HexWrongLength { field: "rho".to_string(), len: 4 }));
    let bad = "zz".repeat(32);
    assert_eq!(parse_hex32(&bad, "seed"), Err(PqcError::HexInvalid { field: "seed".to_string() }));
}

#[test]
fn parse_hex32_accepts_a_plus_sign_like_from_str_radix() {
    let s = format!("+a{}", "00".repeat(31));
    assert_eq!(parse_hex32(&s, "seed").unwrap()[0], 10);
}

#[test]
fn dsa_parameter_set_round_trips() {
    let p = build_params(4, 4, 8380417, 131072, &DsaParamOverrides::default()).unwrap();
    let ps = parameter_set_from_generic(&p);
    assert_eq!(ps.scheme, Scheme::MlDsa);
    assert_eq!(ps.n, 256);
    assert_eq!(ps.q, 8380417);
    let back = dsa_params_from_set(&ps).unwrap();
    assert_eq!((back.k, back.l, back.q, back.eta, back.gamma1, back.gamma2, back.tau, back.omega), (p.k, p.l, p.q, p.eta, p.gamma1, p.gamma2, p.tau, p.omega));
    assert_eq!(back.lambda, p.lambda);
}

#[test]
fn stored_sets_of_the_wrong_kind_are_refused() {
    let p = build_params(4, 4, 8380417, 131072, &DsaParamOverrides::default()).unwrap();
    let mut ps = parameter_set_from_generic(&p);
    ps.n = 128;
    assert_eq!(dsa_params_from_set(&ps).err(), Some(PqcError::ParamsWrongDegree { n: 128 }));
    assert_eq!(kem_params_from_set(&ps).err(), Some(PqcError::ParamsWrongScheme { expected: Family::MlKem }));
    ps.n = 256;
    ps.dsa = None;
    assert_eq!(dsa_params_from_set(&ps).err(), Some(PqcError::ParamsMissingKnobs { family: Family::MlDsa }));
    let mut ps = parameter_set_from_generic(&p);
    ps.q = 12288;
    assert_eq!(dsa_params_from_set(&ps).err(), Some(PqcError::QNotPrime { q: 12288 }));
}

#[test]
fn kem_parameter_set_round_trips() {
    let p = pqc_engines::custom_kem_params::build_params(2, 256, 7681).unwrap();
    let ps = kem_parameter_set_from_generic(&p);
    assert_eq!(ps.scheme, Scheme::MlKem);
    assert_eq!(ps.kem, Some(KemKnobs { k: 2, eta1: p.eta1, eta2: p.eta2, du: p.du, dv: p.dv }));
    let back = kem_params_from_set(&ps).unwrap();
    assert_eq!((back.k, back.n, back.q, back.eta1, back.eta2, back.du, back.dv), (p.k, p.n, p.q, p.eta1, p.eta2, p.du, p.dv));
}

#[test]
fn reference_sets() {
    let a = param_set_512();
    assert_eq!(a.name.as_deref(), Some("ML-KEM-512"));
    assert_eq!(a.kem, Some(KemKnobs { k: 2, eta1: 3, eta2: 2, du: 10, dv: 4 }));
    assert_eq!(param_set_768().kem, Some(KemKnobs { k: 3, eta1: 2, eta2: 2, du: 10, dv: 4 }));
    assert_eq!(param_set_1024().kem, Some(KemKnobs { k: 4, eta1: 2, eta2: 2, du: 11, dv: 5 }));
    assert_eq!(reference_set("ml-kem-1024").unwrap().name.as_deref(), Some("ML-KEM-1024"));
    assert_eq!(reference_set("ml-kem-9").err(), Some(PqcError::UnknownReferenceSet { given: "ml-kem-9".to_string() }));
}

#[test]
fn parse_hex64_reads_back_hex_encode() {
    let bytes: Vec<u8> = (0u8..64).map(|i| i.wrapping_mul(37).wrapping_add(5)).collect();
    let s = hex_encode(&bytes);
    assert_eq!(s.len(), 128);
    assert_eq!(parse_hex64(&s, "sigma").unwrap().to_vec(), bytes);
    assert!(matches!(parse_hex64(&s[..126], "sigma"), Err(PqcError::HexWrongLength { len: 126, .. })));
    let mut bad = s.clone();
    bad.replace_range(10..11, "g");
    assert!(matches!(parse_hex64(&bad, "sigma"), Err(PqcError::HexInvalid { .. })));
}
