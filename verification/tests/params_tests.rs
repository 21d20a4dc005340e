use pqc_engines::dsa_params::DsaParamOverrides;

const CALIBRATION_Q: i32 = 7681;

#[test]
fn reproduces_ml_kem_512_shape() {
    let p = pqc_engines::custom_kem_params::build_params(2, 256, CALIBRATION_Q).unwrap();
    assert_eq!(p.eta1, 3);
    assert_eq!(p.eta2, 3);
    assert_eq!(p.du, 11);
    assert_eq!(p.dv, 5);
}

#[test]
fn reproduces_ml_kem_768_shape() {
    let p = pqc_engines::custom_kem_params::build_params(3, 256, CALIBRATION_Q).unwrap();
    assert_eq!(p.eta1, 2);
    assert_eq!(p.eta2, 2);
    assert_eq!(p.du, 11);
    assert_eq!(p.dv, 5);
}

#[test]
fn reproduces_ml_kem_1024_shape() {
    let p = pqc_engines::custom_kem_params::build_params(4, 256, CALIBRATION_Q).unwrap();
    assert_eq!(p.eta1, 2);
    assert_eq!(p.eta2, 2);
    assert_eq!(p.du, 12);
    assert_eq!(p.dv, 6);
}

#[test]
fn custom_kem_params_rejects_non_power_of_two_n() {
    assert!(pqc_engines::custom_kem_params::build_params(2, 300, CALIBRATION_Q).is_err());
}

#[test]
fn custom_kem_params_rejects_non_ntt_suitable_q() {
    assert!(pqc_engines::custom_kem_params::build_params(2, 256, 3329).is_err());
}

#[test]
fn custom_kem_params_rejects_non_prime_q() {
    assert!(pqc_engines::custom_kem_params::build_params(2, 256, 7680).is_err());
}

fn dsa_build(k: u32, l: u32, q: i32, gamma1: i32, ov: &DsaParamOverrides) -> Result<pqc_engines::dsa_params::GenericDsaParams, pqc_engines::error::PqcError> {
    pqc_engines::dsa_params::build_params(k, l, q, gamma1, ov)
}

#[test]
fn derives_dilithium_shaped_example() {
    let p = dsa_build(4, 4, 8380417, 131072, &DsaParamOverrides::default()).unwrap();
    assert_eq!(p.tau, 40);
    assert_eq!(p.eta, 1);
    assert_eq!(p.gamma2, 130944);
    assert_eq!(p.omega, 128);
}

#[test]
fn derives_larger_gamma1_example() {
    let p = dsa_build(4, 4, 8380417, 524288, &DsaParamOverrides::default()).unwrap();
    assert_eq!(p.tau, 40);
    assert_eq!(p.eta, 6);
    assert_eq!(p.gamma2, 523776);
    assert_eq!(p.omega, 32);
}

#[test]
fn derives_small_q_example() {
    let p = dsa_build(2, 2, 524_801, 131_072, &DsaParamOverrides::default()).unwrap();
    assert_eq!(p.tau, 20);
    assert_eq!(p.eta, 3);
    assert_eq!(p.gamma2, 65600);
    assert_eq!(p.omega, 127);
}

#[test]
fn rejects_gamma2_too_small_relative_to_tau_for_fixed_d13() {
    assert!(dsa_build(2, 2, 12289, 4096, &DsaParamOverrides::default()).is_err());
}

#[test]
fn rejects_gamma1_too_small() {
    assert!(dsa_build(2, 2, 12289, 1024, &DsaParamOverrides::default()).is_err());
}

#[test]
fn dsa_params_rejects_non_prime_q() {
    assert!(dsa_build(4, 4, 12288, 4096, &DsaParamOverrides::default()).is_err());
}

#[test]
fn rejects_q_not_ntt_suitable() {
    assert!(dsa_build(4, 4, 3329, 512, &DsaParamOverrides::default()).is_err());
}

#[test]
fn accepts_exact_ml_dsa_44_overrides() {
    let overrides = DsaParamOverrides {
        eta: Some(2),
        gamma2: Some((8380417 - 1) / 88),
        tau: Some(39),
        omega: Some(80),
        lambda: Some(32),
    };
    let p = dsa_build(4, 4, 8380417, 1 << 17, &overrides).unwrap();
    assert_eq!(p.eta, 2);
    assert_eq!(p.gamma2, 95232);
    assert_eq!(p.tau, 39);
    assert_eq!(p.omega, 80);
    assert_eq!(p.lambda, 32);
}

#[test]
fn accepts_exact_ml_dsa_65_overrides() {
    let overrides = DsaParamOverrides {
        eta: Some(4),
        gamma2: Some((8380417 - 1) / 32),
        tau: Some(49),
        omega: Some(55),
        lambda: Some(48),
    };
    let p = dsa_build(6, 5, 8380417, 1 << 19, &overrides).unwrap();
    assert_eq!(p.gamma2, 261888);
    assert_eq!(p.omega, 55);
}

#[test]
fn accepts_exact_ml_dsa_87_overrides() {
    let overrides = DsaParamOverrides {
        eta: Some(2),
        gamma2: Some((8380417 - 1) / 32),
        tau: Some(60),
        omega: Some(75),
        lambda: Some(64),
    };
    let p = dsa_build(8, 7, 8380417, 1 << 19, &overrides).unwrap();
    assert_eq!(p.tau, 60);
    assert_eq!(p.omega, 75);
}

#[test]
fn rejects_gamma2_override_that_doesnt_divide_q_minus_1() {
    let overrides = DsaParamOverrides { gamma2: Some(100_000), ..Default::default() };
    assert!(dsa_build(4, 4, 8380417, 1 << 17, &overrides).is_err());
}

#[test]
fn derived_dsa_params_are_ready_for_the_engine() {
    let p = dsa_build(4, 4, 8380417, 131072, &DsaParamOverrides::default()).unwrap();
    assert!(pqc_engines::dilithium::check_ready(&p));
    let p = dsa_build(2, 2, 524_801, 131_072, &DsaParamOverrides::default()).unwrap();
    assert!(pqc_engines::dilithium::check_ready(&p));
}
