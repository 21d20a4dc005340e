use pqc_engines::poly::Poly;

struct Xorshift32(u32);

impl Xorshift32 {
    fn next(&mut self) -> u32 {
        self.0 ^= self.0 << 13;
        self.0 ^= self.0 >> 17;
        self.0 ^= self.0 << 5;
        self.0
    }
}

fn schoolbook_mul(a: &[i32], b: &[i32], q: i32) -> Vec<i32> {
    let n = a.len();
    let mut wide = vec![0i64; 2 * n];
    for i in 0..n {
        if a[i] == 0 {
            continue;
        }
        let av = a[i] as i64;
        for j in 0..n {
            wide[i + j] += av * b[j] as i64;
        }
    }
    let mut out = vec![0i32; n];
    for i in 0..n {
        let reduced = wide[i] - wide[i + n];
        out[i] = reduced.rem_euclid(q as i64) as i32;
    }
    out
}

fn random_vec(rng: &mut Xorshift32, n: usize, q: i32) -> Vec<i32> {
    (0..n).map(|_| (rng.next() % q as u32) as i32).collect()
}

fn check_custom_matches_schoolbook(n: usize, q: i32) {
    let table = pqc_engines::custom_kem_ntt::build_table(n, q).expect("(n,q) should be NTT-suitable");
    let mut rng = Xorshift32(0xC0FFEE ^ (q as u32) ^ (n as u32));
    for _ in 0..20 {
        let a = random_vec(&mut rng, n, q);
        let b = random_vec(&mut rng, n, q);
        let via_ntt = pqc_engines::custom_kem_ntt::ntt_mul(&a, &b, &table);
        let via_schoolbook = schoolbook_mul(&a, &b, q);
        assert_eq!(via_ntt, via_schoolbook, "mismatch for n={n} q={q}");
    }
}

#[test]
fn ntt_matches_schoolbook_n256() {
    check_custom_matches_schoolbook(256, 7681);
}

#[test]
fn ntt_matches_schoolbook_n128() {
    check_custom_matches_schoolbook(128, 12289);
}

#[test]
fn ntt_matches_schoolbook_small_n() {
    check_custom_matches_schoolbook(32, 257);
}

#[test]
fn custom_kem_ntt_rejects_non_power_of_two_n() {
    assert!(pqc_engines::custom_kem_ntt::build_table(300, 7681).is_err());
}

#[test]
fn custom_kem_ntt_rejects_non_ntt_suitable_q() {
    assert!(pqc_engines::custom_kem_ntt::build_table(256, 3329).is_err());
}

fn random_poly(rng: &mut Xorshift32, q: i32) -> Poly {
    let mut p = Poly::zero();
    for c in p.coeffs.iter_mut() {
        *c = (rng.next() % q as u32) as i32;
    }
    p
}

fn check_matches_schoolbook(q: i32) {
    let table = pqc_engines::ntt::build_table(q).expect("q should be NTT-suitable");
    let mut rng = Xorshift32(0xC0FFEE ^ q as u32);
    for _ in 0..20 {
        let a = random_poly(&mut rng, q);
        let b = random_poly(&mut rng, q);
        let via_ntt = pqc_engines::ntt::ntt_mul(&a, &b, &table);
        let via_schoolbook = a.mul(&b, q);
        assert_eq!(via_ntt.coeffs, via_schoolbook.coeffs, "mismatch for q={q}");
    }
}

#[test]
fn ntt_matches_schoolbook_dilithium_q() {
    check_matches_schoolbook(8380417);
}

#[test]
fn ntt_matches_schoolbook_small_q() {
    check_matches_schoolbook(12289);
}

#[test]
fn ntt_rejects_non_ntt_suitable_q() {
    assert!(pqc_engines::ntt::build_table(3329).is_err());
}

#[test]
fn inverse_ntt_undoes_forward_ntt() {
    let q = 8380417;
    let table = pqc_engines::ntt::build_table(q).unwrap();
    let mut rng = Xorshift32(7);
    let p = random_poly(&mut rng, q);
    let mut a = [0i64; 256];
    for i in 0..256 {
        a[i] = p.coeffs[i] as i64;
    }
    pqc_engines::ntt::ntt(&mut a, &table);
    assert_ne!(a.to_vec(), p.coeffs.iter().map(|&c| c as i64).collect::<Vec<i64>>());
    pqc_engines::ntt::inv_ntt(&mut a, &table);
    for i in 0..256 {
        assert_eq!(a[i], p.coeffs[i] as i64);
    }
}

#[test]
fn custom_inverse_ntt_undoes_forward_ntt_mod_q() {
    let q: i32 = 7681;
    let n: usize = 64;
    let table = pqc_engines::custom_kem_ntt::build_table(n, q).unwrap();
    let mut rng = Xorshift32(11);
    let orig: Vec<i64> = (0..n).map(|i| (rng.next() % 20000) as i64 - 10000 + i as i64).collect();
    let mut a = orig.clone();
    pqc_engines::custom_kem_ntt::ntt(a.as_mut_slice(), &table);
    pqc_engines::custom_kem_ntt::inv_ntt(a.as_mut_slice(), &table);
    for i in 0..n {
        assert_eq!(a[i], orig[i].rem_euclid(q as i64));
    }
}

#[test]
fn schoolbook_mul_accepts_large_times_reduced() {
    let q = 3329;
    let mut a = Poly::zero();
    let mut b = Poly::zero();
    a.coeffs[255] = i32::MAX;
    a.coeffs[0] = i32::MIN + 1;
    b.coeffs[1] = 3328;
    b.coeffs[0] = 17;
    let c = a.mul(&b, q);
    // x^255 * x = -1, so coefficient 0 is -MAX*3328 + (MIN+1)*17, coefficient 255 is MAX*17
    let c0 = ((-(i32::MAX as i128) * 3328 + (i32::MIN as i128 + 1) * 17).rem_euclid(q as i128)) as i32;
    let c1 = (((i32::MIN as i128 + 1) * 3328).rem_euclid(q as i128)) as i32;
    let c255 = ((i32::MAX as i128 * 17).rem_euclid(q as i128)) as i32;
    assert_eq!(c.coeffs[0], c0);
    assert_eq!(c.coeffs[1], c1);
    assert_eq!(c.coeffs[255], c255);
}
