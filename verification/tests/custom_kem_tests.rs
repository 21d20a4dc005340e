use pqc_engines::custom_kem::{decapsulate, encapsulate, keygen};
use pqc_engines::custom_kem_params::{build_params, GenericCustomKemParams};

fn roundtrip(params: &GenericCustomKemParams, trials: usize) {
    for _ in 0..trials {
        let kp = keygen(params).expect("keygen should succeed");
        let (ct, ss_send) = encapsulate(params, &kp.pk_bytes).expect("encapsulate should succeed");
        let ss_recv = decapsulate(params, &kp.sk_bytes, &ct).expect("decapsulate should succeed");
        assert_eq!(ss_send, ss_recv, "shared secrets should match on a genuine roundtrip");
    }
}

#[test]
fn roundtrip_custom_kem_512_shaped() {
    let params = build_params(2, 256, 7681).unwrap();
    roundtrip(&params, 20);
}

#[test]
fn roundtrip_custom_kem_smaller_ring() {
    let params = build_params(3, 128, 12289).unwrap();
    roundtrip(&params, 20);
}

#[test]
fn decapsulate_with_wrong_key_gives_different_secret() {
    let params = build_params(2, 256, 7681).unwrap();
    let kp_a = keygen(&params).unwrap();
    let kp_b = keygen(&params).unwrap();
    let (ct, ss_send) = encapsulate(&params, &kp_a.pk_bytes).unwrap();
    let ss_wrong = decapsulate(&params, &kp_b.sk_bytes, &ct).unwrap();
    assert_ne!(ss_send, ss_wrong);
}
