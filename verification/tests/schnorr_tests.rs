use beholders::field::{fr_add, fr_from_u64, fr_mul, fr_rand};
use beholders::group::{g1_generator, g1_mul};
use beholders::schnorr::{maxc, Schnorr};

#[test]
fn test_schnorr() {
    let g = g1_generator();

    let r = fr_from_u64(1337);
    let sk = fr_from_u64(42);
    let pk = g1_mul(&g, &sk);
    let c = 2137;
    let proof = Schnorr::prove(&sk, &r, c);
    assert!(proof.verify(&pk));
}

#[test]
fn test_schnorr_random_keys() {
    let g = g1_generator();
    let sk = fr_rand();
    let r = fr_rand();
    let pk = g1_mul(&g, &sk);
    let proof = Schnorr::prove(&sk, &r, u32::MAX);
    assert!(proof.verify(&pk));

    // a transcript does not verify against an unrelated key
    let other = g1_mul(&g, &fr_from_u64(99));
    assert!(!proof.verify(&other));
}

#[test]
fn test_maxc() {
    assert_eq!(maxc(0), 1);
    assert_eq!(maxc(1), 2);
    assert_eq!(maxc(10), 1024);
    assert_eq!(maxc(31), 1 << 31);
}

#[test]
fn test_field_arithmetic() {
    // 2 + 3 == 5 and 6 * 7 == 42, on canonical encodings
    let five = fr_add(&fr_from_u64(2), &fr_from_u64(3));
    assert_eq!(five, fr_from_u64(5));
    let answer = fr_mul(&fr_from_u64(6), &fr_from_u64(7));
    assert_eq!(answer, fr_from_u64(42));
}
