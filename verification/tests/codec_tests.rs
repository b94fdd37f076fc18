use beholders::codec::{
    decode_point, decode_proof, decode_scalar, decode_schnorr, encode_point, encode_proof,
    encode_scalar, encode_schnorr,
};
use beholders::commitment::{make_params, open_all_fk20};
use beholders::field::{fr_from_u64, fr_rand};
use beholders::fischlin::{FischIter, Proof};
use beholders::group::{g1_generator, g1_mul};
use beholders::schnorr::Schnorr;

#[test]
fn test_scalar_codec_round_trip() {
    let s = fr_from_u64(2137);
    let enc = encode_scalar(&s);
    let (dec, used) = decode_scalar(&enc, 0).expect("decode");
    assert_eq!(used, enc.len());
    assert_eq!(dec, s);
}

#[test]
fn test_point_codec_round_trip() {
    let p = g1_mul(&g1_generator(), &fr_rand());
    let enc = encode_point(&p);
    let (dec, used) = decode_point(&enc, 0).expect("decode");
    assert_eq!(used, enc.len());
    assert_eq!(dec, p);
}

#[test]
fn test_schnorr_codec_round_trip() {
    let s = Schnorr::prove(&fr_from_u64(42), &fr_from_u64(1337), 2137);
    let enc = encode_schnorr(&s);
    assert_eq!(enc.len(), 84);
    let (dec, used) = decode_schnorr(&enc, 0).expect("decode");
    assert_eq!(used, 84);
    assert_eq!(dec, s);
}

/// The signature round trip: decoding an encoded proof gives the proof
/// back, and the decoded proof still verifies.
#[test]
fn test_proof_codec_round_trip() {
    let data = vec![4u8; 128];
    let params = make_params(&fr_from_u64(2236067), 15);
    let sk = fr_from_u64(2137);
    let pk = g1_mul(&g1_generator(), &sk);
    let (nfisch, difficulty, mvalue) = (2, 1, 16);

    for attempt in 0.. {
        let (proof, com) = Proof::prove(&params, sk.clone(), &data, nfisch, difficulty, mvalue);
        let proof = proof.expect("No proof found");
        if !proof.verify(&pk, &com, data.len() / 32, &params, difficulty, mvalue) {
            assert!(attempt < 200, "mining kept failing");
            continue;
        }
        let enc = encode_proof(&proof);
        let (dec, used) = decode_proof(&enc, 0).expect("decode");
        assert_eq!(used, enc.len());
        assert_eq!(dec, proof);
        assert!(dec.verify(&pk, &com, data.len() / 32, &params, difficulty, mvalue));

        // the commitment round-trips too
        let cenc = encode_point(&com);
        let (cdec, _) = decode_point(&cenc, 0).expect("decode");
        assert_eq!(cdec, com);
        return;
    }
}

#[test]
fn test_decode_rejects_malformed() {
    // a non-canonical scalar: 32 bytes of 0xff encode a value above the
    // field order
    let bad_scalar = vec![0xffu8; 32];
    assert!(decode_scalar(&bad_scalar, 0).is_none());

    // 48 zero bytes are not a valid compressed point
    let bad_point = vec![0u8; 48];
    assert!(decode_point(&bad_point, 0).is_none());

    // truncated input
    let short = vec![1u8, 2, 3];
    assert!(decode_scalar(&short, 0).is_none());
    assert!(decode_point(&short, 0).is_none());
    assert!(decode_schnorr(&short, 0).is_none());
    assert!(decode_proof(&short, 0).is_none());

    // a slot with an unknown tag byte
    let mut bad_proof: Vec<u8> = vec![1, 0, 0, 0];
    bad_proof.push(7);
    bad_proof.extend(vec![0u8; 48]);
    assert!(decode_proof(&bad_proof, 0).is_none());
}

#[test]
fn test_encode_fisch_tags() {
    let p = g1_generator();
    let slot = FischIter::Commitment(p);
    let enc = beholders::codec::encode_fisch(&slot);
    assert_eq!(enc.len(), 49);
    assert_eq!(enc[0], 0);
    let (dec, used) = beholders::codec::decode_fisch(&enc, 0).expect("decode");
    assert_eq!(used, 49);
    assert_eq!(dec, slot);
}

#[test]
fn test_reduce_bytes_is_canonical() {
    // a 32-byte chunk above the field order is reduced, so the stored
    // bytes differ from the raw chunk and decode as a canonical scalar
    let raw = vec![0xffu8; 32];
    let reduced = beholders::field::fr_reduce_bytes(&raw);
    assert_ne!(reduced.b, raw);
    let enc = encode_scalar(&reduced);
    assert!(decode_scalar(&enc, 0).is_some());
}
