use beholders::commitment::{make_params, open_all_fk20};
use beholders::field::fr_from_u64;
use beholders::fischlin::{BaseProof, FischIter, Proof};
use beholders::group::{g1_generator, g1_mul};
use beholders::hashing::{derive_indices, pow_pass};
use beholders::schnorr::maxc;
use beholders::Scalar;

const M: usize = 16;

fn scalars(vals: Vec<u64>) -> Vec<Scalar> {
    vals.into_iter().map(fr_from_u64).collect()
}

#[test]
fn test_base_proof() {
    let data = scalars(vec![4, 2137, 383, 4]);

    let secrets_len = 15;
    let params = make_params(&fr_from_u64(6180339), secrets_len);

    let (com, openings) = open_all_fk20(&params, &data);
    assert_eq!(openings.len(), data.len());

    let g = g1_generator();
    let sk = fr_from_u64(2137);
    let pk = g1_mul(&g, &sk);
    let byte_difficulty = 4;

    let fisch_iter = 0;
    let prelude: Vec<u64> = vec![0; 8];
    let mvalue: usize = 16;

    // the nonce budget is 2^4 candidates, so a given nonce can come up
    // empty; walk the nonce seeds upward until one iteration mines
    let proof = (1337..)
        .map(fr_from_u64)
        .find_map(|r| {
            BaseProof::prove(
                fisch_iter,
                &prelude,
                &openings,
                &r,
                &sk,
                &data,
                byte_difficulty,
                mvalue,
            )
        })
        .expect("No proof found");

    assert!(proof.verify(
        fisch_iter,
        &prelude,
        &pk,
        &com,
        data.len(),
        &params,
        byte_difficulty,
        mvalue
    ));
}

#[test]
fn test_mining_works() {
    let data = vec![4u8; 128];
    let bit_difficulty = 1;

    let secrets_len = 15;
    let params = make_params(&fr_from_u64(1644934), secrets_len);

    let g = g1_generator();
    let sk = fr_from_u64(2137);
    let pk = g1_mul(&g, &sk);

    let nfisch = 2;
    let mvalue: usize = 16;

    // the nonce budget at this difficulty is two candidates per iteration,
    // so an iteration can come up empty; the per-iteration nonces are
    // random, so retry until both iterations mine
    for attempt in 0.. {
        let (proof, com) = Proof::prove(&params, sk.clone(), &data, nfisch, bit_difficulty, mvalue);
        let proof = proof.expect("No proof found");
        assert_eq!(proof.fisch_iters.len(), nfisch);
        let all_mined = proof.fisch_iters.iter().all(|s| matches!(s, FischIter::BaseProof(_)));
        if !all_mined {
            assert!(attempt < 200, "mining kept failing");
            continue;
        }
        for slot in &proof.fisch_iters {
            if let FischIter::BaseProof(base_proof) = slot {
                assert_eq!(base_proof.data.len(), M);
                assert!(base_proof.schnorr.verify(&pk));
            }
        }
        assert!(proof.verify(&pk, &com, data.len() / 32, &params, bit_difficulty, mvalue));
        return;
    }
}

/// Half-threshold tolerance: with exactly half of the slots valid the
/// signature verifies; one more replaced slot tips it into rejection.
#[test]
fn test_half_threshold() {
    let data = vec![4u8; 128];
    let bit_difficulty = 1;
    let nfisch = 32;
    let mvalue: usize = 4;
    let params = make_params(&fr_from_u64(141421), 15);
    let g = g1_generator();
    let sk = fr_from_u64(2137);
    let pk = g1_mul(&g, &sk);

    for attempt in 0.. {
        let (proof, com) = Proof::prove(&params, sk.clone(), &data, nfisch, bit_difficulty, mvalue);
        let mut proof = proof.expect("No proof found");
        let mined: Vec<usize> = proof
            .fisch_iters
            .iter()
            .enumerate()
            .filter(|(_, s)| matches!(s, FischIter::BaseProof(_)))
            .map(|(i, _)| i)
            .collect();
        if mined.len() < nfisch / 2 + 1 {
            assert!(attempt < 200, "mining kept failing");
            continue;
        }
        // strip mined slots down to exactly half
        for &i in mined.iter().take(mined.len() - nfisch / 2) {
            let a = proof.fisch_iters[i].a();
            proof.fisch_iters[i] = FischIter::Commitment(a);
        }
        assert!(proof.verify(&pk, &com, data.len() / 32, &params, bit_difficulty, mvalue));

        // one more replaced valid slot fails the threshold
        let &last = mined.last().unwrap();
        let a = proof.fisch_iters[last].a();
        proof.fisch_iters[last] = FischIter::Commitment(a);
        assert!(!proof.verify(&pk, &com, data.len() / 32, &params, bit_difficulty, mvalue));
        return;
    }
}

/// Bounded challenge: a base proof whose challenge reaches the nonce
/// budget is rejected.
#[test]
fn test_bounded_challenge() {
    let data = vec![4u8; 128];
    let bit_difficulty = 1;
    let nfisch = 2;
    let mvalue: usize = 4;
    let params = make_params(&fr_from_u64(173205), 15);
    let g = g1_generator();
    let sk = fr_from_u64(2137);
    let pk = g1_mul(&g, &sk);

    for attempt in 0.. {
        let (proof, com) = Proof::prove(&params, sk.clone(), &data, nfisch, bit_difficulty, mvalue);
        let mut proof = proof.expect("No proof found");
        let mined: Vec<usize> = proof
            .fisch_iters
            .iter()
            .enumerate()
            .filter(|(_, s)| matches!(s, FischIter::BaseProof(_)))
            .map(|(i, _)| i)
            .collect();
        if mined.len() < nfisch {
            assert!(attempt < 200, "mining kept failing");
            continue;
        }
        assert!(proof.verify(&pk, &com, data.len() / 32, &params, bit_difficulty, mvalue));
        // a challenge at or past the nonce budget invalidates a slot, so
        // pushing every mined slot past it fails the threshold
        for &i in &mined {
            if let FischIter::BaseProof(bp) = &mut proof.fisch_iters[i] {
                bp.schnorr.c = maxc(bit_difficulty) + 1;
            }
        }
        assert!(!proof.verify(&pk, &com, data.len() / 32, &params, bit_difficulty, mvalue));
        return;
    }
}

#[test]
fn test_derive_indices() {
    let indices = derive_indices(1, 1, 8, 10);
    assert_eq!(indices.len(), 8);
    for &x in &indices {
        assert!(x < 10);
    }
    // deterministic on re-run
    assert_eq!(indices, derive_indices(1, 1, 8, 10));
}

#[test]
fn test_derive_indices_depends_on_inputs() {
    let a = derive_indices(1, 1, 8, 1000);
    let b = derive_indices(1, 2, 8, 1000);
    let c = derive_indices(2, 1, 8, 1000);
    assert_ne!(a, b);
    assert_ne!(a, c);
}

#[test]
fn test_pow_pass() {
    let mut hash_output: Vec<u64> = vec![0; 8];
    assert!(pow_pass(&hash_output, 0));
    assert!(pow_pass(&hash_output, 1));
    assert!(pow_pass(&hash_output, 64));
    hash_output[0] = 256;
    assert!(pow_pass(&hash_output, 0));
    assert!(pow_pass(&hash_output, 8));
    assert!(!pow_pass(&hash_output, 9));
}
