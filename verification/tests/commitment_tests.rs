use beholders::commitment::{
    check_proof_single, commit_to_poly, create_witness, get_point, interpolate, make_params,
    open_all_fk20,
};
use beholders::field::fr_from_u64;
use beholders::Scalar;

fn scalars(vals: Vec<u64>) -> Vec<Scalar> {
    vals.into_iter().map(fr_from_u64).collect()
}

/// Evaluates a coefficient vector at a point, via the `bls12_381` field
/// arithmetic (Horner's rule).
fn eval_poly(coeffs: &[Scalar], x: &Scalar) -> Scalar {
    let xv = bls12_381::Scalar::from_bytes(x.b.as_slice().try_into().unwrap()).unwrap();
    let mut acc = bls12_381::Scalar::zero();
    for c in coeffs.iter().rev() {
        let cv = bls12_381::Scalar::from_bytes(c.b.as_slice().try_into().unwrap()).unwrap();
        acc = acc * xv + cv;
    }
    Scalar { b: acc.to_bytes().to_vec() }
}

#[test]
fn test_interpolate() {
    let data = scalars(vec![4, 2137, 383, 4]);
    let poly = interpolate(&data);

    for (i, orig) in data.iter().enumerate() {
        let root = get_point(data.len(), i);
        let val = eval_poly(&poly, &root);
        assert_eq!(val, *orig, "i={}", i);
    }
}

#[test]
fn test_interpolate_long() {
    let data = scalars(vec![8; 128]);
    let poly = interpolate(&data);

    for (i, orig) in data.iter().enumerate() {
        let root = get_point(data.len(), i);
        let val = eval_poly(&poly, &root);
        assert_eq!(val, *orig, "i={}", i);
    }
}

#[test]
fn test_large_trusted_setup() {
    let secrets_len = 256;
    let _params = make_params(&fr_from_u64(764881), secrets_len);
}

#[test]
fn test_prove() {
    let data = scalars(vec![4, 2137, 383, 4]);

    let secrets_len = 16;
    let params = make_params(&fr_from_u64(90525845), secrets_len);

    let poly = interpolate(&data);
    let com = commit_to_poly(&params, &poly);

    for (i, val) in data.iter().enumerate() {
        let x = get_point(data.len(), i);

        assert_eq!(eval_poly(&poly, &x), *val, "value");
        let proof = create_witness(&params, &poly, &x, val).expect("prove");
        let res = check_proof_single(&params, &com, &proof, &x, val);
        assert!(res, "Proof did not verify for i={i}");
    }
}

#[test]
fn test_open_all() {
    let data = scalars(vec![4, 2137, 383, 4]);

    let secrets_len = 16;
    let params = make_params(&fr_from_u64(5002137), secrets_len);

    let (com, openings) = open_all_fk20(&params, &data);
    let poly = interpolate(&data);

    for ((i, val), proof) in data.iter().enumerate().zip(openings.iter()) {
        let x = get_point(data.len(), i);

        assert_eq!(eval_poly(&poly, &x), *val, "value");
        let res = check_proof_single(&params, &com, proof, &x, val);
        assert!(res, "Proof did not verify for i = {}", i);
    }
}

#[test]
fn test_prove_fk20() {
    let data = scalars(vec![4, 2137, 383, 4]);
    let params = make_params(&fr_from_u64(48151623), 16);

    let poly = interpolate(&data);
    assert_eq!(poly.len(), 4);
    let (commitment, all_proofs) = open_all_fk20(&params, &data);

    // Verify the proof at each root of unity
    for (i, proof) in all_proofs.iter().enumerate() {
        let x = get_point(data.len(), i);
        let y = eval_poly(&poly, &x);
        assert!(check_proof_single(&params, &commitment, proof, &x, &y), "{i}");
    }
}

#[test]
fn test_open_all_matches() {
    let data = scalars(vec![4, 2137, 383, 4]);
    let params = make_params(&fr_from_u64(271828), 16);

    let (_com, all_proofs) = open_all_fk20(&params, &data);

    // a per-point loop over single openings gives the same openings
    let poly = interpolate(&data);
    let direct: Vec<_> = data
        .iter()
        .enumerate()
        .map(|(i, y)| {
            let x = get_point(data.len(), i);
            create_witness(&params, &poly, &x, y).expect("witness")
        })
        .collect();
    assert_eq!(all_proofs, direct);
}

#[test]
fn test_prove_trusted_setup() {
    let data = scalars(vec![4, 2137, 383, 4]);

    let params = make_params(&fr_from_u64(31415926), 64);
    let poly = interpolate(&data);
    let com = commit_to_poly(&params, &poly);

    for (i, val) in data.iter().enumerate() {
        let x = get_point(data.len(), i);

        assert_eq!(eval_poly(&poly, &x), *val, "value");
        let proof = create_witness(&params, &poly, &x, val).expect("prove");
        let res = check_proof_single(&params, &com, &proof, &x, val);
        assert!(res, "Proof did not verify for i = {}", i);
    }
}
