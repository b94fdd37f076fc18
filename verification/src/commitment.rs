//! The KZG commitment layer.
//!
//! The data is interpolated over the `N`-th roots of unity (by the `kzg`
//! crate's inverse FFT), committed, and opened at every evaluation point.
//! The trusted-setup parameters are an opaque object of the `kzg` crate,
//! held behind `SetupParams`; the spec functions below name what its
//! operations return.

use vstd::arithmetic::div_mod::{lemma_mod_bound, lemma_mul_mod_noop_right, lemma_small_mod};
use vstd::arithmetic::mul::{lemma_mul_is_associative, lemma_mul_is_commutative};
use vstd::calc;
use vstd::prelude::*;

use crate::field::{fr_from_u64, fr_mul, fr_order, Scalar};
use crate::group::{g1_of_dlog, Point};
use crate::util::{is_pow2, lemma_lg_pow2, lemma_pow2_lg, lemma_pow2_mono, lg, lg_exec, pow2};

verus! {

/// KZG opening: a point of `G1`.
pub type Opening = Point;

/// KZG polynomial commitment: a point of `G1`.
pub type Commitment = Point;

/// The trusted-setup parameters of the `kzg` crate: the generator powers
/// `g * s^i` and `h * s^i`.  The object is opaque; `params_size` names how
/// many powers it carries and the other spec functions name what its
/// operations return on it.
#[verifier::external_body]
pub struct SetupParams {
    params: kzg::KZGParams<bls12_381::Bls12>,
}

/// The number of generator powers a setup object carries.
pub uninterp spec fn params_size(p: SetupParams) -> nat;

/// The discrete logarithm of the commitment that `KZGProver::commit`
/// returns for a coefficient vector.
pub uninterp spec fn kzg_commit(p: SetupParams, coeffs: Seq<nat>) -> nat;

/// The discrete logarithm of the opening that `KZGProver::create_witness`
/// returns for a coefficient vector and an evaluation point.
pub uninterp spec fn kzg_witness(p: SetupParams, coeffs: Seq<nat>, x: nat) -> nat;

/// What the pairing check `KZGVerifier::verify_eval` returns on a
/// commitment, an opening, a point and a value.
pub uninterp spec fn kzg_check(p: SetupParams, com: Seq<u8>, opening: Seq<u8>, x: nat, y: nat) -> bool;

/// The coefficients that the inverse FFT returns for a value vector; a
/// function of the values alone.
pub uninterp spec fn ifft_vals(data: Seq<nat>) -> Seq<nat>;

/// The values of a scalar vector.
pub open spec fn scalar_vals(s: Seq<Scalar>) -> Seq<nat> {
    s.map_values(|x: Scalar| x.value())
}

/// Horner evaluation of a coefficient vector, modulo the field order.
pub open spec fn poly_eval_mod(c: Seq<nat>, x: nat) -> nat
    decreases c.len(),
{
    if c.len() == 0 {
        0
    } else {
        (c[0] + x * poly_eval_mod(c.skip(1), x)) % fr_order()
    }
}

/// `b^e` modulo the field order.
pub open spec fn pow_mod(b: nat, e: nat) -> nat
    decreases e,
{
    if e == 0 {
        1
    } else {
        (b * pow_mod(b, (e - 1) as nat)) % fr_order()
    }
}

/// The primitive `2^32`-th root of unity of the scalar field, as the
/// `bls12_381` crate fixes it.
pub open spec fn root_of_unity_val() -> nat {
    0x16a2a19edfe81f20d09b681922c813b4b63683508c2280b93829971f439f0d2bnat
}

/// The primitive `n`-th root of unity used as the evaluation domain
/// generator for `n` a power of two.
pub open spec fn omega_of(n: nat) -> nat {
    pow_mod(root_of_unity_val(), pow2((32 - lg(n)) as nat))
}

/// The `i`-th evaluation point of the size-`n` domain.
pub open spec fn point_of(n: nat, i: nat) -> nat {
    pow_mod(omega_of(n), i)
}

/// Relies on `kzg::setup`: builds the trusted-setup parameters with
/// `num_coeffs` generator powers of the given secret.
#[verifier::external_body]
pub fn make_params(secret: &Scalar, num_coeffs: usize) -> (r: SetupParams)
    requires
        secret.wf(),
        num_coeffs >= 1,
    ensures
        params_size(r) == num_coeffs as nat,
{
    let s = bls12_381::Scalar::from_bytes(secret.b.as_slice().try_into().unwrap()).unwrap();
    SetupParams { params: kzg::setup::<bls12_381::Bls12>(s, num_coeffs) }
}

/// Relies on `kzg::ft::EvaluationDomain` (`from_coeffs` then `ifft`): for a
/// power-of-two value vector it returns the unique coefficient vector of the
/// same length whose polynomial takes those values at the powers of the
/// domain generator `root_of_unity^(2^(32-log2 n))`.
#[verifier::external_body]
pub fn interpolate(data: &Vec<Scalar>) -> (r: Vec<Scalar>)
    requires
        1 <= data@.len() <= 0x10000,
        is_pow2(data@.len()),
        forall|i: int| 0 <= i < data@.len() ==> data@[i].wf(),
    ensures
        r@.len() == data@.len(),
        forall|i: int| 0 <= i < r@.len() ==> (#[trigger] r@[i]).wf(),
        scalar_vals(r@) == ifft_vals(scalar_vals(data@)),
        forall|i: int|
            0 <= i < data@.len() ==> poly_eval_mod(
                scalar_vals(r@),
                point_of(data@.len(), i as nat),
            ) == data@[i].value(),
{
    let vals: Vec<bls12_381::Scalar> = data
        .iter()
        .map(|s| bls12_381::Scalar::from_bytes(s.b.as_slice().try_into().unwrap()).unwrap())
        .collect();
    let mut domain = kzg::ft::EvaluationDomain::from_coeffs(vals).unwrap();
    domain.ifft();
    domain.into_coeffs().into_iter().map(|c| Scalar { b: c.to_bytes().to_vec() }).collect()
}

/// Relies on `kzg::KZGProver::commit`: the commitment is the multi-scalar
/// combination of the generator powers with the coefficients, a fixed
/// subgroup point returned in canonical compressed form.
#[verifier::external_body]
pub fn commit_to_poly(params: &SetupParams, coeffs: &Vec<Scalar>) -> (r: Commitment)
    requires
        1 <= coeffs@.len() <= params_size(*params),
        forall|i: int| 0 <= i < coeffs@.len() ==> coeffs@[i].wf(),
    ensures
        r.wf(),
        r.dlog() == kzg_commit(*params, scalar_vals(coeffs@)),
        r.b@ == g1_of_dlog(kzg_commit(*params, scalar_vals(coeffs@))),
{
    let vals: Vec<bls12_381::Scalar> = coeffs
        .iter()
        .map(|s| bls12_381::Scalar::from_bytes(s.b.as_slice().try_into().unwrap()).unwrap())
        .collect();
    let mut prover = kzg::KZGProver::new(&params.params);
    let com = prover.commit(kzg::polynomial::Polynomial::new(vals));
    Point { b: com.into_inner().to_compressed().to_vec() }
}

/// Relies on `kzg::KZGProver::create_witness`: it divides `p - y` by
/// `X - x` and returns the witness exactly when the division is exact,
/// that is, exactly when `p(x) == y` (the polynomial remainder theorem,
/// as the crate itself notes).  The witness makes the crate's own pairing
/// check `verify_eval` pass against the commitment to `p` (completeness of
/// the KZG scheme, which the crate's tests exercise).
#[verifier::external_body]
pub fn create_witness(params: &SetupParams, coeffs: &Vec<Scalar>, x: &Scalar, y: &Scalar) -> (r:
    Option<Opening>)
    requires
        1 <= coeffs@.len() <= params_size(*params),
        forall|i: int| 0 <= i < coeffs@.len() ==> coeffs@[i].wf(),
        x.wf(),
        y.wf(),
    ensures
        r.is_some() <==> poly_eval_mod(scalar_vals(coeffs@), x.value()) == y.value(),
        r.is_some() ==> {
            &&& r.unwrap().wf()
            &&& r.unwrap().dlog() == kzg_witness(*params, scalar_vals(coeffs@), x.value())
            &&& r.unwrap().b@ == g1_of_dlog(kzg_witness(*params, scalar_vals(coeffs@), x.value()))
            &&& kzg_check(
                *params,
                g1_of_dlog(kzg_commit(*params, scalar_vals(coeffs@))),
                r.unwrap().b@,
                x.value(),
                y.value(),
            )
        },
{
    let vals: Vec<bls12_381::Scalar> = coeffs
        .iter()
        .map(|s| bls12_381::Scalar::from_bytes(s.b.as_slice().try_into().unwrap()).unwrap())
        .collect();
    let xv = bls12_381::Scalar::from_bytes(x.b.as_slice().try_into().unwrap()).unwrap();
    let yv = bls12_381::Scalar::from_bytes(y.b.as_slice().try_into().unwrap()).unwrap();
    let mut prover = kzg::KZGProver::new(&params.params);
    prover.commit(kzg::polynomial::Polynomial::new(vals));
    match prover.create_witness((xv, yv)) {
        Ok(w) => Some(Point { b: w.into_inner().to_compressed().to_vec() }),
        Err(_) => None,
    }
}

/// Relies on `kzg::KZGVerifier::verify_eval`: the pairing check on a
/// commitment, an opening, a point and a value; it depends on those and the
/// setup parameters alone.
#[verifier::external_body]
pub fn check_proof_single(
    params: &SetupParams,
    com: &Commitment,
    opening: &Opening,
    x: &Scalar,
    y: &Scalar,
) -> (r: bool)
    requires
        params_size(*params) >= 1,
        com.wf(),
        opening.wf(),
        x.wf(),
        y.wf(),
    ensures
        r == kzg_check(*params, com.b@, opening.b@, x.value(), y.value()),
{
    let c = bls12_381::G1Affine::from_compressed(com.b.as_slice().try_into().unwrap()).unwrap();
    let w = bls12_381::G1Affine::from_compressed(opening.b.as_slice().try_into().unwrap()).unwrap();
    let xv = bls12_381::Scalar::from_bytes(x.b.as_slice().try_into().unwrap()).unwrap();
    let yv = bls12_381::Scalar::from_bytes(y.b.as_slice().try_into().unwrap()).unwrap();
    let verifier = kzg::KZGVerifier::new(&params.params);
    verifier.verify_eval(
        (xv, yv),
        &kzg::wrapper_types::G1Affine::from_inner(c),
        &kzg::wrapper_types::G1Affine::from_inner(w),
    )
}

/// Relies on `bls12_381::Scalar::root_of_unity` (`ff::PrimeField`): the
/// fixed primitive `2^32`-th root of unity, whose canonical value the
/// contract states exactly.
#[verifier::external_body]
fn fr_root_of_unity() -> (r: Scalar)
    ensures
        r.wf(),
        r.value() == root_of_unity_val(),
{
    let w = <bls12_381::Scalar as pairing::group::ff::PrimeField>::root_of_unity();
    Scalar { b: w.to_bytes().to_vec() }
}

/// `pow_mod` is below the field order.
pub proof fn lemma_pow_mod_bound(b: nat, e: nat)
    ensures
        pow_mod(b, e) < fr_order(),
{
    if e == 0 {
    } else {
        lemma_mod_bound((b * pow_mod(b, (e - 1) as nat)) as int, fr_order() as int);
    }
}

/// `b^(m+n) == b^m * b^n`, modulo the field order.
pub proof fn lemma_pow_mod_adds(b: nat, m: nat, n: nat)
    ensures
        pow_mod(b, m + n) == (pow_mod(b, m) * pow_mod(b, n)) % fr_order(),
    decreases n,
{
    let q = fr_order();
    lemma_pow_mod_bound(b, m);
    if n == 0 {
        assert(pow_mod(b, n) == 1);
        vstd::arithmetic::mul::lemma_mul_basics(pow_mod(b, m) as int);
        lemma_small_mod(pow_mod(b, m), q);
        assert(pow_mod(b, m + n) == pow_mod(b, m));
        assert((pow_mod(b, m) * pow_mod(b, n)) % q == pow_mod(b, m) % q);
    } else {
        lemma_pow_mod_adds(b, m, (n - 1) as nat);
        calc! {
            (==)
            pow_mod(b, m + n); {}
            (b * pow_mod(b, (m + n - 1) as nat)) % q; {
                lemma_mul_mod_noop_right(
                    b as int,
                    (pow_mod(b, m) * pow_mod(b, (n - 1) as nat)) as int,
                    q as int,
                );
            }
            (b * (pow_mod(b, m) * pow_mod(b, (n - 1) as nat))) % q; {
                lemma_mul_is_associative(
                    b as int,
                    pow_mod(b, m) as int,
                    pow_mod(b, (n - 1) as nat) as int,
                );
                lemma_mul_is_commutative(b as int, pow_mod(b, m) as int);
                lemma_mul_is_associative(
                    pow_mod(b, m) as int,
                    b as int,
                    pow_mod(b, (n - 1) as nat) as int,
                );
            }
            (pow_mod(b, m) * (b * pow_mod(b, (n - 1) as nat))) % q; {
                lemma_mul_mod_noop_right(
                    pow_mod(b, m) as int,
                    (b * pow_mod(b, (n - 1) as nat)) as int,
                    q as int,
                );
            }
            (pow_mod(b, m) * pow_mod(b, n)) % q;
        }
    }
}

/// The domain generator for a power-of-two size, computed by repeated
/// squaring of the fixed root of unity.
pub fn domain_omega(n: usize) -> (r: Scalar)
    requires
        is_pow2(n as nat),
        n <= 0x10000,
    ensures
        r.wf(),
        r.value() == omega_of(n as nat),
{
    proof {
        lemma_lg_le_16(n as nat);
    }
    let e: u32 = 32 - lg_exec(n);
    let mut acc = fr_root_of_unity();
    let mut k: u32 = 0;
    proof {
        assert(pow2(0) == 1);
        assert(pow_mod(root_of_unity_val(), 0) == 1);
        assert(pow_mod(root_of_unity_val(), 1) == (root_of_unity_val() * pow_mod(
            root_of_unity_val(),
            0,
        )) % fr_order());
        lemma_small_mod(root_of_unity_val(), fr_order());
    }
    while k < e
        invariant
            k <= e,
            acc.wf(),
            acc.value() == pow_mod(root_of_unity_val(), pow2(k as nat)),
        decreases e - k,
    {
        proof {
            lemma_pow_mod_adds(root_of_unity_val(), pow2(k as nat), pow2(k as nat));
            assert(pow2((k + 1) as nat) == pow2(k as nat) + pow2(k as nat));
        }
        acc = fr_mul(&acc, &acc);
        k = k + 1;
    }
    acc
}

/// A power of two up to `2^16` has logarithm at most 16.
proof fn lemma_lg_le_16(n: nat)
    requires
        is_pow2(n),
        n <= 0x10000,
    ensures
        lg(n) <= 16,
{
    lemma_pow2_lg(n);
    if lg(n) > 16 {
        lemma_pow2_mono(17, lg(n));
        reveal_with_fuel(pow2, 18);
    }
}

/// The `i`-th evaluation point of the size-`data_len` domain: the `i`-th
/// power of the domain generator.
pub fn get_point(data_len: usize, i: usize) -> (r: Scalar)
    requires
        is_pow2(data_len as nat),
        data_len <= 0x10000,
        i < data_len,
    ensures
        r.wf(),
        r.value() == point_of(data_len as nat, i as nat),
{
    let omega = domain_omega(data_len);
    let mut acc = fr_from_u64(1);
    let mut j: usize = 0;
    proof {
        lemma_pow_mod_bound(omega_of(data_len as nat), 0);
    }
    while j < i
        invariant
            j <= i,
            acc.wf(),
            omega.wf(),
            omega.value() == omega_of(data_len as nat),
            acc.value() == pow_mod(omega_of(data_len as nat), j as nat),
        decreases i - j,
    {
        proof {
            let ov = omega_of(data_len as nat);
            assert(pow_mod(ov, (j + 1) as nat) == (ov * pow_mod(ov, j as nat)) % fr_order());
        }
        acc = fr_mul(&omega, &acc);
        j = j + 1;
    }
    acc
}

/// Interpolates the data, commits to the polynomial, and opens it at every
/// evaluation point.  Every returned opening passes the pairing check
/// against the returned commitment, its point and its value.
pub fn open_all_fk20(params: &SetupParams, data: &Vec<Scalar>) -> (r: (Commitment, Vec<Opening>))
    requires
        1 <= data@.len() <= 0x10000,
        is_pow2(data@.len()),
        data@.len() <= params_size(*params),
        forall|i: int| 0 <= i < data@.len() ==> data@[i].wf(),
    ensures
        r.0.wf(),
        r.0.dlog() == kzg_commit(*params, ifft_vals(scalar_vals(data@))),
        r.0.b@ == g1_of_dlog(kzg_commit(*params, ifft_vals(scalar_vals(data@)))),
        r.1@.len() == data@.len(),
        forall|i: int|
            0 <= i < data@.len() ==> {
                &&& (#[trigger] r.1@[i]).wf()
                &&& r.1@[i].b@ == g1_of_dlog(
                    kzg_witness(
                        *params,
                        ifft_vals(scalar_vals(data@)),
                        point_of(data@.len(), i as nat),
                    ),
                )
                &&& kzg_check(
                    *params,
                    r.0.b@,
                    r.1@[i].b@,
                    point_of(data@.len(), i as nat),
                    data@[i].value(),
                )
            },
{
    let coeffs = interpolate(data);
    let com = commit_to_poly(params, &coeffs);
    let mut openings: Vec<Opening> = Vec::new();
    let n = data.len();
    let mut i: usize = 0;
    while i < n
        invariant
            n == data@.len(),
            1 <= n <= 0x10000,
            is_pow2(n as nat),
            n <= params_size(*params),
            forall|k: int| 0 <= k < data@.len() ==> (#[trigger] data@[k]).wf(),
            coeffs@.len() == n,
            forall|k: int| 0 <= k < coeffs@.len() ==> (#[trigger] coeffs@[k]).wf(),
            scalar_vals(coeffs@) == ifft_vals(scalar_vals(data@)),
            forall|k: int|
                0 <= k < n ==> poly_eval_mod(scalar_vals(coeffs@), point_of(n as nat, k as nat))
                    == data@[k].value(),
            com.wf(),
            com.b@ == g1_of_dlog(kzg_commit(*params, scalar_vals(coeffs@))),
            i <= n,
            openings@.len() == i,
            forall|k: int|
                0 <= k < i ==> {
                    &&& (#[trigger] openings@[k]).wf()
                    &&& openings@[k].b@ == g1_of_dlog(
                        kzg_witness(*params, scalar_vals(coeffs@), point_of(n as nat, k as nat)),
                    )
                    &&& kzg_check(
                        *params,
                        com.b@,
                        openings@[k].b@,
                        point_of(n as nat, k as nat),
                        data@[k].value(),
                    )
                },
        decreases n - i,
    {
        let x = get_point(n, i);
        let w = create_witness(params, &coeffs, &x, &data[i]);
        match w {
            Some(p) => {
                openings.push(p);
            },
            None => {
                // unreachable: the interpolated polynomial takes the data
                // value at every evaluation point
                proof {
                    assert(false);
                }
            },
        }
        i = i + 1;
    }
    (com, openings)
}

} // verus!
