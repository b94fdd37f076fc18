//! The BLS12-381 group `G1`.
//!
//! A point is carried as its canonical 48-byte compressed encoding.  The
//! prime-order subgroup is cyclic, so every point is `n * G` for exactly one
//! `n` below the group order, and every point has exactly one valid
//! compressed encoding.  The two spec functions below name the two sides of
//! that bijection; the trusted wrappers state how the `bls12_381` group
//! operations act on it.

use vstd::prelude::*;

use crate::field::{fr_order, Scalar};

verus! {

/// Whether a 48-byte string is the valid compressed encoding of a point of
/// the prime-order subgroup of `G1` (the encodings that
/// `bls12_381::G1Affine::from_compressed` accepts).
pub uninterp spec fn g1_ok(b: Seq<u8>) -> bool;

/// The discrete logarithm, base the fixed generator, of the subgroup point
/// that a valid encoding encodes.  No executable function computes it; it
/// only parameterizes the contracts of the group wrappers.
pub uninterp spec fn g1_dlog(b: Seq<u8>) -> nat;

/// The canonical compressed encoding of `n` times the fixed generator:
/// the inverse of `g1_dlog`.
pub uninterp spec fn g1_of_dlog(n: nat) -> Seq<u8>;

/// A point of `G1`, held as its canonical compressed encoding.
#[derive(Debug, Clone, PartialEq, Eq)]
pub struct Point {
    pub b: Vec<u8>,
}

impl Point {
    /// The discrete logarithm of this point.
    pub open spec fn dlog(&self) -> nat {
        g1_dlog(self.b@)
    }

    /// Well-formed: a valid canonical encoding of a subgroup point.
    pub open spec fn wf(&self) -> bool {
        &&& self.b@.len() == 48
        &&& g1_ok(self.b@)
        &&& self.dlog() < fr_order()
        &&& self.b@ == g1_of_dlog(self.dlog())
    }
}

/// Copies a point; the copy encodes the same bytes.
pub fn point_copy(p: &Point) -> (r: Point)
    ensures
        r.b@ =~= p.b@,
{
    Point { b: crate::field::copy_bytes(&p.b) }
}

/// Relies on `bls12_381::G1Affine::generator` and `to_compressed`: returns
/// the canonical encoding of the fixed generator, whose discrete logarithm
/// is 1.
#[verifier::external_body]
pub fn g1_generator() -> (r: Point)
    ensures
        r.wf(),
        r.dlog() == 1,
        r.b@ == g1_of_dlog(1),
{
    Point { b: bls12_381::G1Affine::generator().to_compressed().to_vec() }
}

/// Relies on `bls12_381` group addition: the sum of `x * G` and `y * G` is
/// `(x + y) * G`, returned in canonical compressed form.
#[verifier::external_body]
pub fn g1_add(p: &Point, q: &Point) -> (r: Point)
    requires
        p.wf(),
        q.wf(),
    ensures
        r.wf(),
        r.dlog() == (p.dlog() + q.dlog()) % fr_order(),
        r.b@ == g1_of_dlog((p.dlog() + q.dlog()) % fr_order()),
{
    let a = bls12_381::G1Affine::from_compressed(p.b.as_slice().try_into().unwrap()).unwrap();
    let b = bls12_381::G1Affine::from_compressed(q.b.as_slice().try_into().unwrap()).unwrap();
    let s = bls12_381::G1Projective::from(a) + bls12_381::G1Projective::from(b);
    Point { b: bls12_381::G1Affine::from(s).to_compressed().to_vec() }
}

/// Relies on `bls12_381` scalar multiplication: `s` times the point `x * G`
/// is `(x * s) * G`, returned in canonical compressed form.
#[verifier::external_body]
pub fn g1_mul(p: &Point, s: &Scalar) -> (r: Point)
    requires
        p.wf(),
        s.wf(),
    ensures
        r.wf(),
        r.dlog() == (p.dlog() * s.value()) % fr_order(),
        r.b@ == g1_of_dlog((p.dlog() * s.value()) % fr_order()),
{
    let a = bls12_381::G1Affine::from_compressed(p.b.as_slice().try_into().unwrap()).unwrap();
    let k = bls12_381::Scalar::from_bytes(s.b.as_slice().try_into().unwrap()).unwrap();
    Point { b: bls12_381::G1Affine::from(a * k).to_compressed().to_vec() }
}

/// Relies on `bls12_381::G1Affine::from_compressed`: it accepts exactly the
/// valid canonical encodings of subgroup points (it recovers the point and
/// checks that it is torsion free), so a string it accepts encodes a point
/// with a discrete logarithm below the group order and is that point's one
/// canonical encoding.
#[verifier::external_body]
pub fn g1_validate(b: &Vec<u8>) -> (r: bool)
    requires
        b@.len() == 48,
    ensures
        r == g1_ok(b@),
        r ==> g1_dlog(b@) < fr_order() && b@ == g1_of_dlog(g1_dlog(b@)),
{
    bls12_381::G1Affine::from_compressed(b.as_slice().try_into().unwrap()).is_some().into()
}

} // verus!
