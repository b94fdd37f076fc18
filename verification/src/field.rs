//! The BLS12-381 scalar field.
//!
//! A field element is carried as its canonical 32-byte little-endian
//! encoding, so every contract can speak of the integer it encodes.
//! The arithmetic itself is done by the `bls12_381` crate behind the
//! trusted wrappers at the bottom of this file.

use vstd::prelude::*;

verus! {

/// The order of the BLS12-381 scalar field.
pub open spec fn fr_order() -> nat {
    0x73eda753299d7d483339d80809a1d80553bda402fffe5bfeffffffff00000001nat
}

/// The integer encoded by a little-endian byte string.
pub open spec fn le_bytes_val(s: Seq<u8>) -> nat
    decreases s.len(),
{
    if s.len() == 0 {
        0
    } else {
        s[0] as nat + 256 * le_bytes_val(s.skip(1))
    }
}

/// The little-endian byte string of length `n` encoding `v % 256^n`.
pub open spec fn nat_to_le_bytes(v: nat, n: nat) -> Seq<u8>
    decreases n,
{
    if n == 0 {
        Seq::empty()
    } else {
        seq![(v % 256) as u8] + nat_to_le_bytes(v / 256, (n - 1) as nat)
    }
}

/// A scalar field element, held as its canonical little-endian encoding.
#[derive(Debug, Clone, PartialEq, Eq)]
pub struct Scalar {
    pub b: Vec<u8>,
}

impl Scalar {
    /// The integer this element encodes.
    pub open spec fn value(&self) -> nat {
        le_bytes_val(self.b@)
    }

    /// Well-formed: exactly 32 bytes, canonical (below the field order).
    pub open spec fn wf(&self) -> bool {
        self.b@.len() == 32 && self.value() < fr_order()
    }
}

pub proof fn lemma_le_bytes_val_bound(s: Seq<u8>)
    ensures
        le_bytes_val(s) < pow256(s.len()),
    decreases s.len(),
{
    if s.len() > 0 {
        lemma_le_bytes_val_bound(s.skip(1));
        assert(le_bytes_val(s) == s[0] as nat + 256 * le_bytes_val(s.skip(1)));
        assert(256 * le_bytes_val(s.skip(1)) <= 256 * (pow256((s.len() - 1) as nat) - 1))
            by (nonlinear_arith)
            requires
                le_bytes_val(s.skip(1)) <= pow256((s.len() - 1) as nat) - 1,
        ;
    }
}

/// 256 to the power `n`.
pub open spec fn pow256(n: nat) -> nat
    decreases n,
{
    if n == 0 {
        1
    } else {
        256 * pow256((n - 1) as nat)
    }
}

/// A little-endian byte string is determined by its value and its length.
pub proof fn lemma_le_bytes_val_injective(a: Seq<u8>, b: Seq<u8>)
    requires
        a.len() == b.len(),
        le_bytes_val(a) == le_bytes_val(b),
    ensures
        a =~= b,
    decreases a.len(),
{
    if a.len() > 0 {
        assert(le_bytes_val(a) == a[0] as nat + 256 * le_bytes_val(a.skip(1)));
        assert(le_bytes_val(b) == b[0] as nat + 256 * le_bytes_val(b.skip(1)));
        assert(a[0] == b[0] && le_bytes_val(a.skip(1)) == le_bytes_val(b.skip(1)))
            by (nonlinear_arith)
            requires
                a[0] as nat + 256 * le_bytes_val(a.skip(1)) == b[0] as nat + 256 * le_bytes_val(
                    b.skip(1),
                ),
                a[0] < 256,
                b[0] < 256,
        ;
        lemma_le_bytes_val_injective(a.skip(1), b.skip(1));
        assert(a =~= seq![a[0]] + a.skip(1));
        assert(b =~= seq![b[0]] + b.skip(1));
    }
}

/// Encoding a value below `256^n` and decoding it round-trips.
pub proof fn lemma_nat_to_le_bytes_val(v: nat, n: nat)
    requires
        v < pow256(n),
    ensures
        nat_to_le_bytes(v, n).len() == n,
        le_bytes_val(nat_to_le_bytes(v, n)) == v,
    decreases n,
{
    if n > 0 {
        assert(v / 256 < pow256((n - 1) as nat)) by (nonlinear_arith)
            requires
                v < 256 * pow256((n - 1) as nat),
        ;
        lemma_nat_to_le_bytes_val(v / 256, (n - 1) as nat);
        let s = nat_to_le_bytes(v, n);
        assert(s.skip(1) =~= nat_to_le_bytes(v / 256, (n - 1) as nat));
        assert(s[0] as nat + 256 * (v / 256) == v) by (nonlinear_arith)
            requires
                s[0] as nat == v % 256,
        ;
    }
}

/// A well-formed scalar's bytes are the canonical encoding of its value.
pub proof fn lemma_scalar_bytes_canonical(s: Scalar)
    requires
        s.wf(),
    ensures
        s.b@ =~= nat_to_le_bytes(s.value(), 32),
{
    lemma_pow256_32();
    lemma_nat_to_le_bytes_val(s.value(), 32);
    lemma_le_bytes_val_injective(s.b@, nat_to_le_bytes(s.value(), 32));
}

/// `256^32` is large enough to hold every canonical scalar.
pub proof fn lemma_pow256_32()
    ensures
        pow256(32) == 0x10000000000000000000000000000000000000000000000000000000000000000nat,
{
    reveal_with_fuel(pow256, 33);
}

/// Relies on `bls12_381::Scalar`: `+` adds two field elements modulo the
/// field order; `from_bytes` accepts exactly the canonical encodings and
/// `to_bytes` produces them.
#[verifier::external_body]
pub fn fr_add(a: &Scalar, b: &Scalar) -> (r: Scalar)
    requires
        a.wf(),
        b.wf(),
    ensures
        r.wf(),
        r.value() == (a.value() + b.value()) % fr_order(),
{
    let x = bls12_381::Scalar::from_bytes(a.b.as_slice().try_into().unwrap()).unwrap();
    let y = bls12_381::Scalar::from_bytes(b.b.as_slice().try_into().unwrap()).unwrap();
    Scalar { b: (x + y).to_bytes().to_vec() }
}

/// Relies on `bls12_381::Scalar`: `*` multiplies two field elements modulo
/// the field order.
#[verifier::external_body]
pub fn fr_mul(a: &Scalar, b: &Scalar) -> (r: Scalar)
    requires
        a.wf(),
        b.wf(),
    ensures
        r.wf(),
        r.value() == (a.value() * b.value()) % fr_order(),
{
    let x = bls12_381::Scalar::from_bytes(a.b.as_slice().try_into().unwrap()).unwrap();
    let y = bls12_381::Scalar::from_bytes(b.b.as_slice().try_into().unwrap()).unwrap();
    Scalar { b: (x * y).to_bytes().to_vec() }
}

/// Relies on `bls12_381::Scalar::from(u64)`: embeds a small integer into
/// the field (every `u64` is below the field order).
#[verifier::external_body]
pub fn fr_from_u64(x: u64) -> (r: Scalar)
    ensures
        r.wf(),
        r.value() == x as nat,
{
    Scalar { b: bls12_381::Scalar::from(x).to_bytes().to_vec() }
}

/// Relies on `rand::RngCore::fill_bytes` and
/// `bls12_381::Scalar::from_bytes_wide`: samples a field element by reducing
/// 64 random bytes; nothing is assumed of which element comes out.
#[verifier::external_body]
pub fn fr_rand() -> (r: Scalar)
    ensures
        r.wf(),
{
    let mut wide = [0u8; 64];
    rand::RngCore::fill_bytes(&mut rand::thread_rng(), &mut wide);
    Scalar { b: bls12_381::Scalar::from_bytes_wide(&wide).to_bytes().to_vec() }
}

/// Relies on `bls12_381::Scalar::from_bytes_wide`: interprets 64 bytes as a
/// little-endian integer and reduces it modulo the field order.
#[verifier::external_body]
pub fn fr_reduce_bytes(b: &Vec<u8>) -> (r: Scalar)
    requires
        b@.len() == 32,
    ensures
        r.wf(),
        r.value() == le_bytes_val(b@) % fr_order(),
{
    let mut wide = [0u8; 64];
    wide[0..32].copy_from_slice(b.as_slice());
    Scalar { b: bls12_381::Scalar::from_bytes_wide(&wide).to_bytes().to_vec() }
}

/// Relies on `bls12_381::Scalar::from_bytes`: it accepts a 32-byte string
/// exactly when the little-endian integer it encodes is below the field
/// order.
#[verifier::external_body]
pub fn fr_bytes_ok(b: &Vec<u8>) -> (r: bool)
    requires
        b@.len() == 32,
    ensures
        r == (le_bytes_val(b@) < fr_order()),
{
    bls12_381::Scalar::from_bytes(b.as_slice().try_into().unwrap()).is_some().into()
}

/// Copies a byte vector; the copy has the same contents.
pub fn copy_bytes(v: &Vec<u8>) -> (r: Vec<u8>)
    ensures
        r@ =~= v@,
{
    let mut r: Vec<u8> = Vec::new();
    let mut i: usize = 0;
    while i < v.len()
        invariant
            i <= v@.len(),
            r@ =~= v@.take(i as int),
        decreases v@.len() - i,
    {
        r.push(v[i]);
        assert(r@ =~= v@.take(i + 1));
        i = i + 1;
    }
    assert(r@ =~= v@);
    r
}

/// Copies a scalar; the copy encodes the same bytes.
pub fn scalar_copy(s: &Scalar) -> (r: Scalar)
    ensures
        r.b@ =~= s.b@,
{
    Scalar { b: copy_bytes(&s.b) }
}

/// Compares two byte vectors.
pub fn bytes_eq(a: &Vec<u8>, b: &Vec<u8>) -> (r: bool)
    ensures
        r == (a@ =~= b@),
{
    if a.len() != b.len() {
        return false;
    }
    let mut i: usize = 0;
    while i < a.len()
        invariant
            a@.len() == b@.len(),
            i <= a@.len(),
            forall|j: int| 0 <= j < i ==> a@[j] == b@[j],
        decreases a@.len() - i,
    {
        if a[i] != b[i] {
            return false;
        }
        i = i + 1;
    }
    assert(a@ =~= b@);
    true
}

} // verus!
