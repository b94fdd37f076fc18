//! The Schnorr sigma-protocol transcript.
//!
//! A transcript `(a, c, z)` proves knowledge of the discrete logarithm `sk`
//! of the public key: `a = r * G`, `z = r + c * sk`, and the verifier checks
//! `c * pk + a == z * G`.  The challenge is a bounded integer, not a field
//! element, so that the Fischlin mining loop can enumerate it cheaply.

use vstd::arithmetic::div_mod::{lemma_add_mod_noop, lemma_small_mod};
use vstd::arithmetic::mul::lemma_mul_is_commutative;
use vstd::prelude::*;

use crate::field::{fr_add, fr_from_u64, fr_mul, fr_order, Scalar};
use crate::group::{g1_add, g1_generator, g1_mul, Point};
use crate::util::pow2;

verus! {

/// Schnorr public key: a point of `G1`.
pub type PublicKey = Point;

/// Schnorr secret key: a scalar.
pub type SecretKey = Scalar;

/// A Schnorr transcript: commitment `a`, challenge `c`, response `z`.
#[derive(Debug, Clone, PartialEq, Eq)]
pub struct Schnorr {
    pub a: Point,
    pub c: u32,
    pub z: Scalar,
}

impl Schnorr {
    pub open spec fn wf(&self) -> bool {
        self.a.wf() && self.z.wf()
    }

    /// The verification equation `c * pk + a == z * G`, read on discrete
    /// logarithms: both sides name the same subgroup point exactly when
    /// their logarithms agree modulo the group order.
    pub open spec fn valid_dlog(&self, pk_dlog: nat) -> bool {
        ((self.c as nat) * pk_dlog + self.a.dlog()) % fr_order() == self.z.value()
    }

    /// The verification equation against a public key point.
    pub open spec fn valid(&self, pk: Point) -> bool {
        self.valid_dlog(pk.dlog())
    }

    /// Checks the transcript against a public key.
    pub fn verify(&self, pk: &PublicKey) -> (r: bool)
        requires
            self.wf(),
            pk.wf(),
        ensures
            r == self.valid(*pk),
    {
        let g = g1_generator();
        let cfr = fr_from_u64(self.c as u64);
        let lhs = g1_add(&g1_mul(pk, &cfr), &self.a);
        let rhs = g1_mul(&g, &self.z);
        let r = crate::field::bytes_eq(&lhs.b, &rhs.b);
        proof {
            let q = fr_order();
            let cv = self.c as nat;
            let lv = ((pk.dlog() * cv) % q + self.a.dlog()) % q;
            let rv = (1 * self.z.value()) % q;
            lemma_small_mod(self.a.dlog(), q);
            lemma_add_mod_noop((pk.dlog() * cv) as int, self.a.dlog() as int, q as int);
            lemma_small_mod((pk.dlog() * cv + self.a.dlog()) % q, q);
            lemma_mul_is_commutative(pk.dlog() as int, cv as int);
            assert(lv == (cv * pk.dlog() + self.a.dlog()) % q);
            lemma_small_mod(self.z.value(), q);
            assert(rv == self.z.value());
            // byte equality of canonical encodings coincides with equality
            // of the discrete logarithms
            if lv == rv {
                assert(lhs.b@ == rhs.b@);
            }
            if lhs.b@ =~= rhs.b@ {
                assert(lhs.dlog() == rhs.dlog());
            }
        }
        r
    }

    /// Builds the transcript for secret key `sk`, nonce `r` and challenge
    /// `c`: `a = r * G`, `z = r + c * sk`.
    pub fn prove(sk: &SecretKey, r: &Scalar, c: u32) -> (s: Schnorr)
        requires
            sk.wf(),
            r.wf(),
        ensures
            s.wf(),
            s.c == c,
            s.a.dlog() == r.value(),
            s.a.b@ == crate::group::g1_of_dlog(r.value()),
            s.z.value() == (r.value() + (c as nat) * sk.value()) % fr_order(),
    {
        let cfr = fr_from_u64(c as u64);
        let g = g1_generator();
        let a = g1_mul(&g, r);
        let z = fr_add(r, &fr_mul(&cfr, sk));
        proof {
            let q = fr_order();
            lemma_small_mod(r.value(), q);
            assert((1 * r.value()) % q == r.value());
            lemma_small_mod(r.value(), q);
            lemma_add_mod_noop(r.value() as int, ((c as nat) * sk.value()) as int, q as int);
        }
        Schnorr { a, c, z }
    }
}

/// A transcript built by `Schnorr::prove` from any secret key, nonce and
/// challenge passes verification against the matching public key `sk * G`.
pub proof fn lemma_schnorr_completeness(s: Schnorr, sk_v: nat, r_v: nat)
    requires
        sk_v < fr_order(),
        r_v < fr_order(),
        s.a.dlog() == r_v,
        s.z.value() == (r_v + (s.c as nat) * sk_v) % fr_order(),
    ensures
        s.valid_dlog(sk_v),
{
}

/// The nonce-search bound: a proof-of-work of `difficulty` trailing zero
/// bits grants a challenge budget of `2^difficulty` candidates.
pub fn maxc(difficulty: u32) -> (r: u32)
    requires
        difficulty < 32,
    ensures
        r == pow2(difficulty as nat),
{
    proof {
        lemma_u32_shl1_pow2(difficulty);
    }
    1u32 << difficulty
}

/// `1 << d` computes `2^d` for `d` below the word width.
pub proof fn lemma_u32_shl1_pow2(d: u32)
    requires
        d < 32,
    ensures
        1u32 << d == pow2(d as nat),
        1u32 << d >= 1,
    decreases d,
{
    if d == 0 {
        assert(1u32 << 0u32 == 1) by (bit_vector);
    } else {
        lemma_u32_shl1_pow2((d - 1) as u32);
        let e = (d - 1) as u32;
        assert(1u32 << d == 2 * (1u32 << e)) by (bit_vector)
            requires
                e < 31 && d == e + 1,
        ;
    }
}

} // verus!
