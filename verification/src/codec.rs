//! Canonical byte encodings for the persisted objects.
//!
//! Fixed-endianness, length-prefixed: scalars are their 32 canonical bytes,
//! points their 48 compressed bytes, lengths little-endian `u32`s, and a
//! signature slot carries a leading tag byte (0 for a bare commitment, 1
//! for a base proof).  The decoders accept exactly the encodings of
//! well-formed values and consume them whole, so a round trip is
//! bit-exact.

use vstd::prelude::*;

use crate::field::{
    fr_bytes_ok, fr_order, le_bytes_val, lemma_le_bytes_val_injective, Scalar,
};
use crate::fischlin::{BaseProof, FischIter, Proof};
use crate::group::{g1_ok, g1_validate, Point};
use crate::hashing::{concat_bytes, u32_le};
use crate::schnorr::Schnorr;

verus! {

/// The little-endian value of the four bytes at `pos`.
pub open spec fn u32val(b: Seq<u8>, pos: int) -> nat {
    le_bytes_val(b.subrange(pos, pos + 4))
}

/// Where a `u32` parsed at `pos` ends.
pub open spec fn dec_u32_end(b: Seq<u8>, pos: int) -> Option<int> {
    if 0 <= pos && pos + 4 <= b.len() {
        Some(pos + 4)
    } else {
        None
    }
}

/// Where a scalar parsed at `pos` ends: 32 bytes, canonical.
pub open spec fn dec_scalar_end(b: Seq<u8>, pos: int) -> Option<int> {
    if 0 <= pos && pos + 32 <= b.len() && le_bytes_val(b.subrange(pos, pos + 32)) < fr_order() {
        Some(pos + 32)
    } else {
        None
    }
}

/// Where a point parsed at `pos` ends: 48 bytes, a valid encoding.
pub open spec fn dec_point_end(b: Seq<u8>, pos: int) -> Option<int> {
    if 0 <= pos && pos + 48 <= b.len() && g1_ok(b.subrange(pos, pos + 48)) {
        Some(pos + 48)
    } else {
        None
    }
}

/// The encoding of a Schnorr transcript: `a`, then `c`, then `z`.
pub open spec fn enc_schnorr(s: Schnorr) -> Seq<u8> {
    s.a.b@ + u32_le(s.c) + s.z.b@
}

/// Where a Schnorr transcript parsed at `pos` ends.
pub open spec fn dec_schnorr_end(b: Seq<u8>, pos: int) -> Option<int> {
    match dec_point_end(b, pos) {
        None => None,
        Some(p1) => match dec_u32_end(b, p1) {
            None => None,
            Some(p2) => dec_scalar_end(b, p2),
        },
    }
}

/// Expands the little-endian value of four bytes.
pub proof fn lemma_le4(s: Seq<u8>)
    requires
        s.len() == 4,
    ensures
        le_bytes_val(s) == s[0] + 256 * (s[1] as nat) + 65536 * (s[2] as nat) + 16777216 * (
        s[3] as nat),
        le_bytes_val(s) < 0x100000000,
{
    let s1 = s.skip(1);
    let s2 = s1.skip(1);
    let s3 = s2.skip(1);
    let s4 = s3.skip(1);
    assert(s1.len() == 3 && s1[0] == s[1] && s1[1] == s[2] && s1[2] == s[3]);
    assert(s2.len() == 2 && s2[0] == s[2] && s2[1] == s[3]);
    assert(s3.len() == 1 && s3[0] == s[3]);
    assert(s4.len() == 0);
    assert(le_bytes_val(s4) == 0);
    assert(le_bytes_val(s3) == s[3] + 256 * le_bytes_val(s4));
    assert(le_bytes_val(s2) == s[2] + 256 * le_bytes_val(s3));
    assert(le_bytes_val(s1) == s[1] + 256 * le_bytes_val(s2));
    assert(le_bytes_val(s) == s[0] + 256 * le_bytes_val(s1));
}

/// A `u32`'s little-endian bytes decode back to it.
pub proof fn lemma_u32_le_val(x: u32)
    ensures
        le_bytes_val(u32_le(x)) == x,
        u32_le(x).len() == 4,
{
    let s = u32_le(x);
    lemma_le4(s);
    assert((x & 0xff) < 256 && ((x >> 8) & 0xff) < 256 && ((x >> 16) & 0xff) < 256 && ((x >> 24)
        & 0xff) < 256) by (bit_vector);
    assert((x & 0xff) + 256 * ((x >> 8) & 0xff) + 65536 * ((x >> 16) & 0xff) + 16777216 * ((x
        >> 24) & 0xff) == x) by (bit_vector);
}

/// Reads a little-endian `u32` at `pos`.
pub fn decode_u32(b: &Vec<u8>, pos: usize) -> (r: Option<(u32, usize)>)
    ensures
        match r {
            Some((v, p2)) => {
                &&& dec_u32_end(b@, pos as int) == Some(p2 as int)
                &&& p2 == pos + 4
                &&& v as nat == u32val(b@, pos as int)
            },
            None => dec_u32_end(b@, pos as int) is None,
        },
{
    if pos > b.len() || b.len() - pos < 4 {
        return None;
    }
    let v: u32 = (b[pos] as u32) + 256 * (b[pos + 1] as u32) + 65536 * (b[pos + 2] as u32)
        + 16777216 * (b[pos + 3] as u32);
    proof {
        let s = b@.subrange(pos as int, pos + 4);
        lemma_le4(s);
        assert(s[0] == b@[pos as int] && s[1] == b@[pos + 1] && s[2] == b@[pos + 2]);
        assert(s[3] == b@[pos + 3]);
    }
    Some((v, pos + 4))
}

/// Copies `n` bytes starting at `pos`.
fn take_bytes(b: &Vec<u8>, pos: usize, n: usize) -> (r: Vec<u8>)
    requires
        pos + n <= b@.len(),
    ensures
        r@ =~= b@.subrange(pos as int, pos + n),
{
    let l = b.len();
    let mut r: Vec<u8> = Vec::new();
    let mut j: usize = 0;
    while j < n
        invariant
            pos + n <= b@.len(),
            b@.len() == l,
            j <= n,
            r@ =~= b@.subrange(pos as int, pos + j),
        decreases n - j,
    {
        r.push(b[pos + j]);
        assert(r@ =~= b@.subrange(pos as int, pos + (j + 1)));
        j = j + 1;
    }
    r
}

/// The encoding of a scalar: its 32 canonical bytes.
pub fn encode_scalar(s: &Scalar) -> (r: Vec<u8>)
    ensures
        r@ =~= s.b@,
{
    crate::field::copy_bytes(&s.b)
}

/// Parses a scalar at `pos`: 32 bytes encoding a value below the field
/// order.
pub fn decode_scalar(b: &Vec<u8>, pos: usize) -> (r: Option<(Scalar, usize)>)
    ensures
        match r {
            Some((s, p2)) => {
                &&& dec_scalar_end(b@, pos as int) == Some(p2 as int)
                &&& p2 == pos + 32
                &&& s.wf()
                &&& s.b@ == b@.subrange(pos as int, pos + 32)
            },
            None => dec_scalar_end(b@, pos as int) is None,
        },
{
    if pos > b.len() || b.len() - pos < 32 {
        return None;
    }
    let bytes = take_bytes(b, pos, 32);
    if !fr_bytes_ok(&bytes) {
        return None;
    }
    Some((Scalar { b: bytes }, pos + 32))
}

/// The encoding of a point: its 48 compressed bytes.
pub fn encode_point(p: &Point) -> (r: Vec<u8>)
    ensures
        r@ =~= p.b@,
{
    crate::field::copy_bytes(&p.b)
}

/// Parses a point at `pos`: 48 bytes forming a valid compressed encoding.
pub fn decode_point(b: &Vec<u8>, pos: usize) -> (r: Option<(Point, usize)>)
    ensures
        match r {
            Some((p, p2)) => {
                &&& dec_point_end(b@, pos as int) == Some(p2 as int)
                &&& p2 == pos + 48
                &&& p.wf()
                &&& p.b@ == b@.subrange(pos as int, pos + 48)
            },
            None => dec_point_end(b@, pos as int) is None,
        },
{
    if pos > b.len() || b.len() - pos < 48 {
        return None;
    }
    let bytes = take_bytes(b, pos, 48);
    if !g1_validate(&bytes) {
        return None;
    }
    Some((Point { b: bytes }, pos + 48))
}

/// Encodes a Schnorr transcript: 48 + 4 + 32 = 84 bytes.
pub fn encode_schnorr(s: &Schnorr) -> (r: Vec<u8>)
    ensures
        r@ =~= enc_schnorr(*s),
{
    let mut out = crate::field::copy_bytes(&s.a.b);
    crate::hashing::push_u32_le(&mut out, s.c);
    crate::hashing::extend_bytes(&mut out, &s.z.b);
    out
}

/// Parses a Schnorr transcript at `pos`.
pub fn decode_schnorr(b: &Vec<u8>, pos: usize) -> (r: Option<(Schnorr, usize)>)
    ensures
        match r {
            Some((s, p2)) => {
                &&& dec_schnorr_end(b@, pos as int) == Some(p2 as int)
                &&& p2 == pos + 84
                &&& s.wf()
                &&& s.a.b@ == b@.subrange(pos as int, pos + 48)
                &&& s.c as nat == u32val(b@, pos + 48)
                &&& s.z.b@ == b@.subrange(pos + 52, pos + 84)
            },
            None => dec_schnorr_end(b@, pos as int) is None,
        },
{
    let (a, p1) = match decode_point(b, pos) {
        Some(x) => x,
        None => {
            return None;
        },
    };
    let (c, p2) = match decode_u32(b, p1) {
        Some(x) => x,
        None => {
            return None;
        },
    };
    let (z, p3) = match decode_scalar(b, p2) {
        Some(x) => x,
        None => {
            return None;
        },
    };
    Some((Schnorr { a, c, z }, p3))
}

/// The encoding of a scalar vector: the elements' bytes, in order.
pub open spec fn enc_scalar_list(v: Seq<Scalar>) -> Seq<u8> {
    concat_bytes(v.map_values(|s: Scalar| s.b@))
}

/// The encoding of a point vector: the elements' bytes, in order.
pub open spec fn enc_point_list(v: Seq<Point>) -> Seq<u8> {
    concat_bytes(v.map_values(|p: Point| p.b@))
}

/// The encoding of a base proof: the transcript, then the length-prefixed
/// values, then the length-prefixed openings.
pub open spec fn enc_base_proof(bp: BaseProof) -> Seq<u8> {
    enc_schnorr(bp.schnorr) + u32_le(bp.data@.len() as u32) + enc_scalar_list(bp.data@) + u32_le(
        bp.openings@.len() as u32,
    ) + enc_point_list(bp.openings@)
}

/// The encoding of a signature slot: a tag byte, then the body.
pub open spec fn enc_fisch(slot: FischIter) -> Seq<u8> {
    match slot {
        FischIter::Commitment(p) => seq![0u8] + p.b@,
        FischIter::BaseProof(bp) => seq![1u8] + enc_base_proof(bp),
    }
}

/// The encoding of a signature: the length-prefixed slots.
pub open spec fn enc_proof(p: Proof) -> Seq<u8> {
    u32_le(p.fisch_iters@.len() as u32) + concat_bytes(
        p.fisch_iters@.map_values(|s: FischIter| enc_fisch(s)),
    )
}

/// Whether a slot's vectors fit behind 32-bit length prefixes.
pub open spec fn enc_len_ok(slot: FischIter) -> bool {
    match slot {
        FischIter::Commitment(_) => true,
        FischIter::BaseProof(bp) => bp.data@.len() <= 0xffffffff && bp.openings@.len()
            <= 0xffffffff,
    }
}

/// Where `n` scalars parsed at `pos` end.
pub open spec fn dec_scalars_end(b: Seq<u8>, pos: int, n: nat) -> Option<int>
    decreases n,
{
    if n == 0 {
        if 0 <= pos <= b.len() {
            Some(pos)
        } else {
            None
        }
    } else {
        match dec_scalars_end(b, pos, (n - 1) as nat) {
            None => None,
            Some(p) => dec_scalar_end(b, p),
        }
    }
}

/// Where `n` points parsed at `pos` end.
pub open spec fn dec_points_end(b: Seq<u8>, pos: int, n: nat) -> Option<int>
    decreases n,
{
    if n == 0 {
        if 0 <= pos <= b.len() {
            Some(pos)
        } else {
            None
        }
    } else {
        match dec_points_end(b, pos, (n - 1) as nat) {
            None => None,
            Some(p) => dec_point_end(b, p),
        }
    }
}

/// Where a base proof parsed at `pos` ends.
pub open spec fn dec_base_proof_end(b: Seq<u8>, pos: int) -> Option<int> {
    match dec_schnorr_end(b, pos) {
        None => None,
        Some(p1) => match dec_u32_end(b, p1) {
            None => None,
            Some(p2) => match dec_scalars_end(b, p2, u32val(b, p1)) {
                None => None,
                Some(p3) => match dec_u32_end(b, p3) {
                    None => None,
                    Some(p4) => dec_points_end(b, p4, u32val(b, p3)),
                },
            },
        },
    }
}

/// Where a signature slot parsed at `pos` ends.
pub open spec fn dec_fisch_end(b: Seq<u8>, pos: int) -> Option<int> {
    if 0 <= pos && pos + 1 <= b.len() {
        if b[pos] == 0 {
            dec_point_end(b, pos + 1)
        } else if b[pos] == 1 {
            dec_base_proof_end(b, pos + 1)
        } else {
            None
        }
    } else {
        None
    }
}

/// Where `n` signature slots parsed at `pos` end.
pub open spec fn dec_slots_end(b: Seq<u8>, pos: int, n: nat) -> Option<int>
    decreases n,
{
    if n == 0 {
        if 0 <= pos <= b.len() {
            Some(pos)
        } else {
            None
        }
    } else {
        match dec_slots_end(b, pos, (n - 1) as nat) {
            None => None,
            Some(p) => dec_fisch_end(b, p),
        }
    }
}

/// Where a signature parsed at `pos` ends.
pub open spec fn dec_proof_end(b: Seq<u8>, pos: int) -> Option<int> {
    match dec_u32_end(b, pos) {
        None => None,
        Some(p1) => dec_slots_end(b, p1, u32val(b, pos)),
    }
}

/// A well-formed Schnorr transcript's encoding is parsed back whole: the
/// decoder accepts it and recovers the fields bit-exactly.
pub proof fn lemma_schnorr_round_trip(s: Schnorr, b: Seq<u8>, pos: int)
    requires
        s.wf(),
        0 <= pos,
        pos + 84 <= b.len(),
        b.subrange(pos, pos + 84) == enc_schnorr(s),
    ensures
        dec_schnorr_end(b, pos) == Some(pos + 84),
        b.subrange(pos, pos + 48) == s.a.b@,
        u32val(b, pos + 48) == s.c,
        b.subrange(pos + 52, pos + 84) == s.z.b@,
{
    let e = enc_schnorr(s);
    lemma_u32_le_val(s.c);
    assert(b.subrange(pos, pos + 48) =~= e.subrange(0, 48));
    assert(e.subrange(0, 48) =~= s.a.b@);
    assert(b.subrange(pos + 48, pos + 52) =~= e.subrange(48, 52));
    assert(e.subrange(48, 52) =~= u32_le(s.c));
    assert(b.subrange(pos + 52, pos + 84) =~= e.subrange(52, 84));
    assert(e.subrange(52, 84) =~= s.z.b@);
}

/// Extracting a window of a byte string that is known to hold an encoding.
proof fn lemma_subrange_of_eq(b: Seq<u8>, pos: int, e: Seq<u8>, lo: int, hi: int)
    requires
        0 <= pos,
        pos + e.len() <= b.len(),
        b.subrange(pos, pos + e.len()) == e,
        0 <= lo <= hi <= e.len(),
    ensures
        b.subrange(pos + lo, pos + hi) =~= e.subrange(lo, hi),
{
    assert forall|i: int| 0 <= i < hi - lo implies b.subrange(pos + lo, pos + hi)[i] == e.subrange(
        lo,
        hi,
    )[i] by {
        assert(b.subrange(pos, pos + e.len())[lo + i] == e[lo + i]);
    }
}

/// A scalar vector's encoding is 32 bytes per element.
pub proof fn lemma_enc_scalar_list_len(v: Seq<Scalar>)
    requires
        forall|k: int| 0 <= k < v.len() ==> (#[trigger] v[k]).b@.len() == 32,
    ensures
        enc_scalar_list(v).len() == 32 * v.len(),
    decreases v.len(),
{
    if v.len() > 0 {
        assert(v.map_values(|s: Scalar| s.b@).drop_last() =~= v.drop_last().map_values(
            |s: Scalar| s.b@,
        ));
        lemma_enc_scalar_list_len(v.drop_last());
    }
}

/// A point vector's encoding is 48 bytes per element.
pub proof fn lemma_enc_point_list_len(v: Seq<Point>)
    requires
        forall|k: int| 0 <= k < v.len() ==> (#[trigger] v[k]).b@.len() == 48,
    ensures
        enc_point_list(v).len() == 48 * v.len(),
    decreases v.len(),
{
    if v.len() > 0 {
        assert(v.map_values(|p: Point| p.b@).drop_last() =~= v.drop_last().map_values(
            |p: Point| p.b@,
        ));
        lemma_enc_point_list_len(v.drop_last());
    }
}

/// A vector of well-formed scalars is parsed back whole from its encoding.
proof fn lemma_scalar_list_round_trip(v: Seq<Scalar>, b: Seq<u8>, pos: int)
    requires
        forall|k: int| 0 <= k < v.len() ==> (#[trigger] v[k]).wf(),
        0 <= pos,
        pos + 32 * v.len() <= b.len(),
        b.subrange(pos, pos + 32 * v.len()) == enc_scalar_list(v),
    ensures
        dec_scalars_end(b, pos, v.len()) == Some(pos + 32 * v.len()),
    decreases v.len(),
{
    lemma_enc_scalar_list_len(v);
    if v.len() > 0 {
        let e = enc_scalar_list(v);
        let w = v.drop_last();
        let n1 = w.len() as int;
        assert(v.map_values(|s: Scalar| s.b@).drop_last() =~= w.map_values(|s: Scalar| s.b@));
        lemma_enc_scalar_list_len(w);
        assert(e == enc_scalar_list(w) + v.last().b@);
        lemma_subrange_of_eq(b, pos, e, 0, 32 * n1);
        assert(e.subrange(0, 32 * n1) =~= enc_scalar_list(w));
        assert(b.subrange(pos + 0, pos + 32 * n1) == b.subrange(pos, pos + 32 * n1));
        lemma_scalar_list_round_trip(w, b, pos);
        lemma_subrange_of_eq(b, pos, e, 32 * n1, 32 * n1 + 32);
        assert(e.subrange(32 * n1, 32 * n1 + 32) =~= v.last().b@);
        assert(le_bytes_val(b.subrange(pos + 32 * n1, pos + 32 * n1 + 32)) < fr_order());
    }
}

/// A vector of well-formed points is parsed back whole from its encoding.
proof fn lemma_point_list_round_trip(v: Seq<Point>, b: Seq<u8>, pos: int)
    requires
        forall|k: int| 0 <= k < v.len() ==> (#[trigger] v[k]).wf(),
        0 <= pos,
        pos + 48 * v.len() <= b.len(),
        b.subrange(pos, pos + 48 * v.len()) == enc_point_list(v),
    ensures
        dec_points_end(b, pos, v.len()) == Some(pos + 48 * v.len()),
    decreases v.len(),
{
    lemma_enc_point_list_len(v);
    if v.len() > 0 {
        let e = enc_point_list(v);
        let w = v.drop_last();
        let n1 = w.len() as int;
        assert(v.map_values(|p: Point| p.b@).drop_last() =~= w.map_values(|p: Point| p.b@));
        lemma_enc_point_list_len(w);
        assert(e == enc_point_list(w) + v.last().b@);
        lemma_subrange_of_eq(b, pos, e, 0, 48 * n1);
        assert(e.subrange(0, 48 * n1) =~= enc_point_list(w));
        assert(b.subrange(pos + 0, pos + 48 * n1) == b.subrange(pos, pos + 48 * n1));
        lemma_point_list_round_trip(w, b, pos);
        lemma_subrange_of_eq(b, pos, e, 48 * n1, 48 * n1 + 48);
        assert(e.subrange(48 * n1, 48 * n1 + 48) =~= v.last().b@);
        assert(g1_ok(b.subrange(pos + 48 * n1, pos + 48 * n1 + 48)));
    }
}

/// A well-formed base proof's encoding is parsed back whole.
pub proof fn lemma_base_proof_round_trip(bp: BaseProof, b: Seq<u8>, pos: int)
    requires
        bp.wf(),
        bp.data@.len() <= 0xffffffff,
        bp.openings@.len() <= 0xffffffff,
        0 <= pos,
        pos + enc_base_proof(bp).len() <= b.len(),
        b.subrange(pos, pos + enc_base_proof(bp).len()) == enc_base_proof(bp),
    ensures
        dec_base_proof_end(b, pos) == Some(pos + enc_base_proof(bp).len()),
{
    let e = enc_base_proof(bp);
    let dl = bp.data@.len() as int;
    let ol = bp.openings@.len() as int;
    lemma_enc_scalar_list_len(bp.data@);
    lemma_enc_point_list_len(bp.openings@);
    assert(e.len() == 84 + 4 + 32 * dl + 4 + 48 * ol);
    let q1 = pos + 84;
    let q2 = q1 + 4;
    let q3 = q2 + 32 * dl;
    let q4 = q3 + 4;
    let q5 = q4 + 48 * ol;
    lemma_subrange_of_eq(b, pos, e, 0, 84);
    assert(e.subrange(0, 84) =~= enc_schnorr(bp.schnorr));
    assert(b.subrange(pos + 0, pos + 84) == b.subrange(pos, q1));
    lemma_schnorr_round_trip(bp.schnorr, b, pos);
    lemma_subrange_of_eq(b, pos, e, 84, 88);
    assert(e.subrange(84, 88) =~= u32_le(bp.data@.len() as u32));
    lemma_u32_le_val(bp.data@.len() as u32);
    assert(u32val(b, q1) == bp.data@.len()) by {
        assert(b.subrange(q1, q1 + 4) == b.subrange(pos + 84, pos + 88));
    }
    lemma_subrange_of_eq(b, pos, e, 88, 88 + 32 * dl);
    assert(e.subrange(88, 88 + 32 * dl) =~= enc_scalar_list(bp.data@));
    assert(b.subrange(pos + 88, pos + 88 + 32 * dl) == b.subrange(q2, q3));
    lemma_scalar_list_round_trip(bp.data@, b, q2);
    lemma_subrange_of_eq(b, pos, e, 88 + 32 * dl, 92 + 32 * dl);
    assert(e.subrange(88 + 32 * dl, 92 + 32 * dl) =~= u32_le(bp.openings@.len() as u32));
    lemma_u32_le_val(bp.openings@.len() as u32);
    assert(u32val(b, q3) == bp.openings@.len()) by {
        assert(b.subrange(q3, q3 + 4) == b.subrange(pos + 88 + 32 * dl, pos + 92 + 32 * dl));
    }
    lemma_subrange_of_eq(b, pos, e, 92 + 32 * dl, 92 + 32 * dl + 48 * ol);
    assert(e.subrange(92 + 32 * dl, 92 + 32 * dl + 48 * ol) =~= enc_point_list(bp.openings@));
    assert(b.subrange(pos + 92 + 32 * dl, pos + 92 + 32 * dl + 48 * ol) == b.subrange(q4, q5));
    lemma_point_list_round_trip(bp.openings@, b, q4);
}

/// A well-formed signature slot's encoding is parsed back whole.
pub proof fn lemma_fisch_round_trip(slot: FischIter, b: Seq<u8>, pos: int)
    requires
        slot.wf(),
        enc_len_ok(slot),
        0 <= pos,
        pos + enc_fisch(slot).len() <= b.len(),
        b.subrange(pos, pos + enc_fisch(slot).len()) == enc_fisch(slot),
    ensures
        dec_fisch_end(b, pos) == Some(pos + enc_fisch(slot).len()),
{
    let e = enc_fisch(slot);
    assert(b.subrange(pos, pos + e.len() as int)[0] == e[0]);
    assert(b[pos] == e[0]);
    match slot {
        FischIter::Commitment(p) => {
            lemma_subrange_of_eq(b, pos, e, 1, 49);
            assert(e.subrange(1, 49) =~= p.b@);
        },
        FischIter::BaseProof(bp) => {
            lemma_subrange_of_eq(b, pos, e, 1, 1 + enc_base_proof(bp).len() as int);
            assert(e.subrange(1, 1 + enc_base_proof(bp).len() as int) =~= enc_base_proof(bp));
            lemma_base_proof_round_trip(bp, b, pos + 1);
        },
    }
}

/// A well-formed signature's encoding is parsed back whole: the decoder
/// accepts exactly it and consumes every byte, so a round trip through the
/// canonical encoding is bit-exact.
pub proof fn lemma_proof_round_trip(p: Proof, b: Seq<u8>, pos: int)
    requires
        p.wf(),
        p.fisch_iters@.len() <= 0xffffffff,
        forall|i: int| 0 <= i < p.fisch_iters@.len() ==> enc_len_ok(#[trigger] p.fisch_iters@[i]),
        0 <= pos,
        pos + enc_proof(p).len() <= b.len(),
        b.subrange(pos, pos + enc_proof(p).len()) == enc_proof(p),
    ensures
        dec_proof_end(b, pos) == Some(pos + enc_proof(p).len()),
{
    let slots = p.fisch_iters@;
    let e = enc_proof(p);
    let body = concat_bytes(slots.map_values(|s: FischIter| enc_fisch(s)));
    lemma_subrange_of_eq(b, pos, e, 0, 4);
    assert(e.subrange(0, 4) =~= u32_le(slots.len() as u32));
    assert(b.subrange(pos + 0, pos + 4) == b.subrange(pos, pos + 4));
    lemma_u32_le_val(slots.len() as u32);
    assert(u32val(b, pos) == slots.len());
    lemma_subrange_of_eq(b, pos, e, 4, 4 + body.len() as int);
    assert(e.subrange(4, 4 + body.len() as int) =~= body);
    lemma_slots_round_trip(slots, b, pos + 4);
}

/// A vector of well-formed slots is parsed back whole from the
/// concatenation of its slot encodings.
proof fn lemma_slots_round_trip(slots: Seq<FischIter>, b: Seq<u8>, pos: int)
    requires
        forall|k: int| 0 <= k < slots.len() ==> (#[trigger] slots[k]).wf(),
        forall|k: int| 0 <= k < slots.len() ==> enc_len_ok(#[trigger] slots[k]),
        0 <= pos,
        pos + concat_bytes(slots.map_values(|s: FischIter| enc_fisch(s))).len() <= b.len(),
        b.subrange(pos, pos + concat_bytes(slots.map_values(|s: FischIter| enc_fisch(s))).len())
            == concat_bytes(slots.map_values(|s: FischIter| enc_fisch(s))),
    ensures
        dec_slots_end(b, pos, slots.len()) == Some(
            pos + concat_bytes(slots.map_values(|s: FischIter| enc_fisch(s))).len(),
        ),
    decreases slots.len(),
{
    let body = concat_bytes(slots.map_values(|s: FischIter| enc_fisch(s)));
    if slots.len() > 0 {
        let w = slots.drop_last();
        let wbody = concat_bytes(w.map_values(|s: FischIter| enc_fisch(s)));
        let last_e = enc_fisch(slots.last());
        assert(slots.map_values(|s: FischIter| enc_fisch(s)).drop_last() =~= w.map_values(
            |s: FischIter| enc_fisch(s),
        ));
        assert(slots.map_values(|s: FischIter| enc_fisch(s)).last() == last_e);
        assert(body == wbody + last_e);
        lemma_subrange_of_eq(b, pos, body, 0, wbody.len() as int);
        assert(body.subrange(0, wbody.len() as int) =~= wbody);
        assert(b.subrange(pos + 0, pos + wbody.len() as int) == b.subrange(
            pos,
            pos + wbody.len() as int,
        ));
        lemma_slots_round_trip(w, b, pos);
        lemma_subrange_of_eq(b, pos, body, wbody.len() as int, body.len() as int);
        assert(body.subrange(wbody.len() as int, body.len() as int) =~= last_e);
        lemma_fisch_round_trip(slots.last(), b, pos + wbody.len());
    }
}


/// The encoding of a Schnorr transcript determines its fields: the
/// canonical encoding is injective.
pub proof fn lemma_enc_schnorr_injective(x: Schnorr, y: Schnorr)
    requires
        x.wf(),
        y.wf(),
        enc_schnorr(x) == enc_schnorr(y),
    ensures
        x.a.b@ == y.a.b@,
        x.c == y.c,
        x.z.b@ == y.z.b@,
{
    let e = enc_schnorr(x);
    assert(e.subrange(0, 48) =~= x.a.b@);
    assert(e.subrange(0, 48) =~= y.a.b@);
    assert(e.subrange(48, 52) =~= u32_le(x.c));
    assert(e.subrange(48, 52) =~= u32_le(y.c));
    lemma_u32_le_val(x.c);
    lemma_u32_le_val(y.c);
    assert(e.subrange(52, 84) =~= x.z.b@);
    assert(e.subrange(52, 84) =~= y.z.b@);
}

/// The encoding of a scalar vector determines its elements.
proof fn lemma_enc_scalar_list_injective(v: Seq<Scalar>, w: Seq<Scalar>)
    requires
        v.len() == w.len(),
        forall|k: int| 0 <= k < v.len() ==> (#[trigger] v[k]).b@.len() == 32,
        forall|k: int| 0 <= k < w.len() ==> (#[trigger] w[k]).b@.len() == 32,
        enc_scalar_list(v) == enc_scalar_list(w),
    ensures
        forall|k: int| 0 <= k < v.len() ==> (#[trigger] v[k]).b@ == w[k].b@,
    decreases v.len(),
{
    if v.len() > 0 {
        let n1 = (v.len() - 1) as int;
        let e = enc_scalar_list(v);
        assert(v.map_values(|s: Scalar| s.b@).drop_last() =~= v.drop_last().map_values(
            |s: Scalar| s.b@,
        ));
        assert(w.map_values(|s: Scalar| s.b@).drop_last() =~= w.drop_last().map_values(
            |s: Scalar| s.b@,
        ));
        assert(e == enc_scalar_list(v.drop_last()) + v.last().b@);
        assert(e == enc_scalar_list(w.drop_last()) + w.last().b@);
        lemma_enc_scalar_list_len(v.drop_last());
        lemma_enc_scalar_list_len(w.drop_last());
        assert(e.subrange(32 * n1, 32 * n1 + 32) =~= v.last().b@);
        assert(e.subrange(32 * n1, 32 * n1 + 32) =~= w.last().b@);
        assert(e.subrange(0, 32 * n1) =~= enc_scalar_list(v.drop_last()));
        assert(e.subrange(0, 32 * n1) =~= enc_scalar_list(w.drop_last()));
        lemma_enc_scalar_list_injective(v.drop_last(), w.drop_last());
        assert forall|k: int| 0 <= k < v.len() implies (#[trigger] v[k]).b@ == w[k].b@ by {
            if k < n1 {
                assert(v.drop_last()[k].b@ == w.drop_last()[k].b@);
            }
        }
    }
}

/// The encoding of a point vector determines its elements.
proof fn lemma_enc_point_list_injective(v: Seq<Point>, w: Seq<Point>)
    requires
        v.len() == w.len(),
        forall|k: int| 0 <= k < v.len() ==> (#[trigger] v[k]).b@.len() == 48,
        forall|k: int| 0 <= k < w.len() ==> (#[trigger] w[k]).b@.len() == 48,
        enc_point_list(v) == enc_point_list(w),
    ensures
        forall|k: int| 0 <= k < v.len() ==> (#[trigger] v[k]).b@ == w[k].b@,
    decreases v.len(),
{
    if v.len() > 0 {
        let n1 = (v.len() - 1) as int;
        let e = enc_point_list(v);
        assert(v.map_values(|p: Point| p.b@).drop_last() =~= v.drop_last().map_values(
            |p: Point| p.b@,
        ));
        assert(w.map_values(|p: Point| p.b@).drop_last() =~= w.drop_last().map_values(
            |p: Point| p.b@,
        ));
        assert(e == enc_point_list(v.drop_last()) + v.last().b@);
        assert(e == enc_point_list(w.drop_last()) + w.last().b@);
        lemma_enc_point_list_len(v.drop_last());
        lemma_enc_point_list_len(w.drop_last());
        assert(e.subrange(48 * n1, 48 * n1 + 48) =~= v.last().b@);
        assert(e.subrange(48 * n1, 48 * n1 + 48) =~= w.last().b@);
        assert(e.subrange(0, 48 * n1) =~= enc_point_list(v.drop_last()));
        assert(e.subrange(0, 48 * n1) =~= enc_point_list(w.drop_last()));
        lemma_enc_point_list_injective(v.drop_last(), w.drop_last());
        assert forall|k: int| 0 <= k < v.len() implies (#[trigger] v[k]).b@ == w[k].b@ by {
            if k < n1 {
                assert(v.drop_last()[k].b@ == w.drop_last()[k].b@);
            }
        }
    }
}

/// The encoding of a base proof determines its fields.
pub proof fn lemma_enc_base_proof_injective(x: BaseProof, y: BaseProof)
    requires
        x.wf(),
        y.wf(),
        x.data@.len() <= 0xffffffff,
        x.openings@.len() <= 0xffffffff,
        y.data@.len() <= 0xffffffff,
        y.openings@.len() <= 0xffffffff,
        enc_base_proof(x) == enc_base_proof(y),
    ensures
        x.schnorr.a.b@ == y.schnorr.a.b@,
        x.schnorr.c == y.schnorr.c,
        x.schnorr.z.b@ == y.schnorr.z.b@,
        x.data@.len() == y.data@.len(),
        x.openings@.len() == y.openings@.len(),
        forall|k: int| 0 <= k < x.data@.len() ==> (#[trigger] x.data@[k]).b@ == y.data@[k].b@,
        forall|k: int|
            0 <= k < x.openings@.len() ==> (#[trigger] x.openings@[k]).b@ == y.openings@[k].b@,
{
    let e = enc_base_proof(x);
    lemma_enc_scalar_list_len(x.data@);
    lemma_enc_scalar_list_len(y.data@);
    lemma_enc_point_list_len(x.openings@);
    lemma_enc_point_list_len(y.openings@);
    // the data length prefix pins the layout down
    assert(e.subrange(84, 88) =~= u32_le(x.data@.len() as u32));
    assert(e.subrange(84, 88) =~= u32_le(y.data@.len() as u32));
    lemma_u32_le_val(x.data@.len() as u32);
    lemma_u32_le_val(y.data@.len() as u32);
    assert(x.data@.len() == y.data@.len());
    let dl = x.data@.len() as int;
    assert(x.openings@.len() == y.openings@.len()) by {
        assert(e.len() == 92 + 32 * dl + 48 * x.openings@.len());
        assert(e.len() == 92 + 32 * dl + 48 * y.openings@.len());
    }
    let ol = x.openings@.len() as int;
    assert(e.subrange(0, 84) =~= enc_schnorr(x.schnorr));
    assert(e.subrange(0, 84) =~= enc_schnorr(y.schnorr));
    lemma_enc_schnorr_injective(x.schnorr, y.schnorr);
    assert(e.subrange(88, 88 + 32 * dl) =~= enc_scalar_list(x.data@));
    assert(e.subrange(88, 88 + 32 * dl) =~= enc_scalar_list(y.data@));
    lemma_enc_scalar_list_injective(x.data@, y.data@);
    assert(e.subrange(92 + 32 * dl, 92 + 32 * dl + 48 * ol) =~= enc_point_list(x.openings@));
    assert(e.subrange(92 + 32 * dl, 92 + 32 * dl + 48 * ol) =~= enc_point_list(y.openings@));
    lemma_enc_point_list_injective(x.openings@, y.openings@);
}

/// The encoding of a signature slot determines its variant and fields.
pub proof fn lemma_enc_fisch_injective(x: FischIter, y: FischIter)
    requires
        x.wf(),
        y.wf(),
        enc_len_ok(x),
        enc_len_ok(y),
        enc_fisch(x) == enc_fisch(y),
    ensures
        x is Commitment <==> y is Commitment,
        x is Commitment ==> x->Commitment_0.b@ == y->Commitment_0.b@,
        x is BaseProof ==> {
            let xb = x->BaseProof_0;
            let yb = y->BaseProof_0;
            &&& xb.schnorr.a.b@ == yb.schnorr.a.b@
            &&& xb.schnorr.c == yb.schnorr.c
            &&& xb.schnorr.z.b@ == yb.schnorr.z.b@
            &&& xb.data@.len() == yb.data@.len()
            &&& xb.openings@.len() == yb.openings@.len()
            &&& forall|k: int|
                0 <= k < xb.data@.len() ==> (#[trigger] xb.data@[k]).b@ == yb.data@[k].b@
            &&& forall|k: int|
                0 <= k < xb.openings@.len() ==> (#[trigger] xb.openings@[k]).b@
                    == yb.openings@[k].b@
        },
{
    let e = enc_fisch(x);
    assert(enc_fisch(y)[0] == e[0]);
    match x {
        FischIter::Commitment(px) => {
            match y {
                FischIter::Commitment(py) => {
                    assert(e.subrange(1, 49) =~= px.b@);
                    assert(e.subrange(1, 49) =~= py.b@);
                },
                FischIter::BaseProof(_) => {
                    assert(false);
                },
            }
        },
        FischIter::BaseProof(bx) => {
            match y {
                FischIter::Commitment(_) => {
                    assert(false);
                },
                FischIter::BaseProof(by) => {
                    assert(e.subrange(1, 1 + enc_base_proof(bx).len() as int) =~= enc_base_proof(
                        bx,
                    ));
                    assert(e.subrange(1, 1 + enc_base_proof(by).len() as int) =~= enc_base_proof(
                        by,
                    ));
                    lemma_enc_base_proof_injective(bx, by);
                },
            }
        },
    }
}


/// Splitting a concatenation at its first piece.
proof fn lemma_concat_first(s: Seq<Seq<u8>>)
    requires
        s.len() > 0,
    ensures
        concat_bytes(s) == s[0] + concat_bytes(s.skip(1)),
    decreases s.len(),
{
    if s.len() == 1 {
        assert(s.drop_last().len() == 0);
        assert(concat_bytes(s) == concat_bytes(s.drop_last()) + s.last());
        assert(s.skip(1).len() == 0);
        assert(concat_bytes(s) =~= s[0] + concat_bytes(s.skip(1)));
    } else {
        let w = s.drop_last();
        lemma_concat_first(w);
        assert(w[0] == s[0]);
        assert(w.skip(1) =~= s.skip(1).drop_last());
        assert(concat_bytes(s) == concat_bytes(w) + s.last());
        assert(concat_bytes(s.skip(1)) == concat_bytes(s.skip(1).drop_last()) + s.skip(1).last());
        assert(s.skip(1).last() == s.last());
        assert(concat_bytes(s) =~= s[0] + concat_bytes(s.skip(1)));
    }
}

/// Slot encodings are a prefix code: two equal concatenations of equally
/// many slot encodings agree slot by slot, because the decoder finds each
/// slot's end from the bytes alone.
proof fn lemma_slots_concat_injective(v: Seq<FischIter>, w: Seq<FischIter>)
    requires
        v.len() == w.len(),
        forall|k: int| 0 <= k < v.len() ==> (#[trigger] v[k]).wf(),
        forall|k: int| 0 <= k < v.len() ==> enc_len_ok(#[trigger] v[k]),
        forall|k: int| 0 <= k < w.len() ==> (#[trigger] w[k]).wf(),
        forall|k: int| 0 <= k < w.len() ==> enc_len_ok(#[trigger] w[k]),
        concat_bytes(v.map_values(|s: FischIter| enc_fisch(s))) == concat_bytes(
            w.map_values(|s: FischIter| enc_fisch(s)),
        ),
    ensures
        forall|k: int| 0 <= k < v.len() ==> enc_fisch(#[trigger] v[k]) == enc_fisch(w[k]),
    decreases v.len(),
{
    if v.len() > 0 {
        let vm = v.map_values(|s: FischIter| enc_fisch(s));
        let wm = w.map_values(|s: FischIter| enc_fisch(s));
        let b = concat_bytes(vm);
        lemma_concat_first(vm);
        lemma_concat_first(wm);
        let ev = enc_fisch(v[0]);
        let ew = enc_fisch(w[0]);
        assert(b == ev + concat_bytes(vm.skip(1)));
        assert(b == ew + concat_bytes(wm.skip(1)));
        assert(b.subrange(0, ev.len() as int) =~= ev);
        assert(b.subrange(0, ew.len() as int) =~= ew);
        lemma_fisch_round_trip(v[0], b, 0);
        lemma_fisch_round_trip(w[0], b, 0);
        assert(ev.len() == ew.len());
        assert(ev == ew);
        assert(concat_bytes(vm.skip(1)) =~= concat_bytes(wm.skip(1))) by {
            assert(concat_bytes(vm.skip(1)) =~= b.subrange(ev.len() as int, b.len() as int));
            assert(concat_bytes(wm.skip(1)) =~= b.subrange(ew.len() as int, b.len() as int));
        }
        assert(vm.skip(1) =~= v.skip(1).map_values(|s: FischIter| enc_fisch(s)));
        assert(wm.skip(1) =~= w.skip(1).map_values(|s: FischIter| enc_fisch(s)));
        lemma_slots_concat_injective(v.skip(1), w.skip(1));
        assert forall|k: int| 0 <= k < v.len() implies enc_fisch(#[trigger] v[k]) == enc_fisch(
            w[k],
        ) by {
            if k > 0 {
                assert(v.skip(1)[k - 1] == v[k]);
                assert(w.skip(1)[k - 1] == w[k]);
                assert(enc_fisch(v.skip(1)[k - 1]) == enc_fisch(w.skip(1)[k - 1]));
            }
        }
    }
}

/// The encoding of a signature determines its slots: together with the
/// slot-level statement this makes the canonical round trip value-exact,
/// since the decoder returns a value with the same encoding.
pub proof fn lemma_enc_proof_injective(x: Proof, y: Proof)
    requires
        x.wf(),
        y.wf(),
        x.fisch_iters@.len() <= 0xffffffff,
        y.fisch_iters@.len() <= 0xffffffff,
        forall|i: int| 0 <= i < x.fisch_iters@.len() ==> enc_len_ok(#[trigger] x.fisch_iters@[i]),
        forall|i: int| 0 <= i < y.fisch_iters@.len() ==> enc_len_ok(#[trigger] y.fisch_iters@[i]),
        enc_proof(x) == enc_proof(y),
    ensures
        x.fisch_iters@.len() == y.fisch_iters@.len(),
        forall|i: int|
            0 <= i < x.fisch_iters@.len() ==> enc_fisch(#[trigger] x.fisch_iters@[i]) == enc_fisch(
                y.fisch_iters@[i],
            ),
{
    let e = enc_proof(x);
    assert(e.subrange(0, 4) =~= u32_le(x.fisch_iters@.len() as u32));
    assert(e.subrange(0, 4) =~= u32_le(y.fisch_iters@.len() as u32));
    lemma_u32_le_val(x.fisch_iters@.len() as u32);
    lemma_u32_le_val(y.fisch_iters@.len() as u32);
    assert(x.fisch_iters@.len() == y.fisch_iters@.len());
    let xb = concat_bytes(x.fisch_iters@.map_values(|s: FischIter| enc_fisch(s)));
    let yb = concat_bytes(y.fisch_iters@.map_values(|s: FischIter| enc_fisch(s)));
    assert(xb =~= e.subrange(4, e.len() as int));
    assert(yb =~= e.subrange(4, e.len() as int));
    lemma_slots_concat_injective(x.fisch_iters@, y.fisch_iters@);
}

/// If a prefix of the scalars fails to parse, the whole list does.
proof fn lemma_scalars_end_none(b: Seq<u8>, pos: int, i: nat, n: nat)
    requires
        i <= n,
        dec_scalars_end(b, pos, i) is None,
    ensures
        dec_scalars_end(b, pos, n) is None,
    decreases n,
{
    if n > i {
        lemma_scalars_end_none(b, pos, i, (n - 1) as nat);
    }
}

proof fn lemma_points_end_none(b: Seq<u8>, pos: int, i: nat, n: nat)
    requires
        i <= n,
        dec_points_end(b, pos, i) is None,
    ensures
        dec_points_end(b, pos, n) is None,
    decreases n,
{
    if n > i {
        lemma_points_end_none(b, pos, i, (n - 1) as nat);
    }
}

proof fn lemma_slots_end_none(b: Seq<u8>, pos: int, i: nat, n: nat)
    requires
        i <= n,
        dec_slots_end(b, pos, i) is None,
    ensures
        dec_slots_end(b, pos, n) is None,
    decreases n,
{
    if n > i {
        lemma_slots_end_none(b, pos, i, (n - 1) as nat);
    }
}

/// Parses `n` scalars at `pos`.
fn decode_scalar_list(b: &Vec<u8>, pos: usize, n: u32) -> (r: Option<(Vec<Scalar>, usize)>)
    ensures
        match r {
            Some((v, p2)) => {
                &&& dec_scalars_end(b@, pos as int, n as nat) == Some(p2 as int)
                &&& v@.len() == n
                &&& forall|k: int| 0 <= k < v@.len() ==> (#[trigger] v@[k]).wf()
                &&& enc_scalar_list(v@) == b@.subrange(pos as int, p2 as int)
                &&& pos <= p2 <= b@.len()
            },
            None => dec_scalars_end(b@, pos as int, n as nat) is None,
        },
{
    if pos > b.len() {
        proof {
            lemma_scalars_end_none_oob(b@, pos as int, n as nat);
        }
        return None;
    }
    let mut v: Vec<Scalar> = Vec::new();
    let mut cur: usize = pos;
    let mut i: u32 = 0;
    while i < n
        invariant
            i <= n,
            pos <= cur <= b@.len(),
            dec_scalars_end(b@, pos as int, i as nat) == Some(cur as int),
            v@.len() == i,
            forall|k: int| 0 <= k < v@.len() ==> (#[trigger] v@[k]).wf(),
            enc_scalar_list(v@) == b@.subrange(pos as int, cur as int),
        decreases n - i,
    {
        match decode_scalar(b, cur) {
            Some((s, p2)) => {
                proof {
                    let m = v@.push(s).map_values(|x: Scalar| x.b@);
                    assert(m.drop_last() =~= v@.map_values(|x: Scalar| x.b@));
                    assert(m.last() == s.b@);
                    assert(enc_scalar_list(v@.push(s)) =~= b@.subrange(pos as int, p2 as int));
                }
                v.push(s);
                cur = p2;
                i = i + 1;
            },
            None => {
                proof {
                    lemma_scalars_end_none(b@, pos as int, (i + 1) as nat, n as nat);
                }
                return None;
            },
        }
    }
    Some((v, cur))
}

/// Parsing at a position past the end fails for any count.
proof fn lemma_scalars_end_none_oob(b: Seq<u8>, pos: int, n: nat)
    requires
        pos > b.len(),
    ensures
        dec_scalars_end(b, pos, n) is None,
    decreases n,
{
    if n > 0 {
        lemma_scalars_end_none_oob(b, pos, (n - 1) as nat);
    }
}

/// Parses `n` points at `pos`.
fn decode_point_list(b: &Vec<u8>, pos: usize, n: u32) -> (r: Option<(Vec<Point>, usize)>)
    ensures
        match r {
            Some((v, p2)) => {
                &&& dec_points_end(b@, pos as int, n as nat) == Some(p2 as int)
                &&& v@.len() == n
                &&& forall|k: int| 0 <= k < v@.len() ==> (#[trigger] v@[k]).wf()
                &&& enc_point_list(v@) == b@.subrange(pos as int, p2 as int)
                &&& pos <= p2 <= b@.len()
            },
            None => dec_points_end(b@, pos as int, n as nat) is None,
        },
{
    if pos > b.len() {
        proof {
            lemma_points_end_none_oob(b@, pos as int, n as nat);
        }
        return None;
    }
    let mut v: Vec<Point> = Vec::new();
    let mut cur: usize = pos;
    let mut i: u32 = 0;
    while i < n
        invariant
            i <= n,
            pos <= cur <= b@.len(),
            dec_points_end(b@, pos as int, i as nat) == Some(cur as int),
            v@.len() == i,
            forall|k: int| 0 <= k < v@.len() ==> (#[trigger] v@[k]).wf(),
            enc_point_list(v@) == b@.subrange(pos as int, cur as int),
        decreases n - i,
    {
        match decode_point(b, cur) {
            Some((p, p2)) => {
                proof {
                    let m = v@.push(p).map_values(|x: Point| x.b@);
                    assert(m.drop_last() =~= v@.map_values(|x: Point| x.b@));
                    assert(m.last() == p.b@);
                    assert(enc_point_list(v@.push(p)) =~= b@.subrange(pos as int, p2 as int));
                }
                v.push(p);
                cur = p2;
                i = i + 1;
            },
            None => {
                proof {
                    lemma_points_end_none(b@, pos as int, (i + 1) as nat, n as nat);
                }
                return None;
            },
        }
    }
    Some((v, cur))
}

proof fn lemma_points_end_none_oob(b: Seq<u8>, pos: int, n: nat)
    requires
        pos > b.len(),
    ensures
        dec_points_end(b, pos, n) is None,
    decreases n,
{
    if n > 0 {
        lemma_points_end_none_oob(b, pos, (n - 1) as nat);
    }
}

/// Encodes a base proof.
pub fn encode_base_proof(bp: &BaseProof) -> (r: Vec<u8>)
    requires
        bp.data@.len() <= 0xffffffff,
        bp.openings@.len() <= 0xffffffff,
    ensures
        r@ =~= enc_base_proof(*bp),
{
    let mut out = encode_schnorr(&bp.schnorr);
    crate::hashing::push_u32_le(&mut out, bp.data.len() as u32);
    let ghost data_bs = bp.data@.map_values(|x: Scalar| x.b@);
    let mut i: usize = 0;
    while i < bp.data.len()
        invariant
            i <= bp.data@.len(),
            data_bs == bp.data@.map_values(|x: Scalar| x.b@),
            out@ =~= enc_schnorr(bp.schnorr) + u32_le(bp.data@.len() as u32) + concat_bytes(
                data_bs.take(i as int),
            ),
        decreases bp.data@.len() - i,
    {
        crate::hashing::extend_bytes(&mut out, &bp.data[i].b);
        proof {
            assert(data_bs.take(i + 1).drop_last() =~= data_bs.take(i as int));
            assert(data_bs.take(i + 1).last() == bp.data@[i as int].b@);
        }
        i = i + 1;
    }
    proof {
        assert(data_bs.take(data_bs.len() as int) =~= data_bs);
    }
    crate::hashing::push_u32_le(&mut out, bp.openings.len() as u32);
    let ghost open_bs = bp.openings@.map_values(|x: Point| x.b@);
    let ghost mid = enc_schnorr(bp.schnorr) + u32_le(bp.data@.len() as u32) + enc_scalar_list(
        bp.data@,
    ) + u32_le(bp.openings@.len() as u32);
    let mut j: usize = 0;
    while j < bp.openings.len()
        invariant
            j <= bp.openings@.len(),
            open_bs == bp.openings@.map_values(|x: Point| x.b@),
            out@ =~= mid + concat_bytes(open_bs.take(j as int)),
        decreases bp.openings@.len() - j,
    {
        crate::hashing::extend_bytes(&mut out, &bp.openings[j].b);
        proof {
            assert(open_bs.take(j + 1).drop_last() =~= open_bs.take(j as int));
            assert(open_bs.take(j + 1).last() == bp.openings@[j as int].b@);
        }
        j = j + 1;
    }
    proof {
        assert(open_bs.take(open_bs.len() as int) =~= open_bs);
    }
    out
}

/// Parses a base proof at `pos`.
pub fn decode_base_proof(b: &Vec<u8>, pos: usize) -> (r: Option<(BaseProof, usize)>)
    ensures
        match r {
            Some((y, p2)) => {
                &&& dec_base_proof_end(b@, pos as int) == Some(p2 as int)
                &&& y.wf()
                &&& y.data@.len() <= 0xffffffff
                &&& y.openings@.len() <= 0xffffffff
                &&& enc_base_proof(y) == b@.subrange(pos as int, p2 as int)
                &&& pos <= p2 <= b@.len()
            },
            None => dec_base_proof_end(b@, pos as int) is None,
        },
{
    let (schnorr, p1) = match decode_schnorr(b, pos) {
        Some(x) => x,
        None => {
            return None;
        },
    };
    let (dlen, p2) = match decode_u32(b, p1) {
        Some(x) => x,
        None => {
            return None;
        },
    };
    let (data, p3) = match decode_scalar_list(b, p2, dlen) {
        Some(x) => x,
        None => {
            return None;
        },
    };
    let (olen, p4) = match decode_u32(b, p3) {
        Some(x) => x,
        None => {
            return None;
        },
    };
    let (openings, p5) = match decode_point_list(b, p4, olen) {
        Some(x) => x,
        None => {
            return None;
        },
    };
    let y = BaseProof { schnorr, data, openings };
    proof {
        lemma_u32_le_val(dlen);
        lemma_le_bytes_val_injective(u32_le(dlen), b@.subrange(p1 as int, p1 + 4));
        lemma_u32_le_val(olen);
        lemma_le_bytes_val_injective(u32_le(olen), b@.subrange(p3 as int, p3 + 4));
        lemma_u32_le_val(y.schnorr.c);
        lemma_le_bytes_val_injective(u32_le(y.schnorr.c), b@.subrange(pos + 48, pos + 52));
        assert(enc_schnorr(y.schnorr) =~= b@.subrange(pos as int, pos + 84));
        assert(enc_base_proof(y) =~= b@.subrange(pos as int, p5 as int));
    }
    Some((y, p5))
}

/// Encodes a signature slot.
pub fn encode_fisch(slot: &FischIter) -> (r: Vec<u8>)
    requires
        enc_len_ok(*slot),
    ensures
        r@ =~= enc_fisch(*slot),
{
    match slot {
        FischIter::Commitment(p) => {
            let mut out: Vec<u8> = Vec::new();
            out.push(0u8);
            crate::hashing::extend_bytes(&mut out, &p.b);
            out
        },
        FischIter::BaseProof(bp) => {
            let mut out: Vec<u8> = Vec::new();
            out.push(1u8);
            let body = encode_base_proof(bp);
            crate::hashing::extend_bytes(&mut out, &body);
            out
        },
    }
}

/// Parses a signature slot at `pos`.
pub fn decode_fisch(b: &Vec<u8>, pos: usize) -> (r: Option<(FischIter, usize)>)
    ensures
        match r {
            Some((y, p2)) => {
                &&& dec_fisch_end(b@, pos as int) == Some(p2 as int)
                &&& y.wf()
                &&& enc_len_ok(y)
                &&& enc_fisch(y) == b@.subrange(pos as int, p2 as int)
                &&& pos < p2 <= b@.len()
            },
            None => dec_fisch_end(b@, pos as int) is None,
        },
{
    if pos >= b.len() {
        return None;
    }
    let tag = b[pos];
    if tag == 0 {
        match decode_point(b, pos + 1) {
            Some((p, p2)) => {
                let y = FischIter::Commitment(p);
                proof {
                    assert(enc_fisch(y) =~= b@.subrange(pos as int, p2 as int));
                }
                Some((y, p2))
            },
            None => None,
        }
    } else if tag == 1 {
        match decode_base_proof(b, pos + 1) {
            Some((bp, p2)) => {
                let y = FischIter::BaseProof(bp);
                proof {
                    assert(enc_fisch(y) =~= b@.subrange(pos as int, p2 as int));
                }
                Some((y, p2))
            },
            None => None,
        }
    } else {
        None
    }
}

/// Encodes a signature.
pub fn encode_proof(p: &Proof) -> (r: Vec<u8>)
    requires
        p.fisch_iters@.len() <= 0xffffffff,
        forall|i: int| 0 <= i < p.fisch_iters@.len() ==> enc_len_ok(#[trigger] p.fisch_iters@[i]),
    ensures
        r@ =~= enc_proof(*p),
{
    let mut out: Vec<u8> = Vec::new();
    crate::hashing::push_u32_le(&mut out, p.fisch_iters.len() as u32);
    let ghost slot_bs = p.fisch_iters@.map_values(|s: FischIter| enc_fisch(s));
    let mut i: usize = 0;
    while i < p.fisch_iters.len()
        invariant
            i <= p.fisch_iters@.len(),
            forall|j: int|
                0 <= j < p.fisch_iters@.len() ==> enc_len_ok(#[trigger] p.fisch_iters@[j]),
            slot_bs == p.fisch_iters@.map_values(|s: FischIter| enc_fisch(s)),
            out@ =~= u32_le(p.fisch_iters@.len() as u32) + concat_bytes(slot_bs.take(i as int)),
        decreases p.fisch_iters@.len() - i,
    {
        let body = encode_fisch(&p.fisch_iters[i]);
        crate::hashing::extend_bytes(&mut out, &body);
        proof {
            assert(slot_bs.take(i + 1).drop_last() =~= slot_bs.take(i as int));
            assert(slot_bs.take(i + 1).last() == enc_fisch(p.fisch_iters@[i as int]));
        }
        i = i + 1;
    }
    proof {
        assert(slot_bs.take(slot_bs.len() as int) =~= slot_bs);
    }
    out
}

/// Parses a signature at `pos`.
pub fn decode_proof(b: &Vec<u8>, pos: usize) -> (r: Option<(Proof, usize)>)
    ensures
        match r {
            Some((y, p2)) => {
                &&& dec_proof_end(b@, pos as int) == Some(p2 as int)
                &&& y.wf()
                &&& y.fisch_iters@.len() == u32val(b@, pos as int)
                &&& forall|i: int|
                    0 <= i < y.fisch_iters@.len() ==> enc_len_ok(#[trigger] y.fisch_iters@[i])
                &&& enc_proof(y) == b@.subrange(pos as int, p2 as int)
            },
            None => dec_proof_end(b@, pos as int) is None,
        },
{
    let (cnt, p1) = match decode_u32(b, pos) {
        Some(x) => x,
        None => {
            return None;
        },
    };
    let mut slots: Vec<FischIter> = Vec::new();
    let mut cur: usize = p1;
    let mut i: u32 = 0;
    while i < cnt
        invariant
            i <= cnt,
            p1 <= cur <= b@.len(),
            dec_u32_end(b@, pos as int) == Some(p1 as int),
            cnt as nat == u32val(b@, pos as int),
            dec_slots_end(b@, p1 as int, i as nat) == Some(cur as int),
            slots@.len() == i,
            forall|k: int| 0 <= k < slots@.len() ==> (#[trigger] slots@[k]).wf(),
            forall|k: int| 0 <= k < slots@.len() ==> enc_len_ok(#[trigger] slots@[k]),
            concat_bytes(slots@.map_values(|s: FischIter| enc_fisch(s))) == b@.subrange(
                p1 as int,
                cur as int,
            ),
        decreases cnt - i,
    {
        match decode_fisch(b, cur) {
            Some((slot, p2)) => {
                proof {
                    let m = slots@.push(slot).map_values(|s: FischIter| enc_fisch(s));
                    assert(m.drop_last() =~= slots@.map_values(|s: FischIter| enc_fisch(s)));
                    assert(m.last() == enc_fisch(slot));
                    assert(concat_bytes(m) =~= b@.subrange(p1 as int, p2 as int));
                }
                slots.push(slot);
                cur = p2;
                i = i + 1;
            },
            None => {
                proof {
                    lemma_slots_end_none(b@, p1 as int, (i + 1) as nat, cnt as nat);
                }
                return None;
            },
        }
    }
    let y = Proof { fisch_iters: slots };
    proof {
        lemma_u32_le_val(cnt);
        lemma_le_bytes_val_injective(u32_le(cnt), b@.subrange(pos as int, pos + 4));
        assert(enc_proof(y) =~= b@.subrange(pos as int, cur as int));
    }
    Some((y, cur))
}

} // verus!
