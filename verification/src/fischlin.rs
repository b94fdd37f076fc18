//! The Fischlin proof engine and the signature aggregator.
//!
//! A base proof is one successful Fischlin iteration: a Schnorr transcript
//! whose challenge was mined so that the XOR of the per-opening hashes
//! passes the proof-of-work test, together with the data values and KZG
//! openings at the challenged positions.  A signature is a vector of
//! iteration slots; it is accepted when at least half of them carry a valid
//! base proof.

use rayon::iter::{IntoParallelIterator, ParallelIterator};
use vstd::prelude::*;

use crate::commitment::{
    check_proof_single, get_point, ifft_vals, kzg_check, kzg_commit, open_all_fk20, params_size,
    point_of, scalar_vals, Commitment, Opening, SetupParams,
};
use crate::field::{
    fr_order, fr_rand, fr_reduce_bytes, le_bytes_val, lemma_scalar_bytes_canonical,
    nat_to_le_bytes, scalar_copy, Scalar,
};
use crate::group::{g1_generator, g1_mul, g1_of_dlog, point_copy, Point};
use crate::hashing::{
    derive_indices, derive_indices_spec, individual_hash, individual_hash_spec, pow_pass, pow_spec,
    prelude, prelude_spec, zero_hash, zero_state, HashOutput, Prelude,
};
use crate::schnorr::{lemma_schnorr_completeness, maxc, PublicKey, Schnorr, SecretKey};
use crate::util::{bitxor, is_pow2, pow2, xor_words};

verus! {

/// The size in bytes of one data chunk (one field element).
pub const CHUNK_SIZE: usize = 32;

/// A single successful Fischlin iteration.
#[derive(Debug, Clone, PartialEq, Eq)]
pub struct BaseProof {
    pub schnorr: Schnorr,
    pub data: Vec<Scalar>,
    pub openings: Vec<Opening>,
}

/// One slot of the signature: either a mined base proof, or only the
/// Schnorr commitment of an iteration that exhausted its nonce budget,
/// kept so that the prelude stays computable.
#[derive(Debug, Clone, PartialEq, Eq)]
pub enum FischIter {
    Commitment(Point),
    BaseProof(BaseProof),
}

/// The beholder signature: one slot per Fischlin iteration.
#[derive(Debug, Clone, PartialEq, Eq)]
pub struct Proof {
    pub fisch_iters: Vec<FischIter>,
}

impl BaseProof {
    pub open spec fn wf(&self) -> bool {
        &&& self.schnorr.wf()
        &&& forall|k: int| 0 <= k < self.data@.len() ==> (#[trigger] self.data@[k]).wf()
        &&& forall|k: int| 0 <= k < self.openings@.len() ==> (#[trigger] self.openings@[k]).wf()
    }
}

impl FischIter {
    /// The Schnorr commitment bytes this slot contributes to the prelude.
    pub open spec fn a_bytes(&self) -> Seq<u8> {
        match self {
            FischIter::Commitment(p) => p.b@,
            FischIter::BaseProof(bp) => bp.schnorr.a.b@,
        }
    }

    pub open spec fn wf(&self) -> bool {
        match self {
            FischIter::Commitment(p) => p.wf(),
            FischIter::BaseProof(bp) => bp.wf(),
        }
    }

    /// The Schnorr commitment of this slot.
    pub fn a(&self) -> (r: Point)
        ensures
            r.b@ == self.a_bytes(),
    {
        match self {
            FischIter::Commitment(p) => point_copy(p),
            FischIter::BaseProof(bp) => point_copy(&bp.schnorr.a),
        }
    }
}

/// The XOR of the first `k` per-opening hashes of a base proof.
pub open spec fn bp_hash_upto(pre: Seq<u64>, bp: BaseProof, fi: u16, k: nat) -> Seq<u64>
    decreases k,
{
    if k == 0 {
        zero_state()
    } else {
        xor_words(
            bp_hash_upto(pre, bp, fi, (k - 1) as nat),
            individual_hash_spec(
                pre,
                bp.schnorr.c,
                bp.schnorr.z.b@,
                fi,
                (k - 1) as u8,
                bp.data@[k - 1].b@,
                bp.openings@[k - 1].b@,
            ),
        )
    }
}

/// Whether a base proof is a valid iteration `fi` against a public key
/// (given by its discrete logarithm), a commitment and a prelude: the
/// challenge is within the nonce budget, the Schnorr equation holds, the
/// recorded openings pass the pairing check at the positions derived from
/// `(fi, c)`, and the XOR of the per-opening hashes passes the
/// proof-of-work test.
pub open spec fn base_valid(
    params: SetupParams,
    bp: BaseProof,
    fi: nat,
    pre: Seq<u64>,
    pk_dlog: nat,
    com_b: Seq<u8>,
    data_len: nat,
    difficulty: u32,
    m: nat,
) -> bool {
    let idx = derive_indices_spec(fi as u64, bp.schnorr.c, m, data_len);
    &&& (bp.schnorr.c as nat) < pow2(difficulty as nat)
    &&& bp.schnorr.valid_dlog(pk_dlog)
    &&& bp.data@.len() == m
    &&& bp.openings@.len() == m
    &&& forall|k: int|
        0 <= k < m ==> kzg_check(
            params,
            com_b,
            (#[trigger] bp.openings@[k]).b@,
            point_of(data_len, idx[k]),
            bp.data@[k].value(),
        )
    &&& pow_spec(bp_hash_upto(pre, bp, fi as u16, m)[0], difficulty)
}

/// The Schnorr response mined at challenge `c`: `r + c * sk`.
pub open spec fn mine_z(r_v: nat, sk_v: nat, c: u32) -> nat {
    (r_v + (c as nat) * sk_v) % fr_order()
}

/// The XOR of the first `k` per-opening hashes of the mining candidate at
/// challenge `c`, over the full data and opening vectors and the derived
/// index list.
pub open spec fn mine_hash_upto(
    pre: Seq<u64>,
    fi: nat,
    c: u32,
    z_b: Seq<u8>,
    data: Seq<Scalar>,
    openings: Seq<Point>,
    idx: Seq<nat>,
    k: nat,
) -> Seq<u64>
    decreases k,
{
    if k == 0 {
        zero_state()
    } else {
        xor_words(
            mine_hash_upto(pre, fi, c, z_b, data, openings, idx, (k - 1) as nat),
            individual_hash_spec(
                pre,
                c,
                z_b,
                fi as u16,
                (k - 1) as u8,
                data[idx[k - 1] as int].b@,
                openings[idx[k - 1] as int].b@,
            ),
        )
    }
}

/// The full proof-of-work accumulator of the mining candidate at
/// challenge `c`.
pub open spec fn mine_hash(
    pre: Seq<u64>,
    fi: nat,
    c: u32,
    r_v: nat,
    sk_v: nat,
    data: Seq<Scalar>,
    openings: Seq<Point>,
    m: nat,
) -> Seq<u64> {
    mine_hash_upto(
        pre,
        fi,
        c,
        nat_to_le_bytes(mine_z(r_v, sk_v, c), 32),
        data,
        openings,
        derive_indices_spec(fi as u64, c, m, data.len()),
        m,
    )
}

/// Whether the mining candidate at challenge `c` passes the proof-of-work
/// test.
pub open spec fn mine_ok(
    pre: Seq<u64>,
    fi: nat,
    c: u32,
    r_v: nat,
    sk_v: nat,
    data: Seq<Scalar>,
    openings: Seq<Point>,
    m: nat,
    difficulty: u32,
) -> bool {
    pow_spec(mine_hash(pre, fi, c, r_v, sk_v, data, openings, m)[0], difficulty)
}

/// The smallest passing challenge in `[c, limit)`, if any: the mining loop
/// scans the challenges in ascending order.
pub open spec fn find_c(
    pre: Seq<u64>,
    fi: nat,
    r_v: nat,
    sk_v: nat,
    data: Seq<Scalar>,
    openings: Seq<Point>,
    m: nat,
    difficulty: u32,
    c: u32,
    limit: nat,
) -> Option<u32>
    decreases limit - c,
{
    if c as nat >= limit {
        None
    } else if mine_ok(pre, fi, c, r_v, sk_v, data, openings, m, difficulty) {
        Some(c)
    } else if c == u32::MAX {
        None
    } else {
        find_c(pre, fi, r_v, sk_v, data, openings, m, difficulty, (c + 1) as u32, limit)
    }
}

/// What `BaseProof::prove` promises of a mined iteration: its challenge
/// passed the proof-of-work test, its transcript fields are the mined ones,
/// and its data and openings are the ones at the derived positions.
pub open spec fn mined_slot_ok(
    bp: BaseProof,
    pre: Seq<u64>,
    fi: nat,
    r_v: nat,
    sk_v: nat,
    data: Seq<Scalar>,
    openings: Seq<Point>,
    difficulty: u32,
    m: nat,
) -> bool {
    let idx = derive_indices_spec(fi as u64, bp.schnorr.c, m, data.len());
    &&& bp.wf()
    &&& (bp.schnorr.c as nat) < pow2(difficulty as nat)
    &&& mine_ok(pre, fi, bp.schnorr.c, r_v, sk_v, data, openings, m, difficulty)
    &&& bp.schnorr.a.dlog() == r_v
    &&& bp.schnorr.a.b@ == g1_of_dlog(r_v)
    &&& bp.schnorr.z.value() == mine_z(r_v, sk_v, bp.schnorr.c)
    &&& bp.data@.len() == m
    &&& bp.openings@.len() == m
    &&& forall|k: int| 0 <= k < m ==> (#[trigger] bp.data@[k]).b@ == data[idx[k] as int].b@
    &&& forall|k: int| 0 <= k < m ==> (#[trigger] bp.openings@[k]).b@ == openings[idx[k] as int].b@
}

impl BaseProof {
    /// Mines one Fischlin iteration: scans the challenges in ascending
    /// order and returns the iteration built from the first one whose
    /// proof-of-work passes, or `None` if the budget `2^difficulty` is
    /// exhausted.
    pub fn prove(
        fisch_iter: usize,
        pre: &Prelude,
        openings: &Vec<Opening>,
        r: &Scalar,
        sk: &SecretKey,
        data: &Vec<Scalar>,
        difficulty: u32,
        mvalue: usize,
    ) -> (res: Option<BaseProof>)
        requires
            pre@.len() == 8,
            fisch_iter < 0x10000,
            r.wf(),
            sk.wf(),
            data@.len() == openings@.len(),
            1 <= data@.len() <= 0x10000,
            forall|i: int| 0 <= i < data@.len() ==> (#[trigger] data@[i]).wf(),
            forall|i: int| 0 <= i < openings@.len() ==> (#[trigger] openings@[i]).wf(),
            mvalue <= 32,
            difficulty < 32,
        ensures
            match res {
                Some(bp) => {
                    &&& mined_slot_ok(
                        bp,
                        pre@,
                        fisch_iter as nat,
                        r.value(),
                        sk.value(),
                        data@,
                        openings@,
                        difficulty,
                        mvalue as nat,
                    )
                    &&& find_c(
                        pre@,
                        fisch_iter as nat,
                        r.value(),
                        sk.value(),
                        data@,
                        openings@,
                        mvalue as nat,
                        difficulty,
                        0,
                        pow2(difficulty as nat),
                    ) == Some(bp.schnorr.c)
                },
                None => find_c(
                    pre@,
                    fisch_iter as nat,
                    r.value(),
                    sk.value(),
                    data@,
                    openings@,
                    mvalue as nat,
                    difficulty,
                    0,
                    pow2(difficulty as nat),
                ) is None,
            },
    {
        let ghost fi = fisch_iter as nat;
        let ghost r_v = r.value();
        let ghost sk_v = sk.value();
        let ghost limit = pow2(difficulty as nat);
        let mc = maxc(difficulty);
        let mut c: u32 = 0;
        while c < mc
            invariant
                pre@.len() == 8,
                fisch_iter < 0x10000,
                r.wf(),
                sk.wf(),
                data@.len() == openings@.len(),
                1 <= data@.len() <= 0x10000,
                forall|i: int| 0 <= i < data@.len() ==> (#[trigger] data@[i]).wf(),
                forall|i: int| 0 <= i < openings@.len() ==> (#[trigger] openings@[i]).wf(),
                mvalue <= 32,
                difficulty < 32,
                fi == fisch_iter as nat,
                r_v == r.value(),
                sk_v == sk.value(),
                limit == pow2(difficulty as nat),
                mc == limit,
                c <= mc,
                find_c(pre@, fi, r_v, sk_v, data@, openings@, mvalue as nat, difficulty, 0, limit)
                    == find_c(
                    pre@,
                    fi,
                    r_v,
                    sk_v,
                    data@,
                    openings@,
                    mvalue as nat,
                    difficulty,
                    c,
                    limit,
                ),
            decreases mc - c,
        {
            let schnorr = Schnorr::prove(sk, r, c);
            proof {
                lemma_scalar_bytes_canonical(schnorr.z);
            }
            let ghost z_b = nat_to_le_bytes(mine_z(r_v, sk_v, c), 32);
            let indices = derive_indices(fisch_iter, c, mvalue, data.len());
            let ghost idx = derive_indices_spec(fi as u64, c, mvalue as nat, data@.len());

            let mut sel_data: Vec<Scalar> = Vec::new();
            let mut sel_open: Vec<Opening> = Vec::new();
            let mut k: usize = 0;
            while k < mvalue
                invariant
                    k <= mvalue,
                    indices@.len() == mvalue,
                    data@.len() == openings@.len(),
                    forall|j: int| 0 <= j < data@.len() ==> (#[trigger] data@[j]).wf(),
                    forall|j: int| 0 <= j < openings@.len() ==> (#[trigger] openings@[j]).wf(),
                    forall|j: int| 0 <= j < mvalue ==> indices@[j] as nat == idx[j],
                    forall|j: int| 0 <= j < mvalue ==> indices@[j] < data@.len(),
                    sel_data@.len() == k,
                    sel_open@.len() == k,
                    forall|j: int|
                        0 <= j < k ==> (#[trigger] sel_data@[j]).b@ == data@[idx[j] as int].b@,
                    forall|j: int|
                        0 <= j < k ==> (#[trigger] sel_open@[j]).b@ == openings@[idx[j] as int].b@,
                decreases mvalue - k,
            {
                sel_data.push(scalar_copy(&data[indices[k]]));
                sel_open.push(point_copy(&openings[indices[k]]));
                k = k + 1;
            }

            let mut hash: HashOutput = zero_hash();
            let mut k2: usize = 0;
            while k2 < mvalue
                invariant
                    k2 <= mvalue,
                    mvalue <= 32,
                    pre@.len() == 8,
                    fisch_iter < 0x10000,
                    fi == fisch_iter as nat,
                    schnorr.wf(),
                    schnorr.c == c,
                    schnorr.z.b@ == z_b,
                    sel_data@.len() == mvalue,
                    sel_open@.len() == mvalue,
                    data@.len() == openings@.len(),
                    forall|j: int| 0 <= j < data@.len() ==> (#[trigger] data@[j]).wf(),
                    forall|j: int| 0 <= j < openings@.len() ==> (#[trigger] openings@[j]).wf(),
                    forall|j: int| 0 <= j < mvalue ==> idx[j] < data@.len(),
                    forall|j: int|
                        0 <= j < mvalue ==> (#[trigger] sel_data@[j]).b@ == data@[idx[j] as int].b@,
                    forall|j: int|
                        0 <= j < mvalue ==> (#[trigger] sel_open@[j]).b@ == openings@[idx[j] as int].b@,
                    hash@ == mine_hash_upto(pre@, fi, c, z_b, data@, openings@, idx, k2 as nat),
                    hash@.len() == 8,
                decreases mvalue - k2,
            {
                let partial = individual_hash(
                    pre,
                    &schnorr,
                    fisch_iter,
                    k2 as u8,
                    &sel_data[k2],
                    &sel_open[k2],
                );
                hash = bitxor(&hash, &partial);
                k2 = k2 + 1;
            }

            if pow_pass(&hash, difficulty) {
                proof {
                    assert(mine_ok(pre@, fi, c, r_v, sk_v, data@, openings@, mvalue as nat, difficulty));
                }
                return Some(BaseProof { schnorr, data: sel_data, openings: sel_open });
            }
            proof {
                assert(!mine_ok(pre@, fi, c, r_v, sk_v, data@, openings@, mvalue as nat, difficulty));
            }
            c = c + 1;
        }
        None
    }

    /// Verifies one iteration: the dual of the mining loop.
    pub fn verify(
        &self,
        fisch_iter: usize,
        pre: &Prelude,
        pk: &PublicKey,
        com: &Commitment,
        data_len: usize,
        params: &SetupParams,
        difficulty: u32,
        mvalue: usize,
    ) -> (r: bool)
        requires
            self.wf(),
            pk.wf(),
            com.wf(),
            pre@.len() == 8,
            fisch_iter < 0x10000,
            1 <= data_len <= 0x10000,
            is_pow2(data_len as nat),
            mvalue <= 32,
            difficulty < 32,
            params_size(*params) >= 1,
        ensures
            r == base_valid(
                *params,
                *self,
                fisch_iter as nat,
                pre@,
                pk.dlog(),
                com.b@,
                data_len as nat,
                difficulty,
                mvalue as nat,
            ),
    {
        let mc = maxc(difficulty);
        if self.schnorr.c >= mc {
            return false;
        }
        if !self.schnorr.verify(pk) {
            return false;
        }
        if self.data.len() != mvalue || self.openings.len() != mvalue {
            return false;
        }
        let indices = derive_indices(fisch_iter, self.schnorr.c, mvalue, data_len);
        let ghost idx = derive_indices_spec(
            fisch_iter as u64,
            self.schnorr.c,
            mvalue as nat,
            data_len as nat,
        );
        let mut hash: HashOutput = zero_hash();
        let mut k: usize = 0;
        while k < mvalue
            invariant
                self.wf(),
                com.wf(),
                pre@.len() == 8,
                fisch_iter < 0x10000,
                1 <= data_len <= 0x10000,
                is_pow2(data_len as nat),
                mvalue <= 32,
                params_size(*params) >= 1,
                self.data@.len() == mvalue,
                self.openings@.len() == mvalue,
                indices@.len() == mvalue,
                idx == derive_indices_spec(
                    fisch_iter as u64,
                    self.schnorr.c,
                    mvalue as nat,
                    data_len as nat,
                ),
                forall|j: int| 0 <= j < mvalue ==> indices@[j] as nat == idx[j],
                forall|j: int| 0 <= j < mvalue ==> indices@[j] < data_len,
                k <= mvalue,
                hash@ == bp_hash_upto(pre@, *self, fisch_iter as u16, k as nat),
                hash@.len() == 8,
                forall|j: int|
                    0 <= j < k ==> kzg_check(
                        *params,
                        com.b@,
                        (#[trigger] self.openings@[j]).b@,
                        point_of(data_len as nat, idx[j]),
                        self.data@[j].value(),
                    ),
            decreases mvalue - k,
        {
            let x = get_point(data_len, indices[k]);
            if !check_proof_single(params, com, &self.openings[k], &x, &self.data[k]) {
                return false;
            }
            let partial = individual_hash(pre, &self.schnorr, fisch_iter, k as u8, &self.data[k], &self.openings[k]);
            hash = bitxor(&hash, &partial);
            k = k + 1;
        }
        pow_pass(&hash, difficulty)
    }
}

/// Relies on `rayon` (`into_par_iter().map(..).collect()`): runs the
/// mining loop for every iteration index on a worker pool; `collect` on an
/// indexed parallel iterator keeps the index order, so slot `i` holds what
/// `BaseProof::prove(i, ..)` returns, and the clauses below are that
/// function's contract, stated per index.
#[verifier::external_body]
fn par_mine(
    pre: &Prelude,
    openings: &Vec<Opening>,
    r_i: &Vec<Scalar>,
    sk: &SecretKey,
    data: &Vec<Scalar>,
    difficulty: u32,
    mvalue: usize,
    nfisch: usize,
) -> (r: Vec<Option<BaseProof>>)
    requires
        pre@.len() == 8,
        nfisch <= 0x10000,
        r_i@.len() == nfisch,
        forall|i: int| 0 <= i < r_i@.len() ==> (#[trigger] r_i@[i]).wf(),
        sk.wf(),
        data@.len() == openings@.len(),
        1 <= data@.len() <= 0x10000,
        forall|i: int| 0 <= i < data@.len() ==> (#[trigger] data@[i]).wf(),
        forall|i: int| 0 <= i < openings@.len() ==> (#[trigger] openings@[i]).wf(),
        mvalue <= 32,
        difficulty < 32,
    ensures
        r@.len() == nfisch,
        forall|i: int|
            0 <= i < nfisch ==> match #[trigger] r@[i] {
                Some(bp) => mined_slot_ok(
                    bp,
                    pre@,
                    i as nat,
                    r_i@[i].value(),
                    sk.value(),
                    data@,
                    openings@,
                    difficulty,
                    mvalue as nat,
                ) && find_c(
                    pre@,
                    i as nat,
                    r_i@[i].value(),
                    sk.value(),
                    data@,
                    openings@,
                    mvalue as nat,
                    difficulty,
                    0,
                    pow2(difficulty as nat),
                ) == Some(bp.schnorr.c),
                None => find_c(
                    pre@,
                    i as nat,
                    r_i@[i].value(),
                    sk.value(),
                    data@,
                    openings@,
                    mvalue as nat,
                    difficulty,
                    0,
                    pow2(difficulty as nat),
                ) is None,
            },
{
    (0..nfisch)
        .into_par_iter()
        .map(|i| BaseProof::prove(i, pre, openings, &r_i[i], sk, data, difficulty, mvalue))
        .collect()
}

/// Whether a slot is valid: a `Commitment` slot counts as invalid; a
/// `BaseProof` slot is valid exactly when its base proof verifies.
pub open spec fn slot_valid(
    params: SetupParams,
    slot: FischIter,
    fi: nat,
    pre: Seq<u64>,
    pk_dlog: nat,
    com_b: Seq<u8>,
    data_len: nat,
    difficulty: u32,
    m: nat,
) -> bool {
    match slot {
        FischIter::Commitment(_) => false,
        FischIter::BaseProof(bp) => base_valid(
            params,
            bp,
            fi,
            pre,
            pk_dlog,
            com_b,
            data_len,
            difficulty,
            m,
        ),
    }
}

/// The number of valid slots among the first `k`.
pub open spec fn count_valid_upto(
    params: SetupParams,
    slots: Seq<FischIter>,
    pre: Seq<u64>,
    pk_dlog: nat,
    com_b: Seq<u8>,
    data_len: nat,
    difficulty: u32,
    m: nat,
    k: nat,
) -> nat
    decreases k,
{
    if k == 0 {
        0
    } else {
        count_valid_upto(params, slots, pre, pk_dlog, com_b, data_len, difficulty, m, (k - 1) as nat)
            + if slot_valid(
            params,
            slots[k - 1],
            (k - 1) as nat,
            pre,
            pk_dlog,
            com_b,
            data_len,
            difficulty,
            m,
        ) {
            1nat
        } else {
            0nat
        }
    }
}

/// The threshold acceptance rule: at least half of the slots are valid.
pub open spec fn proof_accepted(
    params: SetupParams,
    slots: Seq<FischIter>,
    pre: Seq<u64>,
    pk_dlog: nat,
    com_b: Seq<u8>,
    data_len: nat,
    difficulty: u32,
    m: nat,
) -> bool {
    2 * count_valid_upto(params, slots, pre, pk_dlog, com_b, data_len, difficulty, m, slots.len())
        >= slots.len()
}

/// What `Proof::prove` promises of each slot it emits: a mined slot is a
/// valid base proof; an exhausted slot keeps a well-formed commitment.
pub open spec fn slot_mined_or_fallback(
    params: SetupParams,
    slot: FischIter,
    fi: nat,
    pre: Seq<u64>,
    pk_dlog: nat,
    com_b: Seq<u8>,
    data_len: nat,
    difficulty: u32,
    m: nat,
) -> bool {
    match slot {
        FischIter::Commitment(p) => p.wf(),
        FischIter::BaseProof(bp) => base_valid(
            params,
            bp,
            fi,
            pre,
            pk_dlog,
            com_b,
            data_len,
            difficulty,
            m,
        ),
    }
}

/// The field-element values of the 32-byte chunks of a byte string,
/// reduced modulo the field order.
pub open spec fn chunk_vals(data: Seq<u8>) -> Seq<nat> {
    Seq::new(
        data.len() / 32,
        |i: int| le_bytes_val(data.subrange(32 * i, 32 * i + 32)) % fr_order(),
    )
}

impl Proof {
    pub open spec fn wf(&self) -> bool {
        forall|i: int| 0 <= i < self.fisch_iters@.len() ==> (#[trigger] self.fisch_iters@[i]).wf()
    }

    /// The Schnorr commitment bytes of each slot, in slot order.
    pub open spec fn a_bytes_seq(&self) -> Seq<Seq<u8>> {
        self.fisch_iters@.map_values(|s: FischIter| s.a_bytes())
    }

    /// Recomputes the transcript prelude from the proof itself.
    fn prelude(&self, pk: &PublicKey, com: &Commitment) -> (r: Prelude)
        ensures
            r@ == prelude_spec(pk.b@, com.b@, self.a_bytes_seq()),
            r@.len() == 8,
    {
        let mut a_i: Vec<Point> = Vec::new();
        let mut i: usize = 0;
        while i < self.fisch_iters.len()
            invariant
                i <= self.fisch_iters@.len(),
                a_i@.len() == i,
                forall|j: int|
                    0 <= j < i ==> (#[trigger] a_i@[j]).b@ == self.fisch_iters@[j].a_bytes(),
            decreases self.fisch_iters@.len() - i,
        {
            a_i.push(self.fisch_iters[i].a());
            i = i + 1;
        }
        let r = prelude(pk, com, &a_i);
        proof {
            assert(a_i@.map_values(|p: Point| p.b@) =~= self.a_bytes_seq());
        }
        r
    }

    /// Verifies the beholder signature: recomputes the prelude, checks each
    /// slot, and accepts exactly when at least half of the slots are valid.
    pub fn verify(
        &self,
        pk: &PublicKey,
        com: &Commitment,
        data_len: usize,
        params: &SetupParams,
        difficulty: u32,
        mvalue: usize,
    ) -> (r: bool)
        requires
            self.wf(),
            pk.wf(),
            com.wf(),
            1 <= data_len <= 0x10000,
            is_pow2(data_len as nat),
            mvalue <= 32,
            difficulty < 32,
            params_size(*params) >= 1,
            self.fisch_iters@.len() % 2 == 0,
            self.fisch_iters@.len() <= 0x10000,
        ensures
            r == proof_accepted(
                *params,
                self.fisch_iters@,
                prelude_spec(pk.b@, com.b@, self.a_bytes_seq()),
                pk.dlog(),
                com.b@,
                data_len as nat,
                difficulty,
                mvalue as nat,
            ),
    {
        let pre = self.prelude(pk, com);
        let ghost pre_s = pre@;
        let n = self.fisch_iters.len();
        let mut count: usize = 0;
        let mut i: usize = 0;
        while i < n
            invariant
                self.wf(),
                pk.wf(),
                com.wf(),
                1 <= data_len <= 0x10000,
                is_pow2(data_len as nat),
                mvalue <= 32,
                difficulty < 32,
                params_size(*params) >= 1,
                n == self.fisch_iters@.len(),
                n <= 0x10000,
                pre@ == pre_s,
                pre@.len() == 8,
                i <= n,
                count <= i,
                count == count_valid_upto(
                    *params,
                    self.fisch_iters@,
                    pre_s,
                    pk.dlog(),
                    com.b@,
                    data_len as nat,
                    difficulty,
                    mvalue as nat,
                    i as nat,
                ),
            decreases n - i,
        {
            match &self.fisch_iters[i] {
                FischIter::Commitment(_) => {},
                FischIter::BaseProof(bp) => {
                    if bp.verify(i, &pre, pk, com, data_len, params, difficulty, mvalue) {
                        count = count + 1;
                    }
                },
            }
            i = i + 1;
        }
        2 * count >= n
    }

    /// Produces a beholder signature for the given data: chunks it into
    /// field elements, commits and opens, samples a nonce per iteration,
    /// binds everything into the prelude, and mines each iteration.  A slot
    /// whose nonce budget ran out degrades to its bare Schnorr commitment.
    /// Returns the signature and the commitment.
    pub fn prove(
        params: &SetupParams,
        sk: SecretKey,
        data: &Vec<u8>,
        nfisch: usize,
        difficulty: u32,
        mvalue: usize,
    ) -> (res: (Option<Proof>, Commitment))
        requires
            sk.wf(),
            is_pow2(data@.len()),
            data@.len() % 32 == 0,
            32 <= data@.len(),
            data@.len() / 32 <= 0x10000,
            data@.len() / 32 <= params_size(*params),
            nfisch % 2 == 0,
            nfisch <= 0x10000,
            mvalue <= 32,
            difficulty < 32,
        ensures
            res.0 is Some,
            res.1.wf(),
            res.1.b@ == g1_of_dlog(kzg_commit(*params, ifft_vals(chunk_vals(data@)))),
            res.0.unwrap().wf(),
            res.0.unwrap().fisch_iters@.len() == nfisch,
            forall|i: int|
                0 <= i < nfisch ==> slot_mined_or_fallback(
                    *params,
                    #[trigger] res.0.unwrap().fisch_iters@[i],
                    i as nat,
                    prelude_spec(
                        g1_of_dlog(sk.value()),
                        res.1.b@,
                        res.0.unwrap().a_bytes_seq(),
                    ),
                    sk.value(),
                    res.1.b@,
                    (data@.len() / 32) as nat,
                    difficulty,
                    mvalue as nat,
                ),
    {
        proof {
            lemma_chunks_pow2(data@.len());
        }
        let chunks = data.len() / CHUNK_SIZE;
        let mut chunk_vec: Vec<Scalar> = Vec::new();
        let mut i: usize = 0;
        while i < chunks
            invariant
                chunks == data@.len() / 32,
                data@.len() % 32 == 0,
                data@.len() <= usize::MAX,
                32 * chunks == data@.len(),
                i <= chunks,
                chunk_vec@.len() == i,
                forall|j: int| 0 <= j < i ==> (#[trigger] chunk_vec@[j]).wf(),
                forall|j: int|
                    0 <= j < i ==> (#[trigger] chunk_vec@[j]).value() == chunk_vals(data@)[j],
            decreases chunks - i,
        {
            let mut chunk: Vec<u8> = Vec::new();
            let mut j: usize = 0;
            while j < 32
                invariant
                    i < chunks,
                    chunks == data@.len() / 32,
                    32 * chunks == data@.len(),
                    data@.len() <= usize::MAX,
                    j <= 32,
                    chunk@ =~= data@.subrange(32 * i, 32 * i + j),
                decreases 32 - j,
            {
                chunk.push(data[32 * i + j]);
                assert(chunk@ =~= data@.subrange(32 * i as int, 32 * i + (j + 1)));
                j = j + 1;
            }
            let s = fr_reduce_bytes(&chunk);
            chunk_vec.push(s);
            i = i + 1;
        }
        let g = g1_generator();
        let pk = g1_mul(&g, &sk);
        proof {
            vstd::arithmetic::mul::lemma_mul_basics(sk.value() as int);
            vstd::arithmetic::div_mod::lemma_small_mod(sk.value(), fr_order());
        }
        let (com, openings) = open_all_fk20(params, &chunk_vec);
        proof {
            assert(scalar_vals(chunk_vec@) =~= chunk_vals(data@));
        }

        let mut r_i: Vec<Scalar> = Vec::new();
        let mut a_i: Vec<Point> = Vec::new();
        let mut t: usize = 0;
        while t < nfisch
            invariant
                g.wf(),
                g.dlog() == 1,
                t <= nfisch,
                r_i@.len() == t,
                a_i@.len() == t,
                forall|j: int| 0 <= j < t ==> (#[trigger] r_i@[j]).wf(),
                forall|j: int|
                    0 <= j < t ==> (#[trigger] a_i@[j]).wf() && a_i@[j].b@ == g1_of_dlog(
                        r_i@[j].value(),
                    ) && a_i@[j].dlog() == r_i@[j].value(),
            decreases nfisch - t,
        {
            let r = fr_rand();
            proof {
                vstd::arithmetic::mul::lemma_mul_basics(r.value() as int);
                vstd::arithmetic::div_mod::lemma_small_mod(r.value(), fr_order());
            }
            let a = g1_mul(&g, &r);
            r_i.push(r);
            a_i.push(a);
            t = t + 1;
        }
        let pre = prelude(&pk, &com, &a_i);

        let ghost n_chunks = (data@.len() / 32) as nat;
        let mut mined_all = par_mine(
            &pre,
            &openings,
            &r_i,
            &sk,
            &chunk_vec,
            difficulty,
            mvalue,
            nfisch,
        );
        let ghost mined0 = mined_all@;
        let mut slots: Vec<FischIter> = Vec::new();
        let mut fi: usize = 0;
        while fi < nfisch
            invariant
                mined0.len() == nfisch,
                mined_all@ =~= mined0.skip(fi as int),
                forall|j: int|
                    0 <= j < nfisch ==> match #[trigger] mined0[j] {
                        Some(bp) => mined_slot_ok(
                            bp,
                            pre@,
                            j as nat,
                            r_i@[j].value(),
                            sk.value(),
                            chunk_vec@,
                            openings@,
                            difficulty,
                            mvalue as nat,
                        ),
                        None => true,
                    },
                sk.wf(),
                mvalue <= 32,
                difficulty < 32,
                nfisch <= 0x10000,
                n_chunks == (data@.len() / 32) as nat,
                chunk_vec@.len() == n_chunks,
                1 <= n_chunks <= 0x10000,
                forall|j: int| 0 <= j < chunk_vec@.len() ==> (#[trigger] chunk_vec@[j]).wf(),
                openings@.len() == chunk_vec@.len(),
                forall|j: int| 0 <= j < openings@.len() ==> (#[trigger] openings@[j]).wf(),
                forall|j: int|
                    0 <= j < chunk_vec@.len() ==> kzg_check(
                        *params,
                        com.b@,
                        (#[trigger] openings@[j]).b@,
                        point_of(n_chunks, j as nat),
                        chunk_vec@[j].value(),
                    ),
                com.wf(),
                pre@.len() == 8,
                r_i@.len() == nfisch,
                a_i@.len() == nfisch,
                forall|j: int| 0 <= j < nfisch ==> (#[trigger] r_i@[j]).wf(),
                forall|j: int|
                    0 <= j < nfisch ==> (#[trigger] a_i@[j]).wf() && a_i@[j].b@ == g1_of_dlog(
                        r_i@[j].value(),
                    ),
                fi <= nfisch,
                slots@.len() == fi,
                forall|j: int| 0 <= j < fi ==> (#[trigger] slots@[j]).wf(),
                forall|j: int|
                    0 <= j < fi ==> (#[trigger] slots@[j]).a_bytes() == g1_of_dlog(
                        r_i@[j].value(),
                    ),
                forall|j: int|
                    0 <= j < fi ==> slot_mined_or_fallback(
                        *params,
                        #[trigger] slots@[j],
                        j as nat,
                        pre@,
                        sk.value(),
                        com.b@,
                        n_chunks,
                        difficulty,
                        mvalue as nat,
                    ),
            decreases nfisch - fi,
        {
            let mined = mined_all.remove(0);
            proof {
                assert(mined == mined0[fi as int]);
                assert(mined_all@ =~= mined0.skip(fi + 1));
            }
            match mined {
                Some(bp) => {
                    proof {
                        lemma_mined_is_valid(
                            *params,
                            bp,
                            fi as nat,
                            pre@,
                            sk.value(),
                            r_i@[fi as int].value(),
                            com.b@,
                            chunk_vec@,
                            openings@,
                            difficulty,
                            mvalue as nat,
                        );
                    }
                    slots.push(FischIter::BaseProof(bp));
                },
                None => {
                    slots.push(FischIter::Commitment(point_copy(&a_i[fi])));
                },
            }
            fi = fi + 1;
        }
        let p = Proof { fisch_iters: slots };
        proof {
            assert(p.a_bytes_seq() =~= a_i@.map_values(|pt: Point| pt.b@));
        }
        (Some(p), com)
    }
}

/// A power of two of at least 32 bytes splits into a power of two of
/// 32-byte chunks.
pub proof fn lemma_chunks_pow2(n: nat)
    requires
        is_pow2(n),
        n >= 32,
    ensures
        n % 32 == 0,
        is_pow2(n / 32),
        1 <= n / 32,
        32 * (n / 32) == n,
{
    let e = crate::util::lg(n);
    crate::util::lemma_pow2_lg(n);
    if e < 5 {
        crate::util::lemma_pow2_mono(e, 4);
        assert(pow2(4) == 16) by {
            reveal_with_fuel(pow2, 5);
        }
    }
    assert(pow2(e) == 2 * pow2((e - 1) as nat));
    assert(pow2((e - 1) as nat) == 2 * pow2((e - 2) as nat));
    assert(pow2((e - 2) as nat) == 2 * pow2((e - 3) as nat));
    assert(pow2((e - 3) as nat) == 2 * pow2((e - 4) as nat));
    assert(pow2((e - 4) as nat) == 2 * pow2((e - 5) as nat));
    let x = pow2((e - 5) as nat);
    assert(n == 32 * x);
    vstd::arithmetic::div_mod::lemma_mod_multiples_basic(x as int, 32);
    assert((x * 32) == (32 * x)) by (nonlinear_arith);
    vstd::arithmetic::div_mod::lemma_div_multiples_vanish(x as int, 32);
    crate::util::lemma_lg_pow2((e - 5) as nat);
}

/// A base proof accepted by the mining loop is a valid iteration: the
/// Schnorr transcript it assembled verifies, its recorded openings are the
/// ones the commitment layer produced for the derived positions, and its
/// proof-of-work hash is the one the verifier recomputes.
pub proof fn lemma_mined_is_valid(
    params: SetupParams,
    bp: BaseProof,
    fi: nat,
    pre: Seq<u64>,
    sk_v: nat,
    r_v: nat,
    com_b: Seq<u8>,
    data: Seq<Scalar>,
    openings: Seq<Point>,
    difficulty: u32,
    m: nat,
)
    requires
        mined_slot_ok(bp, pre, fi, r_v, sk_v, data, openings, difficulty, m),
        sk_v < fr_order(),
        r_v < fr_order(),
        data.len() == openings.len(),
        1 <= data.len(),
        forall|i: int|
            0 <= i < data.len() ==> kzg_check(
                params,
                com_b,
                (#[trigger] openings[i]).b@,
                point_of(data.len(), i as nat),
                data[i].value(),
            ),
    ensures
        base_valid(params, bp, fi, pre, sk_v, com_b, data.len(), difficulty, m),
{
    let c = bp.schnorr.c;
    let idx = derive_indices_spec(fi as u64, c, m, data.len());
    lemma_schnorr_completeness(bp.schnorr, sk_v, r_v);
    assert forall|k: int| 0 <= k < m implies kzg_check(
        params,
        com_b,
        (#[trigger] bp.openings@[k]).b@,
        point_of(data.len(), idx[k]),
        bp.data@[k].value(),
    ) by {
        assert(idx[k] < data.len());
        assert(bp.openings@[k].b@ == openings[idx[k] as int].b@);
        assert(bp.data@[k].b@ == data[idx[k] as int].b@);
        assert(bp.data@[k].value() == data[idx[k] as int].value());
    }
    let z_b = nat_to_le_bytes(mine_z(r_v, sk_v, c), 32);
    lemma_scalar_bytes_canonical(bp.schnorr.z);
    lemma_bp_hash_matches_mine(pre, bp, fi, z_b, data, openings, idx, m);
}

/// The verifier's XOR accumulator over the recorded values and openings
/// equals the miner's accumulator over the full vectors at the derived
/// positions, when the recorded entries are the ones at those positions.
proof fn lemma_bp_hash_matches_mine(
    pre: Seq<u64>,
    bp: BaseProof,
    fi: nat,
    z_b: Seq<u8>,
    data: Seq<Scalar>,
    openings: Seq<Point>,
    idx: Seq<nat>,
    k: nat,
)
    requires
        bp.schnorr.z.b@ == z_b,
        k <= bp.data@.len(),
        k <= bp.openings@.len(),
        forall|j: int| 0 <= j < k ==> (#[trigger] bp.data@[j]).b@ == data[idx[j] as int].b@,
        forall|j: int| 0 <= j < k ==> (#[trigger] bp.openings@[j]).b@ == openings[idx[j] as int].b@,
    ensures
        bp_hash_upto(pre, bp, fi as u16, k) == mine_hash_upto(
            pre,
            fi,
            bp.schnorr.c,
            z_b,
            data,
            openings,
            idx,
            k,
        ),
    decreases k,
{
    if k > 0 {
        lemma_bp_hash_matches_mine(pre, bp, fi, z_b, data, openings, idx, (k - 1) as nat);
    }
}

/// A base proof whose challenge reaches the nonce budget `2^difficulty`
/// fails verification, whatever else holds of it.
pub proof fn lemma_bounded_challenge(
    params: SetupParams,
    bp: BaseProof,
    fi: nat,
    pre: Seq<u64>,
    pk_dlog: nat,
    com_b: Seq<u8>,
    data_len: nat,
    difficulty: u32,
    m: nat,
)
    requires
        (bp.schnorr.c as nat) >= pow2(difficulty as nat),
    ensures
        !base_valid(params, bp, fi, pre, pk_dlog, com_b, data_len, difficulty, m),
{
}

/// The number of `BaseProof` slots among the first `k`.
pub open spec fn count_base_upto(slots: Seq<FischIter>, k: nat) -> nat
    decreases k,
{
    if k == 0 {
        0
    } else {
        count_base_upto(slots, (k - 1) as nat) + if slots[k - 1] is BaseProof {
            1nat
        } else {
            0nat
        }
    }
}

proof fn lemma_count_valid_eq_count_base(
    params: SetupParams,
    slots: Seq<FischIter>,
    pre: Seq<u64>,
    pk_dlog: nat,
    com_b: Seq<u8>,
    data_len: nat,
    difficulty: u32,
    m: nat,
    k: nat,
)
    requires
        k <= slots.len(),
        forall|i: int|
            0 <= i < slots.len() ==> slot_mined_or_fallback(
                params,
                #[trigger] slots[i],
                i as nat,
                pre,
                pk_dlog,
                com_b,
                data_len,
                difficulty,
                m,
            ),
    ensures
        count_valid_upto(params, slots, pre, pk_dlog, com_b, data_len, difficulty, m, k)
            == count_base_upto(slots, k),
    decreases k,
{
    if k > 0 {
        lemma_count_valid_eq_count_base(
            params,
            slots,
            pre,
            pk_dlog,
            com_b,
            data_len,
            difficulty,
            m,
            (k - 1) as nat,
        );
    }
}

/// A freshly produced proof verifies, provided at least half of its
/// iterations mined successfully: every mined slot is valid, so the valid
/// count is the mined count and meets the threshold.  (An iteration can
/// exhaust its nonce budget, so more than half of the slots being
/// `Commitment` fallbacks does make a fresh proof fail verification.)
pub proof fn lemma_fresh_proof_verifies(
    params: SetupParams,
    slots: Seq<FischIter>,
    pre: Seq<u64>,
    pk_dlog: nat,
    com_b: Seq<u8>,
    data_len: nat,
    difficulty: u32,
    m: nat,
)
    requires
        forall|i: int|
            0 <= i < slots.len() ==> slot_mined_or_fallback(
                params,
                #[trigger] slots[i],
                i as nat,
                pre,
                pk_dlog,
                com_b,
                data_len,
                difficulty,
                m,
            ),
        2 * count_base_upto(slots, slots.len()) >= slots.len(),
    ensures
        proof_accepted(params, slots, pre, pk_dlog, com_b, data_len, difficulty, m),
{
    lemma_count_valid_eq_count_base(
        params,
        slots,
        pre,
        pk_dlog,
        com_b,
        data_len,
        difficulty,
        m,
        slots.len(),
    );
}

proof fn lemma_count_after_invalidation(
    params: SetupParams,
    slots: Seq<FischIter>,
    slots2: Seq<FischIter>,
    pre: Seq<u64>,
    pk_dlog: nat,
    com_b: Seq<u8>,
    data_len: nat,
    difficulty: u32,
    m: nat,
    j: int,
    k: nat,
)
    requires
        slots2.len() == slots.len(),
        0 <= j < slots.len(),
        forall|i: int| 0 <= i < slots.len() && i != j ==> slots2[i] == slots[i],
        slot_valid(params, slots[j], j as nat, pre, pk_dlog, com_b, data_len, difficulty, m),
        !slot_valid(params, slots2[j], j as nat, pre, pk_dlog, com_b, data_len, difficulty, m),
        k <= slots.len(),
    ensures
        count_valid_upto(params, slots2, pre, pk_dlog, com_b, data_len, difficulty, m, k)
            == count_valid_upto(params, slots, pre, pk_dlog, com_b, data_len, difficulty, m, k) - (
        if j < k {
            1int
        } else {
            0int
        }),
    decreases k,
{
    if k > 0 {
        lemma_count_after_invalidation(
            params,
            slots,
            slots2,
            pre,
            pk_dlog,
            com_b,
            data_len,
            difficulty,
            m,
            j,
            (k - 1) as nat,
        );
    }
}

/// The half-threshold boundary: a proof with exactly half of its slots
/// valid is accepted, and replacing one more valid slot by its bare
/// Schnorr commitment (which keeps the prelude unchanged) tips it into
/// rejection.
pub proof fn lemma_half_threshold_tolerance(
    params: SetupParams,
    slots: Seq<FischIter>,
    pre: Seq<u64>,
    pk_dlog: nat,
    com_b: Seq<u8>,
    data_len: nat,
    difficulty: u32,
    m: nat,
    j: int,
)
    requires
        slots.len() % 2 == 0,
        2 * count_valid_upto(
            params,
            slots,
            pre,
            pk_dlog,
            com_b,
            data_len,
            difficulty,
            m,
            slots.len(),
        ) == slots.len(),
        0 <= j < slots.len(),
        slot_valid(params, slots[j], j as nat, pre, pk_dlog, com_b, data_len, difficulty, m),
    ensures
        proof_accepted(params, slots, pre, pk_dlog, com_b, data_len, difficulty, m),
        !proof_accepted(
            params,
            slots.update(j, FischIter::Commitment(slots[j]->BaseProof_0.schnorr.a)),
            pre,
            pk_dlog,
            com_b,
            data_len,
            difficulty,
            m,
        ),
        slots.update(j, FischIter::Commitment(slots[j]->BaseProof_0.schnorr.a)).map_values(
            |s: FischIter| s.a_bytes(),
        ) =~= slots.map_values(|s: FischIter| s.a_bytes()),
{
    let replaced = slots.update(j, FischIter::Commitment(slots[j]->BaseProof_0.schnorr.a));
    lemma_count_after_invalidation(
        params,
        slots,
        replaced,
        pre,
        pk_dlog,
        com_b,
        data_len,
        difficulty,
        m,
        j,
        slots.len(),
    );
}

} // verus!
