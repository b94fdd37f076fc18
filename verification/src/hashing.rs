//! Transcript hashing.
//!
//! All three primitives run the SHA-512 compression function over one
//! 128-byte block.  The index derivation starts from the all-zero state;
//! the per-opening hash starts from the transcript prelude, which binds the
//! public key, the commitment and every Schnorr commitment `a_i`.
//! The compression function and the full digest are named, not restated:
//! the names pin the results down as functions of the inputs alone.

use vstd::prelude::*;
use vstd::std_specs::bits::{axiom_u64_trailing_zeros, u64_trailing_zeros};

use crate::field::{le_bytes_val, lemma_le_bytes_val_bound, pow256, Scalar};
use crate::group::Point;
use crate::schnorr::Schnorr;
use crate::util::{lg, lg_exec};

verus! {

/// What the SHA-512 compression function returns on one 128-byte block,
/// as a function of the eight-word state and the block alone.
pub uninterp spec fn sha512_compress(state: Seq<u64>, block: Seq<u8>) -> Seq<u64>;

/// What the full SHA-512 digest of a byte string is, as a function of the
/// string alone.
pub uninterp spec fn sha512_digest_bytes(input: Seq<u8>) -> Seq<u8>;

/// The 512-bit accumulator for the per-iteration proof-of-work hash.
pub type HashOutput = Vec<u64>;

/// The transcript prelude: the digest of `(pk, com, a_0, ..., a_n-1)`.
pub type Prelude = Vec<u64>;

/// Relies on `sha2::compress512`: one call of the SHA-512 compression
/// function on one 128-byte block; the result depends on the state and the
/// block alone.
#[verifier::external_body]
fn compress_block(state: &Vec<u64>, block: &Vec<u8>) -> (r: Vec<u64>)
    requires
        state@.len() == 8,
        block@.len() == 128,
    ensures
        r@ == sha512_compress(state@, block@),
        r@.len() == 8,
{
    let mut st: [u64; 8] = state.as_slice().try_into().unwrap();
    let arr: &sha2::digest::generic_array::GenericArray<u8, sha2::digest::consts::U128> =
        sha2::digest::generic_array::GenericArray::from_slice(block.as_slice());
    sha2::compress512(&mut st, &[*arr]);
    st.to_vec()
}

/// Relies on `sha2::Sha512` (`Digest::digest`): the 64-byte SHA-512 digest
/// of the input; it depends on the input alone.
#[verifier::external_body]
fn sha512_hash(input: &Vec<u8>) -> (r: Vec<u8>)
    ensures
        r@ == sha512_digest_bytes(input@),
        r@.len() == 64,
{
    let digest = <sha2::Sha512 as sha2::Digest>::digest(input.as_slice());
    digest.to_vec()
}

/// The little-endian bytes of a `u64`.
pub open spec fn u64_le(x: u64) -> Seq<u8> {
    seq![
        (x & 0xff) as u8,
        ((x >> 8) & 0xff) as u8,
        ((x >> 16) & 0xff) as u8,
        ((x >> 24) & 0xff) as u8,
        ((x >> 32) & 0xff) as u8,
        ((x >> 40) & 0xff) as u8,
        ((x >> 48) & 0xff) as u8,
        ((x >> 56) & 0xff) as u8,
    ]
}

/// The little-endian bytes of a `u32`.
pub open spec fn u32_le(x: u32) -> Seq<u8> {
    seq![(x & 0xff) as u8, ((x >> 8) & 0xff) as u8, ((x >> 16) & 0xff) as u8, ((x >> 24)
        & 0xff) as u8]
}

/// The little-endian bytes of a `u16`.
pub open spec fn u16_le(x: u16) -> Seq<u8> {
    seq![(x & 0xff) as u8, ((x >> 8) & 0xff) as u8]
}

/// `n` zero bytes.
pub open spec fn zero_bytes(n: nat) -> Seq<u8> {
    Seq::new(n, |i: int| 0u8)
}

/// The all-zero eight-word state.
pub open spec fn zero_state() -> Seq<u64> {
    Seq::new(8, |i: int| 0u64)
}

fn push_u64_le(out: &mut Vec<u8>, x: u64)
    ensures
        final(out)@ =~= old(out)@ + u64_le(x),
{
    out.push((x & 0xff) as u8);
    out.push(((x >> 8) & 0xff) as u8);
    out.push(((x >> 16) & 0xff) as u8);
    out.push(((x >> 24) & 0xff) as u8);
    out.push(((x >> 32) & 0xff) as u8);
    out.push(((x >> 40) & 0xff) as u8);
    out.push(((x >> 48) & 0xff) as u8);
    out.push(((x >> 56) & 0xff) as u8);
}

pub(crate) fn push_u32_le(out: &mut Vec<u8>, x: u32)
    ensures
        final(out)@ =~= old(out)@ + u32_le(x),
{
    out.push((x & 0xff) as u8);
    out.push(((x >> 8) & 0xff) as u8);
    out.push(((x >> 16) & 0xff) as u8);
    out.push(((x >> 24) & 0xff) as u8);
}

fn push_u16_le(out: &mut Vec<u8>, x: u16)
    ensures
        final(out)@ =~= old(out)@ + u16_le(x),
{
    out.push((x & 0xff) as u8);
    out.push(((x >> 8) & 0xff) as u8);
}

fn push_zeros(out: &mut Vec<u8>, n: usize)
    ensures
        final(out)@ =~= old(out)@ + zero_bytes(n as nat),
{
    let mut i: usize = 0;
    while i < n
        invariant
            i <= n,
            out@ =~= old(out)@ + zero_bytes(i as nat),
        decreases n - i,
    {
        out.push(0u8);
        assert(out@ =~= old(out)@ + zero_bytes((i + 1) as nat));
        i = i + 1;
    }
}

pub(crate) fn extend_bytes(out: &mut Vec<u8>, src: &Vec<u8>)
    ensures
        final(out)@ =~= old(out)@ + src@,
{
    let mut i: usize = 0;
    while i < src.len()
        invariant
            i <= src@.len(),
            out@ =~= old(out)@ + src@.take(i as int),
        decreases src@.len() - i,
    {
        out.push(src[i]);
        assert(out@ =~= old(out)@ + src@.take(i + 1));
        i = i + 1;
    }
    assert(src@.take(src@.len() as int) =~= src@);
}

/// The words of a byte string read as little-endian `u64`s.
pub open spec fn words_of(b: Seq<u8>) -> Seq<u64> {
    Seq::new(b.len() / 8, |i: int| (le_bytes_val(b.subrange(8 * i, 8 * i + 8)) % 0x10000000000000000) as u64)
}

/// Reads a byte vector as little-endian `u64` words.
fn words_from_le(b: &Vec<u8>) -> (r: Vec<u64>)
    requires
        b@.len() % 8 == 0,
    ensures
        r@ =~= words_of(b@),
{
    let mut r: Vec<u64> = Vec::new();
    let n = b.len() / 8;
    let mut i: usize = 0;
    while i < n
        invariant
            b@.len() % 8 == 0,
            b@.len() <= usize::MAX,
            n == b@.len() / 8,
            i <= n,
            r@ =~= words_of(b@).take(i as int),
        decreases n - i,
    {
        proof {
            assert(b@.len() == 8 * (b@.len() / 8));
            assert(8 * (i as int) + 8 <= b@.len());
        }
        let off = 8 * i;
        let mut w: u64 = 0;
        let mut j: usize = 8;
        while j > 0
            invariant
                off == 8 * i,
                i < n,
                n == b@.len() / 8,
                off + 8 <= b@.len(),
                j <= 8,
                w as nat == le_bytes_val(b@.subrange(off + j, off + 8)),
                (w as nat) < pow256((8 - j) as nat),
            decreases j,
        {
            proof {
                lemma_le_bytes_val_bound(b@.subrange(off + j - 1, off + 8));
                assert(b@.subrange(off + j - 1, off + 8).skip(1) =~= b@.subrange(
                    off + j,
                    off + 8,
                ));
                lemma_pow256_le_u64((8 - j) as nat);
                lemma_pow256_le_u64((9 - j) as nat);
                assert(pow256((9 - j) as nat) == 256 * pow256((8 - j) as nat));
                assert((w as nat) * 256 + 255 < 256 * pow256((8 - j) as nat))
                    by (nonlinear_arith)
                    requires
                        (w as nat) < pow256((8 - j) as nat),
                ;
            }
            j = j - 1;
            w = w * 256 + (b[off + j] as u64);
        }
        assert(b@.subrange(off as int, off + 8) =~= b@.subrange(off + 0, off + 8));
        proof {
            lemma_le_bytes_val_bound(b@.subrange(off as int, off + 8));
            lemma_pow256_le_u64(8);
            assert(words_of(b@)[i as int] == (le_bytes_val(b@.subrange(8 * i as int, 8 * i + 8))
                % 0x10000000000000000) as u64);
            vstd::arithmetic::div_mod::lemma_small_mod(
                le_bytes_val(b@.subrange(off as int, off + 8)),
                0x10000000000000000nat,
            );
        }
        r.push(w);
        assert(r@ =~= words_of(b@).take(i + 1));
        i = i + 1;
    }
    assert(words_of(b@).take(words_of(b@).len() as int) =~= words_of(b@));
    r
}

proof fn lemma_pow256_le_u64(n: nat)
    requires
        n <= 8,
    ensures
        pow256(n) <= 0x10000000000000000,
{
    reveal_with_fuel(pow256, 9);
}

/// The concatenation of a sequence of byte strings.
pub open spec fn concat_bytes(s: Seq<Seq<u8>>) -> Seq<u8>
    decreases s.len(),
{
    if s.len() == 0 {
        Seq::empty()
    } else {
        concat_bytes(s.drop_last()) + s.last()
    }
}

/// The transcript prelude: SHA-512 of `pk || com || a_0 || ... || a_n-1`,
/// read as eight little-endian words.
pub open spec fn prelude_spec(pk_b: Seq<u8>, com_b: Seq<u8>, a_bs: Seq<Seq<u8>>) -> Seq<u64> {
    words_of(sha512_digest_bytes(pk_b + com_b + concat_bytes(a_bs)))
}

/// Hashes the public key, the commitment and every Schnorr commitment into
/// the transcript prelude.
pub fn prelude(pk: &Point, com: &Point, a_i: &Vec<Point>) -> (r: Prelude)
    ensures
        r@ == prelude_spec(pk.b@, com.b@, a_i@.map_values(|p: Point| p.b@)),
        r@.len() == 8,
{
    let ghost a_bs = a_i@.map_values(|p: Point| p.b@);
    let mut buf = crate::field::copy_bytes(&pk.b);
    extend_bytes(&mut buf, &com.b);
    let mut i: usize = 0;
    while i < a_i.len()
        invariant
            i <= a_i@.len(),
            a_bs == a_i@.map_values(|p: Point| p.b@),
            buf@ =~= pk.b@ + com.b@ + concat_bytes(a_bs.take(i as int)),
        decreases a_i@.len() - i,
    {
        extend_bytes(&mut buf, &a_i[i].b);
        proof {
            assert(a_bs.take(i + 1).drop_last() =~= a_bs.take(i as int));
            assert(a_bs.take(i + 1).last() == a_i@[i as int].b@);
        }
        i = i + 1;
    }
    proof {
        assert(a_bs.take(a_bs.len() as int) =~= a_bs);
    }
    let digest = sha512_hash(&buf);
    words_from_le(&digest)
}

/// The all-zero accumulator.
pub fn zero_hash() -> (r: Vec<u64>)
    ensures
        r@ =~= zero_state(),
{
    let mut state: Vec<u64> = Vec::new();
    let mut i: usize = 0;
    while i < 8
        invariant
            i <= 8,
            state@ =~= zero_state().take(i as int),
        decreases 8 - i,
    {
        state.push(0u64);
        assert(state@ =~= zero_state().take(i + 1));
        i = i + 1;
    }
    assert(state@ =~= zero_state());
    state
}

/// The 128-byte block hashed by the index derivation: the iteration number
/// as a little-endian `u64`, the challenge as a little-endian `u32`
/// zero-padded to 32 bytes, then zeros.
pub open spec fn derive_block(fi: u64, c: u32) -> Seq<u8> {
    u64_le(fi) + u32_le(c) + zero_bytes(116)
}

/// The compression state after hashing the index-derivation block from the
/// all-zero initial state.
pub open spec fn derive_words(fi: u64, c: u32) -> Seq<u64> {
    sha512_compress(zero_state(), derive_block(fi, c))
}

/// The `k`-th 16-bit little-endian slice of an eight-word state.
pub open spec fn word16(w: Seq<u64>, k: int) -> u64 {
    (w[k / 4] >> ((16 * (k % 4)) as u64)) & 0xffff
}

/// The `m` challenged positions derived from `(fisch_iter, c)`: the state
/// words reinterpreted as 32 little-endian `u16`s, the first `m` of them
/// reduced modulo the data length.
pub open spec fn derive_indices_spec(fi: u64, c: u32, m: nat, data_len: nat) -> Seq<nat> {
    Seq::new(m, |k: int| (word16(derive_words(fi, c), k) as nat) % data_len)
}

/// Derives the `m` challenged positions for one candidate challenge.
/// Deterministic in `(fisch_iter, c, m, data_len)`.
pub fn derive_indices(fisch_iter: usize, c: u32, num_indices: usize, data_len: usize) -> (r: Vec<
    usize,
>)
    requires
        1 <= data_len <= 0x10000,
        num_indices <= 32,
        fisch_iter <= u64::MAX,
    ensures
        r@.len() == num_indices,
        forall|k: int|
            0 <= k < num_indices ==> r@[k] as nat == derive_indices_spec(
                fisch_iter as u64,
                c,
                num_indices as nat,
                data_len as nat,
            )[k],
        forall|k: int| 0 <= k < num_indices ==> r@[k] < data_len,
{
    let mut block: Vec<u8> = Vec::new();
    push_u64_le(&mut block, fisch_iter as u64);
    push_u32_le(&mut block, c);
    push_zeros(&mut block, 116);
    assert(block@ =~= derive_block(fisch_iter as u64, c));

    let state = zero_hash();
    let words = compress_block(&state, &block);

    let ghost dw = derive_words(fisch_iter as u64, c);
    let mut r: Vec<usize> = Vec::new();
    let mut k: usize = 0;
    while k < num_indices
        invariant
            k <= num_indices,
            num_indices <= 32,
            1 <= data_len <= 0x10000,
            words@ == dw,
            words@.len() == 8,
            r@.len() == k,
            forall|j: int|
                0 <= j < k ==> r@[j] as nat == (word16(dw, j) as nat) % (data_len as nat),
            forall|j: int| 0 <= j < k ==> r@[j] < data_len,
        decreases num_indices - k,
    {
        let w = words[k / 4];
        let sh: u64 = (16 * ((k % 4) as u64));
        let v: u64 = (w >> sh) & 0xffff;
        assert(v == word16(dw, k as int));
        assert(v <= 0xffff) by (bit_vector)
            requires
                v == (w >> sh) & 0xffff,
        ;
        let idx: usize = (v as usize) % data_len;
        r.push(idx);
        k = k + 1;
    }
    r
}

/// The 128-byte block hashed for one opening: the opening, the challenge
/// zero-padded to 32 bytes, the response, the first 8 bytes of the value,
/// the position `k`, the iteration number as a little-endian `u16`, zeros.
pub open spec fn ih_block(op_b: Seq<u8>, c: u32, z_b: Seq<u8>, val_b: Seq<u8>, k: u8, fi: u16) -> Seq<u8> {
    op_b + u32_le(c) + zero_bytes(28) + z_b + val_b.take(8) + seq![k] + u16_le(fi) + zero_bytes(5)
}

/// The per-opening hash: one compression call whose initial state is the
/// prelude, binding the whole transcript.
pub open spec fn individual_hash_spec(
    prelude: Seq<u64>,
    c: u32,
    z_b: Seq<u8>,
    fi: u16,
    k: u8,
    val_b: Seq<u8>,
    op_b: Seq<u8>,
) -> Seq<u64> {
    sha512_compress(prelude, ih_block(op_b, c, z_b, val_b, k, fi))
}

/// Hashes one opening into the proof-of-work accumulator.
pub fn individual_hash(
    prelude: &Prelude,
    schnorr: &Schnorr,
    fisch_iter: usize,
    k: u8,
    val: &Scalar,
    opening: &Point,
) -> (r: HashOutput)
    requires
        prelude@.len() == 8,
        fisch_iter < 0x10000,
        val.b@.len() == 32,
        opening.b@.len() == 48,
        schnorr.z.b@.len() == 32,
    ensures
        r@ == individual_hash_spec(
            prelude@,
            schnorr.c,
            schnorr.z.b@,
            fisch_iter as u16,
            k,
            val.b@,
            opening.b@,
        ),
        r@.len() == 8,
{
    let mut block: Vec<u8> = crate::field::copy_bytes(&opening.b);
    push_u32_le(&mut block, schnorr.c);
    push_zeros(&mut block, 28);
    extend_bytes(&mut block, &schnorr.z.b);
    let mut j: usize = 0;
    let ghost mid = opening.b@ + u32_le(schnorr.c) + zero_bytes(28) + schnorr.z.b@;
    while j < 8
        invariant
            j <= 8,
            val.b@.len() == 32,
            block@ =~= mid + val.b@.take(j as int),
        decreases 8 - j,
    {
        block.push(val.b[j]);
        assert(block@ =~= mid + val.b@.take(j + 1));
        j = j + 1;
    }
    block.push(k);
    push_u16_le(&mut block, fisch_iter as u16);
    push_zeros(&mut block, 5);
    assert(block@ =~= ih_block(
        opening.b@,
        schnorr.c,
        schnorr.z.b@,
        val.b@,
        k,
        fisch_iter as u16,
    ));
    compress_block(prelude, &block)
}

/// The proof-of-work test on the first accumulator word.
pub open spec fn pow_spec(h0: u64, difficulty: u32) -> bool {
    u64_trailing_zeros(h0) >= difficulty
}

/// Returns whether the accumulator's first word has at least `difficulty`
/// trailing zero bits.
pub fn pow_pass(hash_output: &HashOutput, difficulty: u32) -> (r: bool)
    requires
        difficulty <= 64,
        hash_output@.len() == 8,
    ensures
        r == pow_spec(hash_output@[0], difficulty),
{
    hash_output[0].trailing_zeros() >= difficulty
}

/// Every word passes at difficulty zero, and the zero word passes at every
/// difficulty up to 64.
pub proof fn lemma_pow_pass_edge(h0: u64, difficulty: u32)
    ensures
        pow_spec(h0, 0),
        difficulty <= 64 ==> pow_spec(0u64, difficulty),
{
    axiom_u64_trailing_zeros(h0);
    axiom_u64_trailing_zeros(0u64);
}

/// The default proof-of-work difficulty for a data size and an iteration
/// count: `5 + log2(chunks) - log2(nfisch)`.
pub fn difficulty(chunks: usize, nfisch: usize) -> (r: u32)
    requires
        chunks >= 1,
        nfisch >= 1,
        lg(nfisch as nat) <= 5 + lg(chunks as nat),
    ensures
        r as nat == 5 + lg(chunks as nat) - lg(nfisch as nat),
{
    let a = lg_exec(chunks);
    let b = lg_exec(nfisch);
    5 + a - b
}

} // verus!
