//! Bit manipulation and power-of-two helpers.

use vstd::prelude::*;

verus! {

/// Pointwise XOR of two word sequences of equal length.
pub open spec fn xor_words(x: Seq<u64>, y: Seq<u64>) -> Seq<u64> {
    Seq::new(x.len(), |i: int| x[i] ^ y[i])
}

/// Bitwise XOR of two word vectors.
pub fn bitxor(x: &Vec<u64>, y: &Vec<u64>) -> (r: Vec<u64>)
    requires
        x@.len() == y@.len(),
    ensures
        r@ =~= xor_words(x@, y@),
{
    let mut r: Vec<u64> = Vec::new();
    let mut i: usize = 0;
    while i < x.len()
        invariant
            x@.len() == y@.len(),
            i <= x@.len(),
            r@ =~= xor_words(x@, y@).take(i as int),
        decreases x@.len() - i,
    {
        r.push(x[i] ^ y[i]);
        assert(r@ =~= xor_words(x@, y@).take(i + 1));
        i = i + 1;
    }
    assert(r@ =~= xor_words(x@, y@));
    r
}

/// XOR by the same word sequence twice gives the original back.
pub proof fn lemma_xor_words_involutive(a: Seq<u64>, b: Seq<u64>)
    requires
        a.len() == b.len(),
    ensures
        xor_words(xor_words(a, b), b) =~= a,
{
    assert forall|i: int| 0 <= i < a.len() implies xor_words(xor_words(a, b), b)[i] == a[i] by {
        let x = a[i];
        let y = b[i];
        assert((x ^ y) ^ y == x) by (bit_vector);
    }
}

/// Whether `n` is a power of two.
pub open spec fn is_pow2(n: nat) -> bool
    decreases n,
{
    if n == 0 {
        false
    } else if n == 1 {
        true
    } else {
        n % 2 == 0 && is_pow2(n / 2)
    }
}

/// The base-two logarithm, rounded down.
pub open spec fn lg(n: nat) -> nat
    decreases n,
{
    if n <= 1 {
        0
    } else {
        1 + lg(n / 2)
    }
}

/// Two to the power `n`.
pub open spec fn pow2(n: nat) -> nat
    decreases n,
{
    if n == 0 {
        1
    } else {
        2 * pow2((n - 1) as nat)
    }
}

/// A power of two is two to its own logarithm.
pub proof fn lemma_pow2_lg(n: nat)
    requires
        is_pow2(n),
    ensures
        pow2(lg(n)) == n,
    decreases n,
{
    if n > 1 {
        lemma_pow2_lg(n / 2);
    }
}

pub proof fn lemma_lg_pow2(e: nat)
    ensures
        lg(pow2(e)) == e,
        is_pow2(pow2(e)),
        pow2(e) >= 1,
    decreases e,
{
    if e > 0 {
        lemma_lg_pow2((e - 1) as nat);
    }
}

/// Tests whether `n` is a power of two.
pub fn is_power_of_two_exec(n: usize) -> (r: bool)
    ensures
        r == is_pow2(n as nat),
{
    if n == 0 {
        return false;
    }
    let mut m: usize = n;
    while m > 1
        invariant
            m >= 1,
            is_pow2(n as nat) == is_pow2(m as nat),
        decreases m,
    {
        if m % 2 != 0 {
            return false;
        }
        m = m / 2;
    }
    true
}

/// The base-two logarithm, rounded down.
pub fn lg_exec(n: usize) -> (r: u32)
    requires
        n >= 1,
    ensures
        r == lg(n as nat),
        r < 64,
{
    let mut m: usize = n;
    let mut r: u32 = 0;
    proof {
        lemma_lg_bound(n as nat);
    }
    while m > 1
        invariant
            m >= 1,
            lg(n as nat) == r + lg(m as nat),
            r + lg(m as nat) < 64,
        decreases m,
    {
        m = m / 2;
        r = r + 1;
    }
    r
}

/// The logarithm of a `usize` power of two fits well below 64.
pub proof fn lemma_lg_bound(n: nat)
    ensures
        n >= 1 ==> pow2(lg(n)) <= n,
        n < 0x10000000000000000 ==> lg(n) < 64,
    decreases n,
{
    if n >= 2 {
        lemma_lg_bound(n / 2);
        assert(pow2(lg(n)) == 2 * pow2(lg(n / 2)));
    }
    if n < 0x10000000000000000 && n >= 1 {
        if lg(n) >= 64 {
            lemma_pow2_mono(64, lg(n));
            lemma_pow2_64();
        }
    }
}

pub proof fn lemma_pow2_mono(a: nat, b: nat)
    requires
        a <= b,
    ensures
        pow2(a) <= pow2(b),
    decreases b,
{
    if a < b {
        lemma_pow2_mono(a, (b - 1) as nat);
    }
}

pub proof fn lemma_pow2_64()
    ensures
        pow2(64) == 0x10000000000000000,
{
    reveal_with_fuel(pow2, 65);
}

} // verus!
