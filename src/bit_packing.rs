//! How many low bits a leaf index needs.
use vstd::prelude::*;
use vstd::arithmetic::power2::{pow2, lemma_pow2_unfold, lemma_pow2_strictly_increases, lemma2_to64};

verus! {

/// `ceil(log2(n))`, with `0` for `n <= 1`: halve (rounding up) until one is left.
pub open spec fn index_bits(n: nat) -> nat
    decreases n,
{
    if n <= 1 {
        0
    } else {
        1 + index_bits(((n + 1) / 2) as nat)
    }
}

/// `index_bits(n)` is the least `b` with `2^b >= n`.
pub proof fn lemma_index_bits_least(n: nat)
    ensures
        pow2(index_bits(n)) >= n,
        index_bits(n) == 0 || pow2((index_bits(n) - 1) as nat) < n,
    decreases n,
{
    if n <= 1 {
        lemma2_to64();
    } else {
        let m = ((n + 1) / 2) as nat;
        lemma_index_bits_least(m);
        lemma_pow2_unfold(index_bits(n));
        if index_bits(m) > 0 {
            lemma_pow2_unfold(index_bits(m));
        } else {
            lemma2_to64();
        }
    }
}

/// A leaf count that fits in 32 bits needs at most 32 index bits.
pub proof fn lemma_index_bits_bound(n: nat)
    requires
        n <= u32::MAX,
    ensures
        index_bits(n) <= 32,
{
    lemma_index_bits_least(n);
    lemma2_to64();
    if index_bits(n) > 33 {
        lemma_pow2_strictly_increases(32, (index_bits(n) - 1) as nat);
    }
}

/// Number of bits needed to tell `n` indices apart: the least `b` with `2^b >= n`.
pub fn bits_needed(n: u32) -> (b: u32)
    ensures
        b == index_bits(n as nat),
        pow2(b as nat) >= n,
        b == 0 || pow2((b - 1) as nat) < n,
        b <= 32,
{
    let mut m: u32 = n;
    let mut b: u32 = 0;
    proof {
        lemma_index_bits_bound(n as nat);
    }
    while m > 1
        invariant
            index_bits(n as nat) == b + index_bits(m as nat),
            index_bits(n as nat) <= 32,
        decreases m,
    {
        m = ((m as u64 + 1) / 2) as u32;
        b = b + 1;
    }
    proof {
        lemma_index_bits_least(n as nat);
    }
    b
}

} // verus!
