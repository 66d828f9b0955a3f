//! Morton (Z-order) codes and the sorted composite keys of the leaves.
use vstd::prelude::*;
use vstd::arithmetic::power2::{pow2, lemma_pow2_adds, lemma_pow2_strictly_increases, lemma2_to64, lemma2_to64_rest};
use vstd::bits::lemma_u64_shl_is_mul;
use crate::prefix::strictly_increasing;
use crate::bit_packing::{bits_needed, index_bits, lemma_index_bits_bound, lemma_index_bits_least};

verus! {

/// A triangle centroid quantized to the integer grid of the global box.
#[derive(Clone, Copy, Debug, PartialEq, Eq, Structural)]
pub struct Cell {
    pub x: u64,
    pub y: u64,
    pub z: u64,
}

/// Bits of each axis in the Morton code of a key for `n` leaves: what is left
/// of 64 bits after the index bits, split evenly over three axes.
pub open spec fn dim_bits(n: nat) -> nat {
    ((64 - index_bits(n)) / 3) as nat
}

/// The low `bits` bits of `x`, `y` and `z` interleaved: bit `i` of `x` lands
/// at bit `3i`, of `y` at `3i + 1`, of `z` at `3i + 2`.
pub open spec fn interleave(x: nat, y: nat, z: nat, bits: nat) -> nat
    decreases bits,
{
    if bits == 0 {
        0
    } else {
        x % 2 + 2 * (y % 2) + 4 * (z % 2) + 8 * interleave(x / 2, y / 2, z / 2, (bits - 1) as nat)
    }
}

/// The Morton code of a cell, in a key for `n` leaves.
pub open spec fn cell_code(c: Cell, n: nat) -> nat {
    interleave(c.x as nat, c.y as nat, c.z as nat, dim_bits(n))
}

/// The composite key of leaf `i` of `n`: the Morton code in the high bits and
/// the index in the low `index_bits(n)` bits.
pub open spec fn leaf_key(c: Cell, i: nat, n: nat) -> u64 {
    ((cell_code(c, n) as u64) << (index_bits(n) as u64)) | (i as u64)
}

/// The keys of all leaves, in input order.
pub open spec fn leaf_keys(cells: Seq<Cell>) -> Seq<u64> {
    Seq::new(cells.len(), |i: int| leaf_key(cells[i], i as nat, cells.len()))
}

/// The mask that recovers a leaf index from a key for `n` leaves.
pub open spec fn index_mask(n: nat) -> u64 {
    ((1u64 << (index_bits(n) as u64)) - 1) as u64
}

/// The interleaved code of `bits` bits per axis stays below `2^(3 bits)`.
pub proof fn lemma_interleave_bound(x: nat, y: nat, z: nat, bits: nat)
    ensures
        interleave(x, y, z, bits) < pow2(3 * bits),
    decreases bits,
{
    if bits == 0 {
        lemma2_to64();
    } else {
        lemma_interleave_bound(x / 2, y / 2, z / 2, (bits - 1) as nat);
        lemma_pow2_adds(3, 3 * (bits - 1) as nat);
        lemma2_to64();
        assert(3 + 3 * (bits - 1) == 3 * bits);
    }
}

/// Interleaves the low `bits` bits of the three coordinates into one code.
pub fn encode(x: u64, y: u64, z: u64, bits: u32) -> (code: u64)
    requires
        bits <= 21,
    ensures
        code as nat == interleave(x as nat, y as nat, z as nat, bits as nat),
    decreases bits,
{
    if bits == 0 {
        0
    } else {
        let high = encode(x / 2, y / 2, z / 2, bits - 1);
        proof {
            lemma_interleave_bound(x as nat / 2, y as nat / 2, z as nat / 2, (bits - 1) as nat);
            if 3 * (bits - 1) < 60 {
                lemma_pow2_strictly_increases(3 * (bits - 1) as nat, 60);
            }
            lemma2_to64_rest();
            assert(high < 0x1000_0000_0000_0000);
        }
        x % 2 + 2 * (y % 2) + 4 * (z % 2) + 8 * high
    }
}

/// The low index bits of a composite key give back the index.
pub proof fn lemma_key_index(code: u64, i: u64, b: u64)
    requires
        b < 64,
        i < (1u64 << b),
    ensures
        ((code << b) | i) & ((1u64 << b) - 1) as u64 == i,
{
    assert(((code << b) | i) & ((1u64 << b) - 1) as u64 == i) by (bit_vector)
        requires
            b < 64,
            i < (1u64 << b),
    ;
}

/// Each leaf index is below `2^index_bits(n)`, and the index mask recovers it
/// from the leaf's key.
pub proof fn lemma_leaf_key_index(c: Cell, i: nat, n: nat)
    requires
        i < n <= u32::MAX,
    ensures
        leaf_key(c, i, n) & index_mask(n) == i,
{
    let b = index_bits(n);
    lemma_index_bits_bound(n);
    lemma_index_bits_least(n);
    lemma2_to64();
    lemma_pow2_strictly_increases(b, 63);
    lemma_u64_shl_is_mul(1u64, b as u64);
    lemma_key_index(cell_code(c, n) as u64, i as u64, b as u64);
}

/// Keys of distinct leaves differ.
pub proof fn lemma_leaf_keys_distinct(cells: Seq<Cell>)
    requires
        cells.len() <= u32::MAX,
    ensures
        leaf_keys(cells).no_duplicates(),
{
    let n = cells.len();
    assert forall|p: int, q: int| 0 <= p < n && 0 <= q < n && p != q implies leaf_keys(cells)[p]
        != leaf_keys(cells)[q] by {
        lemma_leaf_key_index(cells[p], p as nat, n);
        lemma_leaf_key_index(cells[q], q as nat, n);
    }
}

/// Relies on `slice::sort`: the same values, in ascending order.
#[verifier::external_body]
fn sort_ascending(v: &mut Vec<u64>)
    ensures
        final(v)@.to_multiset() == old(v)@.to_multiset(),
        forall|p: int, q: int| 0 <= p < q < final(v)@.len() ==> final(v)@[p] <= final(v)@[q],
{
    v.sort();
}

/// The composite keys of all leaves, in ascending order. The key of leaf `i`
/// holds the Morton code of its cell above the index `i`, so no two are equal.
pub fn morton_sort(cells: &Vec<Cell>) -> (keys: Vec<u64>)
    requires
        cells@.len() <= u32::MAX,
    ensures
        keys@.len() == cells@.len(),
        keys@.to_multiset() == leaf_keys(cells@).to_multiset(),
        strictly_increasing(keys@),
{
    let n = cells.len();
    let b = bits_needed(n as u32);
    let bits_per_dimension: u32 = (64 - b) / 3;
    let mut keys: Vec<u64> = Vec::with_capacity(n);
    let mut i: usize = 0;
    while i < n
        invariant
            n == cells@.len() <= u32::MAX,
            b == index_bits(n as nat),
            b <= 32,
            bits_per_dimension == dim_bits(n as nat),
            i <= n,
            keys@ =~= leaf_keys(cells@).take(i as int),
        decreases n - i,
    {
        let c = cells[i];
        let code = encode(c.x, c.y, c.z, bits_per_dimension);
        keys.push((code << b) | (i as u64));
        i = i + 1;
    }
    assert(keys@ =~= leaf_keys(cells@));
    let ghost unsorted = keys@;
    sort_ascending(&mut keys);
    proof {
        lemma_leaf_keys_distinct(cells@);
        unsorted.lemma_multiset_has_no_duplicates();
        keys@.lemma_multiset_has_no_duplicates_conv();
        unsorted.to_multiset_ensures();
        keys@.to_multiset_ensures();
    }
    keys
}

/// `s` lists each index in `[0, n)` exactly once.
pub open spec fn is_index_permutation(s: Seq<u64>, n: nat) -> bool {
    &&& s.len() == n
    &&& forall|p: int| 0 <= p < n ==> #[trigger] s[p] < n
    &&& forall|p: int, q: int| 0 <= p < q < n ==> s[p] != s[q]
    &&& forall|i: u64| i < n ==> #[trigger] s.contains(i)
}

/// Each key with all but its low index bits masked off.
pub open spec fn masked(keys: Seq<u64>, mask: u64) -> Seq<u64> {
    keys.map_values(|k: u64| k & mask)
}

/// Masking the index bits off the sorted keys of `n` leaves yields every
/// index in `[0, n)` exactly once.
pub proof fn lemma_masked_keys_permutation(cells: Seq<Cell>, keys: Seq<u64>)
    requires
        cells.len() <= u32::MAX,
        keys.to_multiset() == leaf_keys(cells).to_multiset(),
        strictly_increasing(keys),
    ensures
        is_index_permutation(masked(keys, index_mask(cells.len())), cells.len()),
{
    let n = cells.len();
    let lk = leaf_keys(cells);
    let m = masked(keys, index_mask(n));
    keys.to_multiset_ensures();
    lk.to_multiset_ensures();
    assert forall|p: int| 0 <= p < n implies exists|i: int| 0 <= i < n && keys[p] == lk[i] && #[trigger] m[p] == i by {
        assert(keys.to_multiset().count(keys[p]) > 0);
        assert(lk.contains(keys[p]));
        let i = choose|i: int| 0 <= i < n && lk[i] == keys[p];
        lemma_leaf_key_index(cells[i], i as nat, n);
    }
    assert forall|p: int| 0 <= p < n implies #[trigger] m[p] < n by {
        let i = choose|i: int| 0 <= i < n && keys[p] == lk[i] && m[p] == i;
    }
    assert forall|p: int, q: int| 0 <= p < q < n implies m[p] != m[q] by {
        let i = choose|i: int| 0 <= i < n && keys[p] == lk[i] && m[p] == i;
        let j = choose|j: int| 0 <= j < n && keys[q] == lk[j] && m[q] == j;
    }
    assert forall|i: u64| i < n implies #[trigger] m.contains(i) by {
        lemma_leaf_key_index(cells[i as int], i as nat, n);
        assert(lk.to_multiset().count(lk[i as int]) > 0);
        assert(keys.contains(lk[i as int]));
        let p = choose|p: int| 0 <= p < n && keys[p] == lk[i as int];
        assert(m[p] == i);
    }
}

} // verus!
