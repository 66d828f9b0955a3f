//! Radix-tree topology over sorted composite keys: for each internal node its
//! leaf range and split, derived from common-prefix lengths alone.
use vstd::prelude::*;
use vstd::set_lib::{set_int_range, lemma_int_range, lemma_subset_equality};
use vstd::arithmetic::power2::{pow2, lemma_pow2_adds, lemma_pow2_unfold, lemma2_to64};
use crate::prefix::{common_prefix, delta, strictly_increasing, lemma_common_prefix_bounds,
    lemma_common_prefix_order, lemma_common_prefix_ultrametric, lemma_delta_monotone,
    lemma_neighbours_differ};

verus! {

/// The direction in which internal node `i` grows: toward the neighbour that
/// shares the longer prefix with leaf `i`.
pub open spec fn direction(keys: Seq<u64>, i: int) -> int {
    if delta(keys, i, i + 1) > delta(keys, i, i - 1) {
        1
    } else {
        -1
    }
}

/// The prefix that leaf `i` shares with the neighbour it grows away from.
pub open spec fn min_prefix(keys: Seq<u64>, i: int) -> int {
    delta(keys, i, i - direction(keys, i))
}

/// The index `t` steps from `i` in direction `d`.
pub open spec fn toward(i: int, t: int, d: int) -> int {
    if d == 1 {
        i + t
    } else {
        i - t
    }
}

/// `[lo, hi]` is the leaf range of internal node `i`: it has `i` at one end and
/// reaches, in the node's direction, the farthest leaf whose prefix with leaf
/// `i` is longer than `min_prefix`.
pub open spec fn is_node_range(keys: Seq<u64>, i: int, lo: int, hi: int) -> bool {
    let d = direction(keys, i);
    let far = if d == 1 { hi } else { lo };
    &&& lo < hi
    &&& if d == 1 { lo == i } else { hi == i }
    &&& delta(keys, i, far) > min_prefix(keys, i)
    &&& delta(keys, i, far + d) <= min_prefix(keys, i)
}

/// `k` splits the range `[lo, hi]` of internal node `i`: the leaves from `i` up
/// to the split side share with leaf `i` more than the whole range does, the
/// first leaf past it does not.
pub open spec fn is_split(keys: Seq<u64>, i: int, lo: int, hi: int, k: int) -> bool {
    let d = direction(keys, i);
    let node_prefix = delta(keys, i, if d == 1 { hi } else { lo });
    &&& lo <= k < hi
    &&& if d == 1 {
        delta(keys, i, k) > node_prefix && delta(keys, i, k + 1) <= node_prefix
    } else {
        delta(keys, i, k + 1) > node_prefix && delta(keys, i, k) <= node_prefix
    }
}

/// The node that covers `[lo, k]`: leaf `k` if that is one leaf, else internal node `k`.
pub open spec fn left_child(lo: int, k: int, n: int) -> int {
    if lo == k {
        k
    } else {
        k + n
    }
}

/// The node that covers `[k + 1, hi]`: leaf `k + 1` if that is one leaf, else
/// internal node `k + 1`.
pub open spec fn right_child(hi: int, k: int, n: int) -> int {
    if hi == k + 1 {
        k + 1
    } else {
        k + 1 + n
    }
}

/// Holds sorted keys and one of them, and measures shared prefixes against it.
pub struct PrefixComparator<'a> {
    pub base: u64,
    pub codes: &'a Vec<u64>,
    pub n: i64,
}

impl<'a> PrefixComparator<'a> {
    /// The prefix length that `base` shares with `codes[i]`, or `-1` when `i`
    /// lies outside the codes.
    pub fn call(&self, i: i64) -> (r: i64)
        requires
            self.n == self.codes@.len() <= u32::MAX,
        ensures
            r == if 0 <= i < self.n {
                common_prefix(self.base, self.codes@[i as int])
            } else {
                -1
            },
    {
        if i >= 0 && i < self.n {
            let c = self.codes[i as usize];
            let x = self.base ^ c;
            let z = x.leading_zeros();
            proof {
                lemma_common_prefix_bounds(self.base, self.codes@[i as int]);
            }
            z as i64
        } else {
            -1
        }
    }
}

proof fn lemma_step(i: int, t: int, d: int)
    requires
        d == 1 || d == -1,
    ensures
        i + t * d == toward(i, t, d),
{
    assert(t * d == if d == 1 { t } else { -t }) by (nonlinear_arith)
        requires
            d == 1 || d == -1,
    ;
}

/// The leaf range `(lo, hi)` of internal node `i` and its split `k`.
#[verifier::rlimit(40)]
pub fn split_node(keys: &Vec<u64>, i: i64) -> (r: (i64, i64, i64))
    requires
        strictly_increasing(keys@),
        2 <= keys@.len() <= u32::MAX,
        0 <= i < keys@.len() - 1,
    ensures
        is_node_range(keys@, i as int, r.0 as int, r.1 as int),
        is_split(keys@, i as int, r.0 as int, r.1 as int, r.2 as int),
{
    let ghost ks = keys@;
    let n = keys.len() as i64;
    let cmp = PrefixComparator { base: keys[i as usize], codes: keys, n };
    let ghost ii = i as int;

    // Choose the search direction.
    let prefix_prev = cmp.call(i - 1);
    let prefix_next = cmp.call(i + 1);
    let prefix_min = if prefix_prev < prefix_next { prefix_prev } else { prefix_next };
    let d: i64 = if prefix_next > prefix_prev { 1 } else { -1 };
    proof {
        if i > 0 {
            lemma_neighbours_differ(ks, ii);
            lemma_common_prefix_bounds(ks[ii], ks[ii - 1]);
        }
        lemma_common_prefix_bounds(ks[ii], ks[ii + 1]);
        lemma_common_prefix_bounds(ks[ii], ks[ii]);
        assert(d == direction(ks, ii));
        assert(prefix_min == min_prefix(ks, ii));
        lemma_step(ii, 1, d as int);
        assert(delta(ks, ii, ii + 1 * d) > prefix_min);
        lemma_step(ii, 0, d as int);
    }

    // Find an upper bound for the length of the range.
    let mut l_max: i64 = 2;
    let ghost mut e: nat = 1;
    proof {
        lemma2_to64();
    }
    loop
        invariant
            cmp.n == n == ks.len() <= u32::MAX,
            cmp.codes@ == ks,
            cmp.base == ks[ii],
            strictly_increasing(ks),
            ii == i,
            0 <= i < n - 1,
            d == 1 || d == -1,
            -1 <= prefix_min < 64,
            2 <= l_max <= 4 * n,
            l_max == pow2(e),
            e >= 1,
        ensures
            delta(ks, ii, toward(ii, l_max as int, d as int)) <= prefix_min,
        decreases 4 * n - l_max,
    {
        proof {
            lemma_step(ii, l_max as int, d as int);
        }
        if !(cmp.call(i + l_max * d) > prefix_min) {
            break;
        }
        proof {
            lemma_pow2_adds(e, 2);
            lemma2_to64();
        }
        l_max = l_max * 4;
        proof {
            e = e + 2;
        }
    }
    proof {
        lemma_step(ii, l_max as int, d as int);
    }

    // Find the exact length by halving steps.
    let mut l: i64 = 0;
    let mut t: i64 = l_max / 2;
    let ghost mut et: nat = (e - 1) as nat;
    proof {
        lemma_pow2_unfold(e);
    }
    while t > 0
        invariant
            cmp.n == n == ks.len() <= u32::MAX,
            cmp.codes@ == ks,
            cmp.base == ks[ii],
            strictly_increasing(ks),
            ii == i,
            0 <= i < n - 1,
            d == 1 || d == -1,
            -1 <= prefix_min < 64,
            0 <= l < n,
            0 <= t <= 2 * n,
            t == 0 || t == pow2(et),
            delta(ks, ii, toward(ii, l as int, d as int)) > prefix_min,
            t > 0 ==> delta(ks, ii, toward(ii, l + 2 * t, d as int)) <= prefix_min,
            t == 0 ==> delta(ks, ii, toward(ii, l + 1, d as int)) <= prefix_min,
        decreases t,
    {
        proof {
            lemma_step(ii, l + t, d as int);
        }
        if cmp.call(i + (l + t) * d) > prefix_min {
            l = l + t;
        }
        proof {
            if et > 0 {
                lemma_pow2_unfold(et);
            } else {
                lemma2_to64();
            }
        }
        t = t / 2;
        proof {
            if et > 0 {
                et = (et - 1) as nat;
            }
        }
    }
    proof {
        lemma_step(ii, l as int, d as int);
        lemma_step(ii, 1, d as int);
    }
    let j = i + l * d;
    let prefix_node = cmp.call(j);
    proof {
        assert(l >= 1);
        lemma_common_prefix_bounds(ks[ii], ks[j as int]);
    }

    // Find the split position by halving steps.
    let mut s: i64 = 0;
    let mut t: i64 = l;
    loop
        invariant
            cmp.n == n == ks.len() <= u32::MAX,
            cmp.codes@ == ks,
            cmp.base == ks[ii],
            strictly_increasing(ks),
            ii == i,
            0 <= i < n - 1,
            d == 1 || d == -1,
            -1 <= prefix_min < 64,
            1 <= l < n,
            j == toward(ii, l as int, d as int),
            prefix_node == delta(ks, ii, j as int),
            1 <= t <= l,
            0 <= s < l,
            delta(ks, ii, toward(ii, s as int, d as int)) > prefix_node,
            delta(ks, ii, toward(ii, s + t, d as int)) <= prefix_node,
        ensures
            0 <= s < l,
            delta(ks, ii, toward(ii, s as int, d as int)) > prefix_node,
            delta(ks, ii, toward(ii, s + 1, d as int)) <= prefix_node,
        decreases t,
    {
        let ghost s0 = s;
        let ghost t0 = t;
        t = (t + 1) / 2;
        proof {
            lemma_step(ii, s + t, d as int);
        }
        if cmp.call(i + (s + t) * d) > prefix_node {
            s = s + t;
            proof {
                lemma_step(ii, s0 + t0, d as int);
                lemma_step(ii, s + t, d as int);
                lemma_delta_monotone(ks, ii, d as int, s0 + t0, s + t);
                lemma_step(ii, s as int, d as int);
                lemma_step(ii, l as int, d as int);
                if s >= l {
                    lemma_delta_monotone(ks, ii, d as int, l as int, s as int);
                }
            }
        }
        if t <= 1 {
            break;
        }
    }
    proof {
        lemma_step(ii, s as int, d as int);
        lemma_step(ii, s + 1, d as int);
    }
    let k = i + s * d + if d < 0 { d } else { 0 };
    let lo = if i < j { i } else { j };
    let hi = if i < j { j } else { i };
    (lo, hi, k)
}

/// For leaves `a < b < c`, the outer pair shares exactly the smaller of what the
/// inner pairs share, and the inner pairs never share equally much.
pub proof fn lemma_delta_triple(keys: Seq<u64>, a: int, b: int, c: int)
    requires
        strictly_increasing(keys),
        0 <= a < b < c < keys.len(),
    ensures
        delta(keys, a, c) == if delta(keys, a, b) < delta(keys, b, c) {
            delta(keys, a, b)
        } else {
            delta(keys, b, c)
        },
        delta(keys, a, b) != delta(keys, b, c),
        delta(keys, c, a) == delta(keys, a, c),
        delta(keys, b, a) == delta(keys, a, b),
        delta(keys, c, b) == delta(keys, b, c),
        0 <= delta(keys, a, c) < 64,
{
    lemma_common_prefix_order(keys[a], keys[b], keys[c]);
    lemma_common_prefix_ultrametric(keys[a], keys[b], keys[c]);
    lemma_common_prefix_bounds(keys[a], keys[b]);
    lemma_common_prefix_bounds(keys[b], keys[c]);
    lemma_common_prefix_bounds(keys[a], keys[c]);
}

proof fn lemma_delta_pair(keys: Seq<u64>, a: int, b: int)
    requires
        strictly_increasing(keys),
        0 <= a < b < keys.len(),
    ensures
        delta(keys, b, a) == delta(keys, a, b),
        0 <= delta(keys, a, b) < 64,
{
    lemma_common_prefix_bounds(keys[a], keys[b]);
}

/// A node's range is fixed by its characterization.
pub proof fn lemma_node_range_unique(keys: Seq<u64>, i: int, lo1: int, hi1: int, lo2: int, hi2: int)
    requires
        strictly_increasing(keys),
        0 <= i < keys.len(),
        is_node_range(keys, i, lo1, hi1),
        is_node_range(keys, i, lo2, hi2),
    ensures
        lo1 == lo2 && hi1 == hi2,
{
    let d = direction(keys, i);
    let f1 = if d == 1 { hi1 } else { lo1 };
    let f2 = if d == 1 { hi2 } else { lo2 };
    let t1 = if d == 1 { f1 - i } else { i - f1 };
    let t2 = if d == 1 { f2 - i } else { i - f2 };
    lemma_step(i, t1 + 1, d);
    lemma_step(i, t2 + 1, d);
    lemma_step(i, t1, d);
    lemma_step(i, t2, d);
    if t1 < t2 {
        lemma_delta_monotone(keys, i, d, t1 + 1, t2);
    } else if t2 < t1 {
        lemma_delta_monotone(keys, i, d, t2 + 1, t1);
    }
}

/// The nodes that internal node `i` splits into at `k` have the ranges
/// `[lo, k]` and `[k + 1, hi]`: where such a part holds more than one leaf, it
/// is the range of the internal node with the same index as its split end.
pub proof fn lemma_child_ranges(keys: Seq<u64>, i: int, lo: int, hi: int, k: int)
    requires
        strictly_increasing(keys),
        2 <= keys.len(),
        0 <= i < keys.len() - 1,
        is_node_range(keys, i, lo, hi),
        is_split(keys, i, lo, hi, k),
    ensures
        lo < k ==> is_node_range(keys, k, lo, k),
        k + 1 < hi ==> is_node_range(keys, k + 1, k + 1, hi),
{
    let n = keys.len() as int;
    let d = direction(keys, i);
    if d == 1 {
        let j = hi;
        let np = delta(keys, i, j);
        assert(lo == i);
        lemma_delta_pair(keys, i, j);
        lemma_step(i, 1, 1);
        lemma_step(i, j - i, 1);
        lemma_step(i, j - i + 1, 1);
        // the prefix drops to np between k and k + 1
        if k + 1 < j {
            lemma_delta_triple(keys, i, k + 1, j);
        }
        if i < k {
            lemma_delta_triple(keys, i, k, k + 1);
        } else {
            lemma_delta_pair(keys, i, i + 1);
        }
        assert(delta(keys, i, k + 1) == np);
        assert(delta(keys, k, k + 1) == np);
        if i < k {
            // internal node k grows left over [i, k]
            if i < k - 1 {
                lemma_delta_triple(keys, i, k - 1, k);
            }
            lemma_delta_pair(keys, k - 1, k);
            lemma_delta_pair(keys, k, k + 1);
            assert(direction(keys, k) == -1);
            assert(min_prefix(keys, k) == np);
            lemma_delta_pair(keys, i, k);
            lemma_step(k, k - i, -1);
            lemma_step(k, k - i + 1, -1);
            if i > 0 {
                lemma_delta_triple(keys, i - 1, i, k);
                lemma_step(i, 1, -1);
            }
        }
        if k + 1 < j {
            // internal node k + 1 grows right over [k + 1, j]
            if k + 2 < j {
                lemma_delta_triple(keys, k + 1, k + 2, j);
            }
            lemma_delta_pair(keys, k + 1, k + 2);
            lemma_delta_pair(keys, k, k + 1);
            assert(delta(keys, k + 1, j) > np);
            assert(direction(keys, k + 1) == 1);
            assert(min_prefix(keys, k + 1) == np);
            lemma_step(k + 1, j - k - 1, 1);
            lemma_step(k + 1, j - k, 1);
            if j + 1 < n {
                lemma_delta_triple(keys, i, k + 1, j + 1);
                if i > 0 {
                    lemma_step(i, 1, -1);
                }
            }
        }
    } else {
        let j = lo;
        let np = delta(keys, i, j);
        assert(hi == i);
        lemma_delta_pair(keys, j, i);
        lemma_step(i, 1, -1);
        lemma_step(i, i - j, -1);
        lemma_step(i, i - j + 1, -1);
        lemma_delta_pair(keys, i, i + 1);
        // the prefix drops to np between k and k + 1
        if j < k {
            lemma_delta_triple(keys, j, k, i);
        }
        if k + 1 < i {
            lemma_delta_triple(keys, k, k + 1, i);
        } else {
            lemma_delta_pair(keys, k, i);
        }
        assert(delta(keys, i, k) == np);
        assert(delta(keys, k, k + 1) == np);
        if k + 1 < i {
            // internal node k + 1 grows right over [k + 1, i]
            if k + 2 < i {
                lemma_delta_triple(keys, k + 1, k + 2, i);
            }
            lemma_delta_pair(keys, k + 1, k + 2);
            lemma_delta_pair(keys, k, k + 1);
            lemma_delta_pair(keys, k + 1, i);
            assert(direction(keys, k + 1) == 1);
            assert(min_prefix(keys, k + 1) == np);
            lemma_step(k + 1, i - k - 1, 1);
            lemma_step(k + 1, i - k, 1);
            lemma_delta_triple(keys, k + 1, i, i + 1);
        }
        if j < k {
            // internal node k grows left over [j, k]
            if j < k - 1 {
                lemma_delta_triple(keys, j, k - 1, k);
            }
            lemma_delta_pair(keys, k - 1, k);
            lemma_delta_pair(keys, k, k + 1);
            assert(delta(keys, j, k) > np);
            assert(direction(keys, k) == -1);
            assert(min_prefix(keys, k) == np);
            lemma_step(k, k - j, -1);
            lemma_step(k, k - j + 1, -1);
            if j > 0 {
                lemma_delta_triple(keys, j - 1, k, i);
                lemma_step(i, i - j + 1, -1);
            }
        }
    }
}

/// Internal node `i` has the range `[lo, hi]` and splits it at `k`.
pub open spec fn node_split(keys: Seq<u64>, i: int, lo: int, hi: int, k: int) -> bool {
    &&& 0 <= i < keys.len() - 1
    &&& is_node_range(keys, i, lo, hi)
    &&& is_split(keys, i, lo, hi, k)
}

/// Adjacent leaves inside a range share at least what the whole range shares.
proof fn lemma_interior(keys: Seq<u64>, lo: int, hi: int, x: int)
    requires
        strictly_increasing(keys),
        0 <= lo <= x < hi < keys.len(),
    ensures
        delta(keys, x, x + 1) >= delta(keys, lo, hi),
{
    if x + 1 < hi {
        lemma_delta_triple(keys, lo, x + 1, hi);
    }
    if lo < x {
        lemma_delta_triple(keys, lo, x, x + 1);
    }
}

/// The prefix shared by a node's range is the one its split drops to, and
/// the leaves just outside the range share less.
proof fn lemma_node_bounds(keys: Seq<u64>, i: int, lo: int, hi: int, k: int)
    requires
        strictly_increasing(keys),
        node_split(keys, i, lo, hi, k),
    ensures
        0 <= lo <= k < hi < keys.len(),
        delta(keys, lo, hi) == delta(keys, k, k + 1),
        lo > 0 ==> delta(keys, lo - 1, lo) < delta(keys, k, k + 1),
        hi < keys.len() - 1 ==> delta(keys, hi, hi + 1) < delta(keys, k, k + 1),
{
    let n = keys.len() as int;
    let d = direction(keys, i);
    lemma_delta_pair(keys, lo, hi);
    if d == 1 {
        let j = hi;
        lemma_step(i, 1, 1);
        lemma_step(i, j - i, 1);
        lemma_step(i, j - i + 1, 1);
        if k + 1 < j {
            lemma_delta_triple(keys, i, k + 1, j);
        }
        if i < k {
            lemma_delta_triple(keys, i, k, k + 1);
        } else {
            lemma_delta_pair(keys, i, i + 1);
        }
        if i > 0 {
            lemma_step(i, 1, -1);
            lemma_delta_pair(keys, i - 1, i);
        }
        if j + 1 < n {
            lemma_delta_triple(keys, i, j, j + 1);
        }
    } else {
        let j = lo;
        lemma_step(i, 1, -1);
        lemma_step(i, i - j, -1);
        lemma_step(i, i - j + 1, -1);
        lemma_delta_pair(keys, i, i + 1);
        if j < k {
            lemma_delta_triple(keys, j, k, i);
        }
        if k + 1 < i {
            lemma_delta_triple(keys, k, k + 1, i);
        } else {
            lemma_delta_pair(keys, k, i);
        }
        if j > 0 {
            lemma_delta_triple(keys, j - 1, j, i);
        }
    }
}

/// No two internal nodes have the same range.
proof fn lemma_same_range(keys: Seq<u64>, i1: int, i2: int, lo: int, hi: int)
    requires
        strictly_increasing(keys),
        0 <= i1 < keys.len() - 1,
        0 <= i2 < keys.len() - 1,
        is_node_range(keys, i1, lo, hi),
        is_node_range(keys, i2, lo, hi),
    ensures
        i1 == i2,
{
    if i1 != i2 {
        let a = if i1 == lo { i1 } else { i2 };
        let b = if i1 == lo { i2 } else { i1 };
        assert(a == lo && b == hi);
        assert(direction(keys, a) == 1);
        assert(direction(keys, b) == -1);
        lemma_step(a, hi - a, 1);
        lemma_step(a, hi - a + 1, 1);
        lemma_step(a, 1, -1);
        lemma_step(b, b - lo, -1);
        lemma_step(b, b - lo + 1, -1);
        lemma_step(b, 1, 1);
        lemma_delta_pair(keys, hi, hi + 1);
        lemma_delta_triple(keys, lo, hi, hi + 1);
        if lo > 0 {
            lemma_delta_triple(keys, lo - 1, lo, hi);
            lemma_delta_triple(keys, lo - 1, hi, hi + 1);
        }
    }
}

/// Two internal nodes whose left parts are the same range are the same node.
proof fn lemma_same_left_part(keys: Seq<u64>, i1: int, hi1: int, i2: int, hi2: int, lo: int, k: int)
    requires
        strictly_increasing(keys),
        node_split(keys, i1, lo, hi1, k),
        node_split(keys, i2, lo, hi2, k),
    ensures
        i1 == i2,
{
    lemma_node_bounds(keys, i1, lo, hi1, k);
    lemma_node_bounds(keys, i2, lo, hi2, k);
    if hi1 < hi2 {
        lemma_interior(keys, lo, hi2, hi1);
    } else if hi2 < hi1 {
        lemma_interior(keys, lo, hi1, hi2);
    }
    lemma_same_range(keys, i1, i2, lo, hi1);
}

/// Two internal nodes whose right parts are the same range are the same node.
proof fn lemma_same_right_part(keys: Seq<u64>, i1: int, lo1: int, i2: int, lo2: int, hi: int, k: int)
    requires
        strictly_increasing(keys),
        node_split(keys, i1, lo1, hi, k),
        node_split(keys, i2, lo2, hi, k),
    ensures
        i1 == i2,
{
    lemma_node_bounds(keys, i1, lo1, hi, k);
    lemma_node_bounds(keys, i2, lo2, hi, k);
    if lo1 < lo2 {
        lemma_interior(keys, lo1, hi, lo2 - 1);
    } else if lo2 < lo1 {
        lemma_interior(keys, lo2, hi, lo1 - 1);
    }
    lemma_same_range(keys, i1, i2, lo1, hi);
}

/// No range is the left part of one internal node and the right part of another.
proof fn lemma_left_part_not_right(keys: Seq<u64>, i1: int, lo1: int, hi1: int, k1: int, i2: int, lo2: int, hi2: int, k2: int)
    requires
        strictly_increasing(keys),
        node_split(keys, i1, lo1, hi1, k1),
        node_split(keys, i2, lo2, hi2, k2),
    ensures
        !(lo1 == k2 + 1 && k1 == hi2),
{
    lemma_node_bounds(keys, i1, lo1, hi1, k1);
    lemma_node_bounds(keys, i2, lo2, hi2, k2);
}

/// Distinct internal nodes split into distinct nodes.
pub proof fn lemma_children_disjoint(
    keys: Seq<u64>,
    i1: int,
    lo1: int,
    hi1: int,
    k1: int,
    i2: int,
    lo2: int,
    hi2: int,
    k2: int,
)
    requires
        strictly_increasing(keys),
        node_split(keys, i1, lo1, hi1, k1),
        node_split(keys, i2, lo2, hi2, k2),
        i1 != i2,
    ensures
        left_child(lo1, k1, keys.len() as int) != left_child(lo2, k2, keys.len() as int),
        left_child(lo1, k1, keys.len() as int) != right_child(hi2, k2, keys.len() as int),
        right_child(hi1, k1, keys.len() as int) != left_child(lo2, k2, keys.len() as int),
        right_child(hi1, k1, keys.len() as int) != right_child(hi2, k2, keys.len() as int),
{
    let n = keys.len() as int;
    lemma_node_bounds(keys, i1, lo1, hi1, k1);
    lemma_node_bounds(keys, i2, lo2, hi2, k2);
    lemma_child_ranges(keys, i1, lo1, hi1, k1);
    lemma_child_ranges(keys, i2, lo2, hi2, k2);
    if left_child(lo1, k1, n) == left_child(lo2, k2, n) {
        if lo1 < k1 {
            lemma_node_range_unique(keys, k1, lo1, k1, lo2, k2);
        }
        lemma_same_left_part(keys, i1, hi1, i2, hi2, lo1, k1);
    }
    if left_child(lo1, k1, n) == right_child(hi2, k2, n) {
        if lo1 < k1 {
            lemma_node_range_unique(keys, k1, lo1, k1, k2 + 1, hi2);
        }
        lemma_left_part_not_right(keys, i1, lo1, hi1, k1, i2, lo2, hi2, k2);
    }
    if right_child(hi1, k1, n) == left_child(lo2, k2, n) {
        if lo2 < k2 {
            lemma_node_range_unique(keys, k2, lo2, k2, k1 + 1, hi1);
        }
        lemma_left_part_not_right(keys, i2, lo2, hi2, k2, i1, lo1, hi1, k1);
    }
    if right_child(hi1, k1, n) == right_child(hi2, k2, n) {
        if k1 + 1 < hi1 {
            lemma_node_range_unique(keys, k1 + 1, k1 + 1, hi1, k2 + 1, hi2);
        }
        lemma_same_right_part(keys, i1, lo1, i2, lo2, hi1, k1);
    }
}

/// A node's split point is fixed by its characterization.
pub proof fn lemma_split_unique(keys: Seq<u64>, i: int, lo: int, hi: int, k1: int, k2: int)
    requires
        strictly_increasing(keys),
        node_split(keys, i, lo, hi, k1),
        is_split(keys, i, lo, hi, k2),
    ensures
        k1 == k2,
{
    let d = direction(keys, i);
    if d == 1 {
        lemma_step(i, k1 - i + 1, 1);
        lemma_step(i, k2 - i + 1, 1);
        lemma_step(i, k1 - i, 1);
        lemma_step(i, k2 - i, 1);
        if k1 < k2 {
            lemma_delta_monotone(keys, i, 1, k1 - i + 1, k2 - i);
        } else if k2 < k1 {
            lemma_delta_monotone(keys, i, 1, k2 - i + 1, k1 - i);
        }
    } else {
        lemma_step(i, i - k1 - 1, -1);
        lemma_step(i, i - k2 - 1, -1);
        lemma_step(i, i - k1, -1);
        lemma_step(i, i - k2, -1);
        if k1 < k2 {
            lemma_delta_monotone(keys, i, -1, i - k2, i - k1 - 1);
        } else if k2 < k1 {
            lemma_delta_monotone(keys, i, -1, i - k1, i - k2 - 1);
        }
    }
}

/// Recording internal node `i`, split at `k`, keeps the links of the nodes
/// recorded before it.
proof fn lemma_links_extend(
    keys: Seq<u64>,
    ranges0: Seq<Span>,
    parents0: Seq<usize>,
    siblings0: Seq<usize>,
    ranges: Seq<Span>,
    parents: Seq<usize>,
    siblings: Seq<usize>,
    i: int,
    lo: int,
    hi: int,
    k: int,
)
    requires
        strictly_increasing(keys),
        2 <= keys.len() <= MAX_LEAVES,
        node_split(keys, i, lo, hi, k),
        ranges0.len() == 2 * keys.len() - 1,
        parents0.len() == 2 * keys.len() - 1,
        siblings0.len() == 2 * keys.len() - 1,
        forall|j: int|
            0 <= j < i ==> is_node_range(keys, j, #[trigger] ranges0[keys.len() + j].lo as int, ranges0[keys.len() + j].hi as int),
        forall|j: int| 0 <= j < i ==> #[trigger] has_split(keys, ranges0, j),
        forall|j: int| 0 <= j < i ==> #[trigger] links_ok(keys, ranges0, parents0, siblings0, j),
        ranges == ranges0.update(keys.len() + i, (Span { lo: lo as usize, hi: hi as usize })),
        parents == parents0.update(left_child(lo, k, keys.len() as int), (keys.len() + i) as usize).update(
            right_child(hi, k, keys.len() as int),
            (keys.len() + i) as usize,
        ),
        siblings == siblings0.update(
            left_child(lo, k, keys.len() as int),
            right_child(hi, k, keys.len() as int) as usize,
        ).update(right_child(hi, k, keys.len() as int), left_child(lo, k, keys.len() as int) as usize),
    ensures
        forall|j: int| 0 <= j < i + 1 ==> #[trigger] links_ok(keys, ranges, parents, siblings, j),
{
    let n = keys.len() as int;
    lemma_node_bounds(keys, i, lo, hi, k);
    assert(ranges[n + i] == (Span { lo: lo as usize, hi: hi as usize }));
    assert(is_split(keys, i, ranges[n + i].lo as int, ranges[n + i].hi as int, k));
    lemma_split_unique(keys, i, lo, hi, k, split_of(keys, ranges, i));
    assert(links_ok(keys, ranges, parents, siblings, i));
    assert forall|j: int| 0 <= j < i + 1 implies #[trigger] links_ok(keys, ranges, parents, siblings, j) by {
        if j < i {
            assert(ranges[n + j] == ranges0[n + j]);
            assert(has_split(keys, ranges0, j));
            assert(links_ok(keys, ranges0, parents0, siblings0, j));
            let kj = split_of(keys, ranges0, j);
            assert(split_of(keys, ranges, j) == kj);
            assert(is_node_range(keys, j, ranges0[n + j].lo as int, ranges0[n + j].hi as int));
            lemma_children_disjoint(
                keys,
                j,
                ranges0[n + j].lo as int,
                ranges0[n + j].hi as int,
                kj,
                i,
                lo,
                hi,
                k,
            );
        }
    }
}

/// The most leaves a tree may have: its `2n - 1` node indices then fit in 32 bits.
pub const MAX_LEAVES: usize = 0x7fff_ffff;

/// Leaf range `[lo, hi]` of a node: `[x, x]` for leaf `x`.
#[derive(Clone, Copy, Debug, PartialEq, Eq, Structural)]
pub struct Span {
    pub lo: usize,
    pub hi: usize,
}

/// Internal node `i` of the topology has a split point in its range.
pub open spec fn has_split(keys: Seq<u64>, ranges: Seq<Span>, i: int) -> bool {
    let node = ranges[keys.len() + i];
    exists|k: int| #[trigger] is_split(keys, i, node.lo as int, node.hi as int, k)
}

/// The split point of internal node `i` in the topology.
pub open spec fn split_of(keys: Seq<u64>, ranges: Seq<Span>, i: int) -> int {
    let node = ranges[keys.len() + i];
    choose|k: int| #[trigger] is_split(keys, i, node.lo as int, node.hi as int, k)
}

/// The node that covers the left part of internal node `i`.
pub open spec fn left_of(keys: Seq<u64>, ranges: Seq<Span>, i: int) -> int {
    left_child(ranges[keys.len() + i].lo as int, split_of(keys, ranges, i), keys.len() as int)
}

/// The node that covers the right part of internal node `i`.
pub open spec fn right_of(keys: Seq<u64>, ranges: Seq<Span>, i: int) -> int {
    right_child(ranges[keys.len() + i].hi as int, split_of(keys, ranges, i), keys.len() as int)
}

/// The two parts of internal node `i` name it as their parent and each other
/// as siblings.
pub open spec fn links_ok(
    keys: Seq<u64>,
    ranges: Seq<Span>,
    parents: Seq<usize>,
    siblings: Seq<usize>,
    i: int,
) -> bool {
    let n = keys.len() as int;
    let l = left_of(keys, ranges, i);
    let r = right_of(keys, ranges, i);
    &&& parents[l] == n + i
    &&& parents[r] == n + i
    &&& siblings[l] == r
    &&& siblings[r] == l
}

/// The root: the first internal node, or the single leaf when there is one.
pub open spec fn root_node(n: int) -> int {
    if n > 1 {
        n
    } else {
        0
    }
}

/// The topology arrays over `n` sorted keys, indexed by node: leaves `[0, n)`,
/// internal nodes `[n, 2n - 1)`.
pub open spec fn is_topology(
    keys: Seq<u64>,
    ranges: Seq<Span>,
    parents: Seq<usize>,
    siblings: Seq<usize>,
) -> bool {
    let n = keys.len() as int;
    &&& ranges.len() == 2 * n - 1
    &&& parents.len() == 2 * n - 1
    &&& siblings.len() == 2 * n - 1
    &&& forall|x: int| 0 <= x < n ==> #[trigger] ranges[x] == (Span { lo: x as usize, hi: x as usize })
    &&& forall|i: int|
        0 <= i < n - 1 ==> is_node_range(keys, i, #[trigger] ranges[n + i].lo as int, ranges[n + i].hi as int)
    &&& forall|i: int| 0 <= i < n - 1 ==> #[trigger] has_split(keys, ranges, i)
    &&& forall|i: int| 0 <= i < n - 1 ==> #[trigger] links_ok(keys, ranges, parents, siblings, i)
    &&& forall|x: int| 0 <= x < 2 * n - 1 ==> #[trigger] parents[x] < 2 * n - 1
    &&& forall|x: int| 0 <= x < 2 * n - 1 ==> #[trigger] siblings[x] < 2 * n - 1
    &&& parents[root_node(n)] == root_node(n)
}

/// The radix tree over sorted keys: each internal node's leaf range, and the
/// parent and sibling of each node it splits into. The root is its own parent.
pub fn build_radix_tree(keys: &Vec<u64>) -> (r: (Vec<Span>, Vec<usize>, Vec<usize>))
    requires
        strictly_increasing(keys@),
        1 <= keys@.len() <= MAX_LEAVES,
    ensures
        is_topology(keys@, r.0@, r.1@, r.2@),
{
    let n = keys.len();
    let mut ranges: Vec<Span> = Vec::with_capacity(2 * n - 1);
    let mut parents: Vec<usize> = Vec::with_capacity(2 * n - 1);
    let mut siblings: Vec<usize> = Vec::with_capacity(2 * n - 1);
    let mut x: usize = 0;
    while x < 2 * n - 1
        invariant
            n == keys@.len() <= MAX_LEAVES,
            1 <= n,
            x <= 2 * n - 1,
            ranges@.len() == x,
            parents@.len() == x,
            siblings@.len() == x,
            forall|y: int| 0 <= y < x && y < n ==> #[trigger] ranges@[y] == (Span { lo: y as usize, hi: y as usize }),
            forall|y: int| 0 <= y < x ==> #[trigger] parents@[y] == 0,
            forall|y: int| 0 <= y < x ==> #[trigger] siblings@[y] == 0,
        decreases 2 * n - 1 - x,
    {
        if x < n {
            ranges.push(Span { lo: x, hi: x });
        } else {
            ranges.push(Span { lo: 0, hi: 0 });
        }
        parents.push(0);
        siblings.push(0);
        x = x + 1;
    }
    let root: usize = if n > 1 { n } else { 0 };
    parents.set(root, root);

    let mut i: usize = 0;
    while i + 1 < n
        invariant
            strictly_increasing(keys@),
            n == keys@.len() <= MAX_LEAVES,
            1 <= n,
            i <= n,
            n > 1 ==> i < n,
            root == root_node(n as int),
            ranges@.len() == 2 * n - 1,
            parents@.len() == 2 * n - 1,
            siblings@.len() == 2 * n - 1,
            forall|y: int| 0 <= y < n ==> #[trigger] ranges@[y] == (Span { lo: y as usize, hi: y as usize }),
            forall|j: int|
                0 <= j < i ==> is_node_range(keys@, j, #[trigger] ranges@[n + j].lo as int, ranges@[n + j].hi as int),
            forall|j: int| 0 <= j < i ==> #[trigger] has_split(keys@, ranges@, j),
            forall|j: int| 0 <= j < i ==> #[trigger] links_ok(keys@, ranges@, parents@, siblings@, j),
            forall|y: int| 0 <= y < 2 * n - 1 ==> #[trigger] parents@[y] < 2 * n - 1,
            forall|y: int| 0 <= y < 2 * n - 1 ==> #[trigger] siblings@[y] < 2 * n - 1,
            parents@[root as int] == root,
        decreases n - i,
    {
        let ghost ranges0 = ranges@;
        let ghost parents0 = parents@;
        let ghost siblings0 = siblings@;
        let (lo, hi, k) = split_node(keys, i as i64);
        let lo = lo as usize;
        let hi = hi as usize;
        let k = k as usize;
        let left = if lo == k { k } else { k + n };
        let right = if hi == k + 1 { k + 1 } else { k + 1 + n };
        parents.set(left, i + n);
        parents.set(right, i + n);
        siblings.set(left, right);
        siblings.set(right, left);
        ranges.set(i + n, Span { lo, hi });
        assert(is_split(keys@, i as int, ranges@[n + i].lo as int, ranges@[n + i].hi as int, k as int));
        assert forall|j: int| 0 <= j < i + 1 implies #[trigger] has_split(keys@, ranges@, j) by {
            if j < i {
                assert(ranges@[n + j] == ranges0[n + j]);
                assert(has_split(keys@, ranges0, j));
                let kk = choose|kk: int| #[trigger] is_split(keys@, j, ranges0[n + j].lo as int, ranges0[n + j].hi as int, kk);
                assert(is_split(keys@, j, ranges@[n + j].lo as int, ranges@[n + j].hi as int, kk));
            } else {
                assert(is_split(keys@, j, ranges@[n + j].lo as int, ranges@[n + j].hi as int, k as int));
            }
        }
        proof {
            lemma_links_extend(keys@, ranges0, parents0, siblings0, ranges@, parents@, siblings@, i as int, lo as int, hi as int, k as int);
        }
        i = i + 1;
    }
    (ranges, parents, siblings)
}

/// Internal node `i` splits at `k`, and the nodes on the two sides of the
/// split have ranges that meet at `k` with no gap or overlap and together span
/// the range of node `i`.
pub open spec fn splits_into(keys: Seq<u64>, ranges: Seq<Span>, i: int, k: int) -> bool {
    let n = keys.len() as int;
    let node = ranges[n + i];
    let left = ranges[left_child(node.lo as int, k, n)];
    let right = ranges[right_child(node.hi as int, k, n)];
    &&& is_split(keys, i, node.lo as int, node.hi as int, k)
    &&& left.lo == node.lo
    &&& left.hi == k
    &&& left.hi + 1 == right.lo
    &&& right.hi == node.hi
}

/// Each internal node splits its range between the two nodes it points to:
/// the left one covers exactly `[lo, k]` and the right one `[k + 1, hi]`, so
/// their ranges meet with no gap or overlap and span the node's own.
pub proof fn lemma_children_partition(
    keys: Seq<u64>,
    ranges: Seq<Span>,
    parents: Seq<usize>,
    siblings: Seq<usize>,
    i: int,
)
    requires
        strictly_increasing(keys),
        is_topology(keys, ranges, parents, siblings),
        0 <= i < keys.len() - 1,
    ensures
        exists|k: int| #[trigger] splits_into(keys, ranges, i, k),
{
    let n = keys.len() as int;
    let lo = ranges[n + i].lo as int;
    let hi = ranges[n + i].hi as int;
    assert(is_node_range(keys, i, lo, hi));
    assert(has_split(keys, ranges, i));
    let k = choose|k: int| #[trigger] is_split(keys, i, lo, hi, k);
    lemma_child_ranges(keys, i, lo, hi, k);
    if lo < k {
        assert(is_node_range(keys, k, ranges[n + k].lo as int, ranges[n + k].hi as int));
        lemma_node_range_unique(keys, k, lo, k, ranges[n + k].lo as int, ranges[n + k].hi as int);
    } else {
        assert(ranges[k] == (Span { lo: k as usize, hi: k as usize }));
    }
    if k + 1 < hi {
        assert(is_node_range(keys, k + 1, ranges[n + (k + 1)].lo as int, ranges[n + (k + 1)].hi as int));
        lemma_node_range_unique(keys, k + 1, k + 1, hi, ranges[n + (k + 1)].lo as int, ranges[n + (k + 1)].hi as int);
    } else {
        assert(ranges[k + 1] == (Span { lo: (k + 1) as usize, hi: (k + 1) as usize }));
    }
    assert(splits_into(keys, ranges, i, k));
}

/// Node `c` is one of the two parts that internal node `i` splits into.
pub open spec fn is_part_of(keys: Seq<u64>, ranges: Seq<Span>, c: int, i: int) -> bool {
    c == left_of(keys, ranges, i) || c == right_of(keys, ranges, i)
}

/// The parts of the first `m` internal nodes.
pub open spec fn parts_upto(keys: Seq<u64>, ranges: Seq<Span>, m: int) -> Set<int>
    decreases m,
{
    if m <= 0 {
        Set::empty()
    } else {
        parts_upto(keys, ranges, m - 1).insert(left_of(keys, ranges, m - 1)).insert(
            right_of(keys, ranges, m - 1),
        )
    }
}

/// Internal node `i` of the topology, with the range and split that it records.
proof fn lemma_topology_node(
    keys: Seq<u64>,
    ranges: Seq<Span>,
    parents: Seq<usize>,
    siblings: Seq<usize>,
    i: int,
)
    requires
        strictly_increasing(keys),
        is_topology(keys, ranges, parents, siblings),
        0 <= i < keys.len() - 1,
    ensures
        node_split(keys, i, ranges[keys.len() + i].lo as int, ranges[keys.len() + i].hi as int, split_of(keys, ranges, i)),
        0 <= left_of(keys, ranges, i) < 2 * keys.len() - 1,
        0 <= right_of(keys, ranges, i) < 2 * keys.len() - 1,
        left_of(keys, ranges, i) != root_node(keys.len() as int),
        right_of(keys, ranges, i) != root_node(keys.len() as int),
        left_of(keys, ranges, i) != right_of(keys, ranges, i),
{
    let n = keys.len() as int;
    let lo = ranges[n + i].lo as int;
    let hi = ranges[n + i].hi as int;
    assert(is_node_range(keys, i, lo, hi));
    assert(has_split(keys, ranges, i));
    lemma_node_bounds(keys, i, lo, hi, split_of(keys, ranges, i));
}

/// The first `m` internal nodes have `2m` distinct parts, none of them the root.
proof fn lemma_parts_upto(
    keys: Seq<u64>,
    ranges: Seq<Span>,
    parents: Seq<usize>,
    siblings: Seq<usize>,
    m: int,
)
    requires
        strictly_increasing(keys),
        is_topology(keys, ranges, parents, siblings),
        0 <= m <= keys.len() - 1,
    ensures
        parts_upto(keys, ranges, m).finite(),
        parts_upto(keys, ranges, m).len() == 2 * m,
        forall|c: int| #[trigger]
            parts_upto(keys, ranges, m).contains(c) ==> 0 <= c < 2 * keys.len() - 1 && c != root_node(
                keys.len() as int,
            ) && exists|i: int| 0 <= i < m && #[trigger] is_part_of(keys, ranges, c, i),
    decreases m,
{
    if m > 0 {
        let n = keys.len() as int;
        let prev = parts_upto(keys, ranges, m - 1);
        lemma_parts_upto(keys, ranges, parents, siblings, m - 1);
        let i2 = m - 1;
        lemma_topology_node(keys, ranges, parents, siblings, i2);
        let l = left_of(keys, ranges, i2);
        let r = right_of(keys, ranges, i2);
        assert forall|c: int| prev.contains(c) implies c != l && c != r by {
            let i1 = choose|i1: int| 0 <= i1 < m - 1 && #[trigger] is_part_of(keys, ranges, c, i1);
            lemma_topology_node(keys, ranges, parents, siblings, i1);
            lemma_children_disjoint(
                keys,
                i1,
                ranges[n + i1].lo as int,
                ranges[n + i1].hi as int,
                split_of(keys, ranges, i1),
                i2,
                ranges[n + i2].lo as int,
                ranges[n + i2].hi as int,
                split_of(keys, ranges, i2),
            );
        }
        assert(is_part_of(keys, ranges, l, i2));
        assert(is_part_of(keys, ranges, r, i2));
    }
}

/// Every node but the root is a part of exactly one internal node, and names
/// that node as its parent.
pub proof fn lemma_unique_parent(
    keys: Seq<u64>,
    ranges: Seq<Span>,
    parents: Seq<usize>,
    siblings: Seq<usize>,
    c: int,
)
    requires
        strictly_increasing(keys),
        is_topology(keys, ranges, parents, siblings),
        0 <= c < 2 * keys.len() - 1,
        c != root_node(keys.len() as int),
    ensures
        exists|i: int|
            0 <= i < keys.len() - 1 && #[trigger] is_part_of(keys, ranges, c, i) && parents[c] == keys.len() + i,
        forall|i1: int, i2: int|
            0 <= i1 < keys.len() - 1 && 0 <= i2 < keys.len() - 1 && #[trigger] is_part_of(keys, ranges, c, i1)
                && #[trigger] is_part_of(keys, ranges, c, i2) ==> i1 == i2,
{
    let n = keys.len() as int;
    let all = set_int_range(0, 2 * n - 1).remove(root_node(n));
    let parts = parts_upto(keys, ranges, n - 1);
    lemma_int_range(0, 2 * n - 1);
    lemma_parts_upto(keys, ranges, parents, siblings, n - 1);
    assert(parts.subset_of(all));
    lemma_subset_equality(parts, all);
    assert(all.contains(c));
    let i = choose|i: int| 0 <= i < n - 1 && #[trigger] is_part_of(keys, ranges, c, i);
    assert(links_ok(keys, ranges, parents, siblings, i));
    assert forall|i1: int, i2: int|
        0 <= i1 < n - 1 && 0 <= i2 < n - 1 && #[trigger] is_part_of(keys, ranges, c, i1)
            && #[trigger] is_part_of(keys, ranges, c, i2) implies i1 == i2 by {
        if i1 != i2 {
            lemma_topology_node(keys, ranges, parents, siblings, i1);
            lemma_topology_node(keys, ranges, parents, siblings, i2);
            lemma_children_disjoint(
                keys,
                i1,
                ranges[n + i1].lo as int,
                ranges[n + i1].hi as int,
                split_of(keys, ranges, i1),
                i2,
                ranges[n + i2].lo as int,
                ranges[n + i2].hi as int,
                split_of(keys, ranges, i2),
            );
        }
    }
}

} // verus!
